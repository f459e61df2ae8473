//! Everything that can be tuned about a world.
use crate::chunk::{dominant_zone, lemma_strongest, strongest};
use crate::interior::placement::orderly;
use crate::interior::usable;
use crate::data::InteriorId;
use crate::double::error::{
    lemma_difference_at_most, lemma_powers, lemma_small_worth, lemma_sum_error, lemma_worth_value,
    plain, worth,
};
use crate::double::{lemma_double, F64};
use crate::float::laws::off;
use crate::float::lemma_pow2_values;
use crate::layout::{
    blueprint_defaults, default_blueprints, is_stock, stock_rooms, storeys, Blueprint,
    BlueprintRoom, BuildingRole, DoorSide, InteriorContext, DEFAULT_FLOOR_HEIGHT,
    DEFAULT_MAX_FLOORS, MAX_BLUEPRINT_ROOMS,
};
use crate::single::{lemma_single, F32};
use crate::zones::{ZoneParams, ZoneType, ZONE_COUNT};
use vstd::arithmetic::power2::{
    lemma2_to64, lemma_pow2_adds, lemma_pow2_pos, lemma_pow2_unfold, pow2,
};
use vstd::prelude::*;

pub mod laws;

verus! {

/// World units per storey.
pub fn default_interior_floor_height() -> (h: F32)
    ensures
        h == (F32 { bits: DEFAULT_FLOOR_HEIGHT }),
{
    F32::from_bits(DEFAULT_FLOOR_HEIGHT)
}

/// Most storeys of an interior.
pub fn default_interior_max_floors() -> (n: u8)
    ensures
        n == DEFAULT_MAX_FLOORS,
{
    DEFAULT_MAX_FLOORS
}

/// The stock blueprints of every zone.
pub fn default_interior_blueprints() -> (t: [Blueprint; ZONE_COUNT])
    ensures
        forall|i: int| 0 <= i < ZONE_COUNT ==> is_stock(#[trigger] t[i], ZoneType::at(i as nat)),
{
    default_blueprints()
}

/// The stock hues of the zones.
pub fn default_zone_hues() -> (h: [[u8; 3]; ZONE_COUNT])
    ensures
        h[0]@ == seq![100u8, 150, 220],
        h[1]@ == seq![96u8, 180, 90],
        h[2]@ == seq![235u8, 160, 70],
        h[3]@ == seq![150u8, 130, 115],
        h[4]@ == seq![140u8, 205, 120],
{
    let h: [[u8; 3]; ZONE_COUNT] = [
        [100, 150, 220],
        [96, 180, 90],
        [235, 160, 70],
        [150, 130, 115],
        [140, 205, 120],
    ];
    assert(h[0]@ =~= seq![100u8, 150, 220]);
    assert(h[1]@ =~= seq![96u8, 180, 90]);
    assert(h[2]@ =~= seq![235u8, 160, 70]);
    assert(h[3]@ =~= seq![150u8, 130, 115]);
    assert(h[4]@ =~= seq![140u8, 205, 120]);
    h
}

/// Everything that shapes a world.
#[derive(Clone, Copy, Debug, PartialEq, Eq)]
pub struct WorldConfig {
    /// World seed; one seed is one city.
    pub seed: u64,
    /// Cells per chunk side.
    pub chunk_size: u16,
    /// How many chunks away from the centre a chunk stays cached.
    pub draw_distance: u32,
    /// Number of district sites.
    pub voronoi_site_count: u16,
    /// Half the extent that sites are spread over.
    pub voronoi_span: F64,
    /// Exponent of the inverse-distance weights.
    pub shepard_power: F64,
    /// Guard against a distance of zero.
    pub shepard_epsilon: F64,
    /// Share of the sites that each zone gets.
    pub zone_weights: [F64; ZONE_COUNT],
    /// The parameters of each zone.
    pub zones: [ZoneParams; ZONE_COUNT],
    /// The hue of each zone.
    pub zone_hues: [[u8; 3]; ZONE_COUNT],
    /// Least and greatest width of a placeholder interior.
    pub interior_width_range: [u16; 2],
    /// Least and greatest depth of a placeholder interior.
    pub interior_height_range: [u16; 2],
    /// World units per storey.
    pub interior_floor_height: F32,
    /// Most storeys of an interior.
    pub interior_max_floors: u8,
    /// The rule table of each zone.
    pub interior_blueprints: [Blueprint; ZONE_COUNT],
}

/// Zone parameters written out in one line.
pub open spec fn fabric(
    height_min: u32,
    height_max: u32,
    density: u32,
    block_size: u8,
    palette_count: u8,
    arterial_every: u8,
) -> ZoneParams {
    ZoneParams {
        height_min: F32 { bits: height_min },
        height_max: F32 { bits: height_max },
        density: F32 { bits: density },
        block_size,
        palette_count,
        arterial_every,
    }
}

/// The stock parameters of a zone.
pub open spec fn stock_params(zone: ZoneType) -> ZoneParams {
    match zone {
        // Heights 40 to 200, density 0.95.
        ZoneType::Downtown => fabric(0x4220_0000, 0x4348_0000, 0x3f73_3333, 11, 6, 4),
        // Heights 4 to 18, density 0.8.
        ZoneType::Residential => fabric(0x4080_0000, 0x4190_0000, 0x3f4c_cccd, 8, 5, 4),
        // Heights 12 to 60, density 0.9.
        ZoneType::Commercial => fabric(0x4140_0000, 0x4270_0000, 0x3f66_6666, 9, 7, 4),
        // Heights 6 to 25, density 0.7.
        ZoneType::Industrial => fabric(0x40c0_0000, 0x41c8_0000, 0x3f33_3333, 12, 4, 4),
        // Heights 0 to 2, density 0.1.
        ZoneType::Park => fabric(0, 0x4000_0000, 0x3dcc_cccd, 16, 3, 0),
    }
}

/// Zone parameters from their fields.
fn params(
    height_min: u32,
    height_max: u32,
    density: u32,
    block_size: u8,
    palette_count: u8,
    arterial_every: u8,
) -> (p: ZoneParams)
    ensures
        p == fabric(height_min, height_max, density, block_size, palette_count, arterial_every),
{
    ZoneParams {
        height_min: F32::from_bits(height_min),
        height_max: F32::from_bits(height_max),
        density: F32::from_bits(density),
        block_size,
        palette_count,
        arterial_every,
    }
}

impl WorldConfig {
    /// The stock configuration.
    pub open spec fn is_default(self) -> bool {
        &&& self.seed == 0
        &&& self.chunk_size == 32
        &&& self.draw_distance == 8
        &&& self.voronoi_site_count == 32
        // Span 10000, power 4, epsilon 1e-8.
        &&& self.voronoi_span.bits == 0x40c3_8800_0000_0000
        &&& self.shepard_power.bits == 0x4010_0000_0000_0000
        &&& self.shepard_epsilon.bits == 0x3e45_798e_e230_8c3a
        // Shares 0.25, 0.3, 0.2, 0.15, 0.1.
        &&& self.zone_weights[0].bits == 0x3fd0_0000_0000_0000
        &&& self.zone_weights[1].bits == 0x3fd3_3333_3333_3333
        &&& self.zone_weights[2].bits == 0x3fc9_9999_9999_999a
        &&& self.zone_weights[3].bits == 0x3fc3_3333_3333_3333
        &&& self.zone_weights[4].bits == 0x3fb9_9999_9999_999a
        &&& forall|i: int|
            0 <= i < ZONE_COUNT ==> #[trigger] self.zones[i] == stock_params(
                ZoneType::at(i as nat),
            )
        &&& self.zone_hues[0]@ == seq![100u8, 150, 220]
        &&& self.zone_hues[1]@ == seq![96u8, 180, 90]
        &&& self.zone_hues[2]@ == seq![235u8, 160, 70]
        &&& self.zone_hues[3]@ == seq![150u8, 130, 115]
        &&& self.zone_hues[4]@ == seq![140u8, 205, 120]
        &&& self.interior_width_range[0] == 6 && self.interior_width_range[1] == 14
        &&& self.interior_height_range[0] == 6 && self.interior_height_range[1] == 14
        &&& self.interior_floor_height.bits == DEFAULT_FLOOR_HEIGHT
        &&& self.interior_max_floors == DEFAULT_MAX_FLOORS
        &&& forall|i: int|
            0 <= i < ZONE_COUNT ==> is_stock(
                #[trigger] self.interior_blueprints[i],
                ZoneType::at(i as nat),
            )
    }
}

impl Default for WorldConfig {
    fn default() -> (c: WorldConfig)
        ensures
            c.is_default(),
    {
        WorldConfig {
            seed: 0,
            chunk_size: 32,
            draw_distance: 8,
            voronoi_site_count: 32,
            voronoi_span: F64::from_bits(0x40c3_8800_0000_0000),
            shepard_power: F64::from_bits(0x4010_0000_0000_0000),
            shepard_epsilon: F64::from_bits(0x3e45_798e_e230_8c3a),
            zone_weights: [
                F64::from_bits(0x3fd0_0000_0000_0000),
                F64::from_bits(0x3fd3_3333_3333_3333),
                F64::from_bits(0x3fc9_9999_9999_999a),
                F64::from_bits(0x3fc3_3333_3333_3333),
                F64::from_bits(0x3fb9_9999_9999_999a),
            ],
            zones: [
                params(0x4220_0000, 0x4348_0000, 0x3f73_3333, 11, 6, 4),
                params(0x4080_0000, 0x4190_0000, 0x3f4c_cccd, 8, 5, 4),
                params(0x4140_0000, 0x4270_0000, 0x3f66_6666, 9, 7, 4),
                params(0x40c0_0000, 0x41c8_0000, 0x3f33_3333, 12, 4, 4),
                params(0, 0x4000_0000, 0x3dcc_cccd, 16, 3, 0),
            ],
            zone_hues: default_zone_hues(),
            interior_width_range: [6, 14],
            interior_height_range: [6, 14],
            interior_floor_height: default_interior_floor_height(),
            interior_max_floors: default_interior_max_floors(),
            interior_blueprints: default_interior_blueprints(),
        }
    }
}

/// The shares of the first `n` zones added up in order.
pub open spec fn share_total(w: [F64; ZONE_COUNT], n: int) -> F64
    decreases n,
{
    if n <= 0 {
        F64 { bits: 0 }
    } else {
        share_total(w, n - 1).sum(w[n - 1])
    }
}

/// Are the shares from 0 to 1 each and within a millionth of 1 together?
pub open spec fn valid_shares(w: [F64; ZONE_COUNT]) -> bool {
    let one = F64 { bits: 0x3ff0_0000_0000_0000 };
    &&& !(F64 { bits: 0x3eb0_c6f7_a0b5_ed8d }).below(
        share_total(w, ZONE_COUNT as int).difference(one).absolute(),
    )
    &&& forall|i: int| 0 <= i < ZONE_COUNT ==> (#[trigger] w[i]).within(F64 { bits: 0 }, one)
}

/// Are the parameters of a zone in range?
pub open spec fn valid_params(p: ZoneParams) -> bool {
    &&& !p.height_max.below(p.height_min)
    &&& (F32 { bits: 0 }).at_most(p.density) && p.density.at_most(F32 { bits: 0x3f80_0000 })
    &&& p.block_size != 0
    &&& p.palette_count != 0
}

/// Are the bounds of a room template in range?
pub open spec fn valid_template(r: BlueprintRoom) -> bool {
    &&& !r.weight.below(F32 { bits: 0 })
    &&& 0 < r.min_w <= r.max_w
    &&& 0 < r.min_d <= r.max_d
}

/// Is a blueprint in range?
pub open spec fn valid_blueprint(b: Blueprint) -> bool {
    &&& b.core_size != 0
    &&& b.room_count <= MAX_BLUEPRINT_ROOMS
    &&& forall|i: int| 0 <= i < b.live().len() ==> valid_template(#[trigger] b.live()[i])
}

impl WorldConfig {
    /// Is every field in its range?
    pub open spec fn valid(self) -> bool {
        &&& 1 <= self.chunk_size <= 256
        &&& self.draw_distance != 0
        &&& 16 <= self.voronoi_site_count <= 64
        // From 100 to 100000.
        &&& self.voronoi_span.within(
            F64 { bits: 0x4059_0000_0000_0000 },
            F64 { bits: 0x40f8_6a00_0000_0000 },
        )
        // From 0.1 to 10.
        &&& self.shepard_power.within(
            F64 { bits: 0x3fb9_9999_9999_999a },
            F64 { bits: 0x4024_0000_0000_0000 },
        )
        // From 1e-12 to 1e-3.
        &&& self.shepard_epsilon.within(
            F64 { bits: 0x3d71_9799_812d_ea11 },
            F64 { bits: 0x3f50_624d_d2f1_a9fc },
        )
        &&& valid_shares(self.zone_weights)
        &&& forall|i: int| 0 <= i < ZONE_COUNT ==> valid_params(#[trigger] self.zones[i])
        &&& 0 < self.interior_width_range[0] <= self.interior_width_range[1]
        &&& 0 < self.interior_height_range[0] <= self.interior_height_range[1]
        // From 1e-6 to 1000.
        &&& (F32 { bits: 0x3586_37bd }).at_most(self.interior_floor_height)
        &&& self.interior_floor_height.at_most(F32 { bits: 0x447a_0000 })
        &&& self.interior_max_floors != 0
        &&& self.valid_plans()
    }

    /// Is every rule table in range?
    pub open spec fn valid_plans(self) -> bool {
        forall|i: int|
            0 <= i < ZONE_COUNT ==> valid_blueprint(#[trigger] self.interior_blueprints[i])
    }

    /// Is every field in its range?
    pub fn is_valid(&self) -> (b: bool)
        ensures
            b == self.valid(),
    {
        if self.chunk_size == 0 || self.chunk_size > 256 {
            return false;
        }
        if self.draw_distance == 0 {
            return false;
        }
        if self.voronoi_site_count < 16 || self.voronoi_site_count > 64 {
            return false;
        }
        if !self.voronoi_span.is_within(
            F64::from_bits(0x4059_0000_0000_0000),
            F64::from_bits(0x40f8_6a00_0000_0000),
        ) {
            return false;
        }
        if !self.shepard_power.is_within(
            F64::from_bits(0x3fb9_9999_9999_999a),
            F64::from_bits(0x4024_0000_0000_0000),
        ) {
            return false;
        }
        if !self.shepard_epsilon.is_within(
            F64::from_bits(0x3d71_9799_812d_ea11),
            F64::from_bits(0x3f50_624d_d2f1_a9fc),
        ) {
            return false;
        }
        if !shares_are_valid(&self.zone_weights) {
            return false;
        }
        for i in 0..ZONE_COUNT
            invariant
                forall|j: int| 0 <= j < i ==> valid_params(#[trigger] self.zones[j]),
        {
            if !params_are_valid(&self.zones[i]) {
                return false;
            }
        }
        if self.interior_width_range[0] > self.interior_width_range[1]
            || self.interior_height_range[0] > self.interior_height_range[1] {
            return false;
        }
        if self.interior_width_range[0] == 0 || self.interior_height_range[0] == 0 {
            return false;
        }
        if !(F32::from_bits(0x3586_37bd).le(self.interior_floor_height)
            && self.interior_floor_height.le(F32::from_bits(0x447a_0000))) {
            return false;
        }
        if self.interior_max_floors == 0 {
            return false;
        }
        for i in 0..ZONE_COUNT
            invariant
                forall|j: int|
                    0 <= j < i ==> valid_blueprint(#[trigger] self.interior_blueprints[j]),
        {
            if !blueprint_is_valid(&self.interior_blueprints[i]) {
                return false;
            }
        }
        true
    }

    /// The parameters of a zone.
    pub fn zone_params_for(&self, zone: ZoneType) -> (p: ZoneParams)
        ensures
            p == self.zones[zone.ordinal() as int],
    {
        self.zones[zone.index()]
    }

    /// The hue of a zone.
    pub fn hue_for(&self, zone: ZoneType) -> (h: [u8; 3])
        ensures
            h == self.zone_hues[zone.ordinal() as int],
    {
        self.zone_hues[zone.index()]
    }

    /// The parameters at a point with the given pull of the zones. Heights,
    /// density and palettes are averages weighted by the pull; the grid
    /// (block size and avenues) comes whole from the strongest zone, so that
    /// no point gets a spacing that no zone has. Without any pull the point is
    /// residential.
    pub open spec fn blended(self, a: [F32; ZONE_COUNT]) -> ZoneParams {
        let n = ZONE_COUNT as int;
        let total = pull_total(a, n);
        if total.at_most(F32 { bits: EPSILON }) {
            self.zones[ZoneType::Residential.ordinal() as int]
        } else {
            let inv = (F32 { bits: 0x3f80_0000 }).quotient(total);
            let main = self.zones[strongest(a, n)];
            ZoneParams {
                height_min: pulled(a, self.zones, Trait::HeightMin, n).product(inv),
                height_max: pulled(a, self.zones, Trait::HeightMax, n).product(inv),
                density: pulled(a, self.zones, Trait::Density, n).product(inv),
                palette_count: pulled(a, self.zones, Trait::Palettes, n).product(
                    inv,
                ).round_within(255) as u8,
                ..main
            }
        }
    }

    /// The parameters at a point with the given pull of the zones.
    pub fn blended_zone_params(&self, affinity: &[F32; ZONE_COUNT]) -> (p: ZoneParams)
        ensures
            p == self.blended(*affinity),
    {
        let zero: F32 = F32::from_bits(0);
        let mut total: F32 = zero;
        let mut min_sum: F32 = zero;
        let mut max_sum: F32 = zero;
        let mut density_sum: F32 = zero;
        let mut palette_sum: F32 = zero;
        for i in 0..ZONE_COUNT
            invariant
                total == pull_total(*affinity, i as int),
                min_sum == pulled(*affinity, self.zones, Trait::HeightMin, i as int),
                max_sum == pulled(*affinity, self.zones, Trait::HeightMax, i as int),
                density_sum == pulled(*affinity, self.zones, Trait::Density, i as int),
                palette_sum == pulled(*affinity, self.zones, Trait::Palettes, i as int),
        {
            let w: F32 = affinity[i];
            let z: ZoneParams = self.zones[i];
            total = total.plus(w);
            min_sum = min_sum.plus(w.times(z.height_min));
            max_sum = max_sum.plus(w.times(z.height_max));
            density_sum = density_sum.plus(w.times(z.density));
            palette_sum = palette_sum.plus(w.times(F32::from_u32(z.palette_count as u32)));
        }
        if total.le(F32::from_bits(EPSILON)) {
            return self.zones[ZoneType::Residential.index()];
        }
        let inv: F32 = F32::from_bits(0x3f80_0000).over(total);
        let main: ZoneParams = self.zones[dominant_zone(affinity).index()];
        ZoneParams {
            height_min: min_sum.times(inv),
            height_max: max_sum.times(inv),
            density: density_sum.times(inv),
            block_size: main.block_size,
            palette_count: palette_sum.times(inv).round_to_u8(),
            arterial_every: main.arterial_every,
        }
    }

    /// The rule table of a zone; the stock table where the configured one has
    /// no template.
    pub fn blueprint_for(&self, zone: ZoneType) -> (b: Blueprint)
        ensures
            ({
                let own = self.interior_blueprints[zone.ordinal() as int];
                if own.room_count == 0 {
                    is_stock(b, zone)
                } else {
                    b == own
                }
            }),
    {
        let own: Blueprint = self.interior_blueprints[zone.index()];
        if own.is_empty() {
            blueprint_defaults(zone)
        } else {
            own
        }
    }

    /// The context of an interior, its storeys counted by this configuration.
    pub fn interior_context(
        &self,
        id: InteriorId,
        zone: ZoneType,
        zone_affinity: &[F32; ZONE_COUNT],
        height: F32,
        footprint_w: u8,
        footprint_d: u8,
        palette_id: u8,
        door_side: DoorSide,
        seed: u64,
        corner: bool,
        building_role: BuildingRole,
        secondary_zone: ZoneType,
    ) -> (c: InteriorContext)
        ensures
            c == (InteriorContext {
                id,
                zone,
                zone_affinity: *zone_affinity,
                height,
                floor_count: storeys(
                    height,
                    self.interior_floor_height,
                    self.interior_max_floors,
                ) as u8,
                footprint_w,
                footprint_d,
                palette_id,
                door_side,
                seed,
                corner,
                frontage_depth: if door_side == DoorSide::West || door_side == DoorSide::East {
                    footprint_w
                } else {
                    footprint_d
                },
                building_role,
                secondary_zone,
            }),
    {
        InteriorContext::new(
            id,
            zone,
            *zone_affinity,
            height,
            self.interior_floor_height,
            self.interior_max_floors,
            footprint_w,
            footprint_d,
            palette_id,
            door_side,
            seed,
            corner,
            building_role,
            secondary_zone,
        )
    }
}

/// The gap between 1 and the next single: two to the minus 23.
pub const EPSILON: u32 = 0x3400_0000;

/// A blended parameter.
pub enum Trait {
    HeightMin,
    HeightMax,
    Density,
    Palettes,
}

/// The value of a parameter.
pub open spec fn trait_of(p: ZoneParams, t: Trait) -> F32 {
    match t {
        Trait::HeightMin => p.height_min,
        Trait::HeightMax => p.height_max,
        Trait::Density => p.density,
        Trait::Palettes => F32::integer(p.palette_count as nat),
    }
}

/// The pull of the first `n` zones added up in order.
pub open spec fn pull_total(a: [F32; ZONE_COUNT], n: int) -> F32
    decreases n,
{
    if n <= 0 {
        F32 { bits: 0 }
    } else {
        pull_total(a, n - 1).sum(a[n - 1])
    }
}

/// A parameter of the first `n` zones, each times its pull, added up in order.
pub open spec fn pulled(
    a: [F32; ZONE_COUNT],
    zones: [ZoneParams; ZONE_COUNT],
    t: Trait,
    n: int,
) -> F32
    decreases n,
{
    if n <= 0 {
        F32 { bits: 0 }
    } else {
        pulled(a, zones, t, n - 1).sum(a[n - 1].product(trait_of(zones[n - 1], t)))
    }
}

/// Are the shares in range?
fn shares_are_valid(w: &[F64; ZONE_COUNT]) -> (b: bool)
    ensures
        b == valid_shares(*w),
{
    let one: F64 = F64::from_bits(0x3ff0_0000_0000_0000);
    let mut sum: F64 = F64::from_bits(0);
    for i in 0..ZONE_COUNT
        invariant
            sum == share_total(*w, i as int),
    {
        sum = sum.plus(w[i]);
    }
    if F64::from_bits(0x3eb0_c6f7_a0b5_ed8d).lt(sum.minus(one).abs()) {
        return false;
    }
    for i in 0..ZONE_COUNT
        invariant
            one == (F64 { bits: 0x3ff0_0000_0000_0000 }),
            forall|j: int| 0 <= j < i ==> (#[trigger] w[j]).within(F64 { bits: 0 }, one),
    {
        if !w[i].is_within(F64::from_bits(0), one) {
            assert(!w[i as int].within(F64 { bits: 0 }, one));
            return false;
        }
    }
    true
}

/// Are the parameters of a zone in range?
fn params_are_valid(p: &ZoneParams) -> (b: bool)
    ensures
        b == valid_params(*p),
{
    if p.height_max.lt(p.height_min) {
        return false;
    }
    if !(F32::from_bits(0).le(p.density) && p.density.le(F32::from_bits(0x3f80_0000))) {
        return false;
    }
    p.block_size != 0 && p.palette_count != 0
}

/// Is a blueprint in range?
fn blueprint_is_valid(b: &Blueprint) -> (r: bool)
    ensures
        r == valid_blueprint(*b),
{
    if b.core_size == 0 || b.room_count as usize > MAX_BLUEPRINT_ROOMS {
        return false;
    }
    let rooms = b.room_slice();
    for i in 0..rooms.len()
        invariant
            rooms@ == b.live(),
            forall|j: int| 0 <= j < i ==> valid_template(#[trigger] rooms@[j]),
    {
        let t: BlueprintRoom = rooms[i];
        if t.weight.lt(F32::from_bits(0)) || t.min_w == 0 || t.max_w < t.min_w || t.min_d == 0
            || t.max_d < t.min_d {
            assert(!valid_template(b.live()[i as int]));
            return false;
        }
    }
    true
}

/// Which of the two file formats a configuration is read in.
#[derive(Clone, Copy, Debug, PartialEq, Eq, Structural)]
pub enum ConfigFormat {
    /// TOML only.
    Toml,
    /// JSON only.
    Json,
    /// TOML, and JSON where that fails.
    TomlOrJson,
}

/// The format of a configuration file, by its extension.
pub fn format_for_extension(ext: &str) -> (f: ConfigFormat)
    ensures
        f == (if ext@ == "toml"@ {
            ConfigFormat::Toml
        } else if ext@ == "json"@ {
            ConfigFormat::Json
        } else {
            ConfigFormat::TomlOrJson
        }),
{
    let ext: String = ext.to_owned();
    if ext == "toml".to_owned() {
        ConfigFormat::Toml
    } else if ext == "json".to_owned() {
        ConfigFormat::Json
    } else {
        ConfigFormat::TomlOrJson
    }
}

/// The stock configuration is valid as far as its rule tables go.
pub proof fn lemma_stock_plans(c: WorldConfig)
    requires
        c.is_default(),
    ensures
        c.valid_plans(),
{
    assert forall|i: int| 0 <= i < ZONE_COUNT implies valid_blueprint(
        #[trigger] c.interior_blueprints[i],
    ) by {
        let b = c.interior_blueprints[i];
        let zone = ZoneType::at(i as nat);
        assert(is_stock(b, zone));
        assert forall|k: int| 0 <= k < b.live().len() implies valid_template(
            #[trigger] b.live()[k],
        ) by {
            assert(b.live()[k] == b.rooms[k]);
            assert(b.rooms[k] == stock_rooms(zone)[k]);
            reveal(F32::below);
            lemma_single();
        }
    }
}

/// What an exponent field and a significand come to, counted in two to the
/// minus 72.
proof fn lemma_share_worth(x: F64, k: nat, a: nat) -> (n: nat)
    requires
        x.bits == (1002 + k) * 0x10_0000_0000_0000 + a,
        0x10_0000_0000_0000 <= a < 0x20_0000_0000_0000,
        k <= 20,
    ensures
        plain(x),
        n == a * pow2(k),
        worth(x) == n * pow2(1002),
{
    lemma_worth_value(x, 1002 + k, a);
    lemma_pow2_adds(k, 1002);
    assert(a * (pow2(k) * pow2(1002)) == (a * pow2(k)) * pow2(1002)) by (nonlinear_arith);
    a * pow2(k)
}

/// Is the number within `slack` of `n`, so counted?
spec fn near(x: F64, n: int, slack: int) -> bool {
    &&& plain(x)
    &&& (n - slack) * pow2(1002) <= worth(x) <= (n + slack) * pow2(1002)
}

/// A sum adds less than two to the 22 to what was left open before.
proof fn lemma_share_sum(a: F64, b: F64, n: int, slack: int, m: nat)
    requires
        near(a, n, slack),
        plain(b),
        worth(b) == m * pow2(1002),
        0 <= slack <= 0x1000_0000,
        0 <= n,
        n + m <= 0x20_0000_0000_0000 * 0x1f_ffff,
    ensures
        near(a.sum(b), n + m, slack + 0x40_0000),
{
    let u = pow2(1002);
    let e = worth(a) + worth(b);
    let top = 0x20_0000_0000_0000 * 0x20_0000;
    lemma_pow2_pos(1002);
    lemma_pow2_values();
    lemma2_to64();
    lemma_pow2_adds(53, 21);
    lemma_pow2_adds(74, 1002);
    lemma_powers(1076, 2096);
    lemma_pow2_unfold(2097);
    lemma_pow2_pos(2096);
    assert((n + slack) * u + m * u == (n + m + slack) * u) by (nonlinear_arith);
    assert((n - slack) * u + m * u == (n + m - slack) * u) by (nonlinear_arith);
    assert((n + m + slack) * u <= top * u) by (nonlinear_arith)
        requires
            n + m + slack <= top,
            u > 0,
    ;
    lemma_sum_error(a, b);
    let err = off(worth(a.sum(b)) as int, e as int);
    assert(err <= 0x20_0000 * u) by (nonlinear_arith)
        requires
            0x20_0000_0000_0000 * err <= e,
            e <= 0x20_0000_0000_0000 * 0x20_0000 * u,
    ;
    assert((n + m - slack) * u - 0x40_0000 * u == (n + m - (slack + 0x40_0000)) * u)
        by (nonlinear_arith);
    assert((n + m + slack) * u + 0x40_0000 * u == (n + m + (slack + 0x40_0000)) * u)
        by (nonlinear_arith);
}

/// The stock shares are in range, and come to 1.
proof fn lemma_stock_shares(c: WorldConfig)
    requires
        c.is_default(),
    ensures
        valid_shares(c.zone_weights),
{
    let w = c.zone_weights;
    let one = F64 { bits: 0x3ff0_0000_0000_0000 };
    let limit = F64 { bits: 0x3eb0_c6f7_a0b5_ed8d };
    let zero = F64 { bits: 0 };
    lemma2_to64();
    lemma_small_worth(zero);
    let n0 = lemma_share_worth(w[0], 18, 0x10_0000_0000_0000);
    let n1 = lemma_share_worth(w[1], 18, 0x13_3333_3333_3333);
    let n2 = lemma_share_worth(w[2], 17, 0x19_9999_9999_999a);
    let n3 = lemma_share_worth(w[3], 17, 0x13_3333_3333_3333);
    let n4 = lemma_share_worth(w[4], 16, 0x19_9999_9999_999a);
    let whole = lemma_share_worth(one, 20, 0x10_0000_0000_0000);
    let most = lemma_share_worth(limit, 0, 0x10_c6f7_a0b5_ed8d);
    let o: int = 0x40_0000;
    assert(near(zero, 0, 0)) by (nonlinear_arith)
        requires
            plain(zero),
            worth(zero) == 0,
    ;
    let t1 = zero.sum(w[0]);
    lemma_share_sum(zero, w[0], 0, 0, n0);
    let t2 = t1.sum(w[1]);
    lemma_share_sum(t1, w[1], n0 as int, o, n1);
    let t3 = t2.sum(w[2]);
    lemma_share_sum(t2, w[2], (n0 + n1) as int, 2 * o, n2);
    let t4 = t3.sum(w[3]);
    lemma_share_sum(t3, w[3], (n0 + n1 + n2) as int, 3 * o, n3);
    let t5 = t4.sum(w[4]);
    lemma_share_sum(t4, w[4], (n0 + n1 + n2 + n3) as int, 4 * o, n4);
    let sum = n0 + n1 + n2 + n3 + n4;
    let u = pow2(1002);
    lemma_pow2_pos(1002);
    assert(off(worth(t5) as int, worth(one) as int) <= worth(limit)) by (nonlinear_arith)
        requires
            (sum - 5 * o) * u <= worth(t5) <= (sum + 5 * o) * u,
            worth(one) == whole * u,
            worth(limit) == most * u,
            sum - 5 * o >= whole - most,
            sum + 5 * o <= whole + most,
            u > 0,
    {
        assert((sum - 5 * o) * u >= (whole - most) * u);
        assert((sum + 5 * o) * u <= (whole + most) * u);
        assert((whole - most) * u == whole * u - most * u);
        assert((whole + most) * u == whole * u + most * u);
    }
    reveal_with_fuel(share_total, 6);
    assert(share_total(w, ZONE_COUNT as int) == t5);
    lemma_difference_at_most(t5, one, limit);
    assert forall|i: int| 0 <= i < ZONE_COUNT implies (#[trigger] w[i]).within(zero, one) by {
        reveal(F64::at_most);
        lemma_double();
    }
}

/// The stock configuration is valid.
pub proof fn law_stock_is_valid(c: WorldConfig)
    requires
        c.is_default(),
    ensures
        c.valid(),
{
    lemma_stock_plans(c);
    lemma_stock_shares(c);
    reveal(F64::at_most);
    reveal(F32::at_most);
    reveal(F32::below);
    lemma_double();
    lemma_single();
    assert forall|i: int| 0 <= i < ZONE_COUNT implies valid_params(#[trigger] c.zones[i]) by {
        assert(c.zones[i] == stock_params(ZoneType::at(i as nat)));
    }
}

/// The rule tables that a valid configuration gives out are ones that rooms
/// can be placed by: every live template has its size bounds in order.
pub proof fn law_blueprints_usable(c: WorldConfig, zone: ZoneType, b: Blueprint)
    requires
        c.valid_plans(),
        ({
            let own = c.interior_blueprints[zone.ordinal() as int];
            if own.room_count == 0 {
                is_stock(b, zone)
            } else {
                b == own
            }
        }),
    ensures
        usable(b),
{
    let own = c.interior_blueprints[zone.ordinal() as int];
    assert(valid_blueprint(own));
    assert forall|i: int| 0 <= i < b.live().len() implies orderly(#[trigger] b.live()[i]) by {
        if own.room_count == 0 {
            assert(b.live()[i] == b.rooms[i]);
            assert(b.rooms[i] == stock_rooms(zone)[i]);
        } else {
            assert(valid_template(b.live()[i]));
        }
    }
}

/// No point gets a street grid that no zone has: the block size and the
/// avenues are those of one of the zones.
pub proof fn law_grid_is_some_zones(c: WorldConfig, a: [F32; ZONE_COUNT])
    ensures
        exists|i: int|
            0 <= i < ZONE_COUNT && c.blended(a).block_size == (#[trigger] c.zones[i]).block_size
                && c.blended(a).arterial_every == c.zones[i].arterial_every,
{
    lemma_strongest(a, ZONE_COUNT as int);
    let i = if pull_total(a, ZONE_COUNT as int).at_most(F32 { bits: EPSILON }) {
        ZoneType::Residential.ordinal() as int
    } else {
        strongest(a, ZONE_COUNT as int)
    };
    let z = c.zones[i];
    assert(c.blended(a).block_size == z.block_size && c.blended(a).arterial_every
        == z.arterial_every);
}

} // verus!
