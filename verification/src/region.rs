//! Districts: a map of sites, each with a zone, and the smooth field of pulls
//! between them.
//!
//! Positions are world coordinates. The map is drawn once from the seed and
//! never changes, so every chunk sees the same districts.
use crate::config::WorldConfig;
use crate::double::{law_squares_do_not_lower, F64};
use crate::hash::{coord_hash, coord_unit, domain, hash_coords, hash_unit};
use crate::lot::{Diagonal, DistrictFrame, HALF};
use crate::single::F32;
use crate::zones::{ZoneType, ZONE_COUNT};
use vstd::prelude::*;

pub mod boulevards;
pub mod centre;
pub mod draws;
pub mod frames;
pub mod laws;
pub mod measures;

verus! {

/// 1.
pub const ONE: u64 = 0x3ff0_0000_0000_0000;

/// 2.
pub const TWO: u64 = 0x4000_0000_0000_0000;

/// Half a turn, in radians.
pub const PI: u64 = 0x4009_21fb_5444_2d18;

/// A full turn in radians, to single precision.
pub const TURN: u64 = 0x4019_21fb_6000_0000;

/// Half a turn, in degrees.
pub const HALF_TURN_DEGREES: u64 = 0x4066_8000_0000_0000;

/// Beyond every number.
pub const INFINITY: u64 = 0x7ff0_0000_0000_0000;

/// A site: a point that owns a zone.
#[derive(Clone, Copy, Debug, PartialEq, Eq, Structural)]
pub struct VoronoiSite {
    /// Along x.
    pub x: F64,
    /// Along z.
    pub y: F64,
    /// The zone round it.
    pub zone: ZoneType,
}

/// The districts of a world.
#[derive(Clone, Debug, PartialEq, Eq)]
pub struct VoronoiDiagram {
    sites: Vec<VoronoiSite>,
    shepard_power: F64,
    shepard_epsilon: F64,
    seed: u64,
    diagonals: Vec<Diagonal>,
}

/// A draw from `0..1` in double precision.
pub open spec fn long_unit(h: u64) -> F64 {
    F64::fraction((h >> 11) as nat)
}

/// A draw from `0..1` in double precision.
fn long_draw(h: u64) -> (t: F64)
    ensures
        t == long_unit(h),
{
    F64::from_fraction(h >> 11)
}

/// A hash spread over `-span..span`.
pub open spec fn spread(h: u64, span: F64) -> F64 {
    span.negation().sum(long_unit(h).product((F64 { bits: TWO }).product(span)))
}

/// A hash spread over `-span..span`.
pub fn to_span_with(h: u64, span: F64) -> (x: F64)
    ensures
        x == spread(h, span),
{
    span.negated().plus(long_draw(h).times(F64::from_bits(TWO).times(span)))
}

/// The first zone, from `i` on, whose share takes a draw, where the shares
/// before it add up to `acc`; the last zone where none does.
pub open spec fn share_holding(t: F64, w: [F64; ZONE_COUNT], acc: F64, i: int) -> ZoneType
    decreases ZONE_COUNT - i,
{
    if i < 0 || i >= ZONE_COUNT {
        ZoneType::Park
    } else {
        let next = acc.sum(w[i]);
        if t.below(next) {
            ZoneType::at(i as nat)
        } else {
            share_holding(t, w, next, i + 1)
        }
    }
}

/// The zone of a site, drawn in proportion to the shares.
pub open spec fn drawn_zone(h: u64, w: [F64; ZONE_COUNT]) -> ZoneType {
    share_holding(long_unit(h), w, F64 { bits: 0 }, 0)
}

/// The zone of a site, drawn in proportion to the shares.
pub fn pick_zone_with(h: u64, weights: &[F64; ZONE_COUNT]) -> (z: ZoneType)
    ensures
        z == drawn_zone(h, *weights),
{
    let t: F64 = long_draw(h);
    let mut acc: F64 = F64::from_bits(0);
    for i in 0..ZONE_COUNT
        invariant
            drawn_zone(h, *weights) == share_holding(t, *weights, acc, i as int),
    {
        acc = acc.plus(weights[i]);
        if t.lt(acc) {
            return ZoneType::from_index(i);
        }
    }
    ZoneType::Park
}

/// The stock half-extent that sites are spread over: 10000.
pub const SPAN: u64 = 0x40c3_8800_0000_0000;

/// A hash spread over the stock extent.
pub fn to_span(h: u64) -> (x: F64)
    ensures
        x == spread(h, F64 { bits: SPAN }),
{
    to_span_with(h, F64::from_bits(SPAN))
}

/// The zone of a site, drawn with the stock shares.
pub fn pick_zone(h: u64) -> (z: ZoneType)
    ensures
        exists|c: WorldConfig| #[trigger] c.is_default() && z == drawn_zone(h, c.zone_weights),
{
    let c: WorldConfig = WorldConfig::default();
    pick_zone_with(h, &c.zone_weights)
}

/// The square of the distance between two points.
pub open spec fn gap2(ax: F64, ay: F64, bx: F64, by: F64) -> F64 {
    let dx = ax.difference(bx);
    let dy = ay.difference(by);
    dx.product(dx).sum(dy.product(dy))
}

/// The square of the distance between two points.
fn squared_gap(ax: F64, ay: F64, bx: F64, by: F64) -> (d: F64)
    ensures
        d == gap2(ax, ay, bx, by),
{
    let dx: F64 = ax.minus(bx);
    let dy: F64 = ay.minus(by);
    dx.times(dx).plus(dy.times(dy))
}

/// A point that is too far along one axis alone is too far.
proof fn lemma_far_along_one_axis(ax: F64, ay: F64, bx: F64, by: F64, limit: F64)
    ensures
        gap2(ax, ay, bx, by).below(limit) ==> ({
            let dx = ax.difference(bx);
            dx.product(dx).below(limit)
        }),
{
    let dx = ax.difference(bx);
    let dy = ay.difference(by);
    law_squares_do_not_lower(dx, dy, limit);
}

/// The square of the distance of a site from the origin.
pub open spec fn from_origin2(s: VoronoiSite) -> F64 {
    s.x.product(s.x).sum(s.y.product(s.y))
}

/// The first of the first `n` sites that is nearest the origin.
pub open spec fn central(sites: Seq<VoronoiSite>, n: int) -> int
    decreases n,
{
    if n <= 1 {
        0
    } else {
        let best = central(sites, n - 1);
        if from_origin2(sites[n - 1]).below(from_origin2(sites[best])) {
            n - 1
        } else {
            best
        }
    }
}

/// The sites with the most central one made downtown.
pub open spec fn centred(sites: Seq<VoronoiSite>) -> Seq<VoronoiSite> {
    if sites.len() == 0 {
        sites
    } else {
        let c = central(sites, sites.len() as int);
        sites.update(c, VoronoiSite { zone: ZoneType::Downtown, ..sites[c] })
    }
}

/// The square of the distance from site `i` to the nearest of the first `n`
/// others, and the zone of that one.
pub open spec fn nearest_other(sites: Seq<VoronoiSite>, i: int, n: int) -> (F64, ZoneType)
    decreases n,
{
    if n <= 0 {
        (F64 { bits: INFINITY }, ZoneType::Industrial)
    } else {
        let (best, zone) = nearest_other(sites, i, n - 1);
        let other = sites[n - 1];
        let d = gap2(other.x, other.y, sites[i].x, sites[i].y);
        if n - 1 != i && d.below(best) {
            (d, other.zone)
        } else {
            (best, zone)
        }
    }
}

/// The zone of site `i` once industry next to homes has given way to commerce.
pub open spec fn buffered_zone(sites: Seq<VoronoiSite>, i: int) -> ZoneType {
    if sites[i].zone == ZoneType::Industrial && nearest_other(
        sites,
        i,
        sites.len() as int,
    ).1 == ZoneType::Residential {
        ZoneType::Commercial
    } else {
        sites[i].zone
    }
}

/// The sites once industry next to homes has given way to commerce; every
/// site is judged by the zones before the change.
pub open spec fn buffered(sites: Seq<VoronoiSite>) -> Seq<VoronoiSite> {
    Seq::new(
        sites.len(),
        |i: int| VoronoiSite { zone: buffered_zone(sites, i), ..sites[i] },
    )
}

/// Site `i` as it is first drawn.
pub open spec fn drawn_site(c: WorldConfig, i: int) -> VoronoiSite {
    VoronoiSite {
        x: spread(coord_hash(i as i64, 0, c.seed, domain::SITE_X), c.voronoi_span),
        y: spread(coord_hash(i as i64, 0, c.seed, domain::SITE_Y), c.voronoi_span),
        zone: drawn_zone(coord_hash(i as i64, 0, c.seed, domain::SITE_ZONE), c.zone_weights),
    }
}

/// The sites of a world.
pub open spec fn site_map(c: WorldConfig) -> Seq<VoronoiSite> {
    buffered(centred(Seq::new(c.voronoi_site_count as nat, |i: int| drawn_site(c, i))))
}

/// An angle in degrees as radians.
pub open spec fn radians(degrees: F64) -> F64 {
    degrees.product(F64 { bits: PI }).quotient(F64 { bits: HALF_TURN_DEGREES })
}

/// An angle in degrees as radians.
fn to_radians(degrees: F64) -> (r: F64)
    ensures
        r == radians(degrees),
{
    degrees.times(F64::from_bits(PI)).over(F64::from_bits(HALF_TURN_DEGREES))
}

/// The angle of the first boulevard in degrees: 30 to 60, to either side.
pub open spec fn boulevard_angle(seed: u64) -> F64 {
    let thirty = F32 { bits: 0x41f0_0000 };
    let off = F64::widened(
        thirty.sum(coord_unit(0, 0, seed, domain::DIAGONAL).product(thirty)),
    );
    if coord_unit(0, 1, seed, domain::DIAGONAL).below(F32 { bits: HALF }) {
        (F64 { bits: ONE }).product(off)
    } else {
        (F64 { bits: 0xbff0_0000_0000_0000 }).product(off)
    }
}

/// Boulevard `k`: the first at its drawn angle, the second across it; each at
/// a drawn place.
pub open spec fn boulevard(c: WorldConfig, k: int) -> Diagonal {
    let extra = if k == 0 {
        F64 { bits: 0 }
    } else {
        F64 { bits: 0x4056_8000_0000_0000 }
    };
    Diagonal {
        angle_rad: radians(boulevard_angle(c.seed).sum(extra)),
        offset: F64::widened(coord_unit(k as i64, 2, c.seed, domain::DIAGONAL)).product(
            F64 { bits: TWO },
        ).difference(F64 { bits: ONE }).product(c.voronoi_span),
        half_width: F64 { bits: ONE },
    }
}

/// The nearest of the first `n` sites to a point, and the square of its
/// distance; the earlier one on ties.
pub open spec fn nearest_site(sites: Seq<VoronoiSite>, x: F64, z: F64, n: int) -> (int, F64)
    decreases n,
{
    if n <= 0 {
        (0, F64 { bits: INFINITY })
    } else {
        let (i, best) = nearest_site(sites, x, z, n - 1);
        let d = gap2(sites[n - 1].x, sites[n - 1].y, x, z);
        if d.below(best) {
            (n - 1, d)
        } else {
            (i, best)
        }
    }
}

/// The two nearest of the first `n` sites, with the squares of their
/// distances.
pub struct TwoNearest {
    pub first: int,
    pub first_d2: F64,
    pub second: int,
    pub second_d2: F64,
}

/// The two nearest of the first `n` sites to a point.
pub open spec fn two_nearest(sites: Seq<VoronoiSite>, x: F64, z: F64, n: int) -> TwoNearest
    decreases n,
{
    let inf = F64 { bits: INFINITY };
    if n <= 0 {
        TwoNearest { first: 0, first_d2: inf, second: 0, second_d2: inf }
    } else {
        let t = two_nearest(sites, x, z, n - 1);
        let d = gap2(sites[n - 1].x, sites[n - 1].y, x, z);
        if d.below(t.first_d2) {
            TwoNearest {
                first: n - 1,
                first_d2: d,
                second: t.first,
                second_d2: t.first_d2,
            }
        } else if d.below(t.second_d2) {
            TwoNearest { second: n - 1, second_d2: d, ..t }
        } else {
            t
        }
    }
}

/// The distance of a point from the border between the two districts nearest
/// to it; infinite where there is no border to speak of.
pub open spec fn border_distance(sites: Seq<VoronoiSite>, x: F64, z: F64) -> F64 {
    let inf = F64 { bits: INFINITY };
    let t = two_nearest(sites, x, z, sites.len() as int);
    if sites.len() < 2 || !t.second_d2.is_bounded() {
        inf
    } else {
        let (a, b) = (sites[t.first], sites[t.second]);
        let gap = gap2(a.x, a.y, b.x, b.y).root();
        // One billionth.
        if gap.below(F64 { bits: 0x3e11_2e0b_e826_d695 }) {
            inf
        } else {
            t.second_d2.difference(t.first_d2).absolute().quotient(
                (F64 { bits: TWO }).product(gap),
            )
        }
    }
}

/// The street orientations a district can have, in degrees.
pub open spec fn orientation(i: int) -> F64 {
    if i == 0 {
        F64 { bits: 0 }
    } else if i == 1 {
        F64 { bits: 0x4024_0000_0000_0000 }
    } else if i == 2 {
        F64 { bits: 0xc024_0000_0000_0000 }
    } else if i == 3 {
        F64 { bits: 0x4032_0000_0000_0000 }
    } else if i == 4 {
        F64 { bits: 0xc032_0000_0000_0000 }
    } else if i == 5 {
        F64 { bits: 0x403b_0000_0000_0000 }
    } else {
        F64 { bits: 0xc03b_0000_0000_0000 }
    }
}

/// A draw of a district, as a double.
pub open spec fn district_unit(site: i64, k: i64, seed: u64) -> F64 {
    F64::widened(coord_unit(site, k, seed, domain::ORIENTATION))
}

/// The frame of the district round a site: one of seven orientations, a long
/// wave of 0.5 to 1.5 cells over 40 to 80, and a short one of 0.3 to 1 over 12
/// to 30.
pub open spec fn frame_of(site: i64, seed: u64) -> DistrictFrame {
    let turn = coord_hash(site, 0, seed, domain::ORIENTATION) as int % 7;
    DistrictFrame {
        angle_rad: radians(orientation(turn)),
        warp_amp: (F64 { bits: 0x3fe0_0000_0000_0000 }).sum(district_unit(site, 1, seed)),
        warp_len: (F64 { bits: 0x4044_0000_0000_0000 }).sum(
            district_unit(site, 2, seed).product(F64 { bits: 0x4044_0000_0000_0000 }),
        ),
        warp_phase: district_unit(site, 3, seed).product(F64 { bits: TURN }),
        warp_amp2: (F64 { bits: 0x3fd3_3333_3333_3333 }).sum(
            district_unit(site, 4, seed).product(F64 { bits: 0x3fe6_6666_6666_6666 }),
        ),
        warp_len2: (F64 { bits: 0x4028_0000_0000_0000 }).sum(
            district_unit(site, 5, seed).product(F64 { bits: 0x4032_0000_0000_0000 }),
        ),
    }
}

/// The square of the distance to the nearest downtown site among the first
/// `n`.
pub open spec fn downtown2(sites: Seq<VoronoiSite>, x: F64, z: F64, n: int) -> F64
    decreases n,
{
    if n <= 0 {
        F64 { bits: INFINITY }
    } else {
        let best = downtown2(sites, x, z, n - 1);
        let d = gap2(sites[n - 1].x, sites[n - 1].y, x, z);
        if sites[n - 1].zone == ZoneType::Downtown && d.below(best) {
            d
        } else {
            best
        }
    }
}

/// How much the nearest downtown lifts heights: 1.5 at its site, falling off
/// with the square of the distance over 1500; 1 where there is none.
pub open spec fn centre_pull(sites: Seq<VoronoiSite>, x: F64, z: F64) -> F32 {
    let one = F64 { bits: ONE };
    let d2 = downtown2(sites, x, z, sites.len() as int);
    if !d2.is_bounded() {
        F32 { bits: 0x3f80_0000 }
    } else {
        let r = d2.root().quotient(F64 { bits: 0x4097_7000_0000_0000 });
        one.sum((F64 { bits: 0x3fe0_0000_0000_0000 }).quotient(one.sum(r.product(r)))).narrowed()
    }
}

/// The weight of a site at a point, given the power of its distance.
pub open spec fn site_weight(power: F64, epsilon: F64) -> F64 {
    (F64 { bits: ONE }).quotient(power.sum(epsilon))
}

/// The weights of the first `n` sites that own a zone, added up in order.
pub open spec fn zone_weight(
    sites: Seq<VoronoiSite>,
    powers: Seq<F64>,
    epsilon: F64,
    zone: int,
    n: int,
) -> F64
    decreases n,
{
    if n <= 0 {
        F64 { bits: 0 }
    } else {
        let acc = zone_weight(sites, powers, epsilon, zone, n - 1);
        if sites[n - 1].zone.ordinal() == zone {
            acc.sum(site_weight(powers[n - 1], epsilon))
        } else {
            acc
        }
    }
}

/// The weights of the first `k` zones, added up in order.
pub open spec fn weight_sum(
    sites: Seq<VoronoiSite>,
    powers: Seq<F64>,
    epsilon: F64,
    k: int,
) -> F64
    decreases k,
{
    if k <= 0 {
        F64 { bits: 0 }
    } else {
        weight_sum(sites, powers, epsilon, k - 1).sum(
            zone_weight(sites, powers, epsilon, k - 1, sites.len() as int),
        )
    }
}

/// The pull of a zone at a point: its share of the weights of all sites.
pub open spec fn zone_pull(
    sites: Seq<VoronoiSite>,
    powers: Seq<F64>,
    epsilon: F64,
    zone: int,
) -> F32 {
    let zero = F64 { bits: 0 };
    let total = weight_sum(sites, powers, epsilon, ZONE_COUNT as int);
    if total.at_most(zero) && zero.at_most(total) {
        F32 { bits: 0 }
    } else {
        zone_weight(sites, powers, epsilon, zone, sites.len() as int).product(
            (F64 { bits: ONE }).quotient(total),
        ).narrowed()
    }
}

impl VoronoiDiagram {
    /// The sites.
    pub closed spec fn map(self) -> Seq<VoronoiSite> {
        self.sites@
    }

    /// The boulevards.
    pub closed spec fn boulevards(self) -> Seq<Diagonal> {
        self.diagonals@
    }

    /// The exponent of the inverse-distance weights.
    pub closed spec fn exponent(self) -> F64 {
        self.shepard_power
    }

    /// The guard against a distance of zero.
    pub closed spec fn guard(self) -> F64 {
        self.shepard_epsilon
    }

    /// The world seed.
    pub closed spec fn world(self) -> u64 {
        self.seed
    }

    /// The districts of a world with the stock configuration, but for the seed
    /// and the number of sites.
    pub fn generate(seed: u64, site_count: u16) -> (d: VoronoiDiagram)
        ensures
            exists|c: WorldConfig| #[trigger]
                c.is_default() && d.is_of(
                    WorldConfig { seed, voronoi_site_count: site_count, ..c },
                ),
    {
        let stock: WorldConfig = WorldConfig::default();
        let mut config: WorldConfig = stock;
        config.seed = seed;
        config.voronoi_site_count = site_count;
        let d: VoronoiDiagram = VoronoiDiagram::generate_with_config(&config);
        assert(stock.is_default());
        d
    }

    /// Are these the districts of the configured world?
    pub open spec fn is_of(self, c: WorldConfig) -> bool {
        &&& self.map() == site_map(c)
        &&& self.boulevards() == seq![boulevard(c, 0), boulevard(c, 1)]
        &&& self.exponent() == c.shepard_power
        &&& self.guard() == c.shepard_epsilon
        &&& self.world() == c.seed
    }

    /// The districts of a world. Sites are drawn; the most central one becomes
    /// downtown; and industry whose nearest neighbour is residential becomes
    /// commercial.
    pub fn generate_with_config(config: &WorldConfig) -> (d: VoronoiDiagram)
        ensures
            d.is_of(*config),
    {
        let mut drawn: Vec<VoronoiSite> = Vec::new();
        for i in 0..config.voronoi_site_count
            invariant
                drawn@ == Seq::new(i as nat, |k: int| drawn_site(*config, k)),
        {
            let idx: i64 = i as i64;
            let xh: u64 = hash_coords(idx, 0, config.seed, domain::SITE_X);
            let yh: u64 = hash_coords(idx, 0, config.seed, domain::SITE_Y);
            let zh: u64 = hash_coords(idx, 0, config.seed, domain::SITE_ZONE);
            drawn.push(
                VoronoiSite {
                    x: to_span_with(xh, config.voronoi_span),
                    y: to_span_with(yh, config.voronoi_span),
                    zone: pick_zone_with(zh, &config.zone_weights),
                },
            );
            assert(drawn@ =~= Seq::new((i + 1) as nat, |k: int| drawn_site(*config, k)));
        }
        anchor_downtown(&mut drawn);
        let sites: Vec<VoronoiSite> = buffer_industry(&drawn);
        let diagonals: Vec<Diagonal> = draw_boulevards(config);
        VoronoiDiagram {
            sites,
            shepard_power: config.shepard_power,
            shepard_epsilon: config.shepard_epsilon,
            seed: config.seed,
            diagonals,
        }
    }

    /// The sites.
    pub fn sites(&self) -> (s: &[VoronoiSite])
        ensures
            s@ == self.map(),
    {
        self.sites.as_slice()
    }

    /// The boulevards.
    pub fn diagonals(&self) -> (s: &[Diagonal])
        ensures
            s@ == self.boulevards(),
    {
        self.diagonals.as_slice()
    }

    /// The exponent of the inverse-distance weights.
    pub fn shepard_power(&self) -> (p: F64)
        ensures
            p == self.exponent(),
    {
        self.shepard_power
    }

    /// The site nearest to a point.
    pub fn nearest_site_idx(&self, world_x: F64, world_z: F64) -> (i: usize)
        ensures
            i == nearest_site(self.map(), world_x, world_z, self.map().len() as int).0,
            self.map().len() > 0 ==> i < self.map().len(),
    {
        let mut best_idx: usize = 0;
        let mut best: F64 = F64::from_bits(INFINITY);
        for i in 0..self.sites.len()
            invariant
                (best_idx as int, best) == nearest_site(self.map(), world_x, world_z, i as int),
                i > 0 ==> best_idx < i,
                i == 0 ==> best_idx == 0,
        {
            let s: VoronoiSite = self.sites[i];
            let d: F64 = squared_gap(s.x, s.y, world_x, world_z);
            if d.lt(best) {
                best = d;
                best_idx = i;
            }
        }
        best_idx
    }

    /// The distance of a point from the nearest district border.
    pub fn seam_distance(&self, world_x: F64, world_z: F64) -> (r: F64)
        ensures
            r == border_distance(self.map(), world_x, world_z),
    {
        let inf: F64 = F64::from_bits(INFINITY);
        if self.sites.len() < 2 {
            return inf;
        }
        let mut b1: usize = 0;
        let mut b2: usize = 0;
        let mut d1: F64 = inf;
        let mut d2: F64 = inf;
        for i in 0..self.sites.len()
            invariant
                (TwoNearest {
                    first: b1 as int,
                    first_d2: d1,
                    second: b2 as int,
                    second_d2: d2,
                }) == two_nearest(self.map(), world_x, world_z, i as int),
                self.sites@.len() >= 2,
                b1 < self.sites@.len(),
                b2 < self.sites@.len(),
        {
            let s: VoronoiSite = self.sites[i];
            proof {
                lemma_far_along_one_axis(s.x, s.y, world_x, world_z, d1);
                lemma_far_along_one_axis(s.x, s.y, world_x, world_z, d2);
            }
            let dx: F64 = s.x.minus(world_x);
            let xx: F64 = dx.times(dx);
            if xx.lt(d1) || xx.lt(d2) {
                let dz: F64 = s.y.minus(world_z);
                let d: F64 = xx.plus(dz.times(dz));
                if d.lt(d1) {
                    d2 = d1;
                    b2 = b1;
                    d1 = d;
                    b1 = i;
                } else if d.lt(d2) {
                    d2 = d;
                    b2 = i;
                }
            }
        }
        if !d2.is_finite() {
            return inf;
        }
        let a: VoronoiSite = self.sites[b1];
        let b: VoronoiSite = self.sites[b2];
        let gap: F64 = squared_gap(a.x, a.y, b.x, b.y).sqrt();
        if gap.lt(F64::from_bits(0x3e11_2e0b_e826_d695)) {
            return inf;
        }
        d2.minus(d1).abs().over(F64::from_bits(TWO).times(gap))
    }

    /// Whether a point is on the road along a district border: within one
    /// cell of it.
    pub open spec fn on_seam(self, x: F64, z: F64) -> bool {
        border_distance(self.map(), x, z).at_most(F64 { bits: ONE })
    }

    /// Whether a point is on the road along a district border.
    pub fn is_seam_road(&self, world_x: F64, world_z: F64) -> (b: bool)
        ensures
            b == self.on_seam(world_x, world_z),
    {
        self.seam_distance(world_x, world_z).le(F64::from_bits(ONE))
    }

    /// The frame of the district a point is in.
    pub fn district_frame_for(&self, world_x: F64, world_z: F64) -> (f: DistrictFrame)
        ensures
            f == (if self.map().len() == 0 {
                DistrictFrame::plain()
            } else {
                frame_of(
                    nearest_site(
                        self.map(),
                        world_x,
                        world_z,
                        self.map().len() as int,
                    ).0 as i64,
                    self.world(),
                )
            }),
    {
        if self.sites.len() == 0 {
            return DistrictFrame::identity();
        }
        let site: i64 = self.nearest_site_idx(world_x, world_z) as i64;
        district_frame(site, self.seed)
    }

    /// How much the nearest downtown lifts heights at a point.
    pub fn cbd_factor(&self, world_x: F64, world_z: F64) -> (r: F32)
        ensures
            r == centre_pull(self.map(), world_x, world_z),
    {
        let mut best: F64 = F64::from_bits(INFINITY);
        for i in 0..self.sites.len()
            invariant
                best == downtown2(self.map(), world_x, world_z, i as int),
        {
            let s: VoronoiSite = self.sites[i];
            if s.zone == ZoneType::Downtown {
                let d: F64 = squared_gap(s.x, s.y, world_x, world_z);
                if d.lt(best) {
                    best = d;
                }
            }
        }
        if !best.is_finite() {
            return F32::from_bits(0x3f80_0000);
        }
        let one: F64 = F64::from_bits(ONE);
        let r: F64 = best.sqrt().over(F64::from_bits(0x4097_7000_0000_0000));
        one.plus(
            F64::from_bits(0x3fe0_0000_0000_0000).over(one.plus(r.times(r))),
        ).to_single()
    }

    /// The squares of the distances from a point to every site.
    pub fn squared_distances(&self, world_x: F64, world_z: F64) -> (v: Vec<F64>)
        ensures
            v@ == Seq::new(
                self.map().len(),
                |i: int| gap2(self.map()[i].x, self.map()[i].y, world_x, world_z),
            ),
    {
        let mut v: Vec<F64> = Vec::with_capacity(self.sites.len());
        for i in 0..self.sites.len()
            invariant
                v@ == Seq::new(
                    i as nat,
                    |k: int| gap2(self.map()[k].x, self.map()[k].y, world_x, world_z),
                ),
        {
            let s: VoronoiSite = self.sites[i];
            v.push(squared_gap(s.x, s.y, world_x, world_z));
            assert(v@ =~= Seq::new(
                (i + 1) as nat,
                |k: int| gap2(self.map()[k].x, self.map()[k].y, world_x, world_z),
            ));
        }
        assert(v@ =~= Seq::new(
            self.map().len(),
            |i: int| gap2(self.map()[i].x, self.map()[i].y, world_x, world_z),
        ));
        v
    }

    /// The pull of every zone at a point, given the power of the distance to
    /// every site: each site weighs one over its power and the guard, and the
    /// weights of a zone's sites are taken as shares of the whole.
    pub fn query(&self, powers: &Vec<F64>) -> (a: [F32; ZONE_COUNT])
        requires
            powers@.len() == self.map().len(),
        ensures
            forall|z: int|
                0 <= z < ZONE_COUNT ==> #[trigger] a[z] == zone_pull(
                    self.map(),
                    powers@,
                    self.guard(),
                    z,
                ),
    {
        let zero: F64 = F64::from_bits(0);
        let one: F64 = F64::from_bits(ONE);
        let mut weights: Vec<F64> = Vec::with_capacity(powers.len());
        for i in 0..powers.len()
            invariant
                one == (F64 { bits: ONE }),
                weights@.len() == i,
                forall|k: int|
                    0 <= k < i ==> #[trigger] weights@[k] == site_weight(powers@[k], self.guard()),
        {
            weights.push(one.over(powers[i].plus(self.shepard_epsilon)));
        }
        let w: [F64; ZONE_COUNT] = [
            self.zone_total(0, powers, &weights),
            self.zone_total(1, powers, &weights),
            self.zone_total(2, powers, &weights),
            self.zone_total(3, powers, &weights),
            self.zone_total(4, powers, &weights),
        ];
        let mut total: F64 = zero;
        for k in 0..ZONE_COUNT
            invariant
                total == weight_sum(self.map(), powers@, self.guard(), k as int),
                forall|z: int|
                    0 <= z < ZONE_COUNT ==> #[trigger] w[z] == zone_weight(
                        self.map(),
                        powers@,
                        self.guard(),
                        z,
                        self.map().len() as int,
                    ),
        {
            total = total.plus(w[k]);
        }
        if total.le(zero) && zero.le(total) {
            let none: F32 = F32::from_bits(0);
            return [none, none, none, none, none];
        }
        let inv: F64 = one.over(total);
        [
            w[0].times(inv).to_single(),
            w[1].times(inv).to_single(),
            w[2].times(inv).to_single(),
            w[3].times(inv).to_single(),
            w[4].times(inv).to_single(),
        ]
    }

    /// The weights of the sites that own a zone, added up in order.
    fn zone_total(&self, zone: usize, powers: &Vec<F64>, weights: &Vec<F64>) -> (t: F64)
        requires
            powers@.len() == self.map().len(),
            weights@.len() == powers@.len(),
            forall|k: int|
                0 <= k < powers@.len() ==> #[trigger] weights@[k] == site_weight(
                    powers@[k],
                    self.guard(),
                ),
        ensures
            t == zone_weight(
                self.map(),
                powers@,
                self.guard(),
                zone as int,
                self.map().len() as int,
            ),
    {
        let mut t: F64 = F64::from_bits(0);
        for i in 0..self.sites.len()
            invariant
                powers@.len() == self.map().len(),
                weights@.len() == powers@.len(),
                self.map() == self.sites@,
                forall|k: int|
                    0 <= k < powers@.len() ==> #[trigger] weights@[k] == site_weight(
                        powers@[k],
                        self.guard(),
                    ),
                t == zone_weight(self.map(), powers@, self.guard(), zone as int, i as int),
        {
            if self.sites[i].zone.index() == zone {
                t = t.plus(weights[i]);
            }
        }
        t
    }
}

/// Makes the most central site downtown.
fn anchor_downtown(sites: &mut Vec<VoronoiSite>)
    ensures
        final(sites)@ == centred(old(sites)@),
{
    if sites.len() == 0 {
        return;
    }
    let n: usize = sites.len();
    let mut best: usize = 0;
    let mut best_d: F64 = squared(&sites[0]);
    for i in 1..n
        invariant
            sites@ == old(sites)@,
            n == sites@.len(),
            best == central(sites@, i as int),
            best < n,
            best_d == from_origin2(sites@[best as int]),
    {
        let d: F64 = squared(&sites[i]);
        if d.lt(best_d) {
            best = i;
            best_d = d;
        }
    }
    let s: VoronoiSite = sites[best];
    sites.set(best, VoronoiSite { x: s.x, y: s.y, zone: ZoneType::Downtown });
}

/// The square of the distance of a site from the origin.
fn squared(s: &VoronoiSite) -> (d: F64)
    ensures
        d == from_origin2(*s),
{
    s.x.times(s.x).plus(s.y.times(s.y))
}

/// Turns industry next to homes into commerce.
fn buffer_industry(sites: &Vec<VoronoiSite>) -> (out: Vec<VoronoiSite>)
    ensures
        out@ == buffered(sites@),
{
    let mut out: Vec<VoronoiSite> = Vec::with_capacity(sites.len());
    for i in 0..sites.len()
        invariant
            out@ == buffered(sites@).take(i as int),
    {
        let s: VoronoiSite = sites[i];
        let mut zone: ZoneType = s.zone;
        if s.zone == ZoneType::Industrial {
            let mut best: F64 = F64::from_bits(INFINITY);
            let mut neighbour: ZoneType = ZoneType::Industrial;
            for j in 0..sites.len()
                invariant
                    i < sites@.len(),
                    s == sites@[i as int],
                    (best, neighbour) == nearest_other(sites@, i as int, j as int),
            {
                if j != i {
                    let other: VoronoiSite = sites[j];
                    let d: F64 = squared_gap(other.x, other.y, s.x, s.y);
                    if d.lt(best) {
                        best = d;
                        neighbour = other.zone;
                    }
                }
            }
            if neighbour == ZoneType::Residential {
                zone = ZoneType::Commercial;
            }
        }
        out.push(VoronoiSite { x: s.x, y: s.y, zone });
        assert(out@ =~= buffered(sites@).take(i + 1));
    }
    assert(out@ =~= buffered(sites@));
    out
}

/// Draws the two boulevards.
fn draw_boulevards(config: &WorldConfig) -> (v: Vec<Diagonal>)
    ensures
        v@ == seq![boulevard(*config, 0), boulevard(*config, 1)],
{
    let seed: u64 = config.seed;
    let thirty: F32 = F32::from_bits(0x41f0_0000);
    let off: F64 = F64::from_single(
        thirty.plus(hash_unit(0, 0, seed, domain::DIAGONAL).times(thirty)),
    );
    let angle: F64 = if hash_unit(0, 1, seed, domain::DIAGONAL).lt(F32::from_bits(HALF)) {
        F64::from_bits(ONE).times(off)
    } else {
        F64::from_bits(0xbff0_0000_0000_0000).times(off)
    };
    let mut v: Vec<Diagonal> = Vec::with_capacity(2);
    v.push(
        Diagonal {
            angle_rad: to_radians(angle.plus(F64::from_bits(0))),
            offset: boulevard_offset(config, 0),
            half_width: F64::from_bits(ONE),
        },
    );
    v.push(
        Diagonal {
            angle_rad: to_radians(angle.plus(F64::from_bits(0x4056_8000_0000_0000))),
            offset: boulevard_offset(config, 1),
            half_width: F64::from_bits(ONE),
        },
    );
    assert(v@ =~= seq![boulevard(*config, 0), boulevard(*config, 1)]);
    v
}

/// The drawn place of a boulevard.
fn boulevard_offset(config: &WorldConfig, k: i64) -> (o: F64)
    ensures
        o == boulevard(*config, k as int).offset,
{
    F64::from_single(hash_unit(k, 2, config.seed, domain::DIAGONAL)).times(
        F64::from_bits(TWO),
    ).minus(F64::from_bits(ONE)).times(config.voronoi_span)
}

/// A draw of a district, as a double.
fn district_draw(site: i64, k: i64, seed: u64) -> (u: F64)
    ensures
        u == district_unit(site, k, seed),
{
    F64::from_single(hash_unit(site, k, seed, domain::ORIENTATION))
}

/// The frame of the district round a site.
fn district_frame(site: i64, seed: u64) -> (f: DistrictFrame)
    ensures
        f == frame_of(site, seed),
{
    let turn: u64 = hash_coords(site, 0, seed, domain::ORIENTATION) % 7;
    let degrees: F64 = if turn == 0 {
        F64::from_bits(0)
    } else if turn == 1 {
        F64::from_bits(0x4024_0000_0000_0000)
    } else if turn == 2 {
        F64::from_bits(0xc024_0000_0000_0000)
    } else if turn == 3 {
        F64::from_bits(0x4032_0000_0000_0000)
    } else if turn == 4 {
        F64::from_bits(0xc032_0000_0000_0000)
    } else if turn == 5 {
        F64::from_bits(0x403b_0000_0000_0000)
    } else {
        F64::from_bits(0xc03b_0000_0000_0000)
    };
    let forty: F64 = F64::from_bits(0x4044_0000_0000_0000);
    DistrictFrame {
        angle_rad: to_radians(degrees),
        warp_amp: F64::from_bits(0x3fe0_0000_0000_0000).plus(district_draw(site, 1, seed)),
        warp_len: forty.plus(district_draw(site, 2, seed).times(forty)),
        warp_phase: district_draw(site, 3, seed).times(F64::from_bits(TURN)),
        warp_amp2: F64::from_bits(0x3fd3_3333_3333_3333).plus(
            district_draw(site, 4, seed).times(F64::from_bits(0x3fe6_6666_6666_6666)),
        ),
        warp_len2: F64::from_bits(0x4028_0000_0000_0000).plus(
            district_draw(site, 5, seed).times(F64::from_bits(0x4032_0000_0000_0000)),
        ),
    }
}

pub proof fn lemma_central(sites: Seq<VoronoiSite>, n: int)
    ensures
        0 <= central(sites, n),
        n >= 1 ==> central(sites, n) < n,
    decreases n,
{
    if n > 1 {
        lemma_central(sites, n - 1);
    }
}

/// Changing zones moves no site.
pub proof fn lemma_central_same(a: Seq<VoronoiSite>, b: Seq<VoronoiSite>, n: int)
    requires
        a.len() == b.len(),
        n <= a.len(),
        forall|i: int|
            0 <= i < a.len() ==> (#[trigger] a[i]).x == b[i].x && a[i].y == b[i].y,
    ensures
        central(a, n) == central(b, n),
    decreases n,
{
    if n > 1 {
        lemma_central_same(a, b, n - 1);
        lemma_central(a, n - 1);
        let i = central(a, n - 1);
        assert(a[i].x == b[i].x && a[n - 1].x == b[n - 1].x);
    }
}

/// The site nearest the origin is always downtown, so every world with a site
/// has a centre.
pub proof fn law_centre_is_downtown(c: WorldConfig)
    requires
        c.voronoi_site_count > 0,
    ensures
        ({
            let m = site_map(c);
            &&& m.len() == c.voronoi_site_count
            &&& 0 <= central(m, m.len() as int) < m.len()
            &&& m[central(m, m.len() as int)].zone == ZoneType::Downtown
        }),
{
    let drawn = Seq::new(c.voronoi_site_count as nat, |i: int| drawn_site(c, i));
    let mid = centred(drawn);
    let m = site_map(c);
    let n = drawn.len() as int;
    lemma_central(drawn, n);
    lemma_central_same(drawn, mid, n);
    lemma_central_same(mid, m, n);
    let k = central(drawn, n);
    assert(mid[k].zone == ZoneType::Downtown);
    assert(m[k].zone == buffered_zone(mid, k));
}

/// A neighbour that is residential after the change was so before it.
pub proof fn lemma_neighbour(sites: Seq<VoronoiSite>, i: int, n: int)
    requires
        0 <= i < sites.len(),
        0 <= n <= sites.len(),
    ensures
        nearest_other(buffered(sites), i, n).0 == nearest_other(sites, i, n).0,
        nearest_other(buffered(sites), i, n).1 == ZoneType::Residential ==> nearest_other(
            sites,
            i,
            n,
        ).1 == ZoneType::Residential,
    decreases n,
{
    if n > 0 {
        lemma_neighbour(sites, i, n - 1);
        assert(buffered(sites)[n - 1].x == sites[n - 1].x && buffered(sites)[n - 1].y == sites[n
            - 1].y);
        assert(buffered(sites)[i].x == sites[i].x && buffered(sites)[i].y == sites[i].y);
    }
}

/// No industrial site has a residential one as its nearest neighbour.
pub proof fn law_no_industry_beside_homes(c: WorldConfig, i: int)
    requires
        0 <= i < c.voronoi_site_count,
        site_map(c)[i].zone == ZoneType::Industrial,
    ensures
        nearest_other(site_map(c), i, site_map(c).len() as int).1 != ZoneType::Residential,
{
    let drawn = Seq::new(c.voronoi_site_count as nat, |k: int| drawn_site(c, k));
    let mid = centred(drawn);
    lemma_central(drawn, drawn.len() as int);
    lemma_neighbour(mid, i, mid.len() as int);
    assert(site_map(c)[i].zone == buffered_zone(mid, i));
}

} // verus!
