//! Composing the cells of a chunk: streets, squares, green and buildings.
//!
//! Every cell is a function of its own world coordinates, so the chunks on two
//! sides of an edge agree about it.
use crate::building::{
    assign_building, built, cap_of, height_cap, lot_palette, lot_unit, palette_of,
};
use crate::config::WorldConfig;
use crate::data::{
    blank_chunk, cell_place, header_of, is_cell_at, law_cell_read_back, law_other_cells_untouched,
    lemma_blank_header, with_cell, Cell, CellFlags, ChunkBuffer, ChunkId, InteriorId, CELL_BYTES,
    HEADER_BYTES,
};
use crate::double::F64;
use crate::hash::{coord_hash, coord_unit, domain, hash_coords, hash_unit};
use crate::layout::{storeys, BuildingRole, DoorSide, InteriorContext};
use crate::lot::{
    block_loc, block_noise, floor_division, held_to, located, lot_at, lot_extent, lot_rect,
    lot_slot, period, BlockLoc, LotSlot,
};
use crate::region::{centre_pull, zone_pull, VoronoiDiagram};
use crate::single::F32;
use crate::street::{street_at, street_info, StreetInfo};
use crate::zones::{ZoneParams, ZoneType, ZONE_COUNT};
use vstd::prelude::*;

pub mod bridge;
pub mod ground;
pub mod heights;
pub mod laws;

verus! {

/// The strongest of the first `n` zones; the earlier one on ties.
pub open spec fn strongest(a: [F32; ZONE_COUNT], n: int) -> int
    decreases n,
{
    if n <= 1 {
        0
    } else {
        let best = strongest(a, n - 1);
        if a[best].below(a[n - 1]) {
            n - 1
        } else {
            best
        }
    }
}

/// The strongest zone is one of the zones.
pub proof fn lemma_strongest(a: [F32; ZONE_COUNT], n: int)
    ensures
        0 <= strongest(a, n),
        n >= 1 ==> strongest(a, n) < n,
    decreases n,
{
    if n > 1 {
        lemma_strongest(a, n - 1);
    }
}

/// The zone with the strongest pull.
pub open spec fn dominant(a: [F32; ZONE_COUNT]) -> ZoneType {
    ZoneType::at(strongest(a, ZONE_COUNT as int) as nat)
}

/// The zone with the strongest pull; the earlier one on ties.
pub fn dominant_zone(affinity: &[F32; ZONE_COUNT]) -> (z: ZoneType)
    ensures
        z == dominant(*affinity),
        z.ordinal() == strongest(*affinity, ZONE_COUNT as int),
{
    let mut best: usize = 0;
    for i in 1..ZONE_COUNT
        invariant
            best == strongest(*affinity, i as int),
            best < ZONE_COUNT,
    {
        if affinity[best].lt(affinity[i]) {
            best = i;
        }
    }
    ZoneType::from_index(best)
}

/// The strongest of the first `n` zones but one, and its pull.
pub open spec fn runner_up(a: [F32; ZONE_COUNT], main: ZoneType, n: int) -> (ZoneType, F32)
    decreases n,
{
    if n <= 0 {
        // Below every number.
        (
            if main == ZoneType::Downtown {
                ZoneType::Residential
            } else {
                ZoneType::Downtown
            },
            F32 { bits: 0xff80_0000 },
        )
    } else {
        let (best, w) = runner_up(a, main, n - 1);
        let zone = ZoneType::at((n - 1) as nat);
        if zone != main && w.below(a[n - 1]) {
            (zone, a[n - 1])
        } else {
            (best, w)
        }
    }
}

/// The zone with the strongest pull but for the dominant one; the earlier one
/// on ties.
pub fn secondary_zone(affinity: &[F32; ZONE_COUNT], main: ZoneType) -> (z: ZoneType)
    ensures
        z == runner_up(*affinity, main, ZONE_COUNT as int).0,
        z != main,
{
    let mut best: ZoneType = if main == ZoneType::Downtown {
        ZoneType::Residential
    } else {
        ZoneType::Downtown
    };
    let mut best_w: F32 = F32::from_bits(0xff80_0000);
    for i in 0..ZONE_COUNT
        invariant
            (best, best_w) == runner_up(*affinity, main, i as int),
            best != main,
    {
        let zone: ZoneType = ZoneType::from_index(i);
        if zone != main && best_w.lt(affinity[i]) {
            best_w = affinity[i];
            best = zone;
        }
    }
    best
}

/// Does the cell lie where two streets of the grid cross?
pub open spec fn is_crossing(loc: BlockLoc) -> bool {
    loc.rx == 0 && loc.rz == 0
}

/// Does the cell lie where two streets of the grid cross? The coordinates are
/// those of the district's own frame, rounded to cells.
pub fn is_intersection(local_x: i64, local_z: i64, params: &ZoneParams) -> (b: bool)
    ensures
        b == is_crossing(located(local_x, local_z, params.block_size)),
{
    let loc: BlockLoc = block_loc(local_x, local_z, params.block_size);
    loc.rx == 0 && loc.rz == 0
}

/// What a block is, if it is not ordinary.
#[derive(Clone, Copy, Debug, PartialEq, Eq, Structural)]
pub enum SpecialKind {
    /// Ordinary lots.
    Ordinary,
    /// A square.
    Plaza,
    /// Low sheds on every lot.
    Market,
    /// One tower in a green block.
    TowerPark,
}

/// What a block is: a draw makes 2% of the blocks downtown squares and 2%
/// towers in a park; 2% and 3% of the commercial ones squares and markets; and
/// 3% of the industrial ones markets.
pub open spec fn special(bx: i64, bz: i64, zone: ZoneType, seed: u64) -> SpecialKind {
    let r = coord_unit(bx, bz, seed, domain::SPECIAL);
    let two = F32 { bits: 0x3ca3_d70a };
    match zone {
        ZoneType::Downtown => if r.below(two) {
            SpecialKind::Plaza
        } else if r.below(F32 { bits: 0x3d23_d70a }) {
            SpecialKind::TowerPark
        } else {
            SpecialKind::Ordinary
        },
        ZoneType::Commercial => if r.below(two) {
            SpecialKind::Plaza
        } else if r.below(F32 { bits: 0x3d4c_cccd }) {
            SpecialKind::Market
        } else {
            SpecialKind::Ordinary
        },
        ZoneType::Industrial => if r.below(F32 { bits: 0x3cf5_c28f }) {
            SpecialKind::Market
        } else {
            SpecialKind::Ordinary
        },
        _ => SpecialKind::Ordinary,
    }
}

/// What a block is.
pub fn special_for(bx: i64, bz: i64, zone: ZoneType, seed: u64) -> (k: SpecialKind)
    ensures
        k == special(bx, bz, zone, seed),
{
    let r: F32 = hash_unit(bx, bz, seed, domain::SPECIAL);
    match zone {
        ZoneType::Downtown => {
            if r.lt(F32::from_bits(0x3ca3_d70a)) {
                SpecialKind::Plaza
            } else if r.lt(F32::from_bits(0x3d23_d70a)) {
                SpecialKind::TowerPark
            } else {
                SpecialKind::Ordinary
            }
        },
        ZoneType::Commercial => {
            if r.lt(F32::from_bits(0x3ca3_d70a)) {
                SpecialKind::Plaza
            } else if r.lt(F32::from_bits(0x3d4c_cccd)) {
                SpecialKind::Market
            } else {
                SpecialKind::Ordinary
            }
        },
        ZoneType::Industrial => {
            if r.lt(F32::from_bits(0x3cf5_c28f)) {
                SpecialKind::Market
            } else {
                SpecialKind::Ordinary
            }
        },
        ZoneType::Residential | ZoneType::Park => SpecialKind::Ordinary,
    }
}

/// The height and palette of a market shed: 4 to 10, whatever the density.
pub open spec fn shed(lot_id: u64, params: ZoneParams, seed: u64) -> (F32, u8) {
    (
        (F32 { bits: 0x4080_0000 }).sum(
            lot_unit(lot_id, seed, domain::LOT_HEIGHT).product(F32 { bits: 0x40c0_0000 }),
        ),
        lot_palette(lot_id, params.palette_count, seed),
    )
}

/// The height and palette of a market shed.
pub fn market_shed(lot_id: u64, params: &ZoneParams, seed: u64) -> (r: (F32, u8))
    ensures
        r == shed(lot_id, *params, seed),
{
    let h: F32 = F32::from_bits(0x4080_0000).plus(
        hash_unit(lot_id as i64, (lot_id >> 32) as i64, seed, domain::LOT_HEIGHT).times(
            F32::from_bits(0x40c0_0000),
        ),
    );
    (h, palette_of(lot_id, params.palette_count, seed))
}

/// Is the lot a landmark: 4% downtown, 2% in commerce, 1% among homes and
/// industry, none in parks?
pub open spec fn landmark(lot_id: u64, zone: ZoneType, seed: u64) -> bool {
    zone != ZoneType::Park && lot_unit(lot_id, seed, domain::LANDMARK).below(
        F32 {
            bits: match zone {
                ZoneType::Downtown => 0x3d23_d70a,
                ZoneType::Commercial => 0x3ca3_d70a,
                _ => 0x3c23_d70a,
            },
        },
    )
}

/// Is the lot a landmark?
pub fn is_landmark(lot_id: u64, zone: ZoneType, seed: u64) -> (b: bool)
    ensures
        b == landmark(lot_id, zone, seed),
{
    let p: u32 = match zone {
        ZoneType::Downtown => 0x3d23_d70a,
        ZoneType::Commercial => 0x3ca3_d70a,
        ZoneType::Residential | ZoneType::Industrial => 0x3c23_d70a,
        ZoneType::Park => {
            return false;
        },
    };
    hash_unit(lot_id as i64, (lot_id >> 32) as i64, seed, domain::LANDMARK).lt(F32::from_bits(p))
}

/// The key of the interior of a lot.
pub open spec fn lot_interior(bx: i64, bz: i64, slot: u8, seed: u64) -> InteriorId {
    coord_hash(bx.wrapping_mul(16).wrapping_add(slot as i64), bz, seed, domain::INTERIOR)
}

/// The key of the interior of a lot: the same for each of its cells.
pub fn interior_id_for_lot(block_bx: i64, block_bz: i64, slot: u8, seed: u64) -> (id: InteriorId)
    ensures
        id == lot_interior(block_bx, block_bz, slot, seed),
{
    hash_coords(
        block_bx.wrapping_mul(16).wrapping_add(slot as i64),
        block_bz,
        seed,
        domain::INTERIOR,
    )
}

/// The side of a lot that faces the nearest street, by the cell's offset in
/// its block; west before east before north before south on ties.
pub open spec fn street_side(x: int, z: int, block_size: u8) -> DoorSide {
    let b = period(block_size);
    let (west, north) = (x % b, z % b);
    let (east, south) = (b - west, b - north);
    let along_x = if west < east {
        west
    } else {
        east
    };
    let along_z = if north < south {
        north
    } else {
        south
    };
    if along_x <= along_z {
        if west <= east {
            DoorSide::West
        } else {
            DoorSide::East
        }
    } else if north <= south {
        DoorSide::North
    } else {
        DoorSide::South
    }
}

/// The side of a lot that faces the nearest street.
pub fn door_side_for(world_x: i64, world_z: i64, block_size: u8) -> (s: DoorSide)
    ensures
        s == street_side(world_x as int, world_z as int, block_size),
{
    let b: i64 = if block_size == 0 {
        1
    } else {
        block_size as i64
    };
    let west: i64 = floor_division(world_x, b).1;
    let north: i64 = floor_division(world_z, b).1;
    let (east, south): (i64, i64) = (b - west, b - north);
    let along_x: i64 = if west < east {
        west
    } else {
        east
    };
    let along_z: i64 = if north < south {
        north
    } else {
        south
    };
    if along_x <= along_z {
        if west <= east {
            DoorSide::West
        } else {
            DoorSide::East
        }
    } else if north <= south {
        DoorSide::North
    } else {
        DoorSide::South
    }
}

/// A cell as the street network sees it: where it is in the frame of the
/// district, and whether a boulevard or a flow avenue runs over it.
#[derive(Clone, Copy, Debug, PartialEq, Eq, Structural)]
pub struct Spot {
    /// Along x, in the frame of the district, rounded to cells.
    pub local_x: i64,
    /// Along z, in the frame of the district, rounded to cells.
    pub local_z: i64,
    /// On a boulevard.
    pub diagonal: bool,
    /// On a flow avenue.
    pub flow: bool,
}

/// What is measured at a cell: the powers of its distances to the sites, and
/// how the street network sees it and its four neighbours, all in the frame of
/// the district that the cell is in.
#[derive(Clone, Debug, PartialEq, Eq)]
pub struct CellField {
    /// The power of the distance to every site.
    pub powers: Vec<F64>,
    /// The cell.
    pub here: Spot,
    /// Its neighbour towards positive x.
    pub east: Spot,
    /// Its neighbour towards negative x.
    pub west: Spot,
    /// Its neighbour towards positive z.
    pub south: Spot,
    /// Its neighbour towards negative z.
    pub north: Spot,
    /// The greatest height that the footprint allows.
    pub height_cap: F32,
}

/// The pull of every zone at a cell.
pub open spec fn pulls(v: VoronoiDiagram, powers: Seq<F64>) -> [F32; ZONE_COUNT] {
    [
        zone_pull(v.map(), powers, v.guard(), 0),
        zone_pull(v.map(), powers, v.guard(), 1),
        zone_pull(v.map(), powers, v.guard(), 2),
        zone_pull(v.map(), powers, v.guard(), 3),
        zone_pull(v.map(), powers, v.guard(), 4),
    ]
}

/// What the street network says of a cell at world coordinates.
pub open spec fn network(
    v: VoronoiDiagram,
    params: ZoneParams,
    s: Spot,
    x: int,
    z: int,
    seed: u64,
) -> StreetInfo {
    street_at(
        located(s.local_x, s.local_z, params.block_size),
        params.arterial_every,
        s.diagonal,
        v.on_seam(F64::integer(x), F64::integer(z)),
        seed,
    )
}

/// Is the cell a road, of the network or a flow avenue?
pub open spec fn is_road(
    v: VoronoiDiagram,
    params: ZoneParams,
    s: Spot,
    x: int,
    z: int,
    seed: u64,
) -> bool {
    network(v, params, s, x, z, seed).street || s.flow
}

/// Does the cell border on a road?
pub open spec fn borders_road(
    v: VoronoiDiagram,
    params: ZoneParams,
    f: CellField,
    x: int,
    z: int,
    seed: u64,
) -> bool {
    ||| is_road(v, params, f.east, x + 1, z, seed)
    ||| is_road(v, params, f.west, x - 1, z, seed)
    ||| is_road(v, params, f.south, x, z + 1, seed)
    ||| is_road(v, params, f.north, x, z - 1, seed)
}

/// Does a flow avenue add to what the network says?
pub open spec fn flows(info: StreetInfo, s: Spot) -> bool {
    !(info.street && info.arterial) && s.flow
}

/// The road traits of a cell. Flow avenues pave whatever they run over;
/// elsewhere, a street left out may be a linear park.
pub open spec fn road_flags(info: StreetInfo, s: Spot) -> CellFlags {
    let none = CellFlags { bits: CellFlags::NONE };
    let grid = if info.street && info.arterial {
        none.with(CellFlags::IS_STREET).with(CellFlags::IS_ARTERIAL)
    } else if info.street {
        none.with(CellFlags::IS_STREET)
    } else {
        none
    };
    if flows(info, s) {
        grid.with(CellFlags::IS_STREET).with(CellFlags::IS_ARTERIAL)
    } else if !info.street && info.greenway {
        grid.with(CellFlags::IS_GREENWAY)
    } else {
        grid
    }
}

/// Does a crossing widen into a square? 2% do downtown and in commerce, and
/// 15% where a boulevard or a flow avenue passes.
pub open spec fn widens(
    zone: ZoneType,
    info: StreetInfo,
    s: Spot,
    x: int,
    z: int,
    seed: u64,
) -> bool {
    let r = coord_unit(x as i64, z as i64, seed, domain::PLAZA);
    ||| (zone == ZoneType::Downtown || zone == ZoneType::Commercial) && r.below(
        F32 { bits: 0x3ca3_d70a },
    )
    ||| (info.diagonal || flows(info, s)) && r.below(F32 { bits: 0x3e19_999a })
}

/// Is the block a garden among homes? 15% are.
pub open spec fn is_garden(zone: ZoneType, block: BlockLoc, seed: u64) -> bool {
    zone == ZoneType::Residential && coord_unit(block.bx, block.bz, seed, domain::BLOCK_NOISE).below(
        F32 { bits: 0x3e19_999a },
    )
}

/// The traits of a cell before any lot is looked at: roads, squares on
/// crossings, the pavement beside roads, green ground, and whole squares.
pub open spec fn ground_flags(
    v: VoronoiDiagram,
    params: ZoneParams,
    zone: ZoneType,
    f: CellField,
    x: int,
    z: int,
    seed: u64,
) -> CellFlags {
    let info = network(v, params, f.here, x, z, seed);
    let block = located(f.here.local_x, f.here.local_z, params.block_size);
    let roads = road_flags(info, f.here);
    let squares = if roads.has(CellFlags::IS_STREET) && is_crossing(block) && widens(
        zone,
        info,
        f.here,
        x,
        z,
        seed,
    ) {
        roads.with(CellFlags::IS_PLAZA)
    } else {
        roads
    };
    let walks = if !squares.has(CellFlags::IS_STREET) && !squares.has(CellFlags::IS_GREENWAY)
        && borders_road(v, params, f, x, z, seed) {
        squares.with(CellFlags::IS_SIDEWALK)
    } else {
        squares
    };
    let parks = if !walks.has(CellFlags::IS_STREET) && !walks.has(CellFlags::IS_SIDEWALK)
        && !walks.has(CellFlags::IS_GREENWAY) && (zone == ZoneType::Park || is_garden(
        zone,
        block,
        seed,
    )) {
        walks.with(CellFlags::IS_PARK)
    } else {
        walks
    };
    if special(block.bx, block.bz, zone, seed) == SpecialKind::Plaza && !parks.has(
        CellFlags::IS_STREET,
    ) && !parks.has(CellFlags::IS_SIDEWALK) {
        parks.with(CellFlags::IS_PLAZA)
    } else {
        parks
    }
}

/// Is the ground kept free of buildings?
pub open spec fn kept_free(flags: CellFlags) -> bool {
    ||| flags.has(CellFlags::IS_STREET)
    ||| flags.has(CellFlags::IS_SIDEWALK)
    ||| flags.has(CellFlags::IS_PLAZA)
    ||| flags.has(CellFlags::IS_PARK)
    ||| flags.has(CellFlags::IS_GREENWAY)
}

/// Is the lot one of a tower block that stays green?
pub open spec fn stays_green(kind: SpecialKind, lot: LotSlot) -> bool {
    kind == SpecialKind::TowerPark && lot.slot != lot.count / 2
}

/// Zero.
pub open spec fn flat() -> F32 {
    F32 { bits: 0 }
}

/// The height and palette of a cell once its block has had its say: markets
/// build on every lot and stay below 10; in a tower block the middle lot rises
/// by 1.35 and the others stay green.
pub open spec fn block_shaped(
    b: (F32, u8),
    kind: SpecialKind,
    lot: LotSlot,
    params: ZoneParams,
    seed: u64,
) -> (F32, u8) {
    match kind {
        SpecialKind::Market => {
            let (h, p) = if b.0.at_most(flat()) {
                shed(lot.lot_id, params, seed)
            } else {
                b
            };
            (h.smaller(F32 { bits: 0x4120_0000 }), p)
        },
        SpecialKind::TowerPark => if stays_green(kind, lot) {
            (flat(), b.1)
        } else {
            let h = if b.0.at_most(flat()) {
                F32 { bits: 0x4100_0000 }
            } else {
                b.0
            };
            (h.product(F32 { bits: 0x3fac_cccd }).smaller(height_cap(params)), b.1)
        },
        _ => b,
    }
}

/// The height of a cell once landmarks have risen by 1.5, but for markets, and
/// the footprint has set its bound.
pub open spec fn final_height(
    h: F32,
    kind: SpecialKind,
    lot: LotSlot,
    zone: ZoneType,
    params: ZoneParams,
    cap: F32,
    seed: u64,
) -> F32 {
    let risen = if flat().below(h) && (kind == SpecialKind::Ordinary || kind == SpecialKind::TowerPark)
        && landmark(lot.lot_id, zone, seed) {
        h.product(F32 { bits: 0x3fc0_0000 }).smaller(height_cap(params))
    } else {
        h
    };
    if flat().below(risen) {
        risen.smaller(cap)
    } else {
        risen
    }
}

/// The cell of a lot.
pub open spec fn lot_cell(
    v: VoronoiDiagram,
    a: [F32; ZONE_COUNT],
    params: ZoneParams,
    zone: ZoneType,
    f: CellField,
    flags: CellFlags,
    x: int,
    z: int,
    seed: u64,
) -> Cell {
    let block = located(f.here.local_x, f.here.local_z, params.block_size);
    let lot = lot_at(block, params.block_size, seed);
    let kind = special(block.bx, block.bz, zone, seed);
    let b = built(
        lot.lot_id,
        lot.corner,
        coord_unit(block.bx, block.bz, seed, domain::BLOCK_NOISE),
        centre_pull(v.map(), F64::integer(x), F64::integer(z)),
        Some((x as i64, z as i64)),
        params,
        seed,
    );
    let (h, palette_id) = block_shaped(b, kind, lot, params, seed);
    let height = final_height(h, kind, lot, zone, params, f.height_cap, seed);
    Cell {
        height,
        zone_affinity: a,
        palette_id,
        flags: if height.at_most(flat()) && stays_green(kind, lot) {
            flags.with(CellFlags::IS_PARK)
        } else {
            flags
        },
        _pad: 0,
        interior_id: if flat().below(height) {
            lot_interior(block.bx, block.bz, lot.slot, seed)
        } else {
            0
        },
    }
}

/// The cell at world coordinates. It depends on them and on what is measured
/// there, and on no chunk.
pub open spec fn city_cell(
    c: WorldConfig,
    v: VoronoiDiagram,
    x: int,
    z: int,
    f: CellField,
) -> Cell {
    let a = pulls(v, f.powers@);
    let params = c.blended(a);
    let zone = dominant(a);
    let flags = ground_flags(v, params, zone, f, x, z, c.seed);
    if kept_free(flags) {
        Cell {
            height: flat(),
            zone_affinity: a,
            palette_id: 0,
            flags,
            _pad: 0,
            interior_id: 0,
        }
    } else {
        lot_cell(v, a, params, zone, f, flags, x, z, c.seed)
    }
}

/// The road traits of a cell.
fn pave(info: &StreetInfo, s: &Spot) -> (flags: CellFlags)
    ensures
        flags == road_flags(*info, *s),
{
    let mut flags: CellFlags = CellFlags::of(CellFlags::NONE);
    if info.street {
        flags = flags.insert(CellFlags::IS_STREET);
        if info.arterial {
            flags = flags.insert(CellFlags::IS_ARTERIAL);
        }
    }
    let flow: bool = !(info.street && info.arterial) && s.flow;
    if flow {
        flags = flags.insert(CellFlags::IS_STREET).insert(CellFlags::IS_ARTERIAL);
    } else if !info.street && info.greenway {
        flags = flags.insert(CellFlags::IS_GREENWAY);
    }
    flags
}

/// What the street network says of a cell at world coordinates.
fn ask_network(
    voronoi: &VoronoiDiagram,
    params: &ZoneParams,
    s: &Spot,
    x: i64,
    z: i64,
    seed: u64,
) -> (info: StreetInfo)
    ensures
        info == network(*voronoi, *params, *s, x as int, z as int, seed),
{
    let seam: bool = voronoi.is_seam_road(F64::from_i64(x), F64::from_i64(z));
    street_info(s.local_x, s.local_z, params, s.diagonal, seam, seed)
}

/// Whether a cell is a road. The district borders, which take longest to find,
/// are looked at last.
fn is_road_at(
    voronoi: &VoronoiDiagram,
    params: &ZoneParams,
    s: &Spot,
    x: i64,
    z: i64,
    seed: u64,
) -> (b: bool)
    ensures
        b == is_road(*voronoi, *params, *s, x as int, z as int, seed),
{
    s.flow || street_info(s.local_x, s.local_z, params, s.diagonal, false, seed).street
        || voronoi.is_seam_road(F64::from_i64(x), F64::from_i64(z))
}

/// Whether any of the four neighbours of a cell is a road.
pub fn abuts_street(
    world_x: i64,
    world_z: i64,
    params: &ZoneParams,
    field: &CellField,
    voronoi: &VoronoiDiagram,
    seed: u64,
) -> (b: bool)
    requires
        i64::MIN < world_x < i64::MAX,
        i64::MIN < world_z < i64::MAX,
    ensures
        b == borders_road(*voronoi, *params, *field, world_x as int, world_z as int, seed),
{
    is_road_at(voronoi, params, &field.east, world_x + 1, world_z, seed) || is_road_at(
        voronoi,
        params,
        &field.west,
        world_x - 1,
        world_z,
        seed,
    ) || is_road_at(voronoi, params, &field.south, world_x, world_z + 1, seed) || is_road_at(
        voronoi,
        params,
        &field.north,
        world_x,
        world_z - 1,
        seed,
    )
}

/// The traits of a cell before any lot is looked at.
fn survey(
    voronoi: &VoronoiDiagram,
    params: &ZoneParams,
    zone: ZoneType,
    field: &CellField,
    x: i64,
    z: i64,
    seed: u64,
) -> (flags: CellFlags)
    requires
        i64::MIN < x < i64::MAX,
        i64::MIN < z < i64::MAX,
    ensures
        flags == ground_flags(*voronoi, *params, zone, *field, x as int, z as int, seed),
{
    let here: Spot = field.here;
    let info: StreetInfo = ask_network(voronoi, params, &here, x, z, seed);
    let block: BlockLoc = block_loc(here.local_x, here.local_z, params.block_size);
    let mut flags: CellFlags = pave(&info, &here);
    if flags.contains(CellFlags::IS_STREET) && is_intersection(
        here.local_x,
        here.local_z,
        params,
    ) {
        let flow: bool = !(info.street && info.arterial) && here.flow;
        let r: F32 = hash_unit(x, z, seed, domain::PLAZA);
        let busy: bool = zone == ZoneType::Downtown || zone == ZoneType::Commercial;
        if (busy && r.lt(F32::from_bits(0x3ca3_d70a))) || ((info.diagonal || flow) && r.lt(
            F32::from_bits(0x3e19_999a),
        )) {
            flags = flags.insert(CellFlags::IS_PLAZA);
        }
    }
    if !flags.contains(CellFlags::IS_STREET) && !flags.contains(CellFlags::IS_GREENWAY) {
        if abuts_street(x, z, params, field, voronoi, seed) {
            flags = flags.insert(CellFlags::IS_SIDEWALK);
        }
    }
    let garden: bool = zone == ZoneType::Residential && hash_unit(
        block.bx,
        block.bz,
        seed,
        domain::BLOCK_NOISE,
    ).lt(F32::from_bits(0x3e19_999a));
    if !flags.contains(CellFlags::IS_STREET) && !flags.contains(CellFlags::IS_SIDEWALK)
        && !flags.contains(CellFlags::IS_GREENWAY) && (zone == ZoneType::Park || garden) {
        flags = flags.insert(CellFlags::IS_PARK);
    }
    if special_for(block.bx, block.bz, zone, seed) == SpecialKind::Plaza && !flags.contains(
        CellFlags::IS_STREET,
    ) && !flags.contains(CellFlags::IS_SIDEWALK) {
        flags = flags.insert(CellFlags::IS_PLAZA);
    }
    flags
}

/// The height and palette of a cell once its block has had its say.
fn shape_by_block(
    b: (F32, u8),
    kind: SpecialKind,
    lot: &LotSlot,
    params: &ZoneParams,
    seed: u64,
) -> (r: (F32, u8))
    ensures
        r == block_shaped(b, kind, *lot, *params, seed),
{
    let zero: F32 = F32::from_bits(0);
    match kind {
        SpecialKind::Market => {
            let (h, p): (F32, u8) = if b.0.le(zero) {
                market_shed(lot.lot_id, params, seed)
            } else {
                b
            };
            (h.min(F32::from_bits(0x4120_0000)), p)
        },
        SpecialKind::TowerPark => {
            if lot.slot != lot.count / 2 {
                return (zero, b.1);
            }
            let h: F32 = if b.0.le(zero) {
                F32::from_bits(0x4100_0000)
            } else {
                b.0
            };
            (h.times(F32::from_bits(0x3fac_cccd)).min(cap_of(params)), b.1)
        },
        SpecialKind::Plaza | SpecialKind::Ordinary => b,
    }
}

/// The height of a cell once landmarks have risen and the footprint has set
/// its bound.
fn finish_height(
    h: F32,
    kind: SpecialKind,
    lot: &LotSlot,
    zone: ZoneType,
    params: &ZoneParams,
    cap: F32,
    seed: u64,
) -> (r: F32)
    ensures
        r == final_height(h, kind, *lot, zone, *params, cap, seed),
{
    let zero: F32 = F32::from_bits(0);
    let mut height: F32 = h;
    if zero.lt(height) && (kind == SpecialKind::Ordinary || kind == SpecialKind::TowerPark)
        && is_landmark(lot.lot_id, zone, seed) {
        height = height.times(F32::from_bits(0x3fc0_0000)).min(cap_of(params));
    }
    if zero.lt(height) {
        height = height.min(cap);
    }
    height
}

/// The cell at world coordinates.
pub fn compose_cell(
    config: &WorldConfig,
    voronoi: &VoronoiDiagram,
    x: i64,
    z: i64,
    field: &CellField,
) -> (cell: Cell)
    requires
        i64::MIN < x < i64::MAX,
        i64::MIN < z < i64::MAX,
        field.powers@.len() == voronoi.map().len(),
    ensures
        cell == city_cell(*config, *voronoi, x as int, z as int, *field),
{
    let seed: u64 = config.seed;
    let affinity: [F32; ZONE_COUNT] = voronoi.query(&field.powers);
    assert(affinity =~= pulls(*voronoi, field.powers@));
    let params: ZoneParams = config.blended_zone_params(&affinity);
    let zone: ZoneType = dominant_zone(&affinity);
    let flags: CellFlags = survey(voronoi, &params, zone, field, x, z, seed);
    let zero: F32 = F32::from_bits(0);
    if flags.contains(CellFlags::IS_STREET) || flags.contains(CellFlags::IS_SIDEWALK)
        || flags.contains(CellFlags::IS_PLAZA) || flags.contains(CellFlags::IS_PARK)
        || flags.contains(CellFlags::IS_GREENWAY) {
        return Cell {
            height: zero,
            zone_affinity: affinity,
            palette_id: 0,
            flags,
            _pad: 0,
            interior_id: 0,
        };
    }
    let block: BlockLoc = block_loc(field.here.local_x, field.here.local_z, params.block_size);
    let lot: LotSlot = lot_slot(&block, params.block_size, seed);
    let kind: SpecialKind = special_for(block.bx, block.bz, zone, seed);
    let b: (F32, u8) = assign_building(
        lot.lot_id,
        lot.corner,
        block_noise(block.bx, block.bz, seed),
        voronoi.cbd_factor(F64::from_i64(x), F64::from_i64(z)),
        Some((x, z)),
        &params,
        seed,
    );
    let (h, palette_id): (F32, u8) = shape_by_block(b, kind, &lot, &params, seed);
    let height: F32 = finish_height(h, kind, &lot, zone, &params, field.height_cap, seed);
    let green: bool = height.le(zero) && kind == SpecialKind::TowerPark && lot.slot != lot.count
        / 2;
    Cell {
        height,
        zone_affinity: affinity,
        palette_id,
        flags: if green {
            flags.insert(CellFlags::IS_PARK)
        } else {
            flags
        },
        _pad: 0,
        interior_id: if zero.lt(height) {
            interior_id_for_lot(block.bx, block.bz, lot.slot, seed)
        } else {
            0
        },
    }
}

/// The world coordinate of a cell of a chunk, along one axis.
pub open spec fn world_coord(chunk: i32, size: int, offset: int) -> int {
    chunk * size + offset
}

/// The bytes of a chunk once its first `k` cells are written.
pub open spec fn chunk_bytes(
    cx: i32,
    cy: i32,
    c: WorldConfig,
    v: VoronoiDiagram,
    field: Seq<CellField>,
    k: int,
) -> Seq<u8>
    decreases k,
{
    let n = c.chunk_size as int;
    if k <= 0 {
        blank_chunk(ChunkId { cx, cy }, c.chunk_size, c.seed)
    } else {
        with_cell(
            chunk_bytes(cx, cy, c, v, field, k - 1),
            cell_place(k - 1),
            city_cell(
                c,
                v,
                world_coord(cx, n, (k - 1) % n),
                world_coord(cy, n, (k - 1) / n),
                field[k - 1],
            ),
        )
    }
}

/// Is something measured at every cell of a chunk, and at every cell the
/// power of the distance to every site?
pub open spec fn covers_chunk(
    field: Seq<CellField>,
    c: WorldConfig,
    v: VoronoiDiagram,
) -> bool {
    &&& field.len() == c.chunk_size * c.chunk_size
    &&& forall|i: int|
        0 <= i < field.len() ==> (#[trigger] field[i]).powers@.len() == v.map().len()
}

/// Is this the chunk at a column and a row?
#[verifier::opaque]
pub open spec fn is_chunk(
    b: ChunkBuffer,
    cx: i32,
    cy: i32,
    c: WorldConfig,
    v: VoronoiDiagram,
    field: Seq<CellField>,
) -> bool {
    let n = c.chunk_size as int;
    &&& b.wf()
    &&& b@ == chunk_bytes(cx, cy, c, v, field, n * n)
    &&& header_of(b@) == header_of(blank_chunk(ChunkId { cx, cy }, c.chunk_size, c.seed))
    &&& header_of(b@).cell_count == n * n
    &&& forall|i: int|
        0 <= i < n * n ==> is_cell_at(
            #[trigger] city_cell(
                c,
                v,
                world_coord(cx, n, i % n),
                world_coord(cy, n, i / n),
                field[i],
            ),
            b@,
            cell_place(i),
        )
}

/// Writing the cells one after another leaves the header and every cell
/// written before in place.
proof fn lemma_chunk_bytes(
    cx: i32,
    cy: i32,
    c: WorldConfig,
    v: VoronoiDiagram,
    field: Seq<CellField>,
    k: int,
)
    requires
        0 <= k <= c.chunk_size * c.chunk_size,
    ensures
        ({
            let n = c.chunk_size as int;
            let s = chunk_bytes(cx, cy, c, v, field, k);
            let blank = blank_chunk(ChunkId { cx, cy }, c.chunk_size, c.seed);
            &&& s.len() == blank.len()
            &&& blank.len() == cell_place(n * n)
            &&& forall|i: int|
                0 <= i < k ==> is_cell_at(
                    #[trigger] city_cell(
                        c,
                        v,
                        world_coord(cx, n, i % n),
                        world_coord(cy, n, i / n),
                        field[i],
                    ),
                    s,
                    cell_place(i),
                )
        }),
    decreases k,
{
    let n = c.chunk_size as int;
    lemma_blank_header(ChunkId { cx, cy }, c.chunk_size, c.seed);
    if k > 0 {
        lemma_chunk_bytes(cx, cy, c, v, field, k - 1);
        let before = chunk_bytes(cx, cy, c, v, field, k - 1);
        let s = chunk_bytes(cx, cy, c, v, field, k);
        let cell = city_cell(
            c,
            v,
            world_coord(cx, n, (k - 1) % n),
            world_coord(cy, n, (k - 1) / n),
            field[k - 1],
        );
        law_cell_read_back(before, cell_place(k - 1), cell);
        assert forall|i: int| 0 <= i < k implies is_cell_at(
            #[trigger] city_cell(
                c,
                v,
                world_coord(cx, n, i % n),
                world_coord(cy, n, i / n),
                field[i],
            ),
            s,
            cell_place(i),
        ) by {
            let other = city_cell(
                c,
                v,
                world_coord(cx, n, i % n),
                world_coord(cy, n, i / n),
                field[i],
            );
            if i < k - 1 {
                law_other_cells_untouched(before, k - 1, i, cell, other);
            }
        }
    }
}

/// Generates one chunk. `field` holds what is measured at each cell, row by
/// row.
pub fn generate_chunk(
    cx: i32,
    cy: i32,
    config: &WorldConfig,
    voronoi: &VoronoiDiagram,
    field: &Vec<CellField>,
) -> (b: ChunkBuffer)
    requires
        HEADER_BYTES + (config.chunk_size * config.chunk_size) * CELL_BYTES <= usize::MAX,
        covers_chunk(field@, *config, *voronoi),
    ensures
        is_chunk(b, cx, cy, *config, *voronoi, field@),
{
    let size: usize = config.chunk_size as usize;
    let mut b: ChunkBuffer = ChunkBuffer::new(ChunkId::new(cx, cy), config.chunk_size, config.seed);
    let ghost blank = b@;
    let total: usize = field.len();
    for i in 0..total
        invariant
            size == config.chunk_size,
            total == size * size,
            covers_chunk(field@, *config, *voronoi),
            total == field@.len(),
            b@ == chunk_bytes(cx, cy, *config, *voronoi, field@, i as int),
            header_of(b@) == header_of(blank),
            b@.len() == blank.len(),
            blank.len() == cell_place(total as int),
            header_of(blank).cell_count == total,
    {
        proof {
            crate::interior::grid::lemma_cell_of_place(i as int, size as int, size as int);
        }
        let (lx, lz): (usize, usize) = (i % size, i / size);
        assert(-0x8000_0000 * 0xffff <= cx * size <= 0x7fff_ffff * 0xffff) by (nonlinear_arith)
            requires
                -0x8000_0000 <= cx <= 0x7fff_ffff,
                0 <= size <= 0xffff,
        ;
        assert(-0x8000_0000 * 0xffff <= cy * size <= 0x7fff_ffff * 0xffff) by (nonlinear_arith)
            requires
                -0x8000_0000 <= cy <= 0x7fff_ffff,
                0 <= size <= 0xffff,
        ;
        let x: i64 = cx as i64 * size as i64 + lx as i64;
        let z: i64 = cy as i64 * size as i64 + lz as i64;
        let cell: Cell = compose_cell(config, voronoi, x, z, &field[i]);
        b.set_cell(i, cell);
    }
    proof {
        reveal(is_chunk);
        lemma_chunk_bytes(cx, cy, *config, *voronoi, field@, total as int);
    }
    b
}

/// The context of the interior of a built cell. The coordinates are those of
/// the district's own frame, rounded to cells, and those of the world.
pub open spec fn context_of(
    c: WorldConfig,
    local_x: i64,
    local_z: i64,
    x: int,
    z: int,
    cell: Cell,
) -> InteriorContext {
    let params = c.blended(cell.zone_affinity);
    let zone = dominant(cell.zone_affinity);
    let block = located(local_x, local_z, params.block_size);
    let lot = lot_at(block, params.block_size, c.seed);
    let (w, d) = lot_extent(block, params.block_size, c.seed);
    let side = street_side(x, z, params.block_size);
    let (fw, fd) = (held_to(w, 3, 64) as u8, held_to(d, 3, 64) as u8);
    InteriorContext {
        id: cell.interior_id,
        zone,
        zone_affinity: cell.zone_affinity,
        height: cell.height,
        floor_count: storeys(
            cell.height,
            c.interior_floor_height,
            c.interior_max_floors,
        ) as u8,
        footprint_w: fw,
        footprint_d: fd,
        palette_id: cell.palette_id,
        door_side: side,
        seed: c.seed,
        corner: lot.corner,
        frontage_depth: if side == DoorSide::West || side == DoorSide::East {
            fw
        } else {
            fd
        },
        building_role: match special(block.bx, block.bz, zone, c.seed) {
            SpecialKind::Market => BuildingRole::Market,
            SpecialKind::TowerPark => BuildingRole::TowerPark,
            _ => if landmark(lot.lot_id, zone, c.seed) {
                BuildingRole::Landmark
            } else {
                BuildingRole::Ordinary
            },
        },
        secondary_zone: runner_up(cell.zone_affinity, zone, ZONE_COUNT as int).0,
    }
}

/// The context of the interior of a built cell: the lot and the building are
/// found again as they were when the cell was composed.
pub fn interior_context_for(
    config: &WorldConfig,
    local_x: i64,
    local_z: i64,
    world_x: i64,
    world_z: i64,
    cell: &Cell,
) -> (ctx: InteriorContext)
    ensures
        ctx == context_of(*config, local_x, local_z, world_x as int, world_z as int, *cell),
{
    let params: ZoneParams = config.blended_zone_params(&cell.zone_affinity);
    let zone: ZoneType = dominant_zone(&cell.zone_affinity);
    let block: BlockLoc = block_loc(local_x, local_z, params.block_size);
    let lot: LotSlot = lot_slot(&block, params.block_size, config.seed);
    let (w, d): (u8, u8) = lot_rect(&block, params.block_size, config.seed);
    let footprint_w: u8 = if w < 3 {
        3
    } else if w > 64 {
        64
    } else {
        w
    };
    let footprint_d: u8 = if d < 3 {
        3
    } else if d > 64 {
        64
    } else {
        d
    };
    let side: DoorSide = door_side_for(world_x, world_z, params.block_size);
    let role: BuildingRole = match special_for(block.bx, block.bz, zone, config.seed) {
        SpecialKind::Market => BuildingRole::Market,
        SpecialKind::TowerPark => BuildingRole::TowerPark,
        SpecialKind::Plaza | SpecialKind::Ordinary => {
            if is_landmark(lot.lot_id, zone, config.seed) {
                BuildingRole::Landmark
            } else {
                BuildingRole::Ordinary
            }
        },
    };
    config.interior_context(
        cell.interior_id,
        zone,
        &cell.zone_affinity,
        cell.height,
        footprint_w,
        footprint_d,
        cell.palette_id,
        side,
        config.seed,
        lot.corner,
        role,
        secondary_zone(&cell.zone_affinity, zone),
    )
}

} // verus!
