//! What an interior is told of the lot around it.
use crate::chunk::laws::law_secondary_pulls_next;
use crate::chunk::{
    context_of, dominant, flat, landmark, lot_interior, special, SpecialKind,
};
use crate::config::WorldConfig;
use crate::data::Cell;
use crate::float::absolute;
use crate::hash::{domain, law_hash_separates};
use crate::layout::{storeys, BuildingRole, DoorSide};
use crate::lot::{located, lot_at, lot_extent};
use crate::single::{lemma_single, single, F32};
use crate::zones::ZONE_COUNT;
use vstd::prelude::*;

verus! {

/// The distance from a cell to the street on one side of its block.
pub open spec fn street_distance(x: int, z: int, b: int, side: DoorSide) -> int {
    match side {
        DoorSide::West => x % b,
        DoorSide::East => b - x % b,
        DoorSide::North => z % b,
        DoorSide::South => b - z % b,
    }
}

/// The main door faces the nearest street of the cell's own coordinates: on no
/// other side is a street nearer.
pub proof fn law_doors_face_the_nearest_street(
    c: WorldConfig,
    local_x: i64,
    local_z: i64,
    x: int,
    z: int,
    cell: Cell,
    other: DoorSide,
)
    requires
        c.blended(cell.zone_affinity).block_size > 0,
    ensures
        ({
            let b = c.blended(cell.zone_affinity).block_size as int;
            let side = context_of(c, local_x, local_z, x, z, cell).door_side;
            &&& street_distance(x, z, b, side) <= street_distance(x, z, b, other)
            &&& street_distance(x, z, b, side) <= b / 2
        }),
{
    let b = c.blended(cell.zone_affinity).block_size as int;
    vstd::arithmetic::div_mod::lemma_mod_bound(x, b);
    vstd::arithmetic::div_mod::lemma_mod_bound(z, b);
}

/// An interior is told what its cell is: the key, the height, the palette, the
/// pulls, the seed, the strongest zone, and whether the lot is a corner. Its
/// footprint is the ground of the lot, held to 3 to 64 tiles, and the depth
/// behind the entrance is the extent across the entrance side.
pub proof fn law_contexts_tell_the_lot(
    c: WorldConfig,
    local_x: i64,
    local_z: i64,
    x: int,
    z: int,
    cell: Cell,
)
    ensures
        ({
            let ctx = context_of(c, local_x, local_z, x, z, cell);
            let size = c.blended(cell.zone_affinity).block_size;
            let block = located(local_x, local_z, size);
            let (w, d) = lot_extent(block, size, c.seed);
            &&& ctx.id == cell.interior_id
            &&& ctx.height == cell.height
            &&& ctx.palette_id == cell.palette_id
            &&& ctx.zone_affinity == cell.zone_affinity
            &&& ctx.seed == c.seed
            &&& ctx.zone == dominant(cell.zone_affinity)
            &&& ctx.corner == lot_at(block, size, c.seed).corner
            &&& 3 <= ctx.footprint_w <= 64 && 3 <= ctx.footprint_d <= 64
            &&& 3 <= w <= 64 ==> ctx.footprint_w == w
            &&& 3 <= d <= 64 ==> ctx.footprint_d == d
            &&& w < 3 ==> ctx.footprint_w == 3
            &&& d < 3 ==> ctx.footprint_d == 3
            &&& w > 64 ==> ctx.footprint_w == 64
            &&& d > 64 ==> ctx.footprint_d == 64
            &&& ctx.door_side == DoorSide::West || ctx.door_side == DoorSide::East
                ==> ctx.frontage_depth == ctx.footprint_w
            &&& ctx.door_side == DoorSide::North || ctx.door_side == DoorSide::South
                ==> ctx.frontage_depth == ctx.footprint_d
            &&& ctx.floor_count == storeys(
                cell.height,
                c.interior_floor_height,
                c.interior_max_floors,
            )
        }),
{
    let n = storeys(cell.height, c.interior_floor_height, c.interior_max_floors);
    assert(n <= 255);
}

/// The role of a building is that of its block, and in an ordinary block that
/// of its lot.
pub proof fn law_roles(c: WorldConfig, local_x: i64, local_z: i64, x: int, z: int, cell: Cell)
    ensures
        ({
            let ctx = context_of(c, local_x, local_z, x, z, cell);
            let zone = dominant(cell.zone_affinity);
            let size = c.blended(cell.zone_affinity).block_size;
            let block = located(local_x, local_z, size);
            let kind = special(block.bx, block.bz, zone, c.seed);
            let tall = landmark(lot_at(block, size, c.seed).lot_id, zone, c.seed);
            &&& ctx.building_role == BuildingRole::Market <==> kind == SpecialKind::Market
            &&& ctx.building_role == BuildingRole::TowerPark <==> kind == SpecialKind::TowerPark
            &&& ctx.building_role == BuildingRole::Landmark <==> tall && (kind
                == SpecialKind::Ordinary || kind == SpecialKind::Plaza)
        }),
{
}

/// A building has the storeys that it takes to reach its roof: one storey less
/// would fall short, and so many reach it, unless the most that are allowed do
/// not. Counted in the least positive single.
pub proof fn law_storeys_reach_the_roof(height: F32, floor_height: F32, max_floors: u8)
    requires
        0 < height.bits < 0x7f80_0000,
        0x3586_37bd <= floor_height.bits < 0x7f80_0000,
        max_floors > 0,
    ensures
        ({
            let n = storeys(height, floor_height, max_floors);
            let roof = absolute(single(), height.bits as nat);
            let unit = absolute(single(), floor_height.bits as nat);
            &&& 1 <= n <= max_floors
            &&& (n - 1) * unit < roof
            &&& n < max_floors ==> roof <= n * unit
        }),
{
    let f = single();
    lemma_single();
    reveal(F32::below);
    reveal(F32::at_most);
    reveal(F32::is_undefined);
    let roof = absolute(f, height.bits as nat);
    let unit = absolute(f, floor_height.bits as nat);
    crate::float::laws::lemma_zero(f);
    crate::float::laws::lemma_absolute_increases(f, 0, height.bits as nat);
    crate::float::laws::lemma_absolute_increases(f, 0, floor_height.bits as nat);
    assert(floor_height.larger(F32 { bits: 0x3586_37bd }) == floor_height);
    let t = roof + unit - 1;
    let m = t / unit as int;
    vstd::arithmetic::div_mod::lemma_fundamental_div_mod(t, unit as int);
    assert((m - 1) * unit < roof && roof <= m * unit && m >= 1) by (nonlinear_arith)
        requires
            t == unit * m + t % unit as int,
            0 <= t % unit as int,
            t % (unit as int) < unit,
            t == roof + unit - 1,
            roof > 0,
            unit > 0,
    ;
    let n = storeys(height, floor_height, max_floors);
    if n < m {
        assert((n - 1) * unit <= (m - 1) * unit) by (nonlinear_arith)
            requires
                n <= m,
                unit > 0,
        ;
    }
}

/// A flat lot has no storey, and a roof of no height that can be told one.
pub proof fn law_flat_lots_have_no_storey(height: F32, floor_height: F32, max_floors: u8)
    ensures
        height.bits == 0 ==> storeys(height, floor_height, max_floors) == 0,
        height.bits == 0x7f80_0000 && 0x3586_37bd <= floor_height.bits < 0x7f80_0000 ==> storeys(
            height,
            floor_height,
            max_floors,
        ) == max_floors,
{
    lemma_single();
    reveal(F32::below);
    reveal(F32::at_most);
    reveal(F32::is_undefined);
}

/// Lots have interiors of their own: two lots of one row of blocks have
/// different keys, unless they are the same lot of the same block.
pub proof fn law_interiors_differ(bx: i64, slot: u8, cx: i64, other: u8, bz: i64, seed: u64)
    requires
        slot < 16,
        other < 16,
        -0x400_0000_0000_0000 <= bx < 0x400_0000_0000_0000,
        -0x400_0000_0000_0000 <= cx < 0x400_0000_0000_0000,
        (bx, slot) != (cx, other),
    ensures
        lot_interior(bx, bz, slot, seed) != lot_interior(cx, bz, other, seed),
{
    let a = bx.wrapping_mul(16).wrapping_add(slot as i64);
    let b = cx.wrapping_mul(16).wrapping_add(other as i64);
    assert(a == 16 * bx + slot && b == 16 * cx + other);
    law_hash_separates(a, bz, seed, domain::INTERIOR, b, bz, seed, domain::INTERIOR);
}

/// The second zone that an interior is told is not its own, and of all others
/// none pulls more.
pub proof fn law_contexts_tell_the_second_zone(
    c: WorldConfig,
    local_x: i64,
    local_z: i64,
    x: int,
    z: int,
    cell: Cell,
    j: int,
)
    requires
        forall|k: int| 0 <= k < ZONE_COUNT ==> flat().at_most(#[trigger] cell.zone_affinity[k]),
        0 <= j < ZONE_COUNT,
    ensures
        ({
            let ctx = context_of(c, local_x, local_z, x, z, cell);
            let a = cell.zone_affinity;
            &&& ctx.secondary_zone != ctx.zone
            &&& j != ctx.zone.ordinal() ==> !a[ctx.secondary_zone.ordinal() as int].below(a[j])
        }),
{
    law_secondary_pulls_next(cell.zone_affinity, dominant(cell.zone_affinity));
}

} // verus!
