//! Where windows go, and how plans are laid out.
use crate::interior::choices::on_side;
use crate::layout::{edge_cells, place_of, stock_rooms, DoorSide, Plan};
use crate::zones::ZoneType;
use vstd::prelude::*;

verus! {

/// The cells of an edge are those of the side, each once, without the corners.
pub proof fn law_edges(p: Plan, side: DoorSide, x: u8, z: u8)
    requires
        3 <= p.w <= 255,
        3 <= p.d <= 255,
    ensures
        ({
            let e = edge_cells(p.w, p.d, side);
            let upright = side == DoorSide::West || side == DoorSide::East;
            &&& e.len() == if upright {
                p.d - 2
            } else {
                p.w - 2
            }
            &&& e.no_duplicates()
            &&& e.contains((x, z)) <==> on_side(p, side, (x as int, z as int)) && if upright {
                1 <= z <= p.d - 2
            } else {
                1 <= x <= p.w - 2
            }
        }),
{
    let e = edge_cells(p.w, p.d, side);
    let upright = side == DoorSide::West || side == DoorSide::East;
    if on_side(p, side, (x as int, z as int)) && if upright {
        1 <= z <= p.d - 2
    } else {
        1 <= x <= p.w - 2
    } {
        let k = if upright {
            z - 1
        } else {
            x - 1
        };
        assert(e[k] == (x, z));
    }
    if e.contains((x, z)) {
        let k = choose|k: int| 0 <= k < e.len() && e[k] == (x, z);
    }
}

/// Plans are laid out row by row: a cell lies behind the rows before its own.
pub proof fn law_places_in_a_plan(x: int, z: int, w: int, d: int)
    requires
        0 <= x < w,
        0 <= z < d,
    ensures
        0 <= place_of(x, z, w) < w * d,
        place_of(x, z, w) % w == x,
        place_of(x, z, w) / w == z,
{
    assert(0 <= z * w + x < w * d) by (nonlinear_arith)
        requires
            0 <= x < w,
            0 <= z < d,
    ;
    vstd::arithmetic::div_mod::lemma_fundamental_div_mod_converse(z * w + x, w, z, x);
}

/// The stock tables: each has a template at least, no two templates of one
/// kind, and sizes in order, of no more than 7 cells along a side. The kinds
/// of a zone are those of its own ten.
pub proof fn law_stock_tables(zone: ZoneType, i: int, j: int)
    requires
        0 <= i < stock_rooms(zone).len(),
        0 <= j < stock_rooms(zone).len(),
    ensures
        ({
            let (a, b) = (stock_rooms(zone)[i], stock_rooms(zone)[j]);
            &&& a.kind == b.kind ==> i == j
            &&& a.kind / 10 == zone.ordinal() + 1
            &&& 1 <= a.min_w <= a.max_w <= 7
            &&& 1 <= a.min_d <= a.max_d <= 7
            &&& 1 <= a.doors <= 2
            &&& 0x3f80_0000 <= a.weight.bits < 0x7f80_0000
        }),
        1 <= stock_rooms(zone).len() <= 8,
{
    let rooms = stock_rooms(zone);
    let (a, b) = (rooms[i], rooms[j]);
    assert(i == 0 || i == 1 || i == 2 || i == 3);
    assert(j == 0 || j == 1 || j == 2 || j == 3);
}

/// Every home has a kitchen and a bathroom, both with plumbing; and of all
/// zones homes alone ask for rooms.
pub proof fn law_homes_have_kitchens_and_bathrooms(zone: ZoneType, i: int)
    requires
        0 <= i < stock_rooms(zone).len(),
    ensures
        ({
            let a = stock_rooms(zone)[i];
            &&& a.min_count >= 1 <==> a.kind == 21 || a.kind == 23
            &&& a.min_count >= 1 ==> zone == ZoneType::Residential && a.tags % 2 == 1
        }),
        exists|k: int|
            0 <= k < stock_rooms(ZoneType::Residential).len() && (#[trigger] stock_rooms(
                ZoneType::Residential,
            )[k]).kind == 21,
        exists|k: int|
            0 <= k < stock_rooms(ZoneType::Residential).len() && (#[trigger] stock_rooms(
                ZoneType::Residential,
            )[k]).kind == 23,
{
    let homes = stock_rooms(ZoneType::Residential);
    assert(homes[1].kind == 21 && homes[3].kind == 23);
    assert(i == 0 || i == 1 || i == 2 || i == 3);
}

} // verus!
