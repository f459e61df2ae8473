//! Where rooms would rather stand, by their tags.
use crate::interior::grid::within;
use crate::interior::placement::{any_tile, Rect};
use crate::layout::{
    BlueprintRoom, DoorSide, Floor, Plan, Tile, TAG_PUBLIC, TAG_QUIET, TAG_STREET,
};
use vstd::prelude::*;

verus! {

/// Does the room stand at the edge of the floor that faces the street?
pub open spec fn at_street_edge(p: Plan, r: Rect, side: DoorSide) -> bool {
    match side {
        DoorSide::West => r.0 <= 1,
        DoorSide::East => r.0 + r.2 >= p.w - 1,
        DoorSide::North => r.1 <= 1,
        DoorSide::South => r.1 + r.3 >= p.d - 1,
    }
}

/// Does the room stand right beside the core, corners counted?
pub open spec fn beside_core(p: Plan, r: Rect) -> bool {
    exists|c: (int, int)| #[trigger]
        within(c, r.0 - 1, r.1 - 1, r.0 + r.2 + 1, r.1 + r.3 + 1) && p.has(c) && p.tiles[c]
            == Tile::Core
}

/// Does the middle of the room lie in the half of the floor that the entrance
/// is in?
pub open spec fn in_entrance_half(p: Plan, r: Rect, side: DoorSide) -> bool {
    match side {
        DoorSide::West => 2 * r.0 + r.2 <= p.w,
        DoorSide::East => 2 * r.0 + r.2 >= p.w,
        DoorSide::North => 2 * r.1 + r.3 <= p.d,
        DoorSide::South => 2 * r.1 + r.3 >= p.d,
    }
}

/// Does the room stand against the outer wall ring?
pub open spec fn at_ring(p: Plan, r: Rect) -> bool {
    r.0 <= 1 || r.1 <= 1 || r.0 + r.2 >= p.w - 1 || r.1 + r.3 >= p.d - 1
}

/// Does the place suit a room of the template? Quiet rooms avoid the street
/// edge and the core, public rooms want the entrance half, and street rooms
/// the outer wall ring.
pub open spec fn suits(p: Plan, room: BlueprintRoom, r: Rect, side: DoorSide) -> bool {
    &&& room.tags & TAG_QUIET != 0 ==> !at_street_edge(p, r, side) && !beside_core(p, r)
    &&& room.tags & TAG_PUBLIC != 0 ==> in_entrance_half(p, r, side)
    &&& room.tags & TAG_STREET != 0 ==> at_ring(p, r)
}

/// Is the core right beside the room?
fn has_core_beside(g: &Floor, r: Rect) -> (b: bool)
    requires
        g.wf(),
    ensures
        b == beside_core(g@, r),
{
    let (x, z): (usize, usize) = (r.0 as usize, r.1 as usize);
    let (x1, z1): (usize, usize) = (x + r.2 as usize + 1, z + r.3 as usize + 1);
    let left: usize = if x == 0 {
        0
    } else {
        x - 1
    };
    let top: usize = if z == 0 {
        0
    } else {
        z - 1
    };
    let b: bool = any_tile(g, left, top, x1, z1, Tile::Core);
    proof {
        let p = g@;
        if b {
            let c = choose|c: (int, int)|
                #![trigger within(c, left as int, top as int, x1 as int, z1 as int)]
                within(c, left as int, top as int, x1 as int, z1 as int) && p.has(c)
                    && p.tiles[c] == Tile::Core;
            assert(within(c, r.0 - 1, r.1 - 1, r.0 + r.2 + 1, r.1 + r.3 + 1));
        } else if beside_core(p, r) {
            let c = choose|c: (int, int)| #[trigger]
                within(c, r.0 - 1, r.1 - 1, r.0 + r.2 + 1, r.1 + r.3 + 1) && p.has(c)
                    && p.tiles[c] == Tile::Core;
            assert(within(c, left as int, top as int, x1 as int, z1 as int));
        }
    }
    b
}

/// Does the place suit a room of the template?
pub fn is_suited(g: &Floor, room: &BlueprintRoom, r: Rect, side: DoorSide) -> (b: bool)
    requires
        g.wf(),
    ensures
        b == suits(g@, *room, r, side),
{
    let (x0, z0): (u16, u16) = (r.0 as u16, r.1 as u16);
    let (x1, z1): (u16, u16) = (x0 + r.2 as u16, z0 + r.3 as u16);
    let (w, d): (u16, u16) = (g.width as u16, g.depth as u16);
    if room.tags & TAG_QUIET != 0 {
        let street: bool = match side {
            DoorSide::West => x0 <= 1,
            DoorSide::East => x1 + 1 >= w,
            DoorSide::North => z0 <= 1,
            DoorSide::South => z1 + 1 >= d,
        };
        if street || has_core_beside(g, r) {
            return false;
        }
    }
    if room.tags & TAG_PUBLIC != 0 {
        let near: bool = match side {
            DoorSide::West => x0 + x1 <= w,
            DoorSide::East => x0 + x1 >= w,
            DoorSide::North => z0 + z1 <= d,
            DoorSide::South => z0 + z1 >= d,
        };
        if !near {
            return false;
        }
    }
    room.tags & TAG_STREET == 0 || x0 <= 1 || z0 <= 1 || x1 + 1 >= w || z1 + 1 >= d
}

} // verus!
