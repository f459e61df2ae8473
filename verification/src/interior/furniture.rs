//! Furnishing rooms: a first piece in every room that has the space, and a
//! second one in as many as the density asks for.
use crate::interior::draw::{pick, stream_index};
use crate::interior::grid::{rect_in_grid, within};
use crate::interior::storey::{in_grid, rect_of, PlacedRoom};
use crate::layout::{fitting, furniture_set, Floor, Plan, FURN_NONE};
use vstd::prelude::*;

verus! {

/// A plan with a piece of furniture on a rectangle.
pub open spec fn set_down(p: Plan, x0: int, z0: int, x1: int, z1: int, code: u8) -> Plan {
    Plan {
        furn: Map::new(
            |c: (int, int)| p.has(c),
            |c: (int, int)|
                if within(c, x0, z0, x1, z1) {
                    code
                } else {
                    p.furn[c]
                },
        ),
        ..p
    }
}

/// Does a piece, given as code, width and depth, fit the room?
pub open spec fn piece_fits(r: PlacedRoom, piece: (u8, u8, u8)) -> bool {
    piece.0 != FURN_NONE && piece.1 <= r.w && piece.2 <= r.d
}

/// Does the room get its first piece? It does wherever the piece fits.
pub open spec fn has_first(r: PlacedRoom) -> bool {
    piece_fits(r, fitting(r.kind).0)
}

/// The draw of a room against the density, in percent.
pub open spec fn second_roll(r: PlacedRoom, base: u64) -> int {
    stream_index(base, r.z0 * 256 + r.x0, 100)
}

/// Does the room get its second piece? It does where the piece fits beside the
/// first one and the draw falls below the density.
pub open spec fn has_second(r: PlacedRoom, base: u64, density: u8) -> bool {
    let (a, b) = fitting(r.kind);
    &&& piece_fits(r, b)
    &&& has_first(r) ==> r.w - b.1 >= a.1 || r.d - b.2 >= a.2
    &&& second_roll(r, base) < density
}

/// Is the cell under the first piece, in the near corner of the room?
pub open spec fn under_first(r: PlacedRoom, c: (int, int)) -> bool {
    let a = fitting(r.kind).0;
    has_first(r) && within(c, r.x0 as int, r.z0 as int, r.x0 + a.1, r.z0 + a.2)
}

/// Is the cell under the second piece, in the far corner of the room?
pub open spec fn under_second(r: PlacedRoom, base: u64, density: u8, c: (int, int)) -> bool {
    let b = fitting(r.kind).1;
    has_second(r, base, density) && within(
        c,
        r.x0 + r.w - b.1,
        r.z0 + r.d - b.2,
        r.x0 + r.w,
        r.z0 + r.d,
    )
}

/// The plan with one room furnished.
pub open spec fn equipped(p: Plan, r: PlacedRoom, base: u64, density: u8) -> Plan {
    Plan {
        furn: Map::new(
            |c: (int, int)| p.has(c),
            |c: (int, int)|
                if under_first(r, c) {
                    fitting(r.kind).0.0
                } else if under_second(r, base, density, c) {
                    fitting(r.kind).1.0
                } else {
                    p.furn[c]
                },
        ),
        ..p
    }
}

/// The plan with the rooms from `i` on furnished.
pub open spec fn all_equipped(
    p: Plan,
    placed: Seq<PlacedRoom>,
    base: u64,
    density: u8,
    i: int,
) -> Plan
    decreases placed.len() - i,
{
    if i < 0 || i >= placed.len() {
        p
    } else {
        all_equipped(equipped(p, placed[i], base, density), placed, base, density, i + 1)
    }
}

/// Sets a piece down on a rectangle.
fn put_piece(g: &mut Floor, x0: usize, z0: usize, x1: usize, z1: usize, code: u8)
    requires
        old(g).wf(),
        x1 <= old(g).width,
        z1 <= old(g).depth,
    ensures
        final(g).wf(),
        final(g)@ == set_down(old(g)@, x0 as int, z0 as int, x1 as int, z1 as int, code),
{
    let ghost p = g@;
    let mut z: usize = z0;
    assert(g@ =~= set_down(p, x0 as int, z0 as int, x1 as int, z as int, code));
    while z < z1
        invariant
            g.wf(),
            p.complete(),
            p.w == g.width,
            p.d == g.depth,
            x1 <= g.width,
            z1 <= g.depth,
            z0 <= z,
            z <= z1 || z == z0,
            g@ == set_down(p, x0 as int, z0 as int, x1 as int, z as int, code),
        decreases z1 - z,
    {
        let ghost q = g@;
        let mut x: usize = x0;
        assert(g@ =~= set_down(q, x0 as int, z as int, x as int, z + 1, code));
        while x < x1
            invariant
                g.wf(),
                q.complete(),
                q.w == g.width,
                q.d == g.depth,
                x1 <= g.width,
                z < z1 <= g.depth,
                x0 <= x,
                x <= x1 || x == x0,
                g@ == set_down(q, x0 as int, z as int, x as int, z + 1, code),
            decreases x1 - x,
        {
            g.put_furniture(x, z, code);
            x = x + 1;
            assert(g@ =~= set_down(q, x0 as int, z as int, x as int, z + 1, code));
        }
        assert(set_down(q, x0 as int, z as int, x as int, z + 1, code) =~= set_down(
            p,
            x0 as int,
            z0 as int,
            x1 as int,
            z + 1,
            code,
        ));
        z = z + 1;
    }
    assert(g@ =~= set_down(p, x0 as int, z0 as int, x1 as int, z1 as int, code));
}

/// Does a piece fit a room of `w` by `d`?
fn fits_in(w: u8, d: u8, piece: (u8, u8, u8)) -> (b: bool)
    ensures
        b == (piece.0 != FURN_NONE && piece.1 <= w && piece.2 <= d),
{
    piece.0 != FURN_NONE && piece.1 <= w && piece.2 <= d
}

/// Furnishes one room.
fn furnish_room(g: &mut Floor, r: PlacedRoom, base: u64, density: u8)
    requires
        old(g).wf(),
        rect_in_grid(old(g)@, rect_of(r)),
    ensures
        final(g).wf(),
        final(g)@ == equipped(old(g)@, r, base, density),
{
    let ghost p = g@;
    let pieces: [(u8, u8, u8); 2] = furniture_set(r.kind);
    let (a, b): ((u8, u8, u8), (u8, u8, u8)) = (pieces[0], pieces[1]);
    let (x0, z0): (usize, usize) = (r.x0 as usize, r.z0 as usize);
    let (x1, z1): (usize, usize) = (x0 + r.w as usize, z0 + r.d as usize);
    let first: bool = fits_in(r.w, r.d, a);
    let second: bool = fits_in(r.w, r.d, b) && (!first || r.w - b.1 >= a.1 || r.d - b.2 >= a.2)
        && pick(base, z0 * 256 + x0, 100) < density as usize;
    if second {
        put_piece(g, x1 - b.1 as usize, z1 - b.2 as usize, x1, z1, b.0);
    }
    if first {
        put_piece(g, x0, z0, x0 + a.1 as usize, z0 + a.2 as usize, a.0);
    }
    assert(g@ =~= equipped(p, r, base, density));
}

/// Furnishes the rooms of a storey.
pub fn furnish_rooms(g: &mut Floor, placed: &Vec<PlacedRoom>, base: u64, density: u8)
    requires
        old(g).wf(),
        in_grid(old(g)@, placed@),
    ensures
        final(g).wf(),
        final(g)@ == all_equipped(old(g)@, placed@, base, density, 0),
{
    let ghost goal = all_equipped(g@, placed@, base, density, 0);
    for i in 0..placed.len()
        invariant
            g.wf(),
            g@.w == old(g)@.w,
            g@.d == old(g)@.d,
            in_grid(old(g)@, placed@),
            goal == all_equipped(g@, placed@, base, density, i as int),
    {
        let r: PlacedRoom = placed[i];
        assert(rect_in_grid(old(g)@, rect_of(placed@[i as int])));
        furnish_room(g, r, base, density);
    }
}

} // verus!
