//! Painting a floor: the outer ring, the core, rooms, doors and circulation.
use crate::interior::draw::{
    first, is_first, lemma_first, lemma_no_first, pick, stream_index,
};
use crate::interior::units::PlaceRegion;
use crate::layout::{DoorSide, Floor, Plan, Tile};
use vstd::prelude::*;

verus! {

/// Is the cell in the rectangle from `(x0, z0)` up to but not reaching
/// `(x1, z1)`?
pub open spec fn within(c: (int, int), x0: int, z0: int, x1: int, z1: int) -> bool {
    x0 <= c.0 < x1 && z0 <= c.1 < z1
}

/// The plan with a rectangle stamped over.
pub open spec fn stamped(
    p: Plan,
    x0: int,
    z0: int,
    x1: int,
    z1: int,
    t: Tile,
    kind: u8,
) -> Plan {
    Plan {
        tiles: Map::new(
            |c: (int, int)| p.has(c),
            |c: (int, int)|
                if within(c, x0, z0, x1, z1) {
                    t
                } else {
                    p.tiles[c]
                },
        ),
        kinds: Map::new(
            |c: (int, int)| p.has(c),
            |c: (int, int)|
                if within(c, x0, z0, x1, z1) {
                    kind
                } else {
                    p.kinds[c]
                },
        ),
        ..p
    }
}

/// The plan with every free cell of a rectangle turned into circulation.
pub open spec fn opened(p: Plan, x0: int, z0: int, x1: int, z1: int) -> Plan {
    Plan {
        tiles: Map::new(
            |c: (int, int)| p.has(c),
            |c: (int, int)|
                if within(c, x0, z0, x1, z1) && p.tiles[c] == Tile::Void {
                    Tile::Corridor
                } else {
                    p.tiles[c]
                },
        ),
        ..p
    }
}

/// Stamps a rectangle of the grid.
fn stamp(g: &mut Floor, x0: usize, z0: usize, x1: usize, z1: usize, t: Tile, kind: u8)
    requires
        old(g).wf(),
        x1 <= old(g).width,
        z1 <= old(g).depth,
    ensures
        final(g).wf(),
        final(g)@ == stamped(
            old(g)@,
            x0 as int,
            z0 as int,
            x1 as int,
            z1 as int,
            t,
            kind,
        ),
{
    let ghost p = g@;
    let mut z: usize = z0;
    assert(g@ =~= stamped(p, x0 as int, z0 as int, x1 as int, z as int, t, kind));
    while z < z1
        invariant
            g.wf(),
            p.complete(),
            p.w == g.width,
            p.d == g.depth,
            x1 <= g.width,
            z1 <= g.depth,
            z0 <= z,
            z <= z1 || z == z0,
            g@ == stamped(p, x0 as int, z0 as int, x1 as int, z as int, t, kind),
        decreases z1 - z,
    {
        let ghost q = g@;
        let mut x: usize = x0;
        assert(g@ =~= stamped(q, x0 as int, z as int, x as int, z + 1, t, kind));
        while x < x1
            invariant
                g.wf(),
                q.complete(),
                q.w == g.width,
                q.d == g.depth,
                x1 <= g.width,
                z < z1 <= g.depth,
                x0 <= x,
                x <= x1 || x == x0,
                g@ == stamped(q, x0 as int, z as int, x as int, z + 1, t, kind),
            decreases x1 - x,
        {
            g.put(x, z, t, kind);
            x = x + 1;
            assert(g@ =~= stamped(q, x0 as int, z as int, x as int, z + 1, t, kind));
        }
        assert(stamped(q, x0 as int, z as int, x as int, z + 1, t, kind) =~= stamped(
            p,
            x0 as int,
            z0 as int,
            x1 as int,
            z + 1,
            t,
            kind,
        ));
        z = z + 1;
    }
    assert(g@ =~= stamped(p, x0 as int, z0 as int, x1 as int, z1 as int, t, kind));
}

/// Turns every free cell of a rectangle of the grid into circulation.
pub fn open_up(g: &mut Floor, x0: usize, z0: usize, x1: usize, z1: usize)
    requires
        old(g).wf(),
        x1 <= old(g).width,
        z1 <= old(g).depth,
    ensures
        final(g).wf(),
        final(g)@ == opened(old(g)@, x0 as int, z0 as int, x1 as int, z1 as int),
{
    let ghost p = g@;
    let mut z: usize = z0;
    assert(g@ =~= opened(p, x0 as int, z0 as int, x1 as int, z as int));
    while z < z1
        invariant
            g.wf(),
            p.complete(),
            p.w == g.width,
            p.d == g.depth,
            x1 <= g.width,
            z1 <= g.depth,
            z0 <= z,
            z <= z1 || z == z0,
            g@ == opened(p, x0 as int, z0 as int, x1 as int, z as int),
        decreases z1 - z,
    {
        let ghost q = g@;
        let mut x: usize = x0;
        assert(g@ =~= opened(q, x0 as int, z as int, x as int, z + 1));
        while x < x1
            invariant
                g.wf(),
                q.complete(),
                q.w == g.width,
                q.d == g.depth,
                x1 <= g.width,
                z < z1 <= g.depth,
                x0 <= x,
                x <= x1 || x == x0,
                g@ == opened(q, x0 as int, z as int, x as int, z + 1),
            decreases x1 - x,
        {
            if g.at(x, z) == Tile::Void {
                g.put_tile(x, z, Tile::Corridor);
            }
            x = x + 1;
            assert(g@ =~= opened(q, x0 as int, z as int, x as int, z + 1));
        }
        assert(opened(q, x0 as int, z as int, x as int, z + 1) =~= opened(
            p,
            x0 as int,
            z0 as int,
            x1 as int,
            z + 1,
        ));
        z = z + 1;
    }
    assert(g@ =~= opened(p, x0 as int, z0 as int, x1 as int, z1 as int));
}

/// The plan with its outer ring walled.
pub open spec fn ringed(p: Plan) -> Plan {
    Plan {
        tiles: Map::new(
            |c: (int, int)| p.has(c),
            |c: (int, int)|
                if p.on_ring(c) {
                    Tile::Wall
                } else {
                    p.tiles[c]
                },
        ),
        ..p
    }
}

/// Walls the outer ring of a floor.
pub fn paint_wall_ring(g: &mut Floor)
    requires
        old(g).wf(),
        old(g).width > 0,
        old(g).depth > 0,
    ensures
        final(g).wf(),
        final(g)@ == ringed(old(g)@),
{
    let ghost p = g@;
    let w: usize = g.width as usize;
    let d: usize = g.depth as usize;
    let mut x: usize = 0;
    while x < w
        invariant
            g.wf(),
            p.complete(),
            w == g.width,
            d == g.depth,
            p.w == w,
            p.d == d,
            d > 0,
            x <= w,
            g@.complete(),
            g@.kinds == p.kinds,
            g@.furn == p.furn,
            forall|c: (int, int)|
                p.has(c) ==> #[trigger] g@.tiles[c] == if c.0 < x && (c.1 == 0 || c.1 == d - 1) {
                    Tile::Wall
                } else {
                    p.tiles[c]
                },
        decreases w - x,
    {
        g.put_tile(x, 0, Tile::Wall);
        g.put_tile(x, d - 1, Tile::Wall);
        x = x + 1;
    }
    let mut z: usize = 0;
    while z < d
        invariant
            g.wf(),
            p.complete(),
            w == g.width,
            d == g.depth,
            p.w == w,
            p.d == d,
            w > 0,
            z <= d,
            g@.complete(),
            g@.kinds == p.kinds,
            g@.furn == p.furn,
            forall|c: (int, int)|
                p.has(c) ==> #[trigger] g@.tiles[c] == if c.1 == 0 || c.1 == d - 1 || (c.1 < z && (
                c.0 == 0 || c.0 == w - 1)) {
                    Tile::Wall
                } else {
                    p.tiles[c]
                },
        decreases d - z,
    {
        g.put_tile(0, z, Tile::Wall);
        g.put_tile(w - 1, z, Tile::Wall);
        z = z + 1;
    }
    assert(g@ =~= ringed(p));
}

/// The rectangle cut down to the cells off the outer ring.
pub open spec fn clipped(p: Plan, x0: int, z0: int, x1: int, z1: int) -> (int, int, int, int) {
    (
        if x0 < 1 {
            1
        } else {
            x0
        },
        if z0 < 1 {
            1
        } else {
            z0
        },
        if x1 > p.w - 1 {
            p.w - 1
        } else {
            x1
        },
        if z1 > p.d - 1 {
            p.d - 1
        } else {
            z1
        },
    )
}

/// The plan with a core of the given size at `(cx, cz)`, the ring left alone.
pub open spec fn cored(p: Plan, cx: int, cz: int, size: int) -> Plan {
    let (x0, z0, x1, z1) = clipped(p, cx, cz, cx + size, cz + size);
    stamped(p, x0, z0, x1, z1, Tile::Core, 0)
}

/// Paints a square core, the ring left alone.
pub fn paint_core(g: &mut Floor, cx0: u8, cz0: u8, core: u8)
    requires
        old(g).wf(),
    ensures
        final(g).wf(),
        final(g)@ == cored(old(g)@, cx0 as int, cz0 as int, core as int),
{
    let ghost p = g@;
    if g.width == 0 || g.depth == 0 {
        assert(g@ =~= cored(p, cx0 as int, cz0 as int, core as int));
        return;
    }
    let (cx, cz, size): (usize, usize, usize) = (cx0 as usize, cz0 as usize, core as usize);
    let x0: usize = if cx < 1 {
        1
    } else {
        cx
    };
    let z0: usize = if cz < 1 {
        1
    } else {
        cz
    };
    let x1: usize = if cx + size > g.width as usize - 1 {
        g.width as usize - 1
    } else {
        cx + size
    };
    let z1: usize = if cz + size > g.depth as usize - 1 {
        g.depth as usize - 1
    } else {
        cz + size
    };
    stamp(g, x0, z0, x1, z1, Tile::Core, 0);
}

/// The plan with circulation on the free cells of a core and the cells round
/// it, the ring left alone.
pub open spec fn haloed(p: Plan, cx: int, cz: int, size: int) -> Plan {
    let (x0, z0, x1, z1) = clipped(p, cx - 1, cz - 1, cx + size + 1, cz + size + 1);
    opened(p, x0, z0, x1, z1)
}

/// Opens a lobby round the core: its free neighbours become circulation.
pub fn paint_lobby_halo(g: &mut Floor, cx: u8, cz: u8, size: u8)
    requires
        old(g).wf(),
    ensures
        final(g).wf(),
        final(g)@ == haloed(old(g)@, cx as int, cz as int, size as int),
{
    let ghost p = g@;
    if g.width == 0 || g.depth == 0 {
        assert(g@ =~= haloed(p, cx as int, cz as int, size as int));
        return;
    }
    let x0: usize = if cx < 2 {
        1
    } else {
        cx as usize - 1
    };
    let z0: usize = if cz < 2 {
        1
    } else {
        cz as usize - 1
    };
    let x1: usize = if cx as usize + size as usize + 1 > g.width as usize - 1 {
        g.width as usize - 1
    } else {
        cx as usize + size as usize + 1
    };
    let z1: usize = if cz as usize + size as usize + 1 > g.depth as usize - 1 {
        g.depth as usize - 1
    } else {
        cz as usize + size as usize + 1
    };
    open_up(g, x0, z0, x1, z1);
}

/// Stamps a rectangle as a room of the given kind.
pub fn paint_room(g: &mut Floor, x0: u8, z0: u8, w: u8, d: u8, kind: u8)
    requires
        old(g).wf(),
        x0 + w <= old(g).width,
        z0 + d <= old(g).depth,
    ensures
        final(g).wf(),
        final(g)@ == stamped(
            old(g)@,
            x0 as int,
            z0 as int,
            x0 + w,
            z0 + d,
            Tile::Room,
            kind,
        ),
{
    stamp(
        g,
        x0 as usize,
        z0 as usize,
        x0 as usize + w as usize,
        z0 as usize + d as usize,
        Tile::Room,
        kind,
    );
}

/// The doorway on the ring, at a drawn place along the entrance side.
pub open spec fn entrance_cell(w: int, d: int, side: DoorSide, base: u64) -> (int, int) {
    match side {
        DoorSide::West => (0, 1 + stream_index(base, 0, d - 2)),
        DoorSide::East => (w - 1, 1 + stream_index(base, 0, d - 2)),
        DoorSide::North => (1 + stream_index(base, 0, w - 2), 0),
        DoorSide::South => (1 + stream_index(base, 0, w - 2), d - 1),
    }
}

/// The cell behind the doorway.
pub open spec fn entrance_hall(w: int, d: int, side: DoorSide, base: u64) -> (int, int) {
    match side {
        DoorSide::West => (1, 1 + stream_index(base, 0, d - 2)),
        DoorSide::East => (w - 2, 1 + stream_index(base, 0, d - 2)),
        DoorSide::North => (1 + stream_index(base, 0, w - 2), 1),
        DoorSide::South => (1 + stream_index(base, 0, w - 2), d - 2),
    }
}

/// Opens the street entrance on the ring.
pub fn punch_entrance_door(g: &mut Floor, side: DoorSide, base: u64)
    requires
        old(g).wf(),
        old(g).width >= 3,
        old(g).depth >= 3,
    ensures
        final(g).wf(),
        final(g)@ == old(g)@.with(
            entrance_cell(old(g).width as int, old(g).depth as int, side, base),
            Tile::Door,
            0,
        ),
{
    let w: usize = g.width as usize;
    let d: usize = g.depth as usize;
    let (x, z): (usize, usize) = match side {
        DoorSide::West => (0, 1 + pick(base, 0, d - 2)),
        DoorSide::East => (w - 1, 1 + pick(base, 0, d - 2)),
        DoorSide::North => (1 + pick(base, 0, w - 2), 0),
        DoorSide::South => (1 + pick(base, 0, w - 2), d - 1),
    };
    g.put(x, z, Tile::Door, 0);
}

/// Keeps the cell behind the street entrance as circulation.
pub fn reserve_entrance(g: &mut Floor, side: DoorSide, base: u64)
    requires
        old(g).wf(),
        old(g).width >= 3,
        old(g).depth >= 3,
    ensures
        final(g).wf(),
        final(g)@ == old(g)@.with(
            entrance_hall(old(g).width as int, old(g).depth as int, side, base),
            Tile::Corridor,
            0,
        ),
{
    let w: usize = g.width as usize;
    let d: usize = g.depth as usize;
    let (x, z): (usize, usize) = match side {
        DoorSide::West => (1, 1 + pick(base, 0, d - 2)),
        DoorSide::East => (w - 2, 1 + pick(base, 0, d - 2)),
        DoorSide::North => (1 + pick(base, 0, w - 2), 1),
        DoorSide::South => (1 + pick(base, 0, w - 2), d - 2),
    };
    g.put(x, z, Tile::Corridor, 0);
}

/// Does the cell share an edge with the core from outside?
pub open spec fn faces_core(c: (int, int), cx: int, cz: int, size: int) -> bool {
    ||| (c.1 + 1 == cz || c.1 == cz + size) && cx <= c.0 < cx + size
    ||| (c.0 + 1 == cx || c.0 == cx + size) && cz <= c.1 < cz + size
}

/// A place that the door of the core can take: free, off the ring, and facing
/// the core. Places are counted row by row.
pub open spec fn core_door_site(p: Plan, cx: int, cz: int, size: int) -> spec_fn(int) -> bool {
    |i: int|
        {
            let c = (i % p.w, i / p.w);
            p.inside(c) && faces_core(c, cx, cz, size) && p.tiles[c] == Tile::Void
        }
}

/// The plan with a door on the first free cell, row by row, that faces the
/// core; unchanged where there is none.
pub open spec fn core_doored(p: Plan, cx: int, cz: int, size: int) -> Plan {
    match first(p.w * p.d, core_door_site(p, cx, cz, size)) {
        Some(i) => p.with((i % p.w, i / p.w), Tile::Door, 0),
        None => p,
    }
}

/// Opens a door beside the core.
pub fn punch_core_door(g: &mut Floor, cx: u8, cz: u8, size: u8)
    requires
        old(g).wf(),
    ensures
        final(g).wf(),
        final(g)@ == core_doored(old(g)@, cx as int, cz as int, size as int),
{
    let ghost p = g@;
    let w: usize = g.width as usize;
    let d: usize = g.depth as usize;
    let n: usize = g.tiles.len();
    let (left, top, side): (usize, usize, usize) = (cx as usize, cz as usize, size as usize);
    let ghost hit = core_door_site(p, cx as int, cz as int, size as int);
    for i in 0..n
        invariant
            g.wf(),
            g@ == p,
            p == old(g)@,
            w == g.width,
            d == g.depth,
            n == w * d,
            left == cx,
            top == cz,
            side == size,
            hit == core_door_site(p, cx as int, cz as int, size as int),
            forall|j: int| 0 <= j < i ==> !#[trigger] hit(j),
    {
        proof {
            lemma_cell_of_place(i as int, w as int, d as int);
        }
        let x: usize = i % w;
        let z: usize = i / w;
        let faces: bool = ((z + 1 == top || z == top + side) && left <= x && x < left + side) || ((x
            + 1 == left || x == left + side) && top <= z && z < top + side);
        if faces && x >= 1 && z >= 1 && x + 1 < w && z + 1 < d {
            if g.at(x, z) == Tile::Void {
                g.put(x, z, Tile::Door, 0);
                proof {
                    assert(is_first(p.w * p.d, hit, i as int));
                    lemma_first(p.w * p.d, hit, i as int);
                }
                return;
            }
        }
        assert(!hit(i as int));
    }
    proof {
        lemma_no_first(p.w * p.d, hit);
    }
}

/// A place counted row by row lies on a cell.
pub proof fn lemma_cell_of_place(i: int, w: int, d: int)
    requires
        0 <= i < w * d,
        0 <= w,
        0 <= d,
    ensures
        0 < w,
        0 <= i % w < w,
        0 <= i / w < d,
        i == (i / w) * w + i % w,
{
    if w == 0 {
        assert(w * d == 0) by (nonlinear_arith)
            requires
                w == 0,
        ;
    }
    vstd::arithmetic::div_mod::lemma_fundamental_div_mod(i, w);
    assert(i / w < d) by (nonlinear_arith)
        requires
            i == w * (i / w) + i % w,
            i % w >= 0,
            i < w * d,
            w > 0,
    ;
    assert(i / w >= 0) by (nonlinear_arith)
        requires
            i >= 0,
            w > 0,
    ;
    assert((i / w) * w == w * (i / w)) by (nonlinear_arith);
}

/// Cell `i` along the boundary of a rectangle: top and bottom by turns from
/// the left, and the sides between them by turns from the top.
pub open spec fn boundary_cell(x0: int, z0: int, w: int, d: int, i: int) -> (int, int) {
    if i < 2 * w {
        (x0 + i / 2, if i % 2 == 0 {
            z0
        } else {
            z0 + d - 1
        })
    } else {
        let k = i - 2 * w;
        (if k % 2 == 0 {
            x0
        } else {
            x0 + w - 1
        }, z0 + 1 + k / 2)
    }
}

/// The number of cells along the boundary of a rectangle.
pub open spec fn boundary_len(w: int, d: int) -> int {
    2 * w + if d > 2 {
        2 * (d - 2)
    } else {
        0
    }
}

/// Cell `i` along the boundary of a rectangle.
fn boundary_at(x0: usize, z0: usize, w: usize, d: usize, i: usize) -> (c: (usize, usize))
    requires
        x0 <= 255,
        z0 <= 255,
        w <= 255,
        d <= 255,
        w > 0 || x0 > 0,
        d > 0 || z0 > 0,
        i < boundary_len(w as int, d as int),
    ensures
        (c.0 as int, c.1 as int) == boundary_cell(
            x0 as int,
            z0 as int,
            w as int,
            d as int,
            i as int,
        ),
        c.0 <= 1000,
        c.1 <= 1000,
{
    if i < 2 * w {
        (
            x0 + i / 2,
            if i % 2 == 0 {
                z0
            } else {
                z0 + d - 1
            },
        )
    } else {
        let k: usize = i - 2 * w;
        (
            if k % 2 == 0 {
                x0
            } else {
                x0 + w - 1
            },
            z0 + 1 + k / 2,
        )
    }
}

/// The neighbour of a cell; past the far edge where it would be negative.
fn neighbour_at(x: usize, z: usize, side: usize, gw: usize, gd: usize) -> (c: (usize, usize))
    requires
        x <= 1000,
        z <= 1000,
        side < 4,
    ensures
        ({
            let e = neighbour((x as int, z as int), side as int);
            if e.0 < 0 {
                c.0 == gw
            } else if e.1 < 0 {
                c.1 == gd
            } else {
                (c.0 as int, c.1 as int) == e
            }
        }),
{
    if side == 0 {
        (x + 1, z)
    } else if side == 1 {
        (
            if x == 0 {
                gw
            } else {
                x - 1
            },
            z,
        )
    } else if side == 2 {
        (x, z + 1)
    } else {
        (
            x,
            if z == 0 {
                gd
            } else {
                z - 1
            },
        )
    }
}

/// Cell `i` of the boundary, walked from a drawn start.
pub open spec fn walked(start: int, i: int, n: int) -> int {
    (start + i) % n
}

/// A neighbour of a cell: east, west, south, north.
pub open spec fn neighbour(c: (int, int), k: int) -> (int, int) {
    if k == 0 {
        (c.0 + 1, c.1)
    } else if k == 1 {
        (c.0 - 1, c.1)
    } else if k == 2 {
        (c.0, c.1 + 1)
    } else {
        (c.0, c.1 - 1)
    }
}

/// Is the tile somewhere a room can open to?
pub open spec fn is_circulation(t: Tile) -> bool {
    t == Tile::Corridor || t == Tile::Core || t == Tile::Door
}

/// The `i`-th cell looked at for a door of the room: four neighbours for each
/// boundary cell, the boundary walked from a drawn start.
pub open spec fn door_candidate(
    rect: (u8, u8, u8, u8),
    base: u64,
    door_idx: int,
    i: int,
) -> (int, int) {
    let n = boundary_len(rect.2 as int, rect.3 as int);
    let start = stream_index(base, 1 + door_idx * 2, n);
    neighbour(
        boundary_cell(
            rect.0 as int,
            rect.1 as int,
            rect.2 as int,
            rect.3 as int,
            walked(start, i / 4, n),
        ),
        i % 4,
    )
}

/// Can a door of the room take the `i`-th cell looked at?
pub open spec fn room_door_site(
    p: Plan,
    rect: (u8, u8, u8, u8),
    base: u64,
    door_idx: int,
) -> spec_fn(int) -> bool {
    |i: int|
        {
            let c = door_candidate(rect, base, door_idx, i);
            p.has(c) && is_circulation(p.tiles[c])
        }
}

/// The plan with a door on the first circulation cell beside the room, in the
/// order of the walk; unchanged where there is none.
pub open spec fn room_doored(
    p: Plan,
    rect: (u8, u8, u8, u8),
    base: u64,
    door_idx: int,
) -> Plan {
    match first(
        4 * boundary_len(rect.2 as int, rect.3 as int),
        room_door_site(p, rect, base, door_idx),
    ) {
        Some(i) => p.with(door_candidate(rect, base, door_idx, i), Tile::Door, 0),
        None => p,
    }
}

/// Is the rectangle one that doors can be looked for round?
pub open spec fn rect_in_grid(p: Plan, rect: (u8, u8, u8, u8)) -> bool {
    &&& rect.0 < p.w
    &&& rect.1 < p.d
    &&& rect.0 + rect.2 <= p.w
    &&& rect.1 + rect.3 <= p.d
    &&& rect.2 > 0 || rect.0 > 0
    &&& rect.3 > 0 || rect.1 > 0
}

/// Opens door `door_idx` of a room onto the circulation beside it.
pub fn room_door(g: &mut Floor, rect: (u8, u8, u8, u8), base: u64, door_idx: usize)
    requires
        old(g).wf(),
        rect_in_grid(old(g)@, rect),
        1 + door_idx * 2 <= usize::MAX,
    ensures
        final(g).wf(),
        final(g)@ == room_doored(old(g)@, rect, base, door_idx as int),
{
    let ghost p = g@;
    let gw: usize = g.width as usize;
    let gd: usize = g.depth as usize;
    let (x0, z0, w, d): (usize, usize, usize, usize) = (
        rect.0 as usize,
        rect.1 as usize,
        rect.2 as usize,
        rect.3 as usize,
    );
    let n: usize = 2 * w + if d > 2 {
        2 * (d - 2)
    } else {
        0
    };
    let ghost hit = room_door_site(p, rect, base, door_idx as int);
    let start: usize = pick(base, 1 + door_idx * 2, n);
    for i in 0..4 * n
        invariant
            g.wf(),
            g@ == p,
            p == old(g)@,
            gw == g.width,
            gd == g.depth,
            x0 == rect.0,
            z0 == rect.1,
            w == rect.2,
            d == rect.3,
            n == boundary_len(w as int, d as int),
            n <= 2000,
            n > 0 ==> start < n,
            start == stream_index(base, 1 + door_idx * 2, n as int),
            rect_in_grid(p, rect),
            hit == room_door_site(p, rect, base, door_idx as int),
            forall|j: int| 0 <= j < i ==> !#[trigger] hit(j),
    {
        let b: usize = (start + i / 4) % n;
        assert(b == walked(start as int, i as int / 4, n as int));
        let (x, z): (usize, usize) = boundary_at(x0, z0, w, d, b);
        let (nx, nz): (usize, usize) = neighbour_at(x, z, i % 4, gw, gd);
        let ghost c = door_candidate(rect, base, door_idx as int, i as int);
        assert(p.has((nx as int, nz as int)) ==> c == (nx as int, nz as int));
        assert(p.has(c) ==> c == (nx as int, nz as int));
        if nx < gw && nz < gd {
            let t: Tile = g.at(nx, nz);
            if t == Tile::Corridor || t == Tile::Core || t == Tile::Door {
                g.put(nx, nz, Tile::Door, 0);
                proof {
                    assert(is_first(4 * n, hit, i as int));
                    lemma_first(4 * n, hit, i as int);
                }
                return;
            }
        }
        assert(!hit(i as int));
    }
    proof {
        lemma_no_first(4 * n, hit);
    }
}

/// The cell just outside boundary cell `i` of a unit; one step short of the
/// grid's edge where the unit begins at it.
pub open spec fn outward_cell(u: PlaceRegion, i: int) -> (int, int) {
    let c = boundary_cell(u.x0 as int, u.z0 as int, u.w as int, u.d as int, i);
    if i < 2 * u.w {
        (c.0, if i % 2 == 0 {
            if u.z0 == 0 {
                0
            } else {
                u.z0 - 1
            }
        } else {
            u.z0 + u.d
        })
    } else {
        (if (i - 2 * u.w) % 2 == 0 {
            if u.x0 == 0 {
                0
            } else {
                u.x0 - 1
            }
        } else {
            u.x0 + u.w
        }, c.1)
    }
}

/// The cell just outside boundary cell `i` of a unit, which is `(x, z)`.
fn outward_at(u: PlaceRegion, i: usize, x: usize, z: usize) -> (c: (usize, usize))
    requires
        (x as int, z as int) == boundary_cell(
            u.x0 as int,
            u.z0 as int,
            u.w as int,
            u.d as int,
            i as int,
        ),
    ensures
        (c.0 as int, c.1 as int) == outward_cell(u, i as int),
{
    let w: usize = u.w as usize;
    if i < 2 * w {
        (
            x,
            if i % 2 == 0 {
                if u.z0 == 0 {
                    0
                } else {
                    u.z0 as usize - 1
                }
            } else {
                u.z0 as usize + u.d as usize
            },
        )
    } else {
        (
            if (i - 2 * w) % 2 == 0 {
                if u.x0 == 0 {
                    0
                } else {
                    u.x0 as usize - 1
                }
            } else {
                u.x0 as usize + u.w as usize
            },
            z,
        )
    }
}

/// Can the front door of a unit take the `i`-th cell of the walk? It must be
/// free and off the ring, and open outwards onto something passable.
pub open spec fn unit_door_site(p: Plan, u: PlaceRegion, base: u64) -> spec_fn(int) -> bool {
    |i: int|
        {
            let n = boundary_len(u.w as int, u.d as int);
            let b = walked(stream_index(base, 0, n), i, n);
            let c = boundary_cell(u.x0 as int, u.z0 as int, u.w as int, u.d as int, b);
            let o = outward_cell(u, b);
            p.inside(c) && p.tiles[c] == Tile::Void && p.has(o) && p.tiles[o] != Tile::Wall
                && p.tiles[o] != Tile::Room
        }
}

/// The cell the front door of a unit takes, if any.
pub open spec fn unit_door_cell(p: Plan, u: PlaceRegion, base: u64) -> Option<(int, int)> {
    let n = boundary_len(u.w as int, u.d as int);
    if u.w == 0 || u.d == 0 {
        None
    } else {
        match first(n, unit_door_site(p, u, base)) {
            Some(i) => Some(
                boundary_cell(
                    u.x0 as int,
                    u.z0 as int,
                    u.w as int,
                    u.d as int,
                    walked(stream_index(base, 0, n), i, n),
                ),
            ),
            None => None,
        }
    }
}

/// The plan with the front door of a unit; unchanged where it finds no place.
pub open spec fn unit_doored(p: Plan, u: PlaceRegion, base: u64) -> Plan {
    match unit_door_cell(p, u, base) {
        Some(c) => p.with(c, Tile::Door, 0),
        None => p,
    }
}

/// Opens the front door of a unit and says whether there was a place for it.
pub fn punch_unit_door(g: &mut Floor, unit: PlaceRegion, base: u64) -> (opened: bool)
    requires
        old(g).wf(),
    ensures
        final(g).wf(),
        final(g)@ == unit_doored(old(g)@, unit, base),
        opened == (unit_door_cell(old(g)@, unit, base) is Some),
{
    let ghost p = g@;
    let gw: usize = g.width as usize;
    let gd: usize = g.depth as usize;
    let (x0, z0, w, d): (usize, usize, usize, usize) = (
        unit.x0 as usize,
        unit.z0 as usize,
        unit.w as usize,
        unit.d as usize,
    );
    if w == 0 || d == 0 {
        return false;
    }
    let n: usize = 2 * w + if d > 2 {
        2 * (d - 2)
    } else {
        0
    };
    let ghost hit = unit_door_site(p, unit, base);
    let start: usize = pick(base, 0, n);
    for i in 0..n
        invariant
            g.wf(),
            g@ == p,
            p == old(g)@,
            gw == g.width,
            gd == g.depth,
            x0 == unit.x0,
            z0 == unit.z0,
            w == unit.w,
            d == unit.d,
            w > 0,
            d > 0,
            n == boundary_len(w as int, d as int),
            n <= 2000,
            start < n,
            start == stream_index(base, 0, n as int),
            hit == unit_door_site(p, unit, base),
            forall|j: int| 0 <= j < i ==> !#[trigger] hit(j),
    {
        let b: usize = (start + i) % n;
        assert(b == walked(start as int, i as int, n as int));
        let (x, z): (usize, usize) = boundary_at(x0, z0, w, d, b);
        let (nx, nz): (usize, usize) = outward_at(unit, b, x, z);
        if x >= 1 && z >= 1 && x + 1 < gw && z + 1 < gd && nx < gw && nz < gd {
            if g.at(x, z) == Tile::Void {
                let t: Tile = g.at(nx, nz);
                if t != Tile::Wall && t != Tile::Room {
                    g.put(x, z, Tile::Door, 0);
                    proof {
                        assert(is_first(n as int, hit, i as int));
                        lemma_first(n as int, hit, i as int);
                    }
                    return true;
                }
            }
        }
        assert(!hit(i as int));
    }
    proof {
        lemma_no_first(n as int, hit);
    }
    false
}

} // verus!
