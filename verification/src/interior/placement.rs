//! Finding places for rooms: sizes, fits, anchors and plumbing.
use crate::float::error::lemma_sum_grows;
use crate::hash::{coord_draw, lemma_draw_bound};
use crate::interior::draw::{
    first, is_first, lemma_first, lemma_no_first, pick, stream_index, stream_unit, unit_draw,
};
use crate::interior::grid::{lemma_cell_of_place, paint_room, stamped, within};
use crate::interior::units::{at_least, capped, PlaceRegion};
use crate::layout::{lemma_filter_step, BlueprintRoom, Floor, Plan, Tile, TAG_WET};
use crate::single::{lemma_scaled_draw, lemma_single, single, F32};
use vstd::prelude::*;

verus! {

/// A template whose size bounds are in order, or that asks for no size at all.
pub open spec fn orderly(room: BlueprintRoom) -> bool {
    room.max_w == 0 || room.max_d == 0 || (room.min_w <= room.max_w && room.min_d <= room.max_d)
}

/// A length drawn from `least..=most`.
pub open spec fn drawn_length(least: u8, most: u8, base: u64, k: int) -> int {
    least + stream_unit(base, k).product(F32::integer((most - least + 1) as nat)).floor_within(255)
}

/// A length drawn from `least..=most`.
fn draw_length(least: u8, most: u8, base: u64, k: usize) -> (n: u8)
    requires
        least <= most,
    ensures
        n == drawn_length(least, most, base, k as int),
        least <= n <= most,
{
    let span: u32 = (most - least) as u32 + 1;
    proof {
        let place = #[verifier::truncate] (k as i64);
        lemma_draw_bound(base as i64, place, 0, 0);
        lemma_scaled_draw(coord_draw(base as i64, place, 0, 0), span as nat);
    }
    least + unit_draw(base, k).times(F32::from_u32(span)).to_u8()
}

/// Is the size within the template's bounds?
pub open spec fn allowed(room: BlueprintRoom, s: (int, int)) -> bool {
    room.min_w <= s.0 <= room.max_w && room.min_d <= s.1 <= room.max_d
}

/// The distance between two numbers.
pub open spec fn gap(a: int, b: int) -> int {
    if a < b {
        b - a
    } else {
        a - b
    }
}

/// Does size `s` come before size `t` when `aim` is wanted? The nearer one
/// does; then the narrower one; then the shallower one.
pub open spec fn preferred(s: (int, int), t: (int, int), aim: (int, int)) -> bool {
    let a = gap(s.0, aim.0) + gap(s.1, aim.1);
    let b = gap(t.0, aim.0) + gap(t.1, aim.1);
    a < b || (a == b && (s.0 < t.0 || (s.0 == t.0 && s.1 < t.1)))
}

/// Size `s` can be had and is preferred to every other that can be.
pub open spec fn is_best(
    room: BlueprintRoom,
    aim: (int, int),
    can: spec_fn((int, int)) -> bool,
    s: (int, int),
) -> bool {
    &&& allowed(room, s) && can(s)
    &&& forall|t: (int, int)|
        allowed(room, t) && #[trigger] can(t) ==> t == s || preferred(s, t, aim)
}

/// The size to take among those that can be had.
pub open spec fn best_size(
    room: BlueprintRoom,
    aim: (int, int),
    can: spec_fn((int, int)) -> bool,
) -> Option<(int, int)> {
    if exists|s: (int, int)| is_best(room, aim, can, s) {
        Some(choose|s: (int, int)| is_best(room, aim, can, s))
    } else {
        None
    }
}

proof fn lemma_best(
    room: BlueprintRoom,
    aim: (int, int),
    can: spec_fn((int, int)) -> bool,
    s: (int, int),
)
    requires
        is_best(room, aim, can, s),
    ensures
        best_size(room, aim, can) == Some(s),
{
    let t = choose|t: (int, int)| is_best(room, aim, can, t);
    assert(is_best(room, aim, can, t));
    assert(can(t) && can(s));
}

/// Is the first size preferred to the second?
fn prefers(w: u8, d: u8, bw: u8, bd: u8, tw: u8, td: u8) -> (b: bool)
    ensures
        b == preferred(
            (w as int, d as int),
            (bw as int, bd as int),
            (tw as int, td as int),
        ),
{
    let dist_w: u16 = if w < tw {
        (tw - w) as u16
    } else {
        (w - tw) as u16
    };
    let dist_d: u16 = if d < td {
        (td - d) as u16
    } else {
        (d - td) as u16
    };
    let other_w: u16 = if bw < tw {
        (tw - bw) as u16
    } else {
        (bw - tw) as u16
    };
    let other_d: u16 = if bd < td {
        (td - bd) as u16
    } else {
        (bd - td) as u16
    };
    let a: u16 = dist_w + dist_d;
    let b: u16 = other_w + other_d;
    a < b || (a == b && (w < bw || (w == bw && d < bd)))
}

/// Does a `w` by `d` room fit at `(x, z)`: inside the region, on free cells,
/// with no other room on the cells round it?
pub open spec fn fits(p: Plan, x: int, z: int, w: int, d: int, region: PlaceRegion) -> bool {
    &&& region.holds(x, z, w, d)
    &&& forall|c: (int, int)| #[trigger]
        within(c, x, z, x + w, z + d) ==> p.has(c) && p.tiles[c] == Tile::Void
    &&& forall|c: (int, int)| #[trigger]
        within(c, x - 1, z - 1, x + w + 1, z + d + 1) && p.has(c) ==> p.tiles[c] != Tile::Room
}

/// Is every cell of a rectangle in the grid and free?
fn all_free(g: &Floor, x0: usize, z0: usize, x1: usize, z1: usize) -> (b: bool)
    requires
        g.wf(),
        x1 <= 1000,
        z1 <= 1000,
    ensures
        b == (forall|c: (int, int)| #[trigger]
            within(c, x0 as int, z0 as int, x1 as int, z1 as int) ==> g@.has(c) && g@.tiles[c]
                == Tile::Void),
{
    let mut z: usize = z0;
    while z < z1
        invariant
            g.wf(),
            x1 <= 1000,
            z1 <= 1000,
            z0 <= z,
            forall|c: (int, int)| #[trigger]
                within(c, x0 as int, z0 as int, x1 as int, z as int) ==> g@.has(c) && g@.tiles[c]
                    == Tile::Void,
        decreases z1 - z,
    {
        let mut x: usize = x0;
        while x < x1
            invariant
                g.wf(),
                x1 <= 1000,
                z < z1 <= 1000,
                z0 <= z,
                x0 <= x,
                forall|c: (int, int)| #[trigger]
                    within(c, x0 as int, z0 as int, x1 as int, z as int) ==> g@.has(c)
                        && g@.tiles[c] == Tile::Void,
                forall|c: (int, int)| #[trigger]
                    within(c, x0 as int, z as int, x as int, z + 1) ==> g@.has(c) && g@.tiles[c]
                        == Tile::Void,
            decreases x1 - x,
        {
            let ghost c = (x as int, z as int);
            if x >= g.width as usize || z >= g.depth as usize {
                assert(within(c, x0 as int, z0 as int, x1 as int, z1 as int));
                return false;
            }
            if g.at(x, z) != Tile::Void {
                assert(within(c, x0 as int, z0 as int, x1 as int, z1 as int));
                return false;
            }
            let ghost seen = x as int;
            x = x + 1;
            assert forall|e: (int, int)| #[trigger]
                within(e, x0 as int, z as int, x as int, z + 1) implies g@.has(e) && g@.tiles[e]
                == Tile::Void by {
                if e.0 < seen {
                    assert(within(e, x0 as int, z as int, seen, z + 1));
                }
            }
        }
        let ghost row = z as int;
        z = z + 1;
        assert forall|e: (int, int)| #[trigger]
            within(e, x0 as int, z0 as int, x1 as int, z as int) implies g@.has(e) && g@.tiles[e]
            == Tile::Void by {
            if e.1 < row {
                assert(within(e, x0 as int, z0 as int, x1 as int, row));
            } else {
                assert(within(e, x0 as int, row, x as int, row + 1));
            }
        }
    }
    assert forall|e: (int, int)| #[trigger]
        within(e, x0 as int, z0 as int, x1 as int, z1 as int) implies g@.has(e) && g@.tiles[e]
        == Tile::Void by {
        assert(within(e, x0 as int, z0 as int, x1 as int, z as int));
    }
    true
}

/// Does any cell of a rectangle, as far as it lies in the grid, hold the tile?
pub(crate) fn any_tile(
    g: &Floor,
    x0: usize,
    z0: usize,
    x1: usize,
    z1: usize,
    t: Tile,
) -> (b: bool)
    requires
        g.wf(),
    ensures
        !b == (forall|c: (int, int)| #[trigger]
            within(c, x0 as int, z0 as int, x1 as int, z1 as int) && g@.has(c) ==> g@.tiles[c]
                != t),
{
    let right: usize = if x1 < g.width as usize {
        x1
    } else {
        g.width as usize
    };
    let bottom: usize = if z1 < g.depth as usize {
        z1
    } else {
        g.depth as usize
    };
    let mut z: usize = z0;
    while z < bottom
        invariant
            g.wf(),
            right == capped(x1 as int, g.width as int),
            bottom == capped(z1 as int, g.depth as int),
            z0 <= z,
            forall|c: (int, int)| #[trigger]
                within(c, x0 as int, z0 as int, x1 as int, z as int) && g@.has(c) ==> g@.tiles[c]
                    != t,
        decreases bottom - z,
    {
        let mut x: usize = x0;
        while x < right
            invariant
                g.wf(),
                right == capped(x1 as int, g.width as int),
                bottom == capped(z1 as int, g.depth as int),
                z < bottom,
                z0 <= z,
                x0 <= x,
                forall|c: (int, int)| #[trigger]
                    within(c, x0 as int, z0 as int, x1 as int, z as int) && g@.has(c)
                        ==> g@.tiles[c] != t,
                forall|c: (int, int)| #[trigger]
                    within(c, x0 as int, z as int, x as int, z + 1) && g@.has(c) ==> g@.tiles[c]
                        != t,
            decreases right - x,
        {
            let ghost c = (x as int, z as int);
            if g.at(x, z) == t {
                assert(within(c, x0 as int, z0 as int, x1 as int, z1 as int) && g@.has(c));
                return true;
            }
            let ghost seen = x as int;
            x = x + 1;
            assert forall|e: (int, int)| #[trigger]
                within(e, x0 as int, z as int, x as int, z + 1) && g@.has(e) implies g@.tiles[e]
                != t by {
                if e.0 < seen {
                    assert(within(e, x0 as int, z as int, seen, z + 1));
                }
            }
        }
        let ghost row = z as int;
        z = z + 1;
        assert forall|e: (int, int)| #[trigger]
            within(e, x0 as int, z0 as int, x1 as int, z as int) && g@.has(e) implies g@.tiles[e]
            != t by {
            if e.1 < row {
                assert(within(e, x0 as int, z0 as int, x1 as int, row));
            } else {
                assert(within(e, x0 as int, row, x as int, row + 1));
            }
        }
    }
    assert forall|e: (int, int)| #[trigger]
        within(e, x0 as int, z0 as int, x1 as int, z1 as int) && g@.has(e) implies g@.tiles[e]
        != t by {
        assert(within(e, x0 as int, z0 as int, x1 as int, z as int));
    }
    false
}

/// Does a `w` by `d` room fit at `(x0, z0)`?
pub fn room_fits(g: &Floor, x0: i64, z0: i64, w: u8, d: u8, region: PlaceRegion) -> (b: bool)
    requires
        g.wf(),
        x0 + w <= i64::MAX,
        z0 + d <= i64::MAX,
    ensures
        b == fits(g@, x0 as int, z0 as int, w as int, d as int, region),
{
    if !region.contains(x0, z0, w, d) {
        return false;
    }
    let (x, z): (usize, usize) = (x0 as usize, z0 as usize);
    let (x1, z1): (usize, usize) = (x + w as usize, z + d as usize);
    if !all_free(g, x, z, x1, z1) {
        return false;
    }
    let left: usize = if x == 0 {
        0
    } else {
        x - 1
    };
    let top: usize = if z == 0 {
        0
    } else {
        z - 1
    };
    let taken: bool = any_tile(g, left, top, x1 + 1, z1 + 1, Tile::Room);
    proof {
        assert(forall|c: (int, int)|
            g@.has(c) ==> (#[trigger] within(c, x - 1, z - 1, x1 + 1, z1 + 1) <==> within(
                c,
                left as int,
                top as int,
                x1 + 1,
                z1 + 1,
            )));
        assert(!taken ==> forall|c: (int, int)| #[trigger]
            within(c, x - 1, z - 1, x1 + 1, z1 + 1) && g@.has(c) ==> g@.tiles[c] != Tile::Room);
        if taken {
            let c = choose|c: (int, int)|
                #![trigger within(c, left as int, top as int, x1 + 1, z1 + 1)]
                within(c, left as int, top as int, x1 + 1, z1 + 1) && g@.has(c) && g@.tiles[c]
                    == Tile::Room;
            assert(within(c, x - 1, z - 1, x1 + 1, z1 + 1));
        }
    }
    !taken
}

/// The place of a room, as corner and size.
pub type Rect = (u8, u8, u8, u8);

/// The sizes of a room that fit with the corner at a cell.
pub open spec fn fits_at(p: Plan, ax: int, az: int, region: PlaceRegion) -> spec_fn(
    (int, int),
) -> bool {
    |s: (int, int)| fits(p, ax, az, s.0, s.1, region)
}

/// The room placed with its corner at a cell: of the sizes that fit, the one
/// nearest to a drawn size.
pub open spec fn placed_at(
    p: Plan,
    ax: u8,
    az: u8,
    room: BlueprintRoom,
    region: PlaceRegion,
    base: u64,
    k: int,
) -> Option<Rect> {
    if room.max_w == 0 || room.max_d == 0 {
        None
    } else {
        let aim = (
            drawn_length(room.min_w, room.max_w, base, k * 2),
            drawn_length(room.min_d, room.max_d, base, k * 2 + 1),
        );
        match best_size(room, aim, fits_at(p, ax as int, az as int, region)) {
            Some(s) => Some((ax, az, s.0 as u8, s.1 as u8)),
            None => None,
        }
    }
}

/// A size of the template that comes before `(w, d)` when widths are walked
/// in the outer loop and depths in the inner one.
spec fn walked_before(room: BlueprintRoom, t: (int, int), w: int, d: int) -> bool {
    allowed(room, t) && (t.0 < w || (t.0 == w && t.1 < d))
}

/// The best of the sizes seen so far.
spec fn best_so_far(
    room: BlueprintRoom,
    aim: (int, int),
    can: spec_fn((int, int)) -> bool,
    best: Option<(u8, u8)>,
    w: int,
    d: int,
) -> bool {
    match best {
        None => forall|t: (int, int)| walked_before(room, t, w, d) ==> !#[trigger] can(t),
        Some((bw, bd)) => {
            let s = (bw as int, bd as int);
            &&& allowed(room, s) && can(s)
            &&& forall|t: (int, int)|
                walked_before(room, t, w, d) && #[trigger] can(t) ==> t == s || preferred(
                    s,
                    t,
                    aim,
                )
        },
    }
}

proof fn lemma_best_done(
    room: BlueprintRoom,
    aim: (int, int),
    can: spec_fn((int, int)) -> bool,
    best: Option<(u8, u8)>,
)
    requires
        best_so_far(room, aim, can, best, room.max_w + 1, room.min_d as int),
    ensures
        best_size(room, aim, can) == (match best {
            Some((w, d)) => Some((w as int, d as int)),
            None => None,
        }),
{
    match best {
        Some((w, d)) => {
            let s = (w as int, d as int);
            assert forall|t: (int, int)| allowed(room, t) && #[trigger] can(t) implies t == s
                || preferred(s, t, aim) by {
                assert(walked_before(room, t, room.max_w + 1, room.min_d as int));
            }
            lemma_best(room, aim, can, s);
        },
        None => {
            assert forall|s: (int, int)| !is_best(room, aim, can, s) by {
                if is_best(room, aim, can, s) {
                    assert(walked_before(room, s, room.max_w + 1, room.min_d as int));
                }
            }
        },
    }
}

/// The place of a room with its corner at `(ax, az)`: a size is drawn, and the
/// nearest size that fits is taken.
pub(crate) fn find_place(
    g: &Floor,
    ax: u8,
    az: u8,
    room: &BlueprintRoom,
    region: PlaceRegion,
    base: u64,
    k: usize,
) -> (r: Option<Rect>)
    requires
        g.wf(),
        orderly(*room),
        k * 2 + 1 <= usize::MAX,
    ensures
        r == placed_at(g@, ax, az, *room, region, base, k as int),
{
    if room.max_w == 0 || room.max_d == 0 {
        return None;
    }
    let tw: u8 = draw_length(room.min_w, room.max_w, base, k * 2);
    let td: u8 = draw_length(room.min_d, room.max_d, base, k * 2 + 1);
    let ghost aim = (tw as int, td as int);
    let ghost can = fits_at(g@, ax as int, az as int, region);
    let mut best: Option<(u8, u8)> = None;
    let mut w: u16 = room.min_w as u16;
    while w <= room.max_w as u16
        invariant
            g.wf(),
            orderly(*room),
            room.max_w > 0,
            room.max_d > 0,
            room.min_w <= w <= room.max_w + 1,
            aim == (tw as int, td as int),
            can == fits_at(g@, ax as int, az as int, region),
            best_so_far(*room, aim, can, best, w as int, room.min_d as int),
        decreases room.max_w + 1 - w,
    {
        let mut d: u16 = room.min_d as u16;
        while d <= room.max_d as u16
            invariant
                g.wf(),
                room.min_w <= w <= room.max_w,
                room.min_d <= d <= room.max_d + 1,
                aim == (tw as int, td as int),
                can == fits_at(g@, ax as int, az as int, region),
                best_so_far(*room, aim, can, best, w as int, d as int),
            decreases room.max_d + 1 - d,
        {
            let better: bool = match best {
                None => true,
                Some((bw, bd)) => prefers(w as u8, d as u8, bw, bd, tw, td),
            };
            let ghost s = (w as int, d as int);
            if better && room_fits(g, ax as i64, az as i64, w as u8, d as u8, region) {
                best = Some((w as u8, d as u8));
                assert(can(s));
            } else {
                assert(best is None ==> !can(s));
            }
            d = d + 1;
            assert(best_so_far(*room, aim, can, best, w as int, d as int));
        }
        w = w + 1;
        assert(best_so_far(*room, aim, can, best, w as int, room.min_d as int));
    }
    proof {
        lemma_best_done(*room, aim, can, best);
    }
    match best {
        Some((w, d)) => Some((ax, az, w, d)),
        None => None,
    }
}

/// The plan with a room of the given kind painted on it.
pub open spec fn painted(p: Plan, r: Rect, kind: u8) -> Plan {
    stamped(p, r.0 as int, r.1 as int, r.0 + r.2, r.1 + r.3, Tile::Room, kind)
}

/// Paints a room, as far as it lies in the grid.
fn paint(g: &mut Floor, r: Rect, kind: u8)
    requires
        old(g).wf(),
    ensures
        final(g).wf(),
        final(g)@ == painted(old(g)@, r, kind),
{
    let (x0, z0, w, d): (u8, u8, u8, u8) = r;
    let ghost goal = painted(g@, r, kind);
    if x0 < g.width && z0 < g.depth {
        let w: u8 = if w <= g.width - x0 {
            w
        } else {
            g.width - x0
        };
        let d: u8 = if d <= g.depth - z0 {
            d
        } else {
            g.depth - z0
        };
        paint_room(g, x0, z0, w, d, kind);
    }
    assert(g@.tiles =~= goal.tiles);
    assert(g@.kinds =~= goal.kinds);
}

/// Tries to place a room with its corner at `(ax, az)`: a size is drawn, and
/// the nearest size that fits is taken. On success the room is painted, and
/// the result is its place.
pub fn try_place_room(
    g: &mut Floor,
    ax: u8,
    az: u8,
    room: &BlueprintRoom,
    region: PlaceRegion,
    base: u64,
    k: usize,
) -> (r: Option<Rect>)
    requires
        old(g).wf(),
        orderly(*room),
        k * 2 + 1 <= usize::MAX,
    ensures
        final(g).wf(),
        r == placed_at(old(g)@, ax, az, *room, region, base, k as int),
        match r {
            Some(rect) => final(g)@ == painted(old(g)@, rect, room.kind),
            None => final(g)@ == old(g)@,
        },
{
    let r: Option<Rect> = find_place(g, ax, az, room, region, base, k);
    if let Some(rect) = r {
        paint(g, rect, room.kind);
    }
    r
}

/// The least footprint of a template.
pub open spec fn least_area(room: BlueprintRoom) -> int {
    room.min_w * room.min_d
}

/// Is template `i` in the pool: any template, or only those without plumbing?
pub open spec fn in_pool(rooms: Seq<BlueprintRoom>, dry: bool, i: int) -> bool {
    !dry || !rooms[i].is_wet()
}

/// Template `i` of the pool has no larger a footprint than any other of it.
pub open spec fn is_least(rooms: Seq<BlueprintRoom>, dry: bool) -> spec_fn(int) -> bool {
    |i: int|
        in_pool(rooms, dry, i) && forall|j: int|
            0 <= j < rooms.len() && #[trigger] in_pool(rooms, dry, j) ==> least_area(rooms[i])
                <= least_area(rooms[j])
}

/// The first template of the pool with the least footprint.
pub open spec fn least_template(rooms: Seq<BlueprintRoom>, dry: bool) -> Option<BlueprintRoom> {
    match first(rooms.len() as int, is_least(rooms, dry)) {
        Some(i) => Some(rooms[i]),
        None => None,
    }
}

/// The first template of the pool with the least footprint.
fn least_of<'a>(rooms: &'a [BlueprintRoom], dry: bool) -> (r: Option<&'a BlueprintRoom>)
    ensures
        r is Some == (least_template(rooms@, dry) is Some),
        r matches Some(t) ==> least_template(rooms@, dry) == Some(*t),
        r matches Some(t) ==> rooms@.contains(*t),
{
    let mut best: Option<usize> = None;
    let n: usize = rooms.len();
    for i in 0..n
        invariant
            n == rooms@.len(),
            best is None ==> forall|j: int| 0 <= j < i ==> !#[trigger] in_pool(rooms@, dry, j),
            best matches Some(b) ==> {
                &&& b < i
                &&& in_pool(rooms@, dry, b as int)
                &&& forall|j: int|
                    0 <= j < i && #[trigger] in_pool(rooms@, dry, j) ==> least_area(
                        rooms@[b as int],
                    ) <= least_area(rooms@[j])
                &&& forall|j: int|
                    0 <= j < b && #[trigger] in_pool(rooms@, dry, j) ==> least_area(
                        rooms@[b as int],
                    ) < least_area(rooms@[j])
            },
    {
        if !dry || rooms[i].tags & TAG_WET == 0 {
            assert(in_pool(rooms@, dry, i as int));
            let better: bool = match best {
                None => true,
                Some(b) => footprint(&rooms[i]) < footprint(&rooms[b]),
            };
            if better {
                best = Some(i);
            }
        }
    }
    let ghost hit = is_least(rooms@, dry);
    match best {
        None => {
            proof {
                assert forall|i: int| 0 <= i < n implies !#[trigger] hit(i) by {
                    assert(!in_pool(rooms@, dry, i));
                }
                lemma_no_first(n as int, hit);
            }
            None
        },
        Some(b) => {
            proof {
                assert forall|i: int| 0 <= i < b implies !#[trigger] hit(i) by {
                    if in_pool(rooms@, dry, i) {
                        assert(in_pool(rooms@, dry, b as int));
                    }
                }
                assert(hit(b as int));
                lemma_first(n as int, hit, b as int);
                assert(rooms@.contains(rooms@[b as int]));
            }
            Some(&rooms[b])
        },
    }
}

/// The least footprint of a template.
fn footprint(room: &BlueprintRoom) -> (a: u32)
    ensures
        a == least_area(*room),
{
    assert(room.min_w * room.min_d <= 255 * 255) by (nonlinear_arith)
        requires
            room.min_w <= 255,
            room.min_d <= 255,
    ;
    room.min_w as u32 * room.min_d as u32
}

/// The template with the least footprint, the first of them on ties.
pub fn smallest_template<'a>(rooms: &'a [BlueprintRoom]) -> (r: Option<&'a BlueprintRoom>)
    ensures
        r is Some == (least_template(rooms@, false) is Some),
        r matches Some(t) ==> least_template(rooms@, false) == Some(*t) && rooms@.contains(*t),
{
    least_of(rooms, false)
}

/// The template forced into a unit without rooms: the least one without
/// plumbing, or the least of all where every template has it.
pub open spec fn forced_choice(rooms: Seq<BlueprintRoom>) -> Option<BlueprintRoom> {
    match least_template(rooms, true) {
        Some(t) => Some(t),
        None => least_template(rooms, false),
    }
}

/// The template forced into a unit without rooms.
pub fn forced_template<'a>(rooms: &'a [BlueprintRoom]) -> (r: Option<&'a BlueprintRoom>)
    ensures
        r is Some == (forced_choice(rooms@) is Some),
        r matches Some(t) ==> forced_choice(rooms@) == Some(*t) && rooms@.contains(*t),
{
    match least_of(rooms, true) {
        Some(t) => Some(t),
        None => least_of(rooms, false),
    }
}

/// A cell of a region, counted row by row.
pub open spec fn region_cell(region: PlaceRegion, i: int) -> (int, int) {
    (region.x0 + i % (region.w as int), region.z0 + i / (region.w as int))
}

/// The cells of a region, row by row.
pub open spec fn region_cells(region: PlaceRegion) -> Seq<(int, int)> {
    Seq::new((region.w * region.d) as nat, |i: int| region_cell(region, i))
}

/// Is the cell a free cell of the plan?
pub open spec fn is_free(p: Plan) -> spec_fn((int, int)) -> bool {
    |c: (int, int)| p.has(c) && p.tiles[c] == Tile::Void
}

/// The free cells of a region, row by row.
pub open spec fn free_cells(p: Plan, region: PlaceRegion) -> Seq<(int, int)> {
    region_cells(region).filter(is_free(p))
}

/// A sequence with two places exchanged.
pub open spec fn exchanged<A>(s: Seq<A>, i: int, j: int) -> Seq<A> {
    s.update(i, s[j]).update(j, s[i])
}

/// Places `i` down to 1, each exchanged with a drawn place at or below it.
pub open spec fn shuffled<A>(s: Seq<A>, i: int, base: u64, offset: int) -> Seq<A>
    decreases i,
{
    if i < 1 {
        s
    } else {
        shuffled(exchanged(s, i, stream_index(base, i + offset, i + 1)), i - 1, base, offset)
    }
}

/// The free cells of a region in a drawn order.
pub open spec fn anchors_of(p: Plan, region: PlaceRegion, base: u64, unit_idx: int) -> Seq<
    (int, int),
> {
    let cells = free_cells(p, region);
    shuffled(cells, cells.len() - 1, base, unit_idx * 4096)
}

/// Cells as coordinates within a grid.
pub open spec fn as_cells(v: Seq<(u8, u8)>) -> Seq<(int, int)> {
    v.map_values(|c: (u8, u8)| (c.0 as int, c.1 as int))
}

/// The free cells of a region in a drawn order, one order per unit.
pub fn shuffled_anchors(
    g: &Floor,
    region: PlaceRegion,
    base: u64,
    unit_idx: usize,
) -> (anchors: Vec<(u8, u8)>)
    requires
        g.wf(),
        unit_idx * 4096 + region.w * region.d <= usize::MAX,
    ensures
        as_cells(anchors@) == anchors_of(g@, region, base, unit_idx as int),
        forall|i: int|
            0 <= i < anchors@.len() ==> g@.has(
                ((#[trigger] anchors@[i]).0 as int, anchors@[i].1 as int),
            ),
{
    let mut anchors: Vec<(u8, u8)> = Vec::new();
    let ghost cells = region_cells(region);
    let ghost pred = is_free(g@);
    let rw: usize = region.w as usize;
    assert(region.w * region.d <= 255 * 255 && region.w * region.d >= 0) by (nonlinear_arith)
        requires
            0 <= region.w <= 255,
            0 <= region.d <= 255,
    ;
    let n: usize = rw * region.d as usize;
    assert(cells.take(0) =~= seq![]);
    assert(cells.take(0).filter(pred) =~= seq![]) by {
        reveal(Seq::filter);
    }
    assert(as_cells(anchors@) =~= cells.take(0).filter(pred));
    for i in 0..n
        invariant
            g.wf(),
            cells == region_cells(region),
            pred == is_free(g@),
            rw == region.w,
            n == region.w * region.d,
            as_cells(anchors@) == cells.take(i as int).filter(pred),
            anchors@.len() <= i <= n,
            n <= 255 * 255,
            forall|j: int|
                0 <= j < anchors@.len() ==> g@.has(
                    ((#[trigger] anchors@[j]).0 as int, anchors@[j].1 as int),
                ),
    {
        proof {
            lemma_cell_of_place(i as int, rw as int, region.d as int);
            lemma_filter_step(cells, i as int, pred);
        }
        let x: usize = region.x0 as usize + i % rw;
        let z: usize = region.z0 as usize + i / rw;
        assert(cells[i as int] == (x as int, z as int));
        if x < g.width as usize && z < g.depth as usize {
            if g.at(x, z) == Tile::Void {
                let ghost before = anchors@;
                anchors.push((x as u8, z as u8));
                assert(as_cells(anchors@) =~= as_cells(before).push((x as int, z as int)));
            }
        }
    }
    assert(cells.take(n as int) =~= cells);
    let off: usize = unit_idx * 4096;
    let len: usize = anchors.len();
    let ghost free = free_cells(g@, region);
    let mut i: usize = len;
    while i > 1
        invariant
            g.wf(),
            free == free_cells(g@, region),
            len == anchors@.len(),
            len == free.len(),
            off == unit_idx * 4096,
            off + region.w * region.d <= usize::MAX,
            len <= region.w * region.d,
            i <= len,
            anchors_of(g@, region, base, unit_idx as int) == shuffled(
                as_cells(anchors@),
                i - 1,
                base,
                off as int,
            ),
            forall|j: int|
                0 <= j < anchors@.len() ==> g@.has(
                    ((#[trigger] anchors@[j]).0 as int, anchors@[j].1 as int),
                ),
        decreases i,
    {
        i = i - 1;
        let j: usize = pick(base, i + off, i + 1);
        let ghost before = anchors@;
        let a: (u8, u8) = anchors[i];
        let b: (u8, u8) = anchors[j];
        anchors.set(i, b);
        anchors.set(j, a);
        assert(as_cells(anchors@) =~= exchanged(as_cells(before), i as int, j as int));
    }
    anchors
}

/// The leftmost and rightmost corner of a room `w` wide that covers a column
/// and stays in the region.
pub open spec fn shaft_span(region: PlaceRegion, column: u8, w: int) -> (int, int) {
    (
        at_least(column - w + 1, region.x0 as int),
        capped(column as int, region.x0 + region.w - w),
    )
}

/// The row tried at turn `t`: the anchor's row first, then the rows after it,
/// round the region.
pub open spec fn turn_row(region: PlaceRegion, az: int, t: int) -> int {
    let d = region.d as int;
    region.z0 + (capped(at_least(az - region.z0, 0), d - 1) + t) % d
}

/// A size, and the region it has to go in.
pub struct WetSearch {
    pub p: Plan,
    pub region: PlaceRegion,
    pub az: int,
    pub w: int,
    pub d: int,
}

impl WetSearch {
    /// Does the room fit `j` cells along the span of a shaft, at turn `t`?
    pub open spec fn fits_along(self, column: u8, t: int) -> spec_fn(int) -> bool {
        |j: int|
            fits(
                self.p,
                shaft_span(self.region, column, self.w).0 + j,
                turn_row(self.region, self.az, t),
                self.w,
                self.d,
                self.region,
            )
    }

    /// The first fit along the span of a shaft at turn `t`.
    pub open spec fn along(self, column: u8, t: int) -> Option<int> {
        let (lo, hi) = shaft_span(self.region, column, self.w);
        first(hi - lo + 1, self.fits_along(column, t))
    }

    /// Does some place along the span fit at turn `t`?
    pub open spec fn fits_turn(self, column: u8) -> spec_fn(int) -> bool {
        |t: int| self.along(column, t) is Some
    }

    /// The first turn at which the room fits on a shaft.
    pub open spec fn turn(self, column: u8) -> Option<int> {
        first(self.region.d as int, self.fits_turn(column))
    }

    /// Does the room fit on shaft `i`?
    pub open spec fn fits_shaft(self, shafts: Seq<u8>) -> spec_fn(int) -> bool {
        |i: int| self.turn(shafts[i]) is Some
    }

    /// The first shaft that the room fits on, and its corner there.
    pub open spec fn corner(self, shafts: Seq<u8>) -> Option<(int, int)> {
        match first(shafts.len() as int, self.fits_shaft(shafts)) {
            None => None,
            Some(i) => {
                let t = self.turn(shafts[i])->0;
                Some(
                    (
                        shaft_span(self.region, shafts[i], self.w).0 + self.along(
                            shafts[i],
                            t,
                        )->0,
                        turn_row(self.region, self.az, t),
                    ),
                )
            },
        }
    }
}

/// The search for one size.
pub open spec fn wet_search(p: Plan, region: PlaceRegion, az: int, s: (int, int)) -> WetSearch {
    WetSearch { p, region, az, w: s.0, d: s.1 }
}

/// The sizes of a room that fit on some shaft.
pub open spec fn fits_shafts(p: Plan, region: PlaceRegion, az: int, shafts: Seq<u8>) -> spec_fn(
    (int, int),
) -> bool {
    |s: (int, int)| wet_search(p, region, az, s).corner(shafts) is Some
}

/// The room placed over a shaft: of the sizes that fit on one, the one nearest
/// to a drawn size; on the first shaft that takes it; at the first row from
/// the anchor's on; as far left as it goes.
pub open spec fn placed_wet(
    p: Plan,
    az: u8,
    room: BlueprintRoom,
    shafts: Seq<u8>,
    region: PlaceRegion,
    base: u64,
    k: int,
) -> Option<Rect> {
    if room.max_w == 0 || room.max_d == 0 {
        None
    } else {
        let aim = (
            drawn_length(room.min_w, room.max_w, base, k * 2),
            drawn_length(room.min_d, room.max_d, base, k * 2 + 1),
        );
        match best_size(room, aim, fits_shafts(p, region, az as int, shafts)) {
            Some(s) => {
                let c = wet_search(p, region, az as int, s).corner(shafts)->0;
                Some((c.0 as u8, c.1 as u8, s.0 as u8, s.1 as u8))
            },
            None => None,
        }
    }
}

/// The first fit along the span of one shaft at one turn.
fn find_along(g: &Floor, region: PlaceRegion, column: u8, z0: i64, w: u8, d: u8) -> (r: Option<i64>)
    requires
        g.wf(),
        0 <= z0 <= 1000,
    ensures
        ({
            let (lo, hi) = shaft_span(region, column, w as int);
            let hit = |j: int| fits(g@, lo + j, z0 as int, w as int, d as int, region);
            match first(hi - lo + 1, hit) {
                Some(j) => r == Some((lo + j) as i64) && 0 <= lo + j <= 1000,
                None => r is None,
            }
        }),
{
    let lo: i64 = if (column as i64 - w as i64 + 1) < region.x0 as i64 {
        region.x0 as i64
    } else {
        column as i64 - w as i64 + 1
    };
    let hi: i64 = if column as i64 > region.x0 as i64 + region.w as i64 - w as i64 {
        region.x0 as i64 + region.w as i64 - w as i64
    } else {
        column as i64
    };
    let ghost hit = |j: int| fits(g@, lo + j, z0 as int, w as int, d as int, region);
    let mut x: i64 = lo;
    while x <= hi
        invariant
            g.wf(),
            0 <= z0 <= 1000,
            0 <= lo <= x,
            lo <= 600,
            hi <= 255,
            x <= hi + 1 || x == lo,
            (lo as int, hi as int) == shaft_span(region, column, w as int),
            hit == (|j: int| fits(g@, lo + j, z0 as int, w as int, d as int, region)),
            forall|j: int| 0 <= j < x - lo ==> !#[trigger] hit(j),
        decreases hi + 1 - x,
    {
        if room_fits(g, x, z0, w, d, region) {
            proof {
                assert(hit(x - lo));
                assert(is_first(hi - lo + 1, hit, x - lo));
                lemma_first(hi - lo + 1, hit, x - lo);
            }
            return Some(x);
        }
        assert(!hit(x - lo));
        x = x + 1;
    }
    proof {
        lemma_no_first(hi - lo + 1, hit);
    }
    None
}

/// The first fit of one size over the shafts.
fn find_on_shafts(
    g: &Floor,
    region: PlaceRegion,
    az: u8,
    shafts: &Vec<u8>,
    w: u8,
    d: u8,
) -> (r: Option<(u8, u8)>)
    requires
        g.wf(),
    ensures
        match wet_search(g@, region, az as int, (w as int, d as int)).corner(shafts@) {
            Some(c) => r == Some((c.0 as u8, c.1 as u8)),
            None => r is None,
        },
{
    let ghost search = wet_search(g@, region, az as int, (w as int, d as int));
    let rd: i64 = region.d as i64;
    let ghost on = search.fits_shaft(shafts@);
    for i in 0..shafts.len()
        invariant
            g.wf(),
            search == wet_search(g@, region, az as int, (w as int, d as int)),
            on == search.fits_shaft(shafts@),
            rd == region.d,
            forall|j: int| 0 <= j < i ==> !#[trigger] on(j),
    {
        let column: u8 = shafts[i];
        let ghost at = search.fits_turn(column);
        let mut t: i64 = 0;
        while t < rd
            invariant
                g.wf(),
                search == wet_search(g@, region, az as int, (w as int, d as int)),
                on == search.fits_shaft(shafts@),
                i < shafts@.len(),
                column == shafts@[i as int],
                at == search.fits_turn(column),
                rd == region.d,
                0 <= t <= rd,
                forall|j: int| 0 <= j < i ==> !#[trigger] on(j),
                forall|j: int| 0 <= j < t ==> !#[trigger] at(j),
            decreases rd - t,
        {
            let from: i64 = if az < region.z0 {
                0
            } else if az as i64 - region.z0 as i64 > rd - 1 {
                rd - 1
            } else {
                az as i64 - region.z0 as i64
            };
            let z0: i64 = region.z0 as i64 + (from + t) % rd;
            assert(z0 == turn_row(region, az as int, t as int));
            assert(search.fits_along(column, t as int) =~= (|j: int|
                fits(
                    g@,
                    shaft_span(region, column, w as int).0 + j,
                    z0 as int,
                    w as int,
                    d as int,
                    region,
                )));
            if let Some(x) = find_along(g, region, column, z0, w, d) {
                proof {
                    assert(at(t as int));
                    assert(is_first(rd as int, at, t as int));
                    lemma_first(rd as int, at, t as int);
                    assert(on(i as int));
                    assert(is_first(shafts@.len() as int, on, i as int));
                    lemma_first(shafts@.len() as int, on, i as int);
                }
                return Some((x as u8, z0 as u8));
            }
            assert(!at(t as int));
            t = t + 1;
        }
        proof {
            lemma_no_first(rd as int, at);
            assert(!on(i as int));
        }
    }
    proof {
        lemma_no_first(shafts@.len() as int, on);
    }
    None
}

/// Tries to place a room over a plumbing shaft.
pub fn try_place_wet(
    g: &Floor,
    az: u8,
    room: &BlueprintRoom,
    shafts: &Vec<u8>,
    region: PlaceRegion,
    base: u64,
    k: usize,
) -> (r: Option<Rect>)
    requires
        g.wf(),
        orderly(*room),
        k * 2 + 1 <= usize::MAX,
    ensures
        r == placed_wet(g@, az, *room, shafts@, region, base, k as int),
{
    if room.max_w == 0 || room.max_d == 0 {
        return None;
    }
    let tw: u8 = draw_length(room.min_w, room.max_w, base, k * 2);
    let td: u8 = draw_length(room.min_d, room.max_d, base, k * 2 + 1);
    let ghost aim = (tw as int, td as int);
    let ghost can = fits_shafts(g@, region, az as int, shafts@);
    let mut best: Option<(u8, u8)> = None;
    let mut corner: (u8, u8) = (0, 0);
    let mut w: u16 = room.min_w as u16;
    while w <= room.max_w as u16
        invariant
            g.wf(),
            orderly(*room),
            room.max_w > 0,
            room.max_d > 0,
            room.min_w <= w <= room.max_w + 1,
            aim == (tw as int, td as int),
            can == fits_shafts(g@, region, az as int, shafts@),
            best_so_far(*room, aim, can, best, w as int, room.min_d as int),
            best matches Some((bw, bd)) ==> corner_of(g@, region, az, shafts@, bw, bd) == corner,
        decreases room.max_w + 1 - w,
    {
        let mut d: u16 = room.min_d as u16;
        while d <= room.max_d as u16
            invariant
                g.wf(),
                room.min_w <= w <= room.max_w,
                room.min_d <= d <= room.max_d + 1,
                aim == (tw as int, td as int),
                can == fits_shafts(g@, region, az as int, shafts@),
                best_so_far(*room, aim, can, best, w as int, d as int),
                best matches Some((bw, bd)) ==> corner_of(g@, region, az, shafts@, bw, bd)
                    == corner,
            decreases room.max_d + 1 - d,
        {
            let better: bool = match best {
                None => true,
                Some((bw, bd)) => prefers(w as u8, d as u8, bw, bd, tw, td),
            };
            let ghost s = (w as int, d as int);
            if better {
                let found: Option<(u8, u8)> = find_on_shafts(
                    g,
                    region,
                    az,
                    shafts,
                    w as u8,
                    d as u8,
                );
                match found {
                    Some(c) => {
                        best = Some((w as u8, d as u8));
                        corner = c;
                        assert(can(s));
                    },
                    None => {
                        assert(!can(s));
                    },
                }
            }
            d = d + 1;
            assert(best_so_far(*room, aim, can, best, w as int, d as int));
        }
        w = w + 1;
        assert(best_so_far(*room, aim, can, best, w as int, room.min_d as int));
    }
    proof {
        lemma_best_done(*room, aim, can, best);
    }
    match best {
        Some((w, d)) => Some((corner.0, corner.1, w, d)),
        None => None,
    }
}

/// The corner found for one size over the shafts.
spec fn corner_of(p: Plan, region: PlaceRegion, az: u8, shafts: Seq<u8>, w: u8, d: u8) -> (u8, u8) {
    let c = wet_search(p, region, az as int, (w as int, d as int)).corner(shafts)->0;
    (c.0 as u8, c.1 as u8)
}

/// One try to place a room. A room with plumbing goes over a shaft if it can;
/// where it cannot, it is placed like any other only if `offshaft` allows. A
/// room that does not fit gives way to the fallback template.
pub open spec fn attempted(
    p: Plan,
    ax: u8,
    az: u8,
    room: BlueprintRoom,
    fallback: Option<BlueprintRoom>,
    shafts: Seq<u8>,
    region: PlaceRegion,
    base: u64,
    k: int,
    offshaft: bool,
) -> Option<Rect> {
    let wet = room.is_wet() && shafts.len() > 0;
    let over = placed_wet(p, az, room, shafts, region, base, k);
    if wet && over is Some {
        over
    } else if wet && !offshaft {
        None
    } else {
        match placed_at(p, ax, az, room, region, base, k) {
            Some(r) => Some(r),
            None => match fallback {
                Some(s) => placed_at(p, ax, az, s, region, base, k),
                None => None,
            },
        }
    }
}

/// The place that one try at an anchor finds for a room.
pub(crate) fn find_attempt(
    g: &Floor,
    ax: u8,
    az: u8,
    room: &BlueprintRoom,
    fallback: Option<&BlueprintRoom>,
    shafts: &Vec<u8>,
    region: PlaceRegion,
    base: u64,
    k: usize,
    allow_offshaft: bool,
) -> (r: Option<Rect>)
    requires
        g.wf(),
        orderly(*room),
        fallback matches Some(s) ==> orderly(*s),
        k * 2 + 1 <= usize::MAX,
    ensures
        r == attempted(
            g@,
            ax,
            az,
            *room,
            match fallback {
                Some(s) => Some(*s),
                None => None,
            },
            shafts@,
            region,
            base,
            k as int,
            allow_offshaft,
        ),
{
    if room.tags & TAG_WET != 0 && shafts.len() > 0 {
        let over: Option<Rect> = try_place_wet(g, az, room, shafts, region, base, k);
        if over.is_some() {
            return over;
        }
        if !allow_offshaft {
            return None;
        }
    }
    let own: Option<Rect> = find_place(g, ax, az, room, region, base, k);
    if own.is_some() {
        return own;
    }
    match fallback {
        None => None,
        Some(s) => find_place(g, ax, az, s, region, base, k),
    }
}

/// One try to place a room at an anchor. On success the room is painted, of
/// its own kind even where another template's size is taken.
pub fn attempt_place(
    g: &mut Floor,
    ax: u8,
    az: u8,
    room: &BlueprintRoom,
    fallback: Option<&BlueprintRoom>,
    shafts: &Vec<u8>,
    region: PlaceRegion,
    base: u64,
    k: usize,
    allow_offshaft: bool,
) -> (r: Option<Rect>)
    requires
        old(g).wf(),
        orderly(*room),
        fallback matches Some(s) ==> orderly(*s),
        k * 2 + 1 <= usize::MAX,
    ensures
        final(g).wf(),
        r == attempted(
            old(g)@,
            ax,
            az,
            *room,
            match fallback {
                Some(s) => Some(*s),
                None => None,
            },
            shafts@,
            region,
            base,
            k as int,
            allow_offshaft,
        ),
        match r {
            Some(rect) => final(g)@ == painted(old(g)@, rect, room.kind),
            None => final(g)@ == old(g)@,
        },
{
    let r: Option<Rect> = find_attempt(
        g,
        ax,
        az,
        room,
        fallback,
        shafts,
        region,
        base,
        k,
        allow_offshaft,
    );
    if let Some(rect) = r {
        paint(g, rect, room.kind);
    }
    r
}

/// Does the template take part in the draw? Its weight must be above zero.
pub open spec fn can_win(room: BlueprintRoom) -> bool {
    (F32 { bits: 0 }).below(room.weight)
}

/// A weight as it counts in the draw: zero for a template that takes no part.
pub open spec fn counted(room: BlueprintRoom) -> F32 {
    if can_win(room) {
        room.weight
    } else {
        F32 { bits: 0 }
    }
}

/// A weight as it counts in the draw.
fn count(room: &BlueprintRoom) -> (w: F32)
    ensures
        w == counted(*room),
{
    let zero: F32 = F32::from_bits(0);
    if zero.lt(room.weight) {
        room.weight
    } else {
        zero
    }
}

/// The weights of the first `n` templates added up in order.
pub open spec fn weight_total(rooms: Seq<BlueprintRoom>, n: int) -> F32
    decreases n,
{
    if n <= 0 {
        F32 { bits: 0 }
    } else {
        weight_total(rooms, n - 1).sum(counted(rooms[n - 1]))
    }
}

/// The last of the first `n` templates that takes part in the draw; the first
/// where none does.
pub open spec fn last_winner(rooms: Seq<BlueprintRoom>, n: int) -> int
    decreases n,
{
    if n <= 0 {
        0
    } else if can_win(rooms[n - 1]) {
        n - 1
    } else {
        last_winner(rooms, n - 1)
    }
}

/// The template at which the weights, taken off one after another from `i`
/// on, use up `left`; the last one that takes part if they never do.
/// Templates that take no part are passed over.
pub open spec fn used_up(rooms: Seq<BlueprintRoom>, i: int, left: F32) -> int
    decreases rooms.len() - i,
{
    if i < 0 || i >= rooms.len() {
        last_winner(rooms, rooms.len() as int)
    } else if !can_win(rooms[i]) {
        used_up(rooms, i + 1, left)
    } else {
        let rest = left.difference(rooms[i].weight);
        if rest.at_most(F32 { bits: 0 }) {
            i
        } else {
            used_up(rooms, i + 1, rest)
        }
    }
}

/// The greatest share a roll counts for, just short of one.
pub const ROLL_TOP: u32 = 0x3f7f_fffe;

/// A roll held to its range.
pub open spec fn held(roll: F32) -> F32 {
    if roll.below(F32 { bits: 0 }) {
        F32 { bits: 0 }
    } else if (F32 { bits: ROLL_TOP }).below(roll) {
        F32 { bits: ROLL_TOP }
    } else {
        roll
    }
}

/// The template a roll falls on: the first where none takes part in the draw,
/// else the one whose share of the total weight it lies in.
pub open spec fn rolled(rooms: Seq<BlueprintRoom>, roll: F32) -> int {
    let total = weight_total(rooms, rooms.len() as int);
    if total.at_most(F32 { bits: 0 }) {
        0
    } else {
        used_up(rooms, 0, held(roll).product(total))
    }
}

proof fn lemma_last_winner(rooms: Seq<BlueprintRoom>, n: int)
    requires
        0 <= n <= rooms.len(),
        rooms.len() > 0,
    ensures
        0 <= last_winner(rooms, n) < rooms.len(),
        forall|k: int|
            0 <= k < n && can_win(#[trigger] rooms[k]) ==> can_win(rooms[last_winner(rooms, n)]),
    decreases n,
{
    if n > 0 {
        lemma_last_winner(rooms, n - 1);
    }
}

proof fn lemma_used_up(rooms: Seq<BlueprintRoom>, i: int, left: F32)
    requires
        rooms.len() > 0,
        0 <= i,
    ensures
        0 <= used_up(rooms, i, left) < rooms.len(),
        forall|k: int|
            0 <= k < rooms.len() && can_win(#[trigger] rooms[k]) ==> can_win(
                rooms[used_up(rooms, i, left)],
            ),
    decreases rooms.len() - i,
{
    if i >= rooms.len() {
        lemma_last_winner(rooms, rooms.len() as int);
    } else if !can_win(rooms[i]) {
        lemma_used_up(rooms, i + 1, left);
    } else {
        lemma_used_up(rooms, i + 1, left.difference(rooms[i].weight));
    }
}

/// The total weight is not negative, and is above zero where some template
/// takes part.
proof fn lemma_weight_total(rooms: Seq<BlueprintRoom>, n: int)
    requires
        0 <= n <= rooms.len(),
    ensures
        weight_total(rooms, n).bits <= 0x7f80_0000,
        forall|k: int|
            0 <= k < n && can_win(#[trigger] rooms[k]) ==> weight_total(rooms, n).bits > 0,
    decreases n,
{
    if n > 0 {
        lemma_weight_total(rooms, n - 1);
        let (t, w) = (weight_total(rooms, n - 1), counted(rooms[n - 1]));
        reveal(F32::below);
        reveal(F32::sum);
        lemma_single();
        lemma_sum_grows(single(), t.bits as u64, w.bits as u64);
    }
}

/// A roll falls on one of the templates; on one that takes part in the draw,
/// wherever there is one.
pub proof fn lemma_rolled(rooms: Seq<BlueprintRoom>, roll: F32)
    requires
        rooms.len() > 0,
    ensures
        0 <= rolled(rooms, roll) < rooms.len(),
        forall|k: int|
            0 <= k < rooms.len() && can_win(#[trigger] rooms[k]) ==> can_win(
                rooms[rolled(rooms, roll)],
            ),
{
    lemma_used_up(rooms, 0, held(roll).product(weight_total(rooms, rooms.len() as int)));
    lemma_weight_total(rooms, rooms.len() as int);
    reveal(F32::at_most);
    lemma_single();
}

/// The template that a roll falls on, in proportion to the weights. A template
/// without a weight above zero never wins, unless all are such: then the first
/// does.
pub fn roll_room<'a>(rooms: &'a [BlueprintRoom], roll: F32) -> (r: &'a BlueprintRoom)
    requires
        rooms@.len() > 0,
    ensures
        *r == rooms@[rolled(rooms@, roll)],
        rooms@.contains(*r),
        forall|k: int| 0 <= k < rooms@.len() && can_win(#[trigger] rooms@[k]) ==> can_win(*r),
        (forall|k: int| 0 <= k < rooms@.len() ==> !can_win(#[trigger] rooms@[k])) ==> *r
            == rooms@[0],
{
    let zero: F32 = F32::from_bits(0);
    let n: usize = rooms.len();
    let mut total: F32 = zero;
    let mut last: usize = 0;
    for i in 0..n
        invariant
            n == rooms@.len(),
            zero == (F32 { bits: 0 }),
            total == weight_total(rooms@, i as int),
            last == last_winner(rooms@, i as int),
            last < n,
    {
        total = total.plus(count(&rooms[i]));
        if zero.lt(rooms[i].weight) {
            last = i;
        }
    }
    proof {
        lemma_rolled(rooms@, roll);
        lemma_no_winner(rooms@, roll);
        assert(rooms@.contains(rooms@[rolled(rooms@, roll)]));
    }
    if total.le(zero) {
        return &rooms[0];
    }
    let top: F32 = F32::from_bits(ROLL_TOP);
    let share: F32 = if roll.lt(zero) {
        zero
    } else if top.lt(roll) {
        top
    } else {
        roll
    };
    let mut left: F32 = share.times(total);
    for i in 0..n
        invariant
            n == rooms@.len(),
            zero == (F32 { bits: 0 }),
            last == last_winner(rooms@, n as int),
            last < n,
            rolled(rooms@, roll) == used_up(rooms@, i as int, left),
            rooms@.contains(rooms@[rolled(rooms@, roll)]),
            forall|k: int|
                0 <= k < rooms@.len() && can_win(#[trigger] rooms@[k]) ==> can_win(
                    rooms@[rolled(rooms@, roll)],
                ),
            (forall|k: int| 0 <= k < rooms@.len() ==> !can_win(#[trigger] rooms@[k]))
                ==> rolled(rooms@, roll) == 0,
    {
        if zero.lt(rooms[i].weight) {
            left = left.minus(rooms[i].weight);
            if left.le(zero) {
                return &rooms[i];
            }
        }
    }
    &rooms[last]
}

/// Where no template takes part, the first one is taken.
proof fn lemma_no_winner(rooms: Seq<BlueprintRoom>, roll: F32)
    ensures
        (forall|k: int| 0 <= k < rooms.len() ==> !can_win(#[trigger] rooms[k])) ==> rolled(
            rooms,
            roll,
        ) == 0,
{
    if forall|k: int| 0 <= k < rooms.len() ==> !can_win(#[trigger] rooms[k]) {
        lemma_none_used(rooms, 0, held(roll).product(weight_total(rooms, rooms.len() as int)));
        lemma_no_last(rooms, rooms.len() as int);
    }
}

proof fn lemma_none_used(rooms: Seq<BlueprintRoom>, i: int, left: F32)
    requires
        0 <= i,
        forall|k: int| 0 <= k < rooms.len() ==> !can_win(#[trigger] rooms[k]),
    ensures
        used_up(rooms, i, left) == last_winner(rooms, rooms.len() as int),
    decreases rooms.len() - i,
{
    if i < rooms.len() {
        lemma_none_used(rooms, i + 1, left);
    }
}

proof fn lemma_no_last(rooms: Seq<BlueprintRoom>, n: int)
    requires
        n <= rooms.len(),
        forall|k: int| 0 <= k < rooms.len() ==> !can_win(#[trigger] rooms[k]),
    ensures
        last_winner(rooms, n) == 0,
    decreases n,
{
    if n > 0 {
        lemma_no_last(rooms, n - 1);
    }
}

proof fn lemma_exchanged<A>(s: Seq<A>, i: int, j: int)
    requires
        0 <= i < s.len(),
        0 <= j < s.len(),
    ensures
        exchanged(s, i, j).to_multiset() == s.to_multiset(),
        exchanged(s, i, j).len() == s.len(),
{
    broadcast use vstd::multiset::group_multiset_axioms;
    broadcast use vstd::seq_lib::group_to_multiset_ensures;

    let t = s.update(i, s[j]);
    vstd::seq_lib::to_multiset_update(s, i, s[j]);
    vstd::seq_lib::to_multiset_update(t, j, s[i]);
    assert(exchanged(s, i, j).to_multiset() =~= s.to_multiset());
}

proof fn lemma_shuffled<A>(s: Seq<A>, i: int, base: u64, offset: int)
    requires
        i < s.len(),
    ensures
        shuffled(s, i, base, offset).to_multiset() == s.to_multiset(),
    decreases i,
{
    if i >= 1 {
        let j = stream_index(base, i + offset, i + 1);
        lemma_exchanged(s, i, j);
        lemma_shuffled(exchanged(s, i, j), i - 1, base, offset);
    }
}

/// The anchors of a unit are its free cells, each of them once.
pub proof fn law_anchors_are_the_free_cells(
    p: Plan,
    region: PlaceRegion,
    base: u64,
    unit_idx: int,
)
    ensures
        anchors_of(p, region, base, unit_idx).to_multiset() == free_cells(p, region).to_multiset(),
{
    let cells = free_cells(p, region);
    lemma_shuffled(cells, cells.len() - 1, base, unit_idx * 4096);
}

} // verus!
