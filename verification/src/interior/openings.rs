//! Which cells are tried first, and where doors open.
use crate::interior::draw::{first, lemma_first_hit, lemma_some_first, stream_index};
use crate::interior::filling::lemma_best_exists;
use crate::interior::grid::{
    boundary_cell, boundary_len, core_door_site, core_doored, door_candidate, entrance_cell,
    entrance_hall, faces_core, is_circulation, outward_cell, room_door_site, room_doored,
    unit_door_cell, unit_door_site, walked,
};
use crate::interior::laws::{beside, law_filled_wet_rooms_stack};
use crate::interior::placement::{
    allowed, anchors_of, attempted, best_size, drawn_length, exchanged, fits, fits_shafts,
    free_cells, is_best, placed_wet, shaft_span, shuffled, turn_row, wet_search, WetSearch,
};
use crate::interior::storey::{all_doors, doors_from, placed_room, rect_of, PlacedRoom};
use crate::interior::units::{at_least, capped, PlaceRegion};
use crate::layout::{BlueprintRoom, DoorSide, Plan, Tile};
use vstd::prelude::*;

verus! {

/// Shuffling below a place leaves what lies from it on.
proof fn lemma_shuffle_leaves<A>(s: Seq<A>, i: int, base: u64, offset: int, k: int)
    requires
        i < k < s.len(),
    ensures
        shuffled(s, i, base, offset).len() == s.len(),
        shuffled(s, i, base, offset)[k] == s[k],
    decreases i,
{
    if i >= 1 {
        let j = stream_index(base, i + offset, i + 1);
        lemma_index(base, i + offset, i + 1);
        lemma_shuffle_leaves(exchanged(s, i, j), i - 1, base, offset, k);
    }
}

/// A drawn index is one of those there are.
proof fn lemma_index(base: u64, k: int, n: int)
    requires
        n > 0,
    ensures
        0 <= stream_index(base, k, n) < n,
{
    vstd::arithmetic::div_mod::lemma_mod_bound(
        crate::hash::coord_hash(base as i64, #[verifier::truncate] (k as i64), 0, 0) as int,
        n,
    );
}

/// The anchors come in a drawn order: each place from the end on gets one of
/// the cells still left, by its own draw. Of `n` free cells the last place
/// gets that with the drawn number.
pub proof fn law_anchors_are_drawn(p: Plan, region: PlaceRegion, base: u64, unit_idx: int)
    ensures
        ({
            let free = free_cells(p, region);
            let anchors = anchors_of(p, region, base, unit_idx);
            let n = free.len() as int;
            &&& n >= 1 ==> anchors.len() == n
            &&& n >= 2 ==> anchors[n - 1] == free[stream_index(
                base,
                n - 1 + unit_idx * 4096,
                n,
            )]
            &&& n >= 3 ==> ({
                let j = stream_index(base, n - 1 + unit_idx * 4096, n);
                let rest = free.update(j, free[n - 1]);
                anchors[n - 2] == rest[stream_index(base, n - 2 + unit_idx * 4096, n - 1)]
            })
        }),
{
    let free = free_cells(p, region);
    let n = free.len() as int;
    let offset = unit_idx * 4096;
    if n >= 2 {
        let j = stream_index(base, n - 1 + offset, n);
        lemma_index(base, n - 1 + offset, n);
        let s = exchanged(free, n - 1, j);
        lemma_shuffle_leaves(s, n - 2, base, offset, n - 1);
        if n >= 3 {
            let k = stream_index(base, n - 2 + offset, n - 1);
            lemma_index(base, n - 2 + offset, n - 1);
            let t = exchanged(s, n - 2, k);
            lemma_shuffle_leaves(t, n - 3, base, offset, n - 2);
        }
    }
}

/// The door of a unit opens where it is drawn, if it can: where the drawn cell
/// of the edge is free and circulation lies beyond it, the door is there.
pub proof fn law_unit_doors_are_drawn(p: Plan, u: PlaceRegion, base: u64)
    requires
        u.w > 0,
        u.d > 0,
        ({
            let i = stream_index(base, 0, boundary_len(u.w as int, u.d as int));
            unit_edge_opens(p, u, i)
        }),
    ensures
        unit_door_cell(p, u, base) == Some(
            boundary_cell(
                u.x0 as int,
                u.z0 as int,
                u.w as int,
                u.d as int,
                stream_index(base, 0, boundary_len(u.w as int, u.d as int)),
            ),
        ),
{
    let n = boundary_len(u.w as int, u.d as int);
    lemma_index(base, 0, n);
    let start = stream_index(base, 0, n);
    let hit = unit_door_site(p, u, base);
    assert(walked(start, 0, n) == start) by {
        vstd::arithmetic::div_mod::lemma_small_mod(start as nat, n as nat);
    }
    assert(hit(0));
    lemma_some_first(n, hit, 0);
    lemma_first_hit(n, hit);
}

/// Is cell `i` of the edge of the unit free, with circulation beyond it?
pub open spec fn unit_edge_opens(p: Plan, u: PlaceRegion, i: int) -> bool {
    let c = boundary_cell(u.x0 as int, u.z0 as int, u.w as int, u.d as int, i);
    let o = outward_cell(u, i);
    p.inside(c) && p.tiles[c] == Tile::Void && p.has(o) && p.tiles[o] != Tile::Wall && p.tiles[o]
        != Tile::Room
}

/// A room gets a door wherever it has circulation beside it: where some cell
/// beside its edge is, one such cell becomes a door, and nothing else changes.
pub proof fn law_room_doors_open(
    p: Plan,
    rect: (u8, u8, u8, u8),
    base: u64,
    door_idx: int,
    i: int,
)
    requires
        0 <= i < 4 * boundary_len(rect.2 as int, rect.3 as int),
        ({
            let c = door_candidate(rect, base, door_idx, i);
            p.has(c) && is_circulation(p.tiles[c])
        }),
    ensures
        exists|c: (int, int)|
            {
                &&& p.has(c) && is_circulation(p.tiles[c])
                &&& #[trigger] p.with(c, Tile::Door, 0) == room_doored(p, rect, base, door_idx)
            },
{
    let n = 4 * boundary_len(rect.2 as int, rect.3 as int);
    let hit = room_door_site(p, rect, base, door_idx);
    assert(hit(i));
    lemma_some_first(n, hit, i);
    lemma_first_hit(n, hit);
    let k = first(n, hit)->0;
    assert(hit(k));
    let c = door_candidate(rect, base, door_idx, k);
    assert(p.with(c, Tile::Door, 0) == room_doored(p, rect, base, door_idx));
}

/// Opening doors leaves circulation where it is, and doors open.
pub open spec fn same_ways(p: Plan, q: Plan) -> bool {
    &&& q.w == p.w && q.d == p.d
    &&& forall|c: (int, int)|
        p.has(c) ==> is_circulation(#[trigger] q.tiles[c]) == is_circulation(p.tiles[c])
    &&& forall|c: (int, int)|
        p.has(c) && p.tiles[c] == Tile::Door ==> #[trigger] q.tiles[c] == Tile::Door
}

proof fn lemma_same_ways_trans(p: Plan, q: Plan, r: Plan)
    requires
        same_ways(p, q),
        same_ways(q, r),
    ensures
        same_ways(p, r),
{
    assert forall|c: (int, int)| p.has(c) implies is_circulation(#[trigger] r.tiles[c])
        == is_circulation(p.tiles[c]) by {
        assert(is_circulation(q.tiles[c]) == is_circulation(p.tiles[c]));
    }
    assert forall|c: (int, int)|
        p.has(c) && p.tiles[c] == Tile::Door implies #[trigger] r.tiles[c] == Tile::Door by {
        assert(q.tiles[c] == Tile::Door);
    }
}

proof fn lemma_one_door(p: Plan, rect: (u8, u8, u8, u8), base: u64, door_idx: int)
    ensures
        same_ways(p, room_doored(p, rect, base, door_idx)),
{
    let n = 4 * boundary_len(rect.2 as int, rect.3 as int);
    let hit = room_door_site(p, rect, base, door_idx);
    lemma_first_hit(n, hit);
    if let Some(i) = first(n, hit) {
        assert(hit(i));
    }
}

proof fn lemma_doors_of_room(p: Plan, r: PlacedRoom, base: u64, k: int)
    requires
        0 <= k,
    ensures
        same_ways(p, doors_from(p, r, base, k)),
    decreases r.doors - k,
{
    if k < r.doors {
        let q = room_doored(p, rect_of(r), base, k);
        lemma_one_door(p, rect_of(r), base, k);
        lemma_doors_of_room(q, r, base, k + 1);
        lemma_same_ways_trans(p, q, doors_from(q, r, base, k + 1));
    }
}

proof fn lemma_doors_of_rooms(p: Plan, placed: Seq<PlacedRoom>, base: u64, i: int)
    requires
        0 <= i,
    ensures
        same_ways(p, all_doors(p, placed, base, i)),
    decreases placed.len() - i,
{
    if i < placed.len() {
        let q = doors_from(p, placed[i], base, 0);
        lemma_doors_of_room(p, placed[i], base, 0);
        lemma_doors_of_rooms(q, placed, base, i + 1);
        lemma_same_ways_trans(p, q, all_doors(q, placed, base, i + 1));
    }
}

/// The walk from draw `k` round a room comes first to a door: the first cell
/// of circulation that it passes is one.
pub open spec fn comes_to_a_door(
    p: Plan,
    rect: (u8, u8, u8, u8),
    base: u64,
    k: int,
    i: int,
) -> bool {
    &&& 0 <= i < 4 * boundary_len(rect.2 as int, rect.3 as int)
    &&& p.has(door_candidate(rect, base, k, i))
    &&& p.tiles[door_candidate(rect, base, k, i)] == Tile::Door
    &&& forall|j: int|
        0 <= j < i && p.has(#[trigger] door_candidate(rect, base, k, j)) ==> !is_circulation(
            p.tiles[door_candidate(rect, base, k, j)],
        )
}

/// What a walk comes to first stays a door.
proof fn lemma_still_comes(
    p: Plan,
    q: Plan,
    rect: (u8, u8, u8, u8),
    base: u64,
    k: int,
    i: int,
)
    requires
        same_ways(p, q),
        comes_to_a_door(p, rect, base, k, i),
    ensures
        comes_to_a_door(q, rect, base, k, i),
{
    assert(q.tiles[door_candidate(rect, base, k, i)] == Tile::Door);
    assert forall|j: int|
        0 <= j < i && q.has(#[trigger] door_candidate(rect, base, k, j)) implies !is_circulation(
        q.tiles[door_candidate(rect, base, k, j)],
    ) by {
        let c = door_candidate(rect, base, k, j);
        assert(is_circulation(q.tiles[c]) == is_circulation(p.tiles[c]));
    }
}

proof fn lemma_door_of_room(p: Plan, r: PlacedRoom, base: u64, from: int, k: int, x: int) -> (i:
    int)
    requires
        0 <= from <= k < r.doors,
        0 <= x < 4 * boundary_len(r.w as int, r.d as int),
        ({
            let c = door_candidate(rect_of(r), base, k, x);
            p.has(c) && is_circulation(p.tiles[c])
        }),
    ensures
        comes_to_a_door(doors_from(p, r, base, from), rect_of(r), base, k, i),
    decreases k - from,
{
    let rect = rect_of(r);
    let q = room_doored(p, rect, base, from);
    lemma_one_door(p, rect, base, from);
    lemma_doors_of_room(q, r, base, from + 1);
    let c = door_candidate(rect, base, k, x);
    assert(is_circulation(q.tiles[c]));
    if from < k {
        lemma_door_of_room(q, r, base, from + 1, k, x)
    } else {
        let n = 4 * boundary_len(r.w as int, r.d as int);
        let hit = room_door_site(p, rect, base, k);
        assert(hit(x));
        lemma_some_first(n, hit, x);
        lemma_first_hit(n, hit);
        let i = first(n, hit)->0;
        assert(hit(i));
        assert forall|j: int|
            0 <= j < i && q.has(#[trigger] door_candidate(rect, base, k, j))
                implies !is_circulation(q.tiles[door_candidate(rect, base, k, j)]) by {
            assert(!hit(j));
            let e = door_candidate(rect, base, k, j);
            assert(is_circulation(q.tiles[e]) == is_circulation(p.tiles[e]));
        }
        lemma_still_comes(q, doors_from(q, r, base, k + 1), rect, base, k, i);
        i
    }
}

proof fn lemma_door_of_rooms(
    p: Plan,
    placed: Seq<PlacedRoom>,
    base: u64,
    from: int,
    m: int,
    k: int,
    x: int,
) -> (i: int)
    requires
        0 <= from <= m < placed.len(),
        0 <= k < placed[m].doors,
        0 <= x < 4 * boundary_len(placed[m].w as int, placed[m].d as int),
        ({
            let c = door_candidate(rect_of(placed[m]), base, k, x);
            p.has(c) && is_circulation(p.tiles[c])
        }),
    ensures
        comes_to_a_door(
            all_doors(p, placed, base, from),
            rect_of(placed[m]),
            base,
            k,
            i,
        ),
    decreases m - from,
{
    let q = doors_from(p, placed[from], base, 0);
    lemma_doors_of_room(p, placed[from], base, 0);
    lemma_doors_of_rooms(q, placed, base, from + 1);
    let c = door_candidate(rect_of(placed[m]), base, k, x);
    assert(is_circulation(q.tiles[c]));
    if from < m {
        lemma_door_of_rooms(q, placed, base, from + 1, m, k, x)
    } else {
        let i = lemma_door_of_room(p, placed[m], base, 0, k, x);
        lemma_still_comes(q, all_doors(q, placed, base, from + 1), rect_of(placed[m]), base, k, i);
        i
    }
}

/// A room gets all of its doors: for each of them, the walk round the room
/// from its own drawn start comes first to a door, wherever the room has any
/// circulation beside it. `x` is a step of the walk at which it has.
pub proof fn law_rooms_get_all_their_doors(
    p: Plan,
    placed: Seq<PlacedRoom>,
    base: u64,
    m: int,
    k: int,
    x: int,
) -> (i: int)
    requires
        0 <= m < placed.len(),
        0 <= k < placed[m].doors,
        0 <= x < 4 * boundary_len(placed[m].w as int, placed[m].d as int),
        ({
            let c = door_candidate(rect_of(placed[m]), base, k, x);
            p.has(c) && is_circulation(p.tiles[c])
        }),
    ensures
        comes_to_a_door(all_doors(p, placed, base, 0), rect_of(placed[m]), base, k, i),
{
    lemma_door_of_rooms(p, placed, base, 0, m, k, x)
}

/// A room is due as many doors as its template has, and one where that has
/// none; it is of the template's kind, where it was placed.
pub proof fn law_rooms_are_of_their_template(r: (u8, u8, u8, u8), room: BlueprintRoom)
    ensures
        ({
            let p = placed_room(r, room);
            &&& p.doors == if room.doors == 0 {
                1
            } else {
                room.doors
            }
            &&& p.kind == room.kind
            &&& (p.x0, p.z0, p.w, p.d) == r
        }),
{
}

/// Off the ground floor the core is reached through a door: where a free cell
/// faces the core, one such cell becomes a door; the first, row by row.
pub proof fn law_core_doors_open(p: Plan, cx: int, cz: int, size: int, c: (int, int)) -> (door: (
    int,
    int,
))
    requires
        p.inside(c),
        faces_core(c, cx, cz, size),
        p.tiles[c] == Tile::Void,
    ensures
        p.inside(door),
        p.tiles[door] == Tile::Void,
        core_doored(p, cx, cz, size) == p.with(door, Tile::Door, 0),
        door.1 < c.1 || door.1 == c.1 && door.0 <= c.0,
        // The door is right beside the core, and not in it.
        door.0 == cx - 1 || door.0 == cx + size || door.1 == cz - 1 || door.1 == cz + size,
        cx - 1 <= door.0 <= cx + size,
        cz - 1 <= door.1 <= cz + size,
{
    let n = p.w * p.d;
    let hit = core_door_site(p, cx, cz, size);
    let i = c.1 * p.w + c.0;
    assert(0 <= i < n) by (nonlinear_arith)
        requires
            i == c.1 * p.w + c.0,
            n == p.w * p.d,
            0 <= c.0 < p.w,
            0 <= c.1 < p.d,
    ;
    vstd::arithmetic::div_mod::lemma_fundamental_div_mod_converse(i, p.w, c.1, c.0);
    assert(hit(i));
    lemma_some_first(n, hit, i);
    lemma_first_hit(n, hit);
    let k = first(n, hit)->0;
    assert(hit(k));
    let door = (k % p.w, k / p.w);
    vstd::arithmetic::div_mod::lemma_fundamental_div_mod(k, p.w);
    vstd::arithmetic::div_mod::lemma_mod_bound(k, p.w);
    assert(k <= i) by {
        if i < k {
            assert(!hit(i));
        }
    }
    assert(door.1 < c.1 || door.1 == c.1 && door.0 <= c.0) by (nonlinear_arith)
        requires
            k == p.w * door.1 + door.0,
            i == c.1 * p.w + c.0,
            k <= i,
            0 <= door.0 < p.w,
            0 <= c.0 < p.w,
    ;
    door
}

/// The hall lies right behind the entrance, off the ring.
pub proof fn law_halls_lie_behind_entrances(w: int, d: int, side: DoorSide, base: u64)
    requires
        w >= 3,
        d >= 3,
    ensures
        ({
            let (c, e) = (entrance_cell(w, d, side, base), entrance_hall(w, d, side, base));
            &&& beside(c, e)
            &&& 1 <= e.0 <= w - 2 && 1 <= e.1 <= d - 2
        }),
{
    lemma_index(base, 0, w - 2);
    lemma_index(base, 0, d - 2);
}

/// A room with plumbing finds a shaft: where it fits over one in some size
/// that its template allows, it is placed over one, in such a size.
pub proof fn law_wet_rooms_find_a_shaft(
    p: Plan,
    az: u8,
    room: BlueprintRoom,
    shafts: Seq<u8>,
    region: PlaceRegion,
    base: u64,
    k: int,
    i: int,
    x: int,
    z: int,
    s: (int, int),
)
    requires
        region.bounded(),
        allowed(room, s),
        s.0 > 0,
        s.1 > 0,
        0 <= i < shafts.len(),
        x <= shafts[i] < x + s.0,
        fits(p, x, z, s.0, s.1, region),
    ensures
        placed_wet(p, az, room, shafts, region, base, k) matches Some(r) && allowed(
            room,
            (r.2 as int, r.3 as int),
        ),
{
    let can = fits_shafts(p, region, az as int, shafts);
    let search = wet_search(p, region, az as int, s);
    lemma_search_finds(search, shafts, i, x, z);
    assert(can(s));
    let aim = (
        drawn_length(room.min_w, room.max_w, base, k * 2),
        drawn_length(room.min_d, room.max_d, base, k * 2 + 1),
    );
    lemma_best_exists(room, aim, can, s);
    let t = best_size(room, aim, can)->0;
    assert(is_best(room, aim, can, t));
}

/// Every room with plumbing prefers a shaft, also one that may stand off them:
/// where it fits over one, it is placed over one.
pub proof fn law_wet_rooms_prefer_a_shaft(
    p: Plan,
    ax: u8,
    az: u8,
    room: BlueprintRoom,
    fallback: Option<BlueprintRoom>,
    shafts: Seq<u8>,
    region: PlaceRegion,
    base: u64,
    k: int,
    offshaft: bool,
    i: int,
    x: int,
    z: int,
    s: (int, int),
)
    requires
        region.bounded(),
        room.is_wet(),
        allowed(room, s),
        s.0 > 0,
        s.1 > 0,
        0 <= i < shafts.len(),
        x <= shafts[i] < x + s.0,
        fits(p, x, z, s.0, s.1, region),
    ensures
        attempted(p, ax, az, room, fallback, shafts, region, base, k, offshaft) matches Some(r)
            && exists|j: int|
            0 <= j < shafts.len() && r.0 <= #[trigger] shafts[j] < r.0 + r.2,
{
    law_wet_rooms_find_a_shaft(p, az, room, shafts, region, base, k, i, x, z, s);
    law_filled_wet_rooms_stack(p, ax, az, room, fallback, shafts, region, base, k);
}

/// A search over the shafts finds a place where there is one.
proof fn lemma_search_finds(q: WetSearch, shafts: Seq<u8>, i: int, x: int, z: int)
    requires
        q.w > 0,
        q.d > 0,
        0 <= i < shafts.len(),
        x <= shafts[i] < x + q.w,
        fits(q.p, x, z, q.w, q.d, q.region),
    ensures
        q.corner(shafts) is Some,
{
    let column = shafts[i];
    let (lo, hi) = shaft_span(q.region, column, q.w);
    assert(lo <= x <= hi);
    // The turn that comes by the row.
    let d = q.region.d as int;
    let a = capped(at_least(q.az - q.region.z0, 0), d - 1);
    let want = z - q.region.z0;
    let t = if want >= a {
        want - a
    } else {
        want - a + d
    };
    assert(turn_row(q.region, q.az, t) == z) by {
        if want >= a {
            vstd::arithmetic::div_mod::lemma_small_mod(want as nat, d as nat);
        } else {
            vstd::arithmetic::div_mod::lemma_fundamental_div_mod_converse(a + t, d, 1, want);
        }
    }
    let along = q.fits_along(column, t);
    assert(along(x - lo));
    lemma_some_first(hi - lo + 1, along, x - lo);
    lemma_first_hit(hi - lo + 1, along);
    assert(q.along(column, t) is Some);
    let turns = q.fits_turn(column);
    assert(turns(t));
    lemma_some_first(d, turns, t);
    lemma_first_hit(d, turns);
    assert(q.turn(column) is Some);
    let over = q.fits_shaft(shafts);
    assert(over(i));
    lemma_some_first(shafts.len() as int, over, i);
    lemma_first_hit(shafts.len() as int, over);
}

} // verus!
