//! What holds of every interior.
use crate::data::InteriorId;
use crate::hash::domain;
use crate::interior::draw::{
    first, lemma_first_hit, lemma_some_first, storey_hash, stream_index,
};
use crate::interior::furniture::{all_equipped, equipped, under_first, under_second};
use crate::interior::grid::{
    boundary_cell, boundary_len, core_door_site, core_doored, cored, door_candidate, entrance_cell,
    entrance_hall, haloed, neighbour, opened, ringed, room_door_site, room_doored, unit_door_cell,
    unit_door_site, unit_doored, walked, within,
};
use crate::interior::kinds::{drawn_from, has_template, lemma_drawn_from};
use crate::interior::placement::{
    anchors_of, attempted, fits, forced_choice, placed_at, region_cell,
};
use crate::interior::storey::{
    all_doors, banded, doors_from, furnished, least_counts, lemma_attempted, lemma_forced_site,
    lemma_needed_site, lemma_placed_at, lemma_placed_wet, lemma_rolled_site, rect_of, room_region,
    shell, storey, Brief, PlacedRoom, Works, FIRST_NEED_DRAW,
};
use crate::interior::units::{law_units_partition, units_of, PlaceRegion};
use crate::interior::{building_shafts, building_storey, core_at, role_core, storey_total};
use crate::layout::{
    fitting, role_of, uniform, Blueprint, BlueprintRoom, DoorSide, FloorRole, InteriorContext, Plan,
    Tile, FURN_NONE,
};
use vstd::prelude::*;

verus! {

/// What a tile can become as a storey is carved: a free cell anything but a
/// wall, circulation and core a door, and everything else only itself.
pub open spec fn evolves(t: Tile, u: Tile) -> bool {
    match t {
        Tile::Void => u != Tile::Wall && u != Tile::Core,
        Tile::Core => u == Tile::Core || u == Tile::Door,
        Tile::Corridor => u == Tile::Corridor || u == Tile::Door,
        _ => u == t,
    }
}

/// Only rooms carry a room kind.
pub open spec fn kinds_on_rooms(p: Plan) -> bool {
    forall|c: (int, int)| p.has(c) && p.tiles[c] != Tile::Room ==> #[trigger] p.kinds[c] == 0
}

/// What every step of carving keeps: the grid and its furniture stay as they
/// are, tiles only evolve, rooms keep their kinds, new rooms lie in the
/// region, and only rooms carry a kind.
pub open spec fn keeps(p: Plan, q: Plan, region: PlaceRegion) -> bool {
    &&& q.w == p.w
    &&& q.d == p.d
    &&& q.furn == p.furn
    &&& p.complete() ==> q.complete()
    &&& forall|c: (int, int)| p.has(c) ==> evolves(p.tiles[c], #[trigger] q.tiles[c])
    &&& forall|c: (int, int)|
        p.has(c) && p.tiles[c] == Tile::Room ==> #[trigger] q.kinds[c] == p.kinds[c]
    &&& forall|c: (int, int)|
        p.has(c) && #[trigger] q.tiles[c] == Tile::Room && p.tiles[c] != Tile::Room
            ==> region.covers(c)
    &&& kinds_on_rooms(p) ==> kinds_on_rooms(q)
}

pub proof fn lemma_keeps_trans(p: Plan, q: Plan, r: Plan, region: PlaceRegion)
    requires
        keeps(p, q, region),
        keeps(q, r, region),
    ensures
        keeps(p, r, region),
{
    assert forall|c: (int, int)| p.has(c) implies evolves(p.tiles[c], #[trigger] r.tiles[c]) by {
        assert(q.has(c));
        assert(evolves(p.tiles[c], q.tiles[c]));
    }
    assert forall|c: (int, int)| p.has(c) && p.tiles[c] == Tile::Room implies #[trigger] r.kinds[c]
        == p.kinds[c] by {
        assert(q.has(c));
        assert(evolves(p.tiles[c], q.tiles[c]));
        assert(q.kinds[c] == p.kinds[c]);
    }
    assert forall|c: (int, int)|
        p.has(c) && #[trigger] r.tiles[c] == Tile::Room && p.tiles[c] != Tile::Room implies region.covers(
        c,
    ) by {
        assert(q.has(c));
        if q.tiles[c] != Tile::Room {
        } else {
            assert(q.tiles[c] == Tile::Room);
        }
    }
}

/// Is the cell in the room?
pub open spec fn in_room(c: (int, int), r: PlacedRoom) -> bool {
    within(c, r.x0 as int, r.z0 as int, r.x0 + r.w, r.z0 + r.d)
}

/// Is the cell in the room or right beside it, corners counted?
pub open spec fn near_room(c: (int, int), r: PlacedRoom) -> bool {
    within(c, r.x0 - 1, r.z0 - 1, r.x0 + r.w + 1, r.z0 + r.d + 1)
}

/// The rooms placed are the rooms of the plan, with their kinds; each lies in
/// the region and is due a door; and no cell of one is in or beside a later
/// one.
pub open spec fn consistent(p: Plan, placed: Seq<PlacedRoom>, region: PlaceRegion) -> bool {
    &&& forall|i: int, c: (int, int)|
        0 <= i < placed.len() && #[trigger] in_room(c, placed[i]) ==> p.has(c)
            && p.tiles[c] == Tile::Room && p.kinds[c] == placed[i].kind && region.covers(c)
    &&& forall|i: int| 0 <= i < placed.len() ==> (#[trigger] placed[i]).doors > 0
    &&& forall|i: int, j: int, c: (int, int)|
        0 <= i < j < placed.len() && #[trigger] in_room(c, placed[i]) ==> !(
        #[trigger] near_room(c, placed[j]))
    &&& forall|c: (int, int)|
        p.has(c) && #[trigger] p.tiles[c] == Tile::Room ==> exists|i: int|
            0 <= i < placed.len() && in_room(c, #[trigger] placed[i])
}

/// A step that keeps the plan and makes no new room.
proof fn lemma_consistent_keeps(p: Plan, placed: Seq<PlacedRoom>, q: Plan, region: PlaceRegion)
    requires
        consistent(p, placed, region),
        keeps(p, q, region),
        forall|c: (int, int)|
            p.has(c) && #[trigger] q.tiles[c] == Tile::Room ==> p.tiles[c] == Tile::Room,
    ensures
        consistent(q, placed, region),
{
    assert forall|i: int, c: (int, int)|
        0 <= i < placed.len() && #[trigger] in_room(c, placed[i]) implies q.has(c) && q.tiles[c]
        == Tile::Room && q.kinds[c] == placed[i].kind && region.covers(c) by {
        assert(evolves(p.tiles[c], q.tiles[c]));
    }
    assert forall|c: (int, int)| q.has(c) && #[trigger] q.tiles[c] == Tile::Room implies exists|
        i: int,
    | 0 <= i < placed.len() && in_room(c, #[trigger] placed[i]) by {
        assert(p.tiles[c] == Tile::Room);
    }
}

/// A room that fits is put down.
pub proof fn lemma_keeps_room(
    s: Works,
    r: (u8, u8, u8, u8),
    room: BlueprintRoom,
    unit: PlaceRegion,
    region: PlaceRegion,
)
    requires
        fits(s.plan, r.0 as int, r.1 as int, r.2 as int, r.3 as int, unit),
        forall|c: (int, int)| #[trigger] unit.covers(c) ==> region.covers(c),
    ensures
        keeps(s.plan, s.with_room(r, room).plan, region),
        consistent(s.plan, s.placed, region) ==> ({
            let t = s.with_room(r, room);
            consistent(t.plan, t.placed, region)
        }),
{
    lemma_room_consistent(s, r, room, unit, region);
    let p = s.plan;
    let q = s.with_room(r, room).plan;
    let (x0, z0, x1, z1) = (r.0 as int, r.1 as int, r.0 + r.2, r.1 + r.3);
    assert forall|c: (int, int)| p.has(c) implies evolves(p.tiles[c], #[trigger] q.tiles[c]) by {
        if within(c, x0, z0, x1, z1) {
            assert(p.tiles[c] == Tile::Void);
        }
    }
    assert forall|c: (int, int)| p.has(c) && p.tiles[c] == Tile::Room implies #[trigger] q.kinds[c]
        == p.kinds[c] by {
        assert(!within(c, x0, z0, x1, z1));
    }
    assert forall|c: (int, int)|
        p.has(c) && #[trigger] q.tiles[c] == Tile::Room && p.tiles[c] != Tile::Room implies region.covers(
        c,
    ) by {
        assert(within(c, x0, z0, x1, z1));
        assert(unit.covers(c));
    }
    if kinds_on_rooms(p) {
        assert forall|c: (int, int)| q.has(c) && q.tiles[c] != Tile::Room implies #[trigger] q.kinds[c]
            == 0 by {
            assert(!within(c, x0, z0, x1, z1));
            assert(p.kinds[c] == 0);
        }
    }
}

proof fn lemma_room_consistent(
    s: Works,
    r: (u8, u8, u8, u8),
    room: BlueprintRoom,
    unit: PlaceRegion,
    region: PlaceRegion,
)
    requires
        fits(s.plan, r.0 as int, r.1 as int, r.2 as int, r.3 as int, unit),
        forall|c: (int, int)| #[trigger] unit.covers(c) ==> region.covers(c),
    ensures
        consistent(s.plan, s.placed, region) ==> ({
            let t = s.with_room(r, room);
            consistent(t.plan, t.placed, region)
        }),
{
    if consistent(s.plan, s.placed, region) {
        let t = s.with_room(r, room);
        let n = s.placed.len() as int;
        let new = t.placed[n];
        let (x0, z0, x1, z1) = (r.0 as int, r.1 as int, r.0 + r.2, r.1 + r.3);
        assert forall|i: int, c: (int, int)|
            0 <= i < t.placed.len() && #[trigger] in_room(c, t.placed[i]) implies t.plan.has(c)
            && t.plan.tiles[c] == Tile::Room && t.plan.kinds[c] == t.placed[i].kind
            && region.covers(c) by {
            if i < n {
                assert(in_room(c, s.placed[i]));
                assert(!within(c, x0, z0, x1, z1));
            } else {
                assert(within(c, x0, z0, x1, z1));
                assert(unit.covers(c));
            }
        }
        assert forall|i: int, j: int, c: (int, int)|
            0 <= i < j < t.placed.len() && #[trigger] in_room(c, t.placed[i]) implies !(
        #[trigger] near_room(c, t.placed[j])) by {
            assert(in_room(c, s.placed[i]));
            if j < n {
                assert(!near_room(c, s.placed[j]));
            } else {
                if near_room(c, new) {
                    assert(within(c, x0 - 1, z0 - 1, x1 + 1, z1 + 1));
                }
            }
        }
        assert forall|c: (int, int)|
            t.plan.has(c) && #[trigger] t.plan.tiles[c] == Tile::Room implies exists|i: int|
            0 <= i < t.placed.len() && in_room(c, #[trigger] t.placed[i]) by {
            if within(c, x0, z0, x1, z1) {
                assert(in_room(c, t.placed[n]));
            } else {
                assert(s.plan.tiles[c] == Tile::Room);
                let i = choose|i: int|
                    0 <= i < s.placed.len() && in_room(c, #[trigger] s.placed[i]);
                assert(in_room(c, t.placed[i]));
            }
        }
    }
}

/// Free cells become circulation.
proof fn lemma_keeps_opened(p: Plan, x0: int, z0: int, x1: int, z1: int, region: PlaceRegion)
    ensures
        keeps(p, opened(p, x0, z0, x1, z1), region),
{
    let q = opened(p, x0, z0, x1, z1);
    if kinds_on_rooms(p) {
        assert forall|c: (int, int)| q.has(c) && q.tiles[c] != Tile::Room implies #[trigger] q.kinds[c]
            == 0 by {
            assert(p.kinds[c] == 0);
        }
    }
}

/// A door on a cell that can become one.
proof fn lemma_keeps_door(p: Plan, c: (int, int), region: PlaceRegion)
    requires
        p.has(c),
        evolves(p.tiles[c], Tile::Door),
    ensures
        keeps(p, p.with(c, Tile::Door, 0), region),
{
    let q = p.with(c, Tile::Door, 0);
    if kinds_on_rooms(p) {
        assert forall|e: (int, int)| q.has(e) && q.tiles[e] != Tile::Room implies #[trigger] q.kinds[e]
            == 0 by {
            if e != c {
                assert(p.kinds[e] == 0);
            }
        }
    }
}

proof fn lemma_keeps_room_door(
    p: Plan,
    rect: (u8, u8, u8, u8),
    base: u64,
    k: int,
    region: PlaceRegion,
)
    ensures
        keeps(p, room_doored(p, rect, base, k), region),
{
    let n = 4 * crate::interior::grid::boundary_len(rect.2 as int, rect.3 as int);
    let hit = room_door_site(p, rect, base, k);
    lemma_first_hit(n, hit);
    if let Some(i) = first(n, hit) {
        assert(hit(i));
        lemma_keeps_door(p, door_candidate(rect, base, k, i), region);
    }
}

pub proof fn lemma_keeps_unit_door(p: Plan, u: PlaceRegion, base: u64, region: PlaceRegion)
    ensures
        keeps(p, unit_doored(p, u, base), region),
        forall|c: (int, int)|
            p.has(c) && #[trigger] unit_doored(p, u, base).tiles[c] == Tile::Room ==> p.tiles[c]
                == Tile::Room,
{
    let n = crate::interior::grid::boundary_len(u.w as int, u.d as int);
    let hit = unit_door_site(p, u, base);
    lemma_first_hit(n, hit);
    if let Some(c) = unit_door_cell(p, u, base) {
        let i = first(n, hit)->0;
        assert(hit(i));
        lemma_keeps_door(p, c, region);
    }
}

/// Everything in the unit is in the region.
pub open spec fn inside_region(unit: PlaceRegion, region: PlaceRegion) -> bool {
    unit.bounded() && forall|c: (int, int)| #[trigger] unit.covers(c) ==> region.covers(c)
}

pub proof fn lemma_keeps_needed(
    brief: Brief,
    s: Works,
    anchors: Seq<(int, int)>,
    room: BlueprintRoom,
    unit: PlaceRegion,
    need: int,
    region: PlaceRegion,
)
    requires
        inside_region(unit, region),
    ensures
        keeps(s.plan, brief.place_needed(s, anchors, room, unit, need).0.plan, region),
        consistent(s.plan, s.placed, region) ==> ({
            let t = brief.place_needed(s, anchors, room, unit, need).0;
            consistent(t.plan, t.placed, region)
        }),
    decreases need,
{
    if need > 0 {
        lemma_needed_site(brief, s, anchors, room, unit);
        if let Some(i) = brief.needed_site(s, anchors, room, unit) {
            let c = anchors[i];
            let rect = brief.at_anchor(s.plan, c, room, unit, s.draw, true)->0;
            lemma_attempted(
                s.plan,
                c.0 as u8,
                c.1 as u8,
                room,
                brief.fallback(),
                brief.shafts,
                unit,
                brief.base,
                s.draw,
                true,
            );
            lemma_keeps_room(s, rect, room, unit, region);
            let next = Works { draw: s.draw + 1, ..s.with_room(rect, room) };
            lemma_keeps_needed(brief, next, anchors, room, unit, need - 1, region);
            lemma_keeps_trans(
                s.plan,
                next.plan,
                brief.place_needed(next, anchors, room, unit, need - 1).0.plan,
                region,
            );
        }
    }
}

pub proof fn lemma_keeps_needs(
    brief: Brief,
    s: Works,
    anchors: Seq<(int, int)>,
    unit: PlaceRegion,
    needs: Seq<int>,
    r: int,
    region: PlaceRegion,
)
    requires
        inside_region(unit, region),
        0 <= r,
    ensures
        keeps(s.plan, brief.place_needs(s, anchors, unit, needs, r).0.plan, region),
        consistent(s.plan, s.placed, region) ==> ({
            let t = brief.place_needs(s, anchors, unit, needs, r).0;
            consistent(t.plan, t.placed, region)
        }),
    decreases brief.rooms.len() - r,
{
    if r < brief.rooms.len() {
        lemma_keeps_needed(brief, s, anchors, brief.rooms[r], unit, needs[r], region);
        let (next, left) = brief.place_needed(s, anchors, brief.rooms[r], unit, needs[r]);
        lemma_keeps_needs(brief, next, anchors, unit, needs.update(r, left), r + 1, region);
        lemma_keeps_trans(
            s.plan,
            next.plan,
            brief.place_needs(next, anchors, unit, needs.update(r, left), r + 1).0.plan,
            region,
        );
    }
}

pub proof fn lemma_keeps_minimums(
    brief: Brief,
    s: Works,
    units: Seq<PlaceRegion>,
    needs: Seq<int>,
    u: int,
    region: PlaceRegion,
)
    requires
        forall|i: int| 0 <= i < units.len() ==> inside_region(#[trigger] units[i], region),
        0 <= u,
    ensures
        keeps(s.plan, brief.minimums(s, units, needs, u).plan, region),
        consistent(s.plan, s.placed, region) ==> ({
            let t = brief.minimums(s, units, needs, u);
            consistent(t.plan, t.placed, region)
        }),
    decreases units.len() - u,
{
    if u < units.len() {
        let anchors = anchors_of(s.plan, units[u], brief.base, 0);
        lemma_keeps_needs(brief, s, anchors, units[u], needs, 0, region);
        let (next, left) = brief.place_needs(s, anchors, units[u], needs, 0);
        lemma_keeps_minimums(brief, next, units, left, u + 1, region);
        lemma_keeps_trans(
            s.plan,
            next.plan,
            brief.minimums(next, units, left, u + 1).plan,
            region,
        );
    }
}

pub proof fn lemma_keeps_roll(
    brief: Brief,
    s: Works,
    anchors: Seq<(int, int)>,
    unit: PlaceRegion,
    u: int,
    k: int,
    steered: bool,
    region: PlaceRegion,
)
    requires
        inside_region(unit, region),
        0 <= k,
    ensures
        keeps(s.plan, brief.roll_on(s, anchors, unit, u, k, steered).plan, region),
        consistent(s.plan, s.placed, region) ==> ({
            let t = brief.roll_on(s, anchors, unit, u, k, steered);
            consistent(t.plan, t.placed, region)
        }),
    decreases anchors.len() - k,
{
    if k < anchors.len() && k < 128 {
        let kk = u * 4096 + k;
        let room = brief.rooms[crate::interior::placement::rolled(
            brief.rooms,
            crate::interior::draw::stream_unit(brief.base, kk),
        )];
        let next = brief.roll_at(s, anchors, unit, u, k, steered);
        if brief.at_anchor(s.plan, anchors[k], room, unit, kk, false) is Some {
            lemma_rolled_site(brief, s.plan, anchors, room, unit, kk, k);
            let c = anchors[if steered {
                brief.rolled_site(s.plan, anchors, room, unit, kk, k)
            } else {
                k
            }];
            lemma_attempted(
                s.plan,
                c.0 as u8,
                c.1 as u8,
                room,
                brief.fallback(),
                brief.shafts,
                unit,
                brief.base,
                kk,
                false,
            );
            let r = brief.at_anchor(s.plan, c, room, unit, kk, false)->0;
            lemma_keeps_room(s, r, room, unit, region);
        }
        lemma_keeps_roll(brief, next, anchors, unit, u, k + 1, steered, region);
        lemma_keeps_trans(
            s.plan,
            next.plan,
            brief.roll_on(next, anchors, unit, u, k + 1, steered).plan,
            region,
        );
    }
}

/// Rolling the rooms of a unit keeps the rest.
pub proof fn lemma_keeps_roll_unit(
    brief: Brief,
    s: Works,
    unit: PlaceRegion,
    u: int,
    region: PlaceRegion,
)
    requires
        inside_region(unit, region),
    ensures
        keeps(s.plan, brief.roll_unit(s, unit, u).plan, region),
        consistent(s.plan, s.placed, region) ==> ({
            let t = brief.roll_unit(s, unit, u);
            consistent(t.plan, t.placed, region)
        }),
{
    let anchors = anchors_of(s.plan, unit, brief.base, u);
    let half = brief.roll_on(s, anchors, unit, u, 0, true);
    lemma_keeps_roll(brief, s, anchors, unit, u, 0, true, region);
    lemma_keeps_roll(brief, half, anchors, unit, u, 0, false, region);
    lemma_keeps_trans(s.plan, half.plan, brief.roll_unit(s, unit, u).plan, region);
}

pub proof fn lemma_keeps_guaranteed(brief: Brief, s: Works, unit: PlaceRegion, region: PlaceRegion)
    requires
        inside_region(unit, region),
    ensures
        keeps(s.plan, brief.guaranteed(s, unit).plan, region),
        consistent(s.plan, s.placed, region) ==> ({
            let t = brief.guaranteed(s, unit);
            consistent(t.plan, t.placed, region)
        }),
{
    if let Some(room) = forced_choice(brief.rooms) {
        lemma_forced_site(brief, s.plan, unit, room);
        if let Some(i) = brief.forced_site(s.plan, unit, room) {
            assert(brief.forces(s.plan, unit, room)(i));
            let c = region_cell(unit, i);
            lemma_placed_at(s.plan, c.0 as u8, c.1 as u8, room, unit, brief.base, 999_983);
            let r = placed_at(s.plan, c.0 as u8, c.1 as u8, room, unit, brief.base, 999_983)->0;
            lemma_keeps_room(s, r, room, unit, region);
        }
    }
}

pub proof fn lemma_keeps_units(
    brief: Brief,
    s: Works,
    units: Seq<PlaceRegion>,
    u: int,
    region: PlaceRegion,
)
    requires
        forall|i: int| 0 <= i < units.len() ==> inside_region(#[trigger] units[i], region),
        0 <= u,
    ensures
        keeps(s.plan, brief.fill_units(s, units, u).plan, region),
        consistent(s.plan, s.placed, region) ==> ({
            let t = brief.fill_units(s, units, u);
            consistent(t.plan, t.placed, region)
        }),
    decreases units.len() - u,
{
    if u < units.len() {
        let unit = units[u];
        let a = brief.roll_unit(s, unit, u);
        let b = brief.guaranteed(a, unit);
        let next = brief.fill_unit(s, unit, u);
        lemma_keeps_roll_unit(brief, s, unit, u, region);
        lemma_keeps_guaranteed(brief, a, unit, region);
        lemma_keeps_unit_door(b.plan, unit, brief.base.wrapping_add(u as u64), region);
        lemma_keeps_trans(s.plan, a.plan, b.plan, region);
        lemma_keeps_trans(s.plan, b.plan, next.plan, region);
        if consistent(s.plan, s.placed, region) {
            lemma_consistent_keeps(b.plan, b.placed, next.plan, region);
        }
        lemma_keeps_units(brief, next, units, u + 1, region);
        lemma_keeps_trans(
            s.plan,
            next.plan,
            brief.fill_units(next, units, u + 1).plan,
            region,
        );
    }
}

proof fn lemma_keeps_doors(p: Plan, r: PlacedRoom, base: u64, k: int, region: PlaceRegion)
    requires
        0 <= k,
    ensures
        keeps(p, doors_from(p, r, base, k), region),
    decreases r.doors - k,
{
    if k < r.doors {
        let q = room_doored(p, rect_of(r), base, k);
        lemma_keeps_room_door(p, rect_of(r), base, k, region);
        lemma_keeps_doors(q, r, base, k + 1, region);
        lemma_keeps_trans(p, q, doors_from(q, r, base, k + 1), region);
    }
}

proof fn lemma_keeps_all_doors(
    p: Plan,
    placed: Seq<PlacedRoom>,
    base: u64,
    i: int,
    region: PlaceRegion,
)
    requires
        0 <= i,
    ensures
        keeps(p, all_doors(p, placed, base, i), region),
    decreases placed.len() - i,
{
    if i < placed.len() {
        let q = doors_from(p, placed[i], base, 0);
        lemma_keeps_doors(p, placed[i], base, 0, region);
        lemma_keeps_all_doors(q, placed, base, i + 1, region);
        lemma_keeps_trans(p, q, all_doors(q, placed, base, i + 1), region);
    }
}

/// The units of a region lie in it.
pub proof fn lemma_units_inside(region: PlaceRegion, unit_max: u8, shafts: Seq<u8>, base: u64)
    requires
        region.bounded(),
    ensures
        ({
            let units = units_of(region, unit_max as int, shafts, base);
            forall|i: int| 0 <= i < units.len() ==> inside_region(#[trigger] units[i], region)
        }),
{
    law_units_partition(region, unit_max, shafts, base);
}

/// A storey before any room has none.
pub open spec fn roomless(p: Plan) -> bool {
    forall|c: (int, int)| p.has(c) ==> #[trigger] p.tiles[c] != Tile::Room
}

/// Placing the rooms of a storey keeps the rest.
pub proof fn lemma_keeps_furnished(
    p: Plan,
    region: PlaceRegion,
    rooms: Seq<BlueprintRoom>,
    unit_max: u8,
    shafts: Seq<u8>,
    room_base: u64,
    side: DoorSide,
)
    requires
        region.bounded(),
    ensures
        ({
            let s = furnished(p, region, rooms, unit_max as int, shafts, room_base, side);
            &&& keeps(p, s.plan, region)
            &&& roomless(p) ==> consistent(s.plan, s.placed, region)
        }),
{
    let start = Works { plan: p, placed: seq![], draw: FIRST_NEED_DRAW as int };
    if rooms.len() > 0 && region.w > 0 && region.d > 0 {
        let brief = Brief { rooms, shafts, base: room_base, side };
        let units = units_of(region, unit_max as int, shafts, room_base);
        lemma_units_inside(region, unit_max, shafts, room_base);
        let a = brief.minimums(start, units, least_counts(rooms), 0);
        let b = brief.fill_units(a, units, 0);
        lemma_keeps_minimums(brief, start, units, least_counts(rooms), 0, region);
        lemma_keeps_units(brief, a, units, 0, region);
        lemma_keeps_trans(p, a.plan, b.plan, region);
    }
}

/// A storey before any room: its ring is wall, but for the entrance of a ground
/// floor; inside there is no wall and no room; and nothing carries a kind.
pub open spec fn is_shell(
    p: Plan,
    w: int,
    d: int,
    role: FloorRole,
    side: DoorSide,
    door_base: u64,
) -> bool {
    &&& p.w == w && p.d == d
    &&& p.complete()
    &&& p.furn == uniform(w, d, Tile::Void).furn
    &&& forall|c: (int, int)| p.has(c) ==> #[trigger] p.kinds[c] == 0
    &&& forall|c: (int, int)|
        p.on_ring(c) ==> #[trigger] p.tiles[c] == if role == FloorRole::Ground && c
            == entrance_cell(w, d, side, door_base) {
            Tile::Door
        } else {
            Tile::Wall
        }
    &&& forall|c: (int, int)|
        p.inside(c) ==> #[trigger] p.tiles[c] != Tile::Wall && p.tiles[c] != Tile::Room
}

/// Where the core stands, a shell has core or a way through.
pub open spec fn core_stands(p: Plan, core: (u8, u8, u8)) -> bool {
    let c = (core.1 as int, core.2 as int);
    p.inside(c) && core.0 > 0 ==> p.tiles[c] == Tile::Core || p.tiles[c] == Tile::Corridor
}

pub proof fn lemma_shell(
    w: int,
    d: int,
    role: FloorRole,
    core: (u8, u8, u8),
    side: DoorSide,
    blueprint: Blueprint,
    door_base: u64,
)
    requires
        3 <= w <= 255,
        3 <= d <= 255,
    ensures
        is_shell(
            shell(w, d, role, core, side, blueprint, door_base),
            w,
            d,
            role,
            side,
            door_base,
        ),
        core_stands(shell(w, d, role, core, side, blueprint, door_base), core),
        role == FloorRole::Ground ==> shell(
            w,
            d,
            role,
            core,
            side,
            blueprint,
            door_base,
        ).tiles[entrance_hall(w, d, side, door_base)] == Tile::Corridor,
{
    let p0 = ringed(uniform(w, d, Tile::Void));
    let p1 = cored(p0, core.1 as int, core.2 as int, core.0 as int);
    assert(is_shell(p0, w, d, FloorRole::Typical, side, door_base));
    assert(is_shell(p1, w, d, FloorRole::Typical, side, door_base));
    assert(core_stands(p1, core));
    let p2 = if role == FloorRole::Ground {
        let door = entrance_cell(w, d, side, door_base);
        let hall = entrance_hall(w, d, side, door_base);
        assert(p1.on_ring(door));
        assert(p1.inside(hall));
        p1.with(door, Tile::Door, 0).with(hall, Tile::Corridor, 0)
    } else {
        let hit = core_door_site(p1, core.1 as int, core.2 as int, core.0 as int);
        lemma_first_hit(p1.w * p1.d, hit);
        if let Some(i) = first(p1.w * p1.d, hit) {
            assert(hit(i));
        }
        core_doored(p1, core.1 as int, core.2 as int, core.0 as int)
    };
    assert(is_shell(p2, w, d, role, side, door_base));
    assert(core_stands(p2, core));
    if banded(blueprint, d) {
        let p3 = opened(p2, 1, d - 2, w - 1, d - 1);
        assert(is_shell(p3, w, d, role, side, door_base));
    }
}

/// A storey once its rooms are placed.
pub open spec fn storey_works(
    x_id: i64,
    y_id: i64,
    seed: u64,
    floor: u8,
    role: FloorRole,
    core: (u8, u8, u8),
    ctx: InteriorContext,
    blueprint: Blueprint,
    shafts: Seq<u8>,
) -> Works {
    let (w, d) = (ctx.footprint_w as int, ctx.footprint_d as int);
    let door_base = storey_hash(
        x_id,
        y_id,
        seed,
        floor,
        domain::LAYOUT_DOOR,
    );
    let room_base = storey_hash(
        x_id,
        y_id,
        seed,
        floor,
        domain::LAYOUT_ROOM,
    );
    furnished(
        shell(w, d, role, core, ctx.door_side, blueprint, door_base),
        room_region(blueprint, w, d),
        blueprint.live(),
        blueprint.unit_max as int,
        shafts,
        room_base,
        ctx.door_side,
    )
}

/// The rooms of a storey.
pub open spec fn storey_rooms(
    x_id: i64,
    y_id: i64,
    seed: u64,
    floor: u8,
    role: FloorRole,
    core: (u8, u8, u8),
    ctx: InteriorContext,
    blueprint: Blueprint,
    shafts: Seq<u8>,
) -> Seq<PlacedRoom> {
    storey_works(x_id, y_id, seed, floor, role, core, ctx, blueprint, shafts).placed
}

/// Can the tile be walked on?
pub open spec fn is_open(t: Tile) -> bool {
    t == Tile::Corridor || t == Tile::Door || t == Tile::Core
}

/// Do two cells share an edge?
pub open spec fn beside(c: (int, int), e: (int, int)) -> bool {
    (c.0 == e.0 && (c.1 == e.1 + 1 || e.1 == c.1 + 1)) || (c.1 == e.1 && (c.0 == e.0 + 1 || e.0
        == c.0 + 1))
}

/// What holds of a carved storey whose core stands off the ring.
pub open spec fn well_carved(
    p: Plan,
    w: int,
    d: int,
    role: FloorRole,
    side: DoorSide,
    door_base: u64,
    region: PlaceRegion,
    placed: Seq<PlacedRoom>,
) -> bool {
    &&& p.w == w && p.d == d
    &&& p.complete()
    // Sealed: nothing but the street entrance opens the outer ring.
    &&& forall|c: (int, int)|
        p.on_ring(c) ==> #[trigger] p.tiles[c] == if role == FloorRole::Ground && c
            == entrance_cell(w, d, side, door_base) {
            Tile::Door
        } else {
            Tile::Wall
        }
    // Inside, everything is room or circulation.
    &&& forall|c: (int, int)|
        p.inside(c) ==> #[trigger] p.tiles[c] == Tile::Room || is_open(p.tiles[c])
    // Only rooms carry a kind.
    &&& kinds_on_rooms(p)
    // The rooms are those that were placed, each in the region that rooms may
    // take, with free ground between any two.
    &&& consistent(p, placed, region)
}

/// What holds of the furniture of a storey: it stands in rooms only; every
/// room has its first piece in the near corner wherever that fits; and it has
/// its second piece in the far corner wherever that fits beside the first and
/// the draw falls below the density. Nothing else stands there.
pub open spec fn well_furnished(
    p: Plan,
    placed: Seq<PlacedRoom>,
    base: u64,
    density: u8,
) -> bool {
    &&& forall|c: (int, int)|
        p.has(c) && #[trigger] p.furn[c] != FURN_NONE ==> p.tiles[c] == Tile::Room
    &&& forall|i: int, c: (int, int)|
        0 <= i < placed.len() && #[trigger] in_room(c, placed[i]) ==> p.furn[c] == if under_first(
            placed[i],
            c,
        ) {
            fitting(placed[i].kind).0.0
        } else if under_second(placed[i], base, density, c) {
            fitting(placed[i].kind).1.0
        } else {
            FURN_NONE
        }
}

/// Does every room tile carry the kind of one of the templates?
pub open spec fn kinds_of(p: Plan, rooms: Seq<BlueprintRoom>) -> bool {
    forall|c: (int, int)|
        p.has(c) && #[trigger] p.tiles[c] == Tile::Room ==> exists|k: int|
            0 <= k < rooms.len() && p.kinds[c] == (#[trigger] rooms[k]).kind
}

/// Furniture changes no tile and no kind, and nothing outside the rooms.
pub proof fn lemma_equipped(
    p: Plan,
    placed: Seq<PlacedRoom>,
    base: u64,
    density: u8,
    i: int,
    region: PlaceRegion,
)
    requires
        0 <= i,
        consistent(p, placed, region),
        p.complete(),
    ensures
        ({
            let q = all_equipped(p, placed, base, density, i);
            &&& q.w == p.w && q.d == p.d
            &&& q.tiles == p.tiles && q.kinds == p.kinds
            &&& q.complete()
            &&& forall|c: (int, int)|
                p.has(c) && (forall|j: int|
                    i <= j < placed.len() ==> !in_room(c, #[trigger] placed[j]))
                    ==> #[trigger] q.furn[c] == p.furn[c]
            &&& forall|j: int, c: (int, int)|
                i <= j < placed.len() && #[trigger] in_room(c, placed[j]) ==> q.furn[c]
                    == if under_first(placed[j], c) {
                    fitting(placed[j].kind).0.0
                } else if under_second(placed[j], base, density, c) {
                    fitting(placed[j].kind).1.0
                } else {
                    p.furn[c]
                }
        }),
    decreases placed.len() - i,
{
    if i < placed.len() {
        let r = placed[i];
        let m = equipped(p, r, base, density);
        assert forall|c: (int, int)| under_first(r, c) implies in_room(c, r) by {}
        assert forall|c: (int, int)| under_second(r, base, density, c) implies in_room(c, r) by {}
        assert(consistent(m, placed, region)) by {
            assert(m.tiles == p.tiles && m.kinds == p.kinds);
            assert forall|c: (int, int)|
                m.has(c) && #[trigger] m.tiles[c] == Tile::Room implies exists|k: int|
                0 <= k < placed.len() && in_room(c, #[trigger] placed[k]) by {
                assert(p.tiles[c] == Tile::Room);
            }
        }
        lemma_equipped(m, placed, base, density, i + 1, region);
        let q = all_equipped(p, placed, base, density, i);
        assert forall|j: int, c: (int, int)|
            i <= j < placed.len() && #[trigger] in_room(c, placed[j]) implies q.furn[c]
            == if under_first(placed[j], c) {
            fitting(placed[j].kind).0.0
        } else if under_second(placed[j], base, density, c) {
            fitting(placed[j].kind).1.0
        } else {
            p.furn[c]
        } by {
            if j == i {
                assert forall|k: int| i + 1 <= k < placed.len() implies !in_room(
                    c,
                    #[trigger] placed[k],
                ) by {
                    assert(!near_room(c, placed[k]));
                }
                assert(m.has(c));
                assert(q.furn[c] == m.furn[c]);
            } else {
                assert(!in_room(c, placed[i])) by {
                    if in_room(c, placed[i]) {
                        assert(!near_room(c, placed[j]));
                    }
                }
                assert(m.furn[c] == p.furn[c]);
            }
        }
        assert forall|c: (int, int)|
            p.has(c) && (forall|j: int|
                i <= j < placed.len() ==> !in_room(c, #[trigger] placed[j])) implies
            #[trigger] q.furn[c] == p.furn[c] by {
            assert(!in_room(c, placed[i]));
            assert(m.furn[c] == p.furn[c]);
            assert(m.has(c));
        }
    }
}

/// What holds of a storey before it is furnished.
proof fn lemma_bare(
    x_id: i64,
    y_id: i64,
    seed: u64,
    floor: u8,
    role: FloorRole,
    core: (u8, u8, u8),
    ctx: InteriorContext,
    blueprint: Blueprint,
    shafts: Seq<u8>,
) -> (p: Plan)
    requires
        ctx.footprint_w >= 3,
        ctx.footprint_d >= 3,
    ensures
        ({
            let (w, d) = (ctx.footprint_w as int, ctx.footprint_d as int);
            let placed = storey_rooms(
                x_id,
                y_id,
                seed,
                floor,
                role,
                core,
                ctx,
                blueprint,
                shafts,
            );
            &&& well_carved(
                p,
                w,
                d,
                role,
                ctx.door_side,
                storey_hash(x_id, y_id, seed, floor, domain::LAYOUT_DOOR),
                room_region(blueprint, w, d),
                placed,
            )
            &&& p.inside((core.1 as int, core.2 as int)) && core.0 > 0 ==> is_open(
                p.tiles[(core.1 as int, core.2 as int)],
            )
            &&& role == FloorRole::Ground ==> ({
                let hall = entrance_hall(
                    w,
                    d,
                    ctx.door_side,
                    storey_hash(x_id, y_id, seed, floor, domain::LAYOUT_DOOR),
                );
                p.inside(hall) && is_open(p.tiles[hall])
            })
            &&& p.furn == uniform(w, d, Tile::Void).furn
            &&& drawn_from(placed, blueprint.live())
            &&& storey(x_id, y_id, seed, floor, role, core, ctx, blueprint, shafts) == all_equipped(
                p,
                placed,
                storey_hash(x_id, y_id, seed, floor, domain::LAYOUT_FURNITURE),
                blueprint.furn_density,
                0,
            )
        }),
{
    let (w, d) = (ctx.footprint_w as int, ctx.footprint_d as int);
    let door_base = storey_hash(
        x_id,
        y_id,
        seed,
        floor,
        domain::LAYOUT_DOOR,
    );
    let room_base = storey_hash(
        x_id,
        y_id,
        seed,
        floor,
        domain::LAYOUT_ROOM,
    );
    let side = ctx.door_side;
    let region = room_region(blueprint, w, d);
    let a = shell(w, d, role, core, side, blueprint, door_base);
    lemma_shell(w, d, role, core, side, blueprint, door_base);
    let s = furnished(
        a,
        region,
        blueprint.live(),
        blueprint.unit_max as int,
        shafts,
        room_base,
        ctx.door_side,
    );
    lemma_keeps_furnished(
        a,
        region,
        blueprint.live(),
        blueprint.unit_max,
        shafts,
        room_base,
        ctx.door_side,
    );
    lemma_finished(a, s, role, core, door_base, region);
    let p = finished(s, role, core, door_base);
    assert(kinds_on_rooms(a));
    assert forall|e: (int, int)| p.on_ring(e) implies #[trigger] p.tiles[e] == if role
        == FloorRole::Ground && e == entrance_cell(w, d, side, door_base) {
        Tile::Door
    } else {
        Tile::Wall
    } by {
        assert(a.on_ring(e));
        assert(evolves(a.tiles[e], p.tiles[e]));
    }
    assert forall|e: (int, int)| p.inside(e) implies #[trigger] p.tiles[e] == Tile::Room || is_open(
        p.tiles[e],
    ) by {
        assert(a.inside(e));
        assert(evolves(a.tiles[e], p.tiles[e]));
    }
    let at = (core.1 as int, core.2 as int);
    if p.inside(at) && core.0 > 0 {
        assert(evolves(a.tiles[at], p.tiles[at]));
    }
    if role == FloorRole::Ground {
        let hall = entrance_hall(w, d, side, door_base);
        assert(a.has(hall));
        assert(evolves(a.tiles[hall], p.tiles[hall]));
    }
    lemma_drawn_from(
        a,
        region,
        blueprint.live(),
        blueprint.unit_max as int,
        shafts,
        room_base,
        ctx.door_side,
    );
    p
}

/// What holds of every storey with an inside, whatever its role and core: it
/// is well carved and well furnished, its core can be walked on, and so can the
/// cell behind the entrance of a ground floor; and its rooms are of the live
/// templates.
pub proof fn law_storey(
    x_id: i64,
    y_id: i64,
    seed: u64,
    floor: u8,
    role: FloorRole,
    core: (u8, u8, u8),
    ctx: InteriorContext,
    blueprint: Blueprint,
    shafts: Seq<u8>,
)
    requires
        ctx.footprint_w >= 3,
        ctx.footprint_d >= 3,
    ensures
        ({
            let (w, d) = (ctx.footprint_w as int, ctx.footprint_d as int);
            let p = storey(x_id, y_id, seed, floor, role, core, ctx, blueprint, shafts);
            let placed = storey_rooms(
                x_id,
                y_id,
                seed,
                floor,
                role,
                core,
                ctx,
                blueprint,
                shafts,
            );
            &&& well_carved(
                p,
                w,
                d,
                role,
                ctx.door_side,
                storey_hash(x_id, y_id, seed, floor, domain::LAYOUT_DOOR),
                room_region(blueprint, w, d),
                placed,
            )
            &&& well_furnished(
                p,
                placed,
                storey_hash(x_id, y_id, seed, floor, domain::LAYOUT_FURNITURE),
                blueprint.furn_density,
            )
            &&& p.inside((core.1 as int, core.2 as int)) && core.0 > 0 ==> is_open(
                p.tiles[(core.1 as int, core.2 as int)],
            )
            &&& role == FloorRole::Ground ==> ({
                let hall = entrance_hall(
                    w,
                    d,
                    ctx.door_side,
                    storey_hash(x_id, y_id, seed, floor, domain::LAYOUT_DOOR),
                );
                p.inside(hall) && is_open(p.tiles[hall])
            })
            &&& drawn_from(placed, blueprint.live())
            &&& kinds_of(p, blueprint.live())
        }),
{
    let (w, d) = (ctx.footprint_w as int, ctx.footprint_d as int);
    let region = room_region(blueprint, w, d);
    let bare = lemma_bare(x_id, y_id, seed, floor, role, core, ctx, blueprint, shafts);
    let placed = storey_rooms(x_id, y_id, seed, floor, role, core, ctx, blueprint, shafts);
    let base = storey_hash(x_id, y_id, seed, floor, domain::LAYOUT_FURNITURE);
    let density = blueprint.furn_density;
    lemma_equipped(bare, placed, base, density, 0, region);
    let p = all_equipped(bare, placed, base, density, 0);
    lemma_same_tiles(
        bare,
        p,
        w,
        d,
        role,
        ctx.door_side,
        storey_hash(x_id, y_id, seed, floor, domain::LAYOUT_DOOR),
        region,
        placed,
    );
    assert forall|c: (int, int)| p.has(c) && #[trigger] p.furn[c] != FURN_NONE implies p.tiles[c]
        == Tile::Room by {
        if forall|j: int| 0 <= j < placed.len() ==> !in_room(c, #[trigger] placed[j]) {
            assert(bare.has(c));
            assert(p.furn[c] == bare.furn[c]);
        } else {
            let j = choose|j: int| 0 <= j < placed.len() && in_room(c, #[trigger] placed[j]);
            assert(in_room(c, placed[j]));
        }
    }
    assert forall|c: (int, int)| p.has(c) && #[trigger] p.tiles[c] == Tile::Room implies exists|
        k: int,
    | 0 <= k < blueprint.live().len() && p.kinds[c] == (#[trigger] blueprint.live()[k]).kind by {
        let j = choose|j: int| 0 <= j < placed.len() && in_room(c, #[trigger] placed[j]);
        assert(in_room(c, placed[j]));
        assert(has_template(placed[j], blueprint.live()));
    }
    assert forall|i: int, c: (int, int)|
        0 <= i < placed.len() && #[trigger] in_room(c, placed[i]) implies p.furn[c]
        == if under_first(placed[i], c) {
        fitting(placed[i].kind).0.0
    } else if under_second(placed[i], base, density, c) {
        fitting(placed[i].kind).1.0
    } else {
        FURN_NONE
    } by {
        assert(bare.has(c));
    }
}

/// What holds of a carved storey is a matter of its tiles and kinds.
proof fn lemma_same_tiles(
    p: Plan,
    q: Plan,
    w: int,
    d: int,
    role: FloorRole,
    side: DoorSide,
    door_base: u64,
    region: PlaceRegion,
    placed: Seq<PlacedRoom>,
)
    requires
        well_carved(p, w, d, role, side, door_base, region, placed),
        q.w == p.w,
        q.d == p.d,
        q.tiles == p.tiles,
        q.kinds == p.kinds,
        q.complete(),
    ensures
        well_carved(q, w, d, role, side, door_base, region, placed),
{
    assert forall|c: (int, int)| q.on_ring(c) implies #[trigger] q.tiles[c] == if role
        == FloorRole::Ground && c == entrance_cell(w, d, side, door_base) {
        Tile::Door
    } else {
        Tile::Wall
    } by {
        assert(p.on_ring(c));
    }
    assert forall|c: (int, int)| q.inside(c) implies #[trigger] q.tiles[c] == Tile::Room || is_open(
        q.tiles[c],
    ) by {
        assert(p.inside(c));
    }
    assert(consistent(q, placed, region)) by {
        assert forall|c: (int, int)|
            q.has(c) && #[trigger] q.tiles[c] == Tile::Room implies exists|k: int|
            0 <= k < placed.len() && in_room(c, #[trigger] placed[k]) by {
            assert(p.tiles[c] == Tile::Room);
        }
    }
}

/// A storey from its rooms on, before their doors: the lobby, and circulation.
pub open spec fn cleared(s: Works, role: FloorRole, core: (u8, u8, u8)) -> Plan {
    let c = if role == FloorRole::Ground {
        haloed(s.plan, core.1 as int, core.2 as int, core.0 as int)
    } else {
        s.plan
    };
    opened(c, 1, 1, s.plan.w - 1, s.plan.d - 1)
}

/// A storey from its rooms on: the lobby, circulation, and doors.
pub open spec fn finished(s: Works, role: FloorRole, core: (u8, u8, u8), door_base: u64) -> Plan {
    all_doors(cleared(s, role, core), s.placed, door_base, 0)
}

pub proof fn lemma_finished(
    a: Plan,
    s: Works,
    role: FloorRole,
    core: (u8, u8, u8),
    door_base: u64,
    region: PlaceRegion,
)
    requires
        keeps(a, s.plan, region),
        consistent(s.plan, s.placed, region),
    ensures
        keeps(a, finished(s, role, core, door_base), region),
        consistent(finished(s, role, core, door_base), s.placed, region),
        forall|c: (int, int)|
            a.inside(c) ==> #[trigger] finished(s, role, core, door_base).tiles[c] != Tile::Void,
{
    let b = s.plan;
    let (cx, cz, size) = (core.1 as int, core.2 as int, core.0 as int);
    let c = if role == FloorRole::Ground {
        let (x0, z0, x1, z1) = crate::interior::grid::clipped(
            b,
            cx - 1,
            cz - 1,
            cx + size + 1,
            cz + size + 1,
        );
        lemma_keeps_opened(b, x0, z0, x1, z1, region);
        haloed(b, cx, cz, size)
    } else {
        b
    };
    lemma_consistent_keeps(b, s.placed, c, region);
    let q = cleared(s, role, core);
    lemma_keeps_opened(c, 1, 1, s.plan.w - 1, s.plan.d - 1, region);
    lemma_consistent_keeps(c, s.placed, q, region);
    lemma_keeps_trans(a, b, c, region);
    lemma_keeps_trans(a, c, q, region);
    let p = finished(s, role, core, door_base);
    lemma_keeps_all_doors(q, s.placed, door_base, 0, region);
    lemma_no_new_rooms(q, s.placed, door_base, 0);
    lemma_consistent_keeps(q, s.placed, p, region);
    lemma_keeps_trans(a, q, p, region);
    assert forall|e: (int, int)| a.inside(e) implies #[trigger] p.tiles[e] != Tile::Void by {
        assert(within(e, 1, 1, s.plan.w - 1, s.plan.d - 1));
        assert(q.tiles[e] != Tile::Void);
        assert(evolves(q.tiles[e], p.tiles[e]));
    }
}

/// Opening doors makes no rooms.
proof fn lemma_no_new_rooms(p: Plan, placed: Seq<PlacedRoom>, base: u64, i: int)
    requires
        0 <= i,
    ensures
        forall|c: (int, int)|
            p.has(c) && #[trigger] all_doors(p, placed, base, i).tiles[c] == Tile::Room
                ==> p.tiles[c] == Tile::Room,
    decreases placed.len() - i,
{
    if i < placed.len() {
        let q = doors_from(p, placed[i], base, 0);
        lemma_no_new_rooms_one(p, placed[i], base, 0);
        lemma_keeps_doors(p, placed[i], base, 0, PlaceRegion { x0: 0, z0: 0, w: 0, d: 0 });
        lemma_no_new_rooms(q, placed, base, i + 1);
        assert forall|c: (int, int)|
            p.has(c) && #[trigger] all_doors(p, placed, base, i).tiles[c] == Tile::Room implies p.tiles[c]
            == Tile::Room by {
            assert(q.tiles[c] == Tile::Room);
        }
    }
}

proof fn lemma_no_new_rooms_one(p: Plan, r: PlacedRoom, base: u64, k: int)
    requires
        0 <= k,
    ensures
        forall|c: (int, int)|
            p.has(c) && #[trigger] doors_from(p, r, base, k).tiles[c] == Tile::Room ==> p.tiles[c]
                == Tile::Room,
    decreases r.doors - k,
{
    if k < r.doors {
        let q = room_doored(p, rect_of(r), base, k);
        lemma_no_new_rooms_one(q, r, base, k + 1);
        assert forall|c: (int, int)|
            p.has(c) && #[trigger] doors_from(p, r, base, k).tiles[c] == Tile::Room implies p.tiles[c]
            == Tile::Room by {
            assert(q.tiles[c] == Tile::Room);
        }
    }
}

/// The number under which storey `f` is drawn: typical storeys all repeat the
/// first of them, unless the table has them vary.
pub open spec fn drawn_number(ctx: InteriorContext, blueprint: Blueprint, f: int) -> u8 {
    if role_of(f, storey_total(ctx)) == FloorRole::Typical && blueprint.vary_typical == 0 {
        1
    } else {
        f as u8
    }
}

/// The rooms of storey `f` of a building.
pub open spec fn building_rooms(
    id: InteriorId,
    ctx: InteriorContext,
    blueprint: Blueprint,
    ground: Blueprint,
    f: int,
) -> Seq<PlacedRoom> {
    let (x, y) = crate::interior::units::id_halves(id);
    let role = role_of(f, storey_total(ctx));
    let n = drawn_number(ctx, blueprint, f);
    storey_rooms(
        x,
        y,
        ctx.seed,
        n,
        role,
        role_core(id, ctx, blueprint, n, role),
        ctx,
        if f == 0 {
            ground
        } else {
            blueprint
        },
        building_shafts(id, ctx, blueprint),
    )
}

/// The draw for the entrance of storey `f`.
pub open spec fn door_draw(
    id: InteriorId,
    ctx: InteriorContext,
    blueprint: Blueprint,
    f: int,
) -> u64 {
    let (x, y) = crate::interior::units::id_halves(id);
    storey_hash(
        x,
        y,
        ctx.seed,
        drawn_number(ctx, blueprint, f),
        domain::LAYOUT_DOOR,
    )
}

/// The draw for the furniture of storey `f`.
pub open spec fn furniture_draw(
    id: InteriorId,
    ctx: InteriorContext,
    blueprint: Blueprint,
    f: int,
) -> u64 {
    let (x, y) = crate::interior::units::id_halves(id);
    storey_hash(x, y, ctx.seed, drawn_number(ctx, blueprint, f), domain::LAYOUT_FURNITURE)
}

/// Every storey of every building is well carved: the outer ring is solid wall
/// but for the one street entrance of the ground floor; everything inside is
/// room or circulation; only rooms carry a kind; the rooms are those that were
/// placed, in the part of the floor that rooms may take, with free ground
/// between any two. It is well furnished, and its rooms are of the live
/// templates. A footprint without an inside is solid wall.
pub proof fn law_storeys(
    id: InteriorId,
    ctx: InteriorContext,
    blueprint: Blueprint,
    ground: Blueprint,
    f: int,
)
    ensures
        ({
            let (w, d) = (ctx.footprint_w as int, ctx.footprint_d as int);
            let p = building_storey(id, ctx, blueprint, ground, f);
            let role = role_of(f, storey_total(ctx));
            if w < 3 || d < 3 {
                p == uniform(w, d, Tile::Wall)
            } else {
                let table = if f == 0 {
                    ground
                } else {
                    blueprint
                };
                let placed = building_rooms(id, ctx, blueprint, ground, f);
                &&& well_carved(
                    p,
                    w,
                    d,
                    role,
                    ctx.door_side,
                    door_draw(id, ctx, blueprint, f),
                    room_region(table, w, d),
                    placed,
                )
                &&& well_furnished(
                    p,
                    placed,
                    furniture_draw(id, ctx, blueprint, f),
                    table.furn_density,
                )
                &&& drawn_from(placed, table.live())
                &&& kinds_of(p, table.live())
            }
        }),
{
    let (x, y) = crate::interior::units::id_halves(id);
    let role = role_of(f, storey_total(ctx));
    let n = drawn_number(ctx, blueprint, f);
    if ctx.footprint_w >= 3 && ctx.footprint_d >= 3 {
        law_storey(
            x,
            y,
            ctx.seed,
            n,
            role,
            role_core(id, ctx, blueprint, n, role),
            ctx,
            if f == 0 {
                ground
            } else {
                blueprint
            },
            building_shafts(id, ctx, blueprint),
        );
    }
}

/// The entrance of a ground floor lies on the side that faces the street, and
/// on no corner.
pub proof fn law_entrance_faces_street(w: int, d: int, side: DoorSide, base: u64)
    requires
        w >= 3,
        d >= 3,
    ensures
        ({
            let c = entrance_cell(w, d, side, base);
            match side {
                DoorSide::West => c.0 == 0 && 1 <= c.1 <= d - 2,
                DoorSide::East => c.0 == w - 1 && 1 <= c.1 <= d - 2,
                DoorSide::North => c.1 == 0 && 1 <= c.0 <= w - 2,
                DoorSide::South => c.1 == d - 1 && 1 <= c.0 <= w - 2,
            }
        }),
{
}

/// The core of a building stands off the outer ring.
proof fn lemma_core_inside(
    id: InteriorId,
    ctx: InteriorContext,
    blueprint: Blueprint,
    f: u8,
    role: FloorRole,
)
    requires
        ctx.footprint_w >= 3,
        ctx.footprint_d >= 3,
    ensures
        ({
            let c = role_core(id, ctx, blueprint, f, role);
            &&& c.0 > 0
            &&& 1 <= c.1 <= ctx.footprint_w - 2
            &&& 1 <= c.2 <= ctx.footprint_d - 2
        }),
{
}

/// The first or the last corner of a room.
spec fn corner(r: PlacedRoom, near: bool) -> (int, int) {
    if near {
        (r.x0 as int, r.z0 as int)
    } else {
        (r.x0 + r.w - 1, r.z0 + r.d - 1)
    }
}

/// Is there a way into the storey that no room can stand on: the cell behind
/// the entrance of a ground floor, or a core off the outer ring?
pub open spec fn has_way(role: FloorRole, core: (u8, u8, u8), ctx: InteriorContext) -> bool {
    role == FloorRole::Ground || (core.0 > 0 && 1 <= core.1 <= ctx.footprint_w - 2 && 1 <= core.2
        <= ctx.footprint_d - 2)
}

/// Beside a corner of every room there is circulation.
proof fn lemma_open_corner(
    x_id: i64,
    y_id: i64,
    seed: u64,
    floor: u8,
    role: FloorRole,
    core: (u8, u8, u8),
    ctx: InteriorContext,
    blueprint: Blueprint,
    shafts: Seq<u8>,
    i: int,
) -> (r: (bool, (int, int)))
    requires
        ctx.footprint_w >= 3,
        ctx.footprint_d >= 3,
        has_way(role, core, ctx),
        ({
            let rooms = storey_rooms(x_id, y_id, seed, floor, role, core, ctx, blueprint, shafts);
            0 <= i < rooms.len() && rooms[i].w > 0 && rooms[i].d > 0
        }),
    ensures
        ({
            let p = storey(x_id, y_id, seed, floor, role, core, ctx, blueprint, shafts);
            let room = storey_rooms(x_id, y_id, seed, floor, role, core, ctx, blueprint, shafts)[i];
            &&& in_room(corner(room, r.0), room)
            &&& beside(corner(room, r.0), r.1)
            &&& p.inside(r.1)
            &&& is_open(p.tiles[r.1])
        }),
{
    let p = storey(x_id, y_id, seed, floor, role, core, ctx, blueprint, shafts);
    let rooms = storey_rooms(x_id, y_id, seed, floor, role, core, ctx, blueprint, shafts);
    let r = rooms[i];
    let (w, d) = (ctx.footprint_w as int, ctx.footprint_d as int);
    let region = room_region(blueprint, w, d);
    let s = Works { plan: p, placed: rooms, draw: 0 };
    law_storey(x_id, y_id, seed, floor, role, core, ctx, blueprint, shafts);
    let (x0, z0) = (r.x0 as int, r.z0 as int);
    let (x1, z1) = (x0 + r.w - 1, z0 + r.d - 1);
    assert(in_room((x0, z0), s.placed[i]));
    assert(in_room((x1, z1), s.placed[i]));
    assert(region.covers((x0, z0)) && region.covers((x1, z1)));
    if x0 > 1 {
        lemma_margin_open(s, region, i, (x0, z0), (x0 - 1, z0), w, d);
        (true, (x0 - 1, z0))
    } else if x1 < w - 2 {
        lemma_margin_open(s, region, i, (x1, z1), (x1 + 1, z1), w, d);
        (false, (x1 + 1, z1))
    } else if z0 > 1 {
        lemma_margin_open(s, region, i, (x0, z0), (x0, z0 - 1), w, d);
        (true, (x0, z0 - 1))
    } else if z1 < d - 2 {
        lemma_margin_open(s, region, i, (x1, z1), (x1, z1 + 1), w, d);
        (false, (x1, z1 + 1))
    } else {
        // The room would fill the whole inside, the way in and all.
        let c = if role == FloorRole::Ground {
            entrance_hall(
                w,
                d,
                ctx.door_side,
                storey_hash(x_id, y_id, seed, floor, domain::LAYOUT_DOOR),
            )
        } else {
            (core.1 as int, core.2 as int)
        };
        assert(p.inside(c));
        assert(in_room(c, s.placed[i]));
        assert(false);
        (true, (x0, z0))
    }
}

/// Every room of a storey that has a way in is reachable: some cell of it
/// shares an edge with circulation.
pub proof fn law_storey_rooms_are_reachable(
    x_id: i64,
    y_id: i64,
    seed: u64,
    floor: u8,
    role: FloorRole,
    core: (u8, u8, u8),
    ctx: InteriorContext,
    blueprint: Blueprint,
    shafts: Seq<u8>,
    i: int,
)
    requires
        ctx.footprint_w >= 3,
        ctx.footprint_d >= 3,
        has_way(role, core, ctx),
        ({
            let rooms = storey_rooms(x_id, y_id, seed, floor, role, core, ctx, blueprint, shafts);
            0 <= i < rooms.len() && rooms[i].w > 0 && rooms[i].d > 0
        }),
    ensures
        exists|c: (int, int), e: (int, int)|
            {
                let p = storey(x_id, y_id, seed, floor, role, core, ctx, blueprint, shafts);
                &&& in_room(c, storey_rooms(x_id, y_id, seed, floor, role, core, ctx, blueprint, shafts)[i])
                &&& #[trigger] beside(c, e)
                &&& p.has(e)
                &&& is_open(p.tiles[e])
            },
{
    let (near, e) = lemma_open_corner(
        x_id,
        y_id,
        seed,
        floor,
        role,
        core,
        ctx,
        blueprint,
        shafts,
        i,
    );
    let room = storey_rooms(x_id, y_id, seed, floor, role, core, ctx, blueprint, shafts)[i];
    assert(beside(corner(room, near), e));
}

/// Every room of a building is reachable: some cell of it shares an edge with
/// circulation.
pub proof fn law_rooms_are_reachable(
    id: InteriorId,
    ctx: InteriorContext,
    blueprint: Blueprint,
    ground: Blueprint,
    f: int,
    i: int,
)
    requires
        ctx.footprint_w >= 3,
        ctx.footprint_d >= 3,
        0 <= i < building_rooms(id, ctx, blueprint, ground, f).len(),
        building_rooms(id, ctx, blueprint, ground, f)[i].w > 0,
        building_rooms(id, ctx, blueprint, ground, f)[i].d > 0,
    ensures
        exists|c: (int, int), e: (int, int)|
            {
                &&& in_room(c, building_rooms(id, ctx, blueprint, ground, f)[i])
                &&& #[trigger] beside(c, e)
                &&& building_storey(id, ctx, blueprint, ground, f).has(e)
                &&& is_open(building_storey(id, ctx, blueprint, ground, f).tiles[e])
            },
{
    let (x, y) = crate::interior::units::id_halves(id);
    let role = role_of(f, storey_total(ctx));
    let n = drawn_number(ctx, blueprint, f);
    lemma_core_inside(id, ctx, blueprint, n, role);
    law_storey_rooms_are_reachable(
        x,
        y,
        ctx.seed,
        n,
        role,
        role_core(id, ctx, blueprint, n, role),
        ctx,
        if f == 0 {
            ground
        } else {
            blueprint
        },
        building_shafts(id, ctx, blueprint),
        i,
    );
}

/// The plan before the doors of room `i` are opened, where those from `j` on
/// are opened in turn.
spec fn doors_until(p: Plan, placed: Seq<PlacedRoom>, base: u64, j: int, i: int) -> Plan
    decreases i - j,
{
    if j >= i || j < 0 || j >= placed.len() {
        p
    } else {
        doors_until(doors_from(p, placed[j], base, 0), placed, base, j + 1, i)
    }
}

proof fn lemma_doors_until(
    p: Plan,
    placed: Seq<PlacedRoom>,
    base: u64,
    j: int,
    i: int,
    region: PlaceRegion,
)
    requires
        0 <= j <= i < placed.len(),
    ensures
        keeps(p, doors_until(p, placed, base, j, i), region),
        all_doors(p, placed, base, j) == all_doors(
            doors_from(doors_until(p, placed, base, j, i), placed[i], base, 0),
            placed,
            base,
            i + 1,
        ),
    decreases i - j,
{
    if j < i {
        let q = doors_from(p, placed[j], base, 0);
        lemma_keeps_doors(p, placed[j], base, 0, region);
        lemma_doors_until(q, placed, base, j + 1, i, region);
        lemma_keeps_trans(p, q, doors_until(q, placed, base, j + 1, i), region);
    }
}

/// A room with circulation beside a corner gets a door.
proof fn lemma_door_opens(p: Plan, r: PlacedRoom, base: u64, near: bool, e: (int, int)) -> (c: (
    (int, int),
    (int, int),
))
    requires
        r.w > 0,
        r.d > 0,
        beside(corner(r, near), e),
        p.has(e),
        is_open(p.tiles[e]),
    ensures
        in_room(c.0, r),
        beside(c.0, c.1),
        p.has(c.1),
        room_doored(p, rect_of(r), base, 0).tiles[c.1] == Tile::Door,
{
    let (w, d) = (r.w as int, r.d as int);
    let n = boundary_len(w, d);
    let start = stream_index(base, 1, n);
    let b = if near {
        0
    } else {
        2 * w - 1
    };
    assert(boundary_cell(r.x0 as int, r.z0 as int, w, d, b) == corner(r, near));
    let t = if b >= start {
        b - start
    } else {
        b - start + n
    };
    assert(0 <= start < n) by {
        vstd::arithmetic::div_mod::lemma_mod_bound(
            crate::hash::coord_hash(base as i64, 1, 0, 0) as int,
            n,
        );
    }
    assert(walked(start, t, n) == b) by {
        if b >= start {
            vstd::arithmetic::div_mod::lemma_small_mod(b as nat, n as nat);
        } else {
            vstd::arithmetic::div_mod::lemma_fundamental_div_mod_converse(b + n, n, 1, b);
        }
    }
    let a = corner(r, near);
    let k = if e.0 == a.0 + 1 && e.1 == a.1 {
        0int
    } else if e.0 == a.0 - 1 && e.1 == a.1 {
        1
    } else if e.1 == a.1 + 1 {
        2
    } else {
        3
    };
    assert(neighbour(a, k) == e);
    let j = 4 * t + k;
    let hit = room_door_site(p, rect_of(r), base, 0);
    assert(j / 4 == t && j % 4 == k);
    assert(door_candidate(rect_of(r), base, 0, j) == e);
    assert(hit(j));
    lemma_some_first(4 * n, hit, j);
    lemma_first_hit(4 * n, hit);
    let g = first(4 * n, hit).unwrap();
    assert(hit(g));
    let m = walked(start, g / 4, n);
    vstd::arithmetic::div_mod::lemma_mod_bound(start + g / 4, n);
    let c = boundary_cell(r.x0 as int, r.z0 as int, w, d, m);
    assert(in_room(c, r));
    let o = neighbour(c, g % 4);
    assert(o == door_candidate(rect_of(r), base, 0, g));
    (c, o)
}

/// Every room of a storey that has a way in has a door: some cell of it shares
/// an edge with one.
pub proof fn law_storey_rooms_have_doors(
    x_id: i64,
    y_id: i64,
    seed: u64,
    floor: u8,
    role: FloorRole,
    core: (u8, u8, u8),
    ctx: InteriorContext,
    blueprint: Blueprint,
    shafts: Seq<u8>,
    i: int,
)
    requires
        ctx.footprint_w >= 3,
        ctx.footprint_d >= 3,
        has_way(role, core, ctx),
        ({
            let rooms = storey_rooms(x_id, y_id, seed, floor, role, core, ctx, blueprint, shafts);
            0 <= i < rooms.len() && rooms[i].w > 0 && rooms[i].d > 0
        }),
    ensures
        exists|c: (int, int), e: (int, int)|
            {
                let p = storey(x_id, y_id, seed, floor, role, core, ctx, blueprint, shafts);
                &&& in_room(c, storey_rooms(x_id, y_id, seed, floor, role, core, ctx, blueprint, shafts)[i])
                &&& #[trigger] beside(c, e)
                &&& p.has(e)
                &&& p.tiles[e] == Tile::Door
            },
{
    let whole = storey(x_id, y_id, seed, floor, role, core, ctx, blueprint, shafts);
    let placed = storey_rooms(x_id, y_id, seed, floor, role, core, ctx, blueprint, shafts);
    let r = placed[i];
    let (near, e) = lemma_open_corner(
        x_id,
        y_id,
        seed,
        floor,
        role,
        core,
        ctx,
        blueprint,
        shafts,
        i,
    );
    let (w, d) = (ctx.footprint_w as int, ctx.footprint_d as int);
    let region = room_region(blueprint, w, d);
    let q = lemma_before_doors(x_id, y_id, seed, floor, role, core, ctx, blueprint, shafts);
    let base = storey_hash(x_id, y_id, seed, floor, domain::LAYOUT_DOOR);
    let p = all_doors(q, placed, base, 0);
    law_storey(x_id, y_id, seed, floor, role, core, ctx, blueprint, shafts);
    assert(whole.tiles == p.tiles && whole.w == p.w && whole.d == p.d) by {
        lemma_only_furniture(
            p,
            placed,
            storey_hash(x_id, y_id, seed, floor, domain::LAYOUT_FURNITURE),
            blueprint.furn_density,
            0,
        );
    }
    assert(r.doors > 0);
    lemma_doors_until(q, placed, base, 0, i, region);
    let mid = doors_until(q, placed, base, 0, i);
    let one = room_doored(mid, rect_of(r), base, 0);
    let own = doors_from(mid, r, base, 0);
    lemma_keeps_room_door(mid, rect_of(r), base, 0, region);
    lemma_keeps_doors(one, r, base, 1, region);
    lemma_keeps_all_doors(own, placed, base, i + 1, region);
    assert(own == doors_from(one, r, base, 1));
    lemma_keeps_trans(one, own, p, region);
    // Before its doors, the cell was circulation already.
    lemma_keeps_trans(mid, one, p, region);
    assert(q.inside(e) && q.has(e) && mid.has(e));
    assert(evolves(q.tiles[e], mid.tiles[e]));
    assert(evolves(mid.tiles[e], p.tiles[e]));
    assert(is_open(mid.tiles[e]));
    let (c, o) = lemma_door_opens(mid, r, base, near, e);
    assert(evolves(one.tiles[o], p.tiles[o]));
    assert(beside(c, o));
}

/// Every room of a building has a door: some cell of it shares an edge with
/// one.
pub proof fn law_rooms_have_doors(
    id: InteriorId,
    ctx: InteriorContext,
    blueprint: Blueprint,
    ground: Blueprint,
    f: int,
    i: int,
)
    requires
        ctx.footprint_w >= 3,
        ctx.footprint_d >= 3,
        0 <= i < building_rooms(id, ctx, blueprint, ground, f).len(),
        building_rooms(id, ctx, blueprint, ground, f)[i].w > 0,
        building_rooms(id, ctx, blueprint, ground, f)[i].d > 0,
    ensures
        exists|c: (int, int), e: (int, int)|
            {
                &&& in_room(c, building_rooms(id, ctx, blueprint, ground, f)[i])
                &&& #[trigger] beside(c, e)
                &&& building_storey(id, ctx, blueprint, ground, f).has(e)
                &&& building_storey(id, ctx, blueprint, ground, f).tiles[e] == Tile::Door
            },
{
    let (x, y) = crate::interior::units::id_halves(id);
    let role = role_of(f, storey_total(ctx));
    let n = drawn_number(ctx, blueprint, f);
    lemma_core_inside(id, ctx, blueprint, n, role);
    law_storey_rooms_have_doors(
        x,
        y,
        ctx.seed,
        n,
        role,
        role_core(id, ctx, blueprint, n, role),
        ctx,
        if f == 0 {
            ground
        } else {
            blueprint
        },
        building_shafts(id, ctx, blueprint),
        i,
    );
}

/// Furniture changes neither the grid nor its tiles.
proof fn lemma_only_furniture(
    p: Plan,
    placed: Seq<PlacedRoom>,
    base: u64,
    density: u8,
    i: int,
)
    requires
        0 <= i,
    ensures
        all_equipped(p, placed, base, density, i).tiles == p.tiles,
        all_equipped(p, placed, base, density, i).w == p.w,
        all_equipped(p, placed, base, density, i).d == p.d,
    decreases placed.len() - i,
{
    if i < placed.len() {
        lemma_only_furniture(equipped(p, placed[i], base, density), placed, base, density, i + 1);
    }
}

/// A storey before the doors of its rooms are opened has no free cell left
/// inside.
proof fn lemma_before_doors(
    x_id: i64,
    y_id: i64,
    seed: u64,
    floor: u8,
    role: FloorRole,
    core: (u8, u8, u8),
    ctx: InteriorContext,
    blueprint: Blueprint,
    shafts: Seq<u8>,
) -> (q: Plan)
    requires
        ctx.footprint_w >= 3,
        ctx.footprint_d >= 3,
    ensures
        q.w == ctx.footprint_w,
        q.d == ctx.footprint_d,
        forall|e: (int, int)| q.inside(e) ==> #[trigger] q.tiles[e] != Tile::Void,
        ({
            let placed = storey_rooms(
                x_id,
                y_id,
                seed,
                floor,
                role,
                core,
                ctx,
                blueprint,
                shafts,
            );
            storey(x_id, y_id, seed, floor, role, core, ctx, blueprint, shafts) == all_equipped(
                all_doors(
                    q,
                    placed,
                    storey_hash(x_id, y_id, seed, floor, domain::LAYOUT_DOOR),
                    0,
                ),
                placed,
                storey_hash(x_id, y_id, seed, floor, domain::LAYOUT_FURNITURE),
                blueprint.furn_density,
                0,
            )
        }),
{
    let (w, d) = (ctx.footprint_w as int, ctx.footprint_d as int);
    let door_base = storey_hash(
        x_id,
        y_id,
        seed,
        floor,
        domain::LAYOUT_DOOR,
    );
    let room_base = storey_hash(
        x_id,
        y_id,
        seed,
        floor,
        domain::LAYOUT_ROOM,
    );
    let region = room_region(blueprint, w, d);
    let a = shell(w, d, role, core, ctx.door_side, blueprint, door_base);
    lemma_shell(w, d, role, core, ctx.door_side, blueprint, door_base);
    let s = furnished(
        a,
        region,
        blueprint.live(),
        blueprint.unit_max as int,
        shafts,
        room_base,
        ctx.door_side,
    );
    lemma_keeps_furnished(
        a,
        region,
        blueprint.live(),
        blueprint.unit_max,
        shafts,
        room_base,
        ctx.door_side,
    );
    let q = cleared(s, role, core);
    assert forall|e: (int, int)| q.inside(e) implies #[trigger] q.tiles[e] != Tile::Void by {
        assert(within(e, 1, 1, s.plan.w - 1, s.plan.d - 1));
    }
    q
}

/// A cell off the ring and beside a room, but not in it, is circulation.
proof fn lemma_margin_open(
    s: Works,
    region: PlaceRegion,
    i: int,
    c: (int, int),
    e: (int, int),
    w: int,
    d: int,
)
    requires
        consistent(s.plan, s.placed, region),
        s.plan.w == w,
        s.plan.d == d,
        0 <= i < s.placed.len(),
        in_room(c, s.placed[i]),
        !in_room(e, s.placed[i]),
        beside(c, e),
        s.plan.inside(e),
        s.plan.tiles[e] == Tile::Room || is_open(s.plan.tiles[e]),
    ensures
        s.plan.has(e),
        is_open(s.plan.tiles[e]),
{
    if s.plan.tiles[e] == Tile::Room {
        let j = choose|j: int| 0 <= j < s.placed.len() && in_room(e, #[trigger] s.placed[j]);
        assert(in_room(e, s.placed[j]));
        if j < i {
            assert(near_room(e, s.placed[i]));
        } else if i < j {
            assert(near_room(c, s.placed[j]));
        }
    }
}

/// The typical storeys of a building all repeat one plan, unless its table has
/// them vary.
pub proof fn law_typical_storeys_repeat(
    id: InteriorId,
    ctx: InteriorContext,
    blueprint: Blueprint,
    ground: Blueprint,
    f: int,
    g: int,
)
    requires
        blueprint.vary_typical == 0,
        f > 0,
        g > 0,
        role_of(f, storey_total(ctx)) == FloorRole::Typical,
        role_of(g, storey_total(ctx)) == FloorRole::Typical,
    ensures
        building_storey(id, ctx, blueprint, ground, f) == building_storey(
            id,
            ctx,
            blueprint,
            ground,
            g,
        ),
{
}

/// The core runs through all storeys at one place, unless the table lets it
/// wander; at the top it is no smaller.
pub proof fn law_core_stacks(
    id: InteriorId,
    ctx: InteriorContext,
    blueprint: Blueprint,
    f: u8,
    g: u8,
    role: FloorRole,
)
    requires
        blueprint.wandering_core == 0,
    ensures
        core_at(id, ctx, blueprint, f) == core_at(id, ctx, blueprint, g),
        role_core(id, ctx, blueprint, f, role).1 == role_core(
            id,
            ctx,
            blueprint,
            g,
            FloorRole::Top,
        ).1,
        role_core(id, ctx, blueprint, f, role).2 == role_core(
            id,
            ctx,
            blueprint,
            g,
            FloorRole::Top,
        ).2,
        role_core(id, ctx, blueprint, f, role).0 <= role_core(
            id,
            ctx,
            blueprint,
            g,
            FloorRole::Top,
        ).0,
{
}

/// A room with plumbing that is rolled while filling a unit stands over a
/// shaft, wherever the building has one.
pub proof fn law_filled_wet_rooms_stack(
    p: Plan,
    ax: u8,
    az: u8,
    room: BlueprintRoom,
    fallback: Option<BlueprintRoom>,
    shafts: Seq<u8>,
    unit: PlaceRegion,
    base: u64,
    k: int,
)
    requires
        unit.bounded(),
        room.is_wet(),
        shafts.len() > 0,
    ensures
        attempted(p, ax, az, room, fallback, shafts, unit, base, k, false) matches Some(r)
            ==> exists|i: int|
            0 <= i < shafts.len() && r.0 <= #[trigger] shafts[i] < r.0 + r.2,
{
    lemma_placed_wet(p, az, room, shafts, unit, base, k);
}

} // verus!
