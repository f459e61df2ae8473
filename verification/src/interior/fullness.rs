//! How full a storey is: every room that must be there is, and no place is
//! left for another.
use crate::interior::draw::{first, lemma_first_hit, lemma_some_first, storey_hash, stream_unit};
use crate::interior::filling::{
    fits_nowhere, law_forced_is_least, lemma_fits_nowhere_keeps, lemma_nothing_fits,
    lemma_units_hold_rooms,
};
use crate::interior::grid::within;
use crate::interior::laws::{
    evolves, inside_region, keeps, lemma_keeps_guaranteed, lemma_keeps_minimums,
    lemma_keeps_needed, lemma_keeps_needs, lemma_keeps_roll, lemma_keeps_roll_unit,
    lemma_keeps_trans, lemma_keeps_unit_door, lemma_keeps_units, lemma_units_inside, storey_works,
};
use crate::interior::placement::{
    allowed, anchors_of, fits, forced_choice, free_cells, in_pool, is_free, is_least,
    law_anchors_are_the_free_cells, least_template, lemma_rolled, placed_at, region_cell,
    region_cells, rolled,
};
use crate::interior::storey::{
    least_counts, lemma_needed_site, lemma_placed_at, room_region, shell, Brief, PlacedRoom, Works,
    FIRST_NEED_DRAW,
};
use crate::interior::units::{units_of, PlaceRegion};
use crate::layout::{Blueprint, BlueprintRoom, FloorRole, InteriorContext, Plan, Tile};
use vstd::prelude::*;

verus! {

/// Does the template fit with its corner at the cell in none of its sizes?
pub open spec fn blocked(p: Plan, c: (int, int), room: BlueprintRoom, unit: PlaceRegion) -> bool {
    forall|w: int, d: int|
        0 < w && 0 < d && allowed(room, (w, d)) ==> !#[trigger] fits(p, c.0, c.1, w, d, unit)
}

/// Carving on unblocks nothing.
proof fn lemma_blocked_keeps(
    p: Plan,
    q: Plan,
    c: (int, int),
    room: BlueprintRoom,
    unit: PlaceRegion,
    region: PlaceRegion,
)
    requires
        keeps(p, q, region),
        blocked(p, c, room, unit),
    ensures
        blocked(q, c, room, unit),
{
    let (x, z) = c;
    assert forall|w: int, d: int| 0 < w && 0 < d && allowed(room, (w, d)) implies !#[trigger] fits(
        q,
        x,
        z,
        w,
        d,
        unit,
    ) by {
        if fits(q, x, z, w, d, unit) {
            assert forall|e: (int, int)| #[trigger] within(e, x, z, x + w, z + d) implies p.has(e)
                && p.tiles[e] == Tile::Void by {
                assert(q.has(e) && q.tiles[e] == Tile::Void);
                assert(evolves(p.tiles[e], q.tiles[e]));
            }
            assert forall|e: (int, int)| #[trigger]
                within(e, x - 1, z - 1, x + w + 1, z + d + 1) && p.has(e) implies p.tiles[e]
                != Tile::Room by {
                assert(evolves(p.tiles[e], q.tiles[e]));
                assert(q.has(e));
            }
            assert(fits(p, x, z, w, d, unit));
        }
    }
}

/// A cell that is taken blocks every template.
proof fn lemma_taken_blocks(p: Plan, c: (int, int), room: BlueprintRoom, unit: PlaceRegion)
    requires
        p.tiles[c] != Tile::Void,
    ensures
        blocked(p, c, room, unit),
{
    assert forall|w: int, d: int| 0 < w && 0 < d && allowed(room, (w, d)) implies !#[trigger] fits(
        p,
        c.0,
        c.1,
        w,
        d,
        unit,
    ) by {
        assert(within(c, c.0, c.1, c.0 + w, c.1 + d));
    }
}

/// Does every template ask for a size?
pub open spec fn sized(rooms: Seq<BlueprintRoom>) -> bool {
    forall|k: int|
        0 <= k < rooms.len() ==> (#[trigger] rooms[k]).min_w > 0 && rooms[k].min_d > 0
}

/// The template rolled for anchor `k` of unit `u`.
pub open spec fn rolled_for(brief: Brief, u: int, k: int) -> BlueprintRoom {
    brief.rooms[rolled(brief.rooms, stream_unit(brief.base, u * 4096 + k))]
}

/// Does the template go by its anchor, and not by the shafts?
pub open spec fn by_anchor(brief: Brief, room: BlueprintRoom) -> bool {
    !room.is_wet() || brief.shafts.len() == 0
}

/// A room that is placed at a cell takes it.
proof fn lemma_placed_takes(
    s: Works,
    c: (int, int),
    sizes: BlueprintRoom,
    room: BlueprintRoom,
    unit: PlaceRegion,
    base: u64,
    k: int,
)
    requires
        0 <= c.0 < 256,
        0 <= c.1 < 256,
        sizes.min_w > 0,
        sizes.min_d > 0,
        s.plan.has(c),
        placed_at(s.plan, c.0 as u8, c.1 as u8, sizes, unit, base, k) is Some,
    ensures
        s.with_room(
            placed_at(s.plan, c.0 as u8, c.1 as u8, sizes, unit, base, k)->0,
            room,
        ).plan.tiles[c] == Tile::Room,
{
    let r = placed_at(s.plan, c.0 as u8, c.1 as u8, sizes, unit, base, k)->0;
    lemma_placed_at(s.plan, c.0 as u8, c.1 as u8, sizes, unit, base, k);
    let aim = (
        crate::interior::placement::drawn_length(sizes.min_w, sizes.max_w, base, k * 2),
        crate::interior::placement::drawn_length(sizes.min_d, sizes.max_d, base, k * 2 + 1),
    );
    let can = crate::interior::placement::fits_at(
        s.plan,
        c.0 as u8 as int,
        c.1 as u8 as int,
        unit,
    );
    let t = crate::interior::placement::best_size(sizes, aim, can)->0;
    assert(crate::interior::placement::is_best(sizes, aim, can, t));
    assert(within(c, r.0 as int, r.1 as int, r.0 + r.2, r.1 + r.3));
}

/// Is the anchor full, for the template rolled for it and for the one that
/// stands in?
pub open spec fn full_at(
    brief: Brief,
    p: Plan,
    c: (int, int),
    unit: PlaceRegion,
    u: int,
    k: int,
) -> bool {
    by_anchor(brief, rolled_for(brief, u, k)) ==> {
        &&& blocked(p, c, rolled_for(brief, u, k), unit)
        &&& brief.fallback() matches Some(t) ==> blocked(p, c, t, unit)
    }
}

/// The template that stands in is one of the templates.
proof fn lemma_fallback(brief: Brief)
    requires
        brief.rooms.len() > 0,
    ensures
        brief.fallback() matches Some(t) && brief.rooms.contains(t),
{
    let n = brief.rooms.len() as int;
    lemma_first_hit(n, is_least(brief.rooms, false));
    assert(in_pool(brief.rooms, false, 0));
    crate::interior::filling::lemma_least_exists(brief.rooms, false, 0);
}

/// Once an anchor was rolled, it is full.
proof fn lemma_anchor_full(
    brief: Brief,
    s: Works,
    anchors: Seq<(int, int)>,
    unit: PlaceRegion,
    u: int,
    k: int,
)
    requires
        unit.bounded(),
        brief.rooms.len() > 0,
        sized(brief.rooms),
        0 <= k < anchors.len(),
        s.plan.w <= 255,
        s.plan.d <= 255,
        s.plan.has(anchors[k]),
    ensures
        full_at(
            brief,
            brief.roll_at(s, anchors, unit, u, k, false).plan,
            anchors[k],
            unit,
            u,
            k,
        ),
{
    let kk = u * 4096 + k;
    let c = anchors[k];
    let room = rolled_for(brief, u, k);
    let p = s.plan;
    let t = brief.roll_at(s, anchors, unit, u, k, false);
    lemma_rolled(brief.rooms, stream_unit(brief.base, kk));
    lemma_fallback(brief);
    let fb = brief.fallback()->0;
    let j = choose|j: int| 0 <= j < brief.rooms.len() && brief.rooms[j] == fb;
    assert(brief.rooms[j].min_w > 0);
    if by_anchor(brief, room) {
        if p.tiles[c] != Tile::Void {
            lemma_taken_blocks(p, c, room, unit);
            lemma_taken_blocks(p, c, fb, unit);
            assert(t == s);
        } else if placed_at(p, c.0 as u8, c.1 as u8, room, unit, brief.base, kk) is Some {
            lemma_placed_takes(s, c, room, room, unit, brief.base, kk);
            lemma_taken_blocks(t.plan, c, room, unit);
            lemma_taken_blocks(t.plan, c, fb, unit);
        } else if placed_at(p, c.0 as u8, c.1 as u8, fb, unit, brief.base, kk) is Some {
            lemma_placed_takes(s, c, fb, room, unit, brief.base, kk);
            lemma_taken_blocks(t.plan, c, room, unit);
            lemma_taken_blocks(t.plan, c, fb, unit);
        } else {
            assert(t == s);
            assert(blocked(p, c, room, unit)) by {
                assert forall|w: int, d: int|
                    0 < w && 0 < d && allowed(room, (w, d)) implies !#[trigger] fits(
                    p,
                    c.0,
                    c.1,
                    w,
                    d,
                    unit,
                ) by {
                    lemma_nothing_fits(
                        p,
                        c.0 as u8,
                        c.1 as u8,
                        room,
                        unit,
                        brief.base,
                        kk,
                        w,
                        d,
                    );
                }
            }
            assert(blocked(p, c, fb, unit)) by {
                assert forall|w: int, d: int|
                    0 < w && 0 < d && allowed(fb, (w, d)) implies !#[trigger] fits(
                    p,
                    c.0,
                    c.1,
                    w,
                    d,
                    unit,
                ) by {
                    lemma_nothing_fits(p, c.0 as u8, c.1 as u8, fb, unit, brief.base, kk, w, d);
                }
            }
        }
    }
}

proof fn lemma_full_keeps(
    brief: Brief,
    p: Plan,
    q: Plan,
    c: (int, int),
    unit: PlaceRegion,
    u: int,
    k: int,
    region: PlaceRegion,
)
    requires
        keeps(p, q, region),
        full_at(brief, p, c, unit, u, k),
    ensures
        full_at(brief, q, c, unit, u, k),
{
    if by_anchor(brief, rolled_for(brief, u, k)) {
        lemma_blocked_keeps(p, q, c, rolled_for(brief, u, k), unit, region);
        if let Some(t) = brief.fallback() {
            lemma_blocked_keeps(p, q, c, t, unit, region);
        }
    }
}

/// Once a pass is over, the anchors that it went over are full.
proof fn lemma_pass_full(
    brief: Brief,
    s: Works,
    anchors: Seq<(int, int)>,
    unit: PlaceRegion,
    u: int,
    k: int,
    region: PlaceRegion,
)
    requires
        inside_region(unit, region),
        brief.rooms.len() > 0,
        sized(brief.rooms),
        0 <= k,
        s.plan.w <= 255,
        s.plan.d <= 255,
        forall|i: int| 0 <= i < anchors.len() ==> s.plan.has(#[trigger] anchors[i]),
    ensures
        ({
            let t = brief.roll_on(s, anchors, unit, u, k, false);
            forall|i: int|
                k <= i < anchors.len() && i < 128 ==> full_at(
                    brief,
                    t.plan,
                    #[trigger] anchors[i],
                    unit,
                    u,
                    i,
                )
        }),
    decreases anchors.len() - k,
{
    if k < anchors.len() && k < 128 {
        let next = brief.roll_at(s, anchors, unit, u, k, false);
        lemma_anchor_full(brief, s, anchors, unit, u, k);
        lemma_pass_full(brief, next, anchors, unit, u, k + 1, region);
        lemma_keeps_roll(brief, next, anchors, unit, u, k + 1, false, region);
        let t = brief.roll_on(next, anchors, unit, u, k + 1, false);
        lemma_full_keeps(brief, next.plan, t.plan, anchors[k], unit, u, k, region);
    }
}

/// The anchors of a unit are cells of the plan.
proof fn lemma_anchors_in_plan(p: Plan, unit: PlaceRegion, base: u64, u: int)
    ensures
        forall|i: int|
            0 <= i < anchors_of(p, unit, base, u).len() ==> p.has(
                #[trigger] anchors_of(p, unit, base, u)[i],
            ),
        anchors_of(p, unit, base, u).len() <= unit.w * unit.d,
        forall|c: (int, int)|
            unit.covers(c) && p.has(c) && p.tiles[c] == Tile::Void ==> #[trigger] anchors_of(
                p,
                unit,
                base,
                u,
            ).contains(c),
{
    broadcast use vstd::seq_lib::group_to_multiset_ensures;

    let anchors = anchors_of(p, unit, base, u);
    let free = free_cells(p, unit);
    let cells = region_cells(unit);
    law_anchors_are_the_free_cells(p, unit, base, u);
    cells.lemma_filter_len(is_free(p));
    assert(unit.w * unit.d >= 0) by (nonlinear_arith)
        requires
            unit.w >= 0,
            unit.d >= 0,
    ;
    assert(anchors.len() == anchors.to_multiset().len());
    assert(free.len() == free.to_multiset().len());
    assert forall|i: int| 0 <= i < anchors.len() implies p.has(#[trigger] anchors[i]) by {
        assert(anchors.contains(anchors[i]));
        assert(anchors.to_multiset().count(anchors[i]) > 0);
        assert(free.contains(anchors[i]));
        let j = choose|j: int| 0 <= j < free.len() && free[j] == anchors[i];
        cells.lemma_filter_pred(is_free(p), j);
    }
    assert forall|c: (int, int)|
        unit.covers(c) && p.has(c) && p.tiles[c] == Tile::Void implies #[trigger] anchors.contains(
        c,
    ) by {
        let (a, b) = (c.0 - unit.x0, c.1 - unit.z0);
        let i = b * unit.w + a;
        assert(0 <= i < unit.w * unit.d) by (nonlinear_arith)
            requires
                0 <= a < unit.w,
                0 <= b < unit.d,
                i == b * unit.w + a,
        ;
        vstd::arithmetic::div_mod::lemma_fundamental_div_mod_converse(i, unit.w as int, b, a);
        assert(region_cell(unit, i) == c);
        assert(cells[i] == c);
        cells.lemma_filter_contains(is_free(p), i);
        assert(free.contains(c));
        assert(free.to_multiset().count(c) > 0);
        assert(anchors.to_multiset().count(c) > 0);
    }
}

/// A unit is filled, and not merely furnished with some room: once it is, no
/// template that was rolled for one of its first 128 free cells still fits
/// there, in any of its sizes, and neither does the smallest template. (Rooms
/// with plumbing go by the shafts, where there are any.)
pub proof fn law_units_are_full(brief: Brief, s: Works, unit: PlaceRegion, u: int, k: int)
    requires
        unit.bounded(),
        brief.rooms.len() > 0,
        sized(brief.rooms),
        s.plan.w <= 255,
        s.plan.d <= 255,
        0 <= k < anchors_of(s.plan, unit, brief.base, u).len(),
        k < 128,
        by_anchor(brief, rolled_for(brief, u, k)),
    ensures
        ({
            let t = brief.fill_unit(s, unit, u);
            let c = anchors_of(s.plan, unit, brief.base, u)[k];
            &&& blocked(t.plan, c, rolled_for(brief, u, k), unit)
            &&& brief.fallback() matches Some(least) && blocked(t.plan, c, least, unit)
        }),
{
    let anchors = anchors_of(s.plan, unit, brief.base, u);
    let half = brief.roll_on(s, anchors, unit, u, 0, true);
    let a = brief.roll_unit(s, unit, u);
    let b = brief.guaranteed(a, unit);
    let t = brief.fill_unit(s, unit, u);
    lemma_anchors_in_plan(s.plan, unit, brief.base, u);
    lemma_keeps_roll(brief, s, anchors, unit, u, 0, true, unit);
    lemma_pass_full(brief, half, anchors, unit, u, 0, unit);
    assert(full_at(brief, a.plan, anchors[k], unit, u, k));
    lemma_keeps_guaranteed(brief, a, unit, unit);
    lemma_keeps_unit_door(b.plan, unit, brief.base.wrapping_add(u as u64), unit);
    lemma_keeps_trans(a.plan, b.plan, t.plan, unit);
    lemma_full_keeps(brief, a.plan, t.plan, anchors[k], unit, u, k, unit);
    lemma_fallback(brief);
}

/// No place is left for the smallest template in a unit of up to 128 cells,
/// wherever no template goes by the shafts.
pub proof fn law_no_place_is_left(
    brief: Brief,
    s: Works,
    unit: PlaceRegion,
    u: int,
    least: BlueprintRoom,
)
    requires
        unit.bounded(),
        brief.rooms.len() > 0,
        sized(brief.rooms),
        s.plan.w <= 255,
        s.plan.d <= 255,
        unit.w * unit.d <= 128,
        forall|k: int| 0 <= k < brief.rooms.len() ==> by_anchor(brief, #[trigger] brief.rooms[k]),
        least_template(brief.rooms, false) == Some(least),
    ensures
        fits_nowhere(brief.fill_unit(s, unit, u).plan, unit, least),
{
    let anchors = anchors_of(s.plan, unit, brief.base, u);
    let t = brief.fill_unit(s, unit, u);
    lemma_anchors_in_plan(s.plan, unit, brief.base, u);
    lemma_keeps_roll_unit(brief, s, unit, u, unit);
    let a = brief.roll_unit(s, unit, u);
    let b = brief.guaranteed(a, unit);
    lemma_keeps_guaranteed(brief, a, unit, unit);
    lemma_keeps_unit_door(b.plan, unit, brief.base.wrapping_add(u as u64), unit);
    lemma_keeps_trans(s.plan, a.plan, b.plan, unit);
    lemma_keeps_trans(s.plan, b.plan, t.plan, unit);
    assert forall|x: int, z: int, w: int, d: int|
        unit.covers((x, z)) && 0 < w && 0 < d && allowed(least, (w, d)) implies !#[trigger] fits(
        t.plan,
        x,
        z,
        w,
        d,
        unit,
    ) by {
        let c = (x, z);
        if fits(t.plan, x, z, w, d, unit) {
            assert(within(c, x, z, x + w, z + d));
            assert(t.plan.has(c) && t.plan.tiles[c] == Tile::Void);
            assert(evolves(s.plan.tiles[c], t.plan.tiles[c]));
            assert(anchors.contains(c));
            let k = choose|k: int| 0 <= k < anchors.len() && anchors[k] == c;
            lemma_rolled(brief.rooms, stream_unit(brief.base, u * 4096 + k));
            law_units_are_full(brief, s, unit, u, k);
        }
    }
}

/// No place is left in any of the units.
proof fn lemma_no_place_in_units(
    brief: Brief,
    s: Works,
    units: Seq<PlaceRegion>,
    u: int,
    region: PlaceRegion,
    least: BlueprintRoom,
)
    requires
        0 <= u,
        forall|i: int| 0 <= i < units.len() ==> inside_region(#[trigger] units[i], region),
        brief.rooms.len() > 0,
        sized(brief.rooms),
        s.plan.w <= 255,
        s.plan.d <= 255,
        forall|k: int| 0 <= k < brief.rooms.len() ==> by_anchor(brief, #[trigger] brief.rooms[k]),
        least_template(brief.rooms, false) == Some(least),
    ensures
        ({
            let t = brief.fill_units(s, units, u);
            forall|i: int|
                u <= i < units.len() && (#[trigger] units[i]).area() <= 128 ==> fits_nowhere(
                    t.plan,
                    units[i],
                    least,
                )
        }),
    decreases units.len() - u,
{
    if u < units.len() {
        let unit = units[u];
        assert(inside_region(unit, region));
        let next = brief.fill_unit(s, unit, u);
        let a = brief.roll_unit(s, unit, u);
        let b = brief.guaranteed(a, unit);
        lemma_keeps_roll_unit(brief, s, unit, u, region);
        lemma_keeps_guaranteed(brief, a, unit, region);
        lemma_keeps_unit_door(b.plan, unit, brief.base.wrapping_add(u as u64), region);
        lemma_no_place_in_units(brief, next, units, u + 1, region, least);
        lemma_keeps_units(brief, next, units, u + 1, region);
        if unit.area() <= 128 {
            law_no_place_is_left(brief, s, unit, u, least);
            lemma_fits_nowhere_keeps(
                next.plan,
                brief.fill_units(next, units, u + 1).plan,
                unit,
                least,
                region,
            );
        }
    }
}

/// The number of rooms of a kind.
pub open spec fn count_kind(placed: Seq<PlacedRoom>, kind: u8) -> nat
    decreases placed.len(),
{
    if placed.len() == 0 {
        0
    } else {
        count_kind(placed.drop_last(), kind) + if placed.last().kind == kind {
            1nat
        } else {
            0
        }
    }
}

proof fn lemma_count_more(s: Works, r: (u8, u8, u8, u8), room: BlueprintRoom, kind: u8)
    ensures
        count_kind(s.with_room(r, room).placed, kind) == count_kind(s.placed, kind)
            + if room.kind == kind {
            1nat
        } else {
            0
        },
{
    let t = s.with_room(r, room).placed;
    assert(t.drop_last() =~= s.placed);
}

proof fn lemma_count_extends(a: Seq<PlacedRoom>, b: Seq<PlacedRoom>, kind: u8)
    requires
        crate::interior::filling::extends(a, b),
    ensures
        count_kind(a, kind) <= count_kind(b, kind),
    decreases b.len(),
{
    if b.len() > a.len() {
        let c = b.drop_last();
        assert forall|i: int| 0 <= i < a.len() implies #[trigger] a[i] == c[i] by {
            assert(a[i] == b[i]);
        }
        lemma_count_extends(a, c, kind);
    } else {
        assert(a =~= b);
    }
}

/// A needed room is placed as often as it is needed, or no anchor takes it any
/// more.
proof fn lemma_needed(
    brief: Brief,
    s: Works,
    anchors: Seq<(int, int)>,
    room: BlueprintRoom,
    unit: PlaceRegion,
    need: int,
    kind: u8,
)
    requires
        unit.bounded(),
        s.plan.w <= 255,
        s.plan.d <= 255,
        forall|i: int| 0 <= i < anchors.len() ==> s.plan.has(#[trigger] anchors[i]),
        need >= 0,
    ensures
        ({
            let (t, left) = brief.place_needed(s, anchors, room, unit, need);
            &&& 0 <= left <= need
            &&& count_kind(t.placed, kind) >= count_kind(s.placed, kind)
            &&& count_kind(t.placed, room.kind) >= count_kind(s.placed, room.kind) + need - left
            &&& left > 0 ==> forall|i: int|
                0 <= i < anchors.len() ==> blocked(t.plan, #[trigger] anchors[i], room, unit)
        }),
    decreases need,
{
    if need > 0 {
        lemma_needed_site(brief, s, anchors, room, unit);
        match brief.needed_site(s, anchors, room, unit) {
            Some(i) => {
                let rect = brief.at_anchor(s.plan, anchors[i], room, unit, s.draw, true)->0;
                lemma_count_more(s, rect, room, kind);
                lemma_count_more(s, rect, room, room.kind);
                let next = Works { draw: s.draw + 1, ..s.with_room(rect, room) };
                lemma_needed(brief, next, anchors, room, unit, need - 1, kind);
            },
            None => {
                let n = anchors.len() as int;
                let hit = brief.takes(s, anchors, room, unit);
                assert forall|i: int| 0 <= i < n implies blocked(
                    s.plan,
                    #[trigger] anchors[i],
                    room,
                    unit,
                ) by {
                    if hit(i) {
                        lemma_some_first(n, hit, i);
                    }
                    let c = anchors[i];
                    if s.plan.tiles[c] != Tile::Void {
                        lemma_taken_blocks(s.plan, c, room, unit);
                    } else {
                        assert forall|w: int, d: int|
                            0 < w && 0 < d && allowed(room, (w, d)) implies !#[trigger] fits(
                            s.plan,
                            c.0,
                            c.1,
                            w,
                            d,
                            unit,
                        ) by {
                            lemma_nothing_fits(
                                s.plan,
                                c.0 as u8,
                                c.1 as u8,
                                room,
                                unit,
                                brief.base,
                                s.draw,
                                w,
                                d,
                            );
                        }
                    }
                }
            },
        }
    }
}

/// The needs of the templates from `r` on, within one unit, seen from template
/// `q`.
proof fn lemma_needs(
    brief: Brief,
    s: Works,
    anchors: Seq<(int, int)>,
    unit: PlaceRegion,
    needs: Seq<int>,
    r: int,
    q: int,
    region: PlaceRegion,
)
    requires
        inside_region(unit, region),
        s.plan.w <= 255,
        s.plan.d <= 255,
        forall|i: int| 0 <= i < anchors.len() ==> s.plan.has(#[trigger] anchors[i]),
        needs.len() == brief.rooms.len(),
        forall|i: int| 0 <= i < needs.len() ==> #[trigger] needs[i] >= 0,
        0 <= r,
        0 <= q < brief.rooms.len(),
    ensures
        ({
            let (t, left) = brief.place_needs(s, anchors, unit, needs, r);
            let kind = brief.rooms[q].kind;
            &&& left.len() == needs.len()
            &&& forall|i: int| 0 <= i < left.len() ==> 0 <= #[trigger] left[i] <= needs[i]
            &&& q < r ==> left[q] == needs[q]
            &&& count_kind(t.placed, kind) >= count_kind(s.placed, kind)
            &&& r <= q ==> count_kind(t.placed, kind) >= count_kind(s.placed, kind) + needs[q]
                - left[q]
            &&& r <= q && left[q] > 0 ==> forall|i: int|
                0 <= i < anchors.len() ==> blocked(
                    t.plan,
                    #[trigger] anchors[i],
                    brief.rooms[q],
                    unit,
                )
        }),
    decreases brief.rooms.len() - r,
{
    if r < brief.rooms.len() {
        let room = brief.rooms[r];
        let kind = brief.rooms[q].kind;
        lemma_needed(brief, s, anchors, room, unit, needs[r], kind);
        lemma_keeps_needed(brief, s, anchors, room, unit, needs[r], region);
        let (next, left) = brief.place_needed(s, anchors, room, unit, needs[r]);
        let rest = needs.update(r, left);
        lemma_needs(brief, next, anchors, unit, rest, r + 1, q, region);
        lemma_keeps_needs(brief, next, anchors, unit, rest, r + 1, region);
        if r == q && left > 0 {
            let t = brief.place_needs(next, anchors, unit, rest, r + 1).0;
            assert forall|i: int| 0 <= i < anchors.len() implies blocked(
                t.plan,
                #[trigger] anchors[i],
                room,
                unit,
            ) by {
                lemma_blocked_keeps(next.plan, t.plan, anchors[i], room, unit, region);
            }
        }
    }
}

/// Where every free cell of a unit is blocked, the template fits nowhere in it.
proof fn lemma_blocked_everywhere(
    p: Plan,
    q: Plan,
    unit: PlaceRegion,
    base: u64,
    room: BlueprintRoom,
    region: PlaceRegion,
)
    requires
        keeps(p, q, region),
        forall|i: int|
            0 <= i < anchors_of(p, unit, base, 0).len() ==> blocked(
                q,
                #[trigger] anchors_of(p, unit, base, 0)[i],
                room,
                unit,
            ),
    ensures
        fits_nowhere(q, unit, room),
{
    let anchors = anchors_of(p, unit, base, 0);
    lemma_anchors_in_plan(p, unit, base, 0);
    assert forall|x: int, z: int, w: int, d: int|
        unit.covers((x, z)) && 0 < w && 0 < d && allowed(room, (w, d)) implies !#[trigger] fits(
        q,
        x,
        z,
        w,
        d,
        unit,
    ) by {
        let c = (x, z);
        if fits(q, x, z, w, d, unit) {
            assert(within(c, x, z, x + w, z + d));
            assert(q.has(c) && q.tiles[c] == Tile::Void);
            assert(evolves(p.tiles[c], q.tiles[c]));
            assert(anchors.contains(c));
            let k = choose|k: int| 0 <= k < anchors.len() && anchors[k] == c;
            assert(blocked(q, anchors[k], room, unit));
        }
    }
}

/// The minimum numbers of rooms, seen from template `q`: what is left is what
/// fits into none of the units.
proof fn lemma_minimums(
    brief: Brief,
    s: Works,
    units: Seq<PlaceRegion>,
    needs: Seq<int>,
    u: int,
    q: int,
    region: PlaceRegion,
) -> (left: int)
    requires
        forall|i: int| 0 <= i < units.len() ==> inside_region(#[trigger] units[i], region),
        s.plan.w <= 255,
        s.plan.d <= 255,
        needs.len() == brief.rooms.len(),
        forall|i: int| 0 <= i < needs.len() ==> #[trigger] needs[i] >= 0,
        0 <= u,
        0 <= q < brief.rooms.len(),
    ensures
        ({
            let t = brief.minimums(s, units, needs, u);
            let kind = brief.rooms[q].kind;
            &&& 0 <= left <= needs[q]
            &&& count_kind(t.placed, kind) >= count_kind(s.placed, kind) + needs[q] - left
            &&& left > 0 ==> forall|i: int|
                u <= i < units.len() ==> fits_nowhere(t.plan, #[trigger] units[i], brief.rooms[q])
        }),
    decreases units.len() - u,
{
    if u < units.len() {
        let unit = units[u];
        assert(inside_region(unit, region));
        let anchors = anchors_of(s.plan, unit, brief.base, 0);
        lemma_anchors_in_plan(s.plan, unit, brief.base, 0);
        lemma_needs(brief, s, anchors, unit, needs, 0, q, region);
        lemma_keeps_needs(brief, s, anchors, unit, needs, 0, region);
        let (next, rest) = brief.place_needs(s, anchors, unit, needs, 0);
        let left = lemma_minimums(brief, next, units, rest, u + 1, q, region);
        lemma_keeps_minimums(brief, next, units, rest, u + 1, region);
        let t = brief.minimums(next, units, rest, u + 1);
        if left > 0 {
            lemma_blocked_everywhere(
                s.plan,
                next.plan,
                unit,
                brief.base,
                brief.rooms[q],
                region,
            );
            lemma_fits_nowhere_keeps(next.plan, t.plan, unit, brief.rooms[q], region);
        }
        left
    } else {
        needs[q]
    }
}

/// What the rooms of a storey are placed from.
pub open spec fn storey_brief(
    x_id: i64,
    y_id: i64,
    seed: u64,
    floor: u8,
    ctx: InteriorContext,
    blueprint: Blueprint,
    shafts: Seq<u8>,
) -> Brief {
    Brief {
        rooms: blueprint.live(),
        shafts,
        base: storey_hash(x_id, y_id, seed, floor, crate::hash::domain::LAYOUT_ROOM),
        side: ctx.door_side,
    }
}

/// The units of a storey.
pub open spec fn storey_units(
    x_id: i64,
    y_id: i64,
    seed: u64,
    floor: u8,
    ctx: InteriorContext,
    blueprint: Blueprint,
    shafts: Seq<u8>,
) -> Seq<PlaceRegion> {
    units_of(
        room_region(blueprint, ctx.footprint_w as int, ctx.footprint_d as int),
        blueprint.unit_max as int,
        shafts,
        storey_hash(x_id, y_id, seed, floor, crate::hash::domain::LAYOUT_ROOM),
    )
}

/// A storey is full: in every unit of up to 128 cells no place is left for the
/// smallest template, wherever no template goes by the shafts.
pub proof fn law_storeys_are_full(
    x_id: i64,
    y_id: i64,
    seed: u64,
    floor: u8,
    role: FloorRole,
    core: (u8, u8, u8),
    ctx: InteriorContext,
    blueprint: Blueprint,
    shafts: Seq<u8>,
    i: int,
)
    requires
        ctx.footprint_w >= 3,
        ctx.footprint_d >= 3,
        blueprint.live().len() > 0,
        sized(blueprint.live()),
        shafts.len() == 0 || forall|k: int|
            0 <= k < blueprint.live().len() ==> !(#[trigger] blueprint.live()[k]).is_wet(),
        0 <= i < storey_units(x_id, y_id, seed, floor, ctx, blueprint, shafts).len(),
        storey_units(x_id, y_id, seed, floor, ctx, blueprint, shafts)[i].area() <= 128,
    ensures
        least_template(blueprint.live(), false) matches Some(least) && fits_nowhere(
            storey_works(x_id, y_id, seed, floor, role, core, ctx, blueprint, shafts).plan,
            storey_units(x_id, y_id, seed, floor, ctx, blueprint, shafts)[i],
            least,
        ),
{
    let (w, d) = (ctx.footprint_w as int, ctx.footprint_d as int);
    let region = room_region(blueprint, w, d);
    let rooms = blueprint.live();
    let door_base = storey_hash(x_id, y_id, seed, floor, crate::hash::domain::LAYOUT_DOOR);
    let brief = storey_brief(x_id, y_id, seed, floor, ctx, blueprint, shafts);
    let units = storey_units(x_id, y_id, seed, floor, ctx, blueprint, shafts);
    lemma_units_inside(region, blueprint.unit_max, shafts, brief.base);
    let start = Works {
        plan: shell(w, d, role, core, ctx.door_side, blueprint, door_base),
        placed: seq![],
        draw: FIRST_NEED_DRAW as int,
    };
    lemma_fallback(brief);
    let least = least_template(rooms, false)->0;
    let a = brief.minimums(start, units, least_counts(rooms), 0);
    lemma_keeps_minimums(brief, start, units, least_counts(rooms), 0, region);
    crate::interior::laws::lemma_shell(w, d, role, core, ctx.door_side, blueprint, door_base);
    lemma_no_place_in_units(brief, a, units, 0, region, least);
    assert(units[i].area() <= 128);
}

/// Minimums bind: of every live template a storey has as many rooms as its
/// table asks for, or the template fits into none of its units.
pub proof fn law_minimums_bind(
    x_id: i64,
    y_id: i64,
    seed: u64,
    floor: u8,
    role: FloorRole,
    core: (u8, u8, u8),
    ctx: InteriorContext,
    blueprint: Blueprint,
    shafts: Seq<u8>,
    q: int,
)
    requires
        ctx.footprint_w >= 3,
        ctx.footprint_d >= 3,
        0 <= q < blueprint.live().len(),
    ensures
        ({
            let room = blueprint.live()[q];
            let s = storey_works(x_id, y_id, seed, floor, role, core, ctx, blueprint, shafts);
            let units = storey_units(x_id, y_id, seed, floor, ctx, blueprint, shafts);
            ||| count_kind(s.placed, room.kind) >= room.min_count
            ||| forall|i: int|
                0 <= i < units.len() ==> fits_nowhere(s.plan, #[trigger] units[i], room)
        }),
{
    let (w, d) = (ctx.footprint_w as int, ctx.footprint_d as int);
    let region = room_region(blueprint, w, d);
    let rooms = blueprint.live();
    let door_base = storey_hash(x_id, y_id, seed, floor, crate::hash::domain::LAYOUT_DOOR);
    let brief = storey_brief(x_id, y_id, seed, floor, ctx, blueprint, shafts);
    let units = storey_units(x_id, y_id, seed, floor, ctx, blueprint, shafts);
    lemma_units_inside(region, blueprint.unit_max, shafts, brief.base);
    let start = Works {
        plan: shell(w, d, role, core, ctx.door_side, blueprint, door_base),
        placed: seq![],
        draw: FIRST_NEED_DRAW as int,
    };
    crate::interior::laws::lemma_shell(w, d, role, core, ctx.door_side, blueprint, door_base);
    let needs = least_counts(rooms);
    let left = lemma_minimums(brief, start, units, needs, 0, q, region);
    let a = brief.minimums(start, units, needs, 0);
    let t = brief.fill_units(a, units, 0);
    law_forced_is_least(rooms);
    lemma_units_hold_rooms(brief, a, units, 0, region, forced_choice(rooms)->0);
    lemma_count_extends(a.placed, t.placed, rooms[q].kind);
    lemma_keeps_units(brief, a, units, 0, region);
    if left > 0 {
        assert forall|i: int| 0 <= i < units.len() implies fits_nowhere(
            t.plan,
            #[trigger] units[i],
            rooms[q],
        ) by {
            lemma_fits_nowhere_keeps(a.plan, t.plan, units[i], rooms[q], region);
        }
    }
}

} // verus!
