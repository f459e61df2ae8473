//! What holds of the filling of units: tags steer the rooms, and no unit is
//! left without a room that it could have.
use crate::interior::draw::{first, lemma_first_hit, lemma_some_first};
use crate::interior::laws::{
    evolves, inside_region, keeps, lemma_keeps_unit_door, lemma_keeps_units, lemma_units_inside,
    storey_works,
};
use crate::interior::placement::{
    allowed, anchors_of, best_size, drawn_length, fits, fits_at, forced_choice, gap, in_pool,
    is_best, is_least, least_area, placed_at, preferred, region_cell,
};
use crate::interior::steering::suits;
use crate::interior::storey::{
    has_room, least_counts, lemma_needed_site, lemma_placed_at, lemma_rolled_site, room_region,
    shell, Brief, PlacedRoom, Works, FIRST_NEED_DRAW,
};
use crate::interior::units::{capped, units_of, PlaceRegion};
use crate::layout::{
    Blueprint, BlueprintRoom, FloorRole, InteriorContext, Plan, Tile,
};
use vstd::prelude::*;

verus! {

/// A needed room stands where it suits it, unless no anchor takes it where it
/// does.
pub proof fn law_tags_steer_needed(
    brief: Brief,
    s: Works,
    anchors: Seq<(int, int)>,
    room: BlueprintRoom,
    unit: PlaceRegion,
)
    ensures
        brief.needed_site(s, anchors, room, unit) matches Some(i) ==> {
            let r = brief.at_anchor(s.plan, anchors[i], room, unit, s.draw, true);
            &&& r is Some
            &&& suits(s.plan, room, r->0, brief.side) || forall|j: int|
                0 <= j < anchors.len() ==> !#[trigger] brief.pleases(
                    s.plan,
                    anchors,
                    room,
                    unit,
                    s.draw,
                    true,
                )(j)
        },
{
    let n = anchors.len() as int;
    let well = brief.pleases(s.plan, anchors, room, unit, s.draw, true);
    lemma_needed_site(brief, s, anchors, room, unit);
    lemma_first_hit(n, well);
    if let Some(i) = first(n, well) {
        assert(well(i));
    } else {
        assert forall|j: int| 0 <= j < n implies !#[trigger] well(j) by {
            if well(j) {
                lemma_some_first(n, well, j);
            }
        }
    }
}

/// A rolled room stands where it suits it, unless none of the first 128
/// anchors takes it where it does.
pub proof fn law_tags_steer_rolled(
    brief: Brief,
    p: Plan,
    anchors: Seq<(int, int)>,
    room: BlueprintRoom,
    unit: PlaceRegion,
    kk: int,
    k: int,
)
    requires
        0 <= k < anchors.len(),
        brief.at_anchor(p, anchors[k], room, unit, kk, false) is Some,
    ensures
        ({
            let i = brief.rolled_site(p, anchors, room, unit, kk, k);
            let r = brief.at_anchor(p, anchors[i], room, unit, kk, false);
            &&& r is Some
            &&& suits(p, room, r->0, brief.side) || forall|j: int|
                0 <= j < capped(anchors.len() as int, 128) ==> !#[trigger] brief.pleases(
                    p,
                    anchors,
                    room,
                    unit,
                    kk,
                    false,
                )(j)
        }),
{
    let n = capped(anchors.len() as int, 128);
    let well = brief.pleases(p, anchors, room, unit, kk, false);
    lemma_rolled_site(brief, p, anchors, room, unit, kk, k);
    lemma_first_hit(n, well);
    if !well(k) {
        if let Some(i) = first(n, well) {
            assert(well(i));
        } else {
            assert forall|j: int| 0 <= j < n implies !#[trigger] well(j) by {
                if well(j) {
                    lemma_some_first(n, well, j);
                }
            }
        }
    }
}

/// A forced room stands where it suits it, unless no cell of the unit takes it
/// where it does.
pub proof fn law_tags_steer_forced(
    brief: Brief,
    p: Plan,
    unit: PlaceRegion,
    room: BlueprintRoom,
)
    ensures
        brief.forced_site(p, unit, room) matches Some(i) ==> brief.forces_well(p, unit, room)(i)
            || forall|j: int|
            0 <= j < unit.w * unit.d ==> !#[trigger] brief.forces_well(p, unit, room)(j),
{
    let n = unit.w * unit.d;
    let well = brief.forces_well(p, unit, room);
    lemma_first_hit(n, well);
    if let Some(i) = first(n, well) {
        assert(well(i));
    } else {
        assert forall|j: int| 0 <= j < n implies !#[trigger] well(j) by {
            if well(j) {
                lemma_some_first(n, well, j);
            }
        }
    }
}

/// Where a size can be had, there is one to take.
pub proof fn lemma_best_exists(
    room: BlueprintRoom,
    aim: (int, int),
    can: spec_fn((int, int)) -> bool,
    s: (int, int),
)
    requires
        allowed(room, s),
        can(s),
    ensures
        best_size(room, aim, can) is Some,
    decreases (gap(s.0, aim.0) + gap(s.1, aim.1)) * 0x1_0000 + s.0 * 256 + s.1,
{
    if !is_best(room, aim, can, s) {
        let t = choose|t: (int, int)|
            allowed(room, t) && #[trigger] can(t) && t != s && !preferred(s, t, aim);
        assert(preferred(t, s, aim));
        lemma_best_exists(room, aim, can, t);
    }
}

/// Where a room finds no place with its corner at a cell, none of its sizes
/// fits there.
pub proof fn lemma_nothing_fits(
    p: Plan,
    ax: u8,
    az: u8,
    room: BlueprintRoom,
    region: PlaceRegion,
    base: u64,
    k: int,
    w: int,
    d: int,
)
    requires
        placed_at(p, ax, az, room, region, base, k) is None,
        allowed(room, (w, d)),
        w > 0,
        d > 0,
    ensures
        !fits(p, ax as int, az as int, w, d, region),
{
    let can = fits_at(p, ax as int, az as int, region);
    if fits(p, ax as int, az as int, w, d, region) {
        assert(can((w, d)));
        let aim = (
            drawn_length(room.min_w, room.max_w, base, k * 2),
            drawn_length(room.min_d, room.max_d, base, k * 2 + 1),
        );
        lemma_best_exists(room, aim, can, (w, d));
    }
}

/// Does the template fit at no cell of the unit, in none of its sizes?
pub open spec fn fits_nowhere(p: Plan, unit: PlaceRegion, room: BlueprintRoom) -> bool {
    forall|x: int, z: int, w: int, d: int|
        unit.covers((x, z)) && 0 < w && 0 < d && allowed(room, (w, d)) ==> !#[trigger] fits(
            p,
            x,
            z,
            w,
            d,
            unit,
        )
}

/// Carving on makes no space.
pub proof fn lemma_fits_nowhere_keeps(
    p: Plan,
    q: Plan,
    unit: PlaceRegion,
    room: BlueprintRoom,
    region: PlaceRegion,
)
    requires
        keeps(p, q, region),
        fits_nowhere(p, unit, room),
    ensures
        fits_nowhere(q, unit, room),
{
    assert forall|x: int, z: int, w: int, d: int|
        unit.covers((x, z)) && 0 < w && 0 < d && allowed(room, (w, d)) implies !#[trigger] fits(
        q,
        x,
        z,
        w,
        d,
        unit,
    ) by {
        if fits(q, x, z, w, d, unit) {
            assert forall|c: (int, int)| #[trigger]
                crate::interior::grid::within(c, x, z, x + w, z + d) implies p.has(c) && p.tiles[c]
                == Tile::Void by {
                assert(q.has(c) && q.tiles[c] == Tile::Void);
                assert(evolves(p.tiles[c], q.tiles[c]));
            }
            assert forall|c: (int, int)| #[trigger]
                crate::interior::grid::within(c, x - 1, z - 1, x + w + 1, z + d + 1) && p.has(
                    c,
                ) implies p.tiles[c] != Tile::Room by {
                assert(evolves(p.tiles[c], q.tiles[c]));
                assert(q.has(c));
            }
            assert(fits(p, x, z, w, d, unit));
        }
    }
}

/// A room that is forced into a unit begins there; where none can be, the
/// template fits nowhere.
proof fn lemma_guarantee(brief: Brief, s: Works, unit: PlaceRegion, room: BlueprintRoom)
    requires
        unit.bounded(),
        forced_choice(brief.rooms) == Some(room),
    ensures
        ({
            let t = brief.guaranteed(s, unit);
            has_room(t.placed, unit) || fits_nowhere(t.plan, unit, room)
        }),
{
    let p = s.plan;
    let t = brief.guaranteed(s, unit);
    let n = unit.w * unit.d;
    let hit = brief.forces(p, unit, room);
    if !has_room(s.placed, unit) {
        match brief.forced_site(p, unit, room) {
            Some(i) => {
                crate::interior::storey::lemma_forced_site(brief, p, unit, room);
                assert(hit(i));
                let c = region_cell(unit, i);
                crate::interior::grid::lemma_cell_of_place(i, unit.w as int, unit.d as int);
                lemma_placed_at(p, c.0 as u8, c.1 as u8, room, unit, brief.base, 999_983);
                let last = t.placed[s.placed.len() as int];
                assert(unit.holds(last.x0 as int, last.z0 as int, 1, 1));
            },
            None => {
                assert forall|x: int, z: int, w: int, d: int|
                    unit.covers((x, z)) && 0 < w && 0 < d && allowed(room, (w, d)) implies
                    !#[trigger] fits(p, x, z, w, d, unit) by {
                    if fits(p, x, z, w, d, unit) {
                        let (a, b) = (x - unit.x0, z - unit.z0);
                        let i = b * unit.w + a;
                        assert(0 <= i < n) by (nonlinear_arith)
                            requires
                                0 <= a < unit.w,
                                0 <= b < unit.d,
                                i == b * unit.w + a,
                                n == unit.w * unit.d,
                        ;
                        vstd::arithmetic::div_mod::lemma_fundamental_div_mod_converse(
                            i,
                            unit.w as int,
                            b,
                            a,
                        );
                        assert(region_cell(unit, i) == (x, z));
                        assert(crate::interior::grid::within((x, z), x, z, x + w, z + d));
                        if placed_at(p, x as u8, z as u8, room, unit, brief.base, 999_983) is None {
                            lemma_nothing_fits(
                                p,
                                x as u8,
                                z as u8,
                                room,
                                unit,
                                brief.base,
                                999_983,
                                w,
                                d,
                            );
                        }
                        assert(hit(i));
                        lemma_some_first(n, hit, i);
                    }
                }
            },
        }
    }
}

/// No unit is left without a room that it could have: once a unit is filled,
/// some room has its corner in it, or the template that is forced into such
/// units fits nowhere in it.
pub proof fn law_unit_guarantee(
    brief: Brief,
    s: Works,
    unit: PlaceRegion,
    u: int,
    room: BlueprintRoom,
)
    requires
        unit.bounded(),
        forced_choice(brief.rooms) == Some(room),
    ensures
        ({
            let t = brief.fill_unit(s, unit, u);
            has_room(t.placed, unit) || fits_nowhere(t.plan, unit, room)
        }),
{
    let a = brief.roll_unit(s, unit, u);
    let b = brief.guaranteed(a, unit);
    let t = brief.fill_unit(s, unit, u);
    lemma_guarantee(brief, a, unit, room);
    if !has_room(b.placed, unit) {
        lemma_keeps_unit_door(b.plan, unit, brief.base.wrapping_add(u as u64), unit);
        lemma_fits_nowhere_keeps(b.plan, t.plan, unit, room, unit);
    }
}

/// Rooms that were placed stay placed.
pub open spec fn extends(a: Seq<PlacedRoom>, b: Seq<PlacedRoom>) -> bool {
    a.len() <= b.len() && forall|i: int| 0 <= i < a.len() ==> #[trigger] a[i] == b[i]
}

proof fn lemma_roll_extends(
    brief: Brief,
    s: Works,
    anchors: Seq<(int, int)>,
    unit: PlaceRegion,
    u: int,
    k: int,
    steered: bool,
)
    requires
        0 <= k,
    ensures
        extends(s.placed, brief.roll_on(s, anchors, unit, u, k, steered).placed),
    decreases anchors.len() - k,
{
    if k < anchors.len() && k < 128 {
        let next = brief.roll_at(s, anchors, unit, u, k, steered);
        lemma_roll_at_extends(brief, s, anchors, unit, u, k, steered);
        lemma_roll_extends(brief, next, anchors, unit, u, k + 1, steered);
        lemma_extends_on(
            s.placed,
            next.placed,
            brief.roll_on(next, anchors, unit, u, k + 1, steered).placed,
        );
    }
}

proof fn lemma_extends_on(a: Seq<PlacedRoom>, b: Seq<PlacedRoom>, c: Seq<PlacedRoom>)
    requires
        extends(a, b),
        extends(b, c),
    ensures
        extends(a, c),
{
    assert forall|i: int| 0 <= i < a.len() implies #[trigger] a[i] == c[i] by {
        assert(b[i] == c[i]);
    }
}

proof fn lemma_roll_at_extends(
    brief: Brief,
    s: Works,
    anchors: Seq<(int, int)>,
    unit: PlaceRegion,
    u: int,
    k: int,
    steered: bool,
)
    ensures
        extends(s.placed, brief.roll_at(s, anchors, unit, u, k, steered).placed),
{
}

/// Every unit from `u` on has a room once all are filled, or could not have
/// one; and a unit that had one before still has.
pub proof fn lemma_units_hold_rooms(
    brief: Brief,
    s: Works,
    units: Seq<PlaceRegion>,
    u: int,
    region: PlaceRegion,
    room: BlueprintRoom,
)
    requires
        0 <= u,
        forall|i: int| 0 <= i < units.len() ==> inside_region(#[trigger] units[i], region),
        forced_choice(brief.rooms) == Some(room),
    ensures
        ({
            let t = brief.fill_units(s, units, u);
            &&& extends(s.placed, t.placed)
            &&& forall|i: int|
                u <= i < units.len() ==> has_room(t.placed, #[trigger] units[i]) || fits_nowhere(
                    t.plan,
                    units[i],
                    room,
                )
        }),
    decreases units.len() - u,
{
    if u < units.len() {
        let unit = units[u];
        assert(inside_region(unit, region));
        let anchors = anchors_of(s.plan, unit, brief.base, u);
        let half = brief.roll_on(s, anchors, unit, u, 0, true);
        let a = brief.roll_unit(s, unit, u);
        let next = brief.fill_unit(s, unit, u);
        lemma_roll_extends(brief, s, anchors, unit, u, 0, true);
        lemma_roll_extends(brief, half, anchors, unit, u, 0, false);
        lemma_extends_on(s.placed, half.placed, a.placed);
        assert(extends(a.placed, brief.guaranteed(a, unit).placed));
        assert(extends(s.placed, next.placed));
        law_unit_guarantee(brief, s, unit, u, room);
        lemma_units_hold_rooms(brief, next, units, u + 1, region, room);
        lemma_keeps_units(brief, next, units, u + 1, region);
        let t = brief.fill_units(s, units, u);
        if has_room(next.placed, unit) {
            let i = choose|i: int|
                0 <= i < next.placed.len() && unit.holds(
                    (#[trigger] next.placed[i]).x0 as int,
                    next.placed[i].z0 as int,
                    1,
                    1,
                );
            assert(next.placed[i] == t.placed[i]);
        } else {
            lemma_fits_nowhere_keeps(next.plan, t.plan, unit, room, region);
        }
    }
}

/// No unit of a storey is left without a room that it could have: some room
/// has its corner in the unit, or the template that is forced into such units
/// fits nowhere in it.
pub proof fn law_units_hold_rooms(
    x_id: i64,
    y_id: i64,
    seed: u64,
    floor: u8,
    role: FloorRole,
    core: (u8, u8, u8),
    ctx: InteriorContext,
    blueprint: Blueprint,
    shafts: Seq<u8>,
)
    requires
        ctx.footprint_w >= 3,
        ctx.footprint_d >= 3,
        blueprint.live().len() > 0,
    ensures
        forced_choice(blueprint.live()) matches Some(room) && {
            let s = storey_works(x_id, y_id, seed, floor, role, core, ctx, blueprint, shafts);
            let units = units_of(
                room_region(blueprint, ctx.footprint_w as int, ctx.footprint_d as int),
                blueprint.unit_max as int,
                shafts,
                crate::interior::draw::storey_hash(
                    x_id,
                    y_id,
                    seed,
                    floor,
                    crate::hash::domain::LAYOUT_ROOM,
                ),
            );
            forall|i: int|
                0 <= i < units.len() ==> has_room(s.placed, #[trigger] units[i]) || fits_nowhere(
                    s.plan,
                    units[i],
                    room,
                )
        },
{
    let (w, d) = (ctx.footprint_w as int, ctx.footprint_d as int);
    let region = room_region(blueprint, w, d);
    let rooms = blueprint.live();
    let door_base = crate::interior::draw::storey_hash(
        x_id,
        y_id,
        seed,
        floor,
        crate::hash::domain::LAYOUT_DOOR,
    );
    let base = crate::interior::draw::storey_hash(
        x_id,
        y_id,
        seed,
        floor,
        crate::hash::domain::LAYOUT_ROOM,
    );
    law_forced_is_least(rooms);
    let room = forced_choice(rooms)->0;
    let brief = Brief { rooms, shafts, base, side: ctx.door_side };
    let units = units_of(region, blueprint.unit_max as int, shafts, base);
    lemma_units_inside(region, blueprint.unit_max, shafts, base);
    let start = Works {
        plan: shell(w, d, role, core, ctx.door_side, blueprint, door_base),
        placed: seq![],
        draw: FIRST_NEED_DRAW as int,
    };
    let a = brief.minimums(start, units, least_counts(rooms), 0);
    lemma_units_hold_rooms(brief, a, units, 0, region, room);
}

/// Some template of a pool has the least footprint of it, if the pool has any.
pub proof fn lemma_least_exists(rooms: Seq<BlueprintRoom>, dry: bool, i: int)
    requires
        0 <= i < rooms.len(),
        in_pool(rooms, dry, i),
    ensures
        first(rooms.len() as int, is_least(rooms, dry)) is Some,
    decreases least_area(rooms[i]),
{
    let hit = is_least(rooms, dry);
    assert(least_area(rooms[i]) >= 0) by (nonlinear_arith)
        requires
            least_area(rooms[i]) == rooms[i].min_w * rooms[i].min_d,
    ;
    if hit(i) {
        lemma_some_first(rooms.len() as int, hit, i);
    } else {
        let j = choose|j: int|
            0 <= j < rooms.len() && #[trigger] in_pool(rooms, dry, j) && least_area(rooms[j])
                < least_area(rooms[i]);
        assert(least_area(rooms[j]) >= 0) by (nonlinear_arith)
            requires
                least_area(rooms[j]) == rooms[j].min_w * rooms[j].min_d,
        ;
        lemma_least_exists(rooms, dry, j);
    }
}

/// The template forced into a unit is one of the templates, and the one with
/// the least footprint: among those without plumbing, or among all where every
/// template has it.
pub proof fn law_forced_is_least(rooms: Seq<BlueprintRoom>)
    requires
        rooms.len() > 0,
    ensures
        forced_choice(rooms) matches Some(room) && {
            &&& rooms.contains(room)
            &&& forall|k: int|
                0 <= k < rooms.len() && !(#[trigger] rooms[k]).is_wet() ==> !room.is_wet()
                    && least_area(room) <= least_area(rooms[k])
            &&& room.is_wet() ==> forall|k: int|
                0 <= k < rooms.len() ==> least_area(room) <= least_area(#[trigger] rooms[k])
        },
{
    let n = rooms.len() as int;
    let (dry, any) = (is_least(rooms, true), is_least(rooms, false));
    lemma_first_hit(n, dry);
    lemma_first_hit(n, any);
    assert(in_pool(rooms, false, 0));
    lemma_least_exists(rooms, false, 0);
    assert forall|k: int| 0 <= k < n && !(#[trigger] rooms[k]).is_wet() implies first(
        n,
        dry,
    ) is Some by {
        assert(in_pool(rooms, true, k));
        lemma_least_exists(rooms, true, k);
    }
    let room = forced_choice(rooms)->0;
    if let Some(i) = first(n, dry) {
        assert(dry(i));
        assert(rooms[i] == room);
        assert forall|k: int| 0 <= k < n && !(#[trigger] rooms[k]).is_wet() implies least_area(room)
            <= least_area(rooms[k]) by {
            assert(in_pool(rooms, true, k));
        }
    } else {
        let i = first(n, any)->0;
        assert(any(i));
        assert(rooms[i] == room);
        assert forall|k: int| 0 <= k < n implies least_area(room) <= least_area(
            #[trigger] rooms[k],
        ) by {
            assert(in_pool(rooms, false, k));
        }
    }
}

} // verus!
