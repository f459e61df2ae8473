//! How rooms are sized, where they please, and what stands in them.
use crate::hash::domain;
use crate::interior::draw::{first, lemma_first_hit, storey_hash, stream_index, stream_unit};
use crate::interior::filling::lemma_least_exists;
use crate::interior::furniture::{second_roll, under_first, under_second};
use crate::interior::grid::{
    boundary_cell, boundary_len, outward_cell, unit_door_cell, unit_door_site, walked, within,
};
use crate::interior::laws::{
    beside, finished, in_room, law_storey, lemma_equipped, lemma_finished, lemma_keeps_furnished,
    lemma_shell, storey_rooms, storey_works,
};
use crate::interior::placement::{
    allowed, best_size, drawn_length, fits, fits_at, gap, in_pool, is_best, is_least, least_area,
    least_template, placed_at, Rect,
};
use crate::interior::steering::{at_ring, at_street_edge, beside_core, in_entrance_half, suits};
use crate::interior::storey::{room_region, shell, storey};
use crate::interior::units::PlaceRegion;
use crate::layout::{
    fitting, Blueprint, BlueprintRoom, DoorSide, FloorRole, InteriorContext, Plan, Tile, FURN_BATH,
    FURN_BED, FURN_NONE, FURN_SHELF, TAG_PUBLIC, TAG_QUIET, TAG_STREET,
};
use crate::single::order::{
    is_binary, lemma_binary_product, lemma_binary_sign,
};
use crate::single::{lemma_single, single, F32};
use vstd::arithmetic::power2::{lemma_pow2_adds, lemma_pow2_pos, pow2};
use vstd::prelude::*;

verus! {

/// Lengths are drawn evenly: where the draw is `r` over 4096, the length is
/// that part of the possible ones, from the least on.
pub proof fn law_lengths_are_even(least: u8, most: u8, base: u64, k: int, r: int)
    requires
        least <= most,
        is_binary(stream_unit(base, k), r, 12),
        0 <= r < 4096,
    ensures
        drawn_length(least, most, base, k) == least + (r * (most - least + 1)) / 4096,
        least <= drawn_length(least, most, base, k) <= most,
{
    let n = most - least + 1;
    let u = stream_unit(base, k);
    let x = F32::integer(n as nat);
    lemma_single();
    assert(is_binary(x, n, 0)) by {
        reveal(F32::integer);
        crate::float::lemma_pow2_values();
        vstd::arithmetic::power2::lemma_pow2_unfold(24);
        crate::float::lemma_rounded_exact(single(), n as nat, 149);
    }
    assert(0 <= r * n < 0x10_0000 && r * n < 4096 * n) by (nonlinear_arith)
        requires
            0 <= r < 4096,
            1 <= n <= 256,
    ;
    lemma_binary_product(u, x, r, n, 12, 0);
    let y = u.product(x);
    lemma_binary_sign(y, r * n, 12);
    reveal(F32::floor_within);
    let p = pow2(137);
    lemma_pow2_pos(137);
    lemma_pow2_adds(12, 137);
    vstd::arithmetic::power2::lemma2_to64();
    let q = (r * n) / 4096;
    let e = (r * n) % 4096;
    assert((r * n) * p == q * (4096 * p) + e * p && 0 <= e * p < 4096 * p) by (nonlinear_arith)
        requires
            r * n == 4096 * q + e,
            0 <= e < 4096,
            p > 0,
    ;
    vstd::arithmetic::div_mod::lemma_fundamental_div_mod_converse(
        (r * n) * p,
        (4096 * p) as int,
        q,
        e * p,
    );
    assert(0 <= q < n) by (nonlinear_arith)
        requires
            r * n == 4096 * q + e,
            0 <= e < 4096,
            0 <= r * n < 4096 * n,
    ;
    let b = y.bits as u64;
    if crate::float::negative(single(), b) {
        crate::float::laws::lemma_zero(single());
        assert(r * n == 0) by {
            assert((r * n) * p <= 0);
            assert(r * n <= 0) by (nonlinear_arith)
                requires
                    (r * n) * p <= 0,
                    p > 0,
            ;
        }
    }
}

/// A room placed at a cell has its corner there and one of the sizes that its
/// template allows; it fits, and no size that fits and is allowed is nearer
/// to the one that was drawn.
pub proof fn law_rooms_take_the_nearest_size(
    p: Plan,
    ax: u8,
    az: u8,
    room: BlueprintRoom,
    region: PlaceRegion,
    base: u64,
    k: int,
    s: (int, int),
)
    requires
        region.bounded(),
        allowed(room, s),
        0 < s.0,
        0 < s.1,
    ensures
        ({
            let aim = (
                drawn_length(room.min_w, room.max_w, base, k * 2),
                drawn_length(room.min_d, room.max_d, base, k * 2 + 1),
            );
            match placed_at(p, ax, az, room, region, base, k) {
                Some((x, z, w, d)) => {
                    &&& x == ax && z == az
                    &&& room.min_w <= w <= room.max_w && room.min_d <= d <= room.max_d
                    &&& fits(p, ax as int, az as int, w as int, d as int, region)
                    &&& fits(p, ax as int, az as int, s.0, s.1, region) ==> gap(w as int, aim.0)
                        + gap(d as int, aim.1) <= gap(s.0, aim.0) + gap(s.1, aim.1)
                },
                None => !fits(p, ax as int, az as int, s.0, s.1, region),
            }
        }),
{
    let aim = (
        drawn_length(room.min_w, room.max_w, base, k * 2),
        drawn_length(room.min_d, room.max_d, base, k * 2 + 1),
    );
    let can = fits_at(p, ax as int, az as int, region);
    if placed_at(p, ax, az, room, region, base, k) is Some {
        let t = best_size(room, aim, can)->0;
        assert(is_best(room, aim, can, t));
        assert(can(t));
        if fits(p, ax as int, az as int, s.0, s.1, region) {
            assert(can(s));
        }
    } else if fits(p, ax as int, az as int, s.0, s.1, region) {
        crate::interior::filling::lemma_nothing_fits(p, ax, az, room, region, base, k, s.0, s.1);
    }
}

/// Is the cell on the side of the ring that faces the street?
pub open spec fn on_side(p: Plan, side: DoorSide, c: (int, int)) -> bool {
    match side {
        DoorSide::West => c.0 == 0,
        DoorSide::East => c.0 == p.w - 1,
        DoorSide::North => c.1 == 0,
        DoorSide::South => c.1 == p.d - 1,
    }
}

/// Does a cell of the room share an edge with that side of the ring?
pub open spec fn touches(p: Plan, r: Rect, side: DoorSide) -> bool {
    exists|c: (int, int), e: (int, int)|
        within(c, r.0 as int, r.1 as int, r.0 + r.2, r.1 + r.3) && #[trigger] beside(c, e)
            && on_side(p, side, e)
}

/// The free ground between the room and that side of the grid.
pub open spec fn clearance(p: Plan, r: Rect, side: DoorSide) -> int {
    match side {
        DoorSide::West => r.0 as int,
        DoorSide::East => p.w - (r.0 + r.2),
        DoorSide::North => r.1 as int,
        DoorSide::South => p.d - (r.1 + r.3),
    }
}

/// The side across.
pub open spec fn across(side: DoorSide) -> DoorSide {
    match side {
        DoorSide::West => DoorSide::East,
        DoorSide::East => DoorSide::West,
        DoorSide::North => DoorSide::South,
        DoorSide::South => DoorSide::North,
    }
}

proof fn lemma_touches(p: Plan, r: Rect, side: DoorSide)
    requires
        1 <= r.0,
        1 <= r.1,
        r.0 + r.2 <= p.w - 1,
        r.1 + r.3 <= p.d - 1,
        r.2 > 0,
        r.3 > 0,
    ensures
        touches(p, r, side) <==> at_street_edge(p, r, side),
{
    if at_street_edge(p, r, side) {
        let (c, e) = match side {
            DoorSide::West => ((r.0 as int, r.1 as int), (r.0 - 1, r.1 as int)),
            DoorSide::East => ((r.0 + r.2 - 1, r.1 as int), (r.0 + r.2 as int, r.1 as int)),
            DoorSide::North => ((r.0 as int, r.1 as int), (r.0 as int, r.1 - 1)),
            DoorSide::South => ((r.0 as int, r.1 + r.3 - 1), (r.0 as int, r.1 + r.3 as int)),
        };
        assert(beside(c, e));
        assert(within(c, r.0 as int, r.1 as int, r.0 + r.2, r.1 + r.3));
        assert(on_side(p, side, e));
    }
}

/// A place suits a room by what its cells are beside: a quiet room neither
/// touches the street side nor is next to the core, a public one is no nearer
/// to the side across than to the street side, and a street room touches some
/// side.
pub proof fn law_places_suit(p: Plan, room: BlueprintRoom, r: Rect, side: DoorSide)
    requires
        1 <= r.0,
        1 <= r.1,
        r.0 + r.2 <= p.w - 1,
        r.1 + r.3 <= p.d - 1,
        r.2 > 0,
        r.3 > 0,
    ensures
        suits(p, room, r, side) <==> {
            &&& room.tags & TAG_QUIET != 0 ==> {
                &&& !touches(p, r, side)
                &&& forall|c: (int, int)|
                    p.has(c) && r.0 - 1 <= c.0 <= r.0 + r.2 && r.1 - 1 <= c.1 <= r.1 + r.3
                        ==> #[trigger] p.tiles[c] != Tile::Core
            }
            &&& room.tags & TAG_PUBLIC != 0 ==> clearance(p, r, side) <= clearance(
                p,
                r,
                across(side),
            )
            &&& room.tags & TAG_STREET != 0 ==> touches(p, r, DoorSide::West) || touches(
                p,
                r,
                DoorSide::East,
            ) || touches(p, r, DoorSide::North) || touches(p, r, DoorSide::South)
        },
{
    lemma_touches(p, r, side);
    lemma_touches(p, r, DoorSide::West);
    lemma_touches(p, r, DoorSide::East);
    lemma_touches(p, r, DoorSide::North);
    lemma_touches(p, r, DoorSide::South);
    if beside_core(p, r) {
        let c = choose|c: (int, int)| #[trigger]
            within(c, r.0 - 1, r.1 - 1, r.0 + r.2 + 1, r.1 + r.3 + 1) && p.has(c) && p.tiles[c]
                == Tile::Core;
        assert(p.tiles[c] == Tile::Core);
    } else {
        assert forall|c: (int, int)|
            p.has(c) && r.0 - 1 <= c.0 <= r.0 + r.2 && r.1 - 1 <= c.1 <= r.1 + r.3
                implies #[trigger] p.tiles[c] != Tile::Core by {
            assert(within(c, r.0 - 1, r.1 - 1, r.0 + r.2 + 1, r.1 + r.3 + 1));
        }
    }
    assert(in_entrance_half(p, r, side) <==> clearance(p, r, side) <= clearance(
        p,
        r,
        across(side),
    ));
    assert(at_ring(p, r) <==> at_street_edge(p, r, DoorSide::West) || at_street_edge(
        p,
        r,
        DoorSide::East,
    ) || at_street_edge(p, r, DoorSide::North) || at_street_edge(p, r, DoorSide::South));
}

/// Every kind of room has a first piece that is one, of a cell at least and
/// three at most along a side, and at most one cell for a second. Beds stand
/// in bedrooms first and baths in bathrooms, and nowhere else.
pub proof fn law_fittings(kind: u8)
    ensures
        ({
            let (a, b) = fitting(kind);
            &&& FURN_NONE < a.0 <= FURN_BATH
            &&& 1 <= a.1 <= 3 && 1 <= a.2 <= 3
            &&& b.0 == FURN_NONE || (b.0 <= FURN_SHELF && b.1 == 1 && b.2 == 1)
            &&& a.0 == FURN_BED <==> kind == 22
            &&& a.0 == FURN_BATH <==> kind == 23
        }),
{
}

/// A room that has the space for its first piece has it in the near corner.
pub proof fn law_first_piece(
    x_id: i64,
    y_id: i64,
    seed: u64,
    floor: u8,
    role: FloorRole,
    core: (u8, u8, u8),
    ctx: InteriorContext,
    blueprint: Blueprint,
    shafts: Seq<u8>,
    i: int,
    c: (int, int),
)
    requires
        ctx.footprint_w >= 3,
        ctx.footprint_d >= 3,
        0 <= i < storey_rooms(x_id, y_id, seed, floor, role, core, ctx, blueprint, shafts).len(),
        ({
            let r = storey_rooms(x_id, y_id, seed, floor, role, core, ctx, blueprint, shafts)[i];
            let a = fitting(r.kind).0;
            &&& a.1 <= r.w && a.2 <= r.d
            &&& r.x0 <= c.0 < r.x0 + a.1 && r.z0 <= c.1 < r.z0 + a.2
        }),
    ensures
        storey(x_id, y_id, seed, floor, role, core, ctx, blueprint, shafts).furn[c] == fitting(
            storey_rooms(x_id, y_id, seed, floor, role, core, ctx, blueprint, shafts)[i].kind,
        ).0.0,
{
    law_storey(x_id, y_id, seed, floor, role, core, ctx, blueprint, shafts);
    let r = storey_rooms(x_id, y_id, seed, floor, role, core, ctx, blueprint, shafts)[i];
    law_fittings(r.kind);
    assert(in_room(c, r));
    assert(under_first(r, c));
}

/// A room that has the space for its second piece, past the first along some
/// side, has it in the far corner: always at a density of a hundred, never at
/// none.
pub proof fn law_second_piece(
    x_id: i64,
    y_id: i64,
    seed: u64,
    floor: u8,
    role: FloorRole,
    core: (u8, u8, u8),
    ctx: InteriorContext,
    blueprint: Blueprint,
    shafts: Seq<u8>,
    i: int,
)
    requires
        ctx.footprint_w >= 3,
        ctx.footprint_d >= 3,
        0 <= i < storey_rooms(x_id, y_id, seed, floor, role, core, ctx, blueprint, shafts).len(),
    ensures
        ({
            let r = storey_rooms(x_id, y_id, seed, floor, role, core, ctx, blueprint, shafts)[i];
            let p = storey(x_id, y_id, seed, floor, role, core, ctx, blueprint, shafts);
            let (a, b) = fitting(r.kind);
            let far = (r.x0 + r.w - 1, r.z0 + r.d - 1);
            &&& blueprint.furn_density >= 100 && b.0 != FURN_NONE && r.w >= a.1 + 1 && r.d >= a.2
                ==> p.furn[far] == b.0
            &&& blueprint.furn_density >= 100 && b.0 != FURN_NONE && r.w >= a.1 && r.d >= a.2 + 1
                ==> p.furn[far] == b.0
            &&& blueprint.furn_density == 0 ==> forall|c: (int, int)| #[trigger]
                in_room(c, r) ==> p.furn[c] == FURN_NONE || p.furn[c] == a.0 && c.0 < r.x0 + a.1
                    && c.1 < r.z0 + a.2
        }),
{
    law_storey(x_id, y_id, seed, floor, role, core, ctx, blueprint, shafts);
    let r = storey_rooms(x_id, y_id, seed, floor, role, core, ctx, blueprint, shafts)[i];
    let base = storey_hash(x_id, y_id, seed, floor, domain::LAYOUT_FURNITURE);
    let (a, b) = fitting(r.kind);
    let far = (r.x0 + r.w - 1, r.z0 + r.d - 1);
    law_fittings(r.kind);
    assert(0 <= second_roll(r, base) < 100) by {
        vstd::arithmetic::div_mod::lemma_mod_bound(
            crate::hash::coord_hash(
                base as i64,
                #[verifier::truncate] ((r.z0 * 256 + r.x0) as i64),
                0,
                0,
            ) as int,
            100,
        );
    }
    if blueprint.furn_density >= 100 && b.0 != FURN_NONE && r.w >= a.1 && r.d >= a.2 && (r.w
        > a.1 || r.d > a.2) {
        assert(in_room(far, r));
        assert(under_second(r, base, blueprint.furn_density, far));
        assert(!under_first(r, far));
    }
}

/// A denser table only adds pieces: two tables that differ in density alone
/// place the same rooms, and what stands under the lesser stands under the
/// greater.
pub proof fn law_density_adds_pieces(
    x_id: i64,
    y_id: i64,
    seed: u64,
    floor: u8,
    role: FloorRole,
    core: (u8, u8, u8),
    ctx: InteriorContext,
    a: Blueprint,
    b: Blueprint,
    shafts: Seq<u8>,
    c: (int, int),
)
    requires
        ctx.footprint_w >= 3,
        ctx.footprint_d >= 3,
        a == (Blueprint { furn_density: a.furn_density, ..b }),
        a.furn_density <= b.furn_density,
        0 <= c.0 < ctx.footprint_w,
        0 <= c.1 < ctx.footprint_d,
    ensures
        ({
            let p = storey(x_id, y_id, seed, floor, role, core, ctx, a, shafts);
            let q = storey(x_id, y_id, seed, floor, role, core, ctx, b, shafts);
            &&& p.tiles[c] == q.tiles[c]
            &&& p.kinds[c] == q.kinds[c]
            &&& p.furn[c] != FURN_NONE ==> q.furn[c] == p.furn[c]
        }),
{
    let p = storey(x_id, y_id, seed, floor, role, core, ctx, a, shafts);
    let q = storey(x_id, y_id, seed, floor, role, core, ctx, b, shafts);
    law_storey(x_id, y_id, seed, floor, role, core, ctx, a, shafts);
    law_storey(x_id, y_id, seed, floor, role, core, ctx, b, shafts);
    lemma_same_works(x_id, y_id, seed, floor, role, core, ctx, a, b, shafts);
    lemma_tiles(x_id, y_id, seed, floor, role, core, ctx, a, shafts);
    lemma_tiles(x_id, y_id, seed, floor, role, core, ctx, b, shafts);
    let placed = storey_rooms(x_id, y_id, seed, floor, role, core, ctx, a, shafts);
    if p.furn[c] != FURN_NONE {
        assert(p.tiles[c] == Tile::Room);
        let j = choose|j: int| 0 <= j < placed.len() && in_room(c, #[trigger] placed[j]);
        assert(in_room(c, placed[j]));
    }
}

/// Furniture aside, a storey is what its rooms leave.
proof fn lemma_tiles(
    x_id: i64,
    y_id: i64,
    seed: u64,
    floor: u8,
    role: FloorRole,
    core: (u8, u8, u8),
    ctx: InteriorContext,
    blueprint: Blueprint,
    shafts: Seq<u8>,
)
    requires
        ctx.footprint_w >= 3,
        ctx.footprint_d >= 3,
    ensures
        ({
            let p = storey(x_id, y_id, seed, floor, role, core, ctx, blueprint, shafts);
            let q = finished(
                storey_works(x_id, y_id, seed, floor, role, core, ctx, blueprint, shafts),
                role,
                core,
                storey_hash(x_id, y_id, seed, floor, domain::LAYOUT_DOOR),
            );
            p.tiles == q.tiles && p.kinds == q.kinds
        }),
{
    let (w, d) = (ctx.footprint_w as int, ctx.footprint_d as int);
    let door_base = storey_hash(x_id, y_id, seed, floor, domain::LAYOUT_DOOR);
    let room_base = storey_hash(x_id, y_id, seed, floor, domain::LAYOUT_ROOM);
    let furn_base = storey_hash(x_id, y_id, seed, floor, domain::LAYOUT_FURNITURE);
    let side = ctx.door_side;
    let region = room_region(blueprint, w, d);
    let a = shell(w, d, role, core, side, blueprint, door_base);
    lemma_shell(w, d, role, core, side, blueprint, door_base);
    let s = storey_works(x_id, y_id, seed, floor, role, core, ctx, blueprint, shafts);
    lemma_keeps_furnished(a, region, blueprint.live(), blueprint.unit_max, shafts, room_base, side);
    lemma_finished(a, s, role, core, door_base, region);
    let q = finished(s, role, core, door_base);
    lemma_equipped(q, s.placed, furn_base, blueprint.furn_density, 0, region);
}

/// The density of the furniture moves no room.
proof fn lemma_same_works(
    x_id: i64,
    y_id: i64,
    seed: u64,
    floor: u8,
    role: FloorRole,
    core: (u8, u8, u8),
    ctx: InteriorContext,
    a: Blueprint,
    b: Blueprint,
    shafts: Seq<u8>,
)
    requires
        a == (Blueprint { furn_density: a.furn_density, ..b }),
    ensures
        storey_works(x_id, y_id, seed, floor, role, core, ctx, a, shafts) == storey_works(
            x_id,
            y_id,
            seed,
            floor,
            role,
            core,
            ctx,
            b,
            shafts,
        ),
{
    let (w, d) = (ctx.footprint_w as int, ctx.footprint_d as int);
    let door_base = storey_hash(x_id, y_id, seed, floor, domain::LAYOUT_DOOR);
    assert(a.live() == b.live());
    assert(shell(w, d, role, core, ctx.door_side, a, door_base) == shell(
        w,
        d,
        role,
        core,
        ctx.door_side,
        b,
        door_base,
    ));
}

/// A unit gets a door wherever it can: where some cell of its edge is free and
/// the cell beyond it is circulation, one such cell is chosen.
pub proof fn law_units_open(p: Plan, u: PlaceRegion, base: u64, i: int)
    requires
        u.w > 0,
        u.d > 0,
        0 <= i < boundary_len(u.w as int, u.d as int),
        ({
            let c = boundary_cell(u.x0 as int, u.z0 as int, u.w as int, u.d as int, i);
            let o = outward_cell(u, i);
            p.inside(c) && p.tiles[c] == Tile::Void && p.has(o) && p.tiles[o] != Tile::Wall
                && p.tiles[o] != Tile::Room
        }),
    ensures
        unit_door_cell(p, u, base) matches Some(c) && u.covers(c) && p.tiles[c] == Tile::Void && (c.0
            == u.x0 || c.0 == u.x0 + u.w - 1 || c.1 == u.z0 || c.1 == u.z0 + u.d - 1),
{
    let n = boundary_len(u.w as int, u.d as int);
    let start = stream_index(base, 0, n);
    vstd::arithmetic::div_mod::lemma_mod_bound(
        crate::hash::coord_hash(base as i64, 0, 0, 0) as int,
        n,
    );
    let hit = unit_door_site(p, u, base);
    // The walk comes by every cell of the edge.
    let j = if i >= start {
        i - start
    } else {
        i - start + n
    };
    assert(walked(start, j, n) == i) by {
        if i >= start {
            vstd::arithmetic::div_mod::lemma_small_mod(i as nat, n as nat);
        } else {
            vstd::arithmetic::div_mod::lemma_fundamental_div_mod_converse(start + j, n, 1, i);
        }
    }
    assert(hit(j));
    crate::interior::draw::lemma_some_first(n, hit, j);
    let k = crate::interior::draw::first(n, hit)->0;
    crate::interior::draw::lemma_first_hit(n, hit);
    let b = walked(start, k, n);
    vstd::arithmetic::div_mod::lemma_mod_bound(start + k, n);
    assert(hit(k));
}

/// The smallest template is one of the templates; none has a smaller least
/// area, and none before it has as small a one.
pub proof fn law_smallest_is_least(rooms: Seq<BlueprintRoom>) -> (i: int)
    requires
        rooms.len() > 0,
    ensures
        0 <= i < rooms.len(),
        least_template(rooms, false) == Some(rooms[i]),
        forall|j: int|
            0 <= j < rooms.len() ==> rooms[i].min_w * rooms[i].min_d <= (#[trigger] rooms[j]).min_w
                * rooms[j].min_d,
        forall|j: int|
            0 <= j < i ==> rooms[i].min_w * rooms[i].min_d < (#[trigger] rooms[j]).min_w
                * rooms[j].min_d,
{
    let n = rooms.len() as int;
    let hit = is_least(rooms, false);
    assert(in_pool(rooms, false, 0));
    lemma_least_exists(rooms, false, 0);
    lemma_first_hit(n, hit);
    let i = first(n, hit)->0;
    assert(hit(i));
    assert forall|j: int| 0 <= j < rooms.len() implies rooms[i].min_w * rooms[i].min_d <= (
    #[trigger] rooms[j]).min_w * rooms[j].min_d by {
        assert(in_pool(rooms, false, j));
        assert(least_area(rooms[i]) <= least_area(rooms[j]));
    }
    assert forall|j: int| 0 <= j < i implies rooms[i].min_w * rooms[i].min_d < (
    #[trigger] rooms[j]).min_w * rooms[j].min_d by {
        assert(!hit(j));
        assert(in_pool(rooms, false, j));
        if least_area(rooms[j]) <= least_area(rooms[i]) {
            assert forall|k: int|
                0 <= k < rooms.len() && #[trigger] in_pool(rooms, false, k) implies least_area(
                rooms[j],
            ) <= least_area(rooms[k]) by {
                assert(least_area(rooms[i]) <= least_area(rooms[k]));
            }
            assert(hit(j));
        }
    }
    i
}

} // verus!
