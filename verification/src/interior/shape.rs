//! The shape of a building inside: its core, its shafts, its units and the
//! roles of its storeys.
use crate::data::InteriorId;
use crate::hash::{coord_hash, domain};
use crate::interior::draw::{storey_hash, stream_index};
use crate::interior::grid::{entrance_cell, entrance_hall};
use crate::interior::laws::{
    evolves, finished, lemma_equipped, lemma_finished, lemma_keeps_furnished, lemma_shell,
};
use crate::interior::storey::{banded, furnished, room_region, shell, storey};
use crate::interior::units::{
    after_cut, by_area, core_corner, core_extent, cut_until, first_cut, larger_first,
    lemma_first_cut_halves, lemma_larger_first_total, lemma_order_indices, region_cut, shaft_column,
    shaft_columns, units_of, PlaceRegion,
};
use crate::interior::{
    building_shafts, building_storey, core_at, drawn_from, ground_table, placeholder, role_core,
    storey_total,
};
use crate::layout::{role_of, Blueprint, FloorRole, InteriorContext, Tile};
use vstd::prelude::*;

verus! {

/// What lies above the lower 16 bits.
proof fn lemma_upper_part(draw: u64)
    ensures
        (draw >> 16) as int == draw as int / 0x1_0000,
{
    assert(draw >> 16 == draw / 0x1_0000) by (bit_vector);
}

/// A core fits: it has a tile at least and no more than asked for, takes at
/// most half of either side, and is as large as asked for wherever that is
/// so. It lies off the ring, and a draw short of the places is the place.
pub proof fn law_cores_fit(requested: int, gw: int, gd: int, base: u64)
    requires
        3 <= gw <= 256,
        3 <= gd <= 256,
        0 <= requested <= 255,
    ensures
        ({
            let s = core_extent(requested, gw, gd);
            let c = core_corner(gw, gd, s, base);
            &&& 1 <= s
            &&& s <= requested || s == 1
            &&& 2 * s <= gw - 2 || s == 1
            &&& 2 * s <= gd - 2 || s == 1
            &&& 1 <= requested && 2 * requested <= gw - 2 && 2 * requested <= gd - 2 ==> s
                == requested
            &&& 1 <= c.0 && c.0 + s <= gw - 1
            &&& 1 <= c.1 && c.1 + s <= gd - 1
            &&& base + s + 1 < gw ==> c.0 == base + 1
            &&& (base as int / 0x1_0000) + s + 1 < gd ==> c.1 == base as int / 0x1_0000 + 1
        }),
{
    let s = core_extent(requested, gw, gd);
    lemma_upper_part(base);
    let (a, b) = (gw - (s + 1), gd - (s + 1));
    if a >= 1 {
        vstd::arithmetic::div_mod::lemma_mod_bound(base as int, a);
        if base < a {
            vstd::arithmetic::div_mod::lemma_small_mod(base as nat, a as nat);
        }
    }
    if b >= 1 {
        vstd::arithmetic::div_mod::lemma_mod_bound(base as int / 0x1_0000, b);
        if base as int / 0x1_0000 < b {
            vstd::arithmetic::div_mod::lemma_small_mod((base as int / 0x1_0000) as nat, b as nat);
        }
    }
}

/// Shafts are spread evenly: as many as asked for, up to four, none on a plan
/// without an inside; each off the ring, in the order of their numbers within
/// one column of its even place.
pub proof fn law_shafts_are_spread(x_id: i64, y_id: i64, seed: u64, gw: int, count: int, i: int)
    requires
        3 <= gw <= 256,
        0 <= count <= 255,
        0 <= i < count,
        i < 4,
    ensures
        ({
            let v = shaft_columns(x_id, y_id, seed, gw, count);
            let n = if count < 4 {
                count
            } else {
                4
            };
            &&& v.len() == n
            &&& 1 <= v[i] <= gw - 2
            &&& (n + 1) * (v[i] - 2) <= (i + 1) * (gw - 2) < (n + 1) * (v[i] + 1)
        }),
{
    let n = if count < 4 {
        count
    } else {
        4
    };
    let inner = gw - 2;
    let v = shaft_column(x_id, y_id, seed, gw, n, i);
    let q = (i + 1) * inner / (n + 1);
    vstd::arithmetic::div_mod::lemma_fundamental_div_mod((i + 1) * inner, n + 1);
    vstd::arithmetic::div_mod::lemma_mod_bound((i + 1) * inner, n + 1);
    assert(0 <= q < inner) by (nonlinear_arith)
        requires
            (i + 1) * inner == (n + 1) * q + ((i + 1) * inner) % (n + 1),
            0 <= ((i + 1) * inner) % (n + 1) < n + 1,
            0 <= i < n,
            inner >= 1,
    ;
    assert(q <= v <= q + 2);
    assert((n + 1) * (v - 2) <= (n + 1) * q) by (nonlinear_arith)
        requires
            v - 2 <= q,
            n >= 0,
    ;
    assert((n + 1) * q + (n + 1) <= (n + 1) * (v + 1)) by (nonlinear_arith)
        requires
            q <= v,
            n >= 0,
    ;
}

/// A plan without an inside has no shaft, and neither has one that asks for
/// none.
pub proof fn law_no_shafts(x_id: i64, y_id: i64, seed: u64, gw: int, count: int)
    requires
        gw < 3 || count == 0,
        count >= 0,
    ensures
        shaft_columns(x_id, y_id, seed, gw, count).len() == 0,
{
}

/// Can a region be cut no more?
pub open spec fn is_small(r: PlaceRegion) -> bool {
    r.w < 7 && r.d < 7
}

/// Without shafts a region is cut across its longer side, at ties across the
/// width, wherever that is long enough; both parts keep three cells.
pub proof fn law_long_side_is_cut(r: PlaceRegion, base: u64, draw: int)
    requires
        r.bounded(),
    ensures
        region_cut(r, seq![], base, draw).parts is None <==> is_small(r),
        region_cut(r, seq![], base, draw).parts matches Some((a, b)) ==> if r.w >= r.d {
            &&& a.x0 == r.x0 && a.z0 == r.z0 && a.d == r.d
            &&& b.z0 == r.z0 && b.d == r.d
            &&& a.w >= 3 && b.w >= 3 && a.w + b.w == r.w && b.x0 == r.x0 + a.w
        } else {
            &&& a.x0 == r.x0 && a.z0 == r.z0 && a.w == r.w
            &&& b.x0 == r.x0 && b.w == r.w
            &&& a.d >= 3 && b.d >= 3 && a.d + b.d == r.d && b.z0 == r.z0 + a.d
        },
{
    let (w, d) = (r.w as int, r.d as int);
    if w >= 7 {
        vstd::arithmetic::div_mod::lemma_mod_bound(
            crate::hash::coord_hash(base as i64, #[verifier::truncate] ((draw + 1) as i64), 0, 0)
                as int,
            w - 5,
        );
    }
    if d >= 7 {
        vstd::arithmetic::div_mod::lemma_mod_bound(
            crate::hash::coord_hash(base as i64, #[verifier::truncate] ((draw + 1) as i64), 0, 0)
                as int,
            d - 5,
        );
    }
}

/// Where no region is cut, all are small; where one is, it is the first in
/// the order that is not.
proof fn lemma_first_cut_order(
    rects: Seq<PlaceRegion>,
    order: Seq<usize>,
    pos: int,
    base: u64,
    draw: int,
)
    requires
        0 <= pos,
        forall|k: int| 0 <= k < order.len() ==> #[trigger] order[k] < rects.len(),
        forall|i: int| 0 <= i < rects.len() ==> (#[trigger] rects[i]).bounded(),
    ensures
        match first_cut(rects, order, pos, seq![], base, draw) {
            None => forall|k: int|
                pos <= k < order.len() ==> is_small(rects[#[trigger] order[k] as int]),
            Some((i, cut)) => exists|q: int|
                pos <= q < order.len() && #[trigger] order[q] == i && forall|k: int|
                    pos <= k < q ==> is_small(rects[#[trigger] order[k] as int]),
        },
    decreases order.len() - pos,
{
    if pos < order.len() {
        let i = order[pos] as int;
        let cut = region_cut(rects[i], seq![], base, draw);
        law_long_side_is_cut(rects[i], base, draw);
        if cut.parts is None {
            lemma_first_cut_order(rects, order, pos + 1, base, cut.draw);
            match first_cut(rects, order, pos + 1, seq![], base, cut.draw) {
                None => {},
                Some((j, c)) => {
                    let q = choose|q: int|
                        pos + 1 <= q < order.len() && #[trigger] order[q] == j && forall|k: int|
                            pos + 1 <= k < q ==> is_small(rects[#[trigger] order[k] as int]);
                    assert(order[q] == j);
                },
            }
        } else {
            assert(order[pos] == i);
        }
    }
}

/// Every region has its place in the order, and larger ones come first.
proof fn lemma_order(rects: Seq<PlaceRegion>, j: int) -> (k: int)
    requires
        rects.len() <= 255,
        0 <= j < rects.len(),
    ensures
        0 <= k < by_area(rects).len(),
        by_area(rects)[k] == j,
        forall|a: int, b: int|
            0 <= a < b < by_area(rects).len() ==> rects[#[trigger] by_area(rects)[a] as int].area()
                >= rects[#[trigger] by_area(rects)[b] as int].area(),
{
    let all = Seq::new(rects.len(), |i: int| i as usize);
    lemma_larger_first_total(rects);
    all.lemma_sort_by_ensures(larger_first(rects));
    let order = by_area(rects);
    broadcast use vstd::seq_lib::group_to_multiset_ensures;

    assert(all[j] == j);
    assert(all.contains(all[j]));
    assert(all.to_multiset().count(all[j]) > 0);
    assert(order.to_multiset().count(all[j]) > 0);
    assert(order.contains(all[j]));
    assert forall|a: int, b: int| 0 <= a < b < order.len() implies rects[#[trigger] order[a] as int].area()
        >= rects[#[trigger] order[b] as int].area() by {
        assert(larger_first(rects)(order[a], order[b]));
    }
    choose|k: int| 0 <= k < order.len() && order[k] == all[j]
}

/// Without shafts it is the largest region that is cut, of those that are not
/// small.
pub proof fn law_largest_is_cut(rects: Seq<PlaceRegion>, base: u64, draw: int, j: int)
    requires
        rects.len() <= 255,
        forall|i: int| 0 <= i < rects.len() ==> (#[trigger] rects[i]).bounded(),
        0 <= j < rects.len(),
        !is_small(rects[j]),
    ensures
        first_cut(rects, by_area(rects), 0, seq![], base, draw) matches Some((i, cut)) && 0 <= i
            < rects.len() && rects[i].area() >= rects[j].area(),
{
    let order = by_area(rects);
    lemma_order_indices(rects);
    lemma_first_cut_order(rects, order, 0, base, draw);
    let k = lemma_order(rects, j);
    match first_cut(rects, order, 0, seq![], base, draw) {
        None => {
            assert(is_small(rects[order[k] as int]));
        },
        Some((i, cut)) => {
            let q = choose|q: int|
                0 <= q < order.len() && #[trigger] order[q] == i && forall|m: int|
                    0 <= m < q ==> is_small(rects[#[trigger] order[m] as int]);
            if k < q {
                assert(is_small(rects[order[k] as int]));
            }
            if q < k {
                assert(rects[order[q] as int].area() >= rects[order[k] as int].area());
            }
        },
    }
}

proof fn lemma_cut_on(rects: Seq<PlaceRegion>, target: int, base: u64, draw: int)
    requires
        1 <= rects.len() <= target <= 255,
        forall|i: int| 0 <= i < rects.len() ==> (#[trigger] rects[i]).bounded(),
    ensures
        ({
            let units = cut_until(rects, target, seq![], base, draw);
            units.len() == target || units.len() < target && forall|i: int|
                0 <= i < units.len() ==> is_small(#[trigger] units[i])
        }),
    decreases target - rects.len(),
{
    if rects.len() < target {
        let order = by_area(rects);
        lemma_order_indices(rects);
        lemma_first_cut_order(rects, order, 0, base, draw);
        lemma_first_cut_halves(rects, order, 0, seq![], base, draw);
        match first_cut(rects, order, 0, seq![], base, draw) {
            None => {
                assert forall|i: int| 0 <= i < rects.len() implies is_small(#[trigger] rects[i]) by {
                    let k = lemma_order(rects, i);
                    assert(is_small(rects[order[k] as int]));
                }
            },
            Some((i, cut)) => {
                let parts = cut.parts->0;
                let next = after_cut(rects, i, parts);
                assert forall|k: int| 0 <= k < next.len() implies (#[trigger]
                next[k]).bounded() by {
                    if k < rects.len() && k != i {
                        assert(rects[k].bounded());
                    }
                }
                lemma_cut_on(next, target, base, cut.draw);
            },
        }
    }
}

/// A floor without shafts is cut into as many units as are drawn, one at
/// least and `max_units` at most, unless all of them are small before.
pub proof fn law_number_of_units(region: PlaceRegion, max_units: int, base: u64)
    requires
        region.bounded(),
        1 <= max_units <= 255,
    ensures
        ({
            let units = units_of(region, max_units, seq![], base);
            let asked = 1 + stream_index(base, 0, max_units);
            &&& 1 <= asked <= max_units
            &&& units.len() == asked || units.len() < asked && forall|i: int|
                0 <= i < units.len() ==> is_small(#[trigger] units[i])
        }),
{
    vstd::arithmetic::div_mod::lemma_mod_bound(
        crate::hash::coord_hash(base as i64, 0, 0, 0) as int,
        max_units,
    );
    if max_units > 1 {
        lemma_cut_on(seq![region], 1 + stream_index(base, 0, max_units), base, 1);
    }
}

/// Is a region too shallow to be cut across its depth?
pub open spec fn is_shallow(r: PlaceRegion) -> bool {
    r.d < 7
}

/// Shafts never stand in the way of a cut across the depth.
proof fn lemma_deep_is_cut(r: PlaceRegion, shafts: Seq<u8>, base: u64, draw: int)
    ensures
        region_cut(r, shafts, base, draw).parts is None ==> is_shallow(r),
{
}

/// Over shafts too, where no region is cut all are shallow; and those before
/// the one that is are.
proof fn lemma_first_cut_depth(
    rects: Seq<PlaceRegion>,
    order: Seq<usize>,
    pos: int,
    shafts: Seq<u8>,
    base: u64,
    draw: int,
)
    requires
        0 <= pos,
    ensures
        match first_cut(rects, order, pos, shafts, base, draw) {
            None => forall|k: int|
                pos <= k < order.len() ==> is_shallow(rects[#[trigger] order[k] as int]),
            Some((i, cut)) => exists|q: int|
                pos <= q < order.len() && #[trigger] order[q] == i && forall|k: int|
                    pos <= k < q ==> is_shallow(rects[#[trigger] order[k] as int]),
        },
    decreases order.len() - pos,
{
    if pos < order.len() {
        let i = order[pos] as int;
        let cut = region_cut(rects[i], shafts, base, draw);
        lemma_deep_is_cut(rects[i], shafts, base, draw);
        if cut.parts is None {
            lemma_first_cut_depth(rects, order, pos + 1, shafts, base, cut.draw);
            match first_cut(rects, order, pos + 1, shafts, base, cut.draw) {
                None => {},
                Some((j, c)) => {
                    let q = choose|q: int|
                        pos + 1 <= q < order.len() && #[trigger] order[q] == j && forall|k: int|
                            pos + 1 <= k < q ==> is_shallow(rects[#[trigger] order[k] as int]);
                    assert(order[q] == j);
                },
            }
        } else {
            assert(order[pos] == i);
        }
    }
}

/// Over shafts the region that is cut is no smaller than any that is deep
/// enough to be cut across.
pub proof fn law_largest_is_cut_over_shafts(
    rects: Seq<PlaceRegion>,
    shafts: Seq<u8>,
    base: u64,
    draw: int,
    j: int,
)
    requires
        rects.len() <= 255,
        0 <= j < rects.len(),
        !is_shallow(rects[j]),
    ensures
        first_cut(rects, by_area(rects), 0, shafts, base, draw) matches Some((i, cut)) && 0 <= i
            < rects.len() && rects[i].area() >= rects[j].area(),
{
    let order = by_area(rects);
    lemma_order_indices(rects);
    lemma_first_cut_depth(rects, order, 0, shafts, base, draw);
    let k = lemma_order(rects, j);
    match first_cut(rects, order, 0, shafts, base, draw) {
        None => {
            assert(is_shallow(rects[order[k] as int]));
        },
        Some((i, cut)) => {
            let q = choose|q: int|
                0 <= q < order.len() && #[trigger] order[q] == i && forall|m: int|
                    0 <= m < q ==> is_shallow(rects[#[trigger] order[m] as int]);
            if k < q {
                assert(is_shallow(rects[order[k] as int]));
            }
            if q < k {
                assert(rects[order[q] as int].area() >= rects[order[k] as int].area());
            }
        },
    }
}

proof fn lemma_cut_on_over_shafts(
    rects: Seq<PlaceRegion>,
    target: int,
    shafts: Seq<u8>,
    base: u64,
    draw: int,
)
    requires
        1 <= rects.len() <= target <= 255,
    ensures
        ({
            let units = cut_until(rects, target, shafts, base, draw);
            units.len() == target || units.len() < target && forall|i: int|
                0 <= i < units.len() ==> is_shallow(#[trigger] units[i])
        }),
    decreases target - rects.len(),
{
    if rects.len() < target {
        let order = by_area(rects);
        lemma_order_indices(rects);
        lemma_first_cut_depth(rects, order, 0, shafts, base, draw);
        match first_cut(rects, order, 0, shafts, base, draw) {
            None => {
                assert forall|i: int| 0 <= i < rects.len() implies is_shallow(
                    #[trigger] rects[i],
                ) by {
                    let k = lemma_order(rects, i);
                    assert(is_shallow(rects[order[k] as int]));
                }
            },
            Some((i, cut)) => {
                lemma_cut_found(rects, order, 0, shafts, base, draw);
                let next = after_cut(rects, i, cut.parts->0);
                lemma_cut_on_over_shafts(next, target, shafts, base, cut.draw);
            },
        }
    }
}

/// What is found to be cut has parts.
proof fn lemma_cut_found(
    rects: Seq<PlaceRegion>,
    order: Seq<usize>,
    pos: int,
    shafts: Seq<u8>,
    base: u64,
    draw: int,
)
    requires
        0 <= pos,
    ensures
        first_cut(rects, order, pos, shafts, base, draw) matches Some((i, cut)) ==> cut.parts
            is Some,
    decreases order.len() - pos,
{
    if pos < order.len() {
        let cut = region_cut(rects[order[pos] as int], shafts, base, draw);
        if cut.parts is None {
            lemma_cut_found(rects, order, pos + 1, shafts, base, cut.draw);
        }
    }
}

/// A floor is cut into as many units as are drawn, whatever its shafts, unless
/// none of them is deep enough to be cut across before.
pub proof fn law_number_of_units_over_shafts(
    region: PlaceRegion,
    max_units: int,
    shafts: Seq<u8>,
    base: u64,
)
    requires
        1 <= max_units <= 255,
    ensures
        ({
            let units = units_of(region, max_units, shafts, base);
            let asked = 1 + stream_index(base, 0, max_units);
            &&& 1 <= asked <= max_units
            &&& units.len() == asked || units.len() < asked && forall|i: int|
                0 <= i < units.len() ==> is_shallow(#[trigger] units[i])
        }),
{
    vstd::arithmetic::div_mod::lemma_mod_bound(
        crate::hash::coord_hash(base as i64, 0, 0, 0) as int,
        max_units,
    );
    if max_units > 1 {
        lemma_cut_on_over_shafts(
            seq![region],
            1 + stream_index(base, 0, max_units),
            shafts,
            base,
            1,
        );
    }
}

/// The first storey is the ground floor, the last of several the top, and
/// those between are typical.
pub proof fn law_roles_of_storeys(f: int, n: int)
    requires
        0 <= f < n,
    ensures
        role_of(f, n) == FloorRole::Ground <==> f == 0,
        role_of(f, n) == FloorRole::Top <==> 0 < f == n - 1,
        role_of(f, n) == FloorRole::Typical <==> 0 < f < n - 1,
{
}

/// A placeholder is as wide and as deep as its lot; where the lot has no
/// extent, it lies in the given range, and moves along with the range.
pub proof fn law_placeholders(
    id: InteriorId,
    ctx: InteriorContext,
    widths: (u16, u16),
    heights: (u16, u16),
    k: u16,
    dom: u8,
)
    requires
        widths.0 <= widths.1,
        heights.0 <= heights.1,
        widths.1 + k <= 0xffff,
    ensures
        ({
            let s = placeholder(id, ctx, widths, heights);
            &&& ctx.footprint_w > 0 ==> s.width == ctx.footprint_w
            &&& ctx.footprint_w == 0 ==> widths.0 <= s.width <= widths.1
            &&& ctx.footprint_d > 0 ==> s.height == ctx.footprint_d
            &&& ctx.footprint_d == 0 ==> heights.0 <= s.height <= heights.1
            &&& s.floors == ctx.floor_count
            &&& s.id == id && s.seed == ctx.seed
            &&& ctx.palette_id != 0 ==> s.palette_id == ctx.palette_id
            &&& ctx.palette_id == 0 ==> s.palette_id < 8
        }),
        drawn_from((widths.0 + k) as u16, (widths.1 + k) as u16, id, ctx.seed, dom) == drawn_from(
            widths.0,
            widths.1,
            id,
            ctx.seed,
            dom,
        ) + k,
{
    let (x, y) = crate::interior::units::id_halves(id);
    let (a, b) = (widths.1 - widths.0 + 1, heights.1 - heights.0 + 1);
    vstd::arithmetic::div_mod::lemma_mod_bound(
        crate::hash::coord_hash(x, y, ctx.seed, domain::INTERIOR_SIZE_W) as int,
        a,
    );
    vstd::arithmetic::div_mod::lemma_mod_bound(
        crate::hash::coord_hash(x, y, ctx.seed, dom) as int,
        a,
    );
    vstd::arithmetic::div_mod::lemma_mod_bound(
        crate::hash::coord_hash(x, y, ctx.seed, domain::INTERIOR_SIZE_H) as int,
        b,
    );
}

/// Does the cell lie in the core?
pub open spec fn in_core(core: (u8, u8, u8), c: (int, int)) -> bool {
    core.1 <= c.0 < core.1 + core.0 && core.2 <= c.1 < core.2 + core.0
}

/// The core stands where it was placed: its cells off the ring are core, or
/// doors into it, but for the hall behind the entrance; and nothing else on
/// the storey is core.
pub proof fn law_core_stands(
    x_id: i64,
    y_id: i64,
    seed: u64,
    floor: u8,
    role: FloorRole,
    core: (u8, u8, u8),
    ctx: InteriorContext,
    blueprint: Blueprint,
    shafts: Seq<u8>,
    c: (int, int),
)
    requires
        ctx.footprint_w >= 3,
        ctx.footprint_d >= 3,
        1 <= c.0 < ctx.footprint_w - 1,
        1 <= c.1 < ctx.footprint_d - 1,
    ensures
        ({
            let (w, d) = (ctx.footprint_w as int, ctx.footprint_d as int);
            let p = storey(x_id, y_id, seed, floor, role, core, ctx, blueprint, shafts);
            let hall = entrance_hall(
                w,
                d,
                ctx.door_side,
                storey_hash(x_id, y_id, seed, floor, domain::LAYOUT_DOOR),
            );
            &&& in_core(core, c) && !(role == FloorRole::Ground && c == hall) ==> p.tiles[c]
                == Tile::Core || p.tiles[c] == Tile::Door
            &&& p.tiles[c] == Tile::Core ==> in_core(core, c)
            &&& banded(blueprint, d) && c.1 == d - 2 ==> p.tiles[c] != Tile::Room
            &&& banded(blueprint, d) && c.1 == d - 3 ==> p.tiles[c] != Tile::Room
        }),
{
    let (w, d) = (ctx.footprint_w as int, ctx.footprint_d as int);
    let door_base = storey_hash(x_id, y_id, seed, floor, domain::LAYOUT_DOOR);
    let room_base = storey_hash(x_id, y_id, seed, floor, domain::LAYOUT_ROOM);
    let furn_base = storey_hash(x_id, y_id, seed, floor, domain::LAYOUT_FURNITURE);
    let side = ctx.door_side;
    let region = room_region(blueprint, w, d);
    let a = shell(w, d, role, core, side, blueprint, door_base);
    lemma_shell(w, d, role, core, side, blueprint, door_base);
    let s = furnished(
        a,
        region,
        blueprint.live(),
        blueprint.unit_max as int,
        shafts,
        room_base,
        side,
    );
    lemma_keeps_furnished(a, region, blueprint.live(), blueprint.unit_max, shafts, room_base, side);
    lemma_finished(a, s, role, core, door_base, region);
    let p = finished(s, role, core, door_base);
    lemma_equipped(p, s.placed, furn_base, blueprint.furn_density, 0, region);
    assert(a.has(c));
    assert(evolves(a.tiles[c], p.tiles[c]));
    let entrance = entrance_cell(w, d, side, door_base);
    assert(c != entrance) by {
        crate::interior::laws::law_entrance_faces_street(w, d, side, door_base);
    }
}

/// At the top the core is one tile larger than below, as far as the grid
/// allows.
pub proof fn law_core_grows_at_the_top(
    id: InteriorId,
    ctx: InteriorContext,
    blueprint: Blueprint,
    f: u8,
    role: FloorRole,
)
    requires
        ctx.footprint_w >= 3,
        ctx.footprint_d >= 3,
        role != FloorRole::Top,
    ensures
        ({
            let below = role_core(id, ctx, blueprint, f, role);
            let top = role_core(id, ctx, blueprint, f, FloorRole::Top);
            &&& top.0 == below.0 + 1
            &&& top.1 == below.1 && top.2 == below.2
            &&& 1 <= below.0 && below.1 + below.0 < ctx.footprint_w && below.2 + below.0
                < ctx.footprint_d
            &&& below.0 <= blueprint.core_size || below.0 == 1
        }),
{
    let (gw, gd) = (ctx.footprint_w as int, ctx.footprint_d as int);
    let (x, y) = crate::interior::units::id_halves(id);
    let size = blueprint.core_size as int;
    law_cores_fit(
        size,
        gw,
        gd,
        crate::hash::coord_hash(x, y, ctx.seed, domain::LAYOUT_CORE),
    );
    law_cores_fit(size, gw, gd, storey_hash(x, y, ctx.seed, f, domain::LAYOUT_FLOOR));
}

/// A building of more than two storeys takes the table of its ground floor
/// from the zone that its own table names; any other keeps its own.
pub proof fn law_ground_tables(
    ctx: InteriorContext,
    blueprint: Blueprint,
    table: [Blueprint; crate::zones::ZONE_COUNT],
)
    ensures
        ctx.floor_count <= 2 ==> ground_table(ctx, blueprint, table) == blueprint,
        blueprint.ground_zone >= 5 ==> ground_table(ctx, blueprint, table) == blueprint,
        ctx.floor_count >= 3 && blueprint.ground_zone < 5 ==> ground_table(ctx, blueprint, table)
            == table[blueprint.ground_zone as int],
{
}

/// The key of an interior is split in its lower and its upper half.
pub proof fn law_keys_split(id: InteriorId)
    ensures
        ({
            let (low, high) = crate::interior::units::id_halves(id);
            &&& 0 <= low < 0x1_0000_0000
            &&& 0 <= high < 0x1_0000_0000
            &&& id == low + 0x1_0000_0000 * high
        }),
{
    assert((id & 0xffff_ffff) == id % 0x1_0000_0000 && ((id >> 32) & 0xffff_ffff) == id
        / 0x1_0000_0000) by (bit_vector);
}

/// The place of a core is drawn from the key of the building, or, where cores
/// wander, from that and the number of the storey: the draw, over the places
/// there are along the width, leaves the column, and its part above the lower
/// 16 bits, over those along the depth, the row.
pub proof fn law_cores_are_drawn(id: InteriorId, ctx: InteriorContext, blueprint: Blueprint, f: u8)
    requires
        ctx.footprint_w >= 3,
        ctx.footprint_d >= 3,
    ensures
        ({
            let (x, y) = crate::interior::units::id_halves(id);
            let (size, cx, cz) = core_at(id, ctx, blueprint, f);
            let draw = if blueprint.wandering_core == 0 {
                coord_hash(x, y, ctx.seed, domain::LAYOUT_CORE)
            } else {
                storey_hash(x, y, ctx.seed, f, domain::LAYOUT_FLOOR)
            };
            let (across, along) = (ctx.footprint_w - size - 1, ctx.footprint_d - size - 1);
            &&& across >= 1 && along >= 1
            &&& cx == 1 + draw as int % across
            &&& cz == 1 + (draw as int / 0x1_0000) % along
        }),
{
    let (x, y) = crate::interior::units::id_halves(id);
    let draw = if blueprint.wandering_core == 0 {
        coord_hash(x, y, ctx.seed, domain::LAYOUT_CORE)
    } else {
        storey_hash(x, y, ctx.seed, f, domain::LAYOUT_FLOOR)
    };
    let (gw, gd) = (ctx.footprint_w as int, ctx.footprint_d as int);
    law_cores_fit(blueprint.core_size as int, gw, gd, draw);
    lemma_upper_part(draw);
}

/// A building has as many shafts as its table asks for, up to four, on all its
/// storeys alike; and where its typical storeys vary, each is drawn from its
/// own number.
pub proof fn law_storeys_of_a_building(
    id: InteriorId,
    ctx: InteriorContext,
    blueprint: Blueprint,
    ground: Blueprint,
    f: int,
)
    requires
        ctx.footprint_w >= 3,
        0 < f <= 255,
        blueprint.vary_typical != 0,
    ensures
        building_shafts(id, ctx, blueprint).len() == if blueprint.wet_shafts < 4 {
            blueprint.wet_shafts as int
        } else {
            4
        },
        ({
            let (x, y) = crate::interior::units::id_halves(id);
            let role = role_of(f, storey_total(ctx));
            building_storey(id, ctx, blueprint, ground, f) == storey(
                x,
                y,
                ctx.seed,
                f as u8,
                role,
                role_core(id, ctx, blueprint, f as u8, role),
                ctx,
                blueprint,
                building_shafts(id, ctx, blueprint),
            )
        }),
{
}

} // verus!
