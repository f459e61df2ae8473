//! The skeleton of a building: its core, its plumbing shafts, and the units
//! that a floor is cut into.
use crate::data::InteriorId;
use crate::hash::{coord_hash, domain, hash_coords};
use crate::interior::draw::{floor_hash, pick, storey_hash, stream_index};
use vstd::prelude::*;
use vstd::relations::{sorted_by, total_ordering};
use vstd::seq_lib::{lemma_sorted_unique, to_multiset_build, to_multiset_insert};

verus! {

/// A rectangle of a floor grid that rooms are placed in.
#[derive(Clone, Copy, Debug, PartialEq, Eq, Structural)]
pub struct PlaceRegion {
    /// Left edge.
    pub x0: u8,
    /// Top edge.
    pub z0: u8,
    /// Width in cells.
    pub w: u8,
    /// Depth in cells.
    pub d: u8,
}

impl PlaceRegion {
    /// Is the cell in the region?
    pub open spec fn covers(self, c: (int, int)) -> bool {
        self.x0 <= c.0 < self.x0 + self.w && self.z0 <= c.1 < self.z0 + self.d
    }

    /// Does a `w` by `d` rectangle at `(x, z)` lie in the region?
    pub open spec fn holds(self, x: int, z: int, w: int, d: int) -> bool {
        &&& self.x0 <= x
        &&& self.z0 <= z
        &&& x + w <= self.x0 + self.w
        &&& z + d <= self.z0 + self.d
    }

    /// Does the region end within the range of grid coordinates?
    pub open spec fn bounded(self) -> bool {
        self.x0 + self.w <= 256 && self.z0 + self.d <= 256
    }

    /// The number of cells.
    pub open spec fn area(self) -> int {
        self.w * self.d
    }

    /// Everything inside the outer ring of a grid.
    pub open spec fn inner(gw: int, gd: int) -> PlaceRegion {
        PlaceRegion {
            x0: 1,
            z0: 1,
            w: (if gw < 2 {
                0
            } else {
                gw - 2
            }) as u8,
            d: (if gd < 2 {
                0
            } else {
                gd - 2
            }) as u8,
        }
    }

    /// Everything inside the outer ring of a grid.
    pub fn interior(gw: usize, gd: usize) -> (r: PlaceRegion)
        requires
            gw <= 257,
            gd <= 257,
        ensures
            r == PlaceRegion::inner(gw as int, gd as int),
    {
        let w: usize = if gw < 2 {
            0
        } else {
            gw - 2
        };
        let d: usize = if gd < 2 {
            0
        } else {
            gd - 2
        };
        PlaceRegion { x0: 1, z0: 1, w: w as u8, d: d as u8 }
    }

    /// Does a `w` by `d` rectangle at `(x, z)` lie in the region?
    pub fn contains(&self, x: i64, z: i64, w: u8, d: u8) -> (b: bool)
        requires
            x + w <= i64::MAX,
            z + d <= i64::MAX,
        ensures
            b == self.holds(x as int, z as int, w as int, d as int),
    {
        let (rx0, rz0): (i64, i64) = (self.x0 as i64, self.z0 as i64);
        x >= rx0 && z >= rz0 && x + w as i64 <= rx0 + self.w as i64 && z + d as i64 <= rz0
            + self.d as i64
    }
}

/// The halves of an interior key, as hash coordinates.
pub open spec fn id_halves(id: InteriorId) -> (i64, i64) {
    ((id & 0xffff_ffff) as i64, ((id >> 32) & 0xffff_ffff) as i64)
}

/// The halves of an interior key, as hash coordinates.
pub fn split_id(id: InteriorId) -> (h: (i64, i64))
    ensures
        h == id_halves(id),
{
    ((id & 0xffff_ffff) as i64, ((id >> 32) & 0xffff_ffff) as i64)
}

/// The larger of two numbers.
pub open spec fn at_least(a: int, b: int) -> int {
    if a < b {
        b
    } else {
        a
    }
}

/// The smaller of two numbers.
pub open spec fn capped(a: int, b: int) -> int {
    if a > b {
        b
    } else {
        a
    }
}

/// A core takes at most half of the inner extent on either axis, and at least
/// one tile.
pub open spec fn core_extent(requested: int, gw: int, gd: int) -> int {
    capped(
        capped(at_least(requested, 1), at_least((gw - 2) / 2, 1)),
        at_least((gd - 2) / 2, 1),
    )
}

/// The core size that a floor has room for.
pub fn cap_core_size(requested: u8, gw: usize, gd: usize) -> (size: u8)
    requires
        gw <= 257,
        gd <= 257,
    ensures
        size == core_extent(requested as int, gw as int, gd as int),
        1 <= size <= 127,
{
    let half_w: u8 = if gw < 4 {
        1
    } else {
        ((gw - 2) / 2) as u8
    };
    let half_d: u8 = if gd < 4 {
        1
    } else {
        ((gd - 2) / 2) as u8
    };
    let mut size: u8 = if requested < 1 {
        1
    } else {
        requested
    };
    if size > half_w {
        size = half_w;
    }
    if size > half_d {
        size = half_d;
    }
    size
}

/// The corner of a core of the given size, drawn so that the core stays off
/// the ring wherever the grid has room for it.
pub open spec fn core_corner(gw: int, gd: int, size: int, base: u64) -> (int, int) {
    (
        1 + base as int % at_least(gw - (size + 1), 1),
        1 + (base >> 16) as int % at_least(gd - (size + 1), 1),
    )
}

/// The corner of a core of the given size.
pub fn place_core(gw: usize, gd: usize, size: u8, base: u64) -> (c: (u8, u8))
    requires
        gw <= 256,
        gd <= 256,
    ensures
        (c.0 as int, c.1 as int) == core_corner(gw as int, gd as int, size as int, base),
{
    let taken: usize = size as usize + 1;
    let inner_w: u64 = if gw <= taken {
        1
    } else {
        (gw - taken) as u64
    };
    let inner_d: u64 = if gd <= taken {
        1
    } else {
        (gd - taken) as u64
    };
    let cx: u8 = 1u8 + (base % inner_w) as u8;
    let cz: u8 = 1u8 + ((base >> 16) % inner_d) as u8;
    (cx, cz)
}

/// The core of a building as size and corner: one draw for all storeys.
pub open spec fn stacked_core(
    x_id: i64,
    y_id: i64,
    seed: u64,
    gw: int,
    gd: int,
    requested: int,
) -> (int, int, int) {
    let size = core_extent(requested, gw, gd);
    let c = core_corner(gw, gd, size, coord_hash(x_id, y_id, seed, domain::LAYOUT_CORE));
    (size, c.0, c.1)
}

/// The core of a building that stacks it: one draw for all storeys.
pub fn stacked_core_rect(
    x_id: i64,
    y_id: i64,
    seed: u64,
    gw: usize,
    gd: usize,
    requested: u8,
) -> (r: (u8, u8, u8))
    requires
        gw <= 256,
        gd <= 256,
    ensures
        (r.0 as int, r.1 as int, r.2 as int) == stacked_core(
            x_id,
            y_id,
            seed,
            gw as int,
            gd as int,
            requested as int,
        ),
{
    let size: u8 = cap_core_size(requested, gw, gd);
    let base: u64 = hash_coords(x_id, y_id, seed, domain::LAYOUT_CORE);
    let (cx, cz): (u8, u8) = place_core(gw, gd, size, base);
    (size, cx, cz)
}

/// The core of one storey of a building whose core wanders.
pub open spec fn wandering_core(
    x_id: i64,
    y_id: i64,
    seed: u64,
    floor: u8,
    gw: int,
    gd: int,
    requested: int,
) -> (int, int, int) {
    let size = core_extent(requested, gw, gd);
    let c = core_corner(gw, gd, size, storey_hash(x_id, y_id, seed, floor, domain::LAYOUT_FLOOR));
    (size, c.0, c.1)
}

/// The core of one storey of a building whose core wanders.
pub fn core_rect_for_floor(
    x_id: i64,
    y_id: i64,
    seed: u64,
    floor: u8,
    gw: usize,
    gd: usize,
    requested: u8,
) -> (r: (u8, u8, u8))
    requires
        gw <= 256,
        gd <= 256,
    ensures
        (r.0 as int, r.1 as int, r.2 as int) == wandering_core(
            x_id,
            y_id,
            seed,
            floor,
            gw as int,
            gd as int,
            requested as int,
        ),
{
    let size: u8 = cap_core_size(requested, gw, gd);
    let base: u64 = floor_hash(x_id, y_id, seed, floor, domain::LAYOUT_FLOOR);
    let (cx, cz): (u8, u8) = place_core(gw, gd, size, base);
    (size, cx, cz)
}

/// The number of shafts of a building: at most four, none on a grid without
/// an inside.
pub open spec fn shaft_count(gw: int, count: int) -> int {
    if gw < 3 {
        0
    } else {
        capped(count, 4)
    }
}

/// Shaft `i` of `n`: evenly spread columns, each shifted by at most one.
pub open spec fn shaft_column(x_id: i64, y_id: i64, seed: u64, gw: int, n: int, i: int) -> int {
    let inner = gw - 2;
    let spread = 1 + (i + 1) * inner / (n + 1);
    let jitter = coord_hash(x_id, y_id.wrapping_add(i as i64), seed, domain::LAYOUT_WET) as int % 3
        - 1;
    capped(at_least(spread + jitter, 1), inner)
}

/// The shaft columns of a building, the same on every storey.
pub open spec fn shaft_columns(x_id: i64, y_id: i64, seed: u64, gw: int, count: int) -> Seq<u8> {
    let n = shaft_count(gw, count);
    Seq::new(n as nat, |i: int| shaft_column(x_id, y_id, seed, gw, n, i) as u8)
}

/// The shaft columns of a building, the same on every storey.
pub fn wet_shaft_columns(x_id: i64, y_id: i64, seed: u64, gw: usize, count: u8) -> (v: Vec<u8>)
    requires
        gw <= 257,
    ensures
        v@ == shaft_columns(x_id, y_id, seed, gw as int, count as int),
        v@.len() == shaft_count(gw as int, count as int),
        forall|i: int| 0 <= i < v@.len() ==> 1 <= #[trigger] v@[i] <= gw - 2,
{
    let mut v: Vec<u8> = Vec::new();
    let n: usize = if count < 4 {
        count as usize
    } else {
        4
    };
    if n == 0 || gw < 3 {
        assert(v@ =~= shaft_columns(x_id, y_id, seed, gw as int, count as int));
        return v;
    }
    let inner: usize = gw - 2;
    for i in 0..n
        invariant
            n == shaft_count(gw as int, count as int),
            1 <= n <= 4,
            3 <= gw <= 257,
            inner == gw - 2,
            v@.len() == i,
            forall|j: int|
                0 <= j < i ==> #[trigger] v@[j] == shaft_column(
                    x_id,
                    y_id,
                    seed,
                    gw as int,
                    n as int,
                    j,
                ) && 1 <= v@[j] <= inner,
    {
        assert((i + 1) * inner <= 4 * 255) by (nonlinear_arith)
            requires
                i + 1 <= 4,
                inner <= 255,
        ;
        let spread: usize = 1 + (i + 1) * inner / (n + 1);
        let h: u64 = hash_coords(x_id, y_id.wrapping_add(i as i64), seed, domain::LAYOUT_WET);
        let shift: usize = (h % 3) as usize;
        let placed: usize = spread + shift;
        let column: usize = if placed < 2 {
            1
        } else if placed - 1 > inner {
            inner
        } else {
            placed - 1
        };
        v.push(column as u8);
    }
    assert(v@ =~= shaft_columns(x_id, y_id, seed, gw as int, count as int));
    v
}

/// Does the column run through the region's extent in x?
pub open spec fn crosses(r: PlaceRegion, column: u8) -> bool {
    r.x0 <= column < r.x0 + r.w
}

/// Does the region have plumbing, where there is any to be had?
pub open spec fn served(r: PlaceRegion, shafts: Seq<u8>) -> bool {
    shafts.len() == 0 || exists|i: int| 0 <= i < shafts.len() && crosses(r, #[trigger] shafts[i])
}

/// Does the region have plumbing, where there is any to be had?
fn is_served(r: PlaceRegion, shafts: &Vec<u8>) -> (b: bool)
    ensures
        b == served(r, shafts@),
{
    if shafts.len() == 0 {
        return true;
    }
    for i in 0..shafts.len()
        invariant
            forall|j: int| 0 <= j < i ==> !crosses(r, #[trigger] shafts@[j]),
    {
        let c: u8 = shafts[i];
        if r.x0 <= c && (c as u16) < r.x0 as u16 + r.w as u16 {
            assert(crosses(r, shafts@[i as int]));
            return true;
        }
    }
    false
}

/// A region cut in two, `pos` cells from its left or top edge.
pub open spec fn halves(r: PlaceRegion, vertical: bool, pos: int) -> (PlaceRegion, PlaceRegion) {
    if vertical {
        (
            PlaceRegion { w: pos as u8, ..r },
            PlaceRegion { x0: (r.x0 + pos) as u8, w: (r.w - pos) as u8, ..r },
        )
    } else {
        (
            PlaceRegion { d: pos as u8, ..r },
            PlaceRegion { z0: (r.z0 + pos) as u8, d: (r.d - pos) as u8, ..r },
        )
    }
}

/// The outcome of trying to cut a region: the halves, if there was a valid
/// cut, and the next unused draw.
pub struct Cut {
    pub parts: Option<(PlaceRegion, PlaceRegion)>,
    pub draw: int,
}

/// One try along one axis: the region must be seven cells long, both halves
/// keep three, and a cut across the shafts leaves each half a shaft.
pub open spec fn axis_cut(
    r: PlaceRegion,
    vertical: bool,
    shafts: Seq<u8>,
    base: u64,
    draw: int,
) -> Cut {
    let len = if vertical {
        r.w as int
    } else {
        r.d as int
    };
    if len < 7 {
        Cut { parts: None, draw }
    } else {
        let parts = halves(r, vertical, 3 + stream_index(base, draw, len - 5));
        if vertical && !(served(parts.0, shafts) && served(parts.1, shafts)) {
            Cut { parts: None, draw: draw + 1 }
        } else {
            Cut { parts: Some(parts), draw: draw + 1 }
        }
    }
}

/// Does the long axis of the region run along x? On ties it does.
pub open spec fn upright_first(r: PlaceRegion) -> bool {
    r.w >= r.d
}

/// One region: across its long axis first, across the other as a fallback. One
/// draw is passed over before the first try.
pub open spec fn region_cut(r: PlaceRegion, shafts: Seq<u8>, base: u64, draw: int) -> Cut {
    if r.w < 7 && r.d < 7 {
        Cut { parts: None, draw }
    } else {
        let upright = upright_first(r);
        let one = axis_cut(r, upright, shafts, base, draw + 1);
        if one.parts is Some {
            one
        } else {
            axis_cut(r, !upright, shafts, base, one.draw)
        }
    }
}

/// Largest region first, the lower index on ties.
pub open spec fn larger_first(rects: Seq<PlaceRegion>) -> spec_fn(usize, usize) -> bool {
    |i: usize, j: usize|
        rects[i as int].area() > rects[j as int].area() || (rects[i as int].area()
            == rects[j as int].area() && i <= j)
}

/// The indices of the regions, largest region first.
pub open spec fn by_area(rects: Seq<PlaceRegion>) -> Seq<usize> {
    Seq::new(rects.len(), |i: int| i as usize).sort_by(larger_first(rects))
}

/// The first region, from place `pos` of the order on, that can be cut.
pub open spec fn first_cut(
    rects: Seq<PlaceRegion>,
    order: Seq<usize>,
    pos: int,
    shafts: Seq<u8>,
    base: u64,
    draw: int,
) -> Option<(int, Cut)>
    decreases order.len() - pos,
{
    if pos < 0 || pos >= order.len() {
        None
    } else {
        let i = order[pos] as int;
        let cut = region_cut(rects[i], shafts, base, draw);
        if cut.parts is Some {
            Some((i, cut))
        } else {
            first_cut(rects, order, pos + 1, shafts, base, cut.draw)
        }
    }
}

/// The regions after one of them was cut: the first half takes its place and
/// the second goes to the end.
pub open spec fn after_cut(
    rects: Seq<PlaceRegion>,
    i: int,
    parts: (PlaceRegion, PlaceRegion),
) -> Seq<PlaceRegion> {
    Seq::new(
        rects.len() + 1,
        |k: int|
            if k == rects.len() {
                parts.1
            } else if k == i {
                parts.0
            } else {
                rects[k]
            },
    )
}

/// Cuts on until there are `target` regions or none can be cut.
pub open spec fn cut_until(
    rects: Seq<PlaceRegion>,
    target: int,
    shafts: Seq<u8>,
    base: u64,
    draw: int,
) -> Seq<PlaceRegion>
    decreases target - rects.len(),
{
    if rects.len() >= target {
        rects
    } else {
        match first_cut(rects, by_area(rects), 0, shafts, base, draw) {
            None => rects,
            Some((i, cut)) => match cut.parts {
                None => rects,
                Some(parts) => cut_until(
                    after_cut(rects, i, parts),
                    target,
                    shafts,
                    base,
                    cut.draw,
                ),
            },
        }
    }
}

/// The units of a region: a drawn number up to `max_units`, as far as there
/// is room to cut.
pub open spec fn units_of(
    region: PlaceRegion,
    max_units: int,
    shafts: Seq<u8>,
    base: u64,
) -> Seq<PlaceRegion> {
    if max_units <= 1 {
        seq![region]
    } else {
        cut_until(seq![region], 1 + stream_index(base, 0, max_units), shafts, base, 1)
    }
}

/// The halves of a region, `pos` cells from its left or top edge.
fn cut_at(r: PlaceRegion, vertical: bool, pos: usize) -> (p: (PlaceRegion, PlaceRegion))
    requires
        r.bounded(),
        0 < pos,
        pos < (if vertical {
            r.w
        } else {
            r.d
        }),
    ensures
        p == halves(r, vertical, pos as int),
{
    let pos: u8 = pos as u8;
    if vertical {
        (
            PlaceRegion { x0: r.x0, z0: r.z0, w: pos, d: r.d },
            PlaceRegion { x0: r.x0 + pos, z0: r.z0, w: r.w - pos, d: r.d },
        )
    } else {
        (
            PlaceRegion { x0: r.x0, z0: r.z0, w: r.w, d: pos },
            PlaceRegion { x0: r.x0, z0: r.z0 + pos, w: r.w, d: r.d - pos },
        )
    }
}

/// One try along one axis; the result is the halves and the next unused draw.
fn try_axis(
    r: PlaceRegion,
    vertical: bool,
    shafts: &Vec<u8>,
    base: u64,
    draw: usize,
) -> (c: (Option<(PlaceRegion, PlaceRegion)>, usize))
    requires
        r.bounded(),
        draw < 0x1000_0000,
    ensures
        (Cut { parts: c.0, draw: c.1 as int }) == axis_cut(r, vertical, shafts@, base, draw as int),
        draw <= c.1 <= draw + 1,
{
    let len: usize = if vertical {
        r.w as usize
    } else {
        r.d as usize
    };
    if len < 7 {
        return (None, draw);
    }
    let pos: usize = 3 + pick(base, draw, len - 5);
    let parts: (PlaceRegion, PlaceRegion) = cut_at(r, vertical, pos);
    if vertical && !(is_served(parts.0, shafts) && is_served(parts.1, shafts)) {
        (None, draw + 1)
    } else {
        (Some(parts), draw + 1)
    }
}

/// Tries to cut one region along its long axis, then along the other.
fn try_region(r: PlaceRegion, shafts: &Vec<u8>, base: u64, draw: usize) -> (c: (
    Option<(PlaceRegion, PlaceRegion)>,
    usize,
))
    requires
        r.bounded(),
        draw < 0xfff_fff0,
    ensures
        (Cut { parts: c.0, draw: c.1 as int }) == region_cut(r, shafts@, base, draw as int),
        draw <= c.1 <= draw + 3,
{
    if r.w < 7 && r.d < 7 {
        return (None, draw);
    }
    let upright: bool = r.w >= r.d;
    let (one, next): (Option<(PlaceRegion, PlaceRegion)>, usize) = try_axis(
        r,
        upright,
        shafts,
        base,
        draw + 1,
    );
    if one.is_some() {
        (one, next)
    } else {
        try_axis(r, !upright, shafts, base, next)
    }
}

pub proof fn lemma_larger_first_total(rects: Seq<PlaceRegion>)
    ensures
        total_ordering(larger_first(rects)),
{
}

proof fn lemma_areas(rects: Seq<PlaceRegion>)
    ensures
        forall|i: int| 0 <= i < rects.len() ==> 0 <= (#[trigger] rects[i]).area() <= 0xffff,
{
    assert forall|i: int| 0 <= i < rects.len() implies 0 <= (#[trigger] rects[i]).area()
        <= 0xffff by {
        let r = rects[i];
        assert(0 <= r.w * r.d <= 255 * 255) by (nonlinear_arith)
            requires
                0 <= r.w <= 255,
                0 <= r.d <= 255,
        ;
    }
}

/// The indices of the regions, largest region first.
fn order_by_area(rects: &Vec<PlaceRegion>) -> (order: Vec<usize>)
    ensures
        order@ == by_area(rects@),
        order@.len() == rects@.len(),
        forall|k: int| 0 <= k < order@.len() ==> #[trigger] order@[k] < rects@.len(),
{
    let ghost leq = larger_first(rects@);
    let ghost all = Seq::new(rects@.len(), |i: int| i as usize);
    let mut order: Vec<usize> = Vec::new();
    assert(all.take(0) =~= order@);
    for n in 0..rects.len()
        invariant
            leq == larger_first(rects@),
            all == Seq::new(rects@.len(), |i: int| i as usize),
            order@.len() == n,
            order@.to_multiset() == all.take(n as int).to_multiset(),
            sorted_by(order@, leq),
            forall|k: int| 0 <= k < order@.len() ==> #[trigger] order@[k] < n,
    {
        proof {
            lemma_areas(rects@);
        }
        let own: u32 = rects[n].w as u32 * rects[n].d as u32;
        // Regions at least as large, which are all older, stay in front.
        let mut at: usize = order.len();
        while at > 0 && (rects[order[at - 1]].w as u32 * (rects[order[at - 1]].d as u32)) < own
            invariant
                leq == larger_first(rects@),
                n < rects.len(),
                at <= order@.len(),
                order@.len() == n,
                own == rects@[n as int].area(),
                forall|k: int| 0 <= k < order@.len() ==> #[trigger] order@[k] < n,
                forall|k: int|
                    at <= k < order@.len() ==> rects@[#[trigger] order@[k] as int].area() < own,
                forall|i: int| 0 <= i < rects@.len() ==> 0 <= (#[trigger] rects@[i]).area() <= 0xffff,
            decreases at,
        {
            at = at - 1;
        }
        let ghost before = order@;
        order.insert(at, n);
        proof {
            assert(all.take(n + 1) =~= all.take(n as int).push(n));
            to_multiset_insert(before, at as int, n);
            to_multiset_build(all.take(n as int), n);
            assert forall|i: int, j: int| 0 <= i < j < order@.len() implies #[trigger] leq(
                order@[i],
                order@[j],
            ) by {
                let oi = if i < at {
                    i
                } else {
                    i - 1
                };
                let oj = if j < at {
                    j
                } else {
                    j - 1
                };
                if i != at && j != at {
                    assert(leq(before[oi], before[oj]));
                } else if i == at {
                    assert(rects@[before[oj] as int].area() < own);
                } else {
                    if at > 0 {
                        assert(rects@[before[at - 1] as int].area() >= own);
                        if oi < at - 1 {
                            assert(leq(before[oi], before[at - 1]));
                        }
                    }
                }
            }
        }
    }
    proof {
        assert(all.take(rects@.len() as int) =~= all);
        lemma_larger_first_total(rects@);
        all.lemma_sort_by_ensures(leq);
        lemma_sorted_unique(order@, all.sort_by(leq), leq);
    }
    order
}

/// Cuts a region into units. The number is drawn up to `max_units`; each cut
/// splits the largest region that can be split, along its long axis first and
/// along x on ties, and where there are shafts no cut leaves a unit without
/// one.
pub fn split_units(
    region: PlaceRegion,
    max_units: u8,
    shafts: &Vec<u8>,
    base: u64,
) -> (units: Vec<PlaceRegion>)
    requires
        region.bounded(),
    ensures
        units@ == units_of(region, max_units as int, shafts@, base),
{
    let mut rects: Vec<PlaceRegion> = Vec::new();
    rects.push(region);
    assert(rects@ =~= seq![region]);
    if max_units <= 1 {
        return rects;
    }
    let target: usize = 1 + pick(base, 0, max_units as usize);
    let mut draw: usize = 1;
    while rects.len() < target
        invariant
            1 <= rects@.len() <= target <= 255,
            draw <= 1 + 768 * rects@.len(),
            forall|i: int| 0 <= i < rects@.len() ==> (#[trigger] rects@[i]).bounded(),
            units_of(region, max_units as int, shafts@, base) == cut_until(
                rects@,
                target as int,
                shafts@,
                base,
                draw as int,
            ),
        decreases target - rects.len(),
    {
        let order: Vec<usize> = order_by_area(&rects);
        let ghost start = draw as int;
        let mut pos: usize = 0;
        let mut found: Option<(usize, PlaceRegion, PlaceRegion)> = None;
        while pos < order.len() && found.is_none()
            invariant
                order@ == by_area(rects@),
                order@.len() == rects@.len(),
                rects@.len() <= 255,
                pos <= order@.len(),
                forall|k: int| 0 <= k < order@.len() ==> #[trigger] order@[k] < rects@.len(),
                forall|i: int| 0 <= i < rects@.len() ==> (#[trigger] rects@[i]).bounded(),
                start <= 1 + 768 * rects@.len(),
                draw <= start + 3 * pos,
                found is None ==> first_cut(rects@, order@, 0, shafts@, base, start) == first_cut(
                    rects@,
                    order@,
                    pos as int,
                    shafts@,
                    base,
                    draw as int,
                ),
                found matches Some((i, a, b)) ==> i < rects@.len() && first_cut(
                    rects@,
                    order@,
                    0,
                    shafts@,
                    base,
                    start,
                ) == Some((i as int, Cut { parts: Some((a, b)), draw: draw as int })),
            decreases order.len() - pos,
        {
            let i: usize = order[pos];
            let (parts, next): (Option<(PlaceRegion, PlaceRegion)>, usize) = try_region(
                rects[i],
                shafts,
                base,
                draw,
            );
            draw = next;
            pos = pos + 1;
            if let Some((a, b)) = parts {
                found = Some((i, a, b));
            }
        }
        match found {
            None => {
                return rects;
            },
            Some((i, a, b)) => {
                proof {
                    lemma_first_cut_halves(rects@, order@, 0, shafts@, base, start);
                }
                let ghost before = rects@;
                rects.set(i, a);
                rects.push(b);
                assert(rects@ =~= after_cut(before, i as int, (a, b)));
            },
        }
    }
    rects
}

/// What a cut yields: two bounded parts, three cells long along the axis of
/// the cut, that together are the region.
pub open spec fn proper_halves(r: PlaceRegion, a: PlaceRegion, b: PlaceRegion) -> bool {
    &&& a.bounded() && b.bounded()
    &&& forall|c: (int, int)| #[trigger] r.covers(c) <==> a.covers(c) || b.covers(c)
    &&& forall|c: (int, int)| !(#[trigger] a.covers(c) && b.covers(c))
    &&& a.w >= capped(r.w as int, 3) && b.w >= capped(r.w as int, 3)
    &&& a.d >= capped(r.d as int, 3) && b.d >= capped(r.d as int, 3)
}

proof fn lemma_axis_cut(r: PlaceRegion, vertical: bool, shafts: Seq<u8>, base: u64, draw: int)
    requires
        r.bounded(),
    ensures
        axis_cut(r, vertical, shafts, base, draw).parts matches Some((a, b)) ==> proper_halves(
            r,
            a,
            b,
        ) && (served(r, shafts) ==> served(a, shafts) && served(b, shafts)),
{
    let c = axis_cut(r, vertical, shafts, base, draw);
    if let Some((a, b)) = c.parts {
        let len = if vertical {
            r.w as int
        } else {
            r.d as int
        };
        let pos = 3 + stream_index(base, draw, len - 5);
        assert(3 <= pos <= len - 3);
        if !vertical && served(r, shafts) && shafts.len() > 0 {
            let i = choose|i: int| 0 <= i < shafts.len() && crosses(r, #[trigger] shafts[i]);
            assert(crosses(a, shafts[i]) && crosses(b, shafts[i]));
        }
    }
}

/// A cut that was found is a proper one, of one of the regions.
pub proof fn lemma_first_cut_halves(
    rects: Seq<PlaceRegion>,
    order: Seq<usize>,
    pos: int,
    shafts: Seq<u8>,
    base: u64,
    draw: int,
)
    requires
        0 <= pos,
        forall|k: int| 0 <= k < order.len() ==> #[trigger] order[k] < rects.len(),
        forall|i: int| 0 <= i < rects.len() ==> (#[trigger] rects[i]).bounded(),
    ensures
        first_cut(rects, order, pos, shafts, base, draw) matches Some((i, cut)) ==> {
            &&& 0 <= i < rects.len()
            &&& cut.parts matches Some((a, b)) && proper_halves(rects[i], a, b) && (served(
                rects[i],
                shafts,
            ) ==> served(a, shafts) && served(b, shafts))
        },
    decreases order.len() - pos,
{
    if pos < order.len() {
        let i = order[pos] as int;
        let r = rects[i];
        let cut = region_cut(r, shafts, base, draw);
        let upright = upright_first(r);
        lemma_axis_cut(r, upright, shafts, base, draw + 1);
        lemma_axis_cut(
            r,
            !upright,
            shafts,
            base,
            axis_cut(r, upright, shafts, base, draw + 1).draw,
        );
        lemma_first_cut_halves(rects, order, pos + 1, shafts, base, cut.draw);
    }
}

/// The regions cover `whole` cell by cell, none twice.
pub open spec fn partitions(rects: Seq<PlaceRegion>, whole: PlaceRegion) -> bool {
    &&& forall|c: (int, int)| #[trigger]
        whole.covers(c) ==> exists|i: int| 0 <= i < rects.len() && (#[trigger] rects[i]).covers(c)
    &&& forall|i: int, c: (int, int)|
        0 <= i < rects.len() && #[trigger] rects[i].covers(c) ==> whole.covers(c)
    &&& forall|i: int, j: int, c: (int, int)|
        0 <= i < j < rects.len() ==> !(#[trigger] rects[i].covers(c) && #[trigger] rects[j].covers(
            c,
        ))
}

/// Every unit is bounded and at least as wide and deep as the least part of
/// the whole.
pub open spec fn roomy(rects: Seq<PlaceRegion>, whole: PlaceRegion) -> bool {
    forall|i: int|
        0 <= i < rects.len() ==> (#[trigger] rects[i]).bounded() && rects[i].w >= capped(
            whole.w as int,
            3,
        ) && rects[i].d >= capped(whole.d as int, 3)
}

/// Every unit has plumbing, where there is any to be had.
pub open spec fn all_served(rects: Seq<PlaceRegion>, shafts: Seq<u8>) -> bool {
    forall|i: int| 0 <= i < rects.len() ==> served(#[trigger] rects[i], shafts)
}

proof fn lemma_after_cut(
    rects: Seq<PlaceRegion>,
    whole: PlaceRegion,
    i: int,
    a: PlaceRegion,
    b: PlaceRegion,
)
    requires
        0 <= i < rects.len(),
        partitions(rects, whole),
        roomy(rects, whole),
        proper_halves(rects[i], a, b),
    ensures
        partitions(after_cut(rects, i, (a, b)), whole),
        roomy(after_cut(rects, i, (a, b)), whole),
{
    let next = after_cut(rects, i, (a, b));
    let n = rects.len() as int;
    assert forall|c: (int, int)| #[trigger] whole.covers(c) implies exists|k: int|
        0 <= k < next.len() && (#[trigger] next[k]).covers(c) by {
        let k = choose|k: int| 0 <= k < rects.len() && (#[trigger] rects[k]).covers(c);
        if k == i {
            assert(rects[i].covers(c));
            if a.covers(c) {
                assert(next[i].covers(c));
            } else {
                assert(next[n].covers(c));
            }
        } else {
            assert(next[k].covers(c));
        }
    }
    assert forall|k: int, c: (int, int)|
        0 <= k < next.len() && #[trigger] next[k].covers(c) implies whole.covers(c) by {
        if k == i || k == n {
            assert(rects[i].covers(c));
        } else {
            assert(rects[k].covers(c));
        }
    }
    assert forall|j: int, k: int, c: (int, int)| 0 <= j < k < next.len() implies !(
    #[trigger] next[j].covers(c) && #[trigger] next[k].covers(c)) by {
        if next[j].covers(c) && next[k].covers(c) {
            let oj = if j == i {
                i
            } else {
                j
            };
            let ok = if k == n {
                i
            } else {
                k
            };
            assert(rects[oj].covers(c) && rects[ok].covers(c));
            if oj == ok {
                assert(a.covers(c) && b.covers(c));
            } else if oj < ok {
                assert(!(rects[oj].covers(c) && rects[ok].covers(c)));
            } else {
                assert(!(rects[ok].covers(c) && rects[oj].covers(c)));
            }
        }
    }
}

proof fn lemma_cut_until(
    rects: Seq<PlaceRegion>,
    whole: PlaceRegion,
    target: int,
    shafts: Seq<u8>,
    base: u64,
    draw: int,
)
    requires
        1 <= rects.len() <= target <= 255,
        partitions(rects, whole),
        roomy(rects, whole),
        served(whole, shafts) ==> all_served(rects, shafts),
    ensures
        ({
            let units = cut_until(rects, target, shafts, base, draw);
            &&& 1 <= units.len() <= target
            &&& partitions(units, whole)
            &&& roomy(units, whole)
            &&& served(whole, shafts) ==> all_served(units, shafts)
        }),
    decreases target - rects.len(),
{
    if rects.len() < target {
        let order = by_area(rects);
        lemma_order_indices(rects);
        lemma_first_cut_halves(rects, order, 0, shafts, base, draw);
        if let Some((i, cut)) = first_cut(rects, order, 0, shafts, base, draw) {
            let (a, b) = cut.parts->0;
            lemma_after_cut(rects, whole, i, a, b);
            if served(whole, shafts) {
                assert(served(rects[i], shafts));
                assert(all_served(after_cut(rects, i, (a, b)), shafts));
            }
            lemma_cut_until(after_cut(rects, i, (a, b)), whole, target, shafts, base, cut.draw);
        }
    }
}

pub proof fn lemma_order_indices(rects: Seq<PlaceRegion>)
    requires
        rects.len() <= 255,
    ensures
        forall|k: int| 0 <= k < by_area(rects).len() ==> #[trigger] by_area(rects)[k] < rects.len(),
{
    let all = Seq::new(rects.len(), |i: int| i as usize);
    lemma_larger_first_total(rects);
    all.lemma_sort_by_ensures(larger_first(rects));
    let order = by_area(rects);
    assert forall|k: int| 0 <= k < order.len() implies #[trigger] order[k] < rects.len() by {
        if !all.contains(order[k]) {
            assert(!order.contains(order[k]));
        }
    }
}

/// Units partition the region that they were cut from: every cell of it lies
/// in exactly one unit, and no unit reaches beyond it. There is at least one
/// unit and no more than asked for, cuts leave three cells to each side, and
/// where the region has plumbing every unit has.
pub proof fn law_units_partition(
    region: PlaceRegion,
    max_units: u8,
    shafts: Seq<u8>,
    base: u64,
)
    requires
        region.bounded(),
    ensures
        ({
            let units = units_of(region, max_units as int, shafts, base);
            &&& 1 <= units.len() <= at_least(max_units as int, 1)
            &&& partitions(units, region)
            &&& roomy(units, region)
            &&& served(region, shafts) ==> all_served(units, shafts)
        }),
{
    let one = seq![region];
    assert(partitions(one, region)) by {
        assert forall|c: (int, int)| #[trigger] region.covers(c) implies exists|i: int|
            0 <= i < one.len() && (#[trigger] one[i]).covers(c) by {
            assert(one[0].covers(c));
        }
    }
    if max_units > 1 {
        lemma_cut_until(
            one,
            region,
            1 + stream_index(base, 0, max_units as int),
            shafts,
            base,
            1,
        );
    }
}

/// One region is the whole order.
proof fn lemma_order_of_one(region: PlaceRegion)
    ensures
        by_area(seq![region]).len() == 1,
        by_area(seq![region])[0] == 0,
{
    let rects = seq![region];
    lemma_order_indices(rects);
    lemma_larger_first_total(rects);
    let all = Seq::new(rects.len(), |i: int| i as usize);
    all.lemma_sort_by_ensures(larger_first(rects));
    vstd::seq_lib::to_multiset_len(all);
    vstd::seq_lib::to_multiset_len(by_area(rects));
    assert(by_area(rects)[0] < rects.len());
}

/// Two units are one cut of the region.
proof fn lemma_one_cut(region: PlaceRegion, shafts: Seq<u8>, base: u64)
    requires
        units_of(region, 2, shafts, base).len() == 2,
        region_cut(region, shafts, base, 1).parts is Some,
    ensures
        units_of(region, 2, shafts, base) == after_cut(
            seq![region],
            0,
            region_cut(region, shafts, base, 1).parts->0,
        ),
{
    let rects = seq![region];
    let order = by_area(rects);
    lemma_order_of_one(region);
    let cut = region_cut(region, shafts, base, 1);
    assert(rects[0] == region);
    assert(first_cut(rects, order, 0, shafts, base, 1) == Some((0int, cut)));
    let next = after_cut(rects, 0, cut.parts->0);
    let target = 1 + stream_index(base, 0, 2);
    assert(next.len() == 2);
    assert(cut_until(next, target, shafts, base, cut.draw) == next);
    if target <= 1 {
        assert(cut_until(rects, target, shafts, base, 1) == rects);
    }
}

/// A cut along x puts the parts side by side.
proof fn lemma_side_by_side(region: PlaceRegion, shafts: Seq<u8>, base: u64, draw: int)
    requires
        region.bounded(),
        region.w >= 7,
        shafts.len() == 0,
    ensures
        axis_cut(region, true, shafts, base, draw).parts matches Some((a, b)) && {
            &&& a.z0 == region.z0 && a.d == region.d
            &&& b.z0 == region.z0 && b.d == region.d
            &&& a.x0 == region.x0
            &&& b.x0 == region.x0 + a.w
            &&& a.w + b.w == region.w
        },
{
    let pos = 3 + stream_index(base, draw, region.w - 5);
    assert(3 <= pos <= region.w - 3);
}

/// Without shafts, a region that is at least as wide as it is deep and long
/// enough is split along x: the two parts stand side by side, and each has the
/// whole depth.
pub proof fn law_ties_split_x(region: PlaceRegion, shafts: Seq<u8>, base: u64)
    requires
        region.bounded(),
        region.w >= region.d,
        region.w >= 7,
        shafts.len() == 0,
        units_of(region, 2, shafts, base).len() == 2,
    ensures
        ({
            let units = units_of(region, 2, shafts, base);
            let (a, b) = (units[0], units[1]);
            &&& a.z0 == region.z0 && a.d == region.d
            &&& b.z0 == region.z0 && b.d == region.d
            &&& a.x0 == region.x0
            &&& b.x0 == region.x0 + a.w
            &&& a.w + b.w == region.w
        }),
{
    lemma_side_by_side(region, shafts, base, 2);
    lemma_one_cut(region, shafts, base);
    let rects = seq![region];
    let cut = region_cut(region, shafts, base, 1);
    let next = after_cut(rects, 0, cut.parts->0);
    assert(units_of(region, 2, shafts, base) == next);
}

} // verus!
