//! What holds of every cell of a city.
use crate::building::lot_unit;
use crate::chunk::{
    borders_road, chunk_bytes, city_cell, dominant, flat, ground_flags, is_chunk, is_crossing,
    is_garden, kept_free, lemma_strongest, lot_cell, lot_interior, network, pulls, road_flags,
    runner_up, shed, strongest, widens, world_coord, CellField,
};
use crate::config::WorldConfig;
use crate::data::{cell_place, is_cell_at, Cell, CellFlags, ChunkBuffer};
use crate::float::error::lemma_eased_bits;
use crate::float::laws::lemma_absolute_increases;
use crate::float::{absolute, lemma_packed};
use crate::hash::{domain, law_unit_draw_range};
use crate::lot::{located, lot_at};
use crate::region::VoronoiDiagram;
use crate::single::{single, F32};
use crate::street::{law_streets, StreetInfo};
use crate::zones::{ZoneParams, ZoneType, ZONE_COUNT};
use vstd::arithmetic::power2::{lemma_pow2_adds, lemma_pow2_unfold, pow2};
use vstd::prelude::*;

verus! {

/// A single trait shows exactly where it was inserted.
proof fn lemma_single(f: CellFlags, a: u8, b: u8)
    requires
        a & b == 0,
        b != 0,
    ensures
        f.with(a).has(b) == f.has(b),
        f.with(a).has(a),
{
    let x = f.bits;
    assert((x | a) & a == a) by (bit_vector);
    assert(a & b == 0 ==> ((x | a) & b == b <==> x & b == b)) by (bit_vector);
}

/// The six traits are apart from one another.
pub proof fn lemma_traits(f: CellFlags)
    ensures
        f.with(CellFlags::IS_STREET).has(CellFlags::IS_STREET),
        f.with(CellFlags::IS_STREET).has(CellFlags::IS_PARK) == f.has(CellFlags::IS_PARK),
        f.with(CellFlags::IS_STREET).has(CellFlags::IS_ARTERIAL) == f.has(CellFlags::IS_ARTERIAL),
        f.with(CellFlags::IS_STREET).has(CellFlags::IS_SIDEWALK) == f.has(CellFlags::IS_SIDEWALK),
        f.with(CellFlags::IS_STREET).has(CellFlags::IS_PLAZA) == f.has(CellFlags::IS_PLAZA),
        f.with(CellFlags::IS_STREET).has(CellFlags::IS_GREENWAY) == f.has(CellFlags::IS_GREENWAY),
        f.with(CellFlags::IS_ARTERIAL).has(CellFlags::IS_ARTERIAL),
        f.with(CellFlags::IS_ARTERIAL).has(CellFlags::IS_STREET) == f.has(CellFlags::IS_STREET),
        f.with(CellFlags::IS_ARTERIAL).has(CellFlags::IS_PARK) == f.has(CellFlags::IS_PARK),
        f.with(CellFlags::IS_ARTERIAL).has(CellFlags::IS_SIDEWALK) == f.has(CellFlags::IS_SIDEWALK),
        f.with(CellFlags::IS_ARTERIAL).has(CellFlags::IS_GREENWAY) == f.has(CellFlags::IS_GREENWAY),
        f.with(CellFlags::IS_GREENWAY).has(CellFlags::IS_GREENWAY),
        f.with(CellFlags::IS_GREENWAY).has(CellFlags::IS_STREET) == f.has(CellFlags::IS_STREET),
        f.with(CellFlags::IS_GREENWAY).has(CellFlags::IS_PARK) == f.has(CellFlags::IS_PARK),
        f.with(CellFlags::IS_GREENWAY).has(CellFlags::IS_ARTERIAL) == f.has(CellFlags::IS_ARTERIAL),
        f.with(CellFlags::IS_GREENWAY).has(CellFlags::IS_SIDEWALK) == f.has(CellFlags::IS_SIDEWALK),
        f.with(CellFlags::IS_PLAZA).has(CellFlags::IS_PLAZA),
        f.with(CellFlags::IS_PLAZA).has(CellFlags::IS_STREET) == f.has(CellFlags::IS_STREET),
        f.with(CellFlags::IS_PLAZA).has(CellFlags::IS_ARTERIAL) == f.has(CellFlags::IS_ARTERIAL),
        f.with(CellFlags::IS_PLAZA).has(CellFlags::IS_SIDEWALK) == f.has(CellFlags::IS_SIDEWALK),
        f.with(CellFlags::IS_PLAZA).has(CellFlags::IS_GREENWAY) == f.has(CellFlags::IS_GREENWAY),
        f.with(CellFlags::IS_PLAZA).has(CellFlags::IS_PARK) == f.has(CellFlags::IS_PARK),
        f.with(CellFlags::IS_SIDEWALK).has(CellFlags::IS_SIDEWALK),
        f.with(CellFlags::IS_SIDEWALK).has(CellFlags::IS_STREET) == f.has(CellFlags::IS_STREET),
        f.with(CellFlags::IS_SIDEWALK).has(CellFlags::IS_PARK) == f.has(CellFlags::IS_PARK),
        f.with(CellFlags::IS_SIDEWALK).has(CellFlags::IS_ARTERIAL) == f.has(CellFlags::IS_ARTERIAL),
        f.with(CellFlags::IS_SIDEWALK).has(CellFlags::IS_GREENWAY) == f.has(CellFlags::IS_GREENWAY),
        f.with(CellFlags::IS_PARK).has(CellFlags::IS_PARK),
        f.with(CellFlags::IS_PARK).has(CellFlags::IS_STREET) == f.has(CellFlags::IS_STREET),
        f.with(CellFlags::IS_PARK).has(CellFlags::IS_ARTERIAL) == f.has(CellFlags::IS_ARTERIAL),
        f.with(CellFlags::IS_PARK).has(CellFlags::IS_SIDEWALK) == f.has(CellFlags::IS_SIDEWALK),
        f.with(CellFlags::IS_PARK).has(CellFlags::IS_GREENWAY) == f.has(CellFlags::IS_GREENWAY),
        f.with(CellFlags::IS_PARK).has(CellFlags::IS_PLAZA) == f.has(CellFlags::IS_PLAZA),
{
    assert(1u8 & 2 == 0 && 1u8 & 4 == 0 && 1u8 & 8 == 0 && 1u8 & 16 == 0 && 1u8 & 32 == 0
        && 2u8 & 1 == 0 && 2u8 & 4 == 0 && 2u8 & 8 == 0 && 2u8 & 16 == 0 && 2u8 & 32 == 0
        && 4u8 & 1 == 0 && 4u8 & 2 == 0 && 4u8 & 8 == 0 && 4u8 & 32 == 0 && 8u8 & 1 == 0
        && 8u8 & 2 == 0 && 8u8 & 4 == 0 && 8u8 & 32 == 0 && 16u8 & 1 == 0 && 16u8 & 2 == 0
        && 16u8 & 4 == 0 && 16u8 & 8 == 0 && 16u8 & 32 == 0 && 32u8 & 1 == 0 && 32u8 & 2 == 0
        && 32u8 & 4 == 0 && 32u8 & 8 == 0) by (bit_vector);
    lemma_single(f, 4, 2);
    lemma_single(f, 8, 2);
    lemma_single(f, 32, 2);
    lemma_single(f, 1, 2);
    lemma_single(f, 1, 4);
    lemma_single(f, 1, 8);
    lemma_single(f, 1, 16);
    lemma_single(f, 1, 32);
    lemma_single(f, 4, 1);
    lemma_single(f, 4, 8);
    lemma_single(f, 4, 32);
    lemma_single(f, 32, 1);
    lemma_single(f, 32, 4);
    lemma_single(f, 32, 8);
    lemma_single(f, 16, 1);
    lemma_single(f, 16, 2);
    lemma_single(f, 16, 4);
    lemma_single(f, 16, 8);
    lemma_single(f, 16, 32);
    lemma_single(f, 8, 1);
    lemma_single(f, 8, 4);
    lemma_single(f, 8, 32);
    lemma_single(f, 2, 1);
    lemma_single(f, 2, 4);
    lemma_single(f, 2, 8);
    lemma_single(f, 2, 16);
    lemma_single(f, 2, 32);
}

/// No trait is in the empty set.
pub proof fn lemma_none()
    ensures
        ({
            let none = CellFlags { bits: CellFlags::NONE };
            &&& !none.has(CellFlags::IS_STREET)
            &&& !none.has(CellFlags::IS_PARK)
            &&& !none.has(CellFlags::IS_ARTERIAL)
            &&& !none.has(CellFlags::IS_SIDEWALK)
            &&& !none.has(CellFlags::IS_PLAZA)
            &&& !none.has(CellFlags::IS_GREENWAY)
        }),
{
    assert(0u8 & 1 == 0 && 0u8 & 2 == 0 && 0u8 & 4 == 0 && 0u8 & 8 == 0 && 0u8 & 16 == 0 && 0u8 & 32
        == 0) by (bit_vector);
}

/// The road traits say what the network says, and flow avenues add to it:
/// nothing that is a road ceases to be one.
pub proof fn law_roads(info: StreetInfo, s: crate::chunk::Spot)
    requires
        info.arterial ==> info.street,
    ensures
        ({
            let f = road_flags(info, s);
            &&& f.has(CellFlags::IS_STREET) <==> info.street || s.flow
            &&& f.has(CellFlags::IS_ARTERIAL) <==> info.arterial || s.flow
            &&& f.has(CellFlags::IS_GREENWAY) <==> !s.flow && !info.street && info.greenway
            &&& !f.has(CellFlags::IS_SIDEWALK)
            &&& !f.has(CellFlags::IS_PARK)
        }),
{
    let none = CellFlags { bits: CellFlags::NONE };
    lemma_none();
    lemma_traits(none);
    let a = none.with(CellFlags::IS_STREET);
    lemma_traits(a);
    let b = a.with(CellFlags::IS_ARTERIAL);
    lemma_traits(b);
    lemma_traits(b.with(CellFlags::IS_STREET));
    lemma_traits(a.with(CellFlags::IS_STREET));
}

/// The traits of the ground at a cell: an avenue is a road, pavement is beside
/// a road and never on one, and parks are never paved.
#[verifier::rlimit(60)]
pub proof fn law_ground(
    v: VoronoiDiagram,
    params: ZoneParams,
    zone: ZoneType,
    f: CellField,
    x: int,
    z: int,
    seed: u64,
)
    ensures
        ({
            let g = ground_flags(v, params, zone, f, x, z, seed);
            let info = network(v, params, f.here, x, z, seed);
            &&& g.has(CellFlags::IS_STREET) <==> info.street || f.here.flow
            &&& g.has(CellFlags::IS_ARTERIAL) <==> info.arterial || f.here.flow
            &&& g.has(CellFlags::IS_GREENWAY) <==> !f.here.flow && !info.street && info.greenway
            &&& g.has(CellFlags::IS_ARTERIAL) ==> g.has(CellFlags::IS_STREET)
            &&& g.has(CellFlags::IS_SIDEWALK) <==> !g.has(CellFlags::IS_STREET) && !g.has(
                CellFlags::IS_GREENWAY,
            ) && borders_road(v, params, f, x, z, seed)
            &&& g.has(CellFlags::IS_PARK) ==> !g.has(CellFlags::IS_STREET) && !g.has(
                CellFlags::IS_SIDEWALK,
            )
            &&& zone == ZoneType::Park ==> kept_free(g)
        }),
{
    let info = network(v, params, f.here, x, z, seed);
    let block = located(f.here.local_x, f.here.local_z, params.block_size);
    law_streets(
        block,
        params.arterial_every,
        f.here.diagonal,
        v.on_seam(crate::double::F64::integer(x), crate::double::F64::integer(z)),
        seed,
    );
    law_roads(info, f.here);
    let roads = road_flags(info, f.here);
    lemma_traits(roads);
    let squares = if roads.has(CellFlags::IS_STREET) && is_crossing(block) && widens(
        zone,
        info,
        f.here,
        x,
        z,
        seed,
    ) {
        roads.with(CellFlags::IS_PLAZA)
    } else {
        roads
    };
    lemma_traits(squares);
    let walks = if !squares.has(CellFlags::IS_STREET) && !squares.has(CellFlags::IS_GREENWAY)
        && borders_road(v, params, f, x, z, seed) {
        squares.with(CellFlags::IS_SIDEWALK)
    } else {
        squares
    };
    lemma_traits(walks);
    let parks = if !walks.has(CellFlags::IS_STREET) && !walks.has(CellFlags::IS_SIDEWALK)
        && !walks.has(CellFlags::IS_GREENWAY) && (zone == ZoneType::Park || is_garden(
        zone,
        block,
        seed,
    )) {
        walks.with(CellFlags::IS_PARK)
    } else {
        walks
    };
    lemma_traits(parks);
}

/// Paved and green ground carries no building and no interior; only a built
/// cell has an interior, and it is that of its lot.
pub proof fn law_free_ground_is_flat(
    c: WorldConfig,
    v: VoronoiDiagram,
    x: int,
    z: int,
    f: CellField,
)
    ensures
        ({
            let cell = city_cell(c, v, x, z, f);
            let params = c.blended(cell.zone_affinity);
            let block = located(f.here.local_x, f.here.local_z, params.block_size);
            &&& kept_free(cell.flags) ==> cell.height == flat() && cell.interior_id == 0
            &&& cell.interior_id != 0 ==> flat().below(cell.height)
            &&& flat().below(cell.height) ==> cell.interior_id == lot_interior(
                block.bx,
                block.bz,
                lot_at(block, params.block_size, c.seed).slot,
                c.seed,
            )
        }),
{
    let cell = city_cell(c, v, x, z, f);
    lemma_order(flat(), cell.height);
    lemma_order(flat(), flat());
}

/// A number is never both at most another and above it.
proof fn lemma_order(a: F32, b: F32)
    ensures
        b.at_most(a) ==> !a.below(b),
        !a.below(a),
{
    reveal(F32::below);
    reveal(F32::at_most);
}

/// The cells of one lot share one interior, and one palette.
pub proof fn law_lot_mates(
    v: VoronoiDiagram,
    params: ZoneParams,
    zone: ZoneType,
    seed: u64,
    a: [F32; ZONE_COUNT],
    f: CellField,
    flags: CellFlags,
    x: int,
    z: int,
    a2: [F32; ZONE_COUNT],
    f2: CellField,
    flags2: CellFlags,
    x2: int,
    z2: int,
)
    requires
        ({
            let b = located(f.here.local_x, f.here.local_z, params.block_size);
            let b2 = located(f2.here.local_x, f2.here.local_z, params.block_size);
            &&& b.bx == b2.bx && b.bz == b2.bz
            &&& lot_at(b, params.block_size, seed).slot == lot_at(b2, params.block_size, seed).slot
        }),
        flat().below(lot_cell(v, a, params, zone, f, flags, x, z, seed).height),
        flat().below(lot_cell(v, a2, params, zone, f2, flags2, x2, z2, seed).height),
    ensures
        lot_cell(v, a, params, zone, f, flags, x, z, seed).interior_id == lot_cell(
            v,
            a2,
            params,
            zone,
            f2,
            flags2,
            x2,
            z2,
            seed,
        ).interior_id,
        lot_cell(v, a, params, zone, f, flags, x, z, seed).palette_id == lot_cell(
            v,
            a2,
            params,
            zone,
            f2,
            flags2,
            x2,
            z2,
            seed,
        ).palette_id,
{
    let b = located(f.here.local_x, f.here.local_z, params.block_size);
    let b2 = located(f2.here.local_x, f2.here.local_z, params.block_size);
    crate::lot::law_lot_cells_agree(b, b2, params.block_size, seed);
}

/// Do two measurements of a cell agree?
pub open spec fn agree(f: CellField, g: CellField) -> bool {
    &&& f.powers@ == g.powers@
    &&& f.here == g.here
    &&& f.east == g.east
    &&& f.west == g.west
    &&& f.south == g.south
    &&& f.north == g.north
    &&& f.height_cap == g.height_cap
}

/// Is this what a survey of the world finds at the cells of a chunk, row by
/// row?
pub open spec fn measures(
    field: Seq<CellField>,
    survey: spec_fn((int, int)) -> CellField,
    cx: i32,
    cy: i32,
    chunk_size: u16,
) -> bool {
    let n = chunk_size as int;
    &&& field.len() == n * n
    &&& forall|i: int|
        0 <= i < n * n ==> agree(
            #[trigger] field[i],
            survey((world_coord(cx, n, i % n), world_coord(cy, n, i / n))),
        )
}

/// A cell follows from what is measured there, and not from how it is held.
proof fn lemma_agreeing_cells(
    c: WorldConfig,
    d: WorldConfig,
    v: VoronoiDiagram,
    x: int,
    z: int,
    f: CellField,
    g: CellField,
)
    requires
        agree(f, g),
        d == (WorldConfig { chunk_size: d.chunk_size, ..c }),
    ensures
        city_cell(c, v, x, z, f) == city_cell(d, v, x, z, g),
{
    let a = pulls(v, f.powers@);
    assert(c.blended(a) == d.blended(a));
    let params = c.blended(a);
    let zone = dominant(a);
    assert(borders_road(v, params, f, x, z, c.seed) == borders_road(v, params, g, x, z, c.seed));
    let flags = ground_flags(v, params, zone, f, x, z, c.seed);
    assert(flags == ground_flags(v, params, zone, g, x, z, c.seed));
    assert(lot_cell(v, a, params, zone, f, flags, x, z, c.seed) == lot_cell(
        v,
        a,
        params,
        zone,
        g,
        flags,
        x,
        z,
        c.seed,
    ));
}

/// Cell for cell, chunks of one measurement have the same bytes.
proof fn lemma_agreeing_bytes(
    cx: i32,
    cy: i32,
    c: WorldConfig,
    v: VoronoiDiagram,
    f: Seq<CellField>,
    g: Seq<CellField>,
    k: int,
)
    requires
        0 <= k <= f.len(),
        k <= g.len(),
        forall|i: int| 0 <= i < k ==> agree(#[trigger] f[i], g[i]),
    ensures
        chunk_bytes(cx, cy, c, v, f, k) == chunk_bytes(cx, cy, c, v, g, k),
    decreases k,
{
    if k > 0 {
        lemma_agreeing_bytes(cx, cy, c, v, f, g, k - 1);
        let n = c.chunk_size as int;
        lemma_agreeing_cells(
            c,
            c,
            v,
            world_coord(cx, n, (k - 1) % n),
            world_coord(cy, n, (k - 1) / n),
            f[k - 1],
            g[k - 1],
        );
    }
}

/// One seed is one city: the same configuration, the same districts and
/// measurements that agree give the same chunk, byte for byte.
pub proof fn law_one_seed_one_city(
    a: ChunkBuffer,
    b: ChunkBuffer,
    cx: i32,
    cy: i32,
    c: WorldConfig,
    v: VoronoiDiagram,
    a_field: Seq<CellField>,
    b_field: Seq<CellField>,
    survey: spec_fn((int, int)) -> CellField,
)
    requires
        is_chunk(a, cx, cy, c, v, a_field),
        is_chunk(b, cx, cy, c, v, b_field),
        measures(a_field, survey, cx, cy, c.chunk_size),
        measures(b_field, survey, cx, cy, c.chunk_size),
    ensures
        a@ == b@,
{
    reveal(is_chunk);
    let n = c.chunk_size as int;
    assert forall|i: int| 0 <= i < n * n implies agree(#[trigger] a_field[i], b_field[i]) by {
        assert(agree(b_field[i], survey((world_coord(cx, n, i % n), world_coord(cy, n, i / n)))));
    }
    assert(n * n >= 0) by (nonlinear_arith);
    lemma_agreeing_bytes(cx, cy, c, v, a_field, b_field, n * n);
}

/// Chunks are windows on one city: under configurations that differ in the
/// size of the chunks alone, a place of the world has the same cell in every
/// chunk that covers it. The places of the cell in its chunks are `(lx, ly)`
/// and `(mx, my)`.
pub proof fn law_chunks_agree(
    c: WorldConfig,
    d: WorldConfig,
    v: VoronoiDiagram,
    survey: spec_fn((int, int)) -> CellField,
    a: ChunkBuffer,
    ax: i32,
    ay: i32,
    a_field: Seq<CellField>,
    lx: int,
    ly: int,
    b: ChunkBuffer,
    bx: i32,
    by: i32,
    b_field: Seq<CellField>,
    mx: int,
    my: int,
)
    requires
        d == (WorldConfig { chunk_size: d.chunk_size, ..c }),
        is_chunk(a, ax, ay, c, v, a_field),
        is_chunk(b, bx, by, d, v, b_field),
        measures(a_field, survey, ax, ay, c.chunk_size),
        measures(b_field, survey, bx, by, d.chunk_size),
        0 <= lx < c.chunk_size,
        0 <= ly < c.chunk_size,
        0 <= mx < d.chunk_size,
        0 <= my < d.chunk_size,
        world_coord(ax, c.chunk_size as int, lx) == world_coord(bx, d.chunk_size as int, mx),
        world_coord(ay, c.chunk_size as int, ly) == world_coord(by, d.chunk_size as int, my),
    ensures
        exists|cell: Cell| #[trigger]
            is_cell_at(cell, a@, cell_place(ly * c.chunk_size + lx)) && is_cell_at(
                cell,
                b@,
                cell_place(my * d.chunk_size + mx),
            ),
{
    reveal(is_chunk);
    let (m, n) = (c.chunk_size as int, d.chunk_size as int);
    let (i, j) = (ly * m + lx, my * n + mx);
    lemma_place_in_chunk(lx, ly, m);
    lemma_place_in_chunk(mx, my, n);
    let (x, z) = (world_coord(ax, m, lx), world_coord(ay, m, ly));
    assert(agree(a_field[i], survey((x, z))));
    assert(agree(b_field[j], survey((x, z))));
    lemma_agreeing_cells(c, d, v, x, z, a_field[i], b_field[j]);
    let cell = city_cell(c, v, x, z, a_field[i]);
    assert(is_cell_at(cell, a@, cell_place(i)));
    assert(is_cell_at(city_cell(d, v, x, z, b_field[j]), b@, cell_place(j)));
}

/// The place of a cell in its chunk gives its column and row back.
pub proof fn lemma_place_in_chunk(x: int, z: int, n: int)
    requires
        0 <= x < n,
        0 <= z < n,
    ensures
        0 <= z * n + x < n * n,
        (z * n + x) % n == x,
        (z * n + x) / n == z,
{
    assert(0 <= z * n + x < n * n) by (nonlinear_arith)
        requires
            0 <= x < n,
            0 <= z < n,
    ;
    vstd::arithmetic::div_mod::lemma_fundamental_div_mod_converse(z * n + x, n, z, x);
}

/// The strongest of the first `n` zones is the strongest, and the first that
/// pulls so strongly.
proof fn lemma_strongest_wins(a: [F32; ZONE_COUNT], n: int)
    requires
        1 <= n <= ZONE_COUNT,
        forall|j: int| 0 <= j < ZONE_COUNT ==> !(#[trigger] a[j]).is_undefined(),
    ensures
        forall|j: int| 0 <= j < n ==> !a[strongest(a, n)].below(#[trigger] a[j]),
        forall|j: int|
            0 <= j < strongest(a, n) ==> (#[trigger] a[j]).below(a[strongest(a, n)]),
    decreases n,
{
    reveal(F32::below);
    reveal(F32::is_undefined);
    lemma_strongest(a, n);
    if n > 1 {
        lemma_strongest_wins(a, n - 1);
        lemma_strongest(a, n - 1);
        assert(!a[n - 1].is_undefined());
        assert(!a[strongest(a, n - 1)].is_undefined());
    }
}

/// The dominant zone pulls most strongly: no zone pulls more, and every
/// earlier one pulls less.
pub proof fn law_dominant_pulls_most(a: [F32; ZONE_COUNT])
    requires
        forall|j: int| 0 <= j < ZONE_COUNT ==> !(#[trigger] a[j]).is_undefined(),
    ensures
        ({
            let i = dominant(a).ordinal() as int;
            &&& forall|j: int| 0 <= j < ZONE_COUNT ==> !a[i].below(#[trigger] a[j])
            &&& forall|j: int| 0 <= j < i ==> (#[trigger] a[j]).below(a[i])
        }),
{
    lemma_strongest(a, ZONE_COUNT as int);
    lemma_strongest_wins(a, ZONE_COUNT as int);
}

/// The runner-up among the first `n` zones, by its pull.
proof fn lemma_runner_up(a: [F32; ZONE_COUNT], main: ZoneType, n: int)
    requires
        0 <= n <= ZONE_COUNT,
        forall|j: int| 0 <= j < ZONE_COUNT ==> flat().at_most(#[trigger] a[j]),
    ensures
        ({
            let (zone, w) = runner_up(a, main, n);
            &&& zone != main
            &&& !w.is_undefined()
            &&& forall|j: int|
                0 <= j < n && j != main.ordinal() ==> !w.below(#[trigger] a[j])
            &&& if n == 0 || (n == 1 && main.ordinal() == 0) {
                w.bits == 0xff80_0000
            } else {
                w == a[zone.ordinal() as int]
            }
        }),
    decreases n,
{
    reveal(F32::below);
    reveal(F32::at_most);
    reveal(F32::is_undefined);
    crate::single::lemma_single();
    if n > 0 {
        lemma_runner_up(a, main, n - 1);
        assert(flat().at_most(a[n - 1]));
    }
}

/// The secondary zone pulls most strongly of all but the dominant one.
pub proof fn law_secondary_pulls_next(a: [F32; ZONE_COUNT], main: ZoneType)
    requires
        forall|j: int| 0 <= j < ZONE_COUNT ==> flat().at_most(#[trigger] a[j]),
    ensures
        ({
            let zone = runner_up(a, main, ZONE_COUNT as int).0;
            &&& zone != main
            &&& forall|j: int|
                0 <= j < ZONE_COUNT && j != main.ordinal() ==> !a[zone.ordinal() as int].below(
                    #[trigger] a[j],
                )
        }),
{
    lemma_runner_up(a, main, ZONE_COUNT as int);
}

/// What 1, 4, 6 and 10 come to.
proof fn lemma_shed_bounds()
    ensures
        absolute(single(), 0x3f80_0000) == pow2(149),
        absolute(single(), 0x4080_0000) + absolute(single(), 0x40c0_0000) == absolute(
            single(),
            0x4120_0000,
        ),
{
    let f = single();
    crate::single::lemma_single();
    crate::float::lemma_pow2_values();
    lemma_packed(f, 126, 0x80_0000);
    lemma_packed(f, 128, 0x80_0000);
    lemma_packed(f, 128, 0xc0_0000);
    lemma_packed(f, 129, 0xa0_0000);
    lemma_pow2_adds(23, 126);
    lemma_pow2_unfold(129);
}

/// Market sheds are low: from 4 to 10 units.
pub proof fn law_sheds_are_low(lot_id: u64, params: ZoneParams, seed: u64)
    ensures
        0x4080_0000 <= shed(lot_id, params, seed).0.bits <= 0x4120_0000,
{
    let f = single();
    let u = lot_unit(lot_id, seed, domain::LOT_HEIGHT);
    crate::single::lemma_single();
    law_unit_draw_range(lot_id as i64, (lot_id >> 32) as i64, seed, domain::LOT_HEIGHT);
    lemma_shed_bounds();
    lemma_absolute_increases(f, u.bits as nat, 0x3f80_0000);
    lemma_eased_bits(f, 0x4080_0000, u.bits as u64, 0x40c0_0000, 0x4120_0000);
    reveal(F32::product);
    reveal(F32::sum);
}

} // verus!
