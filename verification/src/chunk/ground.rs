//! The ground between the buildings: pavement, squares and parks.
use crate::chunk::laws::{law_ground, law_roads, lemma_place_in_chunk, lemma_traits};
use crate::chunk::{
    borders_road, city_cell, ground_flags, is_chunk, network, road_flags, special, CellField,
    SpecialKind,
};
use crate::config::WorldConfig;
use crate::data::{is_cell_at, CellFlags, ChunkBuffer};
use crate::double::F64;
use crate::hash::{coord_unit, domain};
use crate::lot::located;
use crate::region::VoronoiDiagram;
use crate::single::F32;
use crate::street::law_streets;
use crate::zones::{ZoneParams, ZoneType};
use vstd::prelude::*;

verus! {

/// Pavement runs along every road: where one of the four cells beside a cell
/// is a road, the cell is a road itself, or a linear park, or pavement. The
/// fields `f` and `g` are those of the two cells.
pub proof fn law_pavement_runs_along_roads(
    v: VoronoiDiagram,
    params: ZoneParams,
    zone: ZoneType,
    other: ZoneType,
    f: CellField,
    g: CellField,
    x: int,
    z: int,
    dx: int,
    dz: int,
    seed: u64,
)
    requires
        (dx, dz) == (1int, 0int) && g.here == f.east || (dx, dz) == (-1int, 0int) && g.here
            == f.west || (dx, dz) == (0int, 1int) && g.here == f.south || (dx, dz) == (0int, -1int)
            && g.here == f.north,
        ground_flags(v, params, other, g, x + dx, z + dz, seed).has(CellFlags::IS_STREET),
    ensures
        ({
            let here = ground_flags(v, params, zone, f, x, z, seed);
            here.has(CellFlags::IS_STREET) || here.has(CellFlags::IS_GREENWAY) || here.has(
                CellFlags::IS_SIDEWALK,
            )
        }),
{
    law_ground(v, params, zone, f, x, z, seed);
    law_ground(v, params, other, g, x + dx, z + dz, seed);
}

/// There is no pavement away from roads: a cell with none beside it has none.
pub proof fn law_no_pavement_away_from_roads(
    v: VoronoiDiagram,
    params: ZoneParams,
    zone: ZoneType,
    f: CellField,
    x: int,
    z: int,
    seed: u64,
)
    requires
        !f.east.flow && !network(v, params, f.east, x + 1, z, seed).street,
        !f.west.flow && !network(v, params, f.west, x - 1, z, seed).street,
        !f.south.flow && !network(v, params, f.south, x, z + 1, seed).street,
        !f.north.flow && !network(v, params, f.north, x, z - 1, seed).street,
    ensures
        !ground_flags(v, params, zone, f, x, z, seed).has(CellFlags::IS_SIDEWALK),
{
    law_ground(v, params, zone, f, x, z, seed);
}

/// Squares and parks. A crossing of roads is a square where its draw is below
/// 0.02 in the zones of business, and below 0.15 on boulevards and flow
/// avenues; off the roads and the pavement, blocks that are squares are. Parks
/// lie off the roads, the pavement and the linear parks: all of a park zone,
/// and the residential blocks with a draw below 0.15.
#[verifier::rlimit(60)]
pub proof fn law_squares_and_parks(
    v: VoronoiDiagram,
    params: ZoneParams,
    zone: ZoneType,
    f: CellField,
    x: int,
    z: int,
    seed: u64,
)
    ensures
        ({
            let g = ground_flags(v, params, zone, f, x, z, seed);
            let info = network(v, params, f.here, x, z, seed);
            let block = located(f.here.local_x, f.here.local_z, params.block_size);
            let r = coord_unit(x as i64, z as i64, seed, domain::PLAZA);
            let business = zone == ZoneType::Downtown || zone == ZoneType::Commercial;
            let flowing = f.here.flow && !info.arterial;
            let wide = (business && r.below(F32 { bits: 0x3ca3_d70a })) || ((info.diagonal
                || flowing) && r.below(F32 { bits: 0x3e19_999a }));
            let road = g.has(CellFlags::IS_STREET);
            let walk = g.has(CellFlags::IS_SIDEWALK);
            &&& g.has(CellFlags::IS_PLAZA) <==> (road && block.rx == 0 && block.rz == 0 && wide)
                || (!road && !walk && special(block.bx, block.bz, zone, seed) == SpecialKind::Plaza)
            &&& g.has(CellFlags::IS_PARK) <==> !road && !walk && !g.has(CellFlags::IS_GREENWAY) && (
            zone == ZoneType::Park || zone == ZoneType::Residential && coord_unit(
                block.bx,
                block.bz,
                seed,
                domain::BLOCK_NOISE,
            ).below(F32 { bits: 0x3e19_999a }))
        }),
{
    let info = network(v, params, f.here, x, z, seed);
    let block = located(f.here.local_x, f.here.local_z, params.block_size);
    law_ground(v, params, zone, f, x, z, seed);
    law_streets(
        block,
        params.arterial_every,
        f.here.diagonal,
        v.on_seam(F64::integer(x), F64::integer(z)),
        seed,
    );
    law_roads(info, f.here);
    let roads = road_flags(info, f.here);
    assert(!roads.has(CellFlags::IS_PLAZA)) by {
        lemma_no_square(info, f.here);
    }
    lemma_traits(roads);
    let squares = if roads.has(CellFlags::IS_STREET) && crate::chunk::is_crossing(block)
        && crate::chunk::widens(zone, info, f.here, x, z, seed) {
        roads.with(CellFlags::IS_PLAZA)
    } else {
        roads
    };
    lemma_traits(squares);
    let walks = if !squares.has(CellFlags::IS_STREET) && !squares.has(CellFlags::IS_GREENWAY)
        && borders_road(v, params, f, x, z, seed) {
        squares.with(CellFlags::IS_SIDEWALK)
    } else {
        squares
    };
    lemma_traits(walks);
    lemma_square_stays(squares);
    let parks = if !walks.has(CellFlags::IS_STREET) && !walks.has(CellFlags::IS_SIDEWALK)
        && !walks.has(CellFlags::IS_GREENWAY) && (zone == ZoneType::Park || crate::chunk::is_garden(
        zone,
        block,
        seed,
    )) {
        walks.with(CellFlags::IS_PARK)
    } else {
        walks
    };
    lemma_traits(parks);
    lemma_square_stays(walks);
    lemma_square_stays(parks);
    lemma_square_stays(roads);
}

/// Pavement and parks make no square, and a square makes no park.
proof fn lemma_square_stays(f: CellFlags)
    ensures
        f.with(CellFlags::IS_SIDEWALK).has(CellFlags::IS_PLAZA) == f.has(CellFlags::IS_PLAZA),
        f.with(CellFlags::IS_PARK).has(CellFlags::IS_PLAZA) == f.has(CellFlags::IS_PLAZA),
        f.with(CellFlags::IS_STREET).has(CellFlags::IS_PLAZA) == f.has(CellFlags::IS_PLAZA),
        f.with(CellFlags::IS_ARTERIAL).has(CellFlags::IS_PLAZA) == f.has(CellFlags::IS_PLAZA),
        f.with(CellFlags::IS_GREENWAY).has(CellFlags::IS_PLAZA) == f.has(CellFlags::IS_PLAZA),
        f.with(CellFlags::IS_PLAZA).has(CellFlags::IS_PLAZA),
        f.with(CellFlags::IS_PARK).has(CellFlags::IS_PARK),
        f.with(CellFlags::IS_PLAZA).has(CellFlags::IS_PARK) == f.has(CellFlags::IS_PARK),
        f.with(CellFlags::IS_SIDEWALK).has(CellFlags::IS_PARK) == f.has(CellFlags::IS_PARK),
{
    let b = f.bits;
    assert((b | 8) & 16 == b & 16 && (b | 2) & 16 == b & 16 && (b | 1) & 16 == b & 16 && (b | 4)
        & 16 == b & 16 && (b | 32) & 16 == b & 16 && (b | 16) & 16 == 16 && (b | 2) & 2 == 2 && (b
        | 16) & 2 == b & 2 && (b | 8) & 2 == b & 2) by (bit_vector);
}

/// The traits of roads make no square.
proof fn lemma_no_square(info: crate::street::StreetInfo, s: crate::chunk::Spot)
    ensures
        !road_flags(info, s).has(CellFlags::IS_PLAZA),
{
    let none = CellFlags { bits: CellFlags::NONE };
    crate::chunk::laws::lemma_none();
    lemma_square_stays(none);
    let a = none.with(CellFlags::IS_STREET);
    lemma_square_stays(a);
    let b = a.with(CellFlags::IS_ARTERIAL);
    lemma_square_stays(b);
    lemma_square_stays(b.with(CellFlags::IS_STREET));
    lemma_square_stays(a.with(CellFlags::IS_STREET));
}

/// A chunk holds its cells row by row: the cell in column `lx` and row `ly` of
/// the chunk is that of the world `cx` and `cy` chunks on, and lies behind the
/// header and the cells before it.
pub proof fn law_cells_of_a_chunk(
    b: ChunkBuffer,
    cx: i32,
    cy: i32,
    c: WorldConfig,
    v: VoronoiDiagram,
    field: Seq<CellField>,
    lx: int,
    ly: int,
)
    requires
        is_chunk(b, cx, cy, c, v, field),
        0 <= lx < c.chunk_size,
        0 <= ly < c.chunk_size,
    ensures
        ({
            let n = c.chunk_size as int;
            is_cell_at(
                city_cell(c, v, cx * n + lx, cy * n + ly, field[ly * n + lx]),
                b@,
                32 + 40 * (ly * n + lx),
            )
        }),
{
    reveal(is_chunk);
    let n = c.chunk_size as int;
    lemma_place_in_chunk(lx, ly, n);
    let i = ly * n + lx;
    assert(is_cell_at(
        city_cell(c, v, cx * n + i % n, cy * n + i / n, field[i]),
        b@,
        crate::data::cell_place(i),
    )) by {
        let cell = city_cell(
            c,
            v,
            crate::chunk::world_coord(cx, n, i % n),
            crate::chunk::world_coord(cy, n, i / n),
            field[i],
        );
        assert(is_cell_at(cell, b@, crate::data::cell_place(i)));
    }
}

} // verus!
