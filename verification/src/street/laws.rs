//! Where the roads of a district run.
use crate::data::CellFlags;
use crate::hash::{coord_unit, domain};
use crate::lot::{located, BlockLoc};
use crate::single::F32;
use crate::street::{lattice, street_at, stretch};
use vstd::prelude::*;

verus! {

proof fn lemma_road_bits()
    ensures
        (1u8 | 4u8) & 4u8 == 4u8,
        (1u8 | 4u8) & 1u8 == 1u8,
        1u8 & 4u8 == 0,
        1u8 & 1u8 == 1u8,
        0u8 & 1u8 == 0,
        0u8 & 4u8 == 0,
{
    assert((1u8 | 4u8) & 4u8 == 4u8 && (1u8 | 4u8) & 1u8 == 1u8 && 1u8 & 4u8 == 0 && 1u8 & 1u8
        == 1u8 && 0u8 & 1u8 == 0 && 0u8 & 4u8 == 0) by (bit_vector);
}

/// Avenues run both ways and are two cells wide: the first two columns of
/// every `every`-th column of blocks, and the first two rows of every
/// `every`-th row, are paved at the avenue scale, in the bare grid and in the
/// network, and are never left out.
pub proof fn law_avenues_run_both_ways(
    loc: BlockLoc,
    every: u8,
    diagonal: bool,
    seam: bool,
    seed: u64,
)
    requires
        every >= 2,
        ({
            ||| loc.bx as int % every as int == 0 && 0 <= loc.rx <= 1
            ||| loc.bz as int % every as int == 0 && 0 <= loc.rz <= 1
        }),
    ensures
        lattice(loc, every).has(CellFlags::IS_STREET),
        lattice(loc, every).has(CellFlags::IS_ARTERIAL),
        street_at(loc, every, diagonal, seam, seed).street,
        street_at(loc, every, diagonal, seam, seed).arterial,
        !street_at(loc, every, diagonal, seam, seed).dropped,
{
    lemma_road_bits();
}

/// Off the avenues, a cell is at the avenue scale only under a boulevard or on
/// a district border; and a grid without avenues has none.
pub proof fn law_nothing_else_is_an_avenue(
    loc: BlockLoc,
    every: u8,
    diagonal: bool,
    seam: bool,
    seed: u64,
)
    requires
        every < 2 || !(loc.bx as int % every as int == 0 && 0 <= loc.rx <= 1) && !(loc.bz as int
            % every as int == 0 && 0 <= loc.rz <= 1),
    ensures
        !lattice(loc, every).has(CellFlags::IS_ARTERIAL),
        lattice(loc, every).has(CellFlags::IS_STREET) <==> loc.rx == 0 || loc.rz == 0,
        street_at(loc, every, diagonal, seam, seed).arterial <==> diagonal || seam,
        street_at(loc, every, diagonal, seam, seed).street ==> loc.rx == 0 || loc.rz == 0
            || diagonal || seam,
        loc.rx != 0 && loc.rz != 0 ==> !street_at(loc, every, diagonal, seam, seed).dropped,
{
    lemma_road_bits();
}

/// Every block is bounded by streets: a cell whose coordinate is a multiple of
/// the block size along either axis is a street of the bare grid, and one whose
/// coordinates both lie two or more past such a multiple is not.
pub proof fn law_streets_by_coordinates(x: i64, z: i64, block_size: u8, every: u8)
    requires
        block_size > 0,
    ensures
        x as int % block_size as int == 0 || z as int % block_size as int == 0 ==> lattice(
            located(x, z, block_size),
            every,
        ).has(CellFlags::IS_STREET),
        x as int % block_size as int >= 2 && z as int % block_size as int >= 2 ==> !lattice(
            located(x, z, block_size),
            every,
        ).has(CellFlags::IS_STREET),
{
    lemma_road_bits();
}

/// The bare grid looks the same along both axes.
pub proof fn law_grid_is_symmetric(loc: BlockLoc, every: u8)
    ensures
        lattice(loc, every) == lattice(
            BlockLoc { bx: loc.bz, bz: loc.bx, rx: loc.rz, rz: loc.rx },
            every,
        ),
{
}

/// Of the local streets, those stretches are left out whose draw is below 0.08,
/// and no others; and of those, the ones whose second draw is below 0.6 become
/// linear parks. A stretch is a street, by its number, and the bands of blocks
/// between avenues: even numbers for streets along z, odd ones for streets
/// along x.
pub proof fn law_share_of_streets_left_out(loc: BlockLoc, every: u8, seed: u64)
    requires
        every >= 2,
        -0x1000_0000_0000_0000 <= loc.bx < 0x1000_0000_0000_0000,
        -0x1000_0000_0000_0000 <= loc.bz < 0x1000_0000_0000_0000,
        loc.rx == 0 || loc.rz == 0,
        !(loc.bx as int % every as int == 0 && 0 <= loc.rx <= 1),
        !(loc.bz as int % every as int == 0 && 0 <= loc.rz <= 1),
    ensures
        ({
            let s = street_at(loc, every, false, false, seed);
            let (street, band) = numbered(loc, every);
            let drop = coord_unit(street, band, seed, domain::STREET_DROP);
            let green = coord_unit(band, street, seed, domain::GREENWAY);
            &&& s.dropped <==> drop.below(F32 { bits: 0x3da3_d70a })
            &&& s.street <==> !s.dropped
            &&& s.greenway <==> s.dropped && green.below(F32 { bits: 0x3f19_999a })
        }),
{
    lemma_numbered(loc, every);
}

/// The number of the street a cell is on, and that of the band of blocks.
pub open spec fn numbered(loc: BlockLoc, every: u8) -> (i64, i64) {
    if loc.rx == 0 {
        (loc.bx, (2 * (loc.bz as int / every as int)) as i64)
    } else {
        (loc.bz, (2 * (loc.bx as int / every as int) + 1) as i64)
    }
}

proof fn lemma_numbered(loc: BlockLoc, every: u8)
    requires
        every >= 2,
        -0x1000_0000_0000_0000 <= loc.bx < 0x1000_0000_0000_0000,
        -0x1000_0000_0000_0000 <= loc.bz < 0x1000_0000_0000_0000,
    ensures
        stretch(loc, every) == numbered(loc, every),
{
    let e = every as int;
    lemma_band(loc.bx as int, e);
    lemma_band(loc.bz as int, e);
    let (p, q) = ((loc.bx as int / e) as i64, (loc.bz as int / e) as i64);
    assert(p.wrapping_mul(2) == 2 * p && q.wrapping_mul(2) == 2 * q);
}

proof fn lemma_band(a: int, e: int)
    requires
        e >= 2,
        -0x1000_0000_0000_0000 <= a < 0x1000_0000_0000_0000,
    ensures
        -0x1000_0000_0000_0000 <= a / e <= 0x1000_0000_0000_0000,
{
    let q = a / e;
    vstd::arithmetic::div_mod::lemma_fundamental_div_mod(a, e);
    assert(-0x1000_0000_0000_0000 <= q <= 0x1000_0000_0000_0000) by (nonlinear_arith)
        requires
            a == e * q + a % e,
            0 <= a % e < e,
            e >= 2,
            -0x1000_0000_0000_0000 <= a < 0x1000_0000_0000_0000,
    ;
}

} // verus!
