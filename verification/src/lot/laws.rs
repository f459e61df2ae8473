//! How blocks and lots divide the ground.
use crate::lot::{
    law_strips_tile_the_run, lemma_strip, located, lot_at, lot_extent, run_place, split_along_x,
    strip_at, strip_count, strip_start, BlockLoc,
};
use vstd::prelude::*;

verus! {

/// A cell is where its block begins plus its offset in the block, and the
/// offset is below the block size.
pub proof fn law_blocks_tile_the_plane(x: i64, z: i64, block_size: u8)
    requires
        block_size > 0,
    ensures
        ({
            let l = located(x, z, block_size);
            let b = block_size as int;
            &&& x == l.bx * b + l.rx && 0 <= l.rx < b
            &&& z == l.bz * b + l.rz && 0 <= l.rz < b
        }),
{
    let b = block_size as int;
    lemma_quotient(x as int, b);
    lemma_quotient(z as int, b);
}

proof fn lemma_quotient(a: int, b: int)
    requires
        b > 0,
        i64::MIN <= a <= i64::MAX,
    ensures
        a == (a / b) * b + a % b,
        0 <= a % b < b,
        i64::MIN <= a / b <= i64::MAX,
{
    let q = a / b;
    vstd::arithmetic::div_mod::lemma_fundamental_div_mod(a, b);
    assert(b * q == q * b) by (nonlinear_arith);
    assert(i64::MIN <= q <= i64::MAX) by (nonlinear_arith)
        requires
            a == q * b + a % b,
            0 <= a % b < b,
            b > 0,
            i64::MIN <= a <= i64::MAX,
    ;
}

/// A block has as many lots as have four cells of frontage each, but at least
/// one and at most six; a block of up to five cells is one lot.
pub proof fn law_number_of_lots(loc: BlockLoc, block_size: u8, seed: u64)
    requires
        block_size > 0,
    ensures
        ({
            let n = lot_at(loc, block_size, seed).count;
            &&& 1 <= n <= 6
            &&& block_size <= 5 ==> n == 1
            &&& n > 1 ==> 4 * n <= block_size - 1
            &&& n < 6 && block_size > 5 ==> 4 * (n + 1) > block_size - 1
        }),
{
}

/// The lots of a block are strips across one of the axes: along it the first
/// cell is of the first lot and the last cell of the last lot, the number of
/// the lot never falls, and the other offset does not matter. Which axis it is
/// is the toss of a coin for each block.
pub proof fn law_lots_are_strips(a: BlockLoc, b: BlockLoc, block_size: u8, seed: u64)
    requires
        block_size > 5,
        a.bx == b.bx,
        a.bz == b.bz,
        0 <= a.rx < block_size,
        0 <= a.rz < block_size,
        0 <= b.rx < block_size,
        0 <= b.rz < block_size,
    ensures
        ({
            let (s, t) = (lot_at(a, block_size, seed), lot_at(b, block_size, seed));
            let (p, q) = if crate::hash::coord_unit(
                a.bx,
                a.bz,
                seed,
                crate::hash::domain::LOT_SPLIT,
            ).below(crate::single::F32 { bits: 0x3f00_0000 }) {
                (a.rx, b.rx)
            } else {
                (a.rz, b.rz)
            };
            &&& s.slot < s.count
            &&& s.count == t.count
            &&& p <= q ==> s.slot <= t.slot
            &&& p == 1 ==> s.slot == 0
            &&& p == block_size - 1 ==> s.slot == s.count - 1
        }),
{
    let n = block_size - 1;
    let c = strip_count(n);
    let along_x = split_along_x(a.bx, a.bz, seed);
    let (p, q) = (run_place(a, along_x, n), run_place(b, along_x, n));
    lemma_strip(p, c, n);
    lemma_strip(q, c, n);
    if p <= q {
        assert(p * c <= q * c) by (nonlinear_arith)
            requires
                p <= q,
                c >= 1,
        ;
        vstd::arithmetic::div_mod::lemma_div_is_ordered(p * c, q * c, n);
    }
    if p == 0 {
        vstd::arithmetic::div_mod::lemma_basic_div(0, n);
        assert(0 * c == 0);
    }
    if p == n - 1 {
        // The last cell is of the last lot.
        assert((n - 1) * c == (c - 1) * n + (n - c)) by (nonlinear_arith);
        assert(0 <= n - c < n);
        vstd::arithmetic::div_mod::lemma_fundamental_div_mod_converse(
            (n - 1) * c,
            n,
            c - 1,
            n - c,
        );
    }
}

/// The first and the last lot of a block are its corners, and no others.
pub proof fn law_corners(loc: BlockLoc, block_size: u8, seed: u64)
    requires
        0 <= loc.rx < block_size,
        0 <= loc.rz < block_size,
    ensures
        ({
            let l = lot_at(loc, block_size, seed);
            l.corner <==> l.slot == 0 || l.slot + 1 == l.count
        }),
{
    let n = block_size - 1;
    if n > 4 {
        let along_x = split_along_x(loc.bx, loc.bz, seed);
        lemma_strip(run_place(loc, along_x, n), strip_count(n), n);
    }
}

/// The cell of the block at another offset along one axis.
pub open spec fn moved(loc: BlockLoc, along_x: bool, i: i64) -> BlockLoc {
    if along_x {
        BlockLoc { rx: i, ..loc }
    } else {
        BlockLoc { rz: i, ..loc }
    }
}

/// The extents of a lot are those of the ground that its cells cover: across
/// the axis of the strips there are exactly so many places of the lot, one
/// after the other, and along the other axis the lot takes the whole block.
pub proof fn law_extents_count_cells(loc: BlockLoc, block_size: u8, seed: u64) -> (from: int)
    requires
        block_size > 5,
        0 <= loc.rx < block_size,
        0 <= loc.rz < block_size,
    ensures
        ({
            let (w, d) = lot_extent(loc, block_size, seed);
            let slot = lot_at(loc, block_size, seed).slot;
            let along_x = split_along_x(loc.bx, loc.bz, seed);
            &&& along_x ==> d == block_size - 1 && 1 <= from && from + w <= block_size
            &&& !along_x ==> w == block_size - 1 && 1 <= from && from + d <= block_size
            &&& forall|i: i64|
                1 <= i < block_size ==> (lot_at(
                    #[trigger] moved(loc, along_x, i),
                    block_size,
                    seed,
                ).slot == slot <==> from <= i < from + if along_x {
                    w
                } else {
                    d
                })
        }),
{
    let n = block_size - 1;
    let c = strip_count(n);
    let along_x = split_along_x(loc.bx, loc.bz, seed);
    let p = run_place(loc, along_x, n);
    lemma_strip(p, c, n);
    let slot = strip_at(p, c, n);
    let from = strip_start(slot, c, n);
    crate::lot::lemma_extent(slot, c, n);
    assert forall|i: i64| 1 <= i < block_size implies (lot_at(
        #[trigger] moved(loc, along_x, i),
        block_size,
        seed,
    ).slot == slot <==> from + 1 <= i < strip_start(slot + 1, c, n) + 1) by {
        lemma_strip(i - 1, c, n);
        law_strips_tile_the_run(i - 1, slot, c, n);
    }
    from + 1
}

} // verus!
