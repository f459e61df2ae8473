//! What the command line accepts, and which chunks it asks for.
use crate::cli::{grid_chunk, objection, ArgError};
use vstd::prelude::*;

verus! {

/// Arguments are accepted where the chunks have from 1 to 256 cells along a
/// side, the radius is at most 64, and every chunk of the grid has a column
/// and a row.
pub proof fn law_accepted_arguments(cx: i32, cy: i32, radius: u32, chunk_size: Option<u16>)
    ensures
        objection(cx, cy, radius, chunk_size) is None <==> {
            &&& chunk_size matches Some(n) ==> 1 <= n <= 256
            &&& radius <= 64
            &&& -0x8000_0000 <= cx - radius && cx + radius <= 0x7fff_ffff
            &&& -0x8000_0000 <= cy - radius && cy + radius <= 0x7fff_ffff
        },
        objection(cx, cy, radius, chunk_size) == Some(ArgError::ChunkSizeZero) ==> chunk_size
            == Some(0u16),
        objection(cx, cy, radius, chunk_size) == Some(ArgError::ChunkSizeTooLarge) ==> (chunk_size
            matches Some(n) && n > 256),
        objection(cx, cy, radius, chunk_size) == Some(ArgError::RadiusTooLarge) ==> radius > 64,
        objection(cx, cy, radius, chunk_size) == Some(ArgError::ColumnOverflow) ==> cx + radius
            > 0x7fff_ffff,
        objection(cx, cy, radius, chunk_size) == Some(ArgError::ColumnUnderflow) ==> cx - radius
            < -0x8000_0000,
        objection(cx, cy, radius, chunk_size) == Some(ArgError::RowOverflow) ==> cy + radius
            > 0x7fff_ffff,
        objection(cx, cy, radius, chunk_size) == Some(ArgError::RowUnderflow) ==> cy - radius
            < -0x8000_0000,
{
}

/// The grid holds the chunks within the radius of the centre, along either
/// axis, and holds each once. `i` is the place of the chunk.
pub proof fn law_grid_is_the_square(cx: i32, cy: i32, radius: u32, x: int, y: int) -> (i: int)
    requires
        objection(cx, cy, radius, None) is None,
        cx - radius <= x <= cx + radius,
        cy - radius <= y <= cy + radius,
    ensures
        0 <= i < (2 * radius + 1) * (2 * radius + 1),
        grid_chunk(cx, cy, radius, i) == (x as i32, y as i32),
        forall|j: int|
            0 <= j < (2 * radius + 1) * (2 * radius + 1) ==> {
                let c = #[trigger] grid_chunk(cx, cy, radius, j);
                &&& cx - radius <= c.0 <= cx + radius
                &&& cy - radius <= c.1 <= cy + radius
                &&& c == (x as i32, y as i32) ==> j == i
                &&& j > i ==> c.1 > y || c.1 == y && c.0 > x
            },
{
    let side = 2 * radius + 1;
    let (a, b) = (x - (cx - radius), y - (cy - radius));
    let i = b * side + a;
    vstd::arithmetic::div_mod::lemma_fundamental_div_mod_converse(i, side, b, a);
    assert(0 <= i < side * side) by (nonlinear_arith)
        requires
            i == b * side + a,
            0 <= a < side,
            0 <= b < side,
    ;
    assert forall|j: int| 0 <= j < side * side implies {
        let c = #[trigger] grid_chunk(cx, cy, radius, j);
        &&& cx - radius <= c.0 <= cx + radius
        &&& cy - radius <= c.1 <= cy + radius
        &&& c == (x as i32, y as i32) ==> j == i
        &&& j > i ==> c.1 > y || c.1 == y && c.0 > x
    } by {
        let (p, q) = (j % side, j / side);
        vstd::arithmetic::div_mod::lemma_fundamental_div_mod(j, side);
        vstd::arithmetic::div_mod::lemma_mod_bound(j, side);
        assert(0 <= q < side) by (nonlinear_arith)
            requires
                j == side * q + p,
                0 <= p < side,
                0 <= j < side * side,
        ;
        assert(j > i ==> q > b || q == b && p > a) by (nonlinear_arith)
            requires
                j == side * q + p,
                i == b * side + a,
                0 <= p < side,
                0 <= a < side,
        ;
        if p == a && q == b {
            assert(side * q == b * side) by (nonlinear_arith)
                requires
                    q == b,
            ;
        }
    }
    i
}

} // verus!
