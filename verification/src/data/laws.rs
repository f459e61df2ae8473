//! Where the bytes of a chunk lie.
use crate::data::{
    blank_chunk, cell_place, law_cell_read_back, lemma_read_back, number2, number4, number8,
    with_cell, written, Cell, CellFlags, ChunkId,
};
use vstd::prelude::*;

verus! {

/// Numbers are little-endian: the byte at a place counts 256 times what the
/// byte before it does.
pub proof fn law_numbers_are_little_endian(s: Seq<u8>, at: int)
    requires
        0 <= at,
        at + 8 <= s.len(),
    ensures
        number2(s, at) == s[at] + 256 * s[at + 1],
        number4(s, at) == s[at] + 0x100 * s[at + 1] + 0x1_0000 * s[at + 2] + 0x100_0000 * s[at + 3],
        number8(s, at) == number4(s, at) + 0x1_0000_0000 * number4(s, at + 4),
{
    lemma_pair(s[at], s[at + 1]);
    lemma_quad(s[at], s[at + 1], s[at + 2], s[at + 3]);
    let (x, y) = (number4(s, at), number4(s, at + 4));
    assert((x as u64) | ((y as u64) << 32) == (x as u64) + (y as u64) * 0x1_0000_0000)
        by (bit_vector);
}

proof fn lemma_pair(a: u8, b: u8)
    ensures
        (a as u16) | ((b as u16) << 8) == a + 256 * b,
{
    assert((a as u16) | ((b as u16) << 8) == (a as u16) + 256 * (b as u16)) by (bit_vector);
}

proof fn lemma_quad(a: u8, b: u8, c: u8, d: u8)
    ensures
        (a as u32) | ((b as u32) << 8) | ((c as u32) << 16) | ((d as u32) << 24) == a + 0x100 * b
            + 0x1_0000 * c + 0x100_0000 * d,
{
    assert((a as u32) | ((b as u32) << 8) | ((c as u32) << 16) | ((d as u32) << 24) == (a as u32)
        + 0x100 * (b as u32) + 0x1_0000 * (c as u32) + 0x100_0000 * (d as u32)) by (bit_vector);
}

/// The places of the fields of a cell: its height first, then the pulls of the
/// five zones, the palette at 24, the flags at 25 and the key of its interior
/// at 32. Cells follow the header of 32 bytes, 40 bytes each.
pub proof fn law_places_of_fields(s: Seq<u8>, i: int, c: Cell, k: int)
    requires
        0 <= i,
        32 + 40 * (i + 1) <= s.len(),
        0 <= k < 5,
    ensures
        ({
            let t = with_cell(s, cell_place(i), c);
            let at = 32 + 40 * i;
            &&& t.len() == s.len()
            &&& c.height.bits == t[at] + 0x100 * t[at + 1] + 0x1_0000 * t[at + 2] + 0x100_0000
                * t[at + 3]
            &&& c.zone_affinity[k].bits == t[at + 4 + 4 * k] + 0x100 * t[at + 5 + 4 * k] + 0x1_0000
                * t[at + 6 + 4 * k] + 0x100_0000 * t[at + 7 + 4 * k]
            &&& c.palette_id == t[at + 24]
            &&& c.flags.bits == t[at + 25]
            &&& c.interior_id % 256 == t[at + 32]
            &&& c.interior_id / 0x100_0000_0000_0000 == t[at + 39]
            &&& forall|j: int|
                0 <= j < s.len() && (j < at || at + 40 <= j) ==> #[trigger] t[j] == s[j]
        }),
{
    let at = cell_place(i);
    law_cell_read_back(s, at, c);
    let t = with_cell(s, at, c);
    law_numbers_are_little_endian(t, at);
    law_numbers_are_little_endian(t, at + 4 + 4 * k);
    law_numbers_are_little_endian(t, at + 32);
    lemma_quad(t[at + 32], t[at + 33], t[at + 34], t[at + 35]);
    lemma_quad(t[at + 36], t[at + 37], t[at + 38], t[at + 39]);
    assert(c.zone_affinity[k].bits == number4(t, at + 4 + 4 * k));
}

/// The places of the fields of a header: the column at 0, the row at 4, the
/// number of cells at 8, the side of the chunk at 12 and the seed at 24. All
/// other bytes of a new chunk are zero.
pub proof fn law_places_in_the_header(id: ChunkId, chunk_size: u16, seed: u64, k: int)
    requires
        chunk_size > 0,
        32 + 40 * (chunk_size * chunk_size) > k >= 0,
    ensures
        ({
            let s = blank_chunk(id, chunk_size, seed);
            let n = chunk_size * chunk_size;
            &&& s.len() == 32 + 40 * n
            &&& id.cx as u32 == s[0] + 0x100 * s[1] + 0x1_0000 * s[2] + 0x100_0000 * s[3]
            &&& id.cy as u32 == s[4] + 0x100 * s[5] + 0x1_0000 * s[6] + 0x100_0000 * s[7]
            &&& n == s[8] + 0x100 * s[9] + 0x1_0000 * s[10] + 0x100_0000 * s[11]
            &&& chunk_size == s[12] + 0x100 * s[13]
            &&& seed % 256 == s[24]
            &&& seed / 0x100_0000_0000_0000 == s[31]
            &&& 14 <= k < 24 || 32 <= k ==> s[k] == 0
        }),
{
    let n = chunk_size * chunk_size;
    assert(0 < n <= 0xffff * 0xffff) by (nonlinear_arith)
        requires
            n == chunk_size * chunk_size,
            0 < chunk_size <= 0xffff,
    ;
    let z = Seq::new((32 + n * 40) as nat, |j: int| 0u8);
    let a = written(z, 0, id.cx as u32 as u64, 4);
    let b = written(a, 4, id.cy as u32 as u64, 4);
    let c = written(b, 8, n as u64, 4);
    let d = written(c, 12, chunk_size as u64, 2);
    let s = written(d, 24, seed, 8);
    lemma_read_back(z, 0, id.cx as u32 as u64);
    lemma_read_back(a, 4, id.cy as u32 as u64);
    lemma_read_back(b, 8, n as u64);
    lemma_read_back(c, 12, chunk_size as u64);
    lemma_read_back(d, 24, seed);
    assert(s == blank_chunk(id, chunk_size, seed));
    assert(number4(s, 0) == number4(a, 0));
    assert(number4(s, 4) == number4(b, 4));
    assert(number4(s, 8) == number4(c, 8));
    assert(number2(s, 12) == number2(d, 12));
    law_numbers_are_little_endian(s, 0);
    law_numbers_are_little_endian(s, 4);
    law_numbers_are_little_endian(s, 8);
    law_numbers_are_little_endian(s, 12);
    law_numbers_are_little_endian(s, 24);
    lemma_quad(s[24], s[25], s[26], s[27]);
    lemma_quad(s[28], s[29], s[30], s[31]);
}

/// No two traits of a cell share a bit.
pub proof fn law_traits_are_apart()
    ensures
        CellFlags::NONE == 0,
        CellFlags::IS_STREET + CellFlags::IS_PARK + CellFlags::IS_ARTERIAL + CellFlags::IS_SIDEWALK
            + CellFlags::IS_PLAZA + CellFlags::IS_GREENWAY == 63,
        CellFlags::IS_STREET & CellFlags::IS_ARTERIAL == 0,
        CellFlags::IS_STREET & CellFlags::IS_SIDEWALK == 0,
        CellFlags::IS_PARK & CellFlags::IS_PLAZA == 0,
        CellFlags::IS_PARK & CellFlags::IS_GREENWAY == 0,
{
    assert(1u8 & 4 == 0 && 1u8 & 8 == 0 && 2u8 & 16 == 0 && 2u8 & 32 == 0) by (bit_vector);
}

} // verus!
