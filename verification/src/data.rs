//! What a chunk is made of, and how it is laid out in memory.
//!
//! A chunk travels as one flat run of bytes: a header, and the cells row by
//! row after it. Numbers are little-endian, and bytes that no field covers are
//! zero.
use crate::single::F32;
use crate::zones::ZONE_COUNT;
use vstd::prelude::*;

pub mod laws;

verus! {

/// Where a chunk is, counted in chunks.
#[derive(Clone, Copy, Debug, PartialEq, Eq, Hash, Structural)]
pub struct ChunkId {
    /// Column.
    pub cx: i32,
    /// Row.
    pub cy: i32,
}

impl ChunkId {
    /// The chunk at a column and a row.
    pub fn new(cx: i32, cy: i32) -> (id: ChunkId)
        ensures
            id == (ChunkId { cx, cy }),
    {
        ChunkId { cx, cy }
    }
}

/// The key of an interior; zero where there is none.
pub type InteriorId = u64;

/// A set of traits of a cell.
#[derive(Clone, Copy, Debug, PartialEq, Eq, Structural)]
pub struct CellFlags {
    pub bits: u8,
}

impl Default for CellFlags {
    fn default() -> (f: CellFlags)
        ensures
            f.bits == CellFlags::NONE,
    {
        CellFlags { bits: 0 }
    }
}

impl CellFlags {
    /// No trait.
    pub const NONE: u8 = 0;

    /// Paved road.
    pub const IS_STREET: u8 = 1;

    /// Green ground.
    pub const IS_PARK: u8 = 2;

    /// A road of the avenue scale.
    pub const IS_ARTERIAL: u8 = 4;

    /// Paved ground beside a road.
    pub const IS_SIDEWALK: u8 = 8;

    /// A square.
    pub const IS_PLAZA: u8 = 16;

    /// A linear park where a street was left out.
    pub const IS_GREENWAY: u8 = 32;

    /// Are all traits of the mask in the set?
    pub open spec fn has(self, mask: u8) -> bool {
        self.bits & mask == mask
    }

    /// The set with the traits of the mask.
    pub open spec fn with(self, mask: u8) -> CellFlags {
        CellFlags { bits: self.bits | mask }
    }

    /// The set of the traits of a mask.
    pub fn of(mask: u8) -> (f: CellFlags)
        ensures
            f == (CellFlags { bits: mask }),
    {
        CellFlags { bits: mask }
    }

    /// Are all traits of the mask in the set?
    pub fn contains(self, mask: u8) -> (b: bool)
        ensures
            b == self.has(mask),
    {
        self.bits & mask == mask
    }

    /// The set with the traits of the mask.
    pub fn insert(self, mask: u8) -> (f: CellFlags)
        ensures
            f == self.with(mask),
    {
        CellFlags { bits: self.bits | mask }
    }
}

/// Inserted traits are there; traits that were there stay; none but the
/// inserted ones appear; the order of inserting does not matter, and inserting
/// twice is inserting once.
pub proof fn law_flags(a: CellFlags, b: u8, c: u8)
    ensures
        a.with(b).has(b),
        a.has(c) ==> a.with(b).has(c),
        a.with(b).has(c) && c & b == 0 ==> a.has(c),
        a.with(b).with(c) == a.with(c).with(b),
        a.with(b).with(b) == a.with(b),
        a.has(CellFlags::NONE),
{
    let x = a.bits;
    assert((x | b) & b == b) by (bit_vector);
    assert(x & c == c ==> (x | b) & c == c) by (bit_vector);
    assert((x | b) & c == c && c & b == 0 ==> x & c == c) by (bit_vector);
    assert((x | b) | c == (x | c) | b) by (bit_vector);
    assert((x | b) | b == x | b) by (bit_vector);
    assert(x & 0 == 0) by (bit_vector);
}

/// One cell of the city.
#[derive(Clone, Copy, Debug, PartialEq, Eq)]
pub struct Cell {
    /// Building height in world units; zero where nothing is built.
    pub height: F32,
    /// The pull of every zone.
    pub zone_affinity: [F32; ZONE_COUNT],
    /// Facade palette.
    pub palette_id: u8,
    /// Traits.
    pub flags: CellFlags,
    /// Unused bytes.
    pub _pad: u16,
    /// The key of the interior; zero where there is none.
    pub interior_id: InteriorId,
}

/// The head of a chunk.
#[derive(Clone, Copy, Debug, PartialEq, Eq)]
pub struct ChunkHeader {
    /// Column.
    pub cx: i32,
    /// Row.
    pub cy: i32,
    /// Number of cells.
    pub cell_count: u32,
    /// Cells per side.
    pub chunk_size: u16,
    /// Unused bytes.
    pub _pad: [u8; 6],
    /// World seed.
    pub seed: u64,
}

/// Bytes of a header.
pub const HEADER_BYTES: usize = 32;

/// Bytes of a cell.
pub const CELL_BYTES: usize = 40;

/// Byte `i` of a number, lowest first.
pub open spec fn byte_of(v: u64, i: int) -> u8 {
    (v >> ((8 * i) as u64)) as u8
}

/// The number that two bytes stand for.
pub open spec fn number2(s: Seq<u8>, at: int) -> u16 {
    (s[at] as u16) | ((s[at + 1] as u16) << 8)
}

/// The number that four bytes stand for.
pub open spec fn number4(s: Seq<u8>, at: int) -> u32 {
    (s[at] as u32) | ((s[at + 1] as u32) << 8) | ((s[at + 2] as u32) << 16) | ((s[at + 3] as u32)
        << 24)
}

/// The number that eight bytes stand for.
pub open spec fn number8(s: Seq<u8>, at: int) -> u64 {
    (number4(s, at) as u64) | ((number4(s, at + 4) as u64) << 32)
}

/// The bytes with the low `n` bytes of a number written at a place.
pub open spec fn written(s: Seq<u8>, at: int, v: u64, n: int) -> Seq<u8> {
    Seq::new(
        s.len(),
        |k: int|
            if at <= k < at + n {
                byte_of(v, k - at)
            } else {
                s[k]
            },
    )
}

/// What was written is read back.
pub proof fn lemma_read_back(s: Seq<u8>, at: int, v: u64)
    requires
        0 <= at,
    ensures
        at + 2 <= s.len() && v <= 0xffff ==> number2(written(s, at, v, 2), at) == v,
        at + 4 <= s.len() && v <= 0xffff_ffff ==> number4(written(s, at, v, 4), at) == v,
        at + 8 <= s.len() ==> number8(written(s, at, v, 8), at) == v,
{
    assert(v <= 0xffff ==> ((v >> 0) as u8 as u16) | (((v >> 8) as u8 as u16) << 8) == v)
        by (bit_vector);
    let low = ((v >> 0) as u8 as u32) | (((v >> 8) as u8 as u32) << 8) | (((v >> 16) as u8 as u32)
        << 16) | (((v >> 24) as u8 as u32) << 24);
    let high = ((v >> 32) as u8 as u32) | (((v >> 40) as u8 as u32) << 8) | (((
    v >> 48) as u8 as u32) << 16) | (((v >> 56) as u8 as u32) << 24);
    assert(low == v as u32) by (bit_vector)
        requires
            low == ((v >> 0) as u8 as u32) | (((v >> 8) as u8 as u32) << 8) | (((
            v >> 16) as u8 as u32) << 16) | (((v >> 24) as u8 as u32) << 24),
    ;
    assert(high == (v >> 32) as u32) by (bit_vector)
        requires
            high == ((v >> 32) as u8 as u32) | (((v >> 40) as u8 as u32) << 8) | (((
            v >> 48) as u8 as u32) << 16) | (((v >> 56) as u8 as u32) << 24),
    ;
    assert((v as u32 as u64) | (((v >> 32) as u32 as u64) << 32) == v) by (bit_vector);
    assert(v <= 0xffff_ffff ==> v as u32 == v);
}

/// What is written elsewhere does not show.
pub proof fn lemma_read_beside(s: Seq<u8>, at: int, v: u64, n: int, from: int)
    requires
        0 <= from,
        0 <= n,
    ensures
        from + 2 <= s.len() && (from + 2 <= at || at + n <= from) ==> number2(
            written(s, at, v, n),
            from,
        ) == number2(s, from),
        from + 4 <= s.len() && (from + 4 <= at || at + n <= from) ==> number4(
            written(s, at, v, n),
            from,
        ) == number4(s, from),
        from + 8 <= s.len() && (from + 8 <= at || at + n <= from) ==> number8(
            written(s, at, v, n),
            from,
        ) == number8(s, from),
{
}

/// Writes the low `n` bytes of a number at a place.
fn put(data: &mut Vec<u8>, at: usize, v: u64, n: usize)
    requires
        at + n <= old(data)@.len(),
        n <= 8,
    ensures
        final(data)@ == written(old(data)@, at as int, v, n as int),
{
    let ghost before = data@;
    let len: usize = data.len();
    for i in 0..n
        invariant
            n <= 8,
            at + n <= len,
            len == data@.len(),
            data@ == written(before, at as int, v, i as int),
    {
        data.set(at + i, #[verifier::truncate] ((v >> (8 * i) as u64) as u8));
        assert(data@ =~= written(before, at as int, v, i + 1));
    }
    assert(data@ =~= written(before, at as int, v, n as int));
}

/// Reads four bytes as a number.
fn read4(data: &Vec<u8>, at: usize) -> (v: u32)
    requires
        at + 4 <= data@.len(),
    ensures
        v == number4(data@, at as int),
{
    let len: usize = data.len();
    assert(at + 4 <= len);
    (data[at] as u32) | ((data[at + 1] as u32) << 8) | ((data[at + 2] as u32) << 16) | ((data[at
        + 3] as u32) << 24)
}

/// The header that bytes begin with.
pub open spec fn header_of(s: Seq<u8>) -> ChunkHeader {
    ChunkHeader {
        cx: number4(s, 0) as i32,
        cy: number4(s, 4) as i32,
        cell_count: number4(s, 8),
        chunk_size: number2(s, 12),
        _pad: [s[14], s[15], s[16], s[17], s[18], s[19]],
        seed: number8(s, 24),
    }
}

/// The place where cell `i` begins.
pub open spec fn cell_place(i: int) -> int {
    HEADER_BYTES + i * CELL_BYTES
}

/// Is this the cell that stands at a place of the bytes?
pub open spec fn is_cell_at(c: Cell, s: Seq<u8>, at: int) -> bool {
    &&& c.height.bits == number4(s, at)
    &&& forall|k: int|
        0 <= k < ZONE_COUNT ==> (#[trigger] c.zone_affinity[k]).bits == number4(s, at + 4 + 4 * k)
    &&& c.palette_id == s[at + 24]
    &&& c.flags.bits == s[at + 25]
    &&& c._pad == number2(s, at + 26)
    &&& c.interior_id == number8(s, at + 32)
}

/// The bytes with a cell written at a place; four bytes before its key are
/// left as they are.
#[verifier::opaque]
pub open spec fn with_cell(s: Seq<u8>, at: int, c: Cell) -> Seq<u8> {
    let s = written(s, at, c.height.bits as u64, 4);
    let s = written(s, at + 4, c.zone_affinity[0].bits as u64, 4);
    let s = written(s, at + 8, c.zone_affinity[1].bits as u64, 4);
    let s = written(s, at + 12, c.zone_affinity[2].bits as u64, 4);
    let s = written(s, at + 16, c.zone_affinity[3].bits as u64, 4);
    let s = written(s, at + 20, c.zone_affinity[4].bits as u64, 4);
    let s = written(s, at + 24, c.palette_id as u64, 1);
    let s = written(s, at + 25, c.flags.bits as u64, 1);
    let s = written(s, at + 26, c._pad as u64, 2);
    written(s, at + 32, c.interior_id, 8)
}

/// The bytes of a chunk before any cell is written.
pub open spec fn blank_chunk(id: ChunkId, chunk_size: u16, seed: u64) -> Seq<u8> {
    let n = chunk_size * chunk_size;
    let s = Seq::new((HEADER_BYTES + n * CELL_BYTES) as nat, |k: int| 0u8);
    let s = written(s, 0, id.cx as u32 as u64, 4);
    let s = written(s, 4, id.cy as u32 as u64, 4);
    let s = written(s, 8, n as u64, 4);
    let s = written(s, 12, chunk_size as u64, 2);
    written(s, 24, seed, 8)
}

/// The bytes of one chunk.
#[derive(Clone, Debug, PartialEq, Eq)]
pub struct ChunkBuffer {
    data: Vec<u8>,
}

impl View for ChunkBuffer {
    type V = Seq<u8>;

    closed spec fn view(&self) -> Seq<u8> {
        self.data@
    }
}

impl ChunkBuffer {
    /// Is the header whole, and are there bytes for every cell it counts?
    pub open spec fn wf(self) -> bool {
        &&& self@.len() >= HEADER_BYTES
        &&& self@.len() == cell_place(header_of(self@).cell_count as int)
    }

    /// Is there a cell `i` to be read or written?
    pub open spec fn holds(self, i: int) -> bool {
        &&& self@.len() >= HEADER_BYTES
        &&& 0 <= i < header_of(self@).cell_count
        &&& cell_place(i + 1) <= self@.len()
    }

    /// A chunk with its header and blank cells.
    pub fn new(id: ChunkId, chunk_size: u16, seed: u64) -> (b: ChunkBuffer)
        requires
            HEADER_BYTES + (chunk_size * chunk_size) * CELL_BYTES <= usize::MAX,
        ensures
            b@ == blank_chunk(id, chunk_size, seed),
            b.wf(),
            header_of(b@).cx == id.cx,
            header_of(b@).cy == id.cy,
            header_of(b@).cell_count == chunk_size * chunk_size,
            header_of(b@).chunk_size == chunk_size,
            header_of(b@).seed == seed,
    {
        assert(chunk_size * chunk_size <= 0xffff * 0xffff && chunk_size * chunk_size >= 0)
            by (nonlinear_arith)
            requires
                0 <= chunk_size <= 0xffff,
        ;
        let n: u32 = chunk_size as u32 * chunk_size as u32;
        let total: usize = HEADER_BYTES + n as usize * CELL_BYTES;
        let mut data: Vec<u8> = vec![0u8; total];
        let ghost blank = Seq::new(total as nat, |k: int| 0u8);
        assert(data@ =~= blank);
        put(&mut data, 0, id.cx as u32 as u64, 4);
        put(&mut data, 4, id.cy as u32 as u64, 4);
        put(&mut data, 8, n as u64, 4);
        put(&mut data, 12, chunk_size as u64, 2);
        put(&mut data, 24, seed, 8);
        proof {
            lemma_blank_header(id, chunk_size, seed);
        }
        ChunkBuffer { data }
    }

    /// The header.
    pub fn header(&self) -> (h: ChunkHeader)
        requires
            self@.len() >= HEADER_BYTES,
        ensures
            h == header_of(self@),
    {
        let cx: i32 = read4(&self.data, 0) as i32;
        let cy: i32 = read4(&self.data, 4) as i32;
        let cell_count: u32 = read4(&self.data, 8);
        let chunk_size: u16 = (self.data[12] as u16) | ((self.data[13] as u16) << 8);
        let pad: [u8; 6] = [
            self.data[14],
            self.data[15],
            self.data[16],
            self.data[17],
            self.data[18],
            self.data[19],
        ];
        let seed: u64 = (read4(&self.data, 24) as u64) | ((read4(&self.data, 28) as u64) << 32);
        assert(pad =~= header_of(self@)._pad);
        ChunkHeader { cx, cy, cell_count, chunk_size, _pad: pad, seed }
    }

    /// The bytes.
    pub fn as_bytes(&self) -> (s: &[u8])
        ensures
            s@ == self@,
    {
        self.data.as_slice()
    }

    /// Gives the bytes away.
    pub fn into_raw_bytes(self) -> (v: Vec<u8>)
        ensures
            v@ == self@,
    {
        self.data
    }

    /// Takes bytes back that were given away.
    pub fn from_raw_bytes(data: Vec<u8>) -> (b: ChunkBuffer)
        ensures
            b@ == data@,
    {
        ChunkBuffer { data }
    }

    /// The number of cells.
    pub fn cell_count(&self) -> (n: usize)
        requires
            self@.len() >= HEADER_BYTES,
        ensures
            n == header_of(self@).cell_count,
    {
        self.header().cell_count as usize
    }

    /// The place of the first cell.
    pub fn cell_region_offset(&self) -> (n: usize)
        ensures
            n == HEADER_BYTES,
    {
        HEADER_BYTES
    }

    /// Whether there is a cell `index` to be read or written.
    pub fn holds_cell(&self, index: usize) -> (b: bool)
        ensures
            b == self.holds(index as int),
    {
        if self.data.len() < HEADER_BYTES {
            return false;
        }
        if index >= self.cell_count() {
            return false;
        }
        let room: usize = (self.data.len() - HEADER_BYTES) / CELL_BYTES;
        assert((index < room) == (cell_place(index + 1) <= self@.len()));
        index < room
    }

    /// Cell `index`.
    pub fn get_cell(&self, index: usize) -> (c: Cell)
        requires
            self.holds(index as int),
        ensures
            is_cell_at(c, self@, cell_place(index as int)),
    {
        let len: usize = self.data.len();
        assert(cell_place(index + 1) <= len);
        let at: usize = HEADER_BYTES + index * CELL_BYTES;
        let height: F32 = F32::from_bits(read4(&self.data, at));
        let zone_affinity: [F32; ZONE_COUNT] = [
            F32::from_bits(read4(&self.data, at + 4)),
            F32::from_bits(read4(&self.data, at + 8)),
            F32::from_bits(read4(&self.data, at + 12)),
            F32::from_bits(read4(&self.data, at + 16)),
            F32::from_bits(read4(&self.data, at + 20)),
        ];
        let pad: u16 = (self.data[at + 26] as u16) | ((self.data[at + 27] as u16) << 8);
        let interior_id: u64 = (read4(&self.data, at + 32) as u64) | ((read4(
            &self.data,
            at + 36,
        ) as u64) << 32);
        Cell {
            height,
            zone_affinity,
            palette_id: self.data[at + 24],
            flags: CellFlags { bits: self.data[at + 25] },
            _pad: pad,
            interior_id,
        }
    }

    /// Writes cell `index`.
    pub fn set_cell(&mut self, index: usize, cell: Cell)
        requires
            old(self).holds(index as int),
        ensures
            final(self)@ == with_cell(old(self)@, cell_place(index as int), cell),
            final(self)@.len() == old(self)@.len(),
            header_of(final(self)@) == header_of(old(self)@),
            is_cell_at(cell, final(self)@, cell_place(index as int)),
    {
        let len: usize = self.data.len();
        assert(cell_place(index + 1) <= len);
        let at: usize = HEADER_BYTES + index * CELL_BYTES;
        put(&mut self.data, at, cell.height.bits as u64, 4);
        put(&mut self.data, at + 4, cell.zone_affinity[0].bits as u64, 4);
        put(&mut self.data, at + 8, cell.zone_affinity[1].bits as u64, 4);
        put(&mut self.data, at + 12, cell.zone_affinity[2].bits as u64, 4);
        put(&mut self.data, at + 16, cell.zone_affinity[3].bits as u64, 4);
        put(&mut self.data, at + 20, cell.zone_affinity[4].bits as u64, 4);
        put(&mut self.data, at + 24, cell.palette_id as u64, 1);
        put(&mut self.data, at + 25, cell.flags.bits as u64, 1);
        put(&mut self.data, at + 26, cell._pad as u64, 2);
        put(&mut self.data, at + 32, cell.interior_id, 8);
        proof {
            reveal(with_cell);
            law_cell_read_back(old(self)@, at as int, cell);
            lemma_same_header(old(self)@, self@);
        }
    }

    /// Every cell, in order.
    pub fn cells(&self) -> (v: Vec<Cell>)
        requires
            self.wf(),
        ensures
            v@.len() == header_of(self@).cell_count,
            forall|i: int|
                0 <= i < v@.len() ==> is_cell_at(#[trigger] v@[i], self@, cell_place(i)),
    {
        let n: usize = self.cell_count();
        let mut v: Vec<Cell> = Vec::with_capacity(n);
        for i in 0..n
            invariant
                self.wf(),
                n == header_of(self@).cell_count,
                v@.len() == i,
                forall|j: int| 0 <= j < i ==> is_cell_at(#[trigger] v@[j], self@, cell_place(j)),
        {
            v.push(self.get_cell(i));
        }
        v
    }

    /// Another buffer with the same bytes.
    pub fn duplicate(&self) -> (b: ChunkBuffer)
        ensures
            b@ == self@,
    {
        ChunkBuffer { data: crate::layout::copied_bytes(&self.data) }
    }
}

/// The header depends on the first bytes alone.
proof fn lemma_same_header(s: Seq<u8>, t: Seq<u8>)
    requires
        s.len() >= HEADER_BYTES,
        t.len() >= HEADER_BYTES,
        s.take(HEADER_BYTES as int) =~= t.take(HEADER_BYTES as int),
    ensures
        header_of(s) == header_of(t),
{
    assert forall|k: int| 0 <= k < HEADER_BYTES implies s[k] == t[k] by {
        assert(s[k] == s.take(HEADER_BYTES as int)[k]);
        assert(t[k] == t.take(HEADER_BYTES as int)[k]);
    }
}

/// A header is read back as it was written.
pub proof fn lemma_blank_header(id: ChunkId, chunk_size: u16, seed: u64)
    ensures
        ({
            let b = blank_chunk(id, chunk_size, seed);
            let h = header_of(b);
            &&& b.len() == HEADER_BYTES + (chunk_size * chunk_size) * CELL_BYTES
            &&& h.cx == id.cx
            &&& h.cy == id.cy
            &&& h.cell_count == chunk_size * chunk_size
            &&& h.chunk_size == chunk_size
            &&& h.seed == seed
        }),
{
    let n = chunk_size * chunk_size;
    assert(n <= 0xffff * 0xffff && n >= 0) by (nonlinear_arith)
        requires
            n == chunk_size * chunk_size,
            0 <= chunk_size <= 0xffff,
    ;
    let (x, y) = (id.cx as u32 as u64, id.cy as u32 as u64);
    let s0 = Seq::new((HEADER_BYTES + n * CELL_BYTES) as nat, |k: int| 0u8);
    let s1 = written(s0, 0, x, 4);
    let s2 = written(s1, 4, y, 4);
    let s3 = written(s2, 8, n as u64, 4);
    let s4 = written(s3, 12, chunk_size as u64, 2);
    lemma_read_back(s0, 0, x);
    lemma_read_beside(s1, 4, y, 4, 0);
    lemma_read_beside(s2, 8, n as u64, 4, 0);
    lemma_read_beside(s3, 12, chunk_size as u64, 2, 0);
    lemma_read_beside(s4, 24, seed, 8, 0);
    lemma_read_back(s1, 4, y);
    lemma_read_beside(s2, 8, n as u64, 4, 4);
    lemma_read_beside(s3, 12, chunk_size as u64, 2, 4);
    lemma_read_beside(s4, 24, seed, 8, 4);
    lemma_read_back(s2, 8, n as u64);
    lemma_read_beside(s3, 12, chunk_size as u64, 2, 8);
    lemma_read_beside(s4, 24, seed, 8, 8);
    lemma_read_back(s3, 12, chunk_size as u64);
    lemma_read_beside(s4, 24, seed, 8, 12);
    lemma_read_back(s4, 24, seed);
    let (cx, cy) = (id.cx, id.cy);
    assert(cx as u32 as i32 == cx) by (bit_vector);
    assert(cy as u32 as i32 == cy) by (bit_vector);
}

/// A cell is read back as it was written, and writing it changes no byte
/// outside its own place.
pub proof fn law_cell_read_back(s: Seq<u8>, at: int, c: Cell)
    requires
        0 <= at,
        at + CELL_BYTES <= s.len(),
    ensures
        with_cell(s, at, c).len() == s.len(),
        is_cell_at(c, with_cell(s, at, c), at),
        forall|k: int|
            0 <= k < s.len() && (k < at || at + CELL_BYTES <= k) ==> #[trigger] with_cell(
                s,
                at,
                c,
            )[k] == s[k],
{
    reveal(with_cell);
    let s1 = written(s, at, c.height.bits as u64, 4);
    let s2 = written(s1, at + 4, c.zone_affinity[0].bits as u64, 4);
    let s3 = written(s2, at + 8, c.zone_affinity[1].bits as u64, 4);
    let s4 = written(s3, at + 12, c.zone_affinity[2].bits as u64, 4);
    let s5 = written(s4, at + 16, c.zone_affinity[3].bits as u64, 4);
    let s6 = written(s5, at + 20, c.zone_affinity[4].bits as u64, 4);
    let s7 = written(s6, at + 24, c.palette_id as u64, 1);
    let s8 = written(s7, at + 25, c.flags.bits as u64, 1);
    let s9 = written(s8, at + 26, c._pad as u64, 2);
    let t = written(s9, at + 32, c.interior_id, 8);
    lemma_read_back(s, at, c.height.bits as u64);
    lemma_read_back(s1, at + 4, c.zone_affinity[0].bits as u64);
    lemma_read_back(s2, at + 8, c.zone_affinity[1].bits as u64);
    lemma_read_back(s3, at + 12, c.zone_affinity[2].bits as u64);
    lemma_read_back(s4, at + 16, c.zone_affinity[3].bits as u64);
    lemma_read_back(s5, at + 20, c.zone_affinity[4].bits as u64);
    lemma_read_back(s8, at + 26, c._pad as u64);
    lemma_read_back(s9, at + 32, c.interior_id);
    let (p, f) = (c.palette_id, c.flags.bits);
    assert((p as u64 >> 0) as u8 == p) by (bit_vector);
    assert((f as u64 >> 0) as u8 == f) by (bit_vector);
    assert(number4(t, at) == number4(s1, at));
    assert(number4(t, at + 4) == number4(s2, at + 4));
    assert(number4(t, at + 8) == number4(s3, at + 8));
    assert(number4(t, at + 12) == number4(s4, at + 12));
    assert(number4(t, at + 16) == number4(s5, at + 16));
    assert(number4(t, at + 20) == number4(s6, at + 20));
    assert(t[at + 24] == byte_of(p as u64, 0));
    assert(t[at + 25] == byte_of(f as u64, 0));
    assert(number2(t, at + 26) == number2(s9, at + 26));
    assert forall|k: int| 0 <= k < ZONE_COUNT implies (#[trigger] c.zone_affinity[k]).bits
        == number4(t, at + 4 + 4 * k) by {
        if k == 0 {
        } else if k == 1 {
        } else if k == 2 {
        } else if k == 3 {
        } else {
        }
    }
}

/// Writing one cell leaves every other cell of the chunk as it was.
pub proof fn law_other_cells_untouched(s: Seq<u8>, i: int, j: int, c: Cell, d: Cell)
    requires
        0 <= i,
        0 <= j,
        i != j,
        cell_place(i + 1) <= s.len(),
        cell_place(j + 1) <= s.len(),
        is_cell_at(d, s, cell_place(j)),
    ensures
        is_cell_at(d, with_cell(s, cell_place(i), c), cell_place(j)),
{
    law_cell_read_back(s, cell_place(i), c);
    let t = with_cell(s, cell_place(i), c);
    let at = cell_place(j);
    assert forall|k: int| at <= k < at + CELL_BYTES implies t[k] == s[k] by {}
    assert forall|k: int| 0 <= k < ZONE_COUNT implies (#[trigger] d.zone_affinity[k]).bits
        == number4(t, at + 4 + 4 * k) by {
        assert(number4(t, at + 4 + 4 * k) == number4(s, at + 4 + 4 * k));
    }
}

} // verus!
