//! Blocks and lots: the grid of a district, and the strips that each block is
//! divided into.
use crate::double::F64;
use crate::hash::{coord_hash, coord_unit, domain, hash_coords, hash_unit};
use crate::single::F32;
use vstd::prelude::*;

pub mod laws;

verus! {

/// A boulevard across the whole map: a line at an angle, a distance off the
/// origin.
#[derive(Clone, Copy, Debug, PartialEq, Eq, Structural)]
pub struct Diagonal {
    /// Direction in radians.
    pub angle_rad: F64,
    /// Distance of the line from the origin.
    pub offset: F64,
    /// Half the width in cells.
    pub half_width: F64,
}

/// The street orientation of a district: a rotation and two gentle waves.
#[derive(Clone, Copy, Debug, PartialEq, Eq, Structural)]
pub struct DistrictFrame {
    /// Rotation in radians.
    pub angle_rad: F64,
    /// Amplitude of the long wave in cells.
    pub warp_amp: F64,
    /// Length of the long wave in cells.
    pub warp_len: F64,
    /// Phase of the waves in radians.
    pub warp_phase: F64,
    /// Amplitude of the short wave in cells.
    pub warp_amp2: F64,
    /// Length of the short wave in cells.
    pub warp_len2: F64,
}

impl DistrictFrame {
    /// Neither rotation nor waves.
    pub open spec fn plain() -> DistrictFrame {
        DistrictFrame {
            angle_rad: F64 { bits: 0 },
            warp_amp: F64 { bits: 0 },
            // 64.
            warp_len: F64 { bits: 0x4050_0000_0000_0000 },
            warp_phase: F64 { bits: 0 },
            warp_amp2: F64 { bits: 0 },
            // 24.
            warp_len2: F64 { bits: 0x4038_0000_0000_0000 },
        }
    }

    /// Neither rotation nor waves.
    pub fn identity() -> (f: DistrictFrame)
        ensures
            f == DistrictFrame::plain(),
    {
        DistrictFrame {
            angle_rad: F64::from_bits(0),
            warp_amp: F64::from_bits(0),
            warp_len: F64::from_bits(0x4050_0000_0000_0000),
            warp_phase: F64::from_bits(0),
            warp_amp2: F64::from_bits(0),
            warp_len2: F64::from_bits(0x4038_0000_0000_0000),
        }
    }
}

/// The quotient and remainder of a division that rounds down.
pub fn floor_division(a: i64, b: i64) -> (r: (i64, i64))
    requires
        b > 0,
    ensures
        r.0 == a as int / b as int,
        r.1 == a as int % b as int,
        0 <= r.1 < b,
{
    if a >= 0 {
        (a / b, a % b)
    } else {
        let t: i64 = -(a + 1);
        let (q, m): (i64, i64) = (t / b, t % b);
        assert(q <= t && q >= 0) by (nonlinear_arith)
            requires
                q == t / b,
                t >= 0,
                b > 0,
        ;
        proof {
            vstd::arithmetic::div_mod::lemma_fundamental_div_mod(t as int, b as int);
            assert(a as int == (-q - 1) * b + (b - 1 - m)) by (nonlinear_arith)
                requires
                    t == b * q + m,
                    t == -(a + 1),
            ;
            vstd::arithmetic::div_mod::lemma_fundamental_div_mod_converse(
                a as int,
                b as int,
                -q - 1,
                b - 1 - m,
            );
        }
        (-q - 1, b - 1 - m)
    }
}

/// Where a cell is in the block grid.
#[derive(Clone, Copy, Debug, PartialEq, Eq, Structural)]
pub struct BlockLoc {
    /// Block along x.
    pub bx: i64,
    /// Block along z.
    pub bz: i64,
    /// Offset within the block along x.
    pub rx: i64,
    /// Offset within the block along z.
    pub rz: i64,
}

/// The street period: a size of zero counts as one.
pub open spec fn period(block_size: u8) -> int {
    if block_size == 0 {
        1
    } else {
        block_size as int
    }
}

/// Where a cell of the district grid is.
pub open spec fn located(x: i64, z: i64, block_size: u8) -> BlockLoc {
    let b = period(block_size);
    BlockLoc {
        bx: (x as int / b) as i64,
        bz: (z as int / b) as i64,
        rx: (x as int % b) as i64,
        rz: (z as int % b) as i64,
    }
}

/// Where a cell is in the block grid. The coordinates are those of the
/// district's own frame, rounded to cells.
pub fn block_loc(local_x: i64, local_z: i64, block_size: u8) -> (loc: BlockLoc)
    ensures
        loc == located(local_x, local_z, block_size),
        0 <= loc.rx < period(block_size),
        0 <= loc.rz < period(block_size),
        local_x == loc.bx * period(block_size) + loc.rx,
        local_z == loc.bz * period(block_size) + loc.rz,
{
    let b: i64 = if block_size == 0 {
        1
    } else {
        block_size as i64
    };
    let (bx, rx): (i64, i64) = floor_division(local_x, b);
    let (bz, rz): (i64, i64) = floor_division(local_z, b);
    proof {
        vstd::arithmetic::div_mod::lemma_fundamental_div_mod(local_x as int, b as int);
        vstd::arithmetic::div_mod::lemma_fundamental_div_mod(local_z as int, b as int);
        assert(bx * b == b * bx && bz * b == b * bz) by (nonlinear_arith);
    }
    BlockLoc { bx, bz, rx, rz }
}

/// The lot of a cell.
#[derive(Clone, Copy, Debug, PartialEq, Eq, Structural)]
pub struct LotSlot {
    /// The key that all cells of the lot share.
    pub lot_id: u64,
    /// Place of the lot in its block.
    pub slot: u8,
    /// Number of lots in the block.
    pub count: u8,
    /// Whether the lot touches streets on both axes.
    pub corner: bool,
}

/// A number held to a range.
pub open spec fn held_to(n: int, lo: int, hi: int) -> int {
    if n < lo {
        lo
    } else if n > hi {
        hi
    } else {
        n
    }
}

/// One half, as a bit pattern.
pub const HALF: u32 = 0x3f00_0000;

/// Are the lots of the block strips across x? A draw decides.
pub open spec fn split_along_x(bx: i64, bz: i64, seed: u64) -> bool {
    coord_unit(bx, bz, seed, domain::LOT_SPLIT).below(F32 { bits: HALF })
}

/// The number of lots along a buildable run.
pub open spec fn strip_count(buildable: int) -> int {
    held_to(buildable / 4, 1, 6)
}

/// The lot of a cell at offset `pos` along the run.
pub open spec fn strip_at(pos: int, count: int, buildable: int) -> int {
    pos * count / buildable
}

/// The place of a cell along the run, the street left out.
pub open spec fn run_place(loc: BlockLoc, along_x: bool, buildable: int) -> int {
    held_to(
        (if along_x {
            loc.rx
        } else {
            loc.rz
        }) - 1,
        0,
        buildable - 1,
    )
}

/// The lot of a cell. Blocks of up to five cells are one lot; larger ones are
/// strips across a drawn axis.
pub open spec fn lot_at(loc: BlockLoc, block_size: u8, seed: u64) -> LotSlot {
    let b = period(block_size);
    if b <= 5 {
        LotSlot {
            lot_id: coord_hash(loc.bx.wrapping_mul(8), loc.bz, seed, domain::LOT_SPLIT),
            slot: 0,
            count: 1,
            corner: true,
        }
    } else {
        let along_x = split_along_x(loc.bx, loc.bz, seed);
        let count = strip_count(b - 1);
        let slot = strip_at(run_place(loc, along_x, b - 1), count, b - 1);
        LotSlot {
            lot_id: coord_hash(
                loc.bx.wrapping_mul(8).wrapping_add(slot as i64),
                loc.bz.wrapping_add(
                    if along_x {
                        0
                    } else {
                        1009
                    },
                ),
                seed,
                domain::LOT_SPLIT,
            ),
            slot: slot as u8,
            count: count as u8,
            corner: slot == 0 || slot + 1 == count,
        }
    }
}

/// A cell along the run falls on one of the lots.
pub proof fn lemma_strip(pos: int, count: int, buildable: int)
    requires
        0 <= pos < buildable,
        1 <= count,
    ensures
        0 <= strip_at(pos, count, buildable) < count,
{
    assert(0 <= pos * count && pos * count <= buildable * count - count) by (nonlinear_arith)
        requires
            0 <= pos <= buildable - 1,
            count >= 1,
    ;
    let q = pos * count / buildable;
    vstd::arithmetic::div_mod::lemma_fundamental_div_mod(pos * count, buildable);
    assert(q < count && q >= 0) by (nonlinear_arith)
        requires
            pos * count == buildable * q + (pos * count) % buildable,
            0 <= (pos * count) % buildable < buildable,
            0 <= pos * count <= buildable * count - count,
            count >= 1,
            buildable > 0,
    ;
}

/// The lot of a cell.
pub fn lot_slot(loc: &BlockLoc, block_size: u8, seed: u64) -> (l: LotSlot)
    requires
        loc.rx > i64::MIN,
        loc.rz > i64::MIN,
    ensures
        l == lot_at(*loc, block_size, seed),
        l.slot < l.count,
        1 <= l.count <= 6,
{
    let b: i64 = if block_size == 0 {
        1
    } else {
        block_size as i64
    };
    if b <= 5 {
        let lot_id: u64 = hash_coords(loc.bx.wrapping_mul(8), loc.bz, seed, domain::LOT_SPLIT);
        return LotSlot { lot_id, slot: 0, count: 1, corner: true };
    }
    let buildable: i64 = b - 1;
    let along_x: bool = hash_unit(loc.bx, loc.bz, seed, domain::LOT_SPLIT).lt(
        F32::from_bits(HALF),
    );
    let offset: i64 = if along_x {
        loc.rx - 1
    } else {
        loc.rz - 1
    };
    let pos: i64 = if offset < 0 {
        0
    } else if offset > buildable - 1 {
        buildable - 1
    } else {
        offset
    };
    let count: i64 = if buildable / 4 < 1 {
        1
    } else if buildable / 4 > 6 {
        6
    } else {
        buildable / 4
    };
    assert(pos * count <= 254 * 6 && pos * count >= 0) by (nonlinear_arith)
        requires
            0 <= pos <= 254,
            1 <= count <= 6,
    ;
    proof {
        lemma_strip(pos as int, count as int, buildable as int);
    }
    let slot: i64 = pos * count / buildable;
    let lot_id: u64 = hash_coords(
        loc.bx.wrapping_mul(8).wrapping_add(slot),
        loc.bz.wrapping_add(
            if along_x {
                0
            } else {
                1009
            },
        ),
        seed,
        domain::LOT_SPLIT,
    );
    LotSlot {
        lot_id,
        slot: slot as u8,
        count: count as u8,
        corner: slot == 0 || slot + 1 == count,
    }
}

/// The first place along the run that belongs to a lot.
pub open spec fn strip_start(slot: int, count: int, buildable: int) -> int {
    (slot * buildable + count - 1) / count
}

/// A lot is the run of places from its start to the start of the next; the
/// first lot starts where the run does, and the last ends where it ends.
pub proof fn law_strips_tile_the_run(pos: int, slot: int, count: int, buildable: int)
    requires
        0 <= pos < buildable,
        0 <= slot < count,
    ensures
        strip_at(pos, count, buildable) == slot <==> strip_start(slot, count, buildable) <= pos
            < strip_start(slot + 1, count, buildable),
        strip_start(0, count, buildable) == 0,
        strip_start(count, count, buildable) == buildable,
{
    let q = strip_at(pos, count, buildable);
    vstd::arithmetic::div_mod::lemma_fundamental_div_mod(pos * count, buildable);
    let r = (pos * count) % buildable;
    lemma_start(pos, slot, count, buildable);
    lemma_start(pos, slot + 1, count, buildable);
    // pos * count = buildable * q + r with 0 <= r < buildable
    assert(q >= slot <==> slot * buildable <= pos * count) by (nonlinear_arith)
        requires
            pos * count == buildable * q + r,
            0 <= r < buildable,
    ;
    assert(q >= slot + 1 <==> (slot + 1) * buildable <= pos * count) by (nonlinear_arith)
        requires
            pos * count == buildable * q + r,
            0 <= r < buildable,
    ;
    vstd::arithmetic::div_mod::lemma_basic_div(count - 1, count);
    assert(0 * buildable == 0);
    vstd::arithmetic::div_mod::lemma_fundamental_div_mod_converse(
        count * buildable + count - 1,
        count,
        buildable,
        count - 1,
    );
}

proof fn lemma_start(pos: int, slot: int, count: int, buildable: int)
    requires
        count > 0,
    ensures
        strip_start(slot, count, buildable) <= pos <==> slot * buildable <= pos * count,
{
    let s = strip_start(slot, count, buildable);
    let t = slot * buildable + count - 1;
    vstd::arithmetic::div_mod::lemma_fundamental_div_mod(t, count);
    assert(s <= pos <==> slot * buildable <= pos * count) by (nonlinear_arith)
        requires
            t == count * s + t % count,
            0 <= t % count < count,
            t == slot * buildable + count - 1,
            count > 0,
    ;
}

/// The ground a lot covers, as extents along x and z: its strip across the
/// drawn axis, and the whole run along the other.
pub open spec fn lot_extent(loc: BlockLoc, block_size: u8, seed: u64) -> (int, int) {
    let b = period(block_size);
    if b <= 5 {
        let n = if b < 2 {
            1
        } else {
            b - 1
        };
        (n, n)
    } else {
        let l = lot_at(loc, block_size, seed);
        let width = strip_start(l.slot + 1, l.count as int, b - 1) - strip_start(
            l.slot as int,
            l.count as int,
            b - 1,
        );
        if split_along_x(loc.bx, loc.bz, seed) {
            (width, b - 1)
        } else {
            (b - 1, width)
        }
    }
}

/// The ground a lot covers, as extents along x and z.
pub fn lot_rect(loc: &BlockLoc, block_size: u8, seed: u64) -> (r: (u8, u8))
    requires
        loc.rx > i64::MIN,
        loc.rz > i64::MIN,
    ensures
        (r.0 as int, r.1 as int) == lot_extent(*loc, block_size, seed),
{
    let b: u8 = if block_size == 0 {
        1
    } else {
        block_size
    };
    if b <= 5 {
        let n: u8 = if b < 2 {
            1
        } else {
            b - 1
        };
        return (n, n);
    }
    let l: LotSlot = lot_slot(loc, block_size, seed);
    let buildable: u32 = (b - 1) as u32;
    let (slot, count): (u32, u32) = (l.slot as u32, l.count as u32);
    assert(slot * buildable <= 6 * 254 && (slot + 1) * buildable <= 6 * 254 && slot * buildable
        >= 0) by (nonlinear_arith)
        requires
            0 <= slot,
            slot + 1 <= 6,
            0 <= buildable <= 254,
    ;
    let from: u32 = (slot * buildable + count - 1) / count;
    let to: u32 = ((slot + 1) * buildable + count - 1) / count;
    proof {
        lemma_extent(slot as int, count as int, buildable as int);
    }
    let width: u8 = (to - from) as u8;
    if hash_unit(loc.bx, loc.bz, seed, domain::LOT_SPLIT).lt(F32::from_bits(HALF)) {
        (width, b - 1)
    } else {
        (b - 1, width)
    }
}

pub proof fn lemma_extent(slot: int, count: int, buildable: int)
    requires
        0 <= slot < count,
        0 < buildable,
    ensures
        0 <= strip_start(slot, count, buildable) <= strip_start(slot + 1, count, buildable)
            <= buildable,
{
    let a = strip_start(slot, count, buildable);
    let b = strip_start(slot + 1, count, buildable);
    lemma_start(b, slot, count, buildable);
    lemma_start(b, slot + 1, count, buildable);
    lemma_start(buildable, slot + 1, count, buildable);
    lemma_start(-1, slot, count, buildable);
    assert(slot * buildable <= (slot + 1) * buildable && (slot + 1) * buildable <= buildable
        * count && slot * buildable > -1 * count) by (nonlinear_arith)
        requires
            0 <= slot,
            slot + 1 <= count,
            buildable > 0,
    ;
}

/// Cells of one block and one strip share one lot: the key and everything
/// else about a lot depend on the block and the strip alone.
pub proof fn law_lot_cells_agree(a: BlockLoc, b: BlockLoc, block_size: u8, seed: u64)
    requires
        a.bx == b.bx,
        a.bz == b.bz,
        lot_at(a, block_size, seed).slot == lot_at(b, block_size, seed).slot,
    ensures
        lot_at(a, block_size, seed) == lot_at(b, block_size, seed),
        lot_extent(a, block_size, seed) == lot_extent(b, block_size, seed),
{
    let n = period(block_size);
    if n > 5 {
        let along_x = split_along_x(a.bx, a.bz, seed);
        lemma_strip(run_place(a, along_x, n - 1), strip_count(n - 1), n - 1);
        lemma_strip(run_place(b, along_x, n - 1), strip_count(n - 1), n - 1);
    }
}

/// Two lots of one block have different keys, and so have two of one row of
/// blocks that are split the same way, as far as the blocks can be counted in
/// eighths.
pub proof fn law_lot_keys_differ(a: BlockLoc, b: BlockLoc, block_size: u8, seed: u64)
    requires
        a.bz == b.bz,
        split_along_x(a.bx, a.bz, seed) == split_along_x(b.bx, b.bz, seed),
        a.bx != b.bx ==> -0x1000_0000_0000_0000 <= a.bx < 0x0fff_ffff_ffff_ffff
            && -0x1000_0000_0000_0000 <= b.bx < 0x0fff_ffff_ffff_ffff,
        a.bx != b.bx || lot_at(a, block_size, seed).slot != lot_at(b, block_size, seed).slot,
    ensures
        lot_at(a, block_size, seed).lot_id != lot_at(b, block_size, seed).lot_id,
{
    let n = period(block_size);
    let along_x = split_along_x(a.bx, a.bz, seed);
    let (u, v, z) = if n > 5 {
        let (p, q) = (run_place(a, along_x, n - 1), run_place(b, along_x, n - 1));
        let count = strip_count(n - 1);
        lemma_strip(p, count, n - 1);
        lemma_strip(q, count, n - 1);
        let (s, t) = (strip_at(p, count, n - 1), strip_at(q, count, n - 1));
        lemma_keys_apart(a.bx, b.bx, s as i64, t as i64);
        (
            a.bx.wrapping_mul(8).wrapping_add(s as i64),
            b.bx.wrapping_mul(8).wrapping_add(t as i64),
            a.bz.wrapping_add(
                if along_x {
                    0
                } else {
                    1009
                },
            ),
        )
    } else {
        lemma_keys_apart(a.bx, b.bx, 0, 0);
        (a.bx.wrapping_mul(8), b.bx.wrapping_mul(8), a.bz)
    };
    crate::hash::law_hash_separates(u, z, seed, domain::LOT_SPLIT, v, z, seed, domain::LOT_SPLIT);
}

/// Blocks counted in eighths: two blocks, or two eighths of one, never meet.
proof fn lemma_keys_apart(a: i64, b: i64, s: i64, t: i64)
    requires
        0 <= s < 8,
        0 <= t < 8,
        a != b || s != t,
        a != b ==> -0x1000_0000_0000_0000 <= a < 0x0fff_ffff_ffff_ffff && -0x1000_0000_0000_0000
            <= b < 0x0fff_ffff_ffff_ffff,
    ensures
        a.wrapping_mul(8).wrapping_add(s) != b.wrapping_mul(8).wrapping_add(t),
        s == 0 && t == 0 ==> a.wrapping_mul(8) != b.wrapping_mul(8),
{
    if a != b {
        assert(a.wrapping_mul(8) == a * 8 && b.wrapping_mul(8) == b * 8);
    } else {
        let x = a.wrapping_mul(8);
        assert(x.wrapping_add(s) != x.wrapping_add(t));
    }
}

/// The cells of a block share a key exactly where they share a lot, and they
/// all agree on how many lots there are.
pub proof fn law_lots_of_a_block(a: BlockLoc, b: BlockLoc, block_size: u8, seed: u64)
    requires
        a.bx == b.bx,
        a.bz == b.bz,
    ensures
        ({
            let (s, t) = (lot_at(a, block_size, seed), lot_at(b, block_size, seed));
            &&& s.lot_id == t.lot_id <==> s.slot == t.slot
            &&& s.count == t.count
        }),
{
    if lot_at(a, block_size, seed).slot == lot_at(b, block_size, seed).slot {
        law_lot_cells_agree(a, b, block_size, seed);
    } else {
        law_lot_keys_differ(a, b, block_size, seed);
    }
}

/// A draw per block, shared by everything in it.
pub fn block_noise(bx: i64, bz: i64, seed: u64) -> (u: F32)
    ensures
        u == coord_unit(bx, bz, seed, domain::BLOCK_NOISE),
{
    hash_unit(bx, bz, seed, domain::BLOCK_NOISE)
}

} // verus!
