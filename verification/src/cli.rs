//! The decisions of the command line: which arguments are accepted, and which
//! chunks they ask for.
use vstd::prelude::*;

pub mod laws;

verus! {

/// Why arguments are refused.
#[derive(Clone, Copy, Debug, PartialEq, Eq, Structural)]
pub enum ArgError {
    /// A chunk size of zero.
    ChunkSizeZero,
    /// A chunk size above 256.
    ChunkSizeTooLarge,
    /// A radius above 64.
    RadiusTooLarge,
    /// The easternmost column would not fit a coordinate.
    ColumnOverflow,
    /// The westernmost column would not.
    ColumnUnderflow,
    /// The southernmost row would not.
    RowOverflow,
    /// The northernmost row would not.
    RowUnderflow,
}

/// Greatest chunk size.
pub const MAX_CHUNK_SIZE: u16 = 256;

/// Greatest radius.
pub const MAX_RADIUS: u32 = 64;

/// The first objection to the arguments, if there is one.
pub open spec fn objection(cx: i32, cy: i32, radius: u32, chunk_size: Option<u16>) -> Option<
    ArgError,
> {
    if chunk_size == Some(0u16) {
        Some(ArgError::ChunkSizeZero)
    } else if chunk_size matches Some(n) && n > MAX_CHUNK_SIZE {
        Some(ArgError::ChunkSizeTooLarge)
    } else if radius > MAX_RADIUS {
        Some(ArgError::RadiusTooLarge)
    } else if cx + radius > i32::MAX {
        Some(ArgError::ColumnOverflow)
    } else if cx - radius < i32::MIN {
        Some(ArgError::ColumnUnderflow)
    } else if cy + radius > i32::MAX {
        Some(ArgError::RowOverflow)
    } else if cy - radius < i32::MIN {
        Some(ArgError::RowUnderflow)
    } else {
        None
    }
}

/// Checks the arguments: the size within its range, the radius bounded, and
/// every chunk of the grid at a coordinate that exists.
pub fn check_args(cx: i32, cy: i32, radius: u32, chunk_size: Option<u16>) -> (r: Result<
    (),
    ArgError,
>)
    ensures
        match objection(cx, cy, radius, chunk_size) {
            Some(e) => r == Err::<(), ArgError>(e),
            None => r == Ok::<(), ArgError>(()),
        },
{
    if let Some(n) = chunk_size {
        if n == 0 {
            return Err(ArgError::ChunkSizeZero);
        }
        if n > MAX_CHUNK_SIZE {
            return Err(ArgError::ChunkSizeTooLarge);
        }
    }
    if radius > MAX_RADIUS {
        return Err(ArgError::RadiusTooLarge);
    }
    let r: i64 = radius as i64;
    if cx as i64 + r > i32::MAX as i64 {
        return Err(ArgError::ColumnOverflow);
    }
    if (cx as i64 - r) < i32::MIN as i64 {
        return Err(ArgError::ColumnUnderflow);
    }
    if cy as i64 + r > i32::MAX as i64 {
        return Err(ArgError::RowOverflow);
    }
    if (cy as i64 - r) < i32::MIN as i64 {
        return Err(ArgError::RowUnderflow);
    }
    Ok(())
}

/// Chunk `i` of the grid round a centre, row by row.
pub open spec fn grid_chunk(cx: i32, cy: i32, radius: u32, i: int) -> (i32, i32) {
    let side = 2 * radius + 1;
    ((cx - radius + i % side) as i32, (cy - radius + i / side) as i32)
}

/// The chunks of the grid round a centre, row by row; the centre alone where
/// the radius is zero.
pub fn chunk_coords(cx: i32, cy: i32, radius: u32) -> (v: Vec<(i32, i32)>)
    requires
        objection(cx, cy, radius, None) is None,
    ensures
        v@ == Seq::new(
            ((2 * radius + 1) * (2 * radius + 1)) as nat,
            |i: int| grid_chunk(cx, cy, radius, i),
        ),
{
    let side: u32 = 2 * radius + 1;
    assert(side * side <= 129 * 129) by (nonlinear_arith)
        requires
            0 <= side <= 129,
    ;
    let n: u32 = side * side;
    let mut v: Vec<(i32, i32)> = Vec::new();
    for i in 0..n
        invariant
            objection(cx, cy, radius, None) is None,
            side == 2 * radius + 1,
            n == side * side,
            v@ == Seq::new(i as nat, |k: int| grid_chunk(cx, cy, radius, k)),
    {
        proof {
            crate::interior::grid::lemma_cell_of_place(i as int, side as int, side as int);
        }
        let x: i64 = cx as i64 - radius as i64 + (i % side) as i64;
        let y: i64 = cy as i64 - radius as i64 + (i / side) as i64;
        v.push((x as i32, y as i32));
        assert(v@ =~= Seq::new((i + 1) as nat, |k: int| grid_chunk(cx, cy, radius, k)));
    }
    v
}

/// Why a place for the output is refused.
#[derive(Clone, Copy, Debug, PartialEq, Eq, Structural)]
pub enum OutError {
    /// A directory where one file is written.
    DirectoryForOneChunk,
    /// A file where a directory is filled.
    FileForGrid,
}

/// Checks the place for the output of `count` chunks: one chunk is written to
/// a file, a grid into a directory.
pub fn validate_out(count: usize, is_dir: bool, is_file: bool) -> (r: Result<(), OutError>)
    ensures
        match r {
            Ok(()) => if count == 1 {
                !is_dir
            } else {
                !is_file
            },
            Err(OutError::DirectoryForOneChunk) => count == 1 && is_dir,
            Err(OutError::FileForGrid) => count != 1 && is_file,
        },
{
    if count == 1 {
        if is_dir {
            return Err(OutError::DirectoryForOneChunk);
        }
    } else if is_file {
        return Err(OutError::FileForGrid);
    }
    Ok(())
}

} // verus!
