//! Streets: the grid of a district, its avenues, and the streets left out.
use crate::data::CellFlags;
use crate::hash::{coord_unit, domain, hash_unit};
use crate::lot::{block_loc, floor_division, located, BlockLoc};
use crate::single::F32;
use crate::zones::ZoneParams;
use vstd::prelude::*;

pub mod laws;

verus! {

/// Share of the local streets that are left out: 0.08.
pub const DROP_SHARE: u32 = 0x3da3_d70a;

/// Share of the streets left out that become linear parks: 0.6.
pub const GREENWAY_SHARE: u32 = 0x3f19_999a;

/// What the street network says of a cell.
#[derive(Clone, Copy, Debug, PartialEq, Eq, Structural)]
pub struct StreetInfo {
    /// Paved road of any kind.
    pub street: bool,
    /// A road of the avenue scale.
    pub arterial: bool,
    /// On a boulevard.
    pub diagonal: bool,
    /// On a local street that was left out.
    pub dropped: bool,
    /// On one that became a linear park.
    pub greenway: bool,
}

/// Is the cell on the edge of its block?
pub open spec fn on_grid(loc: BlockLoc) -> bool {
    loc.rx == 0 || loc.rz == 0
}

/// Is the cell on an avenue: within two cells of the near edge of a block
/// whose index is a multiple of `every`? There are none where that is below 2.
pub open spec fn on_avenue(loc: BlockLoc, every: u8) -> bool {
    every >= 2 && ((loc.bx as int % every as int == 0 && (loc.rx == 0 || loc.rx == 1)) || (
    loc.bz as int % every as int == 0 && (loc.rz == 0 || loc.rz == 1)))
}

/// The stretch of local street a cell is on, as hash coordinates: the street,
/// and the blocks between two avenues. Crossings belong to the street along z.
pub open spec fn stretch(loc: BlockLoc, every: u8) -> (i64, i64) {
    let band = if every >= 2 {
        every as int
    } else {
        4
    };
    if loc.rx == 0 {
        (loc.bx, ((loc.bz as int / band) as i64).wrapping_mul(2))
    } else {
        (loc.bz, ((loc.bx as int / band) as i64).wrapping_mul(2).wrapping_add(1))
    }
}

/// Is the stretch of local street a cell is on left out?
pub open spec fn left_out(loc: BlockLoc, every: u8, seed: u64) -> bool {
    let (a, b) = stretch(loc, every);
    coord_unit(a, b, seed, domain::STREET_DROP).below(F32 { bits: DROP_SHARE })
}

/// Does the stretch become a linear park, if it is left out?
pub open spec fn greened(loc: BlockLoc, every: u8, seed: u64) -> bool {
    let (a, b) = stretch(loc, every);
    coord_unit(b, a, seed, domain::GREENWAY).below(F32 { bits: GREENWAY_SHARE })
}

/// What the street network says of a cell of a district, on a boulevard or
/// not, on a district border or not. Borders, avenues and boulevards are
/// always roads; of the local streets, whole stretches are left out.
pub open spec fn street_at(
    loc: BlockLoc,
    every: u8,
    diagonal: bool,
    seam: bool,
    seed: u64,
) -> StreetInfo {
    let open = StreetInfo {
        street: false,
        arterial: false,
        diagonal: false,
        dropped: false,
        greenway: false,
    };
    if seam || on_avenue(loc, every) || diagonal {
        StreetInfo { street: true, arterial: true, diagonal, ..open }
    } else if !on_grid(loc) {
        open
    } else if left_out(loc, every, seed) {
        StreetInfo { dropped: true, greenway: greened(loc, every, seed), ..open }
    } else {
        StreetInfo { street: true, ..open }
    }
}

/// Is the cell on an avenue?
fn is_on_avenue(loc: &BlockLoc, every: u8) -> (b: bool)
    ensures
        b == on_avenue(*loc, every),
{
    if every < 2 {
        return false;
    }
    let k: i64 = every as i64;
    let upright: bool = floor_division(loc.bx, k).1 == 0;
    let level: bool = floor_division(loc.bz, k).1 == 0;
    (upright && (loc.rx == 0 || loc.rx == 1)) || (level && (loc.rz == 0 || loc.rz == 1))
}

/// What the street network says of a cell. The coordinates are those of the
/// district's own frame, rounded to cells; `diagonal` and `seam_road` say
/// whether a boulevard or a district border runs over it.
pub fn street_info(
    local_x: i64,
    local_z: i64,
    params: &ZoneParams,
    diagonal: bool,
    seam_road: bool,
    seed: u64,
) -> (s: StreetInfo)
    ensures
        s == street_at(
            located(local_x, local_z, params.block_size),
            params.arterial_every,
            diagonal,
            seam_road,
            seed,
        ),
{
    if seam_road {
        return StreetInfo {
            street: true,
            arterial: true,
            diagonal,
            dropped: false,
            greenway: false,
        };
    }
    let loc: BlockLoc = block_loc(local_x, local_z, params.block_size);
    if is_on_avenue(&loc, params.arterial_every) || diagonal {
        return StreetInfo {
            street: true,
            arterial: true,
            diagonal,
            dropped: false,
            greenway: false,
        };
    }
    let on_grid: bool = loc.rx == 0 || loc.rz == 0;
    if !on_grid {
        return StreetInfo {
            street: false,
            arterial: false,
            diagonal: false,
            dropped: false,
            greenway: false,
        };
    }
    let band: i64 = if params.arterial_every >= 2 {
        params.arterial_every as i64
    } else {
        4
    };
    let (id_a, id_b): (i64, i64) = if loc.rx == 0 {
        (loc.bx, floor_division(loc.bz, band).0.wrapping_mul(2))
    } else {
        (loc.bz, floor_division(loc.bx, band).0.wrapping_mul(2).wrapping_add(1))
    };
    if hash_unit(id_a, id_b, seed, domain::STREET_DROP).lt(F32::from_bits(DROP_SHARE)) {
        let greenway: bool = hash_unit(id_b, id_a, seed, domain::GREENWAY).lt(
            F32::from_bits(GREENWAY_SHARE),
        );
        return StreetInfo {
            street: false,
            arterial: false,
            diagonal: false,
            dropped: true,
            greenway,
        };
    }
    StreetInfo { street: true, arterial: false, diagonal: false, dropped: false, greenway: false }
}

/// The bare grid of a district: streets on the edges of blocks, and avenues.
pub open spec fn lattice(loc: BlockLoc, every: u8) -> CellFlags {
    if on_avenue(loc, every) {
        CellFlags { bits: CellFlags::IS_STREET }.with(CellFlags::IS_ARTERIAL)
    } else if on_grid(loc) {
        CellFlags { bits: CellFlags::IS_STREET }
    } else {
        CellFlags { bits: CellFlags::NONE }
    }
}

/// The bare grid of a district at a cell, without boulevards and with no
/// street left out.
pub fn layout_block(local_x: i64, local_z: i64, params: &ZoneParams) -> (f: CellFlags)
    ensures
        f == lattice(located(local_x, local_z, params.block_size), params.arterial_every),
{
    let loc: BlockLoc = block_loc(local_x, local_z, params.block_size);
    if is_on_avenue(&loc, params.arterial_every) {
        return CellFlags::of(CellFlags::IS_STREET).insert(CellFlags::IS_ARTERIAL);
    }
    if loc.rx == 0 || loc.rz == 0 {
        CellFlags::of(CellFlags::IS_STREET)
    } else {
        CellFlags::of(CellFlags::NONE)
    }
}

/// The network keeps its promises at every cell: borders, avenues and
/// boulevards are always avenue-scale roads and never left out; whatever is
/// left out is no road, and only what is left out can become a linear park;
/// an avenue-scale road is a road; and off boulevards and borders the roads
/// are those of the bare grid, less what is left out.
pub proof fn law_streets(loc: BlockLoc, every: u8, diagonal: bool, seam: bool, seed: u64)
    ensures
        ({
            let s = street_at(loc, every, diagonal, seam, seed);
            let base = lattice(loc, every);
            &&& seam || diagonal || base.has(CellFlags::IS_ARTERIAL) ==> s.street && s.arterial
                && !s.dropped
            &&& s.dropped ==> !s.street && base.has(CellFlags::IS_STREET) && !base.has(
                CellFlags::IS_ARTERIAL,
            )
            &&& s.greenway ==> s.dropped
            &&& s.arterial ==> s.street
            &&& s.diagonal ==> s.street && diagonal
            &&& !seam && !diagonal ==> (s.street || s.dropped <==> base.has(CellFlags::IS_STREET))
            &&& !seam && !diagonal ==> (s.arterial <==> base.has(CellFlags::IS_ARTERIAL))
        }),
{
    assert((1u8 | 4u8) & 4u8 == 4u8 && (1u8 | 4u8) & 1u8 == 1u8 && 1u8 & 4u8 == 0 && 1u8 & 1u8
        == 1u8 && 0u8 & 1u8 == 0 && 0u8 & 4u8 == 0) by (bit_vector);
}

/// A local street is left out from avenue to avenue: two cells of one street
/// that lie between the same two avenues are left out together. A crossing
/// goes with the street along z.
pub proof fn law_stretches_drop_whole(a: BlockLoc, b: BlockLoc, every: u8, seed: u64)
    requires
        every >= 2,
        ({
            ||| a.rx == 0 && b.rx == 0 && a.bx == b.bx && a.bz as int / every as int == b.bz as int
                / every as int
            ||| a.rx != 0 && b.rx != 0 && a.rz == 0 && b.rz == 0 && a.bz == b.bz && a.bx as int
                / every as int == b.bx as int / every as int
        }),
        !on_avenue(a, every),
        !on_avenue(b, every),
    ensures
        street_at(a, every, false, false, seed) == street_at(b, every, false, false, seed),
{
}

} // verus!
