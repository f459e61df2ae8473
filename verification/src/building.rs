//! Buildings: whether a lot is built on, how high, and in which palette.
use crate::hash::{coord_hash, coord_unit, domain, hash_coords, hash_unit};
use crate::single::F32;
use crate::zones::ZoneParams;
use vstd::prelude::*;

pub mod laws;
pub mod parts;

verus! {

/// A draw of a lot.
pub open spec fn lot_unit(lot_id: u64, seed: u64, dom: u8) -> F32 {
    coord_unit(lot_id as i64, (lot_id >> 32) as i64, seed, dom)
}

/// Is the lot left empty? The draw of the lot counts 0.65 and that of its
/// block 0.35, so that empty lots cluster.
pub open spec fn stays_empty(lot_id: u64, clump: F32, density: F32, seed: u64) -> bool {
    let roll = lot_unit(lot_id, seed, domain::DENSITY).product(F32 { bits: 0x3f26_6666 }).sum(
        clump.product(F32 { bits: 0x3eb3_3333 }),
    );
    density.below(roll)
}

/// The palette of a lot.
pub open spec fn lot_palette(lot_id: u64, palette_count: u8, seed: u64) -> u8 {
    let n = if palette_count == 0 {
        1
    } else {
        palette_count as int
    };
    (coord_hash(lot_id as i64, (lot_id >> 32) as i64, seed, domain::PALETTE) as int % n) as u8
}

/// The height cap of a zone: 1.6 times the top of its range, and 1.
pub open spec fn height_cap(params: ZoneParams) -> F32 {
    params.height_max.product(F32 { bits: 0x3fcc_cccd }).sum(F32 { bits: 0x3f80_0000 })
}

/// The height of a lot before it is held to its range: drawn from the zone's
/// heights, times 0.85 to 1.15 by block, times the pull of the centre, times
/// 1.2 on corners, times 0.9 to 1.1 by cell.
pub open spec fn raw_height(
    lot_id: u64,
    corner: bool,
    clump: F32,
    boost: F32,
    jitter: Option<(i64, i64)>,
    params: ZoneParams,
    seed: u64,
) -> F32 {
    let t = coord_unit((lot_id >> 32) as i64, lot_id as i64, seed, domain::LOT_HEIGHT);
    let drawn = params.height_min.sum(t.product(params.height_max.difference(params.height_min)));
    let by_block = drawn.product(
        (F32 { bits: 0x3f59_999a }).sum(clump.product(F32 { bits: 0x3e99_999a })),
    );
    let pulled = by_block.product(boost);
    let cornered = if corner {
        pulled.product(F32 { bits: 0x3f99_999a })
    } else {
        pulled
    };
    match jitter {
        Some((x, z)) => cornered.product(
            (F32 { bits: 0x3f66_6666 }).sum(
                coord_unit(x, z, seed, domain::HEIGHT).product(F32 { bits: 0x3e4c_cccd }),
            ),
        ),
        None => cornered,
    }
}

/// The height and palette of a cell of a lot; both zero where the lot stays
/// empty.
pub open spec fn built(
    lot_id: u64,
    corner: bool,
    clump: F32,
    boost: F32,
    jitter: Option<(i64, i64)>,
    params: ZoneParams,
    seed: u64,
) -> (F32, u8) {
    if stays_empty(lot_id, clump, params.density, seed) {
        (F32 { bits: 0 }, 0)
    } else {
        (
            raw_height(lot_id, corner, clump, boost, jitter, params, seed).larger(
                F32 { bits: 0 },
            ).smaller(height_cap(params)),
            lot_palette(lot_id, params.palette_count, seed),
        )
    }
}

/// The palette of a lot.
pub fn palette_of(lot_id: u64, palette_count: u8, seed: u64) -> (p: u8)
    ensures
        p == lot_palette(lot_id, palette_count, seed),
        palette_count > 0 ==> p < palette_count,
{
    let n: u64 = if palette_count == 0 {
        1
    } else {
        palette_count as u64
    };
    (hash_coords(lot_id as i64, (lot_id >> 32) as i64, seed, domain::PALETTE) % n) as u8
}

/// The height cap of a zone.
pub fn cap_of(params: &ZoneParams) -> (h: F32)
    ensures
        h == height_cap(*params),
{
    params.height_max.times(F32::from_bits(0x3fcc_cccd)).plus(F32::from_bits(0x3f80_0000))
}

/// The height and palette of a cell of a lot. All cells of a lot share its
/// fate and palette; `cell_jitter` varies the height a little from cell to
/// cell.
pub fn assign_building(
    lot_id: u64,
    corner: bool,
    block_clump: F32,
    cbd_boost: F32,
    cell_jitter: Option<(i64, i64)>,
    params: &ZoneParams,
    seed: u64,
) -> (r: (F32, u8))
    ensures
        r == built(lot_id, corner, block_clump, cbd_boost, cell_jitter, *params, seed),
{
    let roll: F32 = hash_unit(lot_id as i64, (lot_id >> 32) as i64, seed, domain::DENSITY).times(
        F32::from_bits(0x3f26_6666),
    ).plus(block_clump.times(F32::from_bits(0x3eb3_3333)));
    if params.density.lt(roll) {
        return (F32::from_bits(0), 0);
    }
    let t: F32 = hash_unit((lot_id >> 32) as i64, lot_id as i64, seed, domain::LOT_HEIGHT);
    let mut height: F32 = params.height_min.plus(
        t.times(params.height_max.minus(params.height_min)),
    );
    height = height.times(
        F32::from_bits(0x3f59_999a).plus(block_clump.times(F32::from_bits(0x3e99_999a))),
    );
    height = height.times(cbd_boost);
    if corner {
        height = height.times(F32::from_bits(0x3f99_999a));
    }
    if let Some((x, z)) = cell_jitter {
        let j: F32 = hash_unit(x, z, seed, domain::HEIGHT);
        height = height.times(
            F32::from_bits(0x3f66_6666).plus(j.times(F32::from_bits(0x3e4c_cccd))),
        );
    }
    let held: F32 = height.max(F32::from_bits(0)).min(cap_of(params));
    (held, palette_of(lot_id, params.palette_count, seed))
}

/// A building is held to the height cap of its zone, and is never below the
/// ground where that cap is not.
pub proof fn law_heights_are_held(
    lot_id: u64,
    corner: bool,
    clump: F32,
    boost: F32,
    jitter: Option<(i64, i64)>,
    params: ZoneParams,
    seed: u64,
)
    requires
        !stays_empty(lot_id, clump, params.density, seed),
    ensures
        ({
            let h = built(lot_id, corner, clump, boost, jitter, params, seed).0;
            &&& !height_cap(params).below(h)
            &&& !height_cap(params).below(F32 { bits: 0 }) ==> !h.below(F32 { bits: 0 })
        }),
{
    reveal(F32::below);
    reveal(F32::is_undefined);
    crate::single::lemma_single();
}

/// All cells of a lot share its palette, and all are flat where it stays
/// empty; without jitter they share its height.
pub proof fn law_lot_is_uniform(
    lot_id: u64,
    corner: bool,
    clump: F32,
    boost: F32,
    one: Option<(i64, i64)>,
    two: Option<(i64, i64)>,
    params: ZoneParams,
    seed: u64,
)
    ensures
        built(lot_id, corner, clump, boost, one, params, seed).1 == built(
            lot_id,
            corner,
            clump,
            boost,
            two,
            params,
            seed,
        ).1,
        stays_empty(lot_id, clump, params.density, seed) ==> built(
            lot_id,
            corner,
            clump,
            boost,
            one,
            params,
            seed,
        ).0.bits == 0 && built(lot_id, corner, clump, boost, two, params, seed).0.bits == 0,
        one is None && two is None ==> built(lot_id, corner, clump, boost, one, params, seed)
            == built(lot_id, corner, clump, boost, two, params, seed),
{
}

} // verus!
