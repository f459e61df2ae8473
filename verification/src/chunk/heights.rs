//! How high a cell is built.
use crate::building::{built, height_cap};
use crate::chunk::laws::{law_ground, law_sheds_are_low};
use crate::chunk::{
    city_cell, dominant, flat, ground_flags, kept_free, landmark, pulls, shed, special, CellField,
    SpecialKind,
};
use crate::config::WorldConfig;
use crate::data::CellFlags;
use crate::double::F64;
use crate::hash::{coord_unit, domain};
use crate::lot::{located, lot_at, BlockLoc, LotSlot};
use crate::region::{centre_pull, zone_pull, VoronoiDiagram};
use crate::single::order::{
    is_binary, lemma_binary_digits, lemma_binary_product, lemma_binary_sum,
};
use crate::single::F32;
use crate::zones::{ZoneParams, ZoneType, ZONE_COUNT};
use vstd::prelude::*;

verus! {

/// The parameters at a cell.
pub open spec fn params_at(c: WorldConfig, v: VoronoiDiagram, f: CellField) -> ZoneParams {
    c.blended(pulls(v, f.powers@))
}

/// The block of a cell.
pub open spec fn block_at(c: WorldConfig, v: VoronoiDiagram, f: CellField) -> BlockLoc {
    located(f.here.local_x, f.here.local_z, params_at(c, v, f).block_size)
}

/// The lot of a cell.
pub open spec fn lot_of(c: WorldConfig, v: VoronoiDiagram, f: CellField) -> LotSlot {
    lot_at(block_at(c, v, f), params_at(c, v, f).block_size, c.seed)
}

/// The zone of a cell.
pub open spec fn zone_of(v: VoronoiDiagram, f: CellField) -> ZoneType {
    dominant(pulls(v, f.powers@))
}

/// What the block of a cell is.
pub open spec fn kind_of(c: WorldConfig, v: VoronoiDiagram, f: CellField) -> SpecialKind {
    let b = block_at(c, v, f);
    special(b.bx, b.bz, zone_of(v, f), c.seed)
}

/// The height that the lot of a cell has on its own.
pub open spec fn own_height(
    c: WorldConfig,
    v: VoronoiDiagram,
    x: int,
    z: int,
    f: CellField,
) -> F32 {
    let b = block_at(c, v, f);
    let lot = lot_of(c, v, f);
    built(
        lot.lot_id,
        lot.corner,
        coord_unit(b.bx, b.bz, c.seed, domain::BLOCK_NOISE),
        centre_pull(v.map(), F64::integer(x), F64::integer(z)),
        Some((x as i64, z as i64)),
        params_at(c, v, f),
        c.seed,
    ).0
}

/// Is the ground at the cell open to building: neither paved nor green?
pub open spec fn is_open_ground(
    c: WorldConfig,
    v: VoronoiDiagram,
    x: int,
    z: int,
    f: CellField,
) -> bool {
    !kept_free(ground_flags(v, params_at(c, v, f), zone_of(v, f), f, x, z, c.seed))
}

/// Is `h` the height `want`, or a bound below it?
pub open spec fn up_to(h: F32, want: F32, bound: F32) -> bool {
    if bound.below(want) {
        h == bound
    } else {
        h == want
    }
}

/// A cell of an ordinary block that is no landmark has the height of its lot,
/// or the bound that the footprint sets where that is lower; a lot that stays
/// empty is flat.
pub proof fn law_ordinary_cells_have_the_height_of_their_lot(
    c: WorldConfig,
    v: VoronoiDiagram,
    x: int,
    z: int,
    f: CellField,
)
    requires
        is_open_ground(c, v, x, z, f),
        kind_of(c, v, f) == SpecialKind::Ordinary,
        !landmark(lot_of(c, v, f).lot_id, zone_of(v, f), c.seed),
    ensures
        ({
            let h = own_height(c, v, x, z, f);
            let cell = city_cell(c, v, x, z, f);
            &&& flat().below(h) ==> up_to(cell.height, h, f.height_cap)
            &&& !flat().below(h) ==> cell.height == h
        }),
{
    lemma_above(own_height(c, v, x, z, f));
}

proof fn lemma_above(h: F32)
    ensures
        flat().below(h) ==> !h.is_undefined() && !h.at_most(flat()),
        !flat().below(h) && !h.is_undefined() ==> h.at_most(flat()),
        !flat().below(flat()),
        !flat().is_undefined(),
{
    reveal(F32::below);
    reveal(F32::at_most);
    reveal(F32::is_undefined);
    crate::single::lemma_single();
}

/// A landmark rises by half its height, up to the cap of its zone and the bound
/// that the footprint sets.
pub proof fn law_landmarks_rise(c: WorldConfig, v: VoronoiDiagram, x: int, z: int, f: CellField)
    requires
        is_open_ground(c, v, x, z, f),
        kind_of(c, v, f) == SpecialKind::Ordinary,
        landmark(lot_of(c, v, f).lot_id, zone_of(v, f), c.seed),
        flat().below(own_height(c, v, x, z, f)),
    ensures
        ({
            let risen = own_height(c, v, x, z, f).product(F32 { bits: 0x3fc0_0000 });
            let cap = height_cap(params_at(c, v, f));
            let cell = city_cell(c, v, x, z, f);
            let h = if risen.is_undefined() || cap.below(risen) {
                cap
            } else {
                risen
            };
            if flat().below(h) {
                up_to(cell.height, h, f.height_cap)
            } else {
                cell.height == h
            }
        }),
{
    let risen = own_height(c, v, x, z, f).product(F32 { bits: 0x3fc0_0000 });
    let cap = height_cap(params_at(c, v, f));
    lemma_above(risen);
    lemma_above(cap);
    lemma_above(own_height(c, v, x, z, f));
}

/// Every lot of a market block is built on, and stays low: a lot that would be
/// empty carries a shed of 4 to 10 units, and any other is held to 10; the
/// bound that the footprint sets comes first.
pub proof fn law_markets_stay_low(c: WorldConfig, v: VoronoiDiagram, x: int, z: int, f: CellField)
    requires
        is_open_ground(c, v, x, z, f),
        kind_of(c, v, f) == SpecialKind::Market,
        !own_height(c, v, x, z, f).is_undefined(),
    ensures
        ({
            let own = own_height(c, v, x, z, f);
            let cell = city_cell(c, v, x, z, f);
            let ten = F32 { bits: 0x4120_0000 };
            &&& flat().below(own) && !ten.below(own) ==> up_to(cell.height, own, f.height_cap)
            &&& ten.below(own) ==> up_to(cell.height, ten, f.height_cap)
            &&& !flat().below(own) ==> cell.height == f.height_cap || 0x4080_0000
                <= cell.height.bits <= 0x4120_0000
            &&& !flat().below(own) && !f.height_cap.below(ten) ==> 0x4080_0000 <= cell.height.bits
                <= 0x4120_0000
        }),
{
    let own = own_height(c, v, x, z, f);
    let ten = F32 { bits: 0x4120_0000 };
    lemma_above(own);
    let lot = lot_of(c, v, f);
    let s = shed(lot.lot_id, params_at(c, v, f), c.seed).0;
    law_sheds_are_low(lot.lot_id, params_at(c, v, f), c.seed);
    lemma_above(s);
    reveal(F32::below);
    reveal(F32::at_most);
    reveal(F32::is_undefined);
    crate::single::lemma_single();
}

/// In a tower block every lot but the middle one is green and flat.
pub proof fn law_tower_blocks_are_green(
    c: WorldConfig,
    v: VoronoiDiagram,
    x: int,
    z: int,
    f: CellField,
)
    requires
        is_open_ground(c, v, x, z, f),
        kind_of(c, v, f) == SpecialKind::TowerPark,
        lot_of(c, v, f).slot != lot_of(c, v, f).count / 2,
    ensures
        ({
            let cell = city_cell(c, v, x, z, f);
            &&& cell.height == flat()
            &&& cell.interior_id == 0
            &&& cell.flags.has(CellFlags::IS_PARK)
        }),
{
    lemma_above(flat());
    let flags = ground_flags(v, params_at(c, v, f), zone_of(v, f), f, x, z, c.seed);
    let b = flags.bits;
    assert((b | 2u8) & 2u8 == 2u8) by (bit_vector);
    assert(flat().at_most(flat())) by {
        reveal(F32::at_most);
        crate::single::lemma_single();
    }
}

/// In a tower block the middle lot is built on, taller by 1.35 than it would
/// be, up to the cap of the zone and the bound that the footprint sets.
pub proof fn law_towers_grow(c: WorldConfig, v: VoronoiDiagram, x: int, z: int, f: CellField)
    requires
        is_open_ground(c, v, x, z, f),
        kind_of(c, v, f) == SpecialKind::TowerPark,
        lot_of(c, v, f).slot == lot_of(c, v, f).count / 2,
        !landmark(lot_of(c, v, f).lot_id, zone_of(v, f), c.seed),
        !own_height(c, v, x, z, f).is_undefined(),
    ensures
        ({
            let grown = tower_height(own_height(c, v, x, z, f));
            let cap = height_cap(params_at(c, v, f));
            let cell = city_cell(c, v, x, z, f);
            flat().below(grown) && !cap.below(grown) ==> up_to(cell.height, grown, f.height_cap)
        }),
{
    let own = own_height(c, v, x, z, f);
    lemma_above(own);
    lemma_above(tower_height(own));
}

/// The height of a tower in a park: 1.35 times that of its lot, which counts
/// as 8 where it would be empty.
pub open spec fn tower_height(own: F32) -> F32 {
    (if flat().below(own) {
        own
    } else {
        F32 { bits: 0x4100_0000 }
    }).product(F32 { bits: 0x3fac_cccd })
}

/// A square is a square: no cell of such a block is built on, and every one
/// that is neither road nor pavement carries the trait.
pub proof fn law_squares_are_open(c: WorldConfig, v: VoronoiDiagram, x: int, z: int, f: CellField)
    requires
        kind_of(c, v, f) == SpecialKind::Plaza,
    ensures
        ({
            let cell = city_cell(c, v, x, z, f);
            &&& cell.height == flat()
            &&& cell.interior_id == 0
            &&& cell.flags.has(CellFlags::IS_STREET) || cell.flags.has(CellFlags::IS_SIDEWALK)
                || cell.flags.has(CellFlags::IS_PLAZA)
        }),
{
    let (params, zone) = (params_at(c, v, f), zone_of(v, f));
    let flags = ground_flags(v, params, zone, f, x, z, c.seed);
    law_ground(v, params, zone, f, x, z, c.seed);
    assert forall|b: u8| (#[trigger] (b | 16u8)) & 16u8 == 16u8 by {
        assert((b | 16u8) & 16u8 == 16u8) by (bit_vector);
    }
    assert forall|b: u8|
        (#[trigger] (b | 16u8)) & 1u8 == b & 1u8 && (b | 16u8) & 8u8 == b & 8u8 by {
        assert((b | 16u8) & 1u8 == b & 1u8 && (b | 16u8) & 8u8 == b & 8u8) by (bit_vector);
    }
}

/// Where the ground is kept free, the cell is flat and has no palette and no
/// interior; and every cell carries the pull of every zone.
pub proof fn law_cells_carry_the_pulls(
    c: WorldConfig,
    v: VoronoiDiagram,
    x: int,
    z: int,
    f: CellField,
    k: int,
)
    requires
        0 <= k < ZONE_COUNT,
    ensures
        city_cell(c, v, x, z, f).zone_affinity[k] == zone_pull(
            v.map(),
            f.powers@,
            v.guard(),
            k,
        ),
        city_cell(c, v, x, z, f)._pad == 0,
        !is_open_ground(c, v, x, z, f) ==> {
            let cell = city_cell(c, v, x, z, f);
            &&& cell.height == flat()
            &&& cell.palette_id == 0
            &&& cell.interior_id == 0
        },
{
    let a = pulls(v, f.powers@);
    assert(city_cell(c, v, x, z, f).zone_affinity == a);
    if k == 0 {
    } else if k == 1 {
    } else if k == 2 {
    } else if k == 3 {
    } else {
    }
}

/// What blocks can be is a matter of the zone: among homes and in parks all are
/// ordinary, squares are downtown or in commerce, markets in commerce or
/// industry, and towers in parks downtown. The shares are 2% and 2% downtown,
/// 2% and 3% in commerce, and 3% in industry, of the draw of the block.
pub proof fn law_special_blocks(bx: i64, bz: i64, zone: ZoneType, seed: u64)
    ensures
        ({
            let k = special(bx, bz, zone, seed);
            let r = coord_unit(bx, bz, seed, domain::SPECIAL);
            let (downtown, commerce, industry) = (
                zone == ZoneType::Downtown,
                zone == ZoneType::Commercial,
                zone == ZoneType::Industrial,
            );
            &&& k == SpecialKind::Plaza <==> (downtown || commerce) && r.below(
                F32 { bits: 0x3ca3_d70a },
            )
            &&& k == SpecialKind::TowerPark <==> downtown && !r.below(F32 { bits: 0x3ca3_d70a })
                && r.below(F32 { bits: 0x3d23_d70a })
            &&& k == SpecialKind::Market <==> (commerce && !r.below(F32 { bits: 0x3ca3_d70a })
                && r.below(F32 { bits: 0x3d4c_cccd })) || (industry && r.below(
                F32 { bits: 0x3cf5_c28f },
            ))
        }),
{
}

/// A landmark among homes would be one in commerce, and one in commerce would
/// be one downtown; parks have none. The draw of a landmark is below 0.04
/// downtown, 0.02 in commerce and 0.01 elsewhere.
pub proof fn law_landmarks(lot_id: u64, seed: u64)
    ensures
        ({
            let r = coord_unit(lot_id as i64, (lot_id >> 32) as i64, seed, domain::LANDMARK);
            &&& !landmark(lot_id, ZoneType::Park, seed)
            &&& landmark(lot_id, ZoneType::Residential, seed) == landmark(
                lot_id,
                ZoneType::Industrial,
                seed,
            )
            &&& landmark(lot_id, ZoneType::Residential, seed) ==> landmark(
                lot_id,
                ZoneType::Commercial,
                seed,
            )
            &&& landmark(lot_id, ZoneType::Commercial, seed) ==> landmark(
                lot_id,
                ZoneType::Downtown,
                seed,
            )
            &&& landmark(lot_id, ZoneType::Downtown, seed) <==> r.below(F32 { bits: 0x3d23_d70a })
            &&& landmark(lot_id, ZoneType::Commercial, seed) <==> r.below(
                F32 { bits: 0x3ca3_d70a },
            )
            &&& landmark(lot_id, ZoneType::Residential, seed) <==> r.below(
                F32 { bits: 0x3c23_d70a },
            )
        }),
{
    reveal(F32::below);
    crate::single::lemma_single();
}

/// Sheds are drawn evenly: where the draw of the lot is `r` over 4096, the
/// shed is `4 + 6 r / 4096` high, exactly.
pub proof fn law_sheds_are_even(lot_id: u64, params: ZoneParams, seed: u64, r: int)
    requires
        0 <= r < 4096,
        is_binary(
            coord_unit(lot_id as i64, (lot_id >> 32) as i64, seed, domain::LOT_HEIGHT),
            r,
            12,
        ),
    ensures
        is_binary(shed(lot_id, params, seed).0, 4 * 4096 + 6 * r, 12),
{
    let u = coord_unit(lot_id as i64, (lot_id >> 32) as i64, seed, domain::LOT_HEIGHT);
    let (four, six) = (F32 { bits: 0x4080_0000 }, F32 { bits: 0x40c0_0000 });
    vstd::arithmetic::power2::lemma2_to64();
    lemma_binary_digits(four, 128, 0x80_0000, 16_384, 9);
    lemma_binary_digits(six, 128, 0xc0_0000, 6, 21);
    lemma_binary_product(u, six, r, 6, 12, 0);
    lemma_binary_sum(four, u.product(six), 16_384, r * 6, 12);
}

} // verus!
