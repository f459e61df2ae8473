//! How the street frames of districts are drawn.
use crate::double::F64;
use crate::hash::{coord_hash, coord_unit, domain, law_unit_draw_range};
use crate::region::measures::{
    is_dyadic, lemma_dyadic_digits, lemma_dyadic_product, lemma_dyadic_sum, lemma_widened_parts,
};
use crate::region::{district_unit, frame_of, orientation, radians};
use crate::single::order::is_binary;
use vstd::arithmetic::power2::{lemma_pow2_adds, pow2};
use vstd::prelude::*;

verus! {

/// The orientations of districts: straight, or turned by 10, 18 or 27 degrees
/// to either side.
pub proof fn law_orientations(site: i64, seed: u64)
    ensures
        ({
            let k = coord_hash(site, 0, seed, domain::ORIENTATION) as int % 7;
            frame_of(site, seed).angle_rad == radians(orientation(k))
        }),
        is_dyadic(orientation(1), 10, 0),
        is_dyadic(orientation(3), 18, 0),
        is_dyadic(orientation(5), 27, 0),
        orientation(0).bits == 0,
        orientation(2) == orientation(1).negation(),
        orientation(4) == orientation(3).negation(),
        orientation(6) == orientation(5).negation(),
{
    lemma_powers();
    lemma_dyadic_digits(orientation(1), 1025, 0x14_0000_0000_0000, 10, 49);
    lemma_dyadic_digits(orientation(3), 1026, 0x12_0000_0000_0000, 18, 48);
    lemma_dyadic_digits(orientation(5), 1026, 0x1b_0000_0000_0000, 27, 48);
    reveal(F64::negation);
    crate::double::lemma_double();
}

proof fn lemma_powers()
    ensures
        pow2(35) == 0x8_0000_0000,
        pow2(37) == 0x20_0000_0000,
        pow2(41) == 0x200_0000_0000,
        pow2(47) == 0x8000_0000_0000,
        pow2(48) == 0x1_0000_0000_0000,
        pow2(49) == 0x2_0000_0000_0000,
{
    vstd::arithmetic::power2::lemma2_to64();
    lemma_pow2_adds(32, 3);
    lemma_pow2_adds(32, 5);
    lemma_pow2_adds(32, 9);
    lemma_pow2_adds(32, 15);
    lemma_pow2_adds(32, 16);
    lemma_pow2_adds(32, 17);
}

/// The waves of a frame are drawn evenly: where the draw is `r` over 4096, the
/// long wave is of `0.5 + r / 4096` cells over `40 + 40 r / 4096`, and the
/// short one is over `12 + 18 r / 4096`, exactly. Each has its own draw.
pub proof fn law_waves_are_even(site: i64, seed: u64, r: int)
    requires
        0 <= r < 4096,
    ensures
        ({
            let f = frame_of(site, seed);
            let draw = |k: i64| is_binary(coord_unit(site, k, seed, domain::ORIENTATION), r, 12);
            &&& draw(1) ==> is_dyadic(f.warp_amp, 2048 + r, 12)
            &&& draw(2) ==> is_dyadic(f.warp_len, 40 * 4096 + 40 * r, 12)
            &&& draw(5) ==> is_dyadic(f.warp_len2, 12 * 4096 + 18 * r, 12)
        }),
{
    lemma_powers();
    let half = F64 { bits: 0x3fe0_0000_0000_0000 };
    let forty = F64 { bits: 0x4044_0000_0000_0000 };
    let twelve = F64 { bits: 0x4028_0000_0000_0000 };
    let eighteen = F64 { bits: 0x4032_0000_0000_0000 };
    lemma_dyadic_digits(half, 1021, 0x10_0000_0000_0000, 2048, 41);
    lemma_dyadic_digits(forty, 1027, 0x14_0000_0000_0000, 40 * 4096, 35);
    lemma_dyadic_digits(forty, 1027, 0x14_0000_0000_0000, 40, 47);
    lemma_dyadic_digits(twelve, 1025, 0x18_0000_0000_0000, 12 * 4096, 37);
    lemma_dyadic_digits(eighteen, 1026, 0x12_0000_0000_0000, 18, 48);
    law_unit_draw_range(site, 1, seed, domain::ORIENTATION);
    law_unit_draw_range(site, 2, seed, domain::ORIENTATION);
    law_unit_draw_range(site, 5, seed, domain::ORIENTATION);
    if is_binary(coord_unit(site, 1, seed, domain::ORIENTATION), r, 12) {
        let u = district_unit(site, 1, seed);
        lemma_widened_parts(coord_unit(site, 1, seed, domain::ORIENTATION), r);
        lemma_dyadic_sum(half, u, 2048, r, 12);
    }
    if is_binary(coord_unit(site, 2, seed, domain::ORIENTATION), r, 12) {
        let u = district_unit(site, 2, seed);
        lemma_widened_parts(coord_unit(site, 2, seed, domain::ORIENTATION), r);
        lemma_dyadic_product(u, forty, r, 40, 12, 0);
        lemma_dyadic_sum(forty, u.product(forty), 163_840, r * 40, 12);
    }
    if is_binary(coord_unit(site, 5, seed, domain::ORIENTATION), r, 12) {
        let u = district_unit(site, 5, seed);
        lemma_widened_parts(coord_unit(site, 5, seed, domain::ORIENTATION), r);
        lemma_dyadic_product(u, eighteen, r, 18, 12, 0);
        lemma_dyadic_sum(twelve, u.product(eighteen), 49_152, r * 18, 12);
    }
}

} // verus!
