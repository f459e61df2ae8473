//! What each part of the making of a building does to it.
use crate::building::laws::{height_draw, lot_draw, ordinary_heights, Making};
use crate::building::{height_cap, raw_height, stays_empty};
use crate::hash::{coord_unit, domain};
use crate::single::order::{
    is_amount, is_binary, lemma_binary_negation, lemma_binary_parts, lemma_binary_product,
    lemma_binary_sum, lemma_less_than_twice, lemma_once, lemma_products, lemma_sum_within_step,
    lemma_sums, ONE,
};
use crate::single::{lemma_single, single, F32};
use crate::zones::ZoneParams;
use vstd::arithmetic::power2::pow2;
use vstd::prelude::*;

verus! {

/// A corner makes a building higher by a fifth.
pub proof fn law_corners_add_a_fifth(m: Making, params: ZoneParams, seed: u64)
    requires
        m.jitter is None,
    ensures
        (Making { corner: true, ..m }).height(params, seed) == (Making {
            corner: false,
            ..m
        }).height(params, seed).product(F32 { bits: 0x3f99_999a }),
{
}

/// Every cell of a building varies it by its own draw, from 0.9 on and by 0.2
/// of the draw more.
pub proof fn law_cells_vary_a_building(m: Making, x: i64, z: i64, params: ZoneParams, seed: u64)
    ensures
        (Making { jitter: Some((x, z)), ..m }).height(params, seed) == (Making {
            jitter: None,
            ..m
        }).height(params, seed).product(
            (F32 { bits: 0x3f66_6666 }).sum(
                coord_unit(x, z, seed, domain::HEIGHT).product(F32 { bits: 0x3e4c_cccd }),
            ),
        ),
{
}

/// The pull of the centre multiplies the height, and at a pull of 1 the height
/// is that of the zone and the block alone.
pub proof fn law_centre_multiplies(m: Making, params: ZoneParams, seed: u64)
    requires
        m.jitter is None,
        !m.corner,
        m.ordinary(),
        ordinary_heights(params),
    ensures
        m.height(params, seed) == (Making { boost: F32 { bits: ONE }, ..m }).height(
            params,
            seed,
        ).product(m.boost),
{
    let one = F32 { bits: ONE };
    let plain = Making { boost: one, ..m };
    crate::building::laws::law_heights_rise(plain, plain, params, seed);
    let lo = params.height_min;
    let span = params.height_max.difference(lo);
    let t = height_draw(m.lot_id, seed);
    let d = lo.sum(t.product(span));
    let (base, part) = (F32 { bits: 0x3f59_999a }, F32 { bits: 0x3e99_999a });
    let f = base.sum(m.clump.product(part));
    assert(is_amount(d.product(f))) by {
        crate::hash::law_unit_draw_range(
            (m.lot_id >> 32) as i64,
            m.lot_id as i64,
            seed,
            domain::LOT_HEIGHT,
        );
        crate::building::laws::lemma_drawn(params, t, t);
        crate::building::laws::lemma_factor(base, m.clump, m.clump, part);
        lemma_less_than_twice(d, f);
    }
    lemma_once(d.product(f));
}

/// Heights are drawn evenly over the range of the zone: where the draw is `r`
/// over 4096, and the range runs over whole numbers from `a` to `b`, the height
/// is `a` and that part of the range, times 0.85, in a block that draws
/// nothing, away from the centre.
pub proof fn law_heights_are_even(
    m: Making,
    params: ZoneParams,
    seed: u64,
    r: int,
    a: int,
    b: int,
) -> (drawn: F32)
    requires
        m.jitter is None,
        !m.corner,
        m.boost.bits == ONE,
        m.clump.bits == 0,
        is_binary(height_draw(m.lot_id, seed), r, 12),
        0 <= r < 4096,
        is_binary(params.height_min, a, 0),
        is_binary(params.height_max, b, 0),
        is_amount(params.height_min),
        is_amount(params.height_max),
        0 < a <= b <= 2000,
    ensures
        is_binary(drawn, 4096 * a + (b - a) * r, 12),
        m.height(params, seed) == drawn.product(F32 { bits: 0x3f59_999a }),
{
    let (lo, hi) = (params.height_min, params.height_max);
    let t = height_draw(m.lot_id, seed);
    lemma_binary_negation(lo, a, 0);
    lemma_binary_sum(hi, lo.negation(), b, -a, 0);
    let span = hi.difference(lo);
    assert(0 <= r * (b - a) <= 4095 * (b - a)) by (nonlinear_arith)
        requires
            0 <= r < 4096,
            0 <= b - a,
    ;
    lemma_binary_product(t, span, r, b - a, 12, 0);
    lemma_binary_parts(lo, a, 0, 12);
    assert(pow2(12) == 4096) by {
        vstd::arithmetic::power2::lemma2_to64();
    }
    lemma_binary_sum(lo, t.product(span), a * 4096, r * (b - a), 12);
    let drawn = lo.sum(t.product(span));
    assert((b - a) * r == r * (b - a)) by (nonlinear_arith);
    // A block that draws nothing multiplies by 0.85.
    let zero = F32 { bits: 0 };
    let (base, part) = (F32 { bits: 0x3f59_999a }, F32 { bits: 0x3e99_999a });
    lemma_single();
    assert(m.clump == zero);
    assert(zero.product(part) == zero) by {
        lemma_products(zero, part, zero, F32 { bits: ONE });
        lemma_once(zero);
    }
    assert(base.sum(zero) == base) by {
        crate::float::laws::lemma_zero(single());
        crate::float::error::lemma_sum_bits(
            single(),
            base.bits as u64,
            0,
            base.bits as u64,
        );
        reveal(F32::sum);
    }
    let e = drawn.product(base);
    assert(is_amount(e)) by {
        lemma_amount(drawn, 4096 * a + (b - a) * r);
        lemma_products(drawn, base, drawn, F32 { bits: ONE });
        lemma_once(drawn);
    }
    lemma_once(e);
    drawn
}

/// A number above nothing is an amount.
proof fn lemma_amount(x: F32, n: int)
    requires
        is_binary(x, n, 12),
        n > 0,
    ensures
        is_amount(x),
{
    lemma_single();
    let w = pow2(137);
    vstd::arithmetic::power2::lemma_pow2_pos(137);
    assert(n * w > 0) by (nonlinear_arith)
        requires
            n > 0,
            w > 0,
    ;
}

/// The draw of the lot counts 0.65, and that of its block 0.35: where the one
/// is nothing, the lot stays empty where the other, so counted, is above the
/// density.
pub proof fn law_counts_of_the_draws(lot_id: u64, clump: F32, density: F32, seed: u64)
    requires
        clump.bits < ONE,
    ensures
        clump.bits == 0 ==> (stays_empty(lot_id, clump, density, seed) <==> density.below(
            lot_draw(lot_id, seed).product(F32 { bits: 0x3f26_6666 }),
        )),
        lot_draw(lot_id, seed).bits == 0 ==> (stays_empty(lot_id, clump, density, seed)
            <==> density.below(clump.product(F32 { bits: 0x3eb3_3333 }))),
{
    let (own, block) = (F32 { bits: 0x3f26_6666 }, F32 { bits: 0x3eb3_3333 });
    let (zero, one) = (F32 { bits: 0 }, F32 { bits: ONE });
    let u = lot_draw(lot_id, seed);
    crate::hash::law_unit_draw_range(lot_id as i64, (lot_id >> 32) as i64, seed, domain::DENSITY);
    lemma_products(zero, own, zero, one);
    lemma_products(zero, block, zero, one);
    lemma_once(zero);
    lemma_products(u, own, one, own);
    lemma_products(clump, block, one, block);
    lemma_once(own);
    lemma_once(block);
    lemma_single();
    crate::float::laws::lemma_zero(single());
    let (x, y) = (u.product(own), clump.product(block));
    crate::float::error::lemma_sum_bits(single(), x.bits as u64, 0, x.bits as u64);
    crate::float::error::lemma_sum_bits(single(), 0, y.bits as u64, y.bits as u64);
    lemma_sums(zero, y, zero, y);
    reveal(F32::sum);
}

/// The height cap of a zone is 1 more than 1.6 times the top of its range,
/// to within a thousandth of that.
pub proof fn law_height_caps(params: ZoneParams)
    requires
        params.height_max.bits <= 0x7c00_0000,
    ensures
        // 1.599 and 1.601.
        params.height_max.product(F32 { bits: 0x3fcc_ac08 }).sum(F32 { bits: ONE }).bits
            <= height_cap(params).bits,
        height_cap(params).bits <= params.height_max.product(F32 { bits: 0x3fcc_ed91 }).sum(
            F32 { bits: ONE },
        ).bits,
{
    let hi = params.height_max;
    let one = F32 { bits: ONE };
    let (a, b, c) = (
        F32 { bits: 0x3fcc_ac08 },
        F32 { bits: 0x3fcc_cccd },
        F32 { bits: 0x3fcc_ed91 },
    );
    lemma_less_than_twice(hi, c);
    lemma_less_than_twice(hi, b);
    lemma_products(hi, a, hi, b);
    lemma_products(hi, b, hi, c);
    lemma_sums(hi.product(a), one, hi.product(b), one);
    lemma_sums(hi.product(b), one, hi.product(c), one);
}

} // verus!
