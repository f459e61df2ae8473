//! Where the two boulevards run.
use crate::config::WorldConfig;
use crate::double::error::{lemma_plain, lemma_worth_value};
use crate::double::{lemma_double, F64};
use crate::float::order::size;
use crate::hash::{coord_unit, domain, law_unit_draw_range};
use crate::region::measures::{
    is_dyadic, is_whole, lemma_dyadic_negation, lemma_dyadic_product, lemma_dyadic_sum,
    lemma_widened_parts,
};
use crate::region::{boulevard, radians, ONE, TWO};
use crate::single::order::{
    is_binary, lemma_once, lemma_products, lemma_sum_within_step, lemma_sums,
};
use crate::single::{lemma_single, F32};
use vstd::arithmetic::power2::{lemma_pow2_adds, lemma_pow2_unfold, pow2};
use vstd::prelude::*;

verus! {

/// The first boulevard runs at 30 to 60 degrees, to the one side or the other,
/// and the second across it.
pub proof fn law_boulevards_are_diagonal(c: WorldConfig) -> (degrees: F32)
    ensures
        // 30 and 60.
        0x41f0_0000 <= degrees.bits <= 0x4270_0000,
        ({
            let turn = F64::widened(degrees);
            let angle = if coord_unit(0, 1, c.seed, domain::DIAGONAL).below(
                F32 { bits: 0x3f00_0000 },
            ) {
                (F64 { bits: ONE }).product(turn)
            } else {
                (F64 { bits: ONE }).negation().product(turn)
            };
            &&& boulevard(c, 0).angle_rad == radians(angle.sum(F64 { bits: 0 }))
            // A quarter turn.
            &&& boulevard(c, 1).angle_rad == radians(angle.sum(F64 { bits: 0x4056_8000_0000_0000 }))
            &&& boulevard(c, 0).half_width.bits == ONE
            &&& boulevard(c, 1).half_width.bits == ONE
        }),
{
    let thirty = F32 { bits: 0x41f0_0000 };
    let one = F32 { bits: 0x3f80_0000 };
    let u = coord_unit(0, 0, c.seed, domain::DIAGONAL);
    law_unit_draw_range(0, 0, c.seed, domain::DIAGONAL);
    lemma_products(u, thirty, one, thirty);
    lemma_once(thirty);
    let part = u.product(thirty);
    lemma_sums(thirty, part, thirty, part);
    lemma_sum_within_step(thirty, part, thirty);
    assert((F64 { bits: ONE }).negation().bits == 0xbff0_0000_0000_0000) by {
        reveal(F64::negation);
        lemma_double();
    }
    thirty.sum(part)
}

/// Boulevards are spread evenly over the span: where the draw is `r` over 4096
/// and the span is a whole number, the place is the span times
/// `2 r / 4096 - 1`, exactly.
pub proof fn law_boulevards_are_spread(c: WorldConfig, k: int, r: int, s: int)
    requires
        is_binary(coord_unit(k as i64, 2, c.seed, domain::DIAGONAL), r, 12),
        is_whole(c.voronoi_span, s),
        0 <= r < 4096,
        0 < s < 0x4000_0000,
    ensures
        is_dyadic(boulevard(c, k).offset, s * (r - 2048), 11),
{
    let u = coord_unit(k as i64, 2, c.seed, domain::DIAGONAL);
    let (one, two) = (F64 { bits: ONE }, F64 { bits: TWO });
    law_unit_draw_range(k as i64, 2, c.seed, domain::DIAGONAL);
    lemma_single();
    lemma_double();
    lemma_widened_parts(u, r);
    let x = F64::widened(u);
    assert(is_dyadic(x, r, 12));
    // The numbers 1 and 2.
    crate::float::lemma_pow2_values();
    lemma_worth_value(one, 1022, 0x10_0000_0000_0000);
    lemma_worth_value(two, 1023, 0x10_0000_0000_0000);
    lemma_plain(one);
    lemma_plain(two);
    lemma_pow2_adds(52, 1022);
    lemma_pow2_unfold(1023);
    assert(is_whole(two, 2));
    lemma_dyadic_product(x, two, r, 2, 12, 0);
    lemma_pow2_adds(41, 1022);
    vstd::arithmetic::power2::lemma2_to64();
    lemma_pow2_adds(32, 9);
    assert(pow2(41) == 0x200_0000_0000);
    // In parts of 2048.
    let y = x.product(two);
    lemma_pow2_unfold(1063);
    let h = pow2(1062);
    assert((r * 2) * h == r * (2 * h)) by (nonlinear_arith);
    assert(is_dyadic(y, r, 11));
    assert(is_dyadic(one, 2048, 11)) by {
        assert(0x10_0000_0000_0000 * pow2(1022) == 2048 * (0x200_0000_0000 * pow2(1022)));
    }
    lemma_dyadic_negation(one, 2048, 11);
    lemma_dyadic_sum(y, one.negation(), r, -2048, 11);
    assert(size((r - 2048) * s) < 0x20_0000_0000_0000) by (nonlinear_arith)
        requires
            0 <= r < 4096,
            0 < s < 0x4000_0000,
            size((r - 2048) * s) == if (r - 2048) * s < 0 {
                -((r - 2048) * s)
            } else {
                (r - 2048) * s
            },
    ;
    lemma_dyadic_product(y.difference(one), c.voronoi_span, r - 2048, s, 11, 0);
    assert((r - 2048) * s == s * (r - 2048)) by (nonlinear_arith);
}

} // verus!
