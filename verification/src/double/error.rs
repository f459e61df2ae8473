//! How far double-precision arithmetic on numbers that are not negative errs,
//! and how it keeps their order.
use crate::double::{double, lemma_double, F64};
use crate::float::error::{
    lemma_rounded_finite, lemma_rounding_error, lemma_rounding_keeps_order, lemma_share_bits,
    lemma_sum_bits,
};
use crate::float::laws::{lemma_absolute_increases, lemma_nearest_multiple, lemma_zero, off};
use crate::float::{
    absolute, finite, lemma_bit_length_below, lemma_bit_length_unique, lemma_fields, lemma_packed,
    lemma_pow2_values, lemma_product_value, lemma_rounded_bound, lemma_rounded_exact,
    lemma_rounded_own, lemma_rounded_scale, magnitude, nearest, negative, product, quotient,
    ratio_order, rounded, rounded_ratio, scale, significand, sum, value,
};
use crate::single::{lemma_single, single, F32};
use vstd::arithmetic::power2::{
    lemma_pow2_adds, lemma_pow2_pos, lemma_pow2_strictly_increases, pow2,
};
use vstd::prelude::*;

verus! {

/// Is this a finite number without a sign?
pub open spec fn plain(x: F64) -> bool {
    x.bits < 0x7ff0_0000_0000_0000
}

/// What such a number stands for, counted in the least positive number.
pub open spec fn worth(x: F64) -> nat {
    absolute(double(), x.bits as nat)
}

/// What 1 comes to, so counted.
pub open spec fn unit() -> nat {
    pow2(1074)
}

/// A power of two is below a higher one, and not above an equal one.
pub proof fn lemma_powers(a: nat, b: nat)
    requires
        a <= b,
    ensures
        0 < pow2(a) <= pow2(b),
{
    lemma_pow2_pos(a);
    if a < b {
        lemma_pow2_strictly_increases(a, b);
    }
}

pub proof fn lemma_plain(x: F64)
    requires
        plain(x),
    ensures
        finite(double(), x.bits),
        !negative(double(), x.bits),
        magnitude(double(), x.bits) == x.bits,
        x.bits < double().infinity(),
{
    lemma_double();
}

/// The error of a sum.
pub proof fn lemma_sum_error(a: F64, b: F64)
    requires
        plain(a),
        plain(b),
        worth(a) + worth(b) < pow2(2097),
    ensures
        plain(a.sum(b)),
        0x20_0000_0000_0000 * off(worth(a.sum(b)) as int, (worth(a) + worth(b)) as int) <= worth(a)
            + worth(b),
{
    let f = double();
    let n = worth(a) + worth(b);
    reveal(F64::sum);
    lemma_double();
    lemma_plain(a);
    lemma_plain(b);
    lemma_pow2_values();
    lemma_bit_length_below(n, 2097);
    lemma_rounded_finite(f, n, 0);
    lemma_rounding_error(f, n, 0);
    vstd::arithmetic::power2::lemma2_to64();
    lemma_zero(f);
    let r = rounded(f, n, 0);
    assert(absolute(f, r) * 1 == absolute(f, r));
    assert(n == 0 ==> r == 0);
    assert(sum(f, a.bits, b.bits) == r);
}

/// The error of a product.
pub proof fn lemma_product_error(a: F64, b: F64)
    requires
        plain(a),
        plain(b),
        worth(a) * worth(b) < pow2(3171),
    ensures
        plain(a.product(b)),
        ({
            let err = off((worth(a.product(b)) * unit()) as int, (worth(a) * worth(b)) as int);
            ||| 0x20_0000_0000_0000 * err <= worth(a) * worth(b)
            ||| 2 * err <= unit()
        }),
{
    let f = double();
    let n = worth(a) * worth(b);
    reveal(F64::product);
    lemma_double();
    lemma_plain(a);
    lemma_plain(b);
    lemma_pow2_values();
    lemma_product_value(f, a.bits as nat, b.bits as nat);
    assert(n >= 0) by (nonlinear_arith)
        requires
            n == worth(a) * worth(b),
    ;
    lemma_bit_length_below(n, 3171);
    lemma_rounded_finite(f, n, -1074);
    lemma_rounding_error(f, n, -1074);
    let r = rounded(f, n, -1074);
    assert(product(f, a.bits, b.bits) == r);
}

/// The error of a reciprocal.
pub proof fn lemma_reciprocal_error(x: F64)
    requires
        plain(x),
        pow2(60) <= worth(x) < pow2(2080),
    ensures
        plain((F64 { bits: 0x3ff0_0000_0000_0000 }).quotient(x)),
        ({
            let r = (F64 { bits: 0x3ff0_0000_0000_0000 }).quotient(x);
            0x10_0000_0000_0000 * off((worth(r) * worth(x)) as int, (unit() * unit()) as int)
                <= unit() * unit()
        }),
{
    let f = double();
    let one = F64 { bits: 0x3ff0_0000_0000_0000 };
    let r = one.quotient(x);
    reveal(F64::quotient);
    lemma_double();
    lemma_plain(x);
    lemma_pow2_values();
    lemma_fields(f, x.bits as nat);
    let num: nat = 0x10_0000_0000_0000;
    let den = significand(f, x.bits as nat);
    let s = scale(f, x.bits as nat);
    assert(significand(f, 0x3ff0_0000_0000_0000) == num);
    assert(scale(f, 0x3ff0_0000_0000_0000) == 1022);
    let e = 1022 - s + 1074;
    // The divisor is normal, and of moderate size.
    assert(8 <= s) by {
        if s < 8 {
            lemma_powers(s, 7);
            lemma_pow2_adds(53, 7);
            assert(den * pow2(s) < pow2(53) * pow2(7)) by (nonlinear_arith)
                requires
                    0 <= den < pow2(53),
                    0 < pow2(s) <= pow2(7),
            ;
        }
    }
    assert(s <= 2028) by {
        if s > 2028 {
            lemma_powers(2028, s);
            lemma_pow2_adds(52, 2028);
            assert(den * pow2(s) >= pow2(52) * pow2(2028)) by (nonlinear_arith)
                requires
                    den >= pow2(52),
                    pow2(s) >= pow2(2028),
                    pow2(2028) > 0,
                    pow2(52) > 0,
            {
                assert(den * pow2(s) >= pow2(52) * pow2(s));
                assert(pow2(52) * pow2(s) >= pow2(52) * pow2(2028));
            }
        }
    }
    lemma_bit_length_unique(num, 53);
    lemma_bit_length_unique(den, 53);
    let k = ratio_order(num, den);
    vstd::arithmetic::power2::lemma2_to64();
    assert(den * pow2(0) == den) by (nonlinear_arith)
        requires
            pow2(0) == 1,
    ;
    assert(k == if num < den { 0int } else { 1 });
    let d = k - 53;
    let c = pow2((-d) as nat);
    assert(c == 0x20_0000_0000_0000 || c == 0x10_0000_0000_0000);
    let q = nearest(num * c, den);
    let w = pow2((e + d) as nat);
    lemma_nearest_multiple(num * c, den, 0);
    // The quotient fills the precision.
    assert(q >= f.step() && q <= 2 * f.step()) by {
        let x0 = (num * c) / den;
        vstd::arithmetic::div_mod::lemma_fundamental_div_mod((num * c) as int, den as int);
        if k == 0 {
            assert(num < den);
            assert(num * c == 0x10_0000_0000_0000 * 0x20_0000_0000_0000);
            assert(x0 >= 0x10_0000_0000_0000) by (nonlinear_arith)
                requires
                    0x10_0000_0000_0000 * 0x20_0000_0000_0000 == den * x0 + (num * c) % den,
                    0 <= (num * c) % den < den,
                    0 < den < 0x20_0000_0000_0000,
            ;
            assert(x0 < 0x20_0000_0000_0000) by (nonlinear_arith)
                requires
                    0x10_0000_0000_0000 * 0x20_0000_0000_0000 == den * x0 + (num * c) % den,
                    0 <= (num * c) % den < den,
                    0x10_0000_0000_0000 < den,
            ;
        } else {
            assert(den == num);
            assert(num * c == 0x10_0000_0000_0000 * 0x10_0000_0000_0000);
            assert(x0 == 0x10_0000_0000_0000) by (nonlinear_arith)
                requires
                    0x10_0000_0000_0000 * 0x10_0000_0000_0000 == den * x0 + (num * c) % den,
                    0 <= (num * c) % den < den,
                    den == 0x10_0000_0000_0000,
            ;
        }
    }
    let bits = (e + d) * f.step() + q;
    assert(bits < f.infinity());
    assert(rounded_ratio(f, num, den, e) == bits);
    assert(quotient(f, one.bits, x.bits) == bits);
    lemma_packed(f, (e + d) as nat, q);
    assert(worth(r) == q * w);
    // Measured in the weight of the last place.
    let t = pow2(s);
    lemma_pow2_pos(s);
    lemma_pow2_pos((e + d) as nat);
    let y = w * t;
    assert(worth(r) * worth(x) == (q * den) * y) by (nonlinear_arith)
        requires
            worth(r) == q * w,
            worth(x) == den * t,
            y == w * t,
    ;
    assert(unit() * unit() == (num * c) * y) by {
        lemma_pow2_adds(1074, 1074);
        lemma_pow2_adds((e + d) as nat, s);
        lemma_pow2_adds(52, (-d) as nat);
        lemma_pow2_adds((52 - d) as nat, (e + d + s) as nat);
    }
    let err = off((q * den) as int, (num * c) as int);
    assert(y > 0) by (nonlinear_arith)
        requires
            y == w * t,
            w > 0,
            t > 0,
    ;
    assert(off((q * den * y) as int, (num * c * y) as int) == err * y) by (nonlinear_arith)
        requires
            err == off((q * den) as int, (num * c) as int),
            y > 0,
    ;
    assert(0x10_0000_0000_0000 * err <= num * c);
    assert(0x10_0000_0000_0000 * (err * y) <= (num * c) * y) by (nonlinear_arith)
        requires
            0x10_0000_0000_0000 * err <= num * c,
            y > 0,
    ;
}

/// The error of a number brought to single precision.
pub proof fn lemma_narrowing_error(x: F64)
    requires
        plain(x),
        worth(x) < pow2(1100),
    ensures
        x.narrowed().bits < 0x7f80_0000,
        ({
            let err = off(
                (absolute(single(), x.narrowed().bits as nat) * pow2(925)) as int,
                worth(x) as int,
            );
            ||| 0x100_0000 * err <= worth(x)
            ||| 2 * err <= pow2(925)
        }),
{
    let (f, g) = (double(), single());
    reveal(F64::narrowed);
    lemma_double();
    lemma_single();
    lemma_plain(x);
    lemma_pow2_values();
    let n = worth(x);
    let (a, s) = (significand(f, x.bits as nat), scale(f, x.bits as nat));
    lemma_rounded_scale(g, a, s, -925);
    lemma_powers(1100, 1201);
    lemma_bit_length_below(n, 1201);
    lemma_rounded_finite(g, n, -925);
    lemma_rounding_error(g, n, -925);
}

/// A sum is no less than either part.
pub proof fn lemma_sum_not_less(a: F64, b: F64)
    requires
        plain(a),
        plain(b),
        plain(a.sum(b)),
    ensures
        worth(a.sum(b)) >= worth(a),
        worth(a.sum(b)) >= worth(b),
{
    let f = double();
    let (m, n) = (worth(a), worth(b));
    reveal(F64::sum);
    lemma_double();
    lemma_plain(a);
    lemma_plain(b);
    lemma_zero(f);
    let r = rounded(f, m + n, 0);
    assert(m + n == 0 ==> r == 0);
    assert(sum(f, a.bits, b.bits) == r);
    lemma_rounded_bound(f, m + n, 0);
    lemma_rounded_own(f, a.bits as nat);
    lemma_rounded_own(f, b.bits as nat);
    lemma_rounding_keeps_order(f, m, m + n, 0);
    lemma_rounding_keeps_order(f, n, m + n, 0);
    if a.bits < r {
        lemma_absolute_increases(f, a.bits as nat, r);
    }
    if b.bits < r {
        lemma_absolute_increases(f, b.bits as nat, r);
    }
}

/// The exponent of a number bounds what it stands for.
pub proof fn lemma_worth_range(x: F64)
    requires
        plain(x),
        x.bits >= 0x10_0000_0000_0000,
    ensures
        ({
            let t = (x.bits / 0x10_0000_0000_0000) as nat;
            pow2(t + 51) <= worth(x) < pow2(t + 52)
        }),
{
    let f = double();
    let t = (x.bits / 0x10_0000_0000_0000) as nat;
    lemma_double();
    lemma_plain(x);
    lemma_pow2_values();
    lemma_fields(f, x.bits as nat);
    let a = significand(f, x.bits as nat);
    let w = pow2((t - 1) as nat);
    assert(scale(f, x.bits as nat) == t - 1);
    assert(a >= 0x10_0000_0000_0000);
    lemma_pow2_pos((t - 1) as nat);
    lemma_pow2_adds(52, (t - 1) as nat);
    lemma_pow2_adds(53, (t - 1) as nat);
    assert(pow2(52) * w <= a * w < pow2(53) * w) by (nonlinear_arith)
        requires
            pow2(52) <= a < pow2(53),
            w > 0,
    ;
}

/// The smallest numbers stand for their bits.
pub proof fn lemma_small_worth(x: F64)
    requires
        x.bits < 0x10_0000_0000_0000,
    ensures
        plain(x),
        worth(x) == x.bits,
{
    lemma_double();
    vstd::arithmetic::power2::lemma2_to64();
    assert(x.bits as nat * 1 == x.bits);
}

/// More bits stand for no less.
pub proof fn lemma_worth_order(a: F64, b: F64)
    requires
        plain(a),
        plain(b),
        a.bits <= b.bits,
    ensures
        worth(a) <= worth(b),
{
    lemma_plain(b);
    if a.bits < b.bits {
        lemma_absolute_increases(double(), a.bits as nat, b.bits as nat);
    }
}

/// A share of a number is no more than the number.
pub proof fn lemma_share_at_most(a: F64, b: F64)
    requires
        plain(a),
        plain(b),
        worth(a) <= unit(),
    ensures
        plain(a.product(b)),
        a.product(b).bits <= b.bits,
{
    reveal(F64::product);
    lemma_double();
    lemma_share_bits(double(), a.bits, b.bits);
}

/// A sum lies from its first part to whatever the exact sum does not exceed.
pub proof fn lemma_sum_at_most(a: F64, b: F64, hi: F64)
    requires
        plain(a),
        plain(b),
        plain(hi),
        worth(a) + worth(b) <= worth(hi),
    ensures
        plain(a.sum(b)),
        a.bits <= a.sum(b).bits <= hi.bits,
{
    reveal(F64::sum);
    lemma_double();
    lemma_sum_bits(double(), a.bits, b.bits, hi.bits);
}

/// What a single comes to in double precision.
pub proof fn lemma_widened(x: F32)
    requires
        x.bits <= 0x3f80_0000,
    ensures
        plain(F64::widened(x)),
        worth(F64::widened(x)) == absolute(single(), x.bits as nat) * pow2(925),
        worth(F64::widened(x)) <= unit(),
{
    let (f, g) = (single(), double());
    reveal(F64::widened);
    lemma_double();
    lemma_single();
    lemma_pow2_values();
    let m = x.bits as nat;
    lemma_fields(f, m);
    let (a, s) = (significand(f, m), scale(f, m));
    assert(s <= 126);
    lemma_rounded_exact(g, a, s + 925);
    lemma_pow2_adds(s, 925);
    assert(a * (pow2(s) * pow2(925)) == (a * pow2(s)) * pow2(925)) by (nonlinear_arith);
    let one: nat = 0x3f80_0000;
    assert(significand(f, one) == 0x80_0000 && scale(f, one) == 126);
    lemma_pow2_adds(23, 126);
    if m < one {
        lemma_absolute_increases(f, m, one);
    }
    lemma_pow2_adds(149, 925);
    assert(absolute(f, m) * pow2(925) <= pow2(149) * pow2(925)) by (nonlinear_arith)
        requires
            absolute(f, m) <= pow2(149),
    ;
}

/// What an exponent field and a significand come to.
pub proof fn lemma_worth_value(x: F64, s: nat, a: nat)
    requires
        x.bits == s * 0x10_0000_0000_0000 + a,
        0x10_0000_0000_0000 <= a < 0x20_0000_0000_0000,
        s < 2046,
    ensures
        plain(x),
        worth(x) == a * pow2(s),
{
    lemma_double();
    lemma_packed(double(), s, a);
}

/// Narrowing, by what the number stands for.
proof fn lemma_narrowed(x: F64)
    requires
        plain(x),
    ensures
        x.narrowed().bits == rounded(single(), worth(x), -925),
        x.narrowed().bits <= 0x7f80_0000,
{
    let (f, g) = (double(), single());
    reveal(F64::narrowed);
    lemma_double();
    lemma_single();
    lemma_plain(x);
    let m = x.bits as nat;
    lemma_rounded_scale(g, significand(f, m), scale(f, m), -925);
    lemma_rounded_bound(g, worth(x), -925);
}

/// Narrowing keeps the order.
pub proof fn lemma_narrowing_keeps_order(a: F64, b: F64)
    requires
        plain(a),
        plain(b),
        a.bits <= b.bits,
    ensures
        a.narrowed().bits <= b.narrowed().bits,
{
    lemma_single();
    lemma_narrowed(a);
    lemma_narrowed(b);
    lemma_worth_order(a, b);
    lemma_rounding_keeps_order(single(), worth(a), worth(b), -925);
}

/// A double that is a single narrows to it.
pub proof fn lemma_narrowing_exact(x: F64, y: F32)
    requires
        plain(x),
        y.bits < 0x7f80_0000,
        worth(x) == absolute(single(), y.bits as nat) * pow2(925),
    ensures
        x.narrowed() == y,
{
    lemma_single();
    lemma_narrowed(x);
    lemma_rounded_scale(single(), absolute(single(), y.bits as nat), 925, -925);
    lemma_rounded_own(single(), y.bits as nat);
}

/// Numbers that are no further apart than a third differ by no more than it.
pub proof fn lemma_difference_at_most(a: F64, b: F64, limit: F64)
    requires
        plain(a),
        plain(b),
        plain(limit),
        off(worth(a) as int, worth(b) as int) <= worth(limit),
    ensures
        !limit.below(a.difference(b).absolute()),
{
    let f = double();
    lemma_double();
    lemma_plain(a);
    lemma_plain(b);
    lemma_plain(limit);
    reveal(F64::negation);
    reveal(F64::sum);
    reveal(F64::below);
    reveal(F64::absolute);
    let back = b.negation();
    assert(magnitude(f, back.bits) == b.bits && negative(f, back.bits));
    assert(value(f, back.bits) == -(worth(b) as int));
    assert(value(f, a.bits) == worth(a));
    let gap = off(worth(a) as int, worth(b) as int) as nat;
    lemma_zero(f);
    lemma_rounding_keeps_order(f, gap, worth(limit), 0);
    lemma_rounded_own(f, limit.bits as nat);
    let r = rounded(f, gap, 0);
    assert(gap == 0 ==> r == 0);
    assert(magnitude(f, a.difference(b).bits) == r);
}

} // verus!
