//! What holds of the arithmetic.
use crate::float::{
    absolute, below, bit_length, excess, finite, kept, lemma_bit_length, lemma_fields,
    lemma_rounded_value, magnitude, nearest, negative, rounded, scale, significand, sum, value,
    Format,
};
use vstd::arithmetic::power2::{
    lemma_pow2_adds, lemma_pow2_pos, lemma_pow2_strictly_increases, lemma_pow2_unfold, pow2,
};
use vstd::prelude::*;

verus! {

/// Larger magnitude bits stand for larger magnitudes.
pub proof fn lemma_absolute_increases(f: Format, m: nat, n: nat)
    requires
        f.wf(),
        m < n,
        n < f.infinity(),
    ensures
        absolute(f, m) < absolute(f, n),
{
    lemma_fields(f, m);
    lemma_fields(f, n);
    let (a, b) = (significand(f, m), significand(f, n));
    let (s, t) = (scale(f, m), scale(f, n));
    let w = f.step();
    lemma_pow2_unfold(f.precision as nat);
    lemma_pow2_pos(s);
    if s == t {
        assert(a * pow2(s) < b * pow2(s)) by (nonlinear_arith)
            requires
                a < b,
                pow2(s) > 0,
        ;
    } else if s < t {
        lemma_pow2_unfold(s + 1);
        if s + 1 < t {
            lemma_pow2_strictly_increases(s + 1, t);
        }
        assert(a * pow2(s) < b * pow2(t)) by (nonlinear_arith)
            requires
                a < 2 * w,
                b >= w,
                pow2(t) >= 2 * pow2(s),
                pow2(s) > 0,
        ;
    } else {
        assert(false) by (nonlinear_arith)
            requires
                m == s * w + a,
                n == t * w + b,
                m < n,
                s >= t + 1,
                a >= w,
                b < 2 * w,
                w > 0,
        ;
    }
}

/// The order of finite numbers is the order of the values they stand for.
pub proof fn law_order_is_by_value(f: Format, a: u64, b: u64)
    requires
        f.wf(),
        finite(f, a),
        finite(f, b),
    ensures
        below(f, a, b) <==> value(f, a) < value(f, b),
{
    let (m, n) = (magnitude(f, a), magnitude(f, b));
    if m < n {
        lemma_absolute_increases(f, m, n);
    } else if n < m {
        lemma_absolute_increases(f, n, m);
    }
    lemma_zero(f);
    if m > 0 {
        lemma_absolute_increases(f, 0, m);
    }
    if n > 0 {
        lemma_absolute_increases(f, 0, n);
    }
}

pub proof fn lemma_zero(f: Format)
    requires
        f.wf(),
    ensures
        absolute(f, 0) == 0,
        f.infinity() > 0,
{
    lemma_pow2_pos((f.precision - 1) as nat);
    assert(f.top * f.step() > 0) by (nonlinear_arith)
        requires
            f.top > 0,
            f.step() > 0,
    ;
    lemma_fields(f, 0);
    assert(significand(f, 0) == 0);
    assert(0 * pow2(scale(f, 0)) == 0) by (nonlinear_arith);
}

/// The distance between two numbers.
pub open spec fn off(a: int, b: int) -> int {
    if a < b {
        b - a
    } else {
        a - b
    }
}

/// No multiple of `w` is nearer to `n` than the nearest quotient's.
pub proof fn lemma_nearest_multiple(n: nat, w: nat, k: int)
    requires
        w > 0,
    ensures
        off((nearest(n, w) * w) as int, n as int) <= off(k * w, n as int),
        2 * off((nearest(n, w) * w) as int, n as int) <= w,
{
    let x = n / w;
    let r = n % w;
    let q = nearest(n, w);
    vstd::arithmetic::div_mod::lemma_fundamental_div_mod(n as int, w as int);
    assert(x * w == w * x && (x + 1) * w == w * x + w) by (nonlinear_arith);
    if k <= x {
        assert(k * w <= x * w) by (nonlinear_arith)
            requires
                k <= x,
                w > 0,
        ;
    } else {
        assert(k * w >= (x + 1) * w) by (nonlinear_arith)
            requires
                k >= x + 1,
                w > 0,
        ;
    }
}

/// Rounding takes the nearest number of the format: none is closer to the
/// exact result.
pub proof fn law_rounding_is_nearest(f: Format, n: nat, m: nat)
    requires
        f.wf(),
        rounded(f, n, 0) < f.infinity(),
        m < f.infinity(),
    ensures
        off(absolute(f, rounded(f, n, 0)) as int, n as int) <= off(absolute(f, m) as int, n as int),
{
    if n == 0 {
        lemma_zero(f);
    } else {
        lemma_rounded_value(f, n, 0);
        let d = excess(f, n, 0) as nat;
        let q = kept(f, n, 0);
        let w = pow2(d);
        let v = absolute(f, m);
        let l = bit_length(n);
        let p = f.precision as nat;
        lemma_pow2_pos(d);
        lemma_bit_length(n);
        assert(absolute(f, rounded(f, n, 0)) == q * w);
        if d == 0 {
            vstd::arithmetic::power2::lemma2_to64();
            lemma_nearest_multiple(n, 1, n as int);
            assert(q * 1 == q && n * 1 == n);
        } else {
            assert(l == p + d);
            lemma_pow2_adds((p - 1) as nat, d);
            let low = pow2((p - 1) as nat);
            assert(low * w <= n);
            if v >= low * w {
                // Such a number is a multiple of the last place.
                lemma_fields(f, m);
                let (a, s) = (significand(f, m), scale(f, m));
                lemma_pow2_unfold(p);
                if s < d {
                    lemma_pow2_pos(s);
                    lemma_pow2_unfold(d);
                    if s < d - 1 {
                        lemma_pow2_strictly_increases(s, (d - 1) as nat);
                    }
                    assert(a * pow2(s) < low * w) by (nonlinear_arith)
                        requires
                            a < 2 * low,
                            2 * pow2(s) <= w,
                            pow2(s) > 0,
                            v == a * pow2(s),
                    {
                        assert(a * pow2(s) < 2 * low * pow2(s));
                        assert(2 * low * pow2(s) <= low * w);
                    }
                    assert(false);
                }
                lemma_pow2_adds((s - d) as nat, d);
                let k = a * pow2((s - d) as nat);
                assert(v == k * w) by (nonlinear_arith)
                    requires
                        v == a * pow2(s),
                        pow2(s) == pow2((s - d) as nat) * w,
                        k == a * pow2((s - d) as nat),
                ;
                lemma_nearest_multiple(n, w, k as int);
            } else {
                lemma_nearest_multiple(n, w, low as int);
            }
        }
    }
}

/// A sum is the nearest number to the exact sum of two numbers, wherever it
/// stays finite.
pub proof fn law_sum_is_nearest(f: Format, a: u64, b: u64, m: nat)
    requires
        f.wf(),
        finite(f, a),
        finite(f, b),
        value(f, a) + value(f, b) > 0,
        rounded(f, (value(f, a) + value(f, b)) as nat, 0) < f.infinity(),
        m < f.infinity(),
    ensures
        sum(f, a, b) < f.infinity(),
        off(absolute(f, sum(f, a, b)) as int, value(f, a) + value(f, b)) <= off(
            absolute(f, m) as int,
            value(f, a) + value(f, b),
        ),
{
    law_rounding_is_nearest(f, (value(f, a) + value(f, b)) as nat, m);
}

/// Adding a number that is not negative to another such never lowers it:
/// whatever exceeds the sum exceeds each part.
pub proof fn law_sum_does_not_lower(f: Format, a: u64, b: u64, c: u64)
    requires
        f.wf(),
        f.sign_weight() <= 0x8000_0000_0000_0000,
        !negative(f, a),
        !negative(f, b),
    ensures
        below(f, sum(f, a, b) as u64, c) ==> below(f, a, c),
{
    lemma_zero(f);
    assert((f.top + 1) * f.step() == f.top * f.step() + f.step()) by (nonlinear_arith);
    lemma_pow2_pos((f.precision - 1) as nat);
    if finite(f, a) && finite(f, b) {
        let n = value(f, a) + value(f, b);
        let r = sum(f, a, b);
        if n > 0 {
            if r < f.infinity() {
                law_sum_is_nearest(f, a, b, magnitude(f, a));
                law_order_is_by_value(f, r as u64, a);
            }
        } else {
            law_order_is_by_value(f, 0, a);
        }
    }
}

/// Of two that are equally near, the even one is taken.
pub proof fn law_ties_go_to_even(n: nat, w: nat)
    requires
        w > 0,
        2 * (n % w) == w,
    ensures
        nearest(n, w) % 2 == 0,
        nearest(n, w) == n / w || nearest(n, w) == n / w + 1,
{
}

} // verus!
