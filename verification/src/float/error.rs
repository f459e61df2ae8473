//! How rounding respects order, and how far it errs.
use crate::float::laws::{lemma_absolute_increases, lemma_nearest_multiple, lemma_zero, off};
use crate::float::{
    absolute, bit_length, excess, kept, lemma_bit_length, lemma_product_value, lemma_rounded_bound,
    lemma_rounded_own, lemma_rounded_scale, lemma_rounded_value, nearest, product, rounded, sum,
    Format,
};
use vstd::arithmetic::power2::{
    lemma_pow2_adds, lemma_pow2_pos, lemma_pow2_strictly_increases, lemma_pow2_unfold, pow2,
};
use vstd::prelude::*;

verus! {

/// What is kept of a number fits the precision, and fills it where digits were
/// taken off.
proof fn lemma_kept_range(f: Format, n: nat, e: int)
    requires
        f.wf(),
        n > 0,
    ensures
        kept(f, n, e) <= 2 * f.step(),
        excess(f, n, e) > -e ==> kept(f, n, e) >= f.step(),
        pow2(f.precision as nat) == 2 * f.step(),
{
    let d = excess(f, n, e);
    let l = bit_length(n);
    let p = f.precision as nat;
    lemma_bit_length(n);
    lemma_pow2_unfold(p);
    if d >= 0 {
        let w = pow2(d as nat);
        lemma_pow2_pos(d as nat);
        lemma_nearest_multiple(n, w, 0);
        let q = n / w;
        vstd::arithmetic::div_mod::lemma_fundamental_div_mod(n as int, w as int);
        // The digits above the last `d` are at most `p` in number.
        lemma_pow2_adds(p, d as nat);
        if l < p + d {
            lemma_pow2_strictly_increases(l, (p + d) as nat);
        }
        assert(q < 2 * f.step()) by (nonlinear_arith)
            requires
                n < 2 * f.step() * w,
                n == w * q + n % w,
                0 <= n % w,
                w > 0,
        ;
        if d > -e {
            lemma_pow2_adds((p - 1) as nat, d as nat);
            assert(q >= f.step()) by (nonlinear_arith)
                requires
                    n >= f.step() * w,
                    n == w * q + n % w,
                    n % w < w,
                    w > 0,
            ;
        }
    } else {
        let w = pow2((-d) as nat);
        lemma_pow2_pos((-d) as nat);
        lemma_pow2_adds(l, (-d) as nat);
        if l - d < p {
            lemma_pow2_strictly_increases((l - d) as nat, p);
        }
        assert(n * w < 2 * f.step()) by (nonlinear_arith)
            requires
                n < pow2(l),
                pow2(l) * w <= 2 * f.step(),
                w > 0,
        ;
        if d > -e {
            lemma_pow2_adds((l - 1) as nat, (-d) as nat);
            assert(n * w >= f.step()) by (nonlinear_arith)
                requires
                    n >= pow2((l - 1) as nat),
                    pow2((l - 1) as nat) * w >= f.step(),
                    w > 0,
            ;
        }
    }
}

/// A number well below the greatest rounds to a finite one.
pub proof fn lemma_rounded_finite(f: Format, n: nat, e: int)
    requires
        f.wf(),
        bit_length(n) + e <= f.top + f.precision - 3,
    ensures
        rounded(f, n, e) < f.infinity(),
{
    lemma_zero(f);
    if n > 0 {
        lemma_kept_range(f, n, e);
        let d = excess(f, n, e);
        lemma_pow2_pos((f.precision - 1) as nat);
        assert((e + d) * f.step() + 2 * f.step() < f.top * f.step()) by (nonlinear_arith)
            requires
                e + d + 2 < f.top,
                f.step() > 0,
        ;
    }
}

/// Rounding errs by at most half of the last place: relative to the number,
/// by the precision, or, among the smallest numbers, by half the least
/// positive one.
pub proof fn lemma_rounding_error(f: Format, n: nat, e: int)
    requires
        f.wf(),
        e <= 0,
        rounded(f, n, e) < f.infinity(),
    ensures
        ({
            let w = pow2((-e) as nat);
            let v = absolute(f, rounded(f, n, e));
            ||| pow2(f.precision as nat) * off((v * w) as int, n as int) <= n
            ||| 2 * off((v * w) as int, n as int) <= w
        }),
{
    let w = pow2((-e) as nat);
    let v = absolute(f, rounded(f, n, e));
    let p = f.precision as nat;
    if n == 0 {
        lemma_zero(f);
        assert(v * w == 0) by (nonlinear_arith)
            requires
                v == 0,
        ;
        lemma_pow2_pos((-e) as nat);
    } else {
        lemma_rounded_value(f, n, e);
        let d = excess(f, n, e);
        let q = kept(f, n, e);
        let t = pow2(d as nat);
        lemma_pow2_adds((e + d) as nat, (-e) as nat);
        assert(v * w == q * t) by (nonlinear_arith)
            requires
                v == q * pow2((e + d) as nat),
                t == pow2((e + d) as nat) * w,
        ;
        lemma_pow2_pos(d as nat);
        lemma_nearest_multiple(n, t, 0);
        if d > -e {
            lemma_bit_length(n);
            lemma_pow2_adds((p - 1) as nat, d as nat);
            lemma_pow2_unfold(p);
            lemma_pow2_pos((p - 1) as nat);
            let err = off((v * w) as int, n as int);
            assert(pow2(p) * err <= n) by (nonlinear_arith)
                requires
                    2 * err <= t,
                    pow2(p) == 2 * pow2((p - 1) as nat),
                    pow2((p - 1) as nat) * t <= n,
                    err >= 0,
                    pow2((p - 1) as nat) > 0,
            {
                assert(pow2((p - 1) as nat) * (2 * err) <= pow2((p - 1) as nat) * t);
            }
        }
    }
}

/// Rounding keeps the order.
pub proof fn lemma_rounding_keeps_order(f: Format, n: nat, m: nat, e: int)
    requires
        f.wf(),
        n <= m,
    ensures
        rounded(f, n, e) <= rounded(f, m, e),
{
    if n > 0 {
        lemma_kept_range(f, n, e);
        lemma_kept_range(f, m, e);
        lemma_bit_length_order(n, m);
        let (c, d) = (excess(f, n, e), excess(f, m, e));
        let (p, q) = (kept(f, n, e), kept(f, m, e));
        lemma_pow2_pos((f.precision - 1) as nat);
        assert(p >= 0);
        assert(c <= d);
        if c == d {
            if c >= 0 {
                lemma_pow2_pos(c as nat);
                lemma_nearest_keeps_order(n, m, pow2(c as nat));
            } else {
                assert(p <= q) by (nonlinear_arith)
                    requires
                        p == n * pow2((-c) as nat),
                        q == m * pow2((-c) as nat),
                        n <= m,
                ;
            }
        } else {
            assert((e + c) * f.step() + p <= (e + d) * f.step() + q) by (nonlinear_arith)
                requires
                    c + 1 <= d,
                    p <= 2 * f.step(),
                    q >= f.step(),
            ;
        }
        assert((e + c) * f.step() >= 0) by (nonlinear_arith)
            requires
                e + c >= 0,
        ;
    } else if m > 0 {
        lemma_kept_range(f, m, e);
        let d = excess(f, m, e);
        assert((e + d) * f.step() >= 0) by (nonlinear_arith)
            requires
                e + d >= 0,
        ;
        lemma_zero(f);
    }
}

pub proof fn lemma_bit_length_order(n: nat, m: nat)
    requires
        n <= m,
    ensures
        bit_length(n) <= bit_length(m),
    decreases m,
{
    if n > 0 {
        lemma_bit_length_order(n / 2, m / 2);
    }
}

pub proof fn lemma_nearest_keeps_order(n: nat, m: nat, w: nat)
    requires
        n <= m,
        w > 0,
    ensures
        nearest(n, w) <= nearest(m, w),
{
    let (x, y) = (n / w, m / w);
    vstd::arithmetic::div_mod::lemma_fundamental_div_mod(n as int, w as int);
    vstd::arithmetic::div_mod::lemma_fundamental_div_mod(m as int, w as int);
    vstd::arithmetic::div_mod::lemma_div_is_ordered(n as int, m as int, w as int);
    if x == y {
        assert(n % w <= m % w);
    }
}

/// A share of a number that is not negative is no more than the number.
pub proof fn lemma_share_bits(f: Format, a: u64, b: u64)
    requires
        f.wf(),
        a < f.infinity(),
        b < f.infinity(),
        absolute(f, a as nat) <= pow2(f.depth()),
    ensures
        product(f, a, b) <= b,
{
    let (m, n) = (absolute(f, a as nat), absolute(f, b as nat));
    let one = pow2(f.depth());
    lemma_pow2_pos((f.precision - 1) as nat);
    assert((f.top + 1) * f.step() == f.top * f.step() + f.step()) by (nonlinear_arith);
    lemma_product_value(f, a as nat, b as nat);
    assert(0 <= m * n <= n * one) by (nonlinear_arith)
        requires
            0 <= m <= one,
            n >= 0,
    ;
    lemma_rounding_keeps_order(f, (m * n) as nat, (n * one) as nat, -(f.depth() as int));
    lemma_rounded_scale(f, n, f.depth(), -(f.depth() as int));
    lemma_rounded_own(f, b as nat);
}

/// A sum of numbers that are not negative lies from its first part to whatever
/// the exact sum does not exceed.
pub proof fn lemma_sum_bits(f: Format, a: u64, b: u64, hi: u64)
    requires
        f.wf(),
        a < f.infinity(),
        b < f.infinity(),
        hi < f.infinity(),
        absolute(f, a as nat) + absolute(f, b as nat) <= absolute(f, hi as nat),
    ensures
        a <= sum(f, a, b) <= hi,
{
    let (m, n) = (absolute(f, a as nat), absolute(f, b as nat));
    lemma_pow2_pos((f.precision - 1) as nat);
    assert((f.top + 1) * f.step() == f.top * f.step() + f.step()) by (nonlinear_arith);
    lemma_zero(f);
    let r = rounded(f, m + n, 0);
    assert(m + n == 0 ==> r == 0);
    assert(sum(f, a, b) == r);
    lemma_rounding_keeps_order(f, m + n, absolute(f, hi as nat), 0);
    lemma_rounded_own(f, hi as nat);
    lemma_rounded_own(f, a as nat);
    lemma_rounding_keeps_order(f, m, m + n, 0);
}

/// A number and a share of another, where the two together do not exceed a
/// third.
pub proof fn lemma_eased_bits(f: Format, base: u64, u: u64, part: u64, hi: u64)
    requires
        f.wf(),
        base < f.infinity(),
        u < f.infinity(),
        part < f.infinity(),
        hi < f.infinity(),
        absolute(f, u as nat) <= pow2(f.depth()),
        absolute(f, base as nat) + absolute(f, part as nat) <= absolute(f, hi as nat),
    ensures
        product(f, u, part) <= part,
        base <= sum(f, base, product(f, u, part) as u64) <= hi,
{
    lemma_share_bits(f, u, part);
    let share = product(f, u, part);
    if share < part {
        lemma_absolute_increases(f, share, part as nat);
    }
    lemma_sum_bits(f, base, share as u64, hi);
}

/// A sum of numbers that are not negative is no less than either of them.
pub proof fn lemma_sum_grows(f: Format, a: u64, b: u64)
    requires
        f.wf(),
        a <= f.infinity(),
        b <= f.infinity(),
    ensures
        a <= sum(f, a, b) <= f.infinity(),
        b <= sum(f, a, b),
{
    let (m, n) = (absolute(f, a as nat), absolute(f, b as nat));
    lemma_pow2_pos((f.precision - 1) as nat);
    assert((f.top + 1) * f.step() == f.top * f.step() + f.step()) by (nonlinear_arith);
    if a < f.infinity() && b < f.infinity() {
        lemma_zero(f);
        let r = rounded(f, m + n, 0);
        assert(m + n == 0 ==> r == 0);
        assert(sum(f, a, b) == r);
        lemma_rounded_bound(f, m + n, 0);
        lemma_rounded_own(f, a as nat);
        lemma_rounded_own(f, b as nat);
        lemma_rounding_keeps_order(f, m, m + n, 0);
        lemma_rounding_keeps_order(f, n, m + n, 0);
    }
}

} // verus!
