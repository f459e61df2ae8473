//! How single-precision operations keep order, and where they are exact.
use crate::float::error::{lemma_rounding_keeps_order, lemma_sum_grows};
use crate::float::laws::lemma_absolute_increases;
use crate::float::order::{
    lemma_product_exact, lemma_product_order, lemma_sum_exact, lemma_turned_exact, size, stands,
};
use crate::float::{
    absolute, lemma_fields, lemma_packed, lemma_pow2_values, lemma_rounded_bound,
    lemma_rounded_own, lemma_rounded_scale, rounded, scale, significand,
};
use crate::single::{lemma_single, single, F32};
use vstd::arithmetic::power2::{lemma_pow2_adds, lemma_pow2_pos, lemma_pow2_unfold, pow2};
use vstd::prelude::*;

verus! {

/// The pattern of 1.
pub const ONE: u32 = 0x3f80_0000;

/// Is the number neither negative, nor infinite, nor undefined?
pub open spec fn is_amount(x: F32) -> bool {
    x.bits < 0x7f80_0000
}

/// Does the number stand for `n` over two to the `k`?
pub open spec fn is_binary(x: F32, n: int, k: nat) -> bool {
    k <= 149 && stands(single(), x.bits as u64, n, (149 - k) as nat)
}

/// Amounts are ordered as their patterns.
pub proof fn lemma_amounts(a: F32, b: F32)
    requires
        is_amount(a),
        is_amount(b),
    ensures
        a.below(b) <==> a.bits < b.bits,
        a.at_most(b) <==> a.bits <= b.bits,
        !a.is_undefined(),
        a.bits <= b.bits ==> absolute(single(), a.bits as nat) <= absolute(
            single(),
            b.bits as nat,
        ),
{
    reveal(F32::below);
    reveal(F32::at_most);
    reveal(F32::is_undefined);
    lemma_single();
    if a.bits < b.bits {
        lemma_absolute_increases(single(), a.bits as nat, b.bits as nat);
    }
}

/// The greater the factors, the greater the product.
pub proof fn lemma_products(a: F32, b: F32, c: F32, d: F32)
    requires
        is_amount(a),
        is_amount(b),
        is_amount(c),
        is_amount(d),
        a.bits <= c.bits,
        b.bits <= d.bits,
    ensures
        a.product(b).bits <= c.product(d).bits <= 0x7f80_0000,
{
    let f = single();
    lemma_single();
    lemma_amounts(a, c);
    lemma_amounts(b, d);
    let (w, x, y, z) = (
        absolute(f, a.bits as nat),
        absolute(f, b.bits as nat),
        absolute(f, c.bits as nat),
        absolute(f, d.bits as nat),
    );
    assert(w * x <= y * z) by (nonlinear_arith)
        requires
            w <= y,
            x <= z,
    ;
    lemma_product_order(f, a.bits as u64, b.bits as u64, c.bits as u64, d.bits as u64);
    reveal(F32::product);
    let (m, n) = (c.bits as nat, d.bits as nat);
    lemma_rounded_bound(
        f,
        significand(f, m) * significand(f, n),
        scale(f, m) + scale(f, n) - f.depth(),
    );
}

/// The greater the terms, the greater the sum.
pub proof fn lemma_sums(a: F32, b: F32, c: F32, d: F32)
    requires
        is_amount(a),
        is_amount(b),
        is_amount(c),
        is_amount(d),
        a.bits <= c.bits,
        b.bits <= d.bits,
    ensures
        a.sum(b).bits <= c.sum(d).bits <= 0x7f80_0000,
        c.bits <= c.sum(d).bits,
        d.bits <= c.sum(d).bits,
{
    let f = single();
    lemma_single();
    lemma_amounts(a, c);
    lemma_amounts(b, d);
    reveal(F32::sum);
    lemma_sum_grows(f, c.bits as u64, d.bits as u64);
    lemma_sum_grows(f, a.bits as u64, b.bits as u64);
    lemma_rounding_keeps_order(
        f,
        absolute(f, a.bits as nat) + absolute(f, b.bits as nat),
        absolute(f, c.bits as nat) + absolute(f, d.bits as nat),
        0,
    );
}

/// Once a number is an amount, taking it once changes nothing.
pub proof fn lemma_once(x: F32)
    requires
        is_amount(x),
    ensures
        x.product(F32 { bits: ONE }) == x,
        (F32 { bits: ONE }).product(x) == x,
{
    let f = single();
    let m = x.bits as nat;
    lemma_single();
    lemma_pow2_values();
    reveal(F32::product);
    let (a, e) = (significand(f, m), scale(f, m));
    assert(significand(f, ONE as nat) == 0x80_0000 && scale(f, ONE as nat) == 126);
    assert(pow2(23) == 0x80_0000);
    lemma_rounded_scale(f, a, 23, e - 23);
    lemma_rounded_own(f, m);
    assert(0x80_0000 * a == a * 0x80_0000);
}

/// Doubling an amount raises its pattern by at most one step of the exponent.
proof fn lemma_twice(x: F32)
    requires
        x.bits < 0x7f00_0000,
    ensures
        x.product(F32 { bits: 0x4000_0000 }).bits <= x.bits + 0x80_0000,
        x.product(F32 { bits: 0x4000_0000 }).bits == rounded(
            single(),
            2 * absolute(single(), x.bits as nat),
            0,
        ),
{
    let f = single();
    let m = x.bits as nat;
    lemma_single();
    lemma_pow2_values();
    reveal(F32::product);
    lemma_fields(f, m);
    let (a, e) = (significand(f, m), scale(f, m));
    assert(significand(f, 0x4000_0000) == 0x80_0000 && scale(f, 0x4000_0000) == 127);
    assert(pow2(23) == 0x80_0000);
    lemma_rounded_scale(f, a, 23, e - 22);
    lemma_rounded_scale(f, a, e + 1, 0);
    lemma_pow2_unfold(e + 1);
    assert(a * pow2(e + 1) == 2 * (a * pow2(e))) by (nonlinear_arith)
        requires
            pow2(e + 1) == 2 * pow2(e),
    ;
    // Twice the number, as a pattern.
    let n = m + 0x80_0000;
    lemma_pow2_unfold(24);
    if a >= 0x80_0000 {
        assert(n == (e + 1) * f.step() + a);
        lemma_packed(f, e + 1, a);
        assert((e + 1) * f.step() == e * f.step() + f.step()) by (nonlinear_arith);
        assert(absolute(f, n) == a * pow2(e + 1));
        lemma_rounded_own(f, n);
        assert(rounded(f, a * pow2(e + 1), 0) == n);
    } else {
        assert(e == 0 && m == a);
        vstd::arithmetic::power2::lemma2_to64();
        // Twice a small number is small.
        lemma_packed(f, 0, 2 * a);
        lemma_rounded_own(f, 2 * a);
        assert(a * pow2(e + 1) == 2 * a);
        assert(0 * f.step() + 2 * a == 2 * a);
        assert((2 * a) * pow2(0) == 2 * a);
        assert(rounded(f, 2 * a, 0) == 2 * a);
    }
}

/// A factor below 2 raises the pattern of an amount by at most one step of
/// the exponent.
pub proof fn lemma_less_than_twice(x: F32, k: F32)
    requires
        x.bits < 0x7f00_0000,
        k.bits <= 0x4000_0000,
    ensures
        x.product(k).bits <= x.bits + 0x80_0000,
        is_amount(x.product(k)),
{
    lemma_products(x, k, x, F32 { bits: 0x4000_0000 });
    lemma_twice(x);
}

/// The sum of two amounts is at most one step of the exponent above the
/// greater.
pub proof fn lemma_sum_within_step(a: F32, b: F32, x: F32)
    requires
        a.bits <= x.bits,
        b.bits <= x.bits,
        x.bits < 0x7f00_0000,
    ensures
        a.sum(b).bits <= x.bits + 0x80_0000,
        is_amount(a.sum(b)),
{
    let f = single();
    lemma_single();
    lemma_sums(a, b, x, x);
    lemma_twice(x);
    lemma_amounts(a, x);
    lemma_amounts(b, x);
    reveal(F32::sum);
    lemma_rounding_keeps_order(
        f,
        absolute(f, a.bits as nat) + absolute(f, b.bits as nat),
        2 * absolute(f, x.bits as nat),
        0,
    );
    lemma_sum_rounds(a, b);
}

/// The sum of two amounts is their exact sum, rounded.
proof fn lemma_sum_rounds(a: F32, b: F32)
    requires
        is_amount(a),
        is_amount(b),
    ensures
        a.sum(b).bits == rounded(
            single(),
            absolute(single(), a.bits as nat) + absolute(single(), b.bits as nat),
            0,
        ),
{
    lemma_single();
    reveal(F32::sum);
    lemma_rounded_bound(
        single(),
        absolute(single(), a.bits as nat) + absolute(single(), b.bits as nat),
        0,
    );
}

/// A smaller amount taken from a greater leaves no more than the greater.
pub proof fn lemma_less(a: F32, b: F32)
    requires
        is_amount(a),
        b.bits <= a.bits,
    ensures
        a.difference(b).bits <= a.bits,
{
    let f = single();
    lemma_single();
    lemma_amounts(b, a);
    reveal(F32::sum);
    reveal(F32::negation);
    let (n, m) = (absolute(f, a.bits as nat), absolute(f, b.bits as nat));
    lemma_rounding_keeps_order(f, (n - m) as nat, n, 0);
    lemma_rounded_own(f, a.bits as nat);
    assert(crate::float::value(f, b.negation().bits as u64) == -(m as int));
}

/// A sum that fits is exact.
pub proof fn lemma_binary_sum(a: F32, b: F32, n: int, m: int, k: nat)
    requires
        is_binary(a, n, k),
        is_binary(b, m, k),
        size(n + m) < 0x100_0000,
    ensures
        is_binary(a.sum(b), n + m, k),
{
    reveal(F32::sum);
    lemma_single();
    lemma_pow2_values();
    lemma_pow2_unfold(24);
    lemma_sum_exact(single(), a.bits as u64, b.bits as u64, n, m, (149 - k) as nat);
}

/// A product that fits is exact.
pub proof fn lemma_binary_product(a: F32, b: F32, n: int, m: int, k: nat, l: nat)
    requires
        is_binary(a, n, k),
        is_binary(b, m, l),
        k + l <= 149,
        size(n * m) < 0x100_0000,
    ensures
        is_binary(a.product(b), n * m, k + l),
{
    reveal(F32::product);
    lemma_single();
    lemma_pow2_values();
    lemma_pow2_unfold(24);
    lemma_product_exact(
        single(),
        a.bits as u64,
        b.bits as u64,
        n,
        m,
        (149 - k) as nat,
        (149 - l) as nat,
    );
}

/// The negative of a number is exact.
pub proof fn lemma_binary_negation(a: F32, n: int, k: nat)
    requires
        is_binary(a, n, k),
    ensures
        is_binary(a.negation(), -n, k),
{
    reveal(F32::negation);
    lemma_single();
    lemma_turned_exact(single(), a.bits as u64, n, (149 - k) as nat);
}

/// A number against nothing.
pub proof fn lemma_binary_sign(a: F32, n: int, k: nat)
    requires
        is_binary(a, n, k),
    ensures
        a.at_most(F32 { bits: 0 }) <==> n <= 0,
        (F32 { bits: 0 }).below(a) <==> n > 0,
        a.below(F32 { bits: 0 }) <==> n < 0,
{
    let f = single();
    let w = pow2((149 - k) as nat);
    reveal(F32::at_most);
    reveal(F32::below);
    lemma_single();
    lemma_pow2_pos((149 - k) as nat);
    crate::float::laws::lemma_zero(f);
    crate::float::laws::law_order_is_by_value(f, 0, a.bits as u64);
    crate::float::laws::law_order_is_by_value(f, a.bits as u64, 0);
    assert(n * w > 0 <==> n > 0) by (nonlinear_arith)
        requires
            w > 0,
    ;
    assert(n * w < 0 <==> n < 0) by (nonlinear_arith)
        requires
            w > 0,
    ;
}

/// The same number in smaller parts.
pub proof fn lemma_binary_parts(a: F32, n: int, k: nat, l: nat)
    requires
        is_binary(a, n, k),
        k + l <= 149,
    ensures
        is_binary(a, n * pow2(l), k + l),
{
    let (x, y) = (pow2(l), pow2((149 - k - l) as nat));
    lemma_pow2_adds(l, (149 - k - l) as nat);
    assert(n * (x * y) == (n * x) * y) by (nonlinear_arith);
}

/// A number by its digits: `n` times two to the `t` of them.
pub proof fn lemma_binary_digits(x: F32, s: nat, a: nat, n: nat, t: nat)
    requires
        x.bits == s * 0x80_0000 + a,
        0x80_0000 <= a < 0x100_0000,
        a == n * pow2(t),
        s < 254,
        s + t <= 149,
    ensures
        is_binary(x, n as int, (149 - s - t) as nat),
        is_amount(x),
{
    lemma_single();
    crate::float::lemma_packed(single(), s, a);
    lemma_pow2_adds(t, s);
    let (p, q) = (pow2(t), pow2(s));
    assert((n * p) * q == n * (p * q)) by (nonlinear_arith);
}

} // verus!
