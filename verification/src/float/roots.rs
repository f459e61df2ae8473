//! How square roots keep order, and where they are exact.
use crate::float::error::lemma_bit_length_order;
use crate::float::laws::lemma_absolute_increases;
use crate::float::{
    absolute, bit_length, floor_root, is_floor_root, lemma_bit_length, lemma_fields,
    lemma_floor_root, lemma_has_root, root_excess, rooted, scale, significand, Format,
};
use vstd::arithmetic::power2::{
    lemma_pow2_adds, lemma_pow2_pos, lemma_pow2_strictly_increases, lemma_pow2_unfold, pow2,
};
use vstd::prelude::*;

verus! {

/// The greater the number, the greater the integer part of its root.
proof fn lemma_floor_root_order(n: nat, m: nat)
    requires
        n <= m,
    ensures
        floor_root(n) <= floor_root(m),
{
    lemma_has_root(n);
    lemma_has_root(m);
    let (r, s) = (floor_root(n), floor_root(m));
    if r > s {
        assert((s + 1) * (s + 1) <= r * r) by (nonlinear_arith)
            requires
                s + 1 <= r,
        ;
    }
}

/// The root of an even power of two.
proof fn lemma_floor_root_power(k: nat)
    ensures
        floor_root(pow2(2 * k)) == pow2(k),
{
    lemma_pow2_adds(k, k);
    let r = pow2(k);
    assert(r * r < (r + 1) * (r + 1)) by (nonlinear_arith);
    assert(is_floor_root(pow2(2 * k), r));
    lemma_floor_root(pow2(2 * k), r);
}

/// The digits of a root: at most what the precision holds, and filling it
/// where digits were taken off.
proof fn lemma_root_digits(f: Format, s: nat)
    requires
        f.wf(),
        s > 0,
    ensures
        ({
            let d = root_excess(f, s);
            let q = (floor_root((4 * s) / pow2(2 * d)) + 1) / 2;
            &&& q <= 2 * f.step()
            &&& d > 0 ==> q >= f.step()
        }),
{
    let p = f.precision as nat;
    let d = root_excess(f, s);
    let b = bit_length(s);
    let l = (b + 1) / 2;
    let w = pow2(2 * d);
    let t = (4 * s) / w;
    lemma_bit_length(s);
    lemma_pow2_pos(2 * d);
    lemma_pow2_unfold(p);
    lemma_pow2_unfold(p + 1);
    // Above.
    if b < 2 * (d + p) {
        lemma_pow2_strictly_increases(b, 2 * (d + p));
    }
    lemma_pow2_adds(2 * d, 2 * p);
    lemma_pow2_unfold(2 * p + 2);
    lemma_pow2_unfold(2 * p + 1);
    let big = pow2(2 * (p + 1));
    assert(4 * s < w * big) by (nonlinear_arith)
        requires
            s < w * pow2(2 * p),
            big == 4 * pow2(2 * p),
    ;
    vstd::arithmetic::div_mod::lemma_fundamental_div_mod((4 * s) as int, w as int);
    assert(t < big) by (nonlinear_arith)
        requires
            4 * s == w * t + (4 * s) % w,
            (4 * s) % w >= 0,
            4 * s < w * big,
            w > 0,
    ;
    lemma_has_root(t);
    lemma_pow2_adds(p + 1, p + 1);
    let r = floor_root(t);
    let c = pow2(p + 1);
    assert(r < c) by (nonlinear_arith)
        requires
            r * r <= t,
            t < c * c,
    ;
    // Below.
    if d > 0 {
        if 2 * (d + p) - 2 < b - 1 {
            lemma_pow2_strictly_increases((2 * (d + p) - 2) as nat, (b - 1) as nat);
        }
        lemma_pow2_adds(2 * d, (2 * p - 2) as nat);
        lemma_pow2_unfold(2 * p);
        lemma_pow2_unfold((2 * p - 1) as nat);
        let low = pow2(2 * p);
        assert(4 * s >= w * low) by (nonlinear_arith)
            requires
                s >= w * pow2((2 * p - 2) as nat),
                low == 4 * pow2((2 * p - 2) as nat),
        ;
        assert(t >= low) by (nonlinear_arith)
            requires
                4 * s == w * t + (4 * s) % w,
                (4 * s) % w < w,
                4 * s >= w * low,
                w > 0,
        ;
        lemma_floor_root_order(low, t);
        lemma_floor_root_power(p);
    }
}

/// The greater the number, the greater its root.
pub proof fn lemma_root_order(f: Format, m: nat, n: nat)
    requires
        f.wf(),
        0 < m <= n,
        n < f.infinity(),
    ensures
        rooted(f, m) <= rooted(f, n),
{
    if m < n {
        lemma_absolute_increases(f, m, n);
    }
    crate::float::laws::lemma_zero(f);
    lemma_absolute_increases(f, 0, m);
    let w = pow2(f.depth());
    lemma_pow2_pos(f.depth());
    let (s, t) = (absolute(f, m) * w, absolute(f, n) * w);
    assert(0 < s <= t) by (nonlinear_arith)
        requires
            s == absolute(f, m) * w,
            t == absolute(f, n) * w,
            0 < absolute(f, m) <= absolute(f, n),
            w > 0,
    ;
    lemma_bit_length_order(s, t);
    lemma_root_digits(f, s);
    lemma_root_digits(f, t);
    let (c, d) = (root_excess(f, s), root_excess(f, t));
    if c == d {
        lemma_pow2_pos(2 * d);
        vstd::arithmetic::div_mod::lemma_div_is_ordered(
            (4 * s) as int,
            (4 * t) as int,
            pow2(2 * d) as int,
        );
        lemma_floor_root_order((4 * s) / pow2(2 * d), (4 * t) / pow2(2 * d));
    } else {
        let q = (floor_root((4 * s) / pow2(2 * c)) + 1) / 2;
        let r = (floor_root((4 * t) / pow2(2 * d)) + 1) / 2;
        assert(c * f.step() + q <= d * f.step() + r) by (nonlinear_arith)
            requires
                c + 1 <= d,
                q <= 2 * f.step(),
                r >= f.step(),
        ;
    }
}

/// The root of a square is exact.
pub proof fn lemma_root_exact(f: Format, m: nat, n: nat)
    requires
        f.wf(),
        0 < n < f.infinity(),
        absolute(f, n) * absolute(f, n) == absolute(f, m) * pow2(f.depth()),
    ensures
        rooted(f, m) == n,
{
    let p = f.precision as nat;
    lemma_fields(f, n);
    let (a, e) = (significand(f, n), scale(f, n));
    let v = absolute(f, n);
    let s = v * v;
    let b = bit_length(a);
    lemma_bit_length(a);
    lemma_pow2_pos(e);
    // The number of digits of the root and of its square.
    lemma_pow2_adds((b - 1) as nat, e);
    lemma_pow2_adds(b, e);
    let w = pow2(e);
    let (lo, hi) = (pow2((b - 1 + e) as nat), pow2(b + e));
    assert(lo <= v < hi && v > 0) by (nonlinear_arith)
        requires
            v == a * w,
            pow2((b - 1) as nat) <= a < pow2(b),
            lo == pow2((b - 1) as nat) * w,
            hi == pow2(b) * w,
            w > 0,
            a > 0,
    ;
    let k = b + e;
    lemma_pow2_adds(k, k);
    lemma_pow2_adds((k - 1) as nat, (k - 1) as nat);
    assert(lo * lo <= s < hi * hi && s > 0) by (nonlinear_arith)
        requires
            s == v * v,
            lo <= v < hi,
            v > 0,
    ;
    lemma_bit_length(s);
    let l = bit_length(s);
    assert(2 * k - 1 <= l <= 2 * k) by {
        if l < 2 * k - 1 {
            if l < 2 * k - 2 {
                lemma_pow2_strictly_increases(l, (2 * k - 2) as nat);
            }
        }
        if l > 2 * k {
            if l - 1 > 2 * k {
                lemma_pow2_strictly_increases(2 * k, (l - 1) as nat);
            }
        }
    }
    // As many digits are taken off as the exponent counts.
    lemma_pow2_unfold(p);
    assert(b <= p) by {
        crate::float::lemma_bit_length_below(a, p);
    }
    if e > 0 {
        if b < p {
            if b < p - 1 {
                lemma_pow2_strictly_increases(b, (p - 1) as nat);
            }
        }
        assert(b == p);
    }
    let d = root_excess(f, s);
    assert(d == e);
    lemma_pow2_adds(e, e);
    let x = pow2(2 * e);
    let r = 2 * a;
    assert(4 * s == (r * r) * x) by (nonlinear_arith)
        requires
            s == v * v,
            v == a * w,
            x == w * w,
            r == 2 * a,
    ;
    lemma_pow2_pos(2 * e);
    vstd::arithmetic::div_mod::lemma_fundamental_div_mod_converse(
        (4 * s) as int,
        x as int,
        (r * r) as int,
        0,
    );
    assert(r * r < (r + 1) * (r + 1)) by (nonlinear_arith);
    assert(is_floor_root(r * r, r));
    lemma_floor_root(r * r, r);
}

/// A root is the nearest number: it is off the exact root by at most half of
/// the space between the numbers of the format there. Squares are counted in
/// the square of the least positive number.
pub proof fn law_root_is_nearest(f: Format, m: nat)
    requires
        f.wf(),
        0 < m < f.infinity(),
    ensures
        ({
            let s = absolute(f, m) * pow2(f.depth());
            let space = pow2(root_excess(f, s));
            let v = absolute(f, rooted(f, m));
            &&& v >= space
            &&& (2 * v - space) * (2 * v - space) <= 4 * s
            &&& 4 * s < (2 * v + space) * (2 * v + space)
        }),
{
    let one = pow2(f.depth());
    let s = absolute(f, m) * one;
    lemma_pow2_pos(f.depth());
    crate::float::laws::lemma_zero(f);
    lemma_absolute_increases(f, 0, m);
    assert(s > 0) by (nonlinear_arith)
        requires
            s == absolute(f, m) * one,
            absolute(f, m) > 0,
            one > 0,
    ;
    lemma_root_digits(f, s);
    let d = root_excess(f, s);
    let w = pow2(d);
    let x = pow2(2 * d);
    lemma_pow2_adds(d, d);
    lemma_pow2_pos(d);
    lemma_pow2_pos(2 * d);
    let t = (4 * s) / x;
    let r = floor_root(t);
    let q = (r + 1) / 2;
    lemma_has_root(t);
    crate::float::lemma_packed(f, d, q);
    let v = absolute(f, rooted(f, m));
    assert(v == q * w);
    // The integer part of the root is not zero.
    assert(t >= 1) by {
        if d == 0 {
            vstd::arithmetic::power2::lemma2_to64();
            assert(2 * d == 0);
            assert(x == 1);
            vstd::arithmetic::div_mod::lemma_fundamental_div_mod((4 * s) as int, x as int);
            let e = (4 * s) % x;
            assert(t >= 1) by (nonlinear_arith)
                requires
                    4 * s == x * t + e,
                    0 <= e < x,
                    x == 1,
                    s > 0,
            ;
        } else {
            lemma_pow2_unfold(f.precision as nat);
            lemma_pow2_pos((f.precision - 1) as nat);
            if t == 0 {
                assert(r * r <= 0);
                assert(r == 0) by (nonlinear_arith)
                    requires
                        r * r <= 0,
                ;
                assert(q == 0);
            }
        }
    }
    assert(r >= 1) by (nonlinear_arith)
        requires
            1 <= t,
            t < (r + 1) * (r + 1),
    ;
    let (a, b) = ((2 * q - 1) as nat, (2 * q + 1) as nat);
    assert(a * a <= t < b * b) by (nonlinear_arith)
        requires
            r * r <= t,
            t < (r + 1) * (r + 1),
            a <= r,
            r + 1 <= b,
    ;
    vstd::arithmetic::div_mod::lemma_fundamental_div_mod((4 * s) as int, x as int);
    let e = (4 * s) % x;
    assert((a * a) * x <= 4 * s && 4 * s < (b * b) * x) by (nonlinear_arith)
        requires
            4 * s == x * t + e,
            0 <= e < x,
            a * a <= t,
            t + 1 <= b * b,
    ;
    assert((a * w) * (a * w) == (a * a) * x && (b * w) * (b * w) == (b * b) * x)
        by (nonlinear_arith)
        requires
            x == w * w,
    ;
    assert(a * w == 2 * v - w && b * w == 2 * v + w && v >= w) by (nonlinear_arith)
        requires
            v == q * w,
            a == 2 * q - 1,
            b == 2 * q + 1,
            q >= 1,
    ;
}

} // verus!
