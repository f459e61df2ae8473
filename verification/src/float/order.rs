//! How the operations keep the order of their operands, and where they are
//! exact.
use crate::float::error::{lemma_nearest_keeps_order, lemma_rounding_keeps_order};
use crate::float::{
    absolute, bit_length, finite, lemma_bit_length, lemma_bit_length_below, lemma_fields,
    lemma_nearest_exact, lemma_nearest_scale, lemma_ratio_bound, lemma_ratio_order,
    lemma_rounded_exact, lemma_rounded_scale, magnitude, nearest, negative, product, quotient,
    ratio_below, ratio_order, rounded, rounded_ratio, scale, significand, sum, turned, value,
    Format,
};
use vstd::arithmetic::power2::{
    lemma_pow2_adds, lemma_pow2_pos, lemma_pow2_strictly_increases, lemma_pow2_unfold, pow2,
};
use vstd::prelude::*;

verus! {

/// Does the pattern stand for `n` times two to the `s`, counted in the least
/// positive number?
pub open spec fn stands(f: Format, b: u64, n: int, s: nat) -> bool {
    finite(f, b) && value(f, b) == n * pow2(s)
}

/// The size of a number.
pub open spec fn size(n: int) -> nat {
    if n < 0 {
        (-n) as nat
    } else {
        n as nat
    }
}

/// What the sign is set on is a pattern.
pub open spec fn narrow(f: Format) -> bool {
    f.wf() && 2 * f.sign_weight() <= 0x1_0000_0000_0000_0000
}

/// What a rounded size with a sign stands for.
proof fn lemma_signed(f: Format, neg: bool, n: nat, s: nat)
    requires
        narrow(f),
        n < pow2(f.precision as nat),
        s + 1 < f.top,
    ensures
        ({
            let m = rounded(f, n, s as int);
            let b = crate::float::with_sign(f, neg, m) as u64;
            &&& m < f.infinity()
            &&& b == crate::float::with_sign(f, neg, m)
            &&& stands(
                f,
                b,
                if neg {
                    -(n as int)
                } else {
                    n as int
                },
                s,
            )
        }),
{
    lemma_rounded_exact(f, n, s);
    let m = rounded(f, n, s as int);
    assert(f.infinity() < f.sign_weight()) by (nonlinear_arith)
        requires
            f.step() > 0,
            f.infinity() == f.top as nat * f.step(),
            f.sign_weight() == (f.top as nat + 1) * f.step(),
    {
        lemma_pow2_pos((f.precision - 1) as nat);
    }
    assert((-(n as int)) * pow2(s) == -((n * pow2(s)) as int)) by (nonlinear_arith);
}

/// A sum of numbers that fit is exact.
pub proof fn lemma_sum_exact(f: Format, a: u64, b: u64, n: int, m: int, s: nat)
    requires
        narrow(f),
        stands(f, a, n, s),
        stands(f, b, m, s),
        size(n + m) < pow2(f.precision as nat),
        s + 1 < f.top,
    ensures
        sum(f, a, b) == sum(f, a, b) as u64,
        stands(f, sum(f, a, b) as u64, n + m, s),
{
    let w = pow2(s);
    lemma_pow2_pos(s);
    let t = value(f, a) + value(f, b);
    assert(t == (n + m) * w) by (nonlinear_arith)
        requires
            t == n * w + m * w,
    ;
    assert(t == 0 <==> n + m == 0) by (nonlinear_arith)
        requires
            t == (n + m) * w,
            w > 0,
    ;
    assert(t < 0 <==> n + m < 0) by (nonlinear_arith)
        requires
            t == (n + m) * w,
            w > 0,
    ;
    lemma_signed(f, n + m < 0, size(n + m), s);
    lemma_rounded_scale(f, size(n + m), s, 0);
    if t < 0 {
        assert((-t) as nat == size(n + m) * w) by (nonlinear_arith)
            requires
                t == (n + m) * w,
                t < 0,
                size(n + m) == -(n + m),
        ;
    } else if t == 0 {
        crate::float::laws::lemma_zero(f);
        assert(f.sign_weight() > 0 && f.sign_weight() > f.infinity()) by (nonlinear_arith)
            requires
                f.step() > 0,
                f.infinity() == f.top as nat * f.step(),
                f.sign_weight() == (f.top as nat + 1) * f.step(),
        {
            lemma_pow2_pos((f.precision - 1) as nat);
        }
        assert(0 * w == 0);
    }
}

/// A product of numbers that fits is exact.
pub proof fn lemma_product_exact(f: Format, a: u64, b: u64, n: int, m: int, s: nat, t: nat)
    requires
        narrow(f),
        stands(f, a, n, s),
        stands(f, b, m, t),
        size(n * m) < pow2(f.precision as nat),
        f.depth() <= s + t,
        s + t + 1 < f.top + f.depth(),
    ensures
        product(f, a, b) == product(f, a, b) as u64,
        stands(f, product(f, a, b) as u64, n * m, (s + t - f.depth()) as nat),
{
    let (x, y) = (magnitude(f, a), magnitude(f, b));
    let (p, q) = (significand(f, x), significand(f, y));
    let (g, h) = (scale(f, x), scale(f, y));
    let e = (s + t - f.depth()) as nat;
    let neg = negative(f, a) != negative(f, b);
    lemma_pow2_pos(s);
    lemma_pow2_pos(t);
    lemma_size(value(f, a), n, pow2(s));
    lemma_size(value(f, b), m, pow2(t));
    assert(size(n * m) == size(n) * size(m)) by (nonlinear_arith)
        requires
            size(n) == if n < 0 { -n } else { n },
            size(m) == if m < 0 { -m } else { m },
            size(n * m) == if n * m < 0 { -(n * m) } else { n * m },
    ;
    lemma_pow2_adds(g, h);
    lemma_pow2_adds(s, t);
    lemma_pairs(p, pow2(g), q, pow2(h));
    lemma_pairs(size(n), pow2(s), size(m), pow2(t));
    assert((p * q) * pow2(g + h) == size(n * m) * pow2(s + t));
    lemma_rounded_scale(f, p * q, g + h, -(f.depth() as int));
    lemma_rounded_scale(f, size(n * m), s + t, -(f.depth() as int));
    lemma_signed(f, neg, size(n * m), e);
    lemma_pow2_pos(e);
    // The sign of the product is that of the numbers.
    if size(n * m) != 0 {
        assert(n != 0 && m != 0) by (nonlinear_arith)
            requires
                n * m != 0,
        ;
        assert(n * m < 0 <==> (n < 0) != (m < 0)) by (nonlinear_arith)
            requires
                n != 0,
                m != 0,
        ;
        assert(negative(f, a) <==> n < 0) by (nonlinear_arith)
            requires
                value(f, a) == n * pow2(s),
                n != 0,
                pow2(s) > 0,
                negative(f, a) ==> value(f, a) <= 0,
                !negative(f, a) ==> value(f, a) >= 0,
        ;
        assert(negative(f, b) <==> m < 0) by (nonlinear_arith)
            requires
                value(f, b) == m * pow2(t),
                m != 0,
                pow2(t) > 0,
                negative(f, b) ==> value(f, b) <= 0,
                !negative(f, b) ==> value(f, b) >= 0,
        ;
    } else {
        assert(-(0nat as int) == 0);
    }
}

/// The size of a number and of what it stands for.
proof fn lemma_size(v: int, n: int, w: nat)
    requires
        v == n * w,
        w > 0,
    ensures
        size(v) == size(n) * w,
{
    assert(v < 0 <==> n < 0) by (nonlinear_arith)
        requires
            v == n * w,
            w > 0,
    ;
    assert((-n) * w == -(n * w)) by (nonlinear_arith);
}

/// Turning the sign turns what the pattern stands for.
pub proof fn lemma_turned_exact(f: Format, a: u64, n: int, s: nat)
    requires
        narrow(f),
        stands(f, a, n, s),
    ensures
        turned(f, a) == turned(f, a) as u64,
        stands(f, turned(f, a) as u64, -n, s),
{
    assert(f.infinity() < f.sign_weight()) by (nonlinear_arith)
        requires
            f.step() > 0,
            f.infinity() == f.top as nat * f.step(),
            f.sign_weight() == (f.top as nat + 1) * f.step(),
    {
        lemma_pow2_pos((f.precision - 1) as nat);
    }
    assert((-n) * pow2(s) == -(n * pow2(s))) by (nonlinear_arith);
}

/// The greater the factors, the greater the product.
pub proof fn lemma_product_order(f: Format, a: u64, b: u64, c: u64, d: u64)
    requires
        f.wf(),
        a < f.infinity(),
        b < f.infinity(),
        c < f.infinity(),
        d < f.infinity(),
        absolute(f, a as nat) * absolute(f, b as nat) <= absolute(f, c as nat) * absolute(
            f,
            d as nat,
        ),
    ensures
        product(f, a, b) <= product(f, c, d),
{
    lemma_product_rounds(f, a, b);
    lemma_product_rounds(f, c, d);
    lemma_rounding_keeps_order(
        f,
        absolute(f, a as nat) * absolute(f, b as nat),
        absolute(f, c as nat) * absolute(f, d as nat),
        -(f.depth() as int),
    );
}

/// A product is its exact value, rounded.
proof fn lemma_product_rounds(f: Format, a: u64, b: u64)
    requires
        f.wf(),
        a < f.infinity(),
        b < f.infinity(),
    ensures
        product(f, a, b) == rounded(
            f,
            absolute(f, a as nat) * absolute(f, b as nat),
            -(f.depth() as int),
        ),
{
    let (x, y) = (a as nat, b as nat);
    let (p, q) = (significand(f, x), significand(f, y));
    let (g, h) = (scale(f, x), scale(f, y));
    assert(f.infinity() < f.sign_weight()) by (nonlinear_arith)
        requires
            f.step() > 0,
            f.infinity() == f.top as nat * f.step(),
            f.sign_weight() == (f.top as nat + 1) * f.step(),
    {
        lemma_pow2_pos((f.precision - 1) as nat);
    }
    lemma_pow2_adds(g, h);
    assert((p * q) * pow2(g + h) == (p * pow2(g)) * (q * pow2(h))) by (nonlinear_arith)
        requires
            pow2(g + h) == pow2(g) * pow2(h),
    ;
    lemma_rounded_scale(f, p * q, g + h, -(f.depth() as int));
}

/// A ratio compared at a common scale.
proof fn lemma_ratio_scaled(num: nat, den: nat, k: int, t: nat)
    requires
        t + k >= 0,
    ensures
        ratio_below(num, den, k) <==> num * pow2(t) < den * pow2((t + k) as nat),
{
    if k >= 0 {
        lemma_pow2_adds(t, k as nat);
        lemma_pow2_pos(t);
        let (x, y, w) = (pow2(t), pow2(k as nat), pow2((t + k) as nat));
        assert(num < den * y <==> num * x < den * w) by (nonlinear_arith)
            requires
                w == x * y,
                x > 0,
        ;
    } else {
        lemma_pow2_adds((t + k) as nat, (-k) as nat);
        lemma_pow2_pos((t + k) as nat);
        let (x, y, w) = (pow2((t + k) as nat), pow2((-k) as nat), pow2(t));
        assert(num * y < den <==> num * w < den * x) by (nonlinear_arith)
            requires
                w == x * y,
                x > 0,
        ;
    }
}

/// The order is the least that bounds the ratio.
proof fn lemma_ratio_order_least(num: nat, den: nat)
    requires
        num > 0,
        den > 0,
    ensures
        !ratio_below(num, den, ratio_order(num, den) - 1),
{
    let (a, b) = (bit_length(num), bit_length(den));
    lemma_bit_length(num);
    lemma_bit_length(den);
    let k = a - b - 1;
    if ratio_order(num, den) == a - b {
        let t = b;
        lemma_ratio_scaled(num, den, k, t);
        lemma_pow2_adds((a - 1) as nat, b);
        lemma_pow2_adds(b, (a - 1) as nat);
        let (x, y) = (pow2((a - 1) as nat), pow2(b));
        assert((t + k) as nat == (a - 1) as nat);
        assert(num * y >= den * x) by (nonlinear_arith)
            requires
                num >= x,
                den < y,
        ;
    }
}

/// The exponent that a rounded ratio gets.
pub open spec fn ratio_exponent(f: Format, num: nat, den: nat, e: int) -> nat {
    let spare = ratio_order(num, den) - f.precision;
    (if -e >= spare {
        0
    } else {
        e + spare
    }) as nat
}

/// A rounded ratio, at a common scale: its exponent and its digits.
proof fn lemma_ratio_form(f: Format, num: nat, den: nat, e: int, m: nat) -> (q: nat)
    requires
        f.wf(),
        0 < num < pow2(53),
        0 < den < pow2(53),
        m + e >= 60,
    ensures
        ({
            let g = ratio_exponent(f, num, den, e);
            let n = num * pow2((m + e) as nat);
            let w = den * pow2(m + g);
            &&& q == nearest(n, w)
            &&& w > 0
            &&& rounded_ratio(f, num, den, e) == if g * f.step() + q >= f.infinity() {
                f.infinity()
            } else {
                g * f.step() + q
            }
            &&& n < w * pow2(f.precision as nat)
            &&& g > 0 ==> n >= w * f.step()
        }),
{
    let p = f.precision as nat;
    let k = ratio_order(num, den);
    let g = ratio_exponent(f, num, den, e);
    let t = (m + e) as nat;
    let n = num * pow2(t);
    let w = den * pow2(m + g);
    let d = g - e;
    lemma_bit_length_below(num, 53);
    lemma_bit_length_below(den, 53);
    lemma_bit_length(num);
    lemma_bit_length(den);
    lemma_ratio_order(num, den);
    lemma_ratio_order_least(num, den);
    lemma_ratio_scaled(num, den, k, t);
    lemma_ratio_scaled(num, den, k - 1, t);
    lemma_pow2_pos(m + g);
    assert(w > 0) by (nonlinear_arith)
        requires
            w == den * pow2(m + g),
            den > 0,
            pow2(m + g) > 0,
    ;
    // Above.
    lemma_pow2_adds(m + g, p);
    if t + k < m + g + p {
        lemma_pow2_strictly_increases((t + k) as nat, m + g + p);
    }
    assert(n < w * pow2(p)) by (nonlinear_arith)
        requires
            n < den * pow2((t + k) as nat),
            pow2((t + k) as nat) <= pow2(m + g + p),
            pow2(m + g + p) == pow2(m + g) * pow2(p),
            w == den * pow2(m + g),
    ;
    // Below.
    lemma_pow2_adds(m + g, (p - 1) as nat);
    if g > 0 {
        assert((t + (k - 1)) as nat == (m + g + (p - 1)) as nat);
        assert(n >= w * f.step()) by (nonlinear_arith)
            requires
                n >= den * pow2((m + g + (p - 1)) as nat),
                pow2((m + g + (p - 1)) as nat) == pow2(m + g) * f.step(),
                w == den * pow2(m + g),
        ;
    }
    // The digits.
    if d >= 0 {
        lemma_pow2_adds(d as nat, t);
        lemma_pow2_pos(t);
        lemma_pow2_pos(d as nat);
        assert(den * pow2(d as nat) > 0) by (nonlinear_arith)
            requires
                den > 0,
                pow2(d as nat) > 0,
        ;
        lemma_nearest_scale(num, den * pow2(d as nat), pow2(t));
        assert((den * pow2(d as nat)) * pow2(t) == w) by (nonlinear_arith)
            requires
                w == den * pow2(m + g),
                pow2(m + g) == pow2(d as nat) * pow2(t),
        ;
    } else {
        lemma_pow2_adds((-d) as nat, m + g);
        lemma_nearest_scale(num * pow2((-d) as nat), den, pow2(m + g));
        assert((num * pow2((-d) as nat)) * pow2(m + g) == n) by (nonlinear_arith)
            requires
                n == num * pow2(t),
                pow2(t) == pow2((-d) as nat) * pow2(m + g),
        ;
    }
    assert((g * f.step() >= 0)) by (nonlinear_arith);
    nearest(n, w)
}

/// The digits of a rounded ratio fill the precision.
proof fn lemma_digits(f: Format, n: nat, w: nat)
    requires
        f.wf(),
        w > 0,
        n < w * pow2(f.precision as nat),
    ensures
        nearest(n, w) <= 2 * f.step(),
        n >= w * f.step() ==> nearest(n, w) >= f.step(),
{
    lemma_pow2_unfold(f.precision as nat);
    let c = f.step();
    assert(w * pow2(f.precision as nat) == (2 * c) * w && w * c == c * w) by (nonlinear_arith)
        requires
            pow2(f.precision as nat) == 2 * c,
    ;
    lemma_nearest_keeps_order(n, (2 * c) * w, w);
    lemma_nearest_exact(2 * c, w);
    if n >= w * c {
        lemma_nearest_keeps_order(c * w, n, w);
        lemma_nearest_exact(c, w);
    }
}

/// The greater the ratio, the greater the rounded ratio.
proof fn lemma_ratio_keeps_order(f: Format, a: nat, b: nat, e: int, c: nat, d: nat, h: int, m: nat)
    requires
        f.wf(),
        0 < a < pow2(53),
        0 < b < pow2(53),
        0 < c < pow2(53),
        0 < d < pow2(53),
        m + e >= 60,
        m + h >= 60,
        (a * pow2((m + e) as nat)) * d <= (c * pow2((m + h) as nat)) * b,
    ensures
        rounded_ratio(f, a, b, e) <= rounded_ratio(f, c, d, h),
{
    let q = lemma_ratio_form(f, a, b, e, m);
    let r = lemma_ratio_form(f, c, d, h, m);
    let (g, k) = (ratio_exponent(f, a, b, e), ratio_exponent(f, c, d, h));
    let n = a * pow2((m + e) as nat);
    let o = c * pow2((m + h) as nat);
    let (v, w) = (b * pow2(m + g), d * pow2(m + k));
    lemma_digits(f, n, v);
    lemma_digits(f, o, w);
    lemma_pow2_unfold(f.precision as nat);
    lemma_pow2_pos(m + g);
    lemma_pow2_pos(m + k);
    let p2 = pow2(f.precision as nat);
    if g == k {
        let x = pow2(m + g);
        lemma_nearest_scale(n, v, d);
        lemma_nearest_scale(o, w, b);
        assert(v * d == w * b && v * d > 0) by (nonlinear_arith)
            requires
                v == b * x,
                w == d * x,
                b > 0,
                d > 0,
                x > 0,
        ;
        lemma_nearest_keeps_order(n * d, o * b, v * d);
        assert(q <= r);
    } else if g < k {
        assert(g * f.step() + q <= k * f.step() + r) by (nonlinear_arith)
            requires
                g + 1 <= k,
                q <= 2 * f.step(),
                r >= f.step(),
        ;
    } else {
        let (x, y) = (pow2(m + g), pow2(m + k));
        lemma_pow2_adds(m + k, (g - k) as nat);
        lemma_powers_step((g - k) as nat);
        let z = pow2((g - k) as nat);
        lemma_apart(n, o, b, d, y, z, f.step());
    }
}

/// Two ratios on either side of a power of two are in order.
proof fn lemma_apart(n: nat, o: nat, b: nat, d: nat, y: nat, z: nat, s: nat)
    requires
        n >= (b * (y * z)) * s,
        o < (d * y) * (2 * s),
        z >= 2,
        b > 0,
        d > 0,
    ensures
        o * b < n * d,
{
    let u = (b * d) * (y * s);
    assert(((b * (y * z)) * s) * d == u * z) by (nonlinear_arith)
        requires
            u == (b * d) * (y * s),
    ;
    assert(((d * y) * (2 * s)) * b == u * 2) by (nonlinear_arith)
        requires
            u == (b * d) * (y * s),
    ;
    assert(u * z >= u * 2) by (nonlinear_arith)
        requires
            z >= 2,
    ;
    let (l, r) = ((b * (y * z)) * s, (d * y) * (2 * s));
    assert(n * d >= l * d) by (nonlinear_arith)
        requires
            n >= l,
    ;
    assert(o * b < r * b) by (nonlinear_arith)
        requires
            o < r,
            b > 0,
    ;
}

/// A scale taken out of a product.
proof fn lemma_scaled_product(a: nat, b: nat, c: nat, d: nat, x: nat)
    ensures
        (a * ((b * d) * x)) * c == ((a * b) * (c * d)) * x,
{
    assert((a * ((b * d) * x)) * c == ((a * b) * (c * d)) * x) by (nonlinear_arith);
}

/// The factors of a product, paired the other way.
proof fn lemma_pairs(a: nat, b: nat, c: nat, d: nat)
    ensures
        (a * b) * (c * d) == (a * c) * (b * d),
{
    assert((a * b) * (c * d) == (a * c) * (b * d)) by (nonlinear_arith);
}

proof fn lemma_powers_step(k: nat)
    requires
        k > 0,
    ensures
        pow2(k) >= 2,
{
    lemma_pow2_unfold(k);
    lemma_pow2_pos((k - 1) as nat);
}

/// The greater the dividend and the smaller the divisor, the greater the
/// quotient.
pub proof fn lemma_quotient_order(f: Format, a: u64, b: u64, c: u64, d: u64)
    requires
        f.wf(),
        a < f.infinity(),
        0 < b < f.infinity(),
        c < f.infinity(),
        0 < d < f.infinity(),
        absolute(f, a as nat) * absolute(f, d as nat) <= absolute(f, c as nat) * absolute(
            f,
            b as nat,
        ),
    ensures
        quotient(f, a, b) <= quotient(f, c, d) <= f.infinity(),
{
    let (sa, sb, sc, sd) = (
        significand(f, a as nat),
        significand(f, b as nat),
        significand(f, c as nat),
        significand(f, d as nat),
    );
    let (ea, eb, ec, ed) = (
        scale(f, a as nat),
        scale(f, b as nat),
        scale(f, c as nat),
        scale(f, d as nat),
    );
    lemma_fields(f, a as nat);
    lemma_fields(f, b as nat);
    lemma_fields(f, c as nat);
    lemma_fields(f, d as nat);
    assert(f.infinity() < f.sign_weight()) by (nonlinear_arith)
        requires
            f.step() > 0,
            f.infinity() == f.top as nat * f.step(),
            f.sign_weight() == (f.top as nat + 1) * f.step(),
    {
        lemma_pow2_pos((f.precision - 1) as nat);
    }
    if f.precision < 53 {
        lemma_pow2_strictly_increases(f.precision as nat, 53);
    }
    let e = ea - eb + f.depth();
    let h = ec - ed + f.depth();
    lemma_ratio_bound(f, sa, sb, e);
    lemma_ratio_bound(f, sc, sd, h);
    lemma_pow2_pos(ea);
    lemma_pow2_pos(eb);
    lemma_pow2_pos(ec);
    lemma_pow2_pos(ed);
    if a > 0 {
        assert(c > 0) by {
            assert(absolute(f, a as nat) * absolute(f, d as nat) > 0) by (nonlinear_arith)
                requires
                    absolute(f, a as nat) == sa * pow2(ea),
                    absolute(f, d as nat) == sd * pow2(ed),
                    sa > 0,
                    sd > 0,
                    pow2(ea) > 0,
                    pow2(ed) > 0,
            ;
            if c == 0 {
                crate::float::laws::lemma_zero(f);
                assert(0 * absolute(f, b as nat) == 0);
            }
        }
        let m: nat = 6000;
        let x = (m + f.depth() - eb - ed) as nat;
        lemma_pow2_adds(ea + ed, x);
        lemma_pow2_adds(ec + eb, x);
        lemma_pow2_adds(ea, ed);
        lemma_pow2_adds(ec, eb);
        assert((m + e) as nat == ea + ed + x);
        assert((m + h) as nat == ec + eb + x);
        lemma_scaled_product(sa, pow2(ea), sd, pow2(ed), pow2(x));
        lemma_scaled_product(sc, pow2(ec), sb, pow2(eb), pow2(x));
        let (l, r) = ((sa * pow2(ea)) * (sd * pow2(ed)), (sc * pow2(ec)) * (sb * pow2(eb)));
        let y = pow2(x);
        assert(l * y <= r * y) by (nonlinear_arith)
            requires
                l <= r,
        ;
        lemma_ratio_keeps_order(f, sa, sb, e, sc, sd, h, m);
    }
}

} // verus!
