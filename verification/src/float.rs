//! Binary floating point on bit patterns, in integer arithmetic.
//!
//! A city must come out the same on every machine, so the generator never
//! leaves arithmetic to a floating-point unit: it works on the interchange
//! encodings themselves. Each operation is the exact result over the
//! integers, rounded once, to nearest with ties to even.
use vstd::arithmetic::power2::{
    lemma_pow2_adds, lemma_pow2_pos, lemma_pow2_strictly_increases, lemma_pow2_unfold, pow2,
};
use vstd::prelude::*;

pub mod error;
pub mod laws;
pub mod order;
pub mod roots;

verus! {

/// A binary interchange format.
#[derive(Clone, Copy, Debug, PartialEq, Eq, Structural)]
pub struct Format {
    /// Significant bits, the leading one counted.
    pub precision: u32,
    /// The exponent field with every bit set: infinities and NaNs.
    pub top: u32,
}

impl Format {
    /// The formats this module computes in.
    pub open spec fn wf(self) -> bool {
        2 <= self.precision <= 53 && 3 <= self.top <= 2047
    }

    /// The weight of one step of the exponent field.
    pub open spec fn step(self) -> nat {
        pow2((self.precision - 1) as nat)
    }

    /// The magnitude bits of infinity.
    pub open spec fn infinity(self) -> nat {
        self.top as nat * self.step()
    }

    /// The weight of the sign bit.
    pub open spec fn sign_weight(self) -> nat {
        (self.top as nat + 1) * self.step()
    }

    /// The least positive value is two to the minus `depth`; magnitudes are
    /// counted in units of it.
    pub open spec fn depth(self) -> nat {
        (self.top / 2 + self.precision - 2) as nat
    }
}

/// Is the sign bit set?
pub open spec fn negative(f: Format, b: u64) -> bool {
    b >= f.sign_weight()
}

/// The bits below the sign.
pub open spec fn magnitude(f: Format, b: u64) -> nat {
    if negative(f, b) {
        (b - f.sign_weight()) as nat
    } else {
        b as nat
    }
}

/// Is this a number that is neither infinite nor NaN?
pub open spec fn finite(f: Format, b: u64) -> bool {
    magnitude(f, b) < f.infinity()
}

/// Is this not a number?
pub open spec fn not_a_number(f: Format, b: u64) -> bool {
    magnitude(f, b) > f.infinity()
}

/// The integer significand of magnitude bits.
pub open spec fn significand(f: Format, m: nat) -> nat {
    if m / f.step() == 0 {
        m % f.step()
    } else {
        m % f.step() + f.step()
    }
}

/// The binary exponent that goes with the significand, in units of the
/// format's least positive value.
pub open spec fn scale(f: Format, m: nat) -> nat {
    if m / f.step() == 0 {
        0
    } else {
        (m / f.step() - 1) as nat
    }
}

/// The absolute value that finite magnitude bits stand for.
pub open spec fn absolute(f: Format, m: nat) -> nat {
    significand(f, m) * pow2(scale(f, m))
}

/// The signed value that a finite pattern stands for.
pub open spec fn value(f: Format, b: u64) -> int {
    if negative(f, b) {
        -(absolute(f, magnitude(f, b)) as int)
    } else {
        absolute(f, magnitude(f, b)) as int
    }
}

/// The number of binary digits of `n`.
pub open spec fn bit_length(n: nat) -> nat
    decreases n,
{
    if n == 0 {
        0
    } else {
        1 + bit_length(n / 2)
    }
}

/// `n` divided by `den`, to the nearest integer, ties to even.
pub open spec fn nearest(n: nat, den: nat) -> nat {
    let q = n / den;
    let r = n % den;
    if 2 * r > den || (2 * r == den && q % 2 == 1) {
        q + 1
    } else {
        q
    }
}

/// How many low bits of `n` lie beyond what the format can hold of `n`
/// times two to the `e` (negative where there is room to spare).
pub open spec fn excess(f: Format, n: nat, e: int) -> int {
    if -e >= bit_length(n) - f.precision {
        -e
    } else {
        bit_length(n) - f.precision
    }
}

/// The magnitude bits nearest to `n` times two to the `e`.
pub open spec fn rounded(f: Format, n: nat, e: int) -> nat {
    if n == 0 {
        0
    } else {
        let d = excess(f, n, e);
        let q = if d >= 0 {
            nearest(n, pow2(d as nat))
        } else {
            n * pow2((-d) as nat)
        };
        let bits = (e + d) * f.step() + q;
        if bits >= f.infinity() {
            f.infinity()
        } else {
            bits as nat
        }
    }
}

/// Rounding never passes infinity.
pub proof fn lemma_rounded_bound(f: Format, n: nat, e: int)
    requires
        f.wf(),
    ensures
        rounded(f, n, e) <= f.infinity(),
{
    if n > 0 {
        let d = excess(f, n, e);
        assert((e + d) * f.step() >= 0) by (nonlinear_arith)
            requires
                e + d >= 0,
        ;
        if d < 0 {
            assert(n * pow2((-d) as nat) >= 0) by (nonlinear_arith);
        }
    }
}

pub proof fn lemma_bit_length(n: nat)
    ensures
        n < pow2(bit_length(n)),
        n > 0 ==> bit_length(n) >= 1 && pow2((bit_length(n) - 1) as nat) <= n,
    decreases n,
{
    if n == 0 {
        lemma_pow2_pos(0);
    } else {
        lemma_bit_length(n / 2);
        lemma_pow2_unfold(bit_length(n));
        if n / 2 > 0 {
            lemma_pow2_unfold((bit_length(n) - 1) as nat);
        } else {
            vstd::arithmetic::power2::lemma2_to64();
        }
    }
}

/// A bracketing by powers of two determines the bit length.
pub proof fn lemma_bit_length_unique(n: nat, l: nat)
    requires
        l >= 1,
        pow2((l - 1) as nat) <= n,
        n < pow2(l),
    ensures
        bit_length(n) == l,
{
    lemma_bit_length(n);
    lemma_pow2_pos((l - 1) as nat);
    let k = bit_length(n);
    if k < l {
        if k < l - 1 {
            lemma_pow2_strictly_increases(k, (l - 1) as nat);
        }
    } else if k > l {
        if l < k - 1 {
            lemma_pow2_strictly_increases(l, (k - 1) as nat);
        }
    }
}

/// Taking `k` low digits off a number that has more than `k`.
proof fn lemma_bit_length_shift(n: nat, k: nat)
    requires
        n >= pow2(k),
    ensures
        bit_length(n) == k + bit_length(n / pow2(k)),
{
    let w = pow2(k);
    let m = n / w;
    lemma_pow2_pos(k);
    vstd::arithmetic::div_mod::lemma_fundamental_div_mod(n as int, w as int);
    assert(m >= 1) by (nonlinear_arith)
        requires
            n == w * m + n % w,
            n % w < w,
            n >= w,
            w > 0,
    ;
    lemma_bit_length(m);
    let l = bit_length(m);
    lemma_pow2_adds((l - 1) as nat, k);
    lemma_pow2_adds(l, k);
    assert(pow2((l - 1) as nat) * w <= n && n < pow2(l) * w) by (nonlinear_arith)
        requires
            n == w * m + n % w,
            0 <= n % w < w,
            pow2((l - 1) as nat) <= m,
            m + 1 <= pow2(l),
            w > 0,
    ;
    lemma_bit_length_unique(n, l + k);
}

/// The number of binary digits of one machine word.
#[inline(always)]
fn bits_of_word(n: u64) -> (l: u32)
    ensures
        l == bit_length(n as nat),
        l <= 64,
{
    let z: u32 = n.leading_zeros();
    let l: u32 = 64 - z;
    proof {
        if n != 0 {
            let k = (l - 1) as u64;
            let one = n >> k;
            assert(one != 0) by (bit_vector)
                requires
                    one & 1 != 0,
            ;
            vstd::bits::lemma_u64_shr_is_div(n, k);
            lemma_pow2_pos(k as nat);
            assert(n >= pow2(k as nat)) by (nonlinear_arith)
                requires
                    n as nat / pow2(k as nat) != 0,
                    pow2(k as nat) > 0,
            ;
            if l < 64 {
                vstd::bits::lemma_u64_shr_is_div(n, l as u64);
                lemma_pow2_pos(l as nat);
                assert(n < pow2(l as nat)) by (nonlinear_arith)
                    requires
                        n as nat / pow2(l as nat) == 0,
                        pow2(l as nat) > 0,
                ;
            } else {
                lemma_pow2_values();
            }
            lemma_bit_length_unique(n as nat, l as nat);
        }
    }
    l
}

/// The number of binary digits of `n`.
#[inline(always)]
fn bits_of(n: u128) -> (l: u32)
    ensures
        l == bit_length(n as nat),
        l <= 128,
{
    proof {
        lemma_pow2_values();
        vstd::bits::lemma_u128_shr_is_div(n, 64);
    }
    let high: u64 = (n >> 64u128) as u64;
    if high > 0 {
        proof {
            lemma_bit_length_shift(n as nat, 64);
        }
        64 + bits_of_word(high)
    } else {
        bits_of_word(n as u64)
    }
}

pub proof fn lemma_pow2_values()
    ensures
        pow2(128) == 0x1_0000_0000_0000_0000_0000_0000_0000_0000,
        pow2(127) == 0x8000_0000_0000_0000_0000_0000_0000_0000,
        pow2(64) == 0x1_0000_0000_0000_0000,
        pow2(53) == 0x20_0000_0000_0000,
        pow2(52) == 0x10_0000_0000_0000,
        pow2(32) == 0x1_0000_0000,
        pow2(24) == 0x100_0000,
        pow2(23) == 0x80_0000,
{
    vstd::arithmetic::power2::lemma2_to64();
    lemma_pow2_adds(32, 20);
    lemma_pow2_unfold(53);
    lemma_pow2_adds(64, 64);
    lemma_pow2_unfold(128);
}

/// Two to the `k`.
#[inline(always)]
fn power(k: u32) -> (r: u128)
    requires
        k <= 126,
    ensures
        r == pow2(k as nat),
{
    let i: u32 = k / 2;
    let j: u32 = k - i;
    proof {
        vstd::arithmetic::power2::lemma2_to64();
        lemma_pow2_values();
        lemma_pow2_adds(i as nat, j as nat);
        if j < 64 {
            lemma_pow2_strictly_increases(j as nat, 64);
        }
        if i < 64 {
            lemma_pow2_strictly_increases(i as nat, 64);
        }
        vstd::bits::lemma_u64_shl_is_mul(1u64, i as u64);
        vstd::bits::lemma_u64_shl_is_mul(1u64, j as u64);
        lemma_pow2_strictly_increases(k as nat, 127);
    }
    (1u64 << i) as u128 * (1u64 << j) as u128
}

/// Two to the `k`, in one machine word.
#[inline(always)]
fn word_power(k: u32) -> (r: u64)
    requires
        k < 64,
    ensures
        r == pow2(k as nat),
{
    proof {
        lemma_pow2_values();
        lemma_pow2_strictly_increases(k as nat, 64);
        vstd::bits::lemma_u64_shl_is_mul(1u64, k as u64);
    }
    1u64 << k
}

/// `n` with its `d` low digits taken off, to the nearest integer, ties to
/// even.
#[inline(always)]
fn shift_to_nearest(n: u128, d: u32) -> (q: u128)
    requires
        d <= 126,
        n < pow2(126),
    ensures
        q == nearest(n as nat, pow2(d as nat)),
        q <= n + 1,
{
    proof {
        lemma_pow2_values();
        lemma_pow2_unfold(127);
        lemma_pow2_pos(d as nat);
        if d < 126 {
            lemma_pow2_strictly_increases(d as nat, 126);
        }
        vstd::bits::lemma_u128_shr_is_div(n, d as u128);
        vstd::arithmetic::div_mod::lemma_fundamental_div_mod(n as int, pow2(d as nat) as int);
    }
    let q: u128 = n >> d as u128;
    assert(q <= n) by (nonlinear_arith)
        requires
            q == n as nat / pow2(d as nat),
            pow2(d as nat) > 0,
    ;
    let up: bool = if d < 64 {
        let w: u64 = word_power(d);
        let low: u64 = #[verifier::truncate]
        (n as u64);
        let r: u64 = low & (w - 1);
        proof {
            assert(low == n % 0x1_0000_0000_0000_0000) by (bit_vector)
                requires
                    low == n as u64,
            ;
            vstd::bits::lemma_u64_low_bits_mask_is_mod(low, d as nat);
            lemma_pow2_adds(d as nat, (64 - d) as nat);
            lemma_pow2_pos((64 - d) as nat);
            vstd::arithmetic::div_mod::lemma_mod_mod(
                n as int,
                pow2(d as nat) as int,
                pow2((64 - d) as nat) as int,
            );
            assert(r == n as nat % pow2(d as nat));
        }
        r > w - r || (r == w - r && q % 2 == 1)
    } else {
        let w: u128 = power(d);
        assert(q * w == w * q) by (nonlinear_arith);
        let r: u128 = n - q * w;
        2 * r > w || (2 * r == w && q % 2 == 1)
    };
    if up {
        q + 1
    } else {
        q
    }
}

/// The magnitude bits nearest to `n` times two to the `e`.
#[inline(always)]
pub fn round(f: Format, n: u128, e: i32) -> (m: u64)
    requires
        f.wf(),
        bit_length(n as nat) <= 126,
        -10000 <= e <= 10000,
    ensures
        m == rounded(f, n as nat, e as int),
        m <= f.infinity(),
        f.infinity() < f.sign_weight(),
{
    proof {
        lemma_pow2_pos((f.precision - 1) as nat);
        assert((f.top + 1) * f.step() == f.top * f.step() + f.step()) by (nonlinear_arith);
        assert(f.top * f.step() >= 0) by (nonlinear_arith);
    }
    if n == 0 {
        return 0;
    }
    let l: u32 = bits_of(n);
    let spare: i32 = l as i32 - f.precision as i32;
    let d: i32 = if -e >= spare {
        -e
    } else {
        spare
    };
    proof {
        lemma_bit_length(n as nat);
        lemma_pow2_values();
        vstd::arithmetic::power2::lemma2_to64();
        lemma_pow2_unfold(127);
        if l < 126 {
            lemma_pow2_strictly_increases(l as nat, 126);
        }
        assert(n < pow2(126));
    }
    let q: u128 = if d >= 127 {
        proof {
            if d > 127 {
                lemma_pow2_strictly_increases(127, d as nat);
            }
            assert(2 * n < pow2(d as nat));
            vstd::arithmetic::div_mod::lemma_small_mod(n as nat, pow2(d as nat));
            vstd::arithmetic::div_mod::lemma_basic_div(n as int, pow2(d as nat) as int);
        }
        0
    } else if d >= 0 {
        shift_to_nearest(n, d as u32)
    } else {
        let w: u128 = word_power((-d) as u32) as u128;
        proof {
            lemma_pow2_adds(l as nat, (-d) as nat);
            assert(n * w <= pow2(l as nat) * pow2((-d) as nat)) by (nonlinear_arith)
                requires
                    n <= pow2(l as nat),
                    w == pow2((-d) as nat),
            ;
            lemma_pow2_strictly_increases((l - d) as nat, 64);
        }
        n * w
    };
    let step: u64 = word_power(f.precision - 1);
    let raised: i32 = e + d;
    proof {
        if f.precision < 53 {
            lemma_pow2_strictly_increases((f.precision - 1) as nat, 52);
        }
        assert(f.top * step <= 2047 * 0x10_0000_0000_0000) by (nonlinear_arith)
            requires
                f.top <= 2047,
                step <= 0x10_0000_0000_0000,
        ;
    }
    let infinity: u64 = f.top as u64 * step;
    if raised >= f.top as i32 {
        assert(raised * step >= f.top * step) by (nonlinear_arith)
            requires
                raised >= f.top,
                step >= 0,
        ;
        return infinity;
    }
    assert(0 <= raised * step <= f.top * step) by (nonlinear_arith)
        requires
            0 <= raised <= f.top,
            step >= 0,
    ;
    let bits: u128 = (raised as u64 * step) as u128 + q;
    if bits >= infinity as u128 {
        infinity
    } else {
        bits as u64
    }
}

/// Every encodable pattern of the format.
pub open spec fn encodable(f: Format, b: int) -> bool {
    0 <= b < 2 * f.sign_weight()
}

/// Magnitude bits under a sign.
pub open spec fn with_sign(f: Format, neg: bool, m: nat) -> nat {
    if neg {
        m + f.sign_weight()
    } else {
        m
    }
}

/// The one NaN that operations here produce.
pub open spec fn quiet(f: Format) -> nat {
    f.infinity() + f.step() / 2
}

/// The product of two patterns.
pub open spec fn product(f: Format, a: u64, b: u64) -> nat {
    let (m, n) = (magnitude(f, a), magnitude(f, b));
    if not_a_number(f, a) || not_a_number(f, b) {
        quiet(f)
    } else if !finite(f, a) || !finite(f, b) {
        if m == 0 || n == 0 {
            quiet(f)
        } else {
            with_sign(f, negative(f, a) != negative(f, b), f.infinity())
        }
    } else {
        with_sign(
            f,
            negative(f, a) != negative(f, b),
            rounded(
                f,
                significand(f, m) * significand(f, n),
                scale(f, m) + scale(f, n) - f.depth(),
            ),
        )
    }
}

/// The sum of two patterns.
pub open spec fn sum(f: Format, a: u64, b: u64) -> nat {
    if not_a_number(f, a) || not_a_number(f, b) {
        quiet(f)
    } else if !finite(f, a) && !finite(f, b) && negative(f, a) != negative(f, b) {
        quiet(f)
    } else if !finite(f, a) {
        a as nat
    } else if !finite(f, b) {
        b as nat
    } else {
        let s = value(f, a) + value(f, b);
        if s == 0 {
            with_sign(f, negative(f, a) && negative(f, b), 0)
        } else if s < 0 {
            with_sign(f, true, rounded(f, (-s) as nat, 0))
        } else {
            with_sign(f, false, rounded(f, s as nat, 0))
        }
    }
}

/// The pattern with its sign turned.
pub open spec fn turned(f: Format, b: u64) -> nat {
    with_sign(f, !negative(f, b), magnitude(f, b))
}

/// Where a pattern that is a number stands in the order of the reals.
pub open spec fn rank(f: Format, b: u64) -> int {
    if negative(f, b) {
        -(magnitude(f, b) as int)
    } else {
        magnitude(f, b) as int
    }
}

/// Is `a` less than `b`? Never so where either is not a number.
pub open spec fn below(f: Format, a: u64, b: u64) -> bool {
    !not_a_number(f, a) && !not_a_number(f, b) && rank(f, a) < rank(f, b)
}

pub proof fn lemma_nearest_scale(n: nat, den: nat, c: nat)
    requires
        den > 0,
        c > 0,
    ensures
        nearest(n * c, den * c) == nearest(n, den),
{
    let q = n / den;
    let r = n % den;
    vstd::arithmetic::div_mod::lemma_fundamental_div_mod(n as int, den as int);
    assert(n * c == q * (den * c) + r * c && 0 <= r * c < den * c) by (nonlinear_arith)
        requires
            n == den * q + r,
            0 <= r < den,
            c > 0,
    ;
    vstd::arithmetic::div_mod::lemma_fundamental_div_mod_converse(
        (n * c) as int,
        (den * c) as int,
        q as int,
        (r * c) as int,
    );
    assert(2 * (r * c) > den * c <==> 2 * r > den) by (nonlinear_arith)
        requires
            c > 0,
    ;
    assert(2 * (r * c) == den * c <==> 2 * r == den) by (nonlinear_arith)
        requires
            c > 0,
    ;
}

/// A multiple is its own nearest quotient.
pub proof fn lemma_nearest_exact(q: nat, den: nat)
    requires
        den > 0,
    ensures
        nearest(q * den, den) == q,
{
    vstd::arithmetic::div_mod::lemma_fundamental_div_mod_converse(
        (q * den) as int,
        den as int,
        q as int,
        0,
    );
}

/// Rounding sees the number, not how it is split into digits and exponent.
pub proof fn lemma_rounded_scale(f: Format, n: nat, k: nat, e: int)
    ensures
        rounded(f, n * pow2(k), e) == rounded(f, n, e + k),
{
    lemma_pow2_pos(k);
    if n > 0 {
        let l = bit_length(n);
        lemma_bit_length(n);
        lemma_pow2_adds((l - 1) as nat, k);
        lemma_pow2_adds(l, k);
        let w = pow2(k);
        assert(pow2((l - 1) as nat) * w <= n * w && n * w < pow2(l) * w && n * w > 0)
            by (nonlinear_arith)
            requires
                pow2((l - 1) as nat) <= n,
                n < pow2(l),
                n > 0,
                w > 0,
        ;
        lemma_bit_length_unique(n * w, l + k);
        let d1 = excess(f, n * w, e);
        let d2 = excess(f, n, e + k);
        assert(d1 == d2 + k);
        if d2 >= 0 {
            lemma_pow2_adds(d2 as nat, k);
            lemma_pow2_pos(d2 as nat);
            lemma_nearest_scale(n, pow2(d2 as nat), w);
        } else if d1 >= 0 {
            lemma_pow2_adds((-d2) as nat, d1 as nat);
            lemma_pow2_pos(d1 as nat);
            let c = n * pow2((-d2) as nat);
            assert(n * w == c * pow2(d1 as nat)) by (nonlinear_arith)
                requires
                    w == pow2((-d2) as nat) * pow2(d1 as nat),
                    c == n * pow2((-d2) as nat),
            ;
            lemma_nearest_exact(c, pow2(d1 as nat));
        } else {
            lemma_pow2_adds(k, (-d1) as nat);
            assert(n * w * pow2((-d1) as nat) == n * (w * pow2((-d1) as nat))) by (nonlinear_arith);
        }
    }
}

pub proof fn lemma_bit_length_below(n: nat, k: nat)
    requires
        n < pow2(k),
    ensures
        bit_length(n) <= k,
{
    lemma_bit_length(n);
    if bit_length(n) > k {
        if bit_length(n) - 1 > k {
            lemma_pow2_strictly_increases(k, (bit_length(n) - 1) as nat);
        }
    }
}

/// What the two fields of finite magnitude bits are good for.
pub proof fn lemma_fields(f: Format, m: nat)
    requires
        f.wf(),
        m < f.infinity(),
    ensures
        m == scale(f, m) * f.step() + significand(f, m),
        significand(f, m) < pow2(f.precision as nat),
        scale(f, m) < f.top,
        scale(f, m) > 0 ==> significand(f, m) >= f.step(),
        m == 0 <==> significand(f, m) == 0,
{
    let s = f.step();
    lemma_pow2_pos((f.precision - 1) as nat);
    lemma_pow2_unfold(f.precision as nat);
    vstd::arithmetic::div_mod::lemma_fundamental_div_mod(m as int, s as int);
    let x = m / s;
    assert(x < f.top) by (nonlinear_arith)
        requires
            m == s * x + m % s,
            m < f.top * s,
            m % s >= 0,
            s > 0,
    ;
    if x > 0 {
        assert((x - 1) * s + s == s * x) by (nonlinear_arith);
        assert(scale(f, m) == x - 1);
    } else {
        assert(s * x == 0 && x * s == 0) by (nonlinear_arith)
            requires
                x == 0,
        ;
        assert(scale(f, m) == x);
    }
}

/// A format holds its own numbers: rounding one changes nothing.
pub proof fn lemma_rounded_own(f: Format, m: nat)
    requires
        f.wf(),
        m < f.infinity(),
    ensures
        rounded(f, significand(f, m), scale(f, m) as int) == m,
        rounded(f, absolute(f, m), 0) == m,
{
    lemma_fields(f, m);
    let n = significand(f, m);
    let e = scale(f, m);
    lemma_rounded_scale(f, n, e, 0);
    if n > 0 {
        lemma_bit_length_below(n, f.precision as nat);
        lemma_bit_length(n);
        let l = bit_length(n);
        if e > 0 && l < f.precision {
            if l < f.precision - 1 {
                lemma_pow2_strictly_increases(l, (f.precision - 1) as nat);
            }
            assert(false);
        }
        assert(excess(f, n, e as int) == 0);
        vstd::arithmetic::power2::lemma2_to64();
        lemma_nearest_exact(n, 1);
    }
}

/// Adding or taking away something far below the last place of a normal
/// number leaves the number.
proof fn lemma_far(f: Format, m: nat, low: nat, diff: nat)
    requires
        f.wf(),
        m < f.infinity(),
        diff > 60,
        scale(f, m) >= diff,
        low < pow2(f.precision as nat),
    ensures
        rounded(f, significand(f, m) * pow2(diff) + low, scale(f, m) - diff) == m,
        rounded(f, (significand(f, m) * pow2(diff) - low) as nat, scale(f, m) - diff) == m,
        low < significand(f, m) * pow2(diff),
{
    lemma_fields(f, m);
    let n = significand(f, m);
    let w = pow2(diff);
    let e = scale(f, m) - diff;
    let p = f.precision as nat;
    // Quarter of the weight still exceeds the low part.
    lemma_pow2_unfold(diff);
    lemma_pow2_unfold((diff - 1) as nat);
    let quarter = pow2((diff - 2) as nat);
    if p < diff - 2 {
        lemma_pow2_strictly_increases(p, (diff - 2) as nat);
    }
    assert(low < quarter && w == 4 * quarter);
    lemma_pow2_unfold(p);
    lemma_pow2_adds((p - 1) as nat, diff);
    lemma_pow2_adds(p, diff);
    let s = f.step();
    assert(s * w <= n * w && n * w + w <= pow2(p) * w && n * w >= w) by (nonlinear_arith)
        requires
            1 <= s <= n,
            n + 1 <= pow2(p),
            w > 0,
    ;
    // Adding.
    lemma_bit_length_unique(n * w + low, p + diff);
    vstd::arithmetic::div_mod::lemma_fundamental_div_mod_converse(
        (n * w + low) as int,
        w as int,
        n as int,
        low as int,
    );
    assert(excess(f, n * w + low, e) == diff);
    assert((e + diff) * s == scale(f, m) * s);
    // Taking away.
    if low == 0 {
    } else if n > s {
        assert(s * w + w <= n * w) by (nonlinear_arith)
            requires
                s + 1 <= n,
                w > 0,
        ;
        let t = (n * w - low) as nat;
        lemma_bit_length_unique(t, p + diff);
        assert(t == (n - 1) * w + (w - low)) by (nonlinear_arith)
            requires
                t == n * w - low,
        ;
        vstd::arithmetic::div_mod::lemma_fundamental_div_mod_converse(
            t as int,
            w as int,
            n - 1,
            w - low,
        );
        assert(excess(f, t, e) == diff);
    } else {
        let h = 2 * quarter;
        let t = (n * w - low) as nat;
        lemma_pow2_adds((p - 2) as nat, diff);
        lemma_pow2_unfold((p - 1) as nat);
        assert(n * w == 2 * (pow2((p - 2) as nat) * w) && pow2((p - 2) as nat) * w >= w)
            by (nonlinear_arith)
            requires
                n == 2 * pow2((p - 2) as nat),
                n >= 2,
                w > 0,
        ;
        lemma_bit_length_unique(t, (p + diff - 1) as nat);
        assert(t == (2 * n - 1) * h + (h - low)) by (nonlinear_arith)
            requires
                t == n * w - low,
                w == 2 * h,
        ;
        assert(pow2((diff - 1) as nat) == h);
        vstd::arithmetic::div_mod::lemma_fundamental_div_mod_converse(
            t as int,
            h as int,
            2 * n - 1,
            h - low,
        );
        assert(excess(f, t, e) == diff - 1);
        assert((e + diff - 1) * s + 2 * n == scale(f, m) * s + n) by (nonlinear_arith)
            requires
                n == s,
                e + diff == scale(f, m),
        ;
        assert(nearest(t, h) == 2 * n);
    }
}

/// The weight of one step of the exponent field.
#[inline(always)]
fn step_of(f: Format) -> (s: u64)
    requires
        f.wf(),
    ensures
        s == f.step(),
        1 <= s <= 0x10_0000_0000_0000,
{
    proof {
        lemma_pow2_values();
        lemma_pow2_pos((f.precision - 1) as nat);
        if f.precision < 53 {
            lemma_pow2_strictly_increases((f.precision - 1) as nat, 52);
        }
    }
    word_power(f.precision - 1)
}

/// A pattern taken apart.
struct Parts {
    neg: bool,
    mag: u64,
    sig: u64,
    exp: u32,
    step: u64,
    infinity: u64,
    sign: u64,
}

impl Parts {
    spec fn of(self, f: Format, b: u64) -> bool {
        &&& self.neg == negative(f, b)
        &&& self.mag == magnitude(f, b)
        &&& self.sig == significand(f, self.mag as nat)
        &&& self.exp == scale(f, self.mag as nat)
        &&& self.step == f.step()
        &&& self.infinity == f.infinity()
        &&& self.sign == f.sign_weight()
        &&& self.infinity + self.step == self.sign
        &&& self.sign <= 0x8000_0000_0000_0000
        &&& 1 <= self.step <= 0x10_0000_0000_0000
        &&& self.mag < self.sign
    }
}

#[inline(always)]
fn apart(f: Format, b: u64) -> (p: Parts)
    requires
        f.wf(),
        encodable(f, b as int),
    ensures
        p.of(f, b),
        p.exp <= 2047,
{
    let step: u64 = step_of(f);
    assert(f.top * step <= 2047 * 0x10_0000_0000_0000) by (nonlinear_arith)
        requires
            f.top <= 2047,
            step <= 0x10_0000_0000_0000,
    ;
    assert((f.top + 1) * step == f.top * step + step) by (nonlinear_arith);
    let infinity: u64 = f.top as u64 * step;
    let sign: u64 = infinity + step;
    let neg: bool = b >= sign;
    let mag: u64 = if neg {
        b - sign
    } else {
        b
    };
    let shift: u64 = (f.precision - 1) as u64;
    proof {
        vstd::bits::lemma_u64_shr_is_div(mag, shift);
        vstd::arithmetic::div_mod::lemma_fundamental_div_mod(mag as int, step as int);
    }
    let field: u64 = mag >> shift;
    assert(field * step == step * field) by (nonlinear_arith);
    let frac: u64 = mag - field * step;
    assert(field <= f.top) by (nonlinear_arith)
        requires
            field == mag / step,
            mag < (f.top + 1) * step,
            step > 0,
    ;
    let (sig, exp): (u64, u32) = if field == 0 {
        (frac, 0)
    } else {
        (frac + step, (field - 1) as u32)
    };
    Parts { neg, mag, sig, exp, step, infinity, sign }
}

/// The product of two patterns.
#[inline(always)]
pub fn multiply(f: Format, a: u64, b: u64) -> (r: u64)
    requires
        f.wf(),
        encodable(f, a as int),
        encodable(f, b as int),
    ensures
        r == product(f, a, b),
        encodable(f, r as int),
{
    let x: Parts = apart(f, a);
    let y: Parts = apart(f, b);
    if x.mag > x.infinity || y.mag > x.infinity {
        return x.infinity + x.step / 2;
    }
    let neg: bool = x.neg != y.neg;
    let m: u64 = if x.mag == x.infinity || y.mag == x.infinity {
        if x.mag == 0 || y.mag == 0 {
            return x.infinity + x.step / 2;
        }
        x.infinity
    } else {
        proof {
            lemma_fields(f, x.mag as nat);
            lemma_fields(f, y.mag as nat);
            lemma_pow2_values();
            if f.precision < 53 {
                lemma_pow2_strictly_increases(f.precision as nat, 53);
            }
            assert(x.sig * y.sig < 0x20_0000_0000_0000 * 0x20_0000_0000_0000) by (nonlinear_arith)
                requires
                    0 <= x.sig < 0x20_0000_0000_0000,
                    0 <= y.sig < 0x20_0000_0000_0000,
            ;
            lemma_pow2_adds(53, 53);
            lemma_bit_length_below((x.sig * y.sig) as nat, 106);
        }
        let depth: i32 = (f.top / 2 + f.precision - 2) as i32;
        round(f, x.sig as u128 * y.sig as u128, x.exp as i32 + y.exp as i32 - depth)
    };
    if neg {
        m + x.sign
    } else {
        m
    }
}

/// The exact sum of two numbers, `hi` the one of larger scale.
proof fn lemma_aligned(f: Format, hi: u64, lo: u64)
    requires
        f.wf(),
        finite(f, hi),
        finite(f, lo),
        scale(f, magnitude(f, hi)) >= scale(f, magnitude(f, lo)),
    ensures
        ({
            let (m, n) = (magnitude(f, hi), magnitude(f, lo));
            let diff = (scale(f, m) - scale(f, n)) as nat;
            absolute(f, m) == significand(f, m) * pow2(diff) * pow2(scale(f, n))
        }),
{
    let (m, n) = (magnitude(f, hi), magnitude(f, lo));
    let diff = (scale(f, m) - scale(f, n)) as nat;
    lemma_pow2_adds(diff, scale(f, n));
    assert(significand(f, m) * (pow2(diff) * pow2(scale(f, n))) == significand(f, m) * pow2(diff)
        * pow2(scale(f, n))) by (nonlinear_arith);
}

/// Two finite patterns brought to one exponent, and the sign and digits of
/// their sum.
spec fn aligned_sum(f: Format, a: u64, b: u64, u: nat, v: nat) -> (bool, nat) {
    if negative(f, a) == negative(f, b) {
        (if u + v == 0 { negative(f, a) && negative(f, b) } else { negative(f, a) }, u + v)
    } else if u > v {
        (negative(f, a), (u - v) as nat)
    } else if v > u {
        (negative(f, b), (v - u) as nat)
    } else {
        (false, 0)
    }
}

proof fn lemma_aligned_sum(f: Format, a: u64, b: u64, u: nat, v: nat, e: nat)
    requires
        f.wf(),
        finite(f, a),
        finite(f, b),
        absolute(f, magnitude(f, a)) == u * pow2(e),
        absolute(f, magnitude(f, b)) == v * pow2(e),
    ensures
        ({
            let (neg, n) = aligned_sum(f, a, b, u, v);
            sum(f, a, b) == with_sign(f, neg, rounded(f, n, e as int))
        }),
{
    let w = pow2(e);
    lemma_pow2_pos(e);
    let (neg, n) = aligned_sum(f, a, b, u, v);
    lemma_rounded_scale(f, n, e, 0);
    assert((u + v) * w == u * w + v * w && (u - v) * w == u * w - v * w && (v - u) * w == v * w - u
        * w) by (nonlinear_arith);
    if n == 0 {
        assert(n * w == 0) by (nonlinear_arith)
            requires
                n == 0,
        ;
    } else {
        assert(n * w > 0) by (nonlinear_arith)
            requires
                n > 0,
                w > 0,
        ;
    }
    assert(value(f, a) + value(f, b) == if neg { -(n * w) } else { (n * w) as int });
}

/// The digits that an aligned sum can reach fit the machine word.
proof fn lemma_aligned_bound(sig: nat, weight: nat, diff: nat)
    requires
        sig < pow2(53),
        weight == pow2(diff),
        diff <= 60,
    ensures
        sig * weight + pow2(53) < pow2(114),
        pow2(114) < pow2(126) < u128::MAX,
{
    lemma_pow2_values();
    lemma_pow2_pos(diff);
    if diff < 60 {
        lemma_pow2_strictly_increases(diff, 60);
    }
    lemma_pow2_adds(53, 60);
    assert(sig * weight <= pow2(53) * pow2(60)) by (nonlinear_arith)
        requires
            sig < pow2(53),
            0 < weight <= pow2(60),
    ;
    lemma_pow2_strictly_increases(53, 113);
    lemma_pow2_unfold(114);
    lemma_pow2_strictly_increases(114, 126);
    lemma_pow2_unfold(127);
}

/// The sum of two finite patterns, `a` the one of larger scale.
#[inline(always)]
fn add_aligned(f: Format, a: u64, b: u64, x: Parts, y: Parts) -> (r: u64)
    requires
        f.wf(),
        encodable(f, a as int),
        encodable(f, b as int),
        x.of(f, a),
        y.of(f, b),
        x.exp <= 2047,
        finite(f, a),
        finite(f, b),
        scale(f, magnitude(f, a)) >= scale(f, magnitude(f, b)),
    ensures
        r == sum(f, a, b),
        encodable(f, r as int),
{
    let diff: u32 = x.exp - y.exp;
    proof {
        lemma_fields(f, x.mag as nat);
        lemma_fields(f, y.mag as nat);
        lemma_pow2_values();
        if f.precision < 53 {
            lemma_pow2_strictly_increases(f.precision as nat, 53);
        }
        lemma_aligned(f, a, b);
        lemma_aligned_sum(
            f,
            a,
            b,
            x.sig as nat * pow2(diff as nat),
            y.sig as nat,
            y.exp as nat,
        );
    }
    if diff > 60 {
        proof {
            lemma_far(f, x.mag as nat, y.sig as nat, diff as nat);
        }
        return a;
    }
    let weight: u128 = word_power(diff) as u128;
    proof {
        lemma_aligned_bound(x.sig as nat, weight as nat, diff as nat);
    }
    let u: u128 = x.sig as u128 * weight;
    let v: u128 = y.sig as u128;
    let (neg, n): (bool, u128) = if x.neg == y.neg {
        (x.neg, u + v)
    } else if u > v {
        (x.neg, u - v)
    } else if v > u {
        (y.neg, v - u)
    } else {
        (false, 0)
    };
    proof {
        lemma_bit_length_below(n as nat, 114);
    }
    let m: u64 = round(f, n, y.exp as i32);
    if neg {
        m + x.sign
    } else {
        m
    }
}

/// The sum of two patterns.
#[inline(always)]
pub fn plus(f: Format, a: u64, b: u64) -> (r: u64)
    requires
        f.wf(),
        encodable(f, a as int),
        encodable(f, b as int),
    ensures
        r == sum(f, a, b),
        encodable(f, r as int),
{
    let x: Parts = apart(f, a);
    let y: Parts = apart(f, b);
    if x.mag > x.infinity || y.mag > x.infinity {
        return x.infinity + x.step / 2;
    }
    if x.mag == x.infinity {
        return if y.mag == x.infinity && x.neg != y.neg {
            x.infinity + x.step / 2
        } else {
            a
        };
    }
    if y.mag == x.infinity {
        return b;
    }
    if x.exp >= y.exp {
        add_aligned(f, a, b, x, y)
    } else {
        add_aligned(f, b, a, y, x)
    }
}

/// The pattern with its sign turned.
#[inline(always)]
pub fn negate(f: Format, a: u64) -> (r: u64)
    requires
        f.wf(),
        encodable(f, a as int),
    ensures
        r == turned(f, a),
        encodable(f, r as int),
{
    let x: Parts = apart(f, a);
    if x.neg {
        x.mag
    } else {
        x.mag + x.sign
    }
}

/// Is `a` less than `b`?
#[inline(always)]
pub fn less(f: Format, a: u64, b: u64) -> (r: bool)
    requires
        f.wf(),
        encodable(f, a as int),
        encodable(f, b as int),
    ensures
        r == below(f, a, b),
{
    let x: Parts = apart(f, a);
    let y: Parts = apart(f, b);
    if x.mag > x.infinity || y.mag > x.infinity {
        false
    } else if x.neg && y.neg {
        y.mag < x.mag
    } else if x.neg {
        x.mag > 0 || y.mag > 0
    } else if y.neg {
        false
    } else {
        x.mag < y.mag
    }
}

/// Is `num / den` below two to the `k`?
pub open spec fn ratio_below(num: nat, den: nat, k: int) -> bool {
    if k >= 0 {
        num < den * pow2(k as nat)
    } else {
        num * pow2((-k) as nat) < den
    }
}

/// The least power of two that exceeds `num / den`.
pub open spec fn ratio_order(num: nat, den: nat) -> int {
    let k = bit_length(num) - bit_length(den);
    if ratio_below(num, den, k) {
        k
    } else {
        k + 1
    }
}

/// The magnitude bits nearest to `num / den` times two to the `e`.
pub open spec fn rounded_ratio(f: Format, num: nat, den: nat, e: int) -> nat {
    if num == 0 {
        0
    } else {
        let spare = ratio_order(num, den) - f.precision;
        let d = if -e >= spare {
            -e
        } else {
            spare
        };
        let q = if d >= 0 {
            nearest(num, den * pow2(d as nat))
        } else {
            nearest(num * pow2((-d) as nat), den)
        };
        let bits = (e + d) * f.step() + q;
        if bits >= f.infinity() {
            f.infinity()
        } else {
            bits as nat
        }
    }
}

/// A quotient never passes infinity.
pub proof fn lemma_ratio_bound(f: Format, num: nat, den: nat, e: int)
    requires
        f.wf(),
    ensures
        rounded_ratio(f, num, den, e) <= f.infinity(),
{
    if num > 0 {
        let spare = ratio_order(num, den) - f.precision;
        let d = if -e >= spare {
            -e
        } else {
            spare
        };
        assert((e + d) * f.step() >= 0) by (nonlinear_arith)
            requires
                e + d >= 0,
        ;
    }
}

/// The quotient of two patterns.
pub open spec fn quotient(f: Format, a: u64, b: u64) -> nat {
    let (m, n) = (magnitude(f, a), magnitude(f, b));
    let neg = negative(f, a) != negative(f, b);
    if not_a_number(f, a) || not_a_number(f, b) {
        quiet(f)
    } else if !finite(f, a) {
        if finite(f, b) {
            with_sign(f, neg, f.infinity())
        } else {
            quiet(f)
        }
    } else if !finite(f, b) {
        with_sign(f, neg, 0)
    } else if n == 0 {
        if m == 0 {
            quiet(f)
        } else {
            with_sign(f, neg, f.infinity())
        }
    } else {
        with_sign(
            f,
            neg,
            rounded_ratio(
                f,
                significand(f, m),
                significand(f, n),
                scale(f, m) - scale(f, n) + f.depth(),
            ),
        )
    }
}

/// `n` divided by `den`, to the nearest integer, ties to even.
fn nearest_of(n: u128, den: u128) -> (q: u128)
    requires
        0 < den <= pow2(126),
        n < pow2(126),
    ensures
        q == nearest(n as nat, den as nat),
{
    proof {
        lemma_pow2_values();
        lemma_pow2_unfold(127);
    }
    let q: u128 = n / den;
    let r: u128 = n % den;
    assert(q <= n) by (nonlinear_arith)
        requires
            q == n / den,
            den > 0,
    ;
    if 2 * r > den || (2 * r == den && q % 2 == 1) {
        q + 1
    } else {
        q
    }
}

proof fn lemma_power_bounds(k: nat)
    requires
        k <= 126,
    ensures
        1 <= pow2(k) <= pow2(126),
        k <= 53 ==> pow2(k) <= pow2(53),
{
    lemma_pow2_pos(k);
    if k < 126 {
        lemma_pow2_strictly_increases(k, 126);
    }
    if k < 53 {
        lemma_pow2_strictly_increases(k, 53);
    }
}

/// Scaling a number of few digits stays within the word.
proof fn lemma_scaled_bound(n: nat, k: nat)
    requires
        n < pow2(53),
        k <= 72,
    ensures
        n * pow2(k) < pow2(126),
        0 <= n * pow2(k),
{
    lemma_pow2_adds(53, k);
    lemma_pow2_pos(k);
    assert(n * pow2(k) < pow2(53) * pow2(k)) by (nonlinear_arith)
        requires
            n < pow2(53),
            pow2(k) > 0,
    ;
    if k < 73 {
        lemma_pow2_strictly_increases(53 + k, 126);
    }
}

/// The least power of two that exceeds `num / den`.
fn order_of(num: u64, den: u64) -> (k: i32)
    requires
        0 < num < pow2(53),
        0 < den < pow2(53),
    ensures
        k == ratio_order(num as nat, den as nat),
        -53 <= k <= 54,
{
    proof {
        lemma_pow2_values();
        lemma_pow2_unfold(127);
        lemma_bit_length_below(num as nat, 53);
        lemma_bit_length_below(den as nat, 53);
        lemma_bit_length(num as nat);
        lemma_bit_length(den as nat);
    }
    let k: i32 = bits_of(num as u128) as i32 - bits_of(den as u128) as i32;
    let low: bool = if k >= 0 {
        proof {
            lemma_scaled_bound(den as nat, k as nat);
        }
        (num as u128) < den as u128 * power(k as u32)
    } else {
        proof {
            lemma_scaled_bound(num as nat, (-k) as nat);
        }
        num as u128 * power((-k) as u32) < den as u128
    };
    if low {
        k
    } else {
        k + 1
    }
}

/// The order bounds the ratio from above.
pub proof fn lemma_ratio_order(num: nat, den: nat)
    requires
        num > 0,
        den > 0,
    ensures
        ratio_below(num, den, ratio_order(num, den)),
{
    let (a, b) = (bit_length(num), bit_length(den));
    lemma_bit_length(num);
    lemma_bit_length(den);
    let k = a - b + 1;
    if k >= 0 {
        lemma_pow2_adds((b - 1) as nat, k as nat);
        lemma_pow2_pos(k as nat);
        assert(pow2((b - 1) as nat) * pow2(k as nat) <= den * pow2(k as nat)) by (nonlinear_arith)
            requires
                pow2((b - 1) as nat) <= den,
                pow2(k as nat) > 0,
        ;
    } else {
        lemma_pow2_adds(a, (-k) as nat);
        lemma_pow2_pos((-k) as nat);
        assert(num * pow2((-k) as nat) < pow2(a) * pow2((-k) as nat)) by (nonlinear_arith)
            requires
                num < pow2(a),
                pow2((-k) as nat) > 0,
        ;
    }
}

/// With `d` low digits dropped the quotient still fits.
proof fn lemma_ratio_lift(f: Format, num: nat, den: nat, d: int)
    requires
        f.wf(),
        0 < num < pow2(53),
        0 < den < pow2(53),
        d < 0,
        d >= ratio_order(num, den) - f.precision,
    ensures
        -d <= 106,
        num * pow2((-d) as nat) < pow2(106),
{
    let k = ratio_order(num, den);
    let p = f.precision as nat;
    lemma_ratio_order(num, den);
    lemma_bit_length_below(num, 53);
    lemma_bit_length_below(den, 53);
    lemma_bit_length(num);
    lemma_bit_length(den);
    let t = (p - k) as nat;
    lemma_pow2_pos(p);
    // num * 2^(p - k) < den * 2^p
    if k >= 0 {
        lemma_pow2_adds(t, k as nat);
        lemma_pow2_pos(t);
        assert(num * pow2(t) < den * pow2(p)) by (nonlinear_arith)
            requires
                num < den * pow2(k as nat),
                pow2(p) == pow2(t) * pow2(k as nat),
                pow2(t) > 0,
        ;
    } else {
        lemma_pow2_adds(p, (-k) as nat);
        assert(num * pow2(t) < den * pow2(p)) by (nonlinear_arith)
            requires
                num * pow2((-k) as nat) < den,
                pow2(t) == pow2(p) * pow2((-k) as nat),
                pow2(p) > 0,
        ;
    }
    lemma_power_bounds(p);
    lemma_pow2_adds(53, 53);
    assert(den * pow2(p) <= pow2(53) * pow2(53)) by (nonlinear_arith)
        requires
            den < pow2(53),
            0 < pow2(p) <= pow2(53),
    ;
    if -d < t {
        lemma_pow2_strictly_increases((-d) as nat, t);
    }
    assert(num * pow2((-d) as nat) <= num * pow2(t)) by (nonlinear_arith)
        requires
            pow2((-d) as nat) <= pow2(t),
    ;
}

/// The magnitude bits nearest to `num / den` times two to the `e`.
fn round_ratio(f: Format, num: u64, den: u64, e: i32) -> (m: u64)
    requires
        f.wf(),
        num < pow2(53),
        0 < den < pow2(53),
        -10000 <= e <= 10000,
    ensures
        m == rounded_ratio(f, num as nat, den as nat, e as int),
        m <= f.infinity(),
{
    proof {
        lemma_pow2_values();
        lemma_pow2_unfold(127);
        lemma_pow2_pos((f.precision - 1) as nat);
    }
    if num == 0 {
        assert(f.infinity() >= 0);
        return 0;
    }
    let spare: i32 = order_of(num, den) - f.precision as i32;
    let d: i32 = if -e >= spare {
        -e
    } else {
        spare
    };
    let q: u128 = if d > 60 {
        proof {
            lemma_pow2_strictly_increases(60, d as nat);
            lemma_pow2_strictly_increases(54, 60);
            lemma_pow2_unfold(54);
            assert(den * pow2(d as nat) >= pow2(d as nat)) by (nonlinear_arith)
                requires
                    den >= 1,
                    pow2(d as nat) > 0,
            ;
            vstd::arithmetic::div_mod::lemma_small_mod(num as nat, den as nat * pow2(d as nat));
            vstd::arithmetic::div_mod::lemma_basic_div(
                num as int,
                (den * pow2(d as nat)) as int,
            );
        }
        0
    } else if d >= 0 {
        proof {
            lemma_scaled_bound(den as nat, d as nat);
            lemma_pow2_strictly_increases(53, 126);
            lemma_pow2_pos(d as nat);
            assert(den * pow2(d as nat) > 0) by (nonlinear_arith)
                requires
                    den >= 1,
                    pow2(d as nat) > 0,
            ;
        }
        nearest_of(num as u128, den as u128 * power(d as u32))
    } else {
        proof {
            lemma_ratio_lift(f, num as nat, den as nat, d as int);
            lemma_pow2_strictly_increases(106, 126);
            lemma_pow2_strictly_increases(53, 126);
        }
        nearest_of(num as u128 * power((-d) as u32), den as u128)
    };
    assert(q <= pow2(126)) by {
        lemma_pow2_strictly_increases(53, 126);
        lemma_pow2_pos(126);
        if 0 <= d <= 60 {
            lemma_quotient_small(num as nat, den as nat * pow2(d as nat));
        } else if d < 0 {
            lemma_quotient_small(num as nat * pow2((-d) as nat), den as nat);
        }
    }
    let step: u64 = step_of(f);
    assert(f.top * step <= 2047 * 0x10_0000_0000_0000) by (nonlinear_arith)
        requires
            f.top <= 2047,
            step <= 0x10_0000_0000_0000,
    ;
    let infinity: u64 = f.top as u64 * step;
    let raised: i32 = e + d;
    if raised >= f.top as i32 {
        assert(raised * step >= f.top * step) by (nonlinear_arith)
            requires
                raised >= f.top,
                step >= 0,
        ;
        return infinity;
    }
    assert(0 <= raised * step <= f.top * step) by (nonlinear_arith)
        requires
            0 <= raised <= f.top,
            step >= 0,
    ;
    let bits: u128 = (raised as u64 * step) as u128 + q;
    if bits >= infinity as u128 {
        infinity
    } else {
        bits as u64
    }
}

proof fn lemma_quotient_small(n: nat, den: nat)
    requires
        den > 0,
    ensures
        nearest(n, den) <= n + 1,
{
    assert(n / den <= n) by (nonlinear_arith)
        requires
            den > 0,
            n >= 0,
    ;
}

/// The quotient of two patterns.
pub fn divide(f: Format, a: u64, b: u64) -> (r: u64)
    requires
        f.wf(),
        encodable(f, a as int),
        encodable(f, b as int),
    ensures
        r == quotient(f, a, b),
        encodable(f, r as int),
{
    let x: Parts = apart(f, a);
    let y: Parts = apart(f, b);
    if x.mag > x.infinity || y.mag > x.infinity {
        return x.infinity + x.step / 2;
    }
    let neg: bool = x.neg != y.neg;
    let m: u64 = if x.mag == x.infinity {
        if y.mag == x.infinity {
            return x.infinity + x.step / 2;
        }
        x.infinity
    } else if y.mag == x.infinity {
        0
    } else if y.mag == 0 {
        if x.mag == 0 {
            return x.infinity + x.step / 2;
        }
        x.infinity
    } else {
        proof {
            lemma_fields(f, x.mag as nat);
            lemma_fields(f, y.mag as nat);
            lemma_power_bounds(f.precision as nat);
        }
        let depth: i32 = (f.top / 2 + f.precision - 2) as i32;
        round_ratio(f, x.sig, y.sig, x.exp as i32 - y.exp as i32 + depth)
    };
    if neg {
        m + x.sign
    } else {
        m
    }
}

/// The digits that rounding keeps of `n` times two to the `e`.
pub open spec fn kept(f: Format, n: nat, e: int) -> nat {
    let d = excess(f, n, e);
    if d >= 0 {
        nearest(n, pow2(d as nat))
    } else {
        n * pow2((-d) as nat)
    }
}

/// What a scale and a significand stand for, packed into magnitude bits.
pub proof fn lemma_packed(f: Format, t: nat, q: nat)
    requires
        f.wf(),
        q <= 2 * f.step(),
        t > 0 ==> q >= f.step(),
    ensures
        absolute(f, t * f.step() + q) == q * pow2(t),
{
    let s = f.step();
    lemma_pow2_pos((f.precision - 1) as nat);
    let bits = t * s + q;
    lemma_pow2_unfold(t + 1);
    if q < s {
        assert(t * s == 0) by (nonlinear_arith)
            requires
                t == 0,
        ;
        vstd::arithmetic::div_mod::lemma_fundamental_div_mod_converse(
            bits as int,
            s as int,
            0,
            q as int,
        );
    } else if q < 2 * s {
        assert(bits == (t + 1) * s + (q - s)) by (nonlinear_arith)
            requires
                bits == t * s + q,
        ;
        vstd::arithmetic::div_mod::lemma_fundamental_div_mod_converse(
            bits as int,
            s as int,
            t as int + 1,
            q - s,
        );
    } else {
        assert(bits == (t + 2) * s) by (nonlinear_arith)
            requires
                bits == t * s + q,
                q == 2 * s,
        ;
        vstd::arithmetic::div_mod::lemma_fundamental_div_mod_converse(
            bits as int,
            s as int,
            t as int + 2,
            0,
        );
        assert(s * pow2(t + 1) == q * pow2(t)) by (nonlinear_arith)
            requires
                pow2(t + 1) == 2 * pow2(t),
                q == 2 * s,
        ;
    }
}

/// What a rounded number is worth: the digits kept, at their exponent.
pub proof fn lemma_rounded_value(f: Format, n: nat, e: int)
    requires
        f.wf(),
        n > 0,
        rounded(f, n, e) < f.infinity(),
    ensures
        e + excess(f, n, e) >= 0,
        absolute(f, rounded(f, n, e)) == kept(f, n, e) * pow2((e + excess(f, n, e)) as nat),
        kept(f, n, e) <= pow2(f.precision as nat),
{
    let d = excess(f, n, e);
    let q = kept(f, n, e);
    let s = f.step();
    let p = f.precision as nat;
    let l = bit_length(n);
    let t = (e + d) as nat;
    lemma_bit_length(n);
    lemma_pow2_pos((p - 1) as nat);
    lemma_pow2_unfold(p);
    // Bounds on the digits kept.
    if d >= 0 {
        let w = pow2(d as nat);
        lemma_pow2_pos(d as nat);
        lemma_pow2_adds(p, d as nat);
        if l < p + d {
            lemma_pow2_strictly_increases(l, p + d as nat);
        }
        vstd::arithmetic::div_mod::lemma_fundamental_div_mod(n as int, w as int);
        let x = n / w;
        assert(x < pow2(p)) by (nonlinear_arith)
            requires
                n == w * x + n % w,
                n % w >= 0,
                n < pow2(p) * w,
                w > 0,
        ;
        if t > 0 {
            lemma_pow2_adds((p - 1) as nat, d as nat);
            assert(x >= s) by (nonlinear_arith)
                requires
                    n == w * x + n % w,
                    n % w < w,
                    n >= s * w,
                    w > 0,
            ;
        }
    } else {
        let w = pow2((-d) as nat);
        lemma_pow2_pos((-d) as nat);
        lemma_pow2_adds(l, (-d) as nat);
        assert(n * w < pow2(l) * w) by (nonlinear_arith)
            requires
                n < pow2(l),
                w > 0,
        ;
        if l - d < p {
            lemma_pow2_strictly_increases((l - d) as nat, p);
        }
        if t > 0 {
            lemma_pow2_adds((l - 1) as nat, (-d) as nat);
            assert(n * w >= pow2((l - 1) as nat) * w) by (nonlinear_arith)
                requires
                    n >= pow2((l - 1) as nat),
                    w > 0,
            ;
        }
    }
    assert(rounded(f, n, e) == t * s + q);
    lemma_packed(f, t, q);
}

/// A number that fits the precision is held exactly.
pub proof fn lemma_rounded_exact(f: Format, n: nat, e: nat)
    requires
        f.wf(),
        n < pow2(f.precision as nat),
        e + 1 < f.top,
    ensures
        rounded(f, n, e as int) < f.infinity(),
        absolute(f, rounded(f, n, e as int)) == n * pow2(e),
{
    let p = f.precision as nat;
    lemma_pow2_pos((p - 1) as nat);
    lemma_pow2_unfold(p);
    assert(f.top * f.step() > 0) by (nonlinear_arith)
        requires
            f.top > 0,
            f.step() > 0,
    ;
    if n == 0 {
        vstd::arithmetic::div_mod::lemma_basic_div(0, f.step() as int);
        vstd::arithmetic::div_mod::lemma_small_mod(0, f.step());
        lemma_pow2_pos(0);
        assert(0 * pow2(0) == 0 && 0 * pow2(e) == 0) by (nonlinear_arith);
    } else {
        lemma_bit_length_below(n, p);
        let d = excess(f, n, e as int);
        assert(d <= 0);
        let q = kept(f, n, e as int);
        lemma_pow2_pos(0);
        vstd::arithmetic::power2::lemma2_to64();
        if d == 0 {
            lemma_nearest_exact(n, 1);
        }
        let w = pow2((-d) as nat);
        assert(q == n * w);
        lemma_bit_length(n);
        lemma_pow2_pos((-d) as nat);
        lemma_pow2_adds(bit_length(n), (-d) as nat);
        assert(n * w < pow2(bit_length(n)) * w) by (nonlinear_arith)
            requires
                n < pow2(bit_length(n)),
                w > 0,
        ;
        if bit_length(n) - d < p {
            lemma_pow2_strictly_increases((bit_length(n) - d) as nat, p);
        }
        let t = (e + d) as nat;
        assert(t * f.step() + q < f.top * f.step()) by (nonlinear_arith)
            requires
                t + 2 <= f.top,
                q < 2 * f.step(),
        ;
        assert(rounded(f, n, e as int) == t * f.step() + q);
        lemma_rounded_value(f, n, e as int);
        lemma_pow2_adds((-d) as nat, t);
        assert(n * w * pow2(t) == n * (w * pow2(t))) by (nonlinear_arith);
    }
}

/// A finite product, read off the operands' values.
pub proof fn lemma_product_value(f: Format, m: nat, n: nat)
    ensures
        rounded(
            f,
            significand(f, m) * significand(f, n),
            scale(f, m) + scale(f, n) - f.depth(),
        ) == rounded(f, absolute(f, m) * absolute(f, n), -(f.depth() as int)),
{
    let (x, y) = (significand(f, m), significand(f, n));
    let (a, b) = (scale(f, m), scale(f, n));
    lemma_rounded_scale(f, x * y, a + b, -(f.depth() as int));
    lemma_pow2_adds(a, b);
    assert(x * y * (pow2(a) * pow2(b)) == (x * pow2(a)) * (y * pow2(b))) by (nonlinear_arith);
}

/// Is `a` at most `b`? Never so where either is not a number.
pub open spec fn at_most(f: Format, a: u64, b: u64) -> bool {
    !not_a_number(f, a) && !not_a_number(f, b) && rank(f, a) <= rank(f, b)
}

/// Is `a` at most `b`?
#[inline(always)]
pub fn not_above(f: Format, a: u64, b: u64) -> (r: bool)
    requires
        f.wf(),
        encodable(f, a as int),
        encodable(f, b as int),
    ensures
        r == at_most(f, a, b),
{
    let x: Parts = apart(f, a);
    let y: Parts = apart(f, b);
    if x.mag > x.infinity || y.mag > x.infinity {
        false
    } else if x.neg && y.neg {
        y.mag <= x.mag
    } else if x.neg {
        true
    } else if y.neg {
        x.mag == 0 && y.mag == 0
    } else {
        x.mag <= y.mag
    }
}

/// The integer part of a pattern, held to `0..=cap`; zero for NaN.
pub open spec fn truncated(f: Format, b: u64, cap: nat) -> nat {
    if not_a_number(f, b) || negative(f, b) {
        0
    } else if !finite(f, b) {
        cap
    } else {
        let n = absolute(f, magnitude(f, b)) / pow2(f.depth());
        if n < cap {
            n
        } else {
            cap
        }
    }
}

/// The nearest integer to a pattern, halves upwards, held to `0..=cap`; zero
/// for NaN.
pub open spec fn half_up(f: Format, b: u64, cap: nat) -> nat {
    if not_a_number(f, b) || negative(f, b) {
        0
    } else if !finite(f, b) {
        cap
    } else {
        let one = pow2(f.depth());
        let n = (2 * absolute(f, magnitude(f, b)) + one) / (2 * one);
        if n < cap {
            n
        } else {
            cap
        }
    }
}

/// The integer part of twice a number, held to a bound.
fn doubled_floor(f: Format, x: Parts, Ghost(b): Ghost<u64>) -> (r: u64)
    requires
        f.wf(),
        x.of(f, b),
        finite(f, b),
    ensures
        ({
            let n = (2 * absolute(f, x.mag as nat)) / pow2(f.depth());
            if n < 0x1_0000_0000 {
                r == n
            } else {
                r == 0x1_0000_0000
            }
        }),
{
    let depth: u32 = f.top / 2 + f.precision - 2;
    proof {
        lemma_fields(f, x.mag as nat);
        lemma_pow2_values();
        lemma_power_bounds(f.precision as nat);
        lemma_pow2_pos(f.depth());
    }
    let ghost one = pow2(f.depth());
    let ghost n = 2 * absolute(f, x.mag as nat);
    if x.exp + 1 >= depth {
        let up: u32 = x.exp + 1 - depth;
        let ghost w = pow2(up as nat);
        proof {
            lemma_pow2_unfold((x.exp + 1) as nat);
            lemma_pow2_adds(up as nat, f.depth());
            lemma_pow2_pos(up as nat);
            assert(n == (x.sig * w) * one) by (nonlinear_arith)
                requires
                    n == 2 * (x.sig * pow2(x.exp as nat)),
                    2 * pow2(x.exp as nat) == w * one,
            ;
            vstd::arithmetic::div_mod::lemma_fundamental_div_mod_converse(
                n as int,
                one as int,
                (x.sig * w) as int,
                0,
            );
        }
        if x.sig == 0 {
            assert(x.sig * w == 0) by (nonlinear_arith)
                requires
                    x.sig == 0,
            ;
            return 0;
        }
        if up > 60 {
            proof {
                lemma_pow2_strictly_increases(60, up as nat);
                lemma_pow2_strictly_increases(32, 60);
                assert(x.sig * w >= w) by (nonlinear_arith)
                    requires
                        x.sig >= 1,
                        w > 0,
                ;
            }
            return 0x1_0000_0000;
        }
        proof {
            lemma_scaled_bound(x.sig as nat, up as nat);
            lemma_pow2_unfold(127);
        }
        let t: u128 = x.sig as u128 * power(up);
        if t < 0x1_0000_0000 {
            t as u64
        } else {
            0x1_0000_0000
        }
    } else {
        let down: u32 = depth - x.exp - 1;
        let ghost w = pow2(down as nat);
        proof {
            lemma_pow2_adds(down as nat, (x.exp + 1) as nat);
            lemma_pow2_unfold((x.exp + 1) as nat);
            lemma_pow2_pos(down as nat);
            lemma_pow2_pos((x.exp + 1) as nat);
            let c = pow2((x.exp + 1) as nat);
            assert(n == x.sig * c) by (nonlinear_arith)
                requires
                    n == 2 * (x.sig * pow2(x.exp as nat)),
                    c == 2 * pow2(x.exp as nat),
            ;
            let (q, r) = (x.sig as nat / w, x.sig as nat % w);
            vstd::arithmetic::div_mod::lemma_fundamental_div_mod(x.sig as int, w as int);
            assert(n == q * one + r * c && 0 <= r * c < one) by (nonlinear_arith)
                requires
                    n == x.sig * c,
                    x.sig == w * q + r,
                    one == w * c,
                    0 <= r < w,
                    c > 0,
            ;
            vstd::arithmetic::div_mod::lemma_fundamental_div_mod_converse(
                n as int,
                one as int,
                q as int,
                (r * c) as int,
            );
        }
        if down > 60 {
            proof {
                lemma_pow2_strictly_increases(60, down as nat);
                lemma_pow2_strictly_increases(53, 60);
                vstd::arithmetic::div_mod::lemma_basic_div(x.sig as int, w as int);
            }
            return 0;
        }
        proof {
            vstd::bits::lemma_u64_shr_is_div(x.sig, down as u64);
        }
        let t: u128 = (x.sig >> down as u64) as u128;
        if t < 0x1_0000_0000 {
            t as u64
        } else {
            0x1_0000_0000
        }
    }
}

/// The integer part of a pattern, held to `0..=cap`.
pub fn truncate(f: Format, b: u64, cap: u32) -> (r: u32)
    requires
        f.wf(),
        encodable(f, b as int),
        cap <= 0x7fff_ffff,
    ensures
        r == truncated(f, b, cap as nat),
{
    let x: Parts = apart(f, b);
    if x.mag > x.infinity || x.neg {
        return 0;
    }
    if x.mag == x.infinity {
        return cap;
    }
    let twice: u64 = doubled_floor(f, x, Ghost(b));
    proof {
        lemma_pow2_pos(f.depth());
        lemma_halved(absolute(f, magnitude(f, b)), pow2(f.depth()));
    }
    let n: u64 = twice / 2;
    if n < cap as u64 {
        n as u32
    } else {
        cap
    }
}

/// The nearest integer to a pattern, halves upwards, held to `0..=cap`.
pub fn round_half_up(f: Format, b: u64, cap: u32) -> (r: u32)
    requires
        f.wf(),
        encodable(f, b as int),
        cap <= 0x7fff_ffff,
    ensures
        r == half_up(f, b, cap as nat),
{
    let x: Parts = apart(f, b);
    if x.mag > x.infinity || x.neg {
        return 0;
    }
    if x.mag == x.infinity {
        return cap;
    }
    let twice: u64 = doubled_floor(f, x, Ghost(b));
    proof {
        lemma_pow2_pos(f.depth());
        lemma_halved(absolute(f, magnitude(f, b)), pow2(f.depth()));
    }
    let n: u64 = (twice + 1) / 2;
    if n < cap as u64 {
        n as u32
    } else {
        cap
    }
}

/// Halving the floor of a doubled quotient.
proof fn lemma_halved(a: nat, one: nat)
    requires
        one > 0,
    ensures
        ((2 * a) / one) / 2 == a / one,
        ((2 * a) / one + 1) / 2 == (2 * a + one) / (2 * one),
{
    let t = (2 * a) / one;
    let r = (2 * a) % one;
    vstd::arithmetic::div_mod::lemma_fundamental_div_mod(2 * a as int, one as int);
    let h = t / 2;
    let g = (t + 1) / 2;
    if t % 2 == 0 {
        assert(2 * a == 2 * (h * one) + r && 2 * a + one == g * (2 * one) + (r + one)
            && r % 2 == 0) by (nonlinear_arith)
            requires
                2 * a == one * t + r,
                t == 2 * h,
                g == h,
        ;
        vstd::arithmetic::div_mod::lemma_fundamental_div_mod_converse(
            a as int,
            one as int,
            h as int,
            (r / 2) as int,
        );
        vstd::arithmetic::div_mod::lemma_fundamental_div_mod_converse(
            (2 * a + one) as int,
            (2 * one) as int,
            g as int,
            (r + one) as int,
        );
    } else {
        assert(2 * a == 2 * (h * one) + one + r && 2 * a + one == g * (2 * one) + r)
            by (nonlinear_arith)
            requires
                2 * a == one * t + r,
                t == 2 * h + 1,
                g == h + 1,
        ;
        vstd::arithmetic::div_mod::lemma_fundamental_div_mod_converse(
            a as int,
            one as int,
            h as int,
            ((one + r) / 2) as int,
        );
        vstd::arithmetic::div_mod::lemma_fundamental_div_mod_converse(
            (2 * a + one) as int,
            (2 * one) as int,
            g as int,
            r as int,
        );
    }
}

/// Is this an infinity?
pub open spec fn infinite(f: Format, b: u64) -> bool {
    magnitude(f, b) == f.infinity()
}

/// The fewest copies of `b` that together reach `a`.
pub open spec fn least_multiple(a: nat, b: nat) -> nat {
    ((a + b - 1) / b as int) as nat
}

/// The fewest copies of one positive number that reach another, held to a cap.
pub fn ceil_ratio(f: Format, a: u64, b: u64, cap: u32) -> (n: u32)
    requires
        f.wf(),
        encodable(f, a as int),
        encodable(f, b as int),
        finite(f, a),
        finite(f, b),
        magnitude(f, b) > 0,
        cap <= 0x7fff_ffff,
    ensures
        ({
            let t = least_multiple(absolute(f, magnitude(f, a)), absolute(f, magnitude(f, b)));
            n == if t < cap {
                t
            } else {
                cap as nat
            }
        }),
{
    let x: Parts = apart(f, a);
    let y: Parts = apart(f, b);
    let ghost (m, n) = (magnitude(f, a), magnitude(f, b));
    let ghost (u, v) = (absolute(f, m), absolute(f, n));
    proof {
        lemma_fields(f, m);
        lemma_fields(f, n);
        lemma_power_bounds(f.precision as nat);
        lemma_pow2_values();
        lemma_pow2_unfold(f.precision as nat);
    }
    if x.exp >= y.exp {
        let k: u32 = x.exp - y.exp;
        let ghost w = pow2(y.exp as nat);
        let ghost c = x.sig as nat * pow2(k as nat);
        proof {
            lemma_aligned(f, a, b);
            lemma_pow2_pos(y.exp as nat);
            lemma_least_multiple_scale(c, y.sig as nat, w);
        }
        if k > 60 {
            proof {
                lemma_pow2_strictly_increases(60, k as nat);
                lemma_pow2_strictly_increases(32, 60);
                lemma_pow2_adds(28, 32);
                vstd::arithmetic::power2::lemma2_to64();
                let s = f.step();
                let z = pow2(k as nat);
                assert(c >= y.sig * (0x8000_0000)) by (nonlinear_arith)
                    requires
                        c == x.sig * z,
                        x.sig >= s,
                        y.sig <= 2 * s,
                        z >= 0x1_0000_0000,
                        s >= 0,
                ;
                lemma_least_multiple_above(c, y.sig as nat, 0x8000_0000);
            }
            return cap;
        }
        proof {
            lemma_aligned_bound(x.sig as nat, pow2(k as nat), k as nat);
        }
        let t: u128 = (x.sig as u128 * power(k) + (y.sig as u128 - 1)) / y.sig as u128;
        if t < cap as u128 {
            t as u32
        } else {
            cap
        }
    } else {
        let ghost k = (y.exp - x.exp) as nat;
        proof {
            lemma_aligned(f, b, a);
            let w = pow2(x.exp as nat);
            lemma_pow2_pos(x.exp as nat);
            let c = y.sig as nat * pow2(k);
            lemma_pow2_unfold(k);
            lemma_pow2_pos((k - 1) as nat);
            assert(c >= 2 * f.step()) by (nonlinear_arith)
                requires
                    c == y.sig * (2 * pow2((k - 1) as nat)),
                    y.sig >= f.step(),
                    pow2((k - 1) as nat) >= 1,
            ;
            lemma_least_multiple_scale(x.sig as nat, c, w);
            if x.sig == 0 {
                vstd::arithmetic::div_mod::lemma_basic_div(c - 1, c as int);
            } else {
                vstd::arithmetic::div_mod::lemma_fundamental_div_mod_converse(
                    x.sig + c - 1,
                    c as int,
                    1,
                    x.sig - 1,
                );
            }
        }
        let t: u32 = if x.sig == 0 {
            0
        } else {
            1
        };
        if t < cap {
            t
        } else {
            cap
        }
    }
}

proof fn lemma_least_multiple_scale(a: nat, b: nat, w: nat)
    requires
        b > 0,
        w > 0,
    ensures
        least_multiple(a * w, b * w) == least_multiple(a, b),
{
    let q = least_multiple(a, b) as int;
    let r = (a + b - 1) % b as int;
    vstd::arithmetic::div_mod::lemma_fundamental_div_mod(a + b - 1, b as int);
    // a = q b + r - b + 1, with r - b + 1 in (-b, 0]
    let z = r * w + (w - 1);
    assert(a * w + b * w - 1 == q * (b * w) + z && 0 <= z < b * w && b * w > 0)
        by (nonlinear_arith)
        requires
            a + b - 1 == b * q + r,
            0 <= r < b,
            w >= 1,
            z == r * w + (w - 1),
    ;
    vstd::arithmetic::div_mod::lemma_fundamental_div_mod_converse(
        a * w + b * w - 1,
        (b * w) as int,
        q,
        z,
    );
}

proof fn lemma_least_multiple_above(a: nat, b: nat, k: nat)
    requires
        b > 0,
        a >= b * k,
    ensures
        least_multiple(a, b) >= k,
{
    let q = least_multiple(a, b) as int;
    let r = (a + b - 1) % (b as int);
    vstd::arithmetic::div_mod::lemma_fundamental_div_mod(a + b - 1, b as int);
    assert(q >= k) by (nonlinear_arith)
        requires
            a + b - 1 == b * q + r,
            r < b,
            a >= b * k,
            b > 0,
    ;
}

/// The integer part of the square root of `n`.
pub open spec fn floor_root(n: nat) -> nat {
    choose|r: nat| is_floor_root(n, r)
}

/// Is `r` the integer part of the square root of `n`?
pub open spec fn is_floor_root(n: nat, r: nat) -> bool {
    r * r <= n && n < (r + 1) * (r + 1)
}

/// How many low binary digits of the square root of `s` lie beyond what the
/// format can hold.
pub open spec fn root_excess(f: Format, s: nat) -> nat {
    let l = (bit_length(s) + 1) / 2;
    if l > f.precision {
        (l - f.precision) as nat
    } else {
        0
    }
}

/// The magnitude bits nearest to the square root of finite magnitude bits. A
/// root never lies midway between two numbers of the format.
pub open spec fn rooted(f: Format, m: nat) -> nat {
    let s = absolute(f, m) * pow2(f.depth());
    let d = root_excess(f, s);
    d * f.step() + (floor_root((4 * s) / pow2(2 * d)) + 1) / 2
}

/// The square root of a pattern.
pub open spec fn root(f: Format, b: u64) -> nat {
    if not_a_number(f, b) || (negative(f, b) && magnitude(f, b) != 0) {
        quiet(f)
    } else if !finite(f, b) || magnitude(f, b) == 0 {
        b as nat
    } else {
        rooted(f, magnitude(f, b))
    }
}

pub proof fn lemma_floor_root(n: nat, r: nat)
    requires
        is_floor_root(n, r),
    ensures
        floor_root(n) == r,
{
    let t = floor_root(n);
    assert(is_floor_root(n, t));
    assert(t == r) by (nonlinear_arith)
        requires
            r * r <= n,
            n < (r + 1) * (r + 1),
            t * t <= n,
            n < (t + 1) * (t + 1),
            t >= 0,
            r >= 0,
    ;
}

/// The integer part of the square root of `n`.
fn whole_root(n: u128) -> (r: u64)
    requires
        n < pow2(110),
    ensures
        r == floor_root(n as nat),
        is_floor_root(n as nat, r as nat),
        r < pow2(55),
{
    proof {
        lemma_pow2_values();
        lemma_pow2_adds(55, 55);
        lemma_pow2_strictly_increases(55, 63);
        lemma_pow2_unfold(64);
        lemma_pow2_strictly_increases(110, 126);
        lemma_pow2_unfold(127);
    }
    let mut r: u64 = 0;
    let mut b: u32 = 55;
    assert(n < (0 + pow2(55)) * (0 + pow2(55)));
    while b > 0
        invariant
            b <= 55,
            r * r <= n,
            n < (r + pow2(b as nat)) * (r + pow2(b as nat)),
            r + pow2(b as nat) <= pow2(55),
            pow2(55) * pow2(55) < u128::MAX,
            pow2(55) < u64::MAX,
        decreases b,
    {
        b = b - 1;
        proof {
            lemma_pow2_unfold((b + 1) as nat);
            lemma_pow2_pos(b as nat);
        }
        let t: u64 = r + power(b) as u64;
        assert(t * t <= pow2(55) * pow2(55)) by (nonlinear_arith)
            requires
                0 <= t <= pow2(55),
        ;
        if t as u128 * t as u128 <= n {
            r = t;
        }
    }
    proof {
        vstd::arithmetic::power2::lemma2_to64();
        lemma_floor_root(n as nat, r as nat);
    }
    r
}

/// The scaled operand of a root keeps its quotient exact and in range.
proof fn lemma_root_operand(f: Format, sig: nat, e: nat, d: nat, k: int)
    requires
        f.wf(),
        0 < sig < pow2(f.precision as nat),
        e >= 2 * f.precision + 2,
        d == root_excess(f, sig * pow2(e)),
        k == e + 2 - 2 * d,
    ensures
        d > 0,
        0 <= k,
        bit_length(sig * pow2(e)) == bit_length(sig) + e,
        (4 * (sig * pow2(e))) / pow2(2 * d) == sig * pow2(k as nat),
        sig * pow2(k as nat) < pow2((2 * f.precision + 2) as nat),
        k <= 2 * f.precision + 2,
{
    let l = bit_length(sig);
    let p = f.precision as nat;
    lemma_bit_length(sig);
    lemma_bit_length_below(sig, p);
    lemma_pow2_pos(e);
    lemma_pow2_adds((l - 1) as nat, e);
    lemma_pow2_adds(l, e);
    let w = pow2(e);
    assert(pow2((l - 1) as nat) * w <= sig * w && sig * w < pow2(l) * w) by (nonlinear_arith)
        requires
            pow2((l - 1) as nat) <= sig,
            sig < pow2(l),
            w > 0,
    ;
    lemma_bit_length_unique(sig * w, l + e);
    assert(k >= 0);
    lemma_pow2_adds(k as nat, 2 * d);
    lemma_pow2_adds(e, 2);
    vstd::arithmetic::power2::lemma2_to64();
    lemma_pow2_pos(2 * d);
    assert(4 * (sig * w) == (sig * pow2(k as nat)) * pow2(2 * d)) by (nonlinear_arith)
        requires
            w * 4 == pow2(k as nat) * pow2(2 * d),
    ;
    vstd::arithmetic::div_mod::lemma_fundamental_div_mod_converse(
        (4 * (sig * w)) as int,
        pow2(2 * d) as int,
        (sig * pow2(k as nat)) as int,
        0,
    );
    lemma_pow2_adds(l, k as nat);
    lemma_pow2_pos(k as nat);
    assert(sig * pow2(k as nat) < pow2(l) * pow2(k as nat)) by (nonlinear_arith)
        requires
            sig < pow2(l),
            pow2(k as nat) > 0,
    ;
    if l + k < 2 * p + 2 {
        lemma_pow2_strictly_increases(l + k as nat, 2 * p + 2);
    }
}

/// The square root of a pattern.
pub fn square_root(f: Format, b: u64) -> (r: u64)
    requires
        f.wf(),
        encodable(f, b as int),
        f.depth() >= 2 * f.precision + 2,
        f.top >= 64,
    ensures
        r == root(f, b),
        encodable(f, r as int),
{
    let x: Parts = apart(f, b);
    if x.mag > x.infinity || (x.neg && x.mag != 0) {
        return x.infinity + x.step / 2;
    }
    if x.mag == x.infinity || x.mag == 0 {
        return b;
    }
    let depth: u32 = f.top / 2 + f.precision - 2;
    let e: u32 = x.exp + depth;
    proof {
        lemma_fields(f, x.mag as nat);
        lemma_pow2_adds(x.exp as nat, f.depth());
        assert(absolute(f, x.mag as nat) * pow2(f.depth()) == x.sig * pow2(e as nat))
            by (nonlinear_arith)
            requires
                absolute(f, x.mag as nat) == x.sig * pow2(x.exp as nat),
                pow2(e as nat) == pow2(x.exp as nat) * pow2(f.depth()),
        ;
        lemma_power_bounds(f.precision as nat);
        lemma_bit_length_below(x.sig as nat, f.precision as nat);
        lemma_root_operand(
            f,
            x.sig as nat,
            e as nat,
            root_excess(f, x.sig as nat * pow2(e as nat)),
            e + 2 - 2 * root_excess(f, x.sig as nat * pow2(e as nat)),
        );
    }
    let l: u32 = bits_of(x.sig as u128) + e;
    let d: u32 = (l + 1) / 2 - f.precision;
    let k: u32 = e + 2 - 2 * d;
    proof {
        lemma_pow2_values();
        lemma_pow2_unfold(127);
        if 2 * f.precision + 2 < 110 {
            lemma_pow2_strictly_increases((2 * f.precision + 2) as nat, 110);
        }
        lemma_pow2_strictly_increases(110, 126);
        lemma_pow2_strictly_increases(55, 63);
        lemma_pow2_unfold(64);
    }
    let n: u128 = x.sig as u128 * power(k);
    let q: u64 = (whole_root(n) + 1) / 2;
    proof {
        lemma_root_range(f, x.sig as nat, x.exp as nat, d as int, q as int, k as nat);
    }
    d as u64 * x.step + q
}

/// A root stays below infinity.
proof fn lemma_root_range(f: Format, sig: nat, exp: nat, d: int, q: int, k: nat)
    requires
        f.wf(),
        sig < pow2(f.precision as nat),
        0 < sig,
        exp < f.top,
        f.top >= 64,
        d == (bit_length(sig) + exp + f.depth() + 1) / 2 - f.precision,
        sig * pow2(k) < pow2((2 * f.precision + 2) as nat),
        q == (floor_root(sig * pow2(k)) + 1) / 2,
        is_floor_root(sig * pow2(k), floor_root(sig * pow2(k))),
        d > 0,
    ensures
        0 <= d * f.step() + q < f.infinity(),
        f.infinity() < f.sign_weight(),
        f.sign_weight() <= 0x8000_0000_0000_0000,
{
    let p = f.precision as nat;
    let s = f.step();
    lemma_bit_length_below(sig, p);
    lemma_pow2_pos((p - 1) as nat);
    lemma_pow2_unfold(p);
    lemma_pow2_unfold(p + 1);
    lemma_pow2_adds(p + 1, p + 1);
    let n = sig * pow2(k);
    let r = floor_root(n);
    assert(r < pow2(p + 1)) by (nonlinear_arith)
        requires
            r * r <= n,
            n < pow2(p + 1) * pow2(p + 1),
            r >= 0,
            pow2(p + 1) >= 0,
    ;
    assert(q <= 2 * s);
    assert(d <= f.top - 3);
    lemma_pow2_values();
    lemma_power_bounds((p - 1) as nat);
    if p < 53 {
        lemma_pow2_strictly_increases((p - 1) as nat, 52);
    }
    assert(d * s + 2 * s < f.top * s) by (nonlinear_arith)
        requires
            d <= f.top - 3,
            s > 0,
    ;
    assert(d * s >= 0) by (nonlinear_arith)
        requires
            d > 0,
            s > 0,
    ;
    assert((f.top + 1) * s == f.top * s + s) by (nonlinear_arith);
    assert((f.top + 1) * s <= 2048 * 0x10_0000_0000_0000) by (nonlinear_arith)
        requires
            f.top <= 2047,
            s <= 0x10_0000_0000_0000,
    ;
}

/// Every number has a whole root.
pub proof fn lemma_has_root(n: nat)
    ensures
        is_floor_root(n, floor_root(n)),
    decreases n,
{
    if n == 0 {
        assert(n * n == 0 && (n + 1) * (n + 1) == 1) by (nonlinear_arith)
            requires
                n == 0,
        ;
        assert(is_floor_root(n, n));
    } else {
        lemma_has_root((n - 1) as nat);
        let r = floor_root((n - 1) as nat);
        assert((r + 1) * (r + 1) == r * r + 2 * r + 1) by (nonlinear_arith);
        assert((r + 2) * (r + 2) == r * r + 4 * r + 4) by (nonlinear_arith);
        assert(is_floor_root(n, r) || is_floor_root(n, r + 1));
    }
}

/// The root of a finite number is finite.
pub proof fn lemma_root_finite(f: Format, m: nat)
    requires
        f.wf(),
        f.depth() >= 2 * f.precision + 2,
        f.top >= 64,
        0 < m < f.infinity(),
    ensures
        rooted(f, m) < f.infinity(),
{
    let (sig, exp) = (significand(f, m), scale(f, m));
    let e = exp + f.depth();
    lemma_fields(f, m);
    lemma_pow2_adds(exp, f.depth());
    let s = absolute(f, m) * pow2(f.depth());
    assert(s == sig * pow2(e)) by (nonlinear_arith)
        requires
            s == absolute(f, m) * pow2(f.depth()),
            absolute(f, m) == sig * pow2(exp),
            pow2(e) == pow2(exp) * pow2(f.depth()),
    ;
    let d = root_excess(f, s);
    let k = e + 2 - 2 * d;
    lemma_root_operand(f, sig, e, d, k);
    lemma_has_root(sig * pow2(k as nat));
    lemma_root_range(
        f,
        sig,
        exp,
        d as int,
        (floor_root(sig * pow2(k as nat)) + 1) as int / 2,
        k as nat,
    );
}

/// A finite pattern of one format carried over to another, rounded to it.
pub open spec fn converted(f: Format, b: u64, g: Format) -> nat {
    let m = magnitude(f, b);
    if not_a_number(f, b) {
        quiet(g)
    } else if !finite(f, b) {
        with_sign(g, negative(f, b), g.infinity())
    } else {
        with_sign(
            g,
            negative(f, b),
            rounded(g, significand(f, m), scale(f, m) - f.depth() + g.depth()),
        )
    }
}

/// A pattern of one format carried over to another, rounded to it.
pub fn convert(f: Format, b: u64, g: Format) -> (r: u64)
    requires
        f.wf(),
        g.wf(),
        encodable(f, b as int),
    ensures
        r == converted(f, b, g),
        encodable(g, r as int),
{
    let x: Parts = apart(f, b);
    let step: u64 = step_of(g);
    assert(g.top * step <= 2047 * 0x10_0000_0000_0000) by (nonlinear_arith)
        requires
            g.top <= 2047,
            step <= 0x10_0000_0000_0000,
    ;
    assert((g.top + 1) * step == g.top * step + step) by (nonlinear_arith);
    let infinity: u64 = g.top as u64 * step;
    let sign: u64 = infinity + step;
    if x.mag > x.infinity {
        return infinity + step / 2;
    }
    let m: u64 = if x.mag == x.infinity {
        infinity
    } else {
        proof {
            lemma_fields(f, x.mag as nat);
            lemma_power_bounds(f.precision as nat);
            lemma_bit_length_below(x.sig as nat, 53);
        }
        let down: i32 = (f.top / 2 + f.precision - 2) as i32;
        let up: i32 = (g.top / 2 + g.precision - 2) as i32;
        round(g, x.sig as u128, x.exp as i32 - down + up)
    };
    if x.neg {
        m + sign
    } else {
        m
    }
}

} // verus!
