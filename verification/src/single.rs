//! Single-precision numbers, held as their 32-bit patterns.
use crate::float::{
    at_most, below, bit_length, divide, excess, half_up, kept, lemma_bit_length,
    lemma_bit_length_below, lemma_pow2_values, lemma_product_value, lemma_rounded_exact,
    lemma_rounded_scale, lemma_rounded_value, less, multiply, negate, not_a_number, not_above, plus,
    product, quotient, round, round_half_up, rounded, sum, truncate, truncated, turned, Format,
};
use vstd::arithmetic::power2::{
    lemma_pow2_adds, lemma_pow2_pos, lemma_pow2_strictly_increases, lemma_pow2_unfold, pow2,
};
use vstd::prelude::*;

pub mod order;

verus! {

/// The single-precision format.
pub open spec fn single() -> Format {
    Format { precision: 24, top: 255 }
}

/// A single-precision number.
#[derive(Clone, Copy, Debug, PartialEq, Eq, Structural)]
pub struct F32 {
    pub bits: u32,
}

/// The single-precision format.
pub fn single_format() -> (f: Format)
    ensures
        f == single(),
        f.wf(),
        f.sign_weight() == 0x8000_0000,
        f.infinity() == 0x7f80_0000,
        f.depth() == 149,
        f.step() == 0x80_0000,
{
    proof {
        lemma_single();
    }
    Format { precision: 24, top: 255 }
}

pub proof fn lemma_single()
    ensures
        single().wf(),
        single().sign_weight() == 0x8000_0000,
        single().infinity() == 0x7f80_0000,
        single().depth() == 149,
        single().step() == 0x80_0000,
{
    lemma_pow2_values();
    assert(single().step() == 0x80_0000);
    assert((single().top as nat + 1) * single().step() == 256 * single().step()
        && single().top as nat * single().step() == 255 * single().step());
}

impl F32 {
    /// `self + other`.
    #[verifier::opaque]
    pub open spec fn sum(self, other: F32) -> F32 {
        F32 { bits: sum(single(), self.bits as u64, other.bits as u64) as u32 }
    }

    /// `-self`.
    #[verifier::opaque]
    pub open spec fn negation(self) -> F32 {
        F32 { bits: turned(single(), self.bits as u64) as u32 }
    }

    /// `self - other`.
    pub open spec fn difference(self, other: F32) -> F32 {
        self.sum(other.negation())
    }

    /// `self * other`.
    #[verifier::opaque]
    pub open spec fn product(self, other: F32) -> F32 {
        F32 { bits: product(single(), self.bits as u64, other.bits as u64) as u32 }
    }

    /// `self / other`.
    #[verifier::opaque]
    pub open spec fn quotient(self, other: F32) -> F32 {
        F32 { bits: quotient(single(), self.bits as u64, other.bits as u64) as u32 }
    }

    /// `self < other`.
    #[verifier::opaque]
    pub open spec fn below(self, other: F32) -> bool {
        below(single(), self.bits as u64, other.bits as u64)
    }

    /// `self <= other`.
    #[verifier::opaque]
    pub open spec fn at_most(self, other: F32) -> bool {
        at_most(single(), self.bits as u64, other.bits as u64)
    }

    /// Is this no number at all?
    #[verifier::opaque]
    pub open spec fn is_undefined(self) -> bool {
        not_a_number(single(), self.bits as u64)
    }

    /// The larger of two; an operand that is no number is passed over.
    pub open spec fn larger(self, other: F32) -> F32 {
        if self.is_undefined() || self.below(other) {
            other
        } else {
            self
        }
    }

    /// The smaller of two; an operand that is no number is passed over.
    pub open spec fn smaller(self, other: F32) -> F32 {
        if self.is_undefined() || other.below(self) {
            other
        } else {
            self
        }
    }

    /// The number `n / 2^24`.
    #[verifier::opaque]
    pub open spec fn fraction(n: nat) -> F32 {
        F32 { bits: rounded(single(), n, 125) as u32 }
    }

    /// The integer `n`, to the nearest single.
    #[verifier::opaque]
    pub open spec fn integer(n: nat) -> F32 {
        F32 { bits: rounded(single(), n, 149) as u32 }
    }

    /// The integer part, held to `0..=cap`; zero for what is no number.
    #[verifier::opaque]
    pub open spec fn floor_within(self, cap: nat) -> nat {
        truncated(single(), self.bits as u64, cap)
    }

    /// The nearest integer, halves upwards, held to `0..=cap`; zero for what
    /// is no number.
    #[verifier::opaque]
    pub open spec fn round_within(self, cap: nat) -> nat {
        half_up(single(), self.bits as u64, cap)
    }

    /// The number with the given pattern.
    pub fn from_bits(bits: u32) -> (r: F32)
        ensures
            r == (F32 { bits }),
    {
        F32 { bits }
    }

    pub fn plus(self, other: F32) -> (r: F32)
        ensures
            r == self.sum(other),
    {
        reveal(F32::sum);
        F32 { bits: plus(single_format(), self.bits as u64, other.bits as u64) as u32 }
    }

    pub fn minus(self, other: F32) -> (r: F32)
        ensures
            r == self.difference(other),
    {
        reveal(F32::negation);
        let turned: u32 = negate(single_format(), other.bits as u64) as u32;
        self.plus(F32 { bits: turned })
    }

    pub fn times(self, other: F32) -> (r: F32)
        ensures
            r == self.product(other),
    {
        reveal(F32::product);
        F32 { bits: multiply(single_format(), self.bits as u64, other.bits as u64) as u32 }
    }

    pub fn over(self, other: F32) -> (r: F32)
        ensures
            r == self.quotient(other),
    {
        reveal(F32::quotient);
        F32 { bits: divide(single_format(), self.bits as u64, other.bits as u64) as u32 }
    }

    pub fn lt(self, other: F32) -> (r: bool)
        ensures
            r == self.below(other),
    {
        reveal(F32::below);
        less(single_format(), self.bits as u64, other.bits as u64)
    }

    pub fn le(self, other: F32) -> (r: bool)
        ensures
            r == self.at_most(other),
    {
        reveal(F32::at_most);
        not_above(single_format(), self.bits as u64, other.bits as u64)
    }

    pub fn is_nan(self) -> (r: bool)
        ensures
            r == self.is_undefined(),
    {
        reveal(F32::is_undefined);
        let f: Format = single_format();
        let low: u32 = if self.bits >= 0x8000_0000 {
            self.bits - 0x8000_0000
        } else {
            self.bits
        };
        low > 0x7f80_0000
    }

    pub fn max(self, other: F32) -> (r: F32)
        ensures
            r == self.larger(other),
    {
        if self.is_nan() || self.lt(other) {
            other
        } else {
            self
        }
    }

    pub fn min(self, other: F32) -> (r: F32)
        ensures
            r == self.smaller(other),
    {
        if self.is_nan() || other.lt(self) {
            other
        } else {
            self
        }
    }

    /// The number `n / 2^24`.
    pub fn from_fraction(n: u32) -> (r: F32)
        ensures
            r == F32::fraction(n as nat),
    {
        reveal(F32::fraction);
        proof {
            lemma_pow2_values();
            lemma_bit_length_below(n as nat, 32);
        }
        F32 { bits: round(single_format(), n as u128, 125) as u32 }
    }

    /// The integer `n`, to the nearest single.
    pub fn from_u32(n: u32) -> (r: F32)
        ensures
            r == F32::integer(n as nat),
    {
        reveal(F32::integer);
        proof {
            lemma_pow2_values();
            lemma_bit_length_below(n as nat, 32);
        }
        F32 { bits: round(single_format(), n as u128, 149) as u32 }
    }

    /// The integer part, saturating.
    pub fn to_u8(self) -> (r: u8)
        ensures
            r == self.floor_within(255),
    {
        reveal(F32::floor_within);
        truncate(single_format(), self.bits as u64, 255) as u8
    }

    /// The nearest integer, halves upwards, saturating.
    pub fn round_to_u8(self) -> (r: u8)
        ensures
            r == self.round_within(255),
    {
        reveal(F32::round_within);
        round_half_up(single_format(), self.bits as u64, 255) as u8
    }
}

/// A draw from `0..1` scaled by a whole number stays below that number, so its
/// integer part is one of the `s` values below `s`.
pub proof fn lemma_scaled_draw(n: nat, s: nat)
    requires
        n < 0x100_0000,
        0 < s <= 256,
    ensures
        F32::fraction(n).product(F32::integer(s)).floor_within(255) < s,
{
    let f = single();
    reveal(F32::fraction);
    reveal(F32::integer);
    reveal(F32::product);
    reveal(F32::floor_within);
    lemma_single();
    lemma_pow2_values();
    lemma_rounded_exact(f, n, 125);
    lemma_rounded_exact(f, s, 149);
    let a = F32::fraction(n).bits as u64;
    let b = F32::integer(s).bits as u64;
    let t = n * s;
    lemma_product_value(f, a as nat, b as nat);
    lemma_pow2_adds(125, 149);
    assert((n * pow2(125)) * (s * pow2(149)) == t * pow2(274)) by (nonlinear_arith)
        requires
            t == n * s,
            pow2(274) == pow2(125) * pow2(149),
    ;
    lemma_rounded_scale(f, t, 274, -149);
    assert(t <= s * 0x100_0000 - s && t <= 0x1_0000_0000) by (nonlinear_arith)
        requires
            t == n * s,
            n <= 0x100_0000 - 1,
            0 < s <= 256,
    ;
    let p = F32::fraction(n).product(F32::integer(s));
    assert(p.bits == rounded(f, t, 125) as u32);
    if t == 0 {
        lemma_rounded_exact(f, 0, 125);
        assert(0 * pow2(125) == 0) by (nonlinear_arith);
        lemma_pow2_pos(149);
        vstd::arithmetic::div_mod::lemma_basic_div(0, pow2(149) as int);
    } else {
        let l = bit_length(t);
        lemma_bit_length(t);
        lemma_pow2_unfold(33);
        lemma_bit_length_below(t, 33);
        let d = excess(f, t, 125);
        assert(d == l - 24);
        let q = kept(f, t, 125);
        let w = pow2((125 + d) as nat);
        // The digits kept, at their weight, stay below s.
        assert(q * w < s * pow2(149)) by {
            lemma_pow2_adds(125, 24);
            if d >= 0 {
                let c = pow2(d as nat);
                lemma_pow2_pos(d as nat);
                lemma_pow2_adds(d as nat, 125);
                lemma_pow2_pos(125);
                vstd::arithmetic::div_mod::lemma_fundamental_div_mod(t as int, c as int);
                let x = t / c;
                let r = t % c;
                if q == x + 1 {
                    if d >= 1 {
                        lemma_pow2_unfold(d as nat);
                        let h = pow2((d - 1) as nat);
                        lemma_pow2_adds((d - 1) as nat, 24);
                        assert(h < s) by (nonlinear_arith)
                            requires
                                h * 0x100_0000 <= t,
                                t < s * 0x100_0000,
                        ;
                        assert(q * c <= t + h) by (nonlinear_arith)
                            requires
                                t == c * x + r,
                                q == x + 1,
                                2 * r >= c,
                                c == 2 * h,
                        ;
                    } else {
                        vstd::arithmetic::power2::lemma2_to64();
                        assert(false);
                    }
                } else {
                    assert(q * c <= t) by (nonlinear_arith)
                        requires
                            t == c * x + r,
                            r >= 0,
                            q == x,
                    ;
                }
                assert(q * c < s * 0x100_0000);
                assert(q * w < s * pow2(149)) by (nonlinear_arith)
                    requires
                        q * c < s * 0x100_0000,
                        w == c * pow2(125),
                        pow2(149) == pow2(125) * 0x100_0000,
                        pow2(125) > 0,
                ;
            } else {
                let c = pow2((-d) as nat);
                lemma_pow2_adds((125 + d) as nat, (-d) as nat);
                lemma_pow2_pos(125);
                assert(q == t * c);
                assert(q * w < s * pow2(149)) by (nonlinear_arith)
                    requires
                        q == t * c,
                        w * c == pow2(125),
                        t < s * 0x100_0000,
                        pow2(149) == pow2(125) * 0x100_0000,
                        pow2(125) > 0,
                ;
            }
        }
        assert(rounded(f, t, 125) < f.infinity()) by {
            assert(125 + d <= 134);
            lemma_kept_bound(t, 125);
            assert((125 + d) * 0x80_0000 <= 134 * 0x80_0000) by (nonlinear_arith)
                requires
                    125 + d <= 134,
            ;
        }
        lemma_rounded_value(f, t, 125);
        lemma_pow2_pos(149);
        assert((q * w) / pow2(149) < s) by (nonlinear_arith)
            requires
                q * w < s * pow2(149),
                pow2(149) > 0,
        ;
    }
}

/// Rounding keeps at most the digits the format has.
proof fn lemma_kept_bound(n: nat, e: int)
    requires
        n > 0,
    ensures
        kept(single(), n, e) <= 0x100_0000,
{
    let f = single();
    let d = excess(f, n, e);
    let l = bit_length(n);
    lemma_bit_length(n);
    lemma_pow2_values();
    if d >= 0 {
        let w = pow2(d as nat);
        lemma_pow2_pos(d as nat);
        lemma_pow2_adds(24, d as nat);
        if l < 24 + d {
            lemma_pow2_strictly_increases(l, 24 + d as nat);
        }
        vstd::arithmetic::div_mod::lemma_fundamental_div_mod(n as int, w as int);
        let x = n / w;
        assert(x < 0x100_0000) by (nonlinear_arith)
            requires
                n == w * x + n % w,
                n % w >= 0,
                n < 0x100_0000 * w,
                w > 0,
        ;
    } else {
        let w = pow2((-d) as nat);
        lemma_pow2_pos((-d) as nat);
        lemma_pow2_adds(l, (-d) as nat);
        assert(n * w < pow2(l) * w) by (nonlinear_arith)
            requires
                n < pow2(l),
                w > 0,
        ;
        if l - d < 24 {
            lemma_pow2_strictly_increases((l - d) as nat, 24);
        }
    }
}

/// A fraction out of `2^24` is at least 0 and below 1.
pub proof fn lemma_fraction_range(n: nat)
    requires
        n < 0x100_0000,
    ensures
        (F32 { bits: 0 }).at_most(F32::fraction(n)),
        F32::fraction(n).below(F32 { bits: 0x3f80_0000 }),
        F32::fraction(n).bits < 0x3f80_0000,
{
    reveal(F32::fraction);
    reveal(F32::at_most);
    reveal(F32::below);
    lemma_single();
    if n > 0 {
        let f = single();
        lemma_pow2_values();
        lemma_bit_length(n);
        lemma_bit_length_below(n, 24);
        let l = bit_length(n);
        let d = excess(f, n, 125);
        assert(d == l - 24);
        let q = kept(f, n, 125);
        assert(q < 0x100_0000) by {
            if d == 0 {
                vstd::arithmetic::power2::lemma2_to64();
                vstd::arithmetic::div_mod::lemma_div_basics(n as int);
                assert(n % 1 == 0);
            } else {
                let w = pow2((-d) as nat);
                lemma_pow2_adds(l, (-d) as nat);
                lemma_pow2_pos((-d) as nat);
                assert(n * w < pow2(l) * w) by (nonlinear_arith)
                    requires
                        n < pow2(l),
                        w > 0,
                ;
            }
        }
        assert((125 + d) * 0x80_0000 <= 125 * 0x80_0000) by (nonlinear_arith)
            requires
                d <= 0,
        ;
        assert(125 * 0x80_0000 + 0x100_0000 == 0x3f80_0000);
    }
}

} // verus!
