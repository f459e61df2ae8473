//! Double-precision numbers, held as their 64-bit patterns.
use crate::float::laws::law_sum_does_not_lower;
use crate::float::{
    at_most, below, convert, converted, divide, finite, lemma_bit_length_below, lemma_pow2_values,
    lemma_rounded_bound, less, magnitude, multiply, negate, negative, not_above, plus, product,
    quotient, root, round, rounded, scale, significand, square_root, sum, turned, value, with_sign,
    Format,
};
use crate::single::{single, single_format, F32};
use vstd::prelude::*;

pub mod error;

verus! {

/// The double-precision format.
pub open spec fn double() -> Format {
    Format { precision: 53, top: 2047 }
}

/// A double-precision number.
#[derive(Clone, Copy, Debug, PartialEq, Eq, Structural)]
pub struct F64 {
    pub bits: u64,
}

pub proof fn lemma_double()
    ensures
        double().wf(),
        double().sign_weight() == 0x8000_0000_0000_0000,
        double().infinity() == 0x7ff0_0000_0000_0000,
        double().depth() == 1074,
        double().step() == 0x10_0000_0000_0000,
{
    lemma_pow2_values();
    assert(double().step() == 0x10_0000_0000_0000);
    assert((double().top as nat + 1) * double().step() == 2048 * double().step()
        && double().top as nat * double().step() == 2047 * double().step());
}

/// The double-precision format.
pub fn double_format() -> (f: Format)
    ensures
        f == double(),
        f.wf(),
        f.sign_weight() == 0x8000_0000_0000_0000,
        f.infinity() == 0x7ff0_0000_0000_0000,
        f.depth() == 1074,
        f.step() == 0x10_0000_0000_0000,
{
    proof {
        lemma_double();
    }
    Format { precision: 53, top: 2047 }
}

impl F64 {
    /// `self + other`.
    #[verifier::opaque]
    pub open spec fn sum(self, other: F64) -> F64 {
        F64 { bits: sum(double(), self.bits, other.bits) as u64 }
    }

    /// `-self`.
    #[verifier::opaque]
    pub open spec fn negation(self) -> F64 {
        F64 { bits: turned(double(), self.bits) as u64 }
    }

    /// `self - other`.
    pub open spec fn difference(self, other: F64) -> F64 {
        self.sum(other.negation())
    }

    /// `self * other`.
    #[verifier::opaque]
    pub open spec fn product(self, other: F64) -> F64 {
        F64 { bits: product(double(), self.bits, other.bits) as u64 }
    }

    /// `self / other`.
    #[verifier::opaque]
    pub open spec fn quotient(self, other: F64) -> F64 {
        F64 { bits: quotient(double(), self.bits, other.bits) as u64 }
    }

    /// The square root.
    #[verifier::opaque]
    pub open spec fn root(self) -> F64 {
        F64 { bits: root(double(), self.bits) as u64 }
    }

    /// `self < other`.
    #[verifier::opaque]
    pub open spec fn below(self, other: F64) -> bool {
        below(double(), self.bits, other.bits)
    }

    /// `self <= other`.
    #[verifier::opaque]
    pub open spec fn at_most(self, other: F64) -> bool {
        at_most(double(), self.bits, other.bits)
    }

    /// Is this neither infinite nor something that is no number?
    #[verifier::opaque]
    pub open spec fn is_bounded(self) -> bool {
        finite(double(), self.bits)
    }

    /// Without its sign.
    #[verifier::opaque]
    pub open spec fn absolute(self) -> F64 {
        F64 { bits: magnitude(double(), self.bits) as u64 }
    }

    /// The number `n / 2^53`.
    #[verifier::opaque]
    pub open spec fn fraction(n: nat) -> F64 {
        F64 { bits: rounded(double(), n, 1021) as u64 }
    }

    /// The integer `n`, to the nearest double.
    #[verifier::opaque]
    pub open spec fn integer(n: int) -> F64 {
        F64 {
            bits: with_sign(
                double(),
                n < 0,
                rounded(
                    double(),
                    if n < 0 {
                        (-n) as nat
                    } else {
                        n as nat
                    },
                    1074,
                ),
            ) as u64,
        }
    }

    /// A single as a double.
    #[verifier::opaque]
    pub open spec fn widened(x: F32) -> F64 {
        F64 { bits: converted(single(), x.bits as u64, double()) as u64 }
    }

    /// To the nearest single.
    #[verifier::opaque]
    pub open spec fn narrowed(self) -> F32 {
        F32 { bits: converted(double(), self.bits, single()) as u32 }
    }

    /// Does the number lie from `lo` to `hi`?
    pub open spec fn within(self, lo: F64, hi: F64) -> bool {
        lo.at_most(self) && self.at_most(hi)
    }

    /// The number with the given pattern.
    pub fn from_bits(bits: u64) -> (r: F64)
        ensures
            r == (F64 { bits }),
    {
        F64 { bits }
    }

    pub fn plus(self, other: F64) -> (r: F64)
        ensures
            r == self.sum(other),
    {
        reveal(F64::sum);
        F64 { bits: plus(double_format(), self.bits, other.bits) }
    }

    pub fn minus(self, other: F64) -> (r: F64)
        ensures
            r == self.difference(other),
    {
        reveal(F64::negation);
        let turned: u64 = negate(double_format(), other.bits);
        self.plus(F64 { bits: turned })
    }

    pub fn negated(self) -> (r: F64)
        ensures
            r == self.negation(),
    {
        reveal(F64::negation);
        F64 { bits: negate(double_format(), self.bits) }
    }

    pub fn times(self, other: F64) -> (r: F64)
        ensures
            r == self.product(other),
    {
        reveal(F64::product);
        F64 { bits: multiply(double_format(), self.bits, other.bits) }
    }

    pub fn over(self, other: F64) -> (r: F64)
        ensures
            r == self.quotient(other),
    {
        reveal(F64::quotient);
        F64 { bits: divide(double_format(), self.bits, other.bits) }
    }

    pub fn sqrt(self) -> (r: F64)
        ensures
            r == self.root(),
    {
        reveal(F64::root);
        F64 { bits: square_root(double_format(), self.bits) }
    }

    pub fn lt(self, other: F64) -> (r: bool)
        ensures
            r == self.below(other),
    {
        reveal(F64::below);
        less(double_format(), self.bits, other.bits)
    }

    pub fn le(self, other: F64) -> (r: bool)
        ensures
            r == self.at_most(other),
    {
        reveal(F64::at_most);
        not_above(double_format(), self.bits, other.bits)
    }

    pub fn is_finite(self) -> (r: bool)
        ensures
            r == self.is_bounded(),
    {
        reveal(F64::is_bounded);
        let f: Format = double_format();
        let low: u64 = if self.bits >= 0x8000_0000_0000_0000 {
            self.bits - 0x8000_0000_0000_0000
        } else {
            self.bits
        };
        low < 0x7ff0_0000_0000_0000
    }

    pub fn abs(self) -> (r: F64)
        ensures
            r == self.absolute(),
    {
        reveal(F64::absolute);
        let f: Format = double_format();
        if self.bits >= 0x8000_0000_0000_0000 {
            F64 { bits: self.bits - 0x8000_0000_0000_0000 }
        } else {
            self
        }
    }

    /// Does the number lie from `lo` to `hi`?
    pub fn is_within(self, lo: F64, hi: F64) -> (r: bool)
        ensures
            r == self.within(lo, hi),
    {
        lo.le(self) && self.le(hi)
    }

    /// The number `n / 2^53`.
    pub fn from_fraction(n: u64) -> (r: F64)
        ensures
            r == F64::fraction(n as nat),
    {
        reveal(F64::fraction);
        proof {
            lemma_pow2_values();
            lemma_bit_length_below(n as nat, 64);
        }
        F64 { bits: round(double_format(), n as u128, 1021) }
    }

    /// The integer `n`, to the nearest double.
    pub fn from_i64(n: i64) -> (r: F64)
        ensures
            r == F64::integer(n as int),
    {
        reveal(F64::integer);
        proof {
            lemma_pow2_values();
        }
        if n < 0 {
            let m: u64 = if n == i64::MIN {
                0x8000_0000_0000_0000
            } else {
                (-n) as u64
            };
            proof {
                lemma_bit_length_below(m as nat, 64);
            }
            F64 { bits: round(double_format(), m as u128, 1074) + 0x8000_0000_0000_0000 }
        } else {
            proof {
                lemma_bit_length_below(n as nat, 64);
            }
            F64 { bits: round(double_format(), n as u128, 1074) }
        }
    }

    /// A single as a double.
    pub fn from_single(x: F32) -> (r: F64)
        ensures
            r == F64::widened(x),
    {
        reveal(F64::widened);
        F64 { bits: convert(single_format(), x.bits as u64, double_format()) }
    }

    /// To the nearest single.
    pub fn to_single(self) -> (r: F32)
        ensures
            r == self.narrowed(),
    {
        reveal(F64::narrowed);
        F32 { bits: convert(double_format(), self.bits, single_format()) as u32 }
    }
}

/// The sign bit of a square is clear.
proof fn lemma_square_is_not_negative(x: F64)
    ensures
        !negative(double(), x.product(x).bits),
{
    reveal(F64::product);
    lemma_double();
    let f = double();
    let m = magnitude(f, x.bits);
    lemma_rounded_bound(
        f,
        significand(f, m) * significand(f, m),
        scale(f, m) + scale(f, m) - f.depth(),
    );
}

/// A sum of two squares is never below what the first of them is not below.
pub proof fn law_squares_do_not_lower(x: F64, y: F64, limit: F64)
    ensures
        x.product(x).sum(y.product(y)).below(limit) ==> x.product(x).below(limit),
{
    lemma_square_is_not_negative(x);
    lemma_square_is_not_negative(y);
    lemma_double();
    law_sum_does_not_lower(double(), x.product(x).bits, y.product(y).bits, limit.bits);
    reveal(F64::sum);
    reveal(F64::below);
}

/// A sum of two squares has no sign.
pub proof fn lemma_squares_are_not_negative(x: F64, y: F64)
    ensures
        !negative(double(), x.product(x).sum(y.product(y)).bits),
{
    let f = double();
    let (a, b) = (x.product(x), y.product(y));
    lemma_square_is_not_negative(x);
    lemma_square_is_not_negative(y);
    lemma_double();
    reveal(F64::sum);
    if finite(f, a.bits) && finite(f, b.bits) {
        let n = value(f, a.bits) + value(f, b.bits);
        assert(n >= 0);
        lemma_rounded_bound(f, n as nat, 0);
    }
}

} // verus!
