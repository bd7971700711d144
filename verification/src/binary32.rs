//! Binary32 floating-point numbers, held as their bit patterns.
//!
//! All arithmetic is done on integers, so that a result is the same on every
//! machine: each operation gives the exact result rounded to the nearest
//! number, ties going to the even significand. A result that is not a number
//! has one bit pattern here, [`NAN`].
use crate::rounding::{
    lemma_units_at_least, lemma_units_increase, nearest, saturated, units_of, INFINITE,
};
use vstd::prelude::*;

verus! {

/// One past the largest magnitude; also the weight of the sign bit.
pub const SIGN: u32 = 0x8000_0000;

/// How many halvings lead from one to the smallest subnormal number.
pub const UNIT_EXPONENT: u32 = 149;

/// The pattern of every result that is not a number.
pub const NAN: u32 = 0x7fc0_0000;

pub const INFINITY: u32 = 0x7f80_0000;

pub const NEG_INFINITY: u32 = 0xff80_0000;

pub const ZERO: u32 = 0;

pub const HALF: u32 = 0x3f00_0000;

pub const ONE: u32 = 0x3f80_0000;

pub const NEG_ONE: u32 = 0xbf80_0000;

pub const THREE: u32 = 0x4040_0000;

/// A binary32 number. Two values are equal (`==`) when their bit patterns are;
/// [`Binary32::le`] and [`Binary32::lt`] compare the numbers.
#[derive(Clone, Copy, Debug, PartialEq, Eq, Structural)]
pub struct Binary32 {
    pub bits: u32,
}

pub open spec fn absolute(value: int) -> nat {
    if value < 0 {
        (-value) as nat
    } else {
        value as nat
    }
}

impl Binary32 {
    /// The number with the given bit pattern.
    #[verifier::allow_in_spec]
    pub fn of(bits: u32) -> Binary32
        returns
            (Binary32 { bits }),
    {
        Binary32 { bits }
    }

    /// Whether the sign bit is set.
    pub open spec fn negative(self) -> bool {
        self.bits >= SIGN
    }

    /// The bit pattern without the sign bit.
    pub open spec fn magnitude(self) -> nat {
        if self.negative() {
            (self.bits - SIGN) as nat
        } else {
            self.bits as nat
        }
    }

    /// The magnitude with the sign, zeros of both signs alike.
    pub open spec fn signed_magnitude(self) -> int {
        if self.negative() {
            -self.magnitude()
        } else {
            self.magnitude() as int
        }
    }

    pub open spec fn spec_is_nan(self) -> bool {
        self.magnitude() > INFINITE
    }

    pub open spec fn infinite(self) -> bool {
        self.magnitude() == INFINITE
    }

    pub open spec fn spec_is_finite(self) -> bool {
        self.magnitude() < INFINITE
    }

    /// Whether the number is a zero of either sign.
    pub open spec fn zero(self) -> bool {
        self.magnitude() == 0
    }

    /// The number counted in units of the smallest subnormal. An infinity
    /// counts as the first power of two past every finite number.
    pub open spec fn units(self) -> int {
        if self.negative() {
            -(units_of(self.magnitude()) as int)
        } else {
            units_of(self.magnitude()) as int
        }
    }

    /// The number with the given sign and magnitude.
    pub open spec fn spec_signed(negative: bool, magnitude: nat) -> Binary32 {
        Binary32 {
            bits: (magnitude + if negative {
                SIGN as int
            } else {
                0
            }) as u32,
        }
    }

    /// The quotient `n / d`, counted in units, rounded and given a sign.
    pub open spec fn rounded(negative: bool, n: nat, d: nat) -> Binary32 {
        Binary32::spec_signed(negative, saturated(nearest(n, d)))
    }

    /// `self <= other`; false where either is not a number.
    #[verifier::opaque]
    pub open spec fn spec_le(self, other: Binary32) -> bool {
        !self.is_nan() && !other.is_nan() && self.units() <= other.units()
    }

    /// `self < other`; false where either is not a number.
    #[verifier::opaque]
    pub open spec fn spec_lt(self, other: Binary32) -> bool {
        !self.is_nan() && !other.is_nan() && self.units() < other.units()
    }

    /// The place in the total order of bit patterns: from negative patterns
    /// that are no numbers, over the numbers with the negative zero before
    /// the positive one, to positive patterns that are no numbers.
    pub open spec fn spec_rank(self) -> i64 {
        if self.negative() {
            (-1 - self.magnitude()) as i64
        } else {
            self.magnitude() as i64
        }
    }

    pub open spec fn spec_neg(self) -> Binary32 {
        Binary32::spec_signed(!self.negative(), self.magnitude())
    }

    pub open spec fn spec_abs(self) -> Binary32 {
        Binary32::spec_signed(false, self.magnitude())
    }

    /// The lesser number; the other operand where one is not a number.
    pub open spec fn spec_least(self, other: Binary32) -> Binary32 {
        if self.is_nan() || other.lt(self) {
            other
        } else {
            self
        }
    }

    /// The greater number; the other operand where one is not a number.
    pub open spec fn spec_greatest(self, other: Binary32) -> Binary32 {
        if self.is_nan() || self.lt(other) {
            other
        } else {
            self
        }
    }

    #[verifier::when_used_as_spec(spec_is_nan)]
    pub fn is_nan(self) -> (result: bool)
        ensures
            result == self.spec_is_nan(),
    {
        self.size() > INFINITE
    }

    #[verifier::when_used_as_spec(spec_is_finite)]
    pub fn is_finite(self) -> (result: bool)
        ensures
            result == self.spec_is_finite(),
    {
        self.size() < INFINITE
    }

    pub(crate) fn is_negative(self) -> (result: bool)
        ensures
            result == self.negative(),
    {
        self.bits >= SIGN
    }

    pub(crate) fn size(self) -> (result: u32)
        ensures
            result == self.magnitude(),
            result < SIGN,
    {
        if self.bits >= SIGN {
            self.bits - SIGN
        } else {
            self.bits
        }
    }

    #[verifier::when_used_as_spec(spec_rank)]
    pub fn rank(self) -> (result: i64)
        ensures
            result == self.spec_rank(),
    {
        let size = self.size() as i64;
        if self.is_negative() {
            -1 - size
        } else {
            size
        }
    }

    pub(crate) fn signed(negative: bool, magnitude: u32) -> (result: Binary32)
        requires
            magnitude < SIGN,
        ensures
            result == Binary32::spec_signed(negative, magnitude as nat),
            result.negative() == negative,
            result.magnitude() == magnitude,
    {
        Binary32 {
            bits: if negative {
                magnitude + SIGN
            } else {
                magnitude
            },
        }
    }

    #[verifier::when_used_as_spec(spec_neg)]
    pub fn neg(self) -> (result: Binary32)
        ensures
            result == self.spec_neg(),
    {
        Binary32::signed(!self.is_negative(), self.size())
    }

    #[verifier::when_used_as_spec(spec_abs)]
    pub fn abs(self) -> (result: Binary32)
        ensures
            result == self.spec_abs(),
    {
        Binary32::signed(false, self.size())
    }

    fn signed_size(self) -> (result: i64)
        ensures
            result == self.signed_magnitude(),
    {
        let size = self.size() as i64;
        if self.is_negative() {
            -size
        } else {
            size
        }
    }

    #[verifier::when_used_as_spec(spec_le)]
    pub fn le(self, other: Binary32) -> (result: bool)
        ensures
            result == self.spec_le(other),
    {
        proof {
            reveal(Binary32::spec_le);
            lemma_units_follow_signed_size(self, other);
            lemma_units_follow_signed_size(other, self);
        }
        !self.is_nan() && !other.is_nan() && self.signed_size() <= other.signed_size()
    }

    #[verifier::when_used_as_spec(spec_lt)]
    pub fn lt(self, other: Binary32) -> (result: bool)
        ensures
            result == self.spec_lt(other),
    {
        proof {
            reveal(Binary32::spec_lt);
            lemma_units_follow_signed_size(self, other);
            lemma_units_follow_signed_size(other, self);
        }
        !self.is_nan() && !other.is_nan() && self.signed_size() < other.signed_size()
    }

    #[verifier::when_used_as_spec(spec_least)]
    pub fn least(self, other: Binary32) -> (result: Binary32)
        ensures
            result == self.spec_least(other),
    {
        if self.is_nan() || other.lt(self) {
            other
        } else {
            self
        }
    }

    #[verifier::when_used_as_spec(spec_greatest)]
    pub fn greatest(self, other: Binary32) -> (result: Binary32)
        ensures
            result == self.spec_greatest(other),
    {
        if self.is_nan() || self.lt(other) {
            other
        } else {
            self
        }
    }
}

/// The order of signed magnitudes is the order of the numbers.
proof fn lemma_units_follow_signed_size(a: Binary32, b: Binary32)
    ensures
        a.signed_magnitude() < b.signed_magnitude() ==> a.units() < b.units(),
        a.signed_magnitude() == b.signed_magnitude() ==> a.units() == b.units(),
{
    lemma_units_at_least(a.magnitude());
    lemma_units_at_least(b.magnitude());
    if a.magnitude() < b.magnitude() {
        lemma_units_increase(a.magnitude(), b.magnitude());
    } else if b.magnitude() < a.magnitude() {
        lemma_units_increase(b.magnitude(), a.magnitude());
    }
}

/// The total order of bit patterns is the order of the numbers.
pub proof fn law_rank_orders_numbers(a: Binary32, b: Binary32)
    requires
        !a.is_nan(),
        !b.is_nan(),
    ensures
        a.lt(b) ==> a.rank() < b.rank(),
        a.rank() <= b.rank() ==> a.le(b),
{
    reveal(Binary32::spec_lt);
    reveal(Binary32::spec_le);
    lemma_units_follow_signed_size(a, b);
    lemma_units_follow_signed_size(b, a);
}

} // verus!
