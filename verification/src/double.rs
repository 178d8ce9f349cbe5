//! IEEE 754 binary64 numbers, held as their bit patterns.
//!
//! Prices, indicator values and profits are binary64 numbers everywhere. This module gives them
//! a mathematical meaning: every finite number is an integer multiple of `2^-1074`, so the value
//! of a number is an integer count of such units. Arithmetic is specified as the exact rational
//! result, rounded once to the nearest representable number, ties to the even significand.

pub mod exact;
pub mod fixed;
pub mod laws;
pub mod magnitude;
pub mod model;
pub mod parse;
pub mod reading;
pub mod rounding;

use crate::double::magnitude::{add_magnitudes, divide, multiply, subtract_magnitudes};
use crate::double::magnitude::{lemma_parts, lemma_units_increase};
use crate::double::model::{magnitude_units, rounded, INFINITY_BITS, SIGN_BIT};
use vstd::arithmetic::power2::*;
use vstd::prelude::*;

verus! {

/// A binary64 number, as its bit pattern: sign bit, eleven exponent bits, 52 fraction bits.
#[derive(Clone, Copy, Debug, PartialEq, Eq, Structural)]
pub struct Double {
    pub bits: u64,
}

/// Bit pattern of the quiet not-a-number that invalid operations give.
pub const NAN_BITS: u64 = 0x7ff8_0000_0000_0000;

/// What an invalid operation gives.
pub open spec fn nan() -> Double {
    Double { bits: NAN_BITS }
}

/// The number with the given sign and magnitude.
pub open spec fn signed(negative: bool, mag: nat) -> Double {
    Double {
        bits: (if negative {
            mag + SIGN_BIT
        } else {
            mag as int
        }) as u64,
    }
}

/// The distance of an integer from zero.
pub open spec fn abs(x: int) -> nat {
    (if x < 0 {
        -x
    } else {
        x
    }) as nat
}

impl Double {
    /// Whether the sign bit is set.
    pub open spec fn negative(self) -> bool {
        self.bits >= SIGN_BIT
    }

    /// The bit pattern without its sign.
    pub open spec fn magnitude(self) -> nat {
        (if self.negative() {
            self.bits - SIGN_BIT
        } else {
            self.bits as int
        }) as nat
    }

    pub open spec fn is_nan(self) -> bool {
        self.magnitude() > INFINITY_BITS
    }

    pub open spec fn is_infinite(self) -> bool {
        self.magnitude() == INFINITY_BITS
    }

    pub open spec fn is_finite(self) -> bool {
        self.magnitude() < INFINITY_BITS
    }

    /// Whether this is zero, of either sign.
    pub open spec fn is_zero(self) -> bool {
        self.magnitude() == 0
    }

    /// The value, counted in units of `2^-1074`. An infinity counts as `2^1024` of its sign, one
    /// step past the largest finite number.
    pub open spec fn units(self) -> int {
        if self.negative() {
            -(magnitude_units(self.magnitude()) as int)
        } else {
            magnitude_units(self.magnitude()) as int
        }
    }

    /// The number with the opposite sign.
    pub open spec fn negated(self) -> Double {
        signed(!self.negative(), self.magnitude())
    }

    /// The place of this number among all numbers: its magnitude, with its sign. Both zeros have
    /// the same place.
    pub open spec fn place(self) -> int {
        if self.negative() {
            -(self.magnitude() as int)
        } else {
            self.magnitude() as int
        }
    }

    /// Whether this number lies below `other`; nothing lies below or above a not-a-number.
    pub open spec fn is_below(self, other: Double) -> bool {
        !self.is_nan() && !other.is_nan() && self.place() < other.place()
    }

    /// Whether this number lies at or below `other`; a not-a-number does not.
    pub open spec fn is_at_most(self, other: Double) -> bool {
        !self.is_nan() && !other.is_nan() && self.place() <= other.place()
    }

    /// The sum, correctly rounded.
    pub open spec fn sum(self, other: Double) -> Double {
        let total = self.units() + other.units();
        if self.is_nan() || other.is_nan() {
            nan()
        } else if self.is_infinite() && other.is_infinite() && self.negative()
            != other.negative() {
            nan()
        } else if self.is_infinite() {
            self
        } else if other.is_infinite() {
            other
        } else if total == 0 {
            signed(self.negative() && other.negative(), 0)
        } else {
            signed(total < 0, rounded(abs(total), 1))
        }
    }

    /// The difference, correctly rounded.
    pub open spec fn difference(self, other: Double) -> Double {
        self.sum(other.negated())
    }

    /// The product, correctly rounded.
    pub open spec fn product(self, other: Double) -> Double {
        let negative = self.negative() != other.negative();
        if self.is_nan() || other.is_nan() {
            nan()
        } else if self.is_infinite() && other.is_zero() || self.is_zero() && other.is_infinite() {
            nan()
        } else if self.is_infinite() || other.is_infinite() {
            signed(negative, INFINITY_BITS as nat)
        } else {
            signed(negative, rounded(abs(self.units()) * abs(other.units()), pow2(1074)))
        }
    }

    /// The quotient, correctly rounded.
    pub open spec fn quotient(self, other: Double) -> Double {
        let negative = self.negative() != other.negative();
        if self.is_nan() || other.is_nan() {
            nan()
        } else if self.is_infinite() && other.is_infinite() || self.is_zero()
            && other.is_zero() {
            nan()
        } else if self.is_infinite() || other.is_zero() {
            signed(negative, INFINITY_BITS as nat)
        } else if other.is_infinite() {
            signed(negative, 0)
        } else {
            signed(negative, rounded(abs(self.units()) * pow2(1074), abs(other.units())))
        }
    }
}

impl Double {
    /// The sign and the magnitude.
    pub(crate) fn split(self) -> (r: (bool, u64))
        ensures
            r.0 == self.negative(),
            r.1 == self.magnitude(),
            r.1 < SIGN_BIT,
    {
        if self.bits >= SIGN_BIT {
            (true, self.bits - SIGN_BIT)
        } else {
            (false, self.bits)
        }
    }

    /// Puts a sign on a magnitude.
    pub(crate) fn join(negative: bool, mag: u64) -> (r: Double)
        requires
            mag < SIGN_BIT,
        ensures
            r == signed(negative, mag as nat),
    {
        if negative {
            Double { bits: mag + SIGN_BIT }
        } else {
            Double { bits: mag }
        }
    }

    /// Whether this number lies below `other`, as `<` decides it.
    pub fn lt(self, other: Double) -> (r: bool)
        ensures
            r == self.is_below(other),
    {
        let (a_neg, a) = self.split();
        let (b_neg, b) = other.split();
        if a > INFINITY_BITS || b > INFINITY_BITS {
            return false;
        }
        if a_neg {
            if b_neg {
                b < a
            } else {
                a > 0 || b > 0
            }
        } else {
            !b_neg && a < b
        }
    }

    /// Whether this number lies above `other`, as `>` decides it.
    pub fn gt(self, other: Double) -> (r: bool)
        ensures
            r == other.is_below(self),
    {
        other.lt(self)
    }

    /// Whether this number lies at or below `other`, as `<=` decides it.
    pub fn le(self, other: Double) -> (r: bool)
        ensures
            r == self.is_at_most(other),
    {
        let (_, a) = self.split();
        let (_, b) = other.split();
        a <= INFINITY_BITS && b <= INFINITY_BITS && !other.lt(self)
    }

    /// The number with the opposite sign.
    pub fn negate(self) -> (r: Double)
        ensures
            r == self.negated(),
    {
        if self.bits >= SIGN_BIT {
            Double { bits: self.bits - SIGN_BIT }
        } else {
            Double { bits: self.bits + SIGN_BIT }
        }
    }

    /// The sum, as `+` gives it; a result that is not a number has the canonical bit pattern.
    pub fn plus(self, other: Double) -> (r: Double)
        ensures
            r == self.sum(other),
    {
        let (a_neg, a) = self.split();
        let (b_neg, b) = other.split();
        if a > INFINITY_BITS || b > INFINITY_BITS {
            return Double { bits: NAN_BITS };
        }
        if a == INFINITY_BITS {
            if b == INFINITY_BITS && a_neg != b_neg {
                return Double { bits: NAN_BITS };
            }
            return self;
        }
        if b == INFINITY_BITS {
            return other;
        }
        proof {
            lemma_parts(a as nat);
            lemma_parts(b as nat);
            if a < b {
                lemma_units_increase(a as nat, b as nat);
            }
            if b < a {
                lemma_units_increase(b as nat, a as nat);
            }
        }
        if a_neg == b_neg {
            if a == 0 && b == 0 {
                return self;
            }
            if a >= b {
                Double::join(a_neg, add_magnitudes(a, b))
            } else {
                Double::join(a_neg, add_magnitudes(b, a))
            }
        } else if a == b {
            Double { bits: 0 }
        } else if a > b {
            Double::join(a_neg, subtract_magnitudes(a, b))
        } else {
            Double::join(b_neg, subtract_magnitudes(b, a))
        }
    }

    /// The difference, as `-` gives it.
    pub fn minus(self, other: Double) -> (r: Double)
        ensures
            r == self.difference(other),
    {
        self.plus(other.negate())
    }

    /// The product, as `*` gives it.
    pub fn times(self, other: Double) -> (r: Double)
        ensures
            r == self.product(other),
    {
        let (a_neg, a) = self.split();
        let (b_neg, b) = other.split();
        if a > INFINITY_BITS || b > INFINITY_BITS {
            return Double { bits: NAN_BITS };
        }
        if a == INFINITY_BITS && b == 0 || a == 0 && b == INFINITY_BITS {
            return Double { bits: NAN_BITS };
        }
        if a == INFINITY_BITS || b == INFINITY_BITS {
            return Double::join(a_neg != b_neg, INFINITY_BITS);
        }
        Double::join(a_neg != b_neg, multiply(a, b))
    }

    /// The quotient, as `/` gives it.
    pub fn over(self, other: Double) -> (r: Double)
        ensures
            r == self.quotient(other),
    {
        let (a_neg, a) = self.split();
        let (b_neg, b) = other.split();
        if a > INFINITY_BITS || b > INFINITY_BITS {
            return Double { bits: NAN_BITS };
        }
        if a == INFINITY_BITS && b == INFINITY_BITS || a == 0 && b == 0 {
            return Double { bits: NAN_BITS };
        }
        if a == INFINITY_BITS || b == 0 {
            return Double::join(a_neg != b_neg, INFINITY_BITS);
        }
        if b == INFINITY_BITS {
            return Double::join(a_neg != b_neg, 0);
        }
        Double::join(a_neg != b_neg, divide(a, b))
    }
}

/// The order of numbers is the order of their values.
pub proof fn law_order_is_by_value(a: Double, b: Double)
    requires
        !a.is_nan(),
        !b.is_nan(),
    ensures
        a.is_below(b) <==> a.units() < b.units(),
        a.is_at_most(b) <==> a.units() <= b.units(),
{
    let (m, n) = (a.magnitude(), b.magnitude());
    lemma_parts(m);
    lemma_parts(n);
    if m < n {
        lemma_units_increase(m, n);
    }
    if n < m {
        lemma_units_increase(n, m);
    }
}

} // verus!
