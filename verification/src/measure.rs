//! Double-precision quantities held as IEEE-754 bit patterns, and their order.

use vstd::prelude::*;

verus! {

/// The bit that holds the sign of a double.
pub const SIGN_BIT: u64 = 0x8000_0000_0000_0000;

/// The bit pattern of positive infinity: every larger magnitude is a NaN.
pub const INFINITY_BITS: u64 = 0x7ff0_0000_0000_0000;

/// A point on the earth: longitude and latitude in degrees, each held as the
/// bit pattern of a double.
#[derive(Clone, Copy, PartialEq, Eq, Structural, Debug)]
pub struct Coordinate {
    pub lon_bits: u64,
    pub lat_bits: u64,
}

/// A length in kilometres, held as the bit pattern of a double
/// (what `to_bits` gives, and `from_bits` takes back).
#[derive(Clone, Copy, PartialEq, Eq, Structural, Debug)]
pub struct Km {
    pub bits: u64,
}

impl Km {
    /// The sign bit is set (this includes negative zero).
    pub open spec fn is_negative(self) -> bool {
        self.bits >= SIGN_BIT
    }

    /// The bit pattern without its sign bit.
    pub open spec fn magnitude(self) -> int {
        if self.bits >= SIGN_BIT {
            self.bits - SIGN_BIT
        } else {
            self.bits as int
        }
    }

    /// The value is not a number: the exponent is all ones and the fraction is not zero.
    pub open spec fn is_nan(self) -> bool {
        self.magnitude() > INFINITY_BITS
    }

    /// An integer that orders the numbers as their values do: the magnitude
    /// for a positive number, its opposite for a negative one. Both zeros have rank 0.
    pub open spec fn rank(self) -> int {
        if self.is_negative() {
            -self.magnitude()
        } else {
            self.magnitude()
        }
    }

    /// `self < other` as IEEE-754 defines it: false when either is a NaN.
    pub open spec fn is_less(self, other: Km) -> bool {
        !self.is_nan() && !other.is_nan() && self.rank() < other.rank()
    }

    /// `self <= other` as IEEE-754 defines it: false when either is a NaN.
    pub open spec fn is_at_most(self, other: Km) -> bool {
        !self.is_nan() && !other.is_nan() && self.rank() <= other.rank()
    }

    fn magnitude_bits(&self) -> (m: u64)
        ensures
            m == self.magnitude(),
    {
        if self.bits >= SIGN_BIT {
            self.bits - SIGN_BIT
        } else {
            self.bits
        }
    }

    /// Whether `self < other`.
    pub fn less_than(&self, other: &Km) -> (r: bool)
        ensures
            r == self.is_less(*other),
    {
        let a: u64 = self.magnitude_bits();
        let b: u64 = other.magnitude_bits();
        if a > INFINITY_BITS || b > INFINITY_BITS {
            false
        } else if self.bits >= SIGN_BIT {
            if other.bits >= SIGN_BIT {
                a > b
            } else {
                a > 0 || b > 0
            }
        } else {
            other.bits < SIGN_BIT && a < b
        }
    }

    /// Whether `self <= other`.
    pub fn at_most(&self, other: &Km) -> (r: bool)
        ensures
            r == self.is_at_most(*other),
    {
        let a: u64 = self.magnitude_bits();
        let b: u64 = other.magnitude_bits();
        if a > INFINITY_BITS || b > INFINITY_BITS {
            false
        } else if self.bits >= SIGN_BIT {
            other.bits < SIGN_BIT || a >= b
        } else if other.bits >= SIGN_BIT {
            a == 0 && b == 0
        } else {
            a <= b
        }
    }
}

/// No number is less than itself, and the order is transitive.
pub proof fn lemma_order_is_strict(a: Km, b: Km, c: Km)
    ensures
        !a.is_less(a),
        a.is_less(b) && b.is_less(c) ==> a.is_less(c),
        a.is_at_most(b) && b.is_at_most(c) ==> a.is_at_most(c),
        a.is_less(b) ==> a.is_at_most(b),
{
}

} // verus!
