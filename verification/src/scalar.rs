//! Single-precision values by bit pattern, and their order.
//!
//! A [`Scalar`] holds the 32 bits of an IEEE-754 binary32 value: one sign bit,
//! eight exponent bits, twenty-three fraction bits. Its order is decided on the
//! bits alone: a value that is not a number compares false with everything, the
//! two zeros are equal, and otherwise the sign and the magnitude field decide.

use vstd::prelude::*;

verus! {

/// The sign bit of a bit pattern.
pub const SIGN_BIT: u32 = 0x8000_0000u32;

/// The magnitude field of positive infinity; larger magnitudes are not numbers.
pub const INFINITY_BITS: u32 = 0x7f80_0000u32;

/// The bit pattern of `0.0`.
pub const ZERO_BITS: u32 = 0u32;

/// The bit pattern of `1.0`.
pub const ONE_BITS: u32 = 0x3f80_0000u32;

/// The bit pattern of the largest finite value.
pub const MAX_BITS: u32 = 0x7f7f_ffffu32;

/// The bit pattern of the smallest (most negative) finite value.
pub const MIN_BITS: u32 = 0xff7f_ffffu32;

/// A single-precision value, held as its bit pattern.
#[derive(Clone, Copy, Debug, PartialEq, Eq, Structural)]
pub struct Scalar {
    pub bits: u32,
}

impl Scalar {
    /// The bits without the sign bit.
    pub open spec fn magnitude(self) -> int {
        if self.bits >= SIGN_BIT {
            self.bits - SIGN_BIT
        } else {
            self.bits as int
        }
    }

    /// Whether the sign bit is set.
    pub open spec fn negative(self) -> bool {
        self.bits >= SIGN_BIT
    }

    /// Whether the pattern stands for no number.
    pub open spec fn is_nan(self) -> bool {
        self.magnitude() > INFINITY_BITS
    }

    /// The place of a number on the line of integers: larger values have larger
    /// ranks, and both zeros have rank 0.
    pub open spec fn rank(self) -> int {
        if self.negative() {
            -self.magnitude()
        } else {
            self.magnitude()
        }
    }

    /// `self < other`.
    pub open spec fn less(self, other: Scalar) -> bool {
        !self.is_nan() && !other.is_nan() && self.rank() < other.rank()
    }

    /// `self <= other`.
    pub open spec fn less_eq(self, other: Scalar) -> bool {
        !self.is_nan() && !other.is_nan() && self.rank() <= other.rank()
    }

    /// The smaller of two values as the renderer takes it: `a` if `a < b`, else `b`.
    pub open spec fn fmin_of(a: Scalar, b: Scalar) -> Scalar {
        if a.less(b) {
            a
        } else {
            b
        }
    }

    /// The larger of two values as the renderer takes it: `a` if `a > b`, else `b`.
    pub open spec fn fmax_of(a: Scalar, b: Scalar) -> Scalar {
        if b.less(a) {
            a
        } else {
            b
        }
    }

    /// `self < lo || self > hi`: the value lies on the line outside the range
    /// from `lo` to `hi`. A pattern that is no number lies nowhere on the
    /// line, so it is not outside.
    pub open spec fn outside(self, lo: Scalar, hi: Scalar) -> bool {
        self.less(lo) || hi.less(self)
    }

    /// `lo < self && self < hi`.
    pub open spec fn strictly_between(self, lo: Scalar, hi: Scalar) -> bool {
        lo.less(self) && self.less(hi)
    }

    /// The value with its sign turned round: the same magnitude, the other
    /// sign bit.
    pub open spec fn opposite(self) -> Scalar {
        if self.bits >= SIGN_BIT {
            Scalar { bits: (self.bits - SIGN_BIT) as u32 }
        } else {
            Scalar { bits: (self.bits + SIGN_BIT) as u32 }
        }
    }

    /// The value is a number, and not an infinite one.
    pub open spec fn is_finite(self) -> bool {
        self.magnitude() < INFINITY_BITS
    }

    /// The next pattern up the line: of a finite value, the smallest value
    /// above it.
    pub open spec fn above(self) -> Scalar {
        if self.magnitude() == 0 {
            Scalar { bits: 1 }
        } else if self.negative() {
            Scalar { bits: (self.bits - 1) as u32 }
        } else {
            Scalar { bits: (self.bits + 1) as u32 }
        }
    }

    /// The next pattern down the line: of a finite value, the largest value
    /// below it.
    pub open spec fn below(self) -> Scalar {
        if self.magnitude() == 0 {
            Scalar { bits: (SIGN_BIT + 1) as u32 }
        } else if !self.negative() {
            Scalar { bits: (self.bits - 1) as u32 }
        } else if self.bits == u32::MAX {
            self
        } else {
            Scalar { bits: (self.bits + 1) as u32 }
        }
    }

    pub fn from_bits(bits: u32) -> (s: Scalar)
        ensures
            s.bits == bits,
    {
        Scalar { bits }
    }

    pub fn to_bits(self) -> (bits: u32)
        ensures
            bits == self.bits,
    {
        self.bits
    }

    /// `0.0`.
    pub fn zero() -> (s: Scalar)
        ensures
            s.bits == ZERO_BITS,
            !s.is_nan(),
            s.rank() == 0,
    {
        Scalar { bits: ZERO_BITS }
    }

    /// `1.0`.
    pub fn one() -> (s: Scalar)
        ensures
            s.bits == ONE_BITS,
            !s.is_nan(),
    {
        Scalar { bits: ONE_BITS }
    }

    /// The largest finite value.
    pub fn largest() -> (s: Scalar)
        ensures
            s.bits == MAX_BITS,
            !s.is_nan(),
    {
        Scalar { bits: MAX_BITS }
    }

    /// The smallest finite value.
    pub fn smallest() -> (s: Scalar)
        ensures
            s.bits == MIN_BITS,
            !s.is_nan(),
    {
        Scalar { bits: MIN_BITS }
    }

    fn magnitude_bits(self) -> (m: u32)
        ensures
            m == self.magnitude(),
            m < SIGN_BIT,
    {
        if self.bits >= SIGN_BIT {
            self.bits - SIGN_BIT
        } else {
            self.bits
        }
    }

    pub fn is_not_a_number(self) -> (r: bool)
        ensures
            r == self.is_nan(),
    {
        self.magnitude_bits() > INFINITY_BITS
    }

    /// The rank as a machine integer.
    pub fn order_key(self) -> (k: i64)
        ensures
            k == self.rank(),
    {
        let m: i64 = self.magnitude_bits() as i64;
        if self.bits >= SIGN_BIT {
            -m
        } else {
            m
        }
    }

    /// `self < other`.
    pub fn lt(self, other: Scalar) -> (r: bool)
        ensures
            r == self.less(other),
    {
        !self.is_not_a_number() && !other.is_not_a_number() && self.order_key()
            < other.order_key()
    }

    /// `self <= other`.
    pub fn le(self, other: Scalar) -> (r: bool)
        ensures
            r == self.less_eq(other),
    {
        !self.is_not_a_number() && !other.is_not_a_number() && self.order_key()
            <= other.order_key()
    }

    /// `self > other`.
    pub fn gt(self, other: Scalar) -> (r: bool)
        ensures
            r == other.less(self),
    {
        other.lt(self)
    }

    /// `self >= other`.
    pub fn ge(self, other: Scalar) -> (r: bool)
        ensures
            r == other.less_eq(self),
    {
        other.le(self)
    }

    /// The smallest value above a finite value.
    pub fn next_up(self) -> (r: Scalar)
        ensures
            r == self.above(),
            self.is_finite() ==> !r.is_nan() && r.rank() == self.rank() + 1,
    {
        if self.bits == 0 || self.bits == SIGN_BIT {
            Scalar { bits: 1 }
        } else if self.bits > SIGN_BIT {
            Scalar { bits: self.bits - 1 }
        } else {
            Scalar { bits: self.bits + 1 }
        }
    }

    /// The largest value below a finite value.
    pub fn next_down(self) -> (r: Scalar)
        ensures
            r == self.below(),
            self.is_finite() ==> !r.is_nan() && r.rank() == self.rank() - 1,
    {
        if self.bits == 0 || self.bits == SIGN_BIT {
            Scalar { bits: SIGN_BIT + 1 }
        } else if self.bits < SIGN_BIT {
            Scalar { bits: self.bits - 1 }
        } else if self.bits == u32::MAX {
            self
        } else {
            Scalar { bits: self.bits + 1 }
        }
    }

    /// Minus the value.
    pub fn negated(self) -> (r: Scalar)
        ensures
            r == self.opposite(),
            r.magnitude() == self.magnitude(),
            r.is_nan() == self.is_nan(),
            r.rank() == -self.rank(),
            r.opposite() == self,
    {
        if self.bits >= SIGN_BIT {
            Scalar { bits: self.bits - SIGN_BIT }
        } else {
            Scalar { bits: self.bits + SIGN_BIT }
        }
    }

    /// `self < lo || self > hi`.
    pub fn is_outside(self, lo: Scalar, hi: Scalar) -> (r: bool)
        ensures
            r == self.outside(lo, hi),
    {
        self.lt(lo) || self.gt(hi)
    }

    /// `lo < self && self < hi`.
    pub fn is_strictly_between(self, lo: Scalar, hi: Scalar) -> (r: bool)
        ensures
            r == self.strictly_between(lo, hi),
    {
        self.gt(lo) && self.lt(hi)
    }
}

/// `a` if `a > b`, else `b`.
pub fn fmax(a: Scalar, b: Scalar) -> (m: Scalar)
    ensures
        m == Scalar::fmax_of(a, b),
{
    if a.gt(b) {
        a
    } else {
        b
    }
}

/// `a` if `a < b`, else `b`.
pub fn fmin(a: Scalar, b: Scalar) -> (m: Scalar)
    ensures
        m == Scalar::fmin_of(a, b),
{
    if a.lt(b) {
        a
    } else {
        b
    }
}

} // verus!
