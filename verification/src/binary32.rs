use vstd::prelude::*;

verus! {

/// A real number carried in the IEEE-754 binary32 interchange encoding.
///
/// The library never computes with such numbers; it only orders and
/// classifies them, which the encoding allows with integer operations
/// alone: the sign is the top bit, and below it the magnitude bits grow
/// with the absolute value, up to the infinities and then the NaNs.
#[derive(Clone, Copy, Debug, PartialEq, Eq, Structural, Hash)]
pub struct Real32(pub u32);

/// Encoding of positive zero.
pub const ZERO_BITS: u32 = 0x0000_0000;

/// Encoding of one.
pub const ONE_BITS: u32 = 0x3f80_0000;

/// Encoding of positive infinity.
pub const INFINITY_BITS: u32 = 0x7f80_0000;

/// Mask of the magnitude bits (everything but the sign).
pub const MAGNITUDE_MASK: u32 = 0x7fff_ffff;

pub proof fn lemma_magnitude_bound(x: u32)
    ensures
        x & 0x7fff_ffff <= 0x7fff_ffff,
        x < 0x8000_0000 ==> x & 0x7fff_ffff == x,
        x >= 0x8000_0000 ==> x & 0x7fff_ffff == x - 0x8000_0000,
{
    assert(x & 0x7fff_ffff <= 0x7fff_ffff) by (bit_vector);
    assert(x < 0x8000_0000 ==> x & 0x7fff_ffff == x) by (bit_vector);
    assert(x >= 0x8000_0000 ==> x & 0x7fff_ffff == x - 0x8000_0000) by (bit_vector);
}

/// The classification read from the encoding's fields: a number is finite
/// exactly when its exponent bits are not all set, NaN exactly when they are
/// and the fraction is not zero, and negative-signed exactly when the top bit
/// is set.
pub proof fn lemma_classification_by_fields(x: u32)
    ensures
        Real32(x).finite() <==> (x & 0x7f80_0000) != 0x7f80_0000,
        Real32(x).nan() <==> (x & 0x7f80_0000) == 0x7f80_0000 && (x & 0x007f_ffff) != 0,
        Real32(x).sign_set() <==> (x >> 31u32) == 1,
{
    lemma_magnitude_bound(x);
    assert((x & 0x7fff_ffff) < 0x7f80_0000 <==> (x & 0x7f80_0000) != 0x7f80_0000) by (bit_vector);
    assert((x & 0x7fff_ffff) > 0x7f80_0000 <==> ((x & 0x7f80_0000) == 0x7f80_0000 && (x & 0x007f_ffff)
        != 0)) by (bit_vector);
    assert(x >= 0x8000_0000 <==> (x >> 31u32) == 1) by (bit_vector);
}

impl Real32 {
    /// The sign bit is set (negative numbers, negative zero, negative NaNs).
    pub open spec fn sign_set(self) -> bool {
        self.0 >= 0x8000_0000
    }

    /// The magnitude bits: the encoding without its sign bit.
    pub open spec fn magnitude(self) -> u32 {
        if self.sign_set() {
            (self.0 - 0x8000_0000) as u32
        } else {
            self.0
        }
    }

    /// Not a number: all exponent bits set and a non-zero fraction.
    pub open spec fn nan(self) -> bool {
        self.magnitude() > 0x7f80_0000
    }

    /// Neither infinite nor NaN.
    pub open spec fn finite(self) -> bool {
        self.magnitude() < 0x7f80_0000
    }

    /// Finite and strictly greater than zero.
    pub open spec fn positive(self) -> bool {
        self.finite() && !self.sign_set() && self.magnitude() > 0
    }

    /// The position of a non-NaN number on the real line: two numbers
    /// compare as their ranks do (both zeros share rank 0).
    pub open spec fn rank(self) -> int {
        if self.sign_set() {
            -(self.magnitude() as int)
        } else {
            self.magnitude() as int
        }
    }

    /// The position in the total order of the encoding, in which negative
    /// zero precedes positive zero and NaNs sit beyond the infinities.
    pub open spec fn total_rank(self) -> int {
        if self.sign_set() {
            -(self.magnitude() as int) - 1
        } else {
            self.magnitude() as int
        }
    }

    /// `self < other` in the numeric sense (false when either is NaN).
    pub open spec fn below(self, other: Real32) -> bool {
        !self.nan() && !other.nan() && self.rank() < other.rank()
    }

    /// `self <= other` in the numeric sense (false when either is NaN).
    pub open spec fn at_most(self, other: Real32) -> bool {
        !self.nan() && !other.nan() && self.rank() <= other.rank()
    }

    pub open spec fn zero() -> Real32 {
        Real32(ZERO_BITS)
    }

    pub open spec fn one() -> Real32 {
        Real32(ONE_BITS)
    }

    pub fn magnitude_bits(self) -> (r: u32)
        ensures
            r == self.magnitude(),
            r <= 0x7fff_ffff,
            !self.sign_set() ==> r == self.0,
            self.sign_set() ==> r == self.0 - 0x8000_0000,
    {
        proof {
            lemma_magnitude_bound(self.0);
        }
        self.0 & MAGNITUDE_MASK
    }

    pub fn is_nan(self) -> (r: bool)
        ensures
            r == self.nan(),
    {
        self.magnitude_bits() > INFINITY_BITS
    }

    pub fn is_finite(self) -> (r: bool)
        ensures
            r == self.finite(),
    {
        self.magnitude_bits() < INFINITY_BITS
    }

    pub fn is_positive(self) -> (r: bool)
        ensures
            r == self.positive(),
    {
        let m = self.magnitude_bits();
        m < INFINITY_BITS && self.0 < 0x8000_0000 && m > 0
    }

    pub fn rank_value(self) -> (r: i64)
        ensures
            r == self.rank(),
    {
        let m = self.magnitude_bits();
        if self.0 >= 0x8000_0000 {
            -(m as i64)
        } else {
            m as i64
        }
    }

    pub fn total_rank_value(self) -> (r: i64)
        ensures
            r == self.total_rank(),
    {
        let m = self.magnitude_bits();
        if self.0 >= 0x8000_0000 {
            -(m as i64) - 1
        } else {
            m as i64
        }
    }

    /// Numeric `<`.
    pub fn lt(self, other: Real32) -> (r: bool)
        ensures
            r == self.below(other),
    {
        !self.is_nan() && !other.is_nan() && self.rank_value() < other.rank_value()
    }

    /// Numeric `<=`.
    pub fn le(self, other: Real32) -> (r: bool)
        ensures
            r == self.at_most(other),
    {
        !self.is_nan() && !other.is_nan() && self.rank_value() <= other.rank_value()
    }

    /// Restricts a number to the unit interval the way a clamp to
    /// `[0, 1]` does: below zero gives zero, above one gives one, and
    /// everything else (NaN included) is returned unchanged.
    pub open spec fn unit_clamped(self) -> Real32 {
        if self.below(Real32::zero()) {
            Real32::zero()
        } else if Real32::one().below(self) {
            Real32::one()
        } else {
            self
        }
    }

    /// A clamp to the unit interval keeps NaN as it is, and otherwise gives a
    /// number of `[0, 1]`: zero for numbers at or below zero, one for numbers
    /// at or above one, the number itself in between.
    pub proof fn lemma_unit_clamp_range(self)
        ensures
            self.nan() ==> self.unit_clamped() == self,
            !self.nan() ==> !self.unit_clamped().nan() && 0 <= self.unit_clamped().rank()
                <= 0x3f80_0000,
            !self.nan() && self.rank() <= 0 ==> self.unit_clamped().rank() == 0,
            !self.nan() && self.rank() >= 0x3f80_0000 ==> self.unit_clamped().rank() == 0x3f80_0000,
            !self.nan() && 0 <= self.rank() <= 0x3f80_0000 ==> self.unit_clamped() == self,
    {
        lemma_magnitude_bound(self.0);
    }

    pub fn clamp_unit(self) -> (r: Real32)
        ensures
            r == self.unit_clamped(),
    {
        let zero = Real32(ZERO_BITS);
        let one = Real32(ONE_BITS);
        if self.lt(zero) {
            zero
        } else if one.lt(self) {
            one
        } else {
            self
        }
    }
}

} // verus!
