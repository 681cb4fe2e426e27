//! IEEE 754 numbers by their bit patterns: classification and order.
//!
//! Arithmetic on such numbers is done by the caller; what is decided here needs only
//! their order, which the bit pattern gives.

use vstd::prelude::*;

verus! {

/// A double precision number, held by its bit pattern.
#[derive(Clone, Copy, Debug)]
pub struct F64 {
    pub bits: u64,
}

/// A single precision number, held by its bit pattern.
#[derive(Clone, Copy, Debug)]
pub struct F32 {
    pub bits: u32,
}

impl F64 {
    /// The bit pattern without the sign bit. It grows with the absolute value.
    pub open spec fn magnitude(self) -> int {
        if self.bits >= 0x8000_0000_0000_0000 {
            self.bits - 0x8000_0000_0000_0000
        } else {
            self.bits as int
        }
    }

    /// The magnitude with the sign of the number: ordered as the numbers are, with both
    /// zeros at the same place.
    pub open spec fn rank(self) -> int {
        if self.bits >= 0x8000_0000_0000_0000 {
            -self.magnitude()
        } else {
            self.magnitude()
        }
    }

    /// Whether the number is neither an infinity nor NaN.
    pub open spec fn finite(self) -> bool {
        self.magnitude() < 0x7FF0_0000_0000_0000
    }

    pub open spec fn nan(self) -> bool {
        self.magnitude() > 0x7FF0_0000_0000_0000
    }

    /// `self < other` as IEEE 754 orders numbers: never true where one of them is NaN.
    pub open spec fn lt(self, other: F64) -> bool {
        !self.nan() && !other.nan() && self.rank() < other.rank()
    }

    /// `self <= other` as IEEE 754 orders numbers.
    pub open spec fn le(self, other: F64) -> bool {
        !self.nan() && !other.nan() && self.rank() <= other.rank()
    }

    /// `self == other` as IEEE 754 compares numbers.
    pub open spec fn same(self, other: F64) -> bool {
        !self.nan() && !other.nan() && self.rank() == other.rank()
    }

    /// Greater than zero.
    pub open spec fn positive(self) -> bool {
        !self.nan() && self.rank() > 0
    }

    /// The smaller of two numbers; the other one where one is NaN.
    pub open spec fn lower(self, other: F64) -> F64 {
        if self.nan() || other.lt(self) {
            other
        } else {
            self
        }
    }

    /// The greater of two numbers; the other one where one is NaN.
    pub open spec fn upper(self, other: F64) -> F64 {
        if self.nan() || self.lt(other) {
            other
        } else {
            self
        }
    }

    pub fn from_bits(bits: u64) -> (r: F64)
        ensures
            r.bits == bits,
    {
        F64 { bits }
    }

    pub fn to_bits(self) -> (r: u64)
        ensures
            r == self.bits,
    {
        self.bits
    }

    fn magnitude_bits(self) -> (r: u64)
        ensures
            r == self.magnitude(),
    {
        if self.bits >= 0x8000_0000_0000_0000 {
            self.bits - 0x8000_0000_0000_0000
        } else {
            self.bits
        }
    }

    fn rank_bits(self) -> (r: i64)
        ensures
            r == self.rank(),
    {
        if self.bits >= 0x8000_0000_0000_0000 {
            -((self.bits - 0x8000_0000_0000_0000) as i64)
        } else {
            self.bits as i64
        }
    }

    pub fn is_finite(self) -> (r: bool)
        ensures
            r == self.finite(),
    {
        self.magnitude_bits() < 0x7FF0_0000_0000_0000
    }

    pub fn is_nan(self) -> (r: bool)
        ensures
            r == self.nan(),
    {
        self.magnitude_bits() > 0x7FF0_0000_0000_0000
    }

    pub fn is_less(self, other: F64) -> (r: bool)
        ensures
            r == self.lt(other),
    {
        !self.is_nan() && !other.is_nan() && self.rank_bits() < other.rank_bits()
    }

    pub fn is_at_most(self, other: F64) -> (r: bool)
        ensures
            r == self.le(other),
    {
        !self.is_nan() && !other.is_nan() && self.rank_bits() <= other.rank_bits()
    }

    pub fn is_positive(self) -> (r: bool)
        ensures
            r == self.positive(),
    {
        !self.is_nan() && self.rank_bits() > 0
    }

    pub fn min(self, other: F64) -> (r: F64)
        ensures
            r == self.lower(other),
    {
        if self.is_nan() || other.is_less(self) {
            other
        } else {
            self
        }
    }

    pub fn max(self, other: F64) -> (r: F64)
        ensures
            r == self.upper(other),
    {
        if self.is_nan() || self.is_less(other) {
            other
        } else {
            self
        }
    }
}

impl PartialEq for F64 {
    fn eq(&self, other: &F64) -> (r: bool) {
        !self.is_nan() && !other.is_nan() && self.rank_bits() == other.rank_bits()
    }
}

impl vstd::std_specs::cmp::PartialEqSpecImpl for F64 {
    open spec fn obeys_eq_spec() -> bool {
        true
    }

    open spec fn eq_spec(&self, other: &F64) -> bool {
        self.same(*other)
    }
}

impl Default for F64 {
    /// Positive zero.
    fn default() -> (r: F64)
        ensures
            r.bits == 0,
    {
        F64 { bits: 0 }
    }
}

impl F32 {
    /// The bit pattern without the sign bit. It grows with the absolute value.
    pub open spec fn magnitude(self) -> int {
        if self.bits >= 0x8000_0000 {
            self.bits - 0x8000_0000
        } else {
            self.bits as int
        }
    }

    /// The magnitude with the sign of the number.
    pub open spec fn rank(self) -> int {
        if self.bits >= 0x8000_0000 {
            -self.magnitude()
        } else {
            self.magnitude()
        }
    }

    /// Whether the number is neither an infinity nor NaN.
    pub open spec fn finite(self) -> bool {
        self.magnitude() < 0x7F80_0000
    }

    pub open spec fn nan(self) -> bool {
        self.magnitude() > 0x7F80_0000
    }

    /// `self == other` as IEEE 754 compares numbers.
    pub open spec fn same(self, other: F32) -> bool {
        !self.nan() && !other.nan() && self.rank() == other.rank()
    }

    pub fn from_bits(bits: u32) -> (r: F32)
        ensures
            r.bits == bits,
    {
        F32 { bits }
    }

    pub fn to_bits(self) -> (r: u32)
        ensures
            r == self.bits,
    {
        self.bits
    }

    fn magnitude_bits(self) -> (r: u32)
        ensures
            r == self.magnitude(),
    {
        if self.bits >= 0x8000_0000 {
            self.bits - 0x8000_0000
        } else {
            self.bits
        }
    }

    /// The magnitude with the sign of the number.
    pub fn rank_bits(self) -> (r: i64)
        ensures
            r == self.rank(),
    {
        if self.bits >= 0x8000_0000 {
            -((self.bits - 0x8000_0000) as i64)
        } else {
            self.bits as i64
        }
    }

    pub fn is_finite(self) -> (r: bool)
        ensures
            r == self.finite(),
    {
        self.magnitude_bits() < 0x7F80_0000
    }

    pub fn is_nan(self) -> (r: bool)
        ensures
            r == self.nan(),
    {
        self.magnitude_bits() > 0x7F80_0000
    }
}

impl PartialEq for F32 {
    fn eq(&self, other: &F32) -> (r: bool) {
        !self.is_nan() && !other.is_nan() && self.rank_bits() == other.rank_bits()
    }
}

impl vstd::std_specs::cmp::PartialEqSpecImpl for F32 {
    open spec fn obeys_eq_spec() -> bool {
        true
    }

    open spec fn eq_spec(&self, other: &F32) -> bool {
        self.same(*other)
    }
}

impl Default for F32 {
    /// Positive zero.
    fn default() -> (r: F32)
        ensures
            r.bits == 0,
    {
        F32 { bits: 0 }
    }
}

/// The order is total on the numbers that are not NaN.
pub proof fn law_order_is_total(a: F64, b: F64, c: F64)
    requires
        !a.nan(),
        !b.nan(),
        !c.nan(),
    ensures
        a.lt(b) || b.lt(a) || a.same(b),
        a.le(b) <==> !b.lt(a),
        a.le(b) && b.le(c) ==> a.le(c),
        a.le(b) && b.le(a) ==> a.same(b),
{
}

/// The eleven bits under the sign bit tell the kind of a double: all of them are set in an
/// infinity and in NaN, and NaN alone has a bit set below them.
pub proof fn law_exponent_bits(a: F64)
    ensures
        a.finite() <==> (a.bits as int / 0x10_0000_0000_0000) % 2048 != 2047,
        a.nan() <==> (a.bits as int / 0x10_0000_0000_0000) % 2048 == 2047
            && a.bits as int % 0x10_0000_0000_0000 != 0,
{
}

/// The eight bits under the sign bit tell the kind of a single.
pub proof fn law_single_exponent_bits(a: F32)
    ensures
        a.finite() <==> (a.bits as int / 0x80_0000) % 256 != 255,
        a.nan() <==> (a.bits as int / 0x80_0000) % 256 == 255 && a.bits as int % 0x80_0000 != 0,
{
}

/// Numbers without the sign bit are ordered as their bit patterns are, numbers with it the
/// other way round, and one with it comes before one without it, except that the two zeros
/// are equal.
pub proof fn law_order_of_bits(a: F64, b: F64)
    requires
        !a.nan(),
        !b.nan(),
    ensures
        a.bits < 0x8000_0000_0000_0000 && b.bits < 0x8000_0000_0000_0000 ==> (a.lt(b) <==> a.bits
            < b.bits),
        a.bits >= 0x8000_0000_0000_0000 && b.bits >= 0x8000_0000_0000_0000 ==> (a.lt(b)
            <==> b.bits < a.bits),
        a.bits >= 0x8000_0000_0000_0000 && b.bits < 0x8000_0000_0000_0000 ==> !b.lt(a) && (a.lt(
            b,
        ) <==> !(a.bits == 0x8000_0000_0000_0000 && b.bits == 0)),
        a.same(b) <==> !a.lt(b) && !b.lt(a),
        a.positive() <==> 0 < a.bits < 0x8000_0000_0000_0000,
{
}

/// Of two numbers `min` gives one that is above neither and `max` one that is below neither;
/// a NaN gives way to the other number.
pub proof fn law_lower_and_upper(a: F64, b: F64)
    ensures
        a.lower(b) == a || a.lower(b) == b,
        a.upper(b) == a || a.upper(b) == b,
        !a.lt(a.lower(b)) && !b.lt(a.lower(b)),
        !a.upper(b).lt(a) && !a.upper(b).lt(b),
        a.lower(b).nan() <==> a.nan() && b.nan(),
        a.upper(b).nan() <==> a.nan() && b.nan(),
{
}

/// Nothing compares with NaN.
pub proof fn law_nan_compares_with_nothing(a: F64, b: F64)
    requires
        a.nan() || b.nan(),
    ensures
        !a.lt(b) && !a.le(b) && !a.same(b),
        a.nan() ==> !a.finite() && !a.positive(),
{
}

/// Singles are equal where their bit patterns are, or where both are zeros; NaN equals nothing.
pub proof fn law_same_singles(a: F32, b: F32)
    ensures
        a.same(b) <==> !a.nan() && !b.nan() && (a.bits == b.bits || (a.bits as int % 0x8000_0000
            == 0 && b.bits as int % 0x8000_0000 == 0)),
{
}

} // verus!
