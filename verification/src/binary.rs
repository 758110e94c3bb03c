//! The two number types: single and double precision.

use crate::float::{
    add_parts, div_parts, difference, equal, equal_parts, from_i64, from_u64, is_nan, less,
    less_or_equal, less_or_equal_parts, less_parts, mul_parts, narrow_parts, narrowed, negated,
    of_int, parts_to_int, product, quotient, signed, sub_parts, sum, to_int, widen_parts, widened,
    Parts, Toward, Width,
};
use crate::root::{root, sqrt_parts};
use vstd::prelude::*;

verus! {

/// A single-precision number: its IEEE 754 bit pattern. `==` compares bits.
#[derive(Clone, Copy, PartialEq, Eq, Structural, Debug)]
pub struct Binary32 {
    pub bits: u32,
}

impl Binary32 {
    /// Sign and magnitude.
    pub open spec fn parts(self) -> Parts {
        Parts { neg: self.bits >= 0x8000_0000, mag: (self.bits % 0x8000_0000) as u64 }
    }

    /// The number with this sign and magnitude.
    pub open spec fn of(p: Parts) -> Binary32 {
        if p.neg {
            Binary32 { bits: (p.mag + 0x8000_0000) as u32 }
        } else {
            Binary32 { bits: p.mag as u32 }
        }
    }

    pub(crate) fn split(self) -> (r: Parts)
        ensures
            r == self.parts(),
    {
        if self.bits >= 0x8000_0000 {
            Parts { neg: true, mag: (self.bits - 0x8000_0000) as u64 }
        } else {
            Parts { neg: false, mag: self.bits as u64 }
        }
    }

    pub(crate) fn join(p: Parts) -> (r: Binary32)
        requires
            p.mag < 0x8000_0000,
        ensures
            r == Binary32::of(p),
    {
        if p.neg {
            Binary32 { bits: p.mag as u32 + 0x8000_0000 }
        } else {
            Binary32 { bits: p.mag as u32 }
        }
    }

    pub open spec fn spec_is_nan(self) -> bool {
        is_nan(Width::Single, self.parts())
    }

    /// Whether this is not a number.
    #[verifier::when_used_as_spec(spec_is_nan)]
    pub fn is_nan(self) -> (r: bool)
        ensures
            r == self.is_nan(),
    {
        self.split().mag > 0x7f80_0000
    }

    pub open spec fn spec_is_finite(self) -> bool {
        self.parts().mag < Width::Single.inf()
    }

    /// Whether this is a number other than an infinity.
    #[verifier::when_used_as_spec(spec_is_finite)]
    pub fn is_finite(self) -> (r: bool)
        ensures
            r == self.is_finite(),
    {
        self.split().mag < 0x7f80_0000
    }

    pub open spec fn spec_plus(self, other: Binary32) -> Binary32 {
        Binary32::of(sum(Width::Single, self.parts(), other.parts()))
    }

    /// The sum.
    #[verifier::when_used_as_spec(spec_plus)]
    pub fn plus(self, other: Binary32) -> (r: Binary32)
        ensures
            r == self.plus(other),
    {
        Binary32::join(add_parts(Width::Single, self.split(), other.split()))
    }

    pub open spec fn spec_minus(self, other: Binary32) -> Binary32 {
        Binary32::of(difference(Width::Single, self.parts(), other.parts()))
    }

    /// The difference.
    #[verifier::when_used_as_spec(spec_minus)]
    pub fn minus(self, other: Binary32) -> (r: Binary32)
        ensures
            r == self.minus(other),
    {
        Binary32::join(sub_parts(Width::Single, self.split(), other.split()))
    }

    pub open spec fn spec_times(self, other: Binary32) -> Binary32 {
        Binary32::of(product(Width::Single, self.parts(), other.parts()))
    }

    /// The product.
    #[verifier::when_used_as_spec(spec_times)]
    pub fn times(self, other: Binary32) -> (r: Binary32)
        ensures
            r == self.times(other),
    {
        Binary32::join(mul_parts(Width::Single, self.split(), other.split()))
    }

    pub open spec fn spec_over(self, other: Binary32) -> Binary32 {
        Binary32::of(quotient(Width::Single, self.parts(), other.parts()))
    }

    /// The quotient.
    #[verifier::when_used_as_spec(spec_over)]
    pub fn over(self, other: Binary32) -> (r: Binary32)
        ensures
            r == self.over(other),
    {
        Binary32::join(div_parts(Width::Single, self.split(), other.split()))
    }

    pub open spec fn spec_sqrt(self) -> Binary32 {
        Binary32::of(root(Width::Single, self.parts()))
    }

    /// The square root.
    #[verifier::when_used_as_spec(spec_sqrt)]
    pub fn sqrt(self) -> (r: Binary32)
        ensures
            r == self.sqrt(),
    {
        Binary32::join(sqrt_parts(Width::Single, self.split()))
    }

    pub open spec fn spec_negate(self) -> Binary32 {
        Binary32::of(negated(self.parts()))
    }

    /// The number with the other sign.
    #[verifier::when_used_as_spec(spec_negate)]
    pub fn negate(self) -> (r: Binary32)
        ensures
            r == self.negate(),
    {
        let p: Parts = self.split();
        Binary32::join(Parts { neg: !p.neg, mag: p.mag })
    }

    pub open spec fn spec_abs(self) -> Binary32 {
        Binary32::of(signed(false, self.parts().mag))
    }

    /// The number without its sign.
    #[verifier::when_used_as_spec(spec_abs)]
    pub fn abs(self) -> (r: Binary32)
        ensures
            r == self.abs(),
    {
        Binary32::join(Parts { neg: false, mag: self.split().mag })
    }

    pub open spec fn spec_below(self, other: Binary32) -> bool {
        less(Width::Single, self.parts(), other.parts())
    }

    /// `self < other`.
    #[verifier::when_used_as_spec(spec_below)]
    pub fn below(self, other: Binary32) -> (r: bool)
        ensures
            r == self.below(other),
    {
        less_parts(Width::Single, self.split(), other.split())
    }

    pub open spec fn spec_at_most(self, other: Binary32) -> bool {
        less_or_equal(Width::Single, self.parts(), other.parts())
    }

    /// `self <= other`.
    #[verifier::when_used_as_spec(spec_at_most)]
    pub fn at_most(self, other: Binary32) -> (r: bool)
        ensures
            r == self.at_most(other),
    {
        less_or_equal_parts(Width::Single, self.split(), other.split())
    }

    pub open spec fn spec_equals(self, other: Binary32) -> bool {
        equal(Width::Single, self.parts(), other.parts())
    }

    /// `self == other` as numbers.
    #[verifier::when_used_as_spec(spec_equals)]
    pub fn equals(self, other: Binary32) -> (r: bool)
        ensures
            r == self.equals(other),
    {
        equal_parts(Width::Single, self.split(), other.split())
    }

    pub open spec fn spec_min(self, other: Binary32) -> Binary32 {
        if self.is_nan() {
            other
        } else if other.below(self) {
            other
        } else {
            self
        }
    }

    /// The smaller of the two; the other one when one is not a number.
    #[verifier::when_used_as_spec(spec_min)]
    pub fn min(self, other: Binary32) -> (r: Binary32)
        ensures
            r == self.min(other),
    {
        if self.is_nan() || other.below(self) {
            other
        } else {
            self
        }
    }

    pub open spec fn spec_max(self, other: Binary32) -> Binary32 {
        if self.is_nan() {
            other
        } else if self.below(other) {
            other
        } else {
            self
        }
    }

    /// The larger of the two; the other one when one is not a number.
    #[verifier::when_used_as_spec(spec_max)]
    pub fn max(self, other: Binary32) -> (r: Binary32)
        ensures
            r == self.max(other),
    {
        if self.is_nan() || self.below(other) {
            other
        } else {
            self
        }
    }

    pub open spec fn of_integer(n: int) -> Binary32 {
        Binary32::of(of_int(Width::Single, n))
    }

    /// The number nearest to an unsigned integer.
    pub fn from_usize(n: usize) -> (r: Binary32)
        ensures
            r == Binary32::of_integer(n as int),
    {
        Binary32::join(from_u64(Width::Single, n as u64))
    }

    /// The number nearest to a signed integer.
    pub fn from_i64(n: i64) -> (r: Binary32)
        ensures
            r == Binary32::of_integer(n as int),
    {
        Binary32::join(from_i64(Width::Single, n))
    }

    /// This number as an integer between `lo` and `hi`.
    pub open spec fn integer(self, to: Toward, lo: int, hi: int) -> int {
        to_int(Width::Single, self.parts(), to, lo, hi)
    }

    /// Converts to an unsigned integer: 0 when below it or not a number, the
    /// largest one when above it.
    pub fn to_usize(self, to: Toward) -> (r: usize)
        ensures
            r == self.integer(to, 0, usize::MAX as int),
    {
        parts_to_int(Width::Single, self.split(), to, 0, usize::MAX as i128) as usize
    }

    /// Converts to a signed integer, saturating; 0 when not a number.
    pub fn to_i64(self, to: Toward) -> (r: i64)
        ensures
            r == self.integer(to, i64::MIN as int, i64::MAX as int),
    {
        parts_to_int(Width::Single, self.split(), to, i64::MIN as i128, i64::MAX as i128) as i64
    }

    /// Converts to a 32-bit unsigned integer, saturating; 0 when not a number.
    pub fn to_u32(self, to: Toward) -> (r: u32)
        ensures
            r == self.integer(to, 0, u32::MAX as int),
    {
        parts_to_int(Width::Single, self.split(), to, 0, u32::MAX as i128) as u32
    }

    /// Converts to a byte, saturating; 0 when not a number.
    pub fn to_u8(self) -> (r: u8)
        ensures
            r == self.integer(Toward::Zero, 0, 255),
    {
        parts_to_int(Width::Single, self.split(), Toward::Zero, 0, 255) as u8
    }

    pub open spec fn spec_widen(self) -> Binary64 {
        Binary64::of(widened(self.parts()))
    }

    /// The same number in double precision.
    #[verifier::when_used_as_spec(spec_widen)]
    pub fn widen(self) -> (r: Binary64)
        ensures
            r == self.widen(),
    {
        Binary64::join(widen_parts(self.split()))
    }
}

/// A double-precision number: its IEEE 754 bit pattern. `==` compares bits.
#[derive(Clone, Copy, PartialEq, Eq, Structural, Debug)]
pub struct Binary64 {
    pub bits: u64,
}

impl Binary64 {
    /// Sign and magnitude.
    pub open spec fn parts(self) -> Parts {
        Parts { neg: self.bits >= 0x8000_0000_0000_0000, mag: (self.bits % 0x8000_0000_0000_0000) as u64 }
    }

    /// The number with this sign and magnitude.
    pub open spec fn of(p: Parts) -> Binary64 {
        if p.neg {
            Binary64 { bits: (p.mag + 0x8000_0000_0000_0000) as u64 }
        } else {
            Binary64 { bits: p.mag as u64 }
        }
    }

    pub(crate) fn split(self) -> (r: Parts)
        ensures
            r == self.parts(),
    {
        if self.bits >= 0x8000_0000_0000_0000 {
            Parts { neg: true, mag: (self.bits - 0x8000_0000_0000_0000) as u64 }
        } else {
            Parts { neg: false, mag: self.bits as u64 }
        }
    }

    pub(crate) fn join(p: Parts) -> (r: Binary64)
        requires
            p.mag < 0x8000_0000_0000_0000,
        ensures
            r == Binary64::of(p),
    {
        if p.neg {
            Binary64 { bits: p.mag as u64 + 0x8000_0000_0000_0000 }
        } else {
            Binary64 { bits: p.mag as u64 }
        }
    }

    pub open spec fn spec_is_nan(self) -> bool {
        is_nan(Width::Double, self.parts())
    }

    /// Whether this is not a number.
    #[verifier::when_used_as_spec(spec_is_nan)]
    pub fn is_nan(self) -> (r: bool)
        ensures
            r == self.is_nan(),
    {
        self.split().mag > 0x7ff0_0000_0000_0000
    }

    pub open spec fn spec_is_finite(self) -> bool {
        self.parts().mag < Width::Double.inf()
    }

    /// Whether this is a number other than an infinity.
    #[verifier::when_used_as_spec(spec_is_finite)]
    pub fn is_finite(self) -> (r: bool)
        ensures
            r == self.is_finite(),
    {
        self.split().mag < 0x7ff0_0000_0000_0000
    }

    pub open spec fn spec_plus(self, other: Binary64) -> Binary64 {
        Binary64::of(sum(Width::Double, self.parts(), other.parts()))
    }

    /// The sum.
    #[verifier::when_used_as_spec(spec_plus)]
    pub fn plus(self, other: Binary64) -> (r: Binary64)
        ensures
            r == self.plus(other),
    {
        Binary64::join(add_parts(Width::Double, self.split(), other.split()))
    }

    pub open spec fn spec_minus(self, other: Binary64) -> Binary64 {
        Binary64::of(difference(Width::Double, self.parts(), other.parts()))
    }

    /// The difference.
    #[verifier::when_used_as_spec(spec_minus)]
    pub fn minus(self, other: Binary64) -> (r: Binary64)
        ensures
            r == self.minus(other),
    {
        Binary64::join(sub_parts(Width::Double, self.split(), other.split()))
    }

    pub open spec fn spec_times(self, other: Binary64) -> Binary64 {
        Binary64::of(product(Width::Double, self.parts(), other.parts()))
    }

    /// The product.
    #[verifier::when_used_as_spec(spec_times)]
    pub fn times(self, other: Binary64) -> (r: Binary64)
        ensures
            r == self.times(other),
    {
        Binary64::join(mul_parts(Width::Double, self.split(), other.split()))
    }

    pub open spec fn spec_over(self, other: Binary64) -> Binary64 {
        Binary64::of(quotient(Width::Double, self.parts(), other.parts()))
    }

    /// The quotient.
    #[verifier::when_used_as_spec(spec_over)]
    pub fn over(self, other: Binary64) -> (r: Binary64)
        ensures
            r == self.over(other),
    {
        Binary64::join(div_parts(Width::Double, self.split(), other.split()))
    }

    pub open spec fn spec_sqrt(self) -> Binary64 {
        Binary64::of(root(Width::Double, self.parts()))
    }

    /// The square root.
    #[verifier::when_used_as_spec(spec_sqrt)]
    pub fn sqrt(self) -> (r: Binary64)
        ensures
            r == self.sqrt(),
    {
        Binary64::join(sqrt_parts(Width::Double, self.split()))
    }

    pub open spec fn spec_negate(self) -> Binary64 {
        Binary64::of(negated(self.parts()))
    }

    /// The number with the other sign.
    #[verifier::when_used_as_spec(spec_negate)]
    pub fn negate(self) -> (r: Binary64)
        ensures
            r == self.negate(),
    {
        let p: Parts = self.split();
        Binary64::join(Parts { neg: !p.neg, mag: p.mag })
    }

    pub open spec fn spec_abs(self) -> Binary64 {
        Binary64::of(signed(false, self.parts().mag))
    }

    /// The number without its sign.
    #[verifier::when_used_as_spec(spec_abs)]
    pub fn abs(self) -> (r: Binary64)
        ensures
            r == self.abs(),
    {
        Binary64::join(Parts { neg: false, mag: self.split().mag })
    }

    pub open spec fn spec_below(self, other: Binary64) -> bool {
        less(Width::Double, self.parts(), other.parts())
    }

    /// `self < other`.
    #[verifier::when_used_as_spec(spec_below)]
    pub fn below(self, other: Binary64) -> (r: bool)
        ensures
            r == self.below(other),
    {
        less_parts(Width::Double, self.split(), other.split())
    }

    pub open spec fn spec_at_most(self, other: Binary64) -> bool {
        less_or_equal(Width::Double, self.parts(), other.parts())
    }

    /// `self <= other`.
    #[verifier::when_used_as_spec(spec_at_most)]
    pub fn at_most(self, other: Binary64) -> (r: bool)
        ensures
            r == self.at_most(other),
    {
        less_or_equal_parts(Width::Double, self.split(), other.split())
    }

    pub open spec fn spec_equals(self, other: Binary64) -> bool {
        equal(Width::Double, self.parts(), other.parts())
    }

    /// `self == other` as numbers.
    #[verifier::when_used_as_spec(spec_equals)]
    pub fn equals(self, other: Binary64) -> (r: bool)
        ensures
            r == self.equals(other),
    {
        equal_parts(Width::Double, self.split(), other.split())
    }

    pub open spec fn spec_min(self, other: Binary64) -> Binary64 {
        if self.is_nan() {
            other
        } else if other.below(self) {
            other
        } else {
            self
        }
    }

    /// The smaller of the two; the other one when one is not a number.
    #[verifier::when_used_as_spec(spec_min)]
    pub fn min(self, other: Binary64) -> (r: Binary64)
        ensures
            r == self.min(other),
    {
        if self.is_nan() || other.below(self) {
            other
        } else {
            self
        }
    }

    pub open spec fn spec_max(self, other: Binary64) -> Binary64 {
        if self.is_nan() {
            other
        } else if self.below(other) {
            other
        } else {
            self
        }
    }

    /// The larger of the two; the other one when one is not a number.
    #[verifier::when_used_as_spec(spec_max)]
    pub fn max(self, other: Binary64) -> (r: Binary64)
        ensures
            r == self.max(other),
    {
        if self.is_nan() || self.below(other) {
            other
        } else {
            self
        }
    }

    pub open spec fn of_integer(n: int) -> Binary64 {
        Binary64::of(of_int(Width::Double, n))
    }

    /// The number nearest to an unsigned integer.
    pub fn from_usize(n: usize) -> (r: Binary64)
        ensures
            r == Binary64::of_integer(n as int),
    {
        Binary64::join(from_u64(Width::Double, n as u64))
    }

    /// The number nearest to a signed integer.
    pub fn from_i64(n: i64) -> (r: Binary64)
        ensures
            r == Binary64::of_integer(n as int),
    {
        Binary64::join(from_i64(Width::Double, n))
    }

    /// This number as an integer between `lo` and `hi`.
    pub open spec fn integer(self, to: Toward, lo: int, hi: int) -> int {
        to_int(Width::Double, self.parts(), to, lo, hi)
    }

    /// Converts to an unsigned integer: 0 when below it or not a number, the
    /// largest one when above it.
    pub fn to_usize(self, to: Toward) -> (r: usize)
        ensures
            r == self.integer(to, 0, usize::MAX as int),
    {
        parts_to_int(Width::Double, self.split(), to, 0, usize::MAX as i128) as usize
    }

    /// Converts to a signed integer, saturating; 0 when not a number.
    pub fn to_i64(self, to: Toward) -> (r: i64)
        ensures
            r == self.integer(to, i64::MIN as int, i64::MAX as int),
    {
        parts_to_int(Width::Double, self.split(), to, i64::MIN as i128, i64::MAX as i128) as i64
    }

    /// Converts to a byte, saturating; 0 when not a number.
    pub fn to_u8(self) -> (r: u8)
        ensures
            r == self.integer(Toward::Zero, 0, 255),
    {
        parts_to_int(Width::Double, self.split(), Toward::Zero, 0, 255) as u8
    }

    pub open spec fn spec_narrow(self) -> Binary32 {
        Binary32::of(narrowed(self.parts()))
    }

    /// The nearest single-precision number.
    #[verifier::when_used_as_spec(spec_narrow)]
    pub fn narrow(self) -> (r: Binary32)
        ensures
            r == self.narrow(),
    {
        Binary32::join(narrow_parts(self.split()))
    }
}

} // verus!
