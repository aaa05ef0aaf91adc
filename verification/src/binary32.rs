//! Single-precision values, carried by their bit pattern.
//!
//! The crate stores, compares and hands on audio samples, scores and
//! thresholds without computing on them, so a bit pattern is all it needs.
//! `f32::to_bits` and `f32::from_bits` convert at the boundary.

use vstd::prelude::*;

verus! {

/// An IEEE 754 binary32 value: one sign bit, eight exponent bits, twenty-three
/// fraction bits.
#[derive(Clone, Copy, Debug, PartialEq, Eq, Structural)]
pub struct Binary32 {
    /// The value's bit pattern.
    pub bits: u32,
}

/// Weight of the lowest exponent bit.
pub const EXPONENT_UNIT: u32 = 0x0080_0000;

/// Weight of the sign bit.
pub const SIGN_BIT: u32 = 0x8000_0000;

impl Binary32 {
    /// The eight exponent bits.
    pub open spec fn exponent(self) -> int {
        (self.bits as int / EXPONENT_UNIT as int) % 0x100
    }

    /// The twenty-three fraction bits.
    pub open spec fn fraction(self) -> int {
        self.bits as int % EXPONENT_UNIT as int
    }

    /// The sign bit is set.
    pub open spec fn negative(self) -> bool {
        self.bits >= SIGN_BIT
    }

    /// Neither an infinity nor a NaN: the exponent bits are not all ones.
    pub open spec fn finite(self) -> bool {
        self.exponent() != 0xff
    }

    /// Not a number: all exponent bits and at least one fraction bit are set.
    pub open spec fn nan(self) -> bool {
        self.exponent() == 0xff && self.fraction() != 0
    }

    /// The value with the given bit pattern.
    pub fn from_bits(bits: u32) -> (value: Binary32)
        ensures
            value.bits == bits,
    {
        Binary32 { bits }
    }

    /// The value's bit pattern.
    pub fn to_bits(self) -> (bits: u32)
        ensures
            bits == self.bits,
    {
        self.bits
    }

    /// Positive zero, the value of a silent sample.
    pub fn zero() -> (value: Binary32)
        ensures
            value == (Binary32 { bits: 0 }),
    {
        Binary32 { bits: 0 }
    }

    /// Whether the value is neither an infinity nor a NaN.
    pub fn is_finite(self) -> (finite: bool)
        ensures
            finite == self.finite(),
    {
        (self.bits / EXPONENT_UNIT) % 0x100 != 0xff
    }

    /// Whether the value is a NaN.
    pub fn is_nan(self) -> (nan: bool)
        ensures
            nan == self.nan(),
    {
        !self.is_finite() && self.bits % EXPONENT_UNIT != 0
    }

    /// Whether the sign bit is set.
    pub fn is_negative(self) -> (negative: bool)
        ensures
            negative == self.negative(),
    {
        self.bits >= SIGN_BIT
    }
}

/// Where the kinds of values lie among the bit patterns: on either side of the
/// sign the finite values come first, then one infinity, then those that are not
/// a number.
pub proof fn bit_patterns_order_the_values(value: Binary32)
    ensures
        value.finite() <==> value.bits < 0x7f80_0000 || 0x8000_0000 <= value.bits < 0xff80_0000,
        value.nan() <==> 0x7f80_0000 < value.bits < 0x8000_0000 || 0xff80_0000 < value.bits,
        value.negative() <==> 0x8000_0000 <= value.bits,
        !value.finite() && !value.nan() <==> value.bits == 0x7f80_0000 || value.bits
            == 0xff80_0000,
{
}

} // verus!
