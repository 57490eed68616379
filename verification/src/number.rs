//! 64-bit floating point numbers, carried by their bits.

use vstd::prelude::*;

verus! {

/// The bits of positive infinity; every finite positive number has lower ones.
pub const INFINITY_BITS: u64 = 0x7ff0_0000_0000_0000;

/// The bits of negative zero.
pub const NEGATIVE_ZERO_BITS: u64 = 0x8000_0000_0000_0000;

/// A floating point number of double precision, as its IEEE 754 bits. The
/// library stores such numbers, hands them on and sorts out the ones that
/// count; it does not calculate with them.
#[derive(Clone, Copy, PartialEq, Eq, Debug, Structural)]
pub struct Double {
    pub bits: u64,
}

/// Whether a number is finite and not below zero: a sign bit of 0 and an
/// exponent that is not all ones, or negative zero.
pub open spec fn finite_nonnegative(d: Double) -> bool {
    d.bits < INFINITY_BITS || d.bits == NEGATIVE_ZERO_BITS
}

impl Double {
    /// Whether this number is finite and not below zero.
    pub fn is_finite_nonnegative(&self) -> (r: bool)
        ensures
            r == finite_nonnegative(*self),
    {
        self.bits < INFINITY_BITS || self.bits == NEGATIVE_ZERO_BITS
    }
}

}
