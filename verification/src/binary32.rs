//! The order of IEEE-754 single-precision numbers, read off their bit patterns.
//!
//! A pattern is a sign bit above 31 bits of magnitude. Magnitudes above that
//! of infinity are not numbers. Among numbers, a larger magnitude is further
//! from zero, so the order of the numbers is the order of their signed
//! magnitudes; the two zeros are one number.

use vstd::prelude::*;

verus! {

/// The sign bit of a pattern.
pub const SIGN_BIT: u32 = 0x8000_0000;

/// The pattern of positive infinity: the largest magnitude that is a number.
pub const INFINITY: u32 = 0x7f80_0000;

/// The pattern without its sign bit.
pub open spec fn magnitude(bits: u32) -> int {
    if bits >= SIGN_BIT {
        bits - SIGN_BIT
    } else {
        bits as int
    }
}

/// Whether the pattern stands for no number.
pub open spec fn is_nan(bits: u32) -> bool {
    magnitude(bits) > INFINITY
}

/// The place of a number in the order of all numbers: its signed magnitude.
pub open spec fn rank(bits: u32) -> int {
    if bits >= SIGN_BIT {
        -magnitude(bits)
    } else {
        magnitude(bits)
    }
}

/// `a > b` as numbers; false where either is no number.
pub open spec fn greater(a: u32, b: u32) -> bool {
    !is_nan(a) && !is_nan(b) && rank(a) > rank(b)
}

/// `a >= b` as numbers; false where either is no number.
pub open spec fn not_below(a: u32, b: u32) -> bool {
    !is_nan(a) && !is_nan(b) && rank(a) >= rank(b)
}

/// Tells whether the pattern stands for no number.
pub fn not_a_number(bits: u32) -> (r: bool)
    ensures
        r == is_nan(bits),
{
    if bits >= SIGN_BIT {
        bits - SIGN_BIT > INFINITY
    } else {
        bits > INFINITY
    }
}

/// The place of a pattern in the order of all numbers: its signed magnitude.
pub fn signed_magnitude(bits: u32) -> (r: i64)
    ensures
        r == rank(bits),
{
    if bits >= SIGN_BIT {
        -((bits - SIGN_BIT) as i64)
    } else {
        bits as i64
    }
}

/// Tells whether `a > b` as numbers.
pub fn exceeds(a: u32, b: u32) -> (r: bool)
    ensures
        r == greater(a, b),
{
    !not_a_number(a) && !not_a_number(b) && signed_magnitude(a) > signed_magnitude(b)
}

/// A number above one that is not below another is above the other.
pub proof fn lemma_greater_through(a: u32, b: u32, c: u32)
    requires
        greater(a, b),
        not_below(b, c),
    ensures
        greater(a, c),
{
}

} // verus!
