//! Ordering of quality scores that are held as binary64 bit patterns.
//!
//! A score is kept as the sixty-four bits of its double-precision
//! encoding: one sign bit, then exponent and fraction, which together give
//! the magnitude. Two encodings of finite or infinite values compare as
//! their signed magnitudes do; an encoding of "not a number" compares below
//! nothing and above nothing.

use vstd::prelude::*;

verus! {

/// The largest magnitude that still encodes a number (infinity).
pub const INFINITY_BITS: u64 = 0x7ff0_0000_0000_0000;

/// The largest pattern whose sign bit is clear.
pub const SIGN_CLEAR_MAX: u64 = 0x7fff_ffff_ffff_ffff;

/// The sign bit of `bits` is set.
pub open spec fn spec_is_negative(bits: u64) -> bool {
    bits > SIGN_CLEAR_MAX
}

/// `bits` without its sign bit.
pub open spec fn spec_magnitude(bits: u64) -> u64 {
    if bits > SIGN_CLEAR_MAX {
        (bits - SIGN_CLEAR_MAX - 1) as u64
    } else {
        bits
    }
}

/// `bits` encodes no number.
pub open spec fn spec_is_nan(bits: u64) -> bool {
    spec_magnitude(bits) > INFINITY_BITS
}

/// The signed magnitude by which encodings of numbers are ordered. Both
/// encodings of zero have rank 0.
pub open spec fn rank(bits: u64) -> int {
    if spec_is_negative(bits) {
        -(spec_magnitude(bits) as int)
    } else {
        spec_magnitude(bits) as int
    }
}

/// The value encoded by `a` is less than the value encoded by `b`.
pub open spec fn spec_less_than(a: u64, b: u64) -> bool {
    !spec_is_nan(a) && !spec_is_nan(b) && rank(a) < rank(b)
}

/// `bits` without its sign bit.
#[verifier::when_used_as_spec(spec_magnitude)]
pub fn magnitude(bits: u64) -> (out: u64)
    ensures
        out == spec_magnitude(bits),
{
    if bits > SIGN_CLEAR_MAX {
        bits - SIGN_CLEAR_MAX - 1
    } else {
        bits
    }
}

/// Whether `bits` encodes no number.
#[verifier::when_used_as_spec(spec_is_nan)]
pub fn is_nan(bits: u64) -> (out: bool)
    ensures
        out == spec_is_nan(bits),
{
    magnitude(bits) > INFINITY_BITS
}

/// Whether the value encoded by `a` is less than the value encoded by `b`.
#[verifier::when_used_as_spec(spec_less_than)]
pub fn less_than(a: u64, b: u64) -> (out: bool)
    ensures
        out == spec_less_than(a, b),
{
    if is_nan(a) || is_nan(b) {
        return false;
    }
    let a_negative = a > SIGN_CLEAR_MAX;
    let b_negative = b > SIGN_CLEAR_MAX;
    let a_size = magnitude(a);
    let b_size = magnitude(b);
    if a_negative {
        if b_negative {
            a_size > b_size
        } else {
            a_size > 0 || b_size > 0
        }
    } else {
        if b_negative {
            false
        } else {
            a_size < b_size
        }
    }
}

} // verus!
