//! Ordering of IEEE 754 binary64 bit patterns without floating-point arithmetic.
//!
//! A pattern is a sign bit, eleven exponent bits and fifty-two fraction bits.
//! Patterns whose magnitude lies above that of infinity encode no number.
//! Every other pattern is given a key, and keys order as the encoded numbers
//! do.

use vstd::prelude::*;

verus! {

/// The pattern with only the sign bit set (negative zero).
pub const SIGN_BIT: u64 = 0x8000_0000_0000_0000;

/// The pattern of positive infinity, the largest magnitude that is a number.
pub const INFINITY_BITS: u64 = 0x7ff0_0000_0000_0000;

/// The pattern without its sign bit.
pub open spec fn magnitude(bits: u64) -> int {
    if bits >= SIGN_BIT {
        bits - SIGN_BIT
    } else {
        bits as int
    }
}

/// The pattern encodes no number.
pub open spec fn is_nan(bits: u64) -> bool {
    magnitude(bits) > INFINITY_BITS
}

/// The key of a pattern. For patterns `a` and `b` that encode numbers, the
/// number of `a` is below that of `b` exactly if `key_of(a) < key_of(b)`, and
/// the two are equal exactly if the keys are: a pattern without sign bit lies
/// above the midpoint by its magnitude, one with sign bit below it by its
/// magnitude, and the two zeros share the midpoint.
pub open spec fn key_of(bits: u64) -> u64 {
    if bits >= SIGN_BIT {
        (SIGN_BIT - magnitude(bits)) as u64
    } else {
        (SIGN_BIT + magnitude(bits)) as u64
    }
}

/// Keys of a sequence of patterns, one for one.
pub open spec fn keys_of(patterns: Seq<u64>) -> Seq<u64> {
    Seq::new(patterns.len(), |i: int| key_of(patterns[i]))
}

/// Some pattern of the sequence encodes no number.
pub open spec fn any_nan(patterns: Seq<u64>) -> bool {
    exists|i: int| 0 <= i < patterns.len() && is_nan(#[trigger] patterns[i])
}

/// Tells whether the pattern encodes no number.
pub fn is_nan_bits(bits: u64) -> (nan: bool)
    ensures
        nan == is_nan(bits),
{
    if bits >= SIGN_BIT {
        bits - SIGN_BIT > INFINITY_BITS
    } else {
        bits > INFINITY_BITS
    }
}

/// Computes the key of a pattern.
pub fn order_key(bits: u64) -> (key: u64)
    ensures
        key == key_of(bits),
{
    if bits >= SIGN_BIT {
        SIGN_BIT - (bits - SIGN_BIT)
    } else {
        bits + SIGN_BIT
    }
}

} // verus!
