//! Binary64 numbers held as bit patterns, and their order.
use vstd::prelude::*;

verus! {

/// The sign bit of a binary64 pattern.
pub const SIGN_BIT: u64 = 0x8000_0000_0000_0000;

/// The magnitude of infinity; every larger magnitude is a NaN.
pub const INFINITY_MAGNITUDE: u64 = 0x7ff0_0000_0000_0000;

/// The pattern with the sign bit cleared.
pub open spec fn magnitude(bits: u64) -> int {
    if bits >= SIGN_BIT {
        bits - SIGN_BIT
    } else {
        bits as int
    }
}

pub open spec fn is_nan(bits: u64) -> bool {
    magnitude(bits) > INFINITY_MAGNITUDE
}

/// An integer that orders non-NaN patterns as the numbers they encode:
/// positive patterns grow with their magnitude, negative ones shrink, and both
/// zeros meet at `0`.
pub open spec fn order_key(bits: u64) -> int {
    if bits >= SIGN_BIT {
        -magnitude(bits)
    } else {
        magnitude(bits)
    }
}

/// `a > b` on the encoded numbers; false where either is NaN.
pub open spec fn real_gt(a: u64, b: u64) -> bool {
    !is_nan(a) && !is_nan(b) && order_key(a) > order_key(b)
}

/// `a >= b` on the encoded numbers; false where either is NaN.
pub open spec fn real_ge(a: u64, b: u64) -> bool {
    !is_nan(a) && !is_nan(b) && order_key(a) >= order_key(b)
}

/// `a < b` on the encoded numbers; false where either is NaN.
pub open spec fn real_lt(a: u64, b: u64) -> bool {
    real_gt(b, a)
}

/// Whether a pattern encodes a NaN.
pub fn nan(bits: u64) -> (r: bool)
    ensures
        r == is_nan(bits),
{
    let m: u64 = if bits >= SIGN_BIT { bits - SIGN_BIT } else { bits };
    m > INFINITY_MAGNITUDE
}

fn key(bits: u64) -> (r: i64)
    ensures
        r as int == order_key(bits),
{
    if bits >= SIGN_BIT {
        -((bits - SIGN_BIT) as i64)
    } else {
        bits as i64
    }
}

/// `a > b` on the encoded numbers.
pub fn greater(a: u64, b: u64) -> (r: bool)
    ensures
        r == real_gt(a, b),
{
    !nan(a) && !nan(b) && key(a) > key(b)
}

/// `a >= b` on the encoded numbers.
pub fn greater_or_equal(a: u64, b: u64) -> (r: bool)
    ensures
        r == real_ge(a, b),
{
    !nan(a) && !nan(b) && key(a) >= key(b)
}

/// `a < b` on the encoded numbers.
pub fn less(a: u64, b: u64) -> (r: bool)
    ensures
        r == real_lt(a, b),
{
    greater(b, a)
}

} // verus!
