//! Comparisons of IEEE-754 binary64 values held as their bit patterns
//! (`f64::to_bits`). Ordered comparisons are false when either side is NaN,
//! and the two zeros compare equal, as IEEE-754 prescribes.

use vstd::prelude::*;

verus! {

pub const SIGN_BIT: u64 = 0x8000_0000_0000_0000;
pub const INFINITY_BITS: u64 = 0x7ff0_0000_0000_0000;

/// The magnitude bits (exponent and fraction) of `b`.
pub open spec fn magnitude(b: u64) -> int {
    b as int % 0x8000_0000_0000_0000
}

/// `b` encodes a NaN: all exponent bits set and a nonzero fraction.
pub open spec fn is_nan(b: u64) -> bool {
    magnitude(b) > INFINITY_BITS
}

/// The position of the encoded value on the number line: binary64 magnitudes
/// grow with their bit patterns, and the sign bit mirrors them (both zeros
/// sit at 0).
pub open spec fn order_key(b: u64) -> int {
    if b >= SIGN_BIT { -magnitude(b) } else { magnitude(b) }
}

pub open spec fn lt(a: u64, b: u64) -> bool {
    !is_nan(a) && !is_nan(b) && order_key(a) < order_key(b)
}

pub open spec fn le(a: u64, b: u64) -> bool {
    !is_nan(a) && !is_nan(b) && order_key(a) <= order_key(b)
}

pub open spec fn eq(a: u64, b: u64) -> bool {
    !is_nan(a) && !is_nan(b) && order_key(a) == order_key(b)
}

pub fn nan(b: u64) -> (r: bool)
    ensures r == is_nan(b),
{
    let m = b & 0x7fff_ffff_ffff_ffff;
    assert(m == b as int % 0x8000_0000_0000_0000) by (bit_vector)
        requires m == b & 0x7fff_ffff_ffff_ffff;
    m > INFINITY_BITS
}

pub fn key(b: u64) -> (k: i128)
    ensures k == order_key(b),
{
    let m = b & 0x7fff_ffff_ffff_ffff;
    assert(m == b as int % 0x8000_0000_0000_0000) by (bit_vector)
        requires m == b & 0x7fff_ffff_ffff_ffff;
    if b >= SIGN_BIT { -(m as i128) } else { m as i128 }
}

/// `a < b`
pub fn less(a: u64, b: u64) -> (r: bool)
    ensures r == lt(a, b),
{
    !nan(a) && !nan(b) && key(a) < key(b)
}

/// `a <= b`
pub fn less_eq(a: u64, b: u64) -> (r: bool)
    ensures r == le(a, b),
{
    !nan(a) && !nan(b) && key(a) <= key(b)
}

/// `a == b`
pub fn equal(a: u64, b: u64) -> (r: bool)
    ensures r == eq(a, b),
{
    !nan(a) && !nan(b) && key(a) == key(b)
}

}
