//! Single-precision IEEE-754 values held as their raw bit patterns.
//!
//! The library never does arithmetic on these values; it only orders,
//! negates and inspects them, which on the encoding is integer work.
use vstd::prelude::*;

verus! {

/// The sign bit of a binary32 encoding.
pub const SIGN_BIT: u32 = 0x8000_0000;

/// Encoding of positive infinity; every larger magnitude is a NaN.
pub const INFINITY: u32 = 0x7f80_0000;

/// Encoding of `+0.0`.
pub const ZERO: u32 = 0;

/// Whether the sign bit is set.
pub open spec fn sign_set(b: u32) -> bool {
    b >= SIGN_BIT
}

/// The encoding with its sign bit cleared, as a number.
pub open spec fn magnitude(b: u32) -> int {
    if sign_set(b) {
        b - SIGN_BIT
    } else {
        b as int
    }
}

pub open spec fn nan(b: u32) -> bool {
    magnitude(b) > INFINITY
}

/// For encodings that are not NaN, `rank` orders them as the reals they
/// stand for: non-negative encodings grow with their value, and negative
/// ones mirror them. Both zeros have rank 0.
pub open spec fn rank(b: u32) -> int {
    if sign_set(b) {
        -magnitude(b)
    } else {
        magnitude(b)
    }
}

/// IEEE `a < b`: false whenever either side is NaN.
pub open spec fn lt(a: u32, b: u32) -> bool {
    !nan(a) && !nan(b) && rank(a) < rank(b)
}

/// IEEE negation flips the sign bit and nothing else.
pub open spec fn neg(b: u32) -> u32 {
    if sign_set(b) {
        (b - SIGN_BIT) as u32
    } else {
        (b + SIGN_BIT) as u32
    }
}

/// IEEE absolute value clears the sign bit.
pub open spec fn abs(b: u32) -> u32 {
    magnitude(b) as u32
}

pub fn is_nan(b: u32) -> (r: bool)
    ensures
        r == nan(b),
{
    if b >= SIGN_BIT {
        b - SIGN_BIT > INFINITY
    } else {
        b > INFINITY
    }
}

pub fn less_than(a: u32, b: u32) -> (r: bool)
    ensures
        r == lt(a, b),
{
    if is_nan(a) || is_nan(b) {
        return false;
    }
    match (a >= SIGN_BIT, b >= SIGN_BIT) {
        (false, false) => a < b,
        (true, true) => b - SIGN_BIT < a - SIGN_BIT,
        (true, false) => a - SIGN_BIT > 0 || b > 0,
        (false, true) => false,
    }
}

pub fn negate(b: u32) -> (r: u32)
    ensures
        r == neg(b),
        rank(r) == -rank(b),
        nan(r) == nan(b),
{
    if b >= SIGN_BIT {
        b - SIGN_BIT
    } else {
        b + SIGN_BIT
    }
}

pub fn absolute(b: u32) -> (r: u32)
    ensures
        r == abs(b),
        !sign_set(r),
        nan(r) == nan(b),
{
    if b >= SIGN_BIT {
        b - SIGN_BIT
    } else {
        b
    }
}

} // verus!
