//! Ordering of IEEE 754 binary32 values, read from their bit patterns.
//!
//! The buffers keep depths and shades as the raw bits of single-precision
//! numbers, so the decisions that compare them (the depth test and the
//! choice of the brightest sample) are made here on integers, with the
//! comparison semantics of the floating-point `<`.
use vstd::prelude::*;

verus! {

/// Bits of the largest finite binary32 value: the depth of an empty sample.
pub const MAX_FINITE_BITS: u32 = 0x7f7f_ffffu32;

/// Bits of positive zero.
pub const POSITIVE_ZERO_BITS: u32 = 0u32;

/// The sign bit of a bit pattern.
pub const SIGN_BIT: u32 = 0x8000_0000u32;

/// Bits of positive infinity: magnitudes above it are NaNs.
pub const INFINITY_BITS: u32 = 0x7f80_0000u32;

/// The sign bit is set.
pub open spec fn negative(b: u32) -> bool {
    b >= SIGN_BIT
}

/// The bit pattern without its sign bit.
pub open spec fn magnitude(b: u32) -> int {
    if negative(b) {
        b - SIGN_BIT
    } else {
        b as int
    }
}

/// The pattern encodes a NaN: all exponent bits set and a nonzero fraction.
pub open spec fn is_nan(b: u32) -> bool {
    magnitude(b) > INFINITY_BITS
}

/// The pattern encodes positive or negative zero.
pub open spec fn is_zero(b: u32) -> bool {
    magnitude(b) == 0
}

/// `a < b` on the numbers the two patterns encode: false when either is a
/// NaN, false between the two zeros, and otherwise ordered by sign, then by
/// magnitude (reversed for negative numbers).
pub open spec fn less_than(a: u32, b: u32) -> bool {
    &&& !is_nan(a)
    &&& !is_nan(b)
    &&& !(is_zero(a) && is_zero(b))
    &&& if negative(a) {
        !negative(b) || magnitude(b) < magnitude(a)
    } else {
        !negative(b) && magnitude(a) < magnitude(b)
    }
}

/// The two patterns encode the same number: identical non-NaN patterns, or
/// the two zeros.
pub open spec fn same_number(a: u32, b: u32) -> bool {
    !is_nan(a) && !is_nan(b) && (a == b || (is_zero(a) && is_zero(b)))
}

/// `a <= b` on the numbers the two patterns encode: strictly less, or the
/// same number; false when either is a NaN.
pub open spec fn at_most(a: u32, b: u32) -> bool {
    less_than(a, b) || same_number(a, b)
}

/// Whether the pattern `bits` encodes a NaN.
pub fn bits_are_nan(bits: u32) -> (r: bool)
    ensures
        r == is_nan(bits),
{
    let m: u32 = if bits >= SIGN_BIT {
        bits - SIGN_BIT
    } else {
        bits
    };
    m > INFINITY_BITS
}

/// `a < b` for the binary32 numbers encoded by `a` and `b`.
pub fn bits_less_than(a: u32, b: u32) -> (r: bool)
    ensures
        r == less_than(a, b),
{
    let neg_a = a >= SIGN_BIT;
    let neg_b = b >= SIGN_BIT;
    let ma: u32 = if neg_a {
        a - SIGN_BIT
    } else {
        a
    };
    let mb: u32 = if neg_b {
        b - SIGN_BIT
    } else {
        b
    };
    if ma > INFINITY_BITS || mb > INFINITY_BITS {
        false
    } else if ma == 0 && mb == 0 {
        false
    } else if neg_a {
        !neg_b || mb < ma
    } else {
        !neg_b && ma < mb
    }
}

/// `a <= b` for the binary32 numbers encoded by `a` and `b`.
pub fn bits_at_most(a: u32, b: u32) -> (r: bool)
    ensures
        r == at_most(a, b),
{
    if bits_less_than(a, b) {
        true
    } else if bits_are_nan(a) || bits_are_nan(b) {
        false
    } else {
        a == b || (a == 0 || a == SIGN_BIT) && (b == 0 || b == SIGN_BIT)
    }
}

/// No number is less than itself.
pub proof fn lemma_less_than_irreflexive(a: u32)
    ensures
        !less_than(a, a),
{
}

/// `<` is asymmetric.
pub proof fn lemma_less_than_asymmetric(a: u32, b: u32)
    requires
        less_than(a, b),
    ensures
        !less_than(b, a),
{
}

/// `<` is transitive.
pub proof fn lemma_less_than_transitive(a: u32, b: u32, c: u32)
    requires
        less_than(a, b),
        less_than(b, c),
    ensures
        less_than(a, c),
{
}

/// Two numbers that are not NaN are either ordered one way or the other, or
/// they are the same number.
pub proof fn lemma_less_than_trichotomy(a: u32, b: u32)
    requires
        !is_nan(a),
        !is_nan(b),
    ensures
        less_than(a, b) || less_than(b, a) || same_number(a, b),
{
}

/// `<=` is transitive.
pub proof fn lemma_at_most_transitive(a: u32, b: u32, c: u32)
    requires
        at_most(a, b),
        at_most(b, c),
    ensures
        at_most(a, c),
{
}

/// The depth of an empty sample is a back wall: every finite depth other
/// than the largest finite number is nearer, and nothing is farther but
/// positive infinity.
pub proof fn lemma_back_wall(z: u32)
    ensures
        !is_nan(z) && magnitude(z) < INFINITY_BITS && z != MAX_FINITE_BITS ==> less_than(
            z,
            MAX_FINITE_BITS,
        ),
        less_than(MAX_FINITE_BITS, z) <==> z == INFINITY_BITS,
{
}

} // verus!
