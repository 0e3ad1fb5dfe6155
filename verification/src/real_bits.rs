//! Comparison of IEEE-754 single-precision numbers given by their bit
//! patterns.
//!
//! A pattern is a NaN when its exponent bits are all ones and its mantissa
//! is not zero. Every other pattern denotes a number, and `order_key` maps
//! it to an integer that orders the numbers as the reals do: the two zeros
//! get the same key, negative numbers get keys below both zeros, and the
//! infinities get the extreme keys. A comparison that involves a NaN is
//! false, as it is for the numbers.
use vstd::prelude::*;

verus! {

/// Bit pattern of the number 4.
pub const FOUR_BITS: u32 = 0x4080_0000u32;

/// Bit pattern of negative infinity.
pub const NEG_INFINITY_BITS: u32 = 0xff80_0000u32;

/// Bit pattern of positive infinity.
pub const INFINITY_BITS: u32 = 0x7f80_0000u32;

/// The pattern with its sign bit cleared: exponent and mantissa.
pub open spec fn magnitude(b: u32) -> int {
    (b as int) % 0x8000_0000
}

/// Whether the pattern encodes a NaN.
pub open spec fn is_nan(b: u32) -> bool {
    magnitude(b) > 0x7f80_0000
}

/// Whether the sign bit of the pattern is set.
pub open spec fn sign_set(b: u32) -> bool {
    b >= 0x8000_0000u32
}

/// Integer that orders non-NaN patterns as the numbers they encode.
pub open spec fn order_key(b: u32) -> int {
    if sign_set(b) {
        0x8000_0000 - magnitude(b)
    } else {
        0x8000_0000 + magnitude(b)
    }
}

/// `a < b` on the encoded numbers.
pub open spec fn real_lt(a: u32, b: u32) -> bool {
    !is_nan(a) && !is_nan(b) && order_key(a) < order_key(b)
}

/// `a <= b` on the encoded numbers.
pub open spec fn real_le(a: u32, b: u32) -> bool {
    !is_nan(a) && !is_nan(b) && order_key(a) <= order_key(b)
}

/// `a == b` on the encoded numbers (the two zeros are equal, a NaN equals nothing).
pub open spec fn real_eq(a: u32, b: u32) -> bool {
    !is_nan(a) && !is_nan(b) && order_key(a) == order_key(b)
}

/// Whether the pattern encodes a NaN.
pub fn bits_is_nan(b: u32) -> (r: bool)
    ensures
        r == is_nan(b),
{
    let m = b & 0x7fff_ffffu32;
    assert(m == b % 0x8000_0000u32) by (bit_vector)
        requires
            m == b & 0x7fff_ffffu32,
    ;
    m > 0x7f80_0000u32
}

/// The order key of a pattern, as an exec value.
pub(crate) fn key_of(b: u32) -> (k: u64)
    ensures
        k == order_key(b),
{
    let m = b & 0x7fff_ffffu32;
    assert(m == b % 0x8000_0000u32) by (bit_vector)
        requires
            m == b & 0x7fff_ffffu32,
    ;
    if b >= 0x8000_0000u32 {
        0x8000_0000u64 - m as u64
    } else {
        0x8000_0000u64 + m as u64
    }
}

/// `a < b` on the encoded numbers.
pub fn bits_lt(a: u32, b: u32) -> (r: bool)
    ensures
        r == real_lt(a, b),
{
    !bits_is_nan(a) && !bits_is_nan(b) && key_of(a) < key_of(b)
}

/// `a <= b` on the encoded numbers.
pub fn bits_le(a: u32, b: u32) -> (r: bool)
    ensures
        r == real_le(a, b),
{
    !bits_is_nan(a) && !bits_is_nan(b) && key_of(a) <= key_of(b)
}

/// `a == b` on the encoded numbers.
pub fn bits_eq(a: u32, b: u32) -> (r: bool)
    ensures
        r == real_eq(a, b),
{
    !bits_is_nan(a) && !bits_is_nan(b) && key_of(a) == key_of(b)
}

/// `<` on encoded numbers is a strict order: irreflexive, asymmetric and
/// transitive; among non-NaN values exactly one of `<`, `==`, `>` holds,
/// and `<=` is `<` or `==`. A NaN is neither below, above nor equal to
/// anything.
pub proof fn lemma_real_order(a: u32, b: u32, c: u32)
    ensures
        !real_lt(a, a),
        real_lt(a, b) ==> !real_lt(b, a),
        real_lt(a, b) && real_lt(b, c) ==> real_lt(a, c),
        !is_nan(a) && !is_nan(b) ==> (real_lt(a, b) || real_eq(a, b) || real_lt(b, a)),
        real_le(a, b) <==> (real_lt(a, b) || real_eq(a, b)),
        is_nan(a) ==> !real_lt(a, b) && !real_lt(b, a) && !real_eq(a, b) && !real_le(a, b) && !real_le(b, a),
{
}

/// The two zeros are equal, and the keys order the patterns' signed
/// magnitudes: a pattern without the sign bit is never below one with it.
pub proof fn lemma_zeros_and_signs(a: u32, b: u32)
    ensures
        real_eq(0u32, 0x8000_0000u32),
        !is_nan(a) && !is_nan(b) && !sign_set(a) && sign_set(b) ==> real_le(b, a),
        !is_nan(a) && !is_nan(b) && !sign_set(a) && !sign_set(b) ==> (real_lt(a, b) <==> a < b),
        !is_nan(a) && !is_nan(b) && sign_set(a) && sign_set(b) ==> (real_lt(a, b) <==> b < a),
{
}

} // verus!
