//! The order of real-valued ranks, read off their 64-bit patterns.
//!
//! A pattern is a sign bit followed by 63 bits of magnitude. Magnitudes above
//! that of infinity are not numbers. For the rest, a larger magnitude is
//! further from zero, and both zeros are equal.

use vstd::prelude::*;

verus! {

/// The pattern whose only set bit is the sign.
pub const SIGN_BIT: u64 = 0x8000_0000_0000_0000u64;

/// The magnitude of infinity: every exponent bit set, no fraction bit set.
pub const INFINITY_MAGNITUDE: u64 = 0x7FF0_0000_0000_0000u64;

/// The pattern without its sign bit.
pub open spec fn magnitude(bits: u64) -> int {
    if bits >= SIGN_BIT {
        bits - SIGN_BIT
    } else {
        bits as int
    }
}

/// Whether the pattern stands for no number at all.
pub open spec fn is_nan(bits: u64) -> bool {
    magnitude(bits) > INFINITY_MAGNITUDE
}

/// Whether the pattern stands for zero, of either sign.
pub open spec fn is_zero(bits: u64) -> bool {
    magnitude(bits) == 0
}

/// An integer that orders the patterns of numbers as the numbers themselves
/// are ordered: two numbers compare as their keys do.
pub open spec fn order_key(bits: u64) -> int {
    if bits >= SIGN_BIT {
        -magnitude(bits)
    } else {
        magnitude(bits)
    }
}

/// `a > b` on the numbers that the patterns stand for. False as soon as one
/// of them is not a number.
pub open spec fn exceeds(a: u64, b: u64) -> bool {
    !is_nan(a) && !is_nan(b) && order_key(a) > order_key(b)
}

/// Tells whether `bits` is the pattern of a number.
pub fn is_number(bits: u64) -> (r: bool)
    ensures
        r == !is_nan(bits),
{
    if bits >= SIGN_BIT {
        bits - SIGN_BIT <= INFINITY_MAGNITUDE
    } else {
        bits <= INFINITY_MAGNITUDE
    }
}

/// Tells whether `bits` is the pattern of zero, of either sign.
pub fn is_zero_bits(bits: u64) -> (r: bool)
    ensures
        r == is_zero(bits),
{
    bits == 0 || bits == SIGN_BIT
}

/// Computes the ordering key of a pattern.
pub fn key_of(bits: u64) -> (k: i64)
    ensures
        k == order_key(bits),
{
    if bits >= SIGN_BIT {
        let m: u64 = bits - SIGN_BIT;
        -(m as i64)
    } else {
        bits as i64
    }
}

/// Decides `a > b` on the numbers that the patterns stand for.
pub fn rank_exceeds(a: u64, b: u64) -> (r: bool)
    ensures
        r == exceeds(a, b),
{
    is_number(a) && is_number(b) && key_of(a) > key_of(b)
}

/// The order on numbers is strict: nothing exceeds itself, and of two
/// patterns at most one exceeds the other.
pub proof fn lemma_exceeds_strict(a: u64, b: u64)
    ensures
        !exceeds(a, a),
        !(exceeds(a, b) && exceeds(b, a)),
{
}

/// Zero is a number, and the only one whose ordering key is zero.
pub proof fn lemma_zero_key(bits: u64)
    ensures
        is_zero(bits) <==> order_key(bits) == 0,
        is_zero(bits) ==> !is_nan(bits),
{
}

/// Of two different numbers one exceeds the other.
pub proof fn lemma_exceeds_total(a: u64, b: u64)
    requires
        !is_nan(a),
        !is_nan(b),
    ensures
        exceeds(a, b) || exceeds(b, a) || order_key(a) == order_key(b),
{
}

/// The order on numbers is transitive.
pub proof fn lemma_exceeds_transitive(a: u64, b: u64, c: u64)
    requires
        exceeds(a, b),
        exceeds(b, c),
    ensures
        exceeds(a, c),
{
}

} // verus!
