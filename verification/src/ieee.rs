//! Floating-point numbers by their bits.
//!
//! Loudness, similarity, distances and times are measured in floating point elsewhere and come here as
//! the bits of IEEE 754 numbers. All that is asked of them is how they compare: they are stored as a
//! sign and a magnitude, and a larger magnitude is a larger integer.

use vstd::prelude::*;

verus! {

/// Where the single-precision number with these bits stands among the others. Both zeros stand at 0.
pub open spec fn order32(bits: u32) -> int {
    if bits < 0x8000_0000 {
        bits as int
    } else {
        0x8000_0000 - bits
    }
}

/// Where the double-precision number with these bits stands among the others. Both zeros stand at 0.
pub open spec fn order64(bits: u64) -> int {
    if bits < 0x8000_0000_0000_0000 {
        bits as int
    } else {
        0x8000_0000_0000_0000 - bits
    }
}

/// Whether these bits are a single-precision number, neither infinite nor a NaN.
pub open spec fn finite32(bits: u32) -> bool {
    bits % 0x8000_0000 < 0x7F80_0000
}

/// Whether these bits are a single-precision NaN.
pub open spec fn nan32(bits: u32) -> bool {
    bits % 0x8000_0000 > 0x7F80_0000
}

/// Whether these bits are a double-precision NaN.
pub open spec fn nan64(bits: u64) -> bool {
    bits % 0x8000_0000_0000_0000 > 0x7FF0_0000_0000_0000
}

/// `a < b` on single-precision numbers.
pub open spec fn less32(a: u32, b: u32) -> bool {
    !nan32(a) && !nan32(b) && order32(a) < order32(b)
}

/// `a <= b` on single-precision numbers.
pub open spec fn at_most32(a: u32, b: u32) -> bool {
    !nan32(a) && !nan32(b) && order32(a) <= order32(b)
}

/// `a < b` on double-precision numbers.
pub open spec fn less64(a: u64, b: u64) -> bool {
    !nan64(a) && !nan64(b) && order64(a) < order64(b)
}

/// Where the single-precision number with these bits stands among the others.
pub fn order_of_32(bits: u32) -> (r: i128)
    ensures
        r == order32(bits),
{
    if bits < 0x8000_0000 {
        bits as i128
    } else {
        0x8000_0000i128 - bits as i128
    }
}

/// Where the double-precision number with these bits stands among the others.
pub fn order_of_64(bits: u64) -> (r: i128)
    ensures
        r == order64(bits),
{
    if bits < 0x8000_0000_0000_0000 {
        bits as i128
    } else {
        0x8000_0000_0000_0000i128 - bits as i128
    }
}

/// Whether these bits are a single-precision number, neither infinite nor a NaN.
pub fn is_finite_32(bits: u32) -> (r: bool)
    ensures
        r == finite32(bits),
{
    bits % 0x8000_0000 < 0x7F80_0000
}

fn is_nan_32(bits: u32) -> (r: bool)
    ensures
        r == nan32(bits),
{
    bits % 0x8000_0000 > 0x7F80_0000
}

fn is_nan_64(bits: u64) -> (r: bool)
    ensures
        r == nan64(bits),
{
    bits % 0x8000_0000_0000_0000 > 0x7FF0_0000_0000_0000
}

/// `a < b` on single-precision numbers.
pub fn is_less_32(a: u32, b: u32) -> (r: bool)
    ensures
        r == less32(a, b),
{
    !is_nan_32(a) && !is_nan_32(b) && order_of_32(a) < order_of_32(b)
}

/// `a <= b` on single-precision numbers.
pub fn is_at_most_32(a: u32, b: u32) -> (r: bool)
    ensures
        r == at_most32(a, b),
{
    !is_nan_32(a) && !is_nan_32(b) && order_of_32(a) <= order_of_32(b)
}

/// `a < b` on double-precision numbers.
pub fn is_less_64(a: u64, b: u64) -> (r: bool)
    ensures
        r == less64(a, b),
{
    !is_nan_64(a) && !is_nan_64(b) && order_of_64(a) < order_of_64(b)
}

/// Positive numbers are ordered by their magnitude, a negative number stands as far below zero as the positive
/// number of its magnitude stands above it, and both zeros are equal.
pub proof fn magnitudes_order_numbers(a: u32, b: u32, c: u64, d: u64)
    ensures
        a < b < 0x8000_0000 ==> 0 <= order32(a) < order32(b),
        a < 0x8000_0000 ==> order32((a + 0x8000_0000) as u32) == -order32(a),
        c < d < 0x8000_0000_0000_0000 ==> 0 <= order64(c) < order64(d),
        c < 0x8000_0000_0000_0000 ==> order64((c + 0x8000_0000_0000_0000) as u64) == -order64(c),
        order32(0) == 0,
        order64(0) == 0,
{
}

/// Of two numbers that are no NaN, one is less than the other, or they are equal; a NaN is neither less nor
/// more than anything.
pub proof fn comparisons_are_total(a: u32, b: u32, c: u64, d: u64)
    ensures
        !nan32(a) && !nan32(b) ==> (at_most32(a, b) <==> !less32(b, a)) && (less32(a, b) <==> order32(a)
            < order32(b)),
        nan32(a) || nan32(b) ==> !less32(a, b) && !at_most32(a, b),
        !nan64(c) && !nan64(d) ==> (less64(c, d) <==> order64(c) < order64(d)),
        nan64(c) || nan64(d) ==> !less64(c, d),
{
}

/// A single-precision number is finite where not all of the bits of its exponent are set; a NaN is a number
/// that is not finite and has a bit of its fraction set.
pub proof fn finite_numbers_have_an_exponent(bits: u32)
    ensures
        finite32(bits) <==> bits / 0x80_0000 % 0x100 != 0xFF,
        nan32(bits) <==> !finite32(bits) && bits % 0x80_0000 != 0,
{
}

} // verus!
