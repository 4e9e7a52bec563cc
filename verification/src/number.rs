//! Numbers are IEEE 754 double-precision values, held as their 64 bits.
//!
//! Ordering, equality and negation depend only on the sign and the magnitude
//! of a bit pattern and are computed here on integers. Arithmetic and the
//! conversions from and to decimal text are left to the host of the
//! interpreter, which hands bit patterns back.

use vstd::prelude::*;

verus! {

/// The weight of the sign bit.
pub const SIGN: u64 = 0x8000_0000_0000_0000u64;

/// The bit pattern of positive infinity: every larger magnitude is a NaN.
pub const INFINITY: u64 = 0x7ff0_0000_0000_0000u64;

/// The bit pattern without its sign bit.
pub open spec fn magnitude(bits: u64) -> int {
    bits as int % 0x8000_0000_0000_0000
}

/// Whether the sign bit is set.
pub open spec fn is_negative(bits: u64) -> bool {
    bits >= 0x8000_0000_0000_0000
}

/// Whether the bit pattern is a NaN.
pub open spec fn is_nan(bits: u64) -> bool {
    magnitude(bits) > 0x7ff0_0000_0000_0000
}

/// The place of a number that is no NaN in the order of the doubles: both
/// zeros are at 0, positive numbers above, negative numbers below.
pub open spec fn rank(bits: u64) -> int {
    if is_negative(bits) {
        -magnitude(bits)
    } else {
        magnitude(bits)
    }
}

/// `a == b` on doubles: a NaN equals nothing, the two zeros are equal.
pub open spec fn number_eq(a: u64, b: u64) -> bool {
    !is_nan(a) && !is_nan(b) && rank(a) == rank(b)
}

/// `a < b` on doubles: false as soon as one side is a NaN.
pub open spec fn number_lt(a: u64, b: u64) -> bool {
    !is_nan(a) && !is_nan(b) && rank(a) < rank(b)
}

/// `a <= b` on doubles: false as soon as one side is a NaN.
pub open spec fn number_le(a: u64, b: u64) -> bool {
    !is_nan(a) && !is_nan(b) && rank(a) <= rank(b)
}

/// `-a` on doubles: the sign bit flipped, a NaN included.
pub open spec fn number_neg(bits: u64) -> u64 {
    if is_negative(bits) {
        (bits - 0x8000_0000_0000_0000) as u64
    } else {
        (bits + 0x8000_0000_0000_0000) as u64
    }
}

/// The bit pattern without its sign bit.
fn abs_bits(bits: u64) -> (r: u64)
    ensures
        r == magnitude(bits),
{
    if bits >= SIGN {
        bits - SIGN
    } else {
        bits
    }
}

/// Whether the double is a NaN.
pub fn nan(bits: u64) -> (r: bool)
    ensures
        r == is_nan(bits),
{
    abs_bits(bits) > INFINITY
}

/// `a == b` on doubles.
pub fn equal(a: u64, b: u64) -> (r: bool)
    ensures
        r == number_eq(a, b),
{
    if nan(a) || nan(b) {
        false
    } else {
        let x = abs_bits(a);
        let y = abs_bits(b);
        x == y && (x == 0 || (a >= SIGN) == (b >= SIGN))
    }
}

/// `a < b` on doubles.
pub fn less(a: u64, b: u64) -> (r: bool)
    ensures
        r == number_lt(a, b),
{
    if nan(a) || nan(b) {
        false
    } else {
        let x = abs_bits(a);
        let y = abs_bits(b);
        if a >= SIGN {
            if b >= SIGN {
                y < x
            } else {
                x != 0 || y != 0
            }
        } else {
            b < SIGN && x < y
        }
    }
}

/// `a <= b` on doubles.
pub fn less_equal(a: u64, b: u64) -> (r: bool)
    ensures
        r == number_le(a, b),
{
    less(a, b) || equal(a, b)
}

/// `-a` on doubles.
pub fn negate(bits: u64) -> (r: u64)
    ensures
        r == number_neg(bits),
{
    if bits >= SIGN {
        bits - SIGN
    } else {
        bits + SIGN
    }
}

/// Equality of numbers is symmetric, and reflexive on all but the NaNs.
pub proof fn lemma_number_eq(a: u64, b: u64)
    ensures
        number_eq(a, b) == number_eq(b, a),
        !is_nan(a) ==> number_eq(a, a),
        is_nan(a) ==> !number_eq(a, a),
{
}

/// Of two numbers that are no NaNs exactly one of `a < b`, `a == b` and
/// `b < a` holds, and `a <= b` is the first or the second.
pub proof fn lemma_number_order(a: u64, b: u64)
    ensures
        number_le(a, b) == (number_lt(a, b) || number_eq(a, b)),
        !(number_lt(a, b) && number_lt(b, a)),
        !(number_lt(a, b) && number_eq(a, b)),
        !is_nan(a) && !is_nan(b) ==> number_lt(a, b) || number_eq(a, b) || number_lt(b, a),
{
}

/// Negation is its own inverse and turns the order round.
pub proof fn lemma_number_neg(a: u64, b: u64)
    ensures
        number_neg(number_neg(a)) == a,
        is_nan(number_neg(a)) == is_nan(a),
        number_lt(number_neg(a), number_neg(b)) == number_lt(b, a),
{
}

} // verus!
