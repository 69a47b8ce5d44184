//! IEEE-754 binary64 bit patterns: classification, numeric comparison, and
//! the sign-magnitude total order, all as plain `u64` arithmetic.

use vstd::prelude::*;

verus! {

/// Mask of the sign bit.
pub const SIGN_MASK: u64 = 0x8000_0000_0000_0000;

/// Mask of the eleven exponent bits.
pub const EXP_MASK: u64 = 0x7FF0_0000_0000_0000;

/// Mask of the fifty-two fraction bits.
pub const FRAC_MASK: u64 = 0x000F_FFFF_FFFF_FFFF;

/// Bit pattern of `+0.0`.
pub const ZERO_BITS: u64 = 0;

/// Bit pattern of `-0.0`.
pub const NEG_ZERO_BITS: u64 = 0x8000_0000_0000_0000;

/// Bit pattern of `1.0`.
pub const ONE_BITS: u64 = 0x3FF0_0000_0000_0000;

/// Bit pattern of `+infinity`.
pub const INF_BITS: u64 = 0x7FF0_0000_0000_0000;

/// The pattern encodes a NaN: exponent all ones, fraction nonzero.
pub open spec fn is_nan(b: u64) -> bool {
    b & EXP_MASK == EXP_MASK && b & FRAC_MASK != 0
}

/// The pattern encodes a finite number: exponent not all ones.
pub open spec fn is_finite(b: u64) -> bool {
    b & EXP_MASK != EXP_MASK
}

/// The sign bit is set (negative numbers, `-0.0`, and negative NaNs).
pub open spec fn sign_bit(b: u64) -> bool {
    b & SIGN_MASK != 0
}

/// The pattern encodes a zero of either sign.
pub open spec fn is_zero(b: u64) -> bool {
    b == ZERO_BITS || b == NEG_ZERO_BITS
}

/// Key of the IEEE-754 sign-magnitude total order (the order of
/// `totalOrder`): comparing keys as unsigned integers orders the encoded
/// values from negative NaNs up through negative numbers, `-0.0`, `+0.0`,
/// positive numbers, and positive NaNs.
pub open spec fn total_key(b: u64) -> u64 {
    if b & SIGN_MASK != 0 {
        !b
    } else {
        b | SIGN_MASK
    }
}

/// Numeric `a >= b` on encoded values: false when either side is NaN,
/// zeros of both signs compare equal, and otherwise the total order
/// decides (it agrees with the numeric order away from NaNs and zeros).
pub open spec fn ieee_ge(a: u64, b: u64) -> bool {
    &&& !is_nan(a)
    &&& !is_nan(b)
    &&& (total_key(a) >= total_key(b) || (is_zero(a) && is_zero(b)))
}

/// The pattern is acceptable as a sampling weight: a finite,
/// non-negative number.
pub open spec fn weight_ok(b: u64) -> bool {
    is_finite(b) && !sign_bit(b)
}

/// The encoded value lies in the closed unit interval. Non-negative
/// patterns order numerically as unsigned integers, so the comparison
/// with the pattern of `1.0` decides; `-0.0` is admitted separately.
pub open spec fn in_unit_interval(b: u64) -> bool {
    b == NEG_ZERO_BITS || (!sign_bit(b) && b <= ONE_BITS)
}

/// Classification of the fixed patterns: both zeros and one are finite,
/// non-negative numbers, so they are acceptable weights.
pub proof fn lemma_fixed_patterns()
    ensures
        weight_ok(ZERO_BITS),
        weight_ok(ONE_BITS),
        is_zero(ZERO_BITS),
        !is_nan(ZERO_BITS),
        !is_nan(ONE_BITS),
        !sign_bit(ONE_BITS),
{
    assert(0u64 & 0x7FF0_0000_0000_0000u64 != 0x7FF0_0000_0000_0000u64 && 0u64
        & 0x8000_0000_0000_0000u64 == 0u64) by (bit_vector);
    assert(0x3FF0_0000_0000_0000u64 & 0x7FF0_0000_0000_0000u64 != 0x7FF0_0000_0000_0000u64
        && 0x3FF0_0000_0000_0000u64 & 0x8000_0000_0000_0000u64 == 0u64) by (bit_vector);
}

/// A non-negative pattern that is neither NaN nor the infinity pattern
/// encodes a finite number.
pub proof fn lemma_not_nan_not_inf_is_finite(b: u64)
    requires
        !is_nan(b),
        !sign_bit(b),
        b != INF_BITS,
    ensures
        is_finite(b),
{
    assert(!(b & 0x7FF0_0000_0000_0000u64 == 0x7FF0_0000_0000_0000u64 && b
        & 0x000F_FFFF_FFFF_FFFFu64 == 0u64 && b & 0x8000_0000_0000_0000u64 == 0u64) || b
        == 0x7FF0_0000_0000_0000u64) by (bit_vector);
}

/// Exact test for [`is_nan`].
pub fn check_nan(b: u64) -> (r: bool)
    ensures
        r == is_nan(b),
{
    (b & EXP_MASK == EXP_MASK) && (b & FRAC_MASK != 0)
}

/// Exact test for [`is_finite`].
pub fn check_finite(b: u64) -> (r: bool)
    ensures
        r == is_finite(b),
{
    b & EXP_MASK != EXP_MASK
}

/// Exact test for [`sign_bit`].
pub fn check_sign(b: u64) -> (r: bool)
    ensures
        r == sign_bit(b),
{
    b & SIGN_MASK != 0
}

/// Exact test for [`is_zero`].
pub fn check_zero(b: u64) -> (r: bool)
    ensures
        r == is_zero(b),
{
    b == ZERO_BITS || b == NEG_ZERO_BITS
}

/// Computes [`total_key`].
pub fn compute_total_key(b: u64) -> (r: u64)
    ensures
        r == total_key(b),
{
    if b & SIGN_MASK != 0 {
        !b
    } else {
        b | SIGN_MASK
    }
}

/// Exact test for [`ieee_ge`].
pub fn check_ieee_ge(a: u64, b: u64) -> (r: bool)
    ensures
        r == ieee_ge(a, b),
{
    if check_nan(a) || check_nan(b) {
        false
    } else {
        compute_total_key(a) >= compute_total_key(b) || (check_zero(a) && check_zero(b))
    }
}

/// Exact test for [`in_unit_interval`].
pub fn check_unit_interval(b: u64) -> (r: bool)
    ensures
        r == in_unit_interval(b),
{
    b == NEG_ZERO_BITS || (!check_sign(b) && b <= ONE_BITS)
}

} // verus!
