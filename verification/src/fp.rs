//! Scalar layer: IEEE-754 single-precision values carried as `u32` bit
//! patterns.
//!
//! The store never computes with native floats. Every scalar is the raw bit
//! pattern of an IEEE-754 single-precision value, arithmetic on such patterns
//! is done by a software floating-point library behind the trusted wrappers
//! below, and ordering is done in verified code through the IEEE-754 total
//! order on bit patterns (`key`), which agrees with the usual float
//! comparison on all non-NaN values and additionally orders `-0.0` below
//! `+0.0` and places NaN patterns at the two ends.

use vstd::prelude::*;

verus! {

/// Bit pattern of `1e-10f32`: the magnitude threshold below which a vector
/// is treated as zero by `normalize`.
pub const EPS_BITS: u32 = 0x2EDB_E6FF;

/// Bit pattern of `1.0f32`.
pub const ONE_BITS: u32 = 0x3F80_0000;

/// Bit pattern of `-1.0f32`.
pub const NEG_ONE_BITS: u32 = 0xBF80_0000;

/// What IEEE-754 single-precision addition (round to nearest, ties to even)
/// returns on two bit patterns.
pub uninterp spec fn add_of(a: u32, b: u32) -> u32;

/// What IEEE-754 single-precision subtraction returns on two bit patterns.
pub uninterp spec fn sub_of(a: u32, b: u32) -> u32;

/// What IEEE-754 single-precision multiplication returns on two bit patterns.
pub uninterp spec fn mul_of(a: u32, b: u32) -> u32;

/// What IEEE-754 single-precision division returns on two bit patterns.
pub uninterp spec fn div_of(a: u32, b: u32) -> u32;

/// What IEEE-754 single-precision square root returns on a bit pattern.
pub uninterp spec fn sqrt_of(a: u32) -> u32;

/// What decimal-string parsing to an IEEE-754 single returns: `None` when the
/// text is not a number, otherwise the bit pattern of the correctly rounded
/// value.
pub uninterp spec fn parse_f32_of(s: Seq<char>) -> Option<u32>;

/// Relies on const_soft_float's `SoftF32::add`: IEEE-754 single addition,
/// round to nearest even, a function of the two bit patterns alone.
/// Adding positive zero to positive zero gives positive zero.
#[verifier::external_body]
pub(crate) fn add_bits(a: u32, b: u32) -> (r: u32)
    ensures
        r == add_of(a, b),
        a == 0u32 && b == 0u32 ==> r == 0u32,
{
    const_soft_float::soft_f32::SoftF32::from_bits(a).add(
        const_soft_float::soft_f32::SoftF32::from_bits(b),
    ).to_bits()
}

/// Relies on const_soft_float's `SoftF32::sub`: IEEE-754 single subtraction,
/// a function of the two bit patterns alone.
#[verifier::external_body]
pub(crate) fn sub_bits(a: u32, b: u32) -> (r: u32)
    ensures
        r == sub_of(a, b),
{
    const_soft_float::soft_f32::SoftF32::from_bits(a).sub(
        const_soft_float::soft_f32::SoftF32::from_bits(b),
    ).to_bits()
}

/// Relies on const_soft_float's `SoftF32::mul`: IEEE-754 single
/// multiplication, a function of the two bit patterns alone.
/// Positive zero times positive zero gives positive zero.
#[verifier::external_body]
pub(crate) fn mul_bits(a: u32, b: u32) -> (r: u32)
    ensures
        r == mul_of(a, b),
        a == 0u32 && b == 0u32 ==> r == 0u32,
{
    const_soft_float::soft_f32::SoftF32::from_bits(a).mul(
        const_soft_float::soft_f32::SoftF32::from_bits(b),
    ).to_bits()
}

/// Relies on const_soft_float's `SoftF32::div`: IEEE-754 single division, a
/// function of the two bit patterns alone.
#[verifier::external_body]
pub(crate) fn div_bits(a: u32, b: u32) -> (r: u32)
    ensures
        r == div_of(a, b),
{
    const_soft_float::soft_f32::SoftF32::from_bits(a).div(
        const_soft_float::soft_f32::SoftF32::from_bits(b),
    ).to_bits()
}

/// Relies on const_soft_float's `SoftF32::sqrt`: IEEE-754 single square
/// root, a function of the bit pattern alone. The square root of positive
/// zero is positive zero.
#[verifier::external_body]
pub(crate) fn sqrt_bits(a: u32) -> (r: u32)
    ensures
        r == sqrt_of(a),
        a == 0u32 ==> r == 0u32,
{
    const_soft_float::soft_f32::SoftF32::from_bits(a).sqrt().to_bits()
}

/// Relies on rustc_apfloat's decimal parsing for `ieee::Single`: correctly
/// rounded, a function of the characters alone; `Err` on text that is not a
/// number. The length bound keeps the parser's exponent arithmetic, which is
/// 32-bit, away from its limits.
#[verifier::external_body]
pub(crate) fn parse_f32_bits(s: &str) -> (r: Option<u32>)
    requires
        s@.len() < 0x8000_0000,
    ensures
        r == parse_f32_of(s@),
{
    match s.parse::<rustc_apfloat::ieee::Single>() {
        Ok(v) => Some(rustc_apfloat::Float::to_bits(v) as u32),
        Err(_) => None,
    }
}

/// The IEEE-754 total-order key of a bit pattern: `key(a) < key(b)` exactly
/// when the value of `a` precedes the value of `b` in the IEEE-754 total
/// order (negative NaN, ..., -0.0, +0.0, ..., positive NaN).
pub open spec fn key(s: u32) -> u32 {
    if s < 0x8000_0000 {
        (s + 0x8000_0000) as u32
    } else {
        (0xFFFF_FFFFu32 - s) as u32
    }
}

/// Executable twin of `key`.
pub fn sort_key(s: u32) -> (r: u32)
    ensures
        r == key(s),
{
    if s < 0x8000_0000 {
        s + 0x8000_0000
    } else {
        0xFFFF_FFFF - s
    }
}

/// Strict "less than" in the IEEE-754 total order on bit patterns.
pub open spec fn lt_bits(a: u32, b: u32) -> bool {
    key(a) < key(b)
}

/// Executable twin of `lt_bits`.
pub fn lt_total(a: u32, b: u32) -> (r: bool)
    ensures
        r == lt_bits(a, b),
{
    sort_key(a) < sort_key(b)
}

/// Negation of an IEEE-754 value: the sign bit flips, every other bit stays.
pub open spec fn flip_sign(s: u32) -> u32 {
    if s < 0x8000_0000 {
        (s + 0x8000_0000) as u32
    } else {
        (s - 0x8000_0000) as u32
    }
}

/// Executable twin of `flip_sign`.
pub fn neg_bits(s: u32) -> (r: u32)
    ensures
        r == flip_sign(s),
{
    if s < 0x8000_0000 {
        s + 0x8000_0000
    } else {
        s - 0x8000_0000
    }
}

/// Whether a bit pattern encodes a NaN: exponent all ones, significand
/// non-zero.
pub open spec fn is_nan_bits(s: u32) -> bool {
    (s / 0x0080_0000) % 0x100 == 0xFF && s % 0x0080_0000 != 0
}

/// Executable twin of `is_nan_bits`.
pub fn is_nan(s: u32) -> (r: bool)
    ensures
        r == is_nan_bits(s),
{
    (s / 0x0080_0000) % 0x100 == 0xFF && s % 0x0080_0000 != 0
}

/// Whether a bit pattern encodes a finite value: the exponent is not all
/// ones (which would mean an infinity or a NaN).
pub open spec fn is_finite_bits(s: u32) -> bool {
    (s / 0x0080_0000) % 0x100 != 0xFF
}

/// Executable twin of `is_finite_bits`.
pub fn is_finite(s: u32) -> (r: bool)
    ensures
        r == is_finite_bits(s),
{
    (s / 0x0080_0000) % 0x100 != 0xFF
}

/// Clamping to `[-1.0, 1.0]`, as `f32::clamp` does it: NaN passes through,
/// values below -1.0 become -1.0, values above 1.0 become 1.0.
pub open spec fn clamp_unit_spec(s: u32) -> u32 {
    if is_nan_bits(s) {
        s
    } else if lt_bits(s, NEG_ONE_BITS) {
        NEG_ONE_BITS
    } else if lt_bits(ONE_BITS, s) {
        ONE_BITS
    } else {
        s
    }
}

/// Executable twin of `clamp_unit_spec`.
pub fn clamp_unit(s: u32) -> (r: u32)
    ensures
        r == clamp_unit_spec(s),
{
    if is_nan(s) {
        s
    } else if lt_total(s, NEG_ONE_BITS) {
        NEG_ONE_BITS
    } else if lt_total(ONE_BITS, s) {
        ONE_BITS
    } else {
        s
    }
}

} // verus!
