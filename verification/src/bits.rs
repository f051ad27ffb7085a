//! Scalar arithmetic on IEEE 754 single-precision bit patterns.
//!
//! The engine never holds a native float: every scalar travels as the raw
//! `u32` bit pattern of a single-precision value.  The four arithmetic
//! primitives below are computed by `rustc_apfloat`'s software
//! implementation of IEEE 754 and are the only trusted arithmetic in the
//! crate; each result is named by an uninterpreted spec function, since an
//! IEEE operation is a function of its operand bit patterns alone.
//! Sign tests against zero, by contrast, are plain bit logic and are
//! implemented and verified here directly.

use vstd::prelude::*;
use rustc_apfloat::Float;

verus! {

/// Bit pattern of +0.0f32, the initial gradient of every node.
pub const ZERO_BITS: u32 = 0x0000_0000;

/// Bit pattern of 1.0f32, the seed gradient of a backward pass's terminal.
pub const ONE_BITS: u32 = 0x3F80_0000;

/// Bit pattern of -1.0f32, the factor used by negation.
pub const NEG_ONE_BITS: u32 = 0xBF80_0000;

/// The rounded sum of two single-precision values, by bit pattern.
pub uninterp spec fn add_of(a: u32, b: u32) -> u32;

/// The rounded product of two single-precision values, by bit pattern.
pub uninterp spec fn mul_of(a: u32, b: u32) -> u32;

/// The rounded quotient of two single-precision values, by bit pattern.
pub uninterp spec fn div_of(a: u32, b: u32) -> u32;

/// The single-precision value nearest to an integer, by bit pattern.
pub uninterp spec fn of_int(k: int) -> u32;

/// Relies on rustc_apfloat: `Float::add_r` on `ieee::Single` with
/// round-to-nearest-even is IEEE 754 addition, a function of the two
/// operand bit patterns alone.
#[verifier::external_body]
pub(crate) fn add_bits(a: u32, b: u32) -> (r: u32)
    ensures
        r == add_of(a, b),
{
    let x = rustc_apfloat::ieee::Single::from_bits(a as u128);
    let y = rustc_apfloat::ieee::Single::from_bits(b as u128);
    x.add_r(y, rustc_apfloat::Round::NearestTiesToEven).value.to_bits() as u32
}

/// Relies on rustc_apfloat: `Float::mul_r` on `ieee::Single` with
/// round-to-nearest-even is IEEE 754 multiplication, a function of the two
/// operand bit patterns alone.
#[verifier::external_body]
pub(crate) fn mul_bits(a: u32, b: u32) -> (r: u32)
    ensures
        r == mul_of(a, b),
{
    let x = rustc_apfloat::ieee::Single::from_bits(a as u128);
    let y = rustc_apfloat::ieee::Single::from_bits(b as u128);
    x.mul_r(y, rustc_apfloat::Round::NearestTiesToEven).value.to_bits() as u32
}

/// Relies on rustc_apfloat: `Float::div_r` on `ieee::Single` with
/// round-to-nearest-even is IEEE 754 division, a function of the two
/// operand bit patterns alone.
#[verifier::external_body]
pub(crate) fn div_bits(a: u32, b: u32) -> (r: u32)
    ensures
        r == div_of(a, b),
{
    let x = rustc_apfloat::ieee::Single::from_bits(a as u128);
    let y = rustc_apfloat::ieee::Single::from_bits(b as u128);
    x.div_r(y, rustc_apfloat::Round::NearestTiesToEven).value.to_bits() as u32
}

/// Relies on rustc_apfloat: `Float::from_i128` on `ieee::Single` rounds an
/// integer to the nearest single-precision value, a function of the
/// integer alone.
#[verifier::external_body]
pub(crate) fn int_bits(k: i64) -> (r: u32)
    ensures
        r == of_int(k as int),
{
    rustc_apfloat::ieee::Single::from_i128(k as i128).value.to_bits() as u32
}

/// The number of equal steps into which the weight-initialization
/// interval [-1, 1] is divided.
pub const WEIGHT_GRID: u32 = 2_000_000;

#[verifier::external_type_specification]
#[verifier::external_body]
pub struct ExStdRng(rand::rngs::StdRng);

/// Relies on rand's `Rng::gen_range` over the closed integer range
/// `0..=WEIGHT_GRID`: every outcome lies within that range.
#[verifier::external_body]
pub(crate) fn sample_grid(rng: &mut rand::rngs::StdRng) -> (r: u32)
    ensures
        r <= WEIGHT_GRID,
{
    rand::Rng::gen_range(rng, 0..=WEIGHT_GRID)
}

/// A single-precision value is at least zero when it is not NaN and is
/// either of positive sign or a negative zero.
pub open spec fn is_ge_zero(b: u32) -> bool {
    (b & 0x8000_0000 == 0 && (b & 0x7FFF_FFFF) <= 0x7F80_0000) || b == 0x8000_0000
}

/// A single-precision value is strictly greater than zero when its sign
/// bit is clear and its magnitude is neither zero nor a NaN payload.
pub open spec fn is_gt_zero(b: u32) -> bool {
    b & 0x8000_0000 == 0 && 0 < (b & 0x7FFF_FFFF) && (b & 0x7FFF_FFFF) <= 0x7F80_0000
}

/// Decides `is_ge_zero` on the bit pattern.
pub fn ge_zero(b: u32) -> (r: bool)
    ensures
        r == is_ge_zero(b),
{
    (b & 0x8000_0000 == 0 && (b & 0x7FFF_FFFF) <= 0x7F80_0000) || b == 0x8000_0000
}

/// Decides `is_gt_zero` on the bit pattern.
pub fn gt_zero(b: u32) -> (r: bool)
    ensures
        r == is_gt_zero(b),
{
    b & 0x8000_0000 == 0 && 0 < (b & 0x7FFF_FFFF) && (b & 0x7FFF_FFFF) <= 0x7F80_0000
}

} // verus!
