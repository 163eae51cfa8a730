//! IEEE 754 patterns: binary64 numbers as `u64`, binary32 samples as `u32`.
use vstd::prelude::*;

verus! {

/// The pattern of the double zero.
pub const ZERO: u64 = 0;

/// The pattern of the double one.
pub const ONE: u64 = 0x3ff0_0000_0000_0000;

/// The pattern of the double two.
pub const TWO: u64 = 0x4000_0000_0000_0000;

/// The pattern of the double three.
pub const THREE: u64 = 0x4008_0000_0000_0000;

/// The pattern of the double one half.
pub const HALF: u64 = 0x3fe0_0000_0000_0000;

/// The pattern of the positive infinite double.
pub const INFINITY: u64 = 0x7ff0_0000_0000_0000;

/// The sign bit of a double.
pub const SIGN: u64 = 0x8000_0000_0000_0000;

/// A double's pattern without its sign.
pub open spec fn magnitude(bits: u64) -> int {
    if bits < SIGN {
        bits as int
    } else {
        bits - SIGN
    }
}

/// The double is neither infinite nor a NaN: its magnitude is below that of infinity.
pub open spec fn finite(bits: u64) -> bool {
    magnitude(bits) < INFINITY
}

/// The double is a NaN: its magnitude is above that of infinity.
pub open spec fn nan(bits: u64) -> bool {
    magnitude(bits) > INFINITY
}

/// Where a double that is no NaN stands among the doubles: patterns of one sign are in the order of
/// their magnitudes, negative numbers run backwards, and both zeros stand at zero.
pub open spec fn rank(bits: u64) -> int {
    if bits < SIGN {
        magnitude(bits)
    } else {
        -magnitude(bits)
    }
}

/// `a < b` as doubles.
pub open spec fn less(a: u64, b: u64) -> bool {
    !nan(a) && !nan(b) && rank(a) < rank(b)
}

/// `a <= b` as doubles.
pub open spec fn at_most(a: u64, b: u64) -> bool {
    !nan(a) && !nan(b) && rank(a) <= rank(b)
}

/// The double lies in `[0, 1]`.
pub open spec fn in_unit(bits: u64) -> bool {
    at_most(ZERO, bits) && at_most(bits, ONE)
}

/// The double with the other sign.
pub open spec fn negated(bits: u64) -> u64 {
    if bits < SIGN {
        (bits + SIGN) as u64
    } else {
        (bits - SIGN) as u64
    }
}

/// Whether the pattern is that of no number.
pub fn is_nan(bits: u64) -> (r: bool)
    ensures
        r == nan(bits),
{
    drop_sign(bits) > INFINITY
}

/// Give a double the other sign.
pub fn negate(bits: u64) -> (r: u64)
    ensures
        r == negated(bits),
        rank(r) == -rank(bits),
{
    if bits < SIGN {
        bits + SIGN
    } else {
        bits - SIGN
    }
}

/// The double without its sign.
pub open spec fn absolute(bits: u64) -> u64 {
    magnitude(bits) as u64
}

/// Drop a double's sign.
pub fn drop_sign(bits: u64) -> (r: u64)
    ensures
        r == absolute(bits),
        r == magnitude(bits),
{
    if bits < SIGN {
        bits
    } else {
        bits - SIGN
    }
}

/// Whether a double is finite.
pub fn is_finite(bits: u64) -> (r: bool)
    ensures
        r == finite(bits),
{
    let m: u64 = if bits < SIGN {
        bits
    } else {
        bits - SIGN
    };
    m < INFINITY
}

/// Whether a double is a zero of either sign.
pub fn is_zero(bits: u64) -> (r: bool)
    ensures
        r == (rank(bits) == 0),
{
    bits == ZERO || bits == SIGN
}

/// Where a double stands among the doubles, if it is no NaN.
fn ranked(bits: u64) -> (r: Option<i128>)
    ensures
        r == (if nan(bits) {
            None
        } else {
            Some(rank(bits) as i128)
        }),
        !nan(bits) ==> r == Some(rank(bits) as i128) && rank(bits) as i128 == rank(bits),
{
    let m: u64 = if bits < SIGN {
        bits
    } else {
        bits - SIGN
    };
    if m > INFINITY {
        None
    } else if bits < SIGN {
        Some(m as i128)
    } else {
        Some(-(m as i128))
    }
}

/// Whether `a < b` as doubles.
pub fn is_less(a: u64, b: u64) -> (r: bool)
    ensures
        r == less(a, b),
{
    match (ranked(a), ranked(b)) {
        (Some(x), Some(y)) => x < y,
        _ => false,
    }
}

/// Whether `a <= b` as doubles.
pub fn is_at_most(a: u64, b: u64) -> (r: bool)
    ensures
        r == at_most(a, b),
{
    match (ranked(a), ranked(b)) {
        (Some(x), Some(y)) => x <= y,
        _ => false,
    }
}

/// Whether a double lies in `[0, 1]`.
pub fn is_in_unit(bits: u64) -> (r: bool)
    ensures
        r == in_unit(bits),
{
    is_at_most(ZERO, bits) && is_at_most(bits, ONE)
}

/// The double kept within `[0, 1]`; a NaN stays.
pub open spec fn clamped_unit(bits: u64) -> u64 {
    if less(bits, ZERO) {
        ZERO
    } else if less(ONE, bits) {
        ONE
    } else {
        bits
    }
}

/// Keep a double within `[0, 1]`.
pub fn clamp_unit(bits: u64) -> (r: u64)
    ensures
        r == clamped_unit(bits),
{
    if is_less(bits, ZERO) {
        ZERO
    } else if is_less(ONE, bits) {
        ONE
    } else {
        bits
    }
}

/// The sign bit of a sample.
pub const SAMPLE_SIGN: u32 = 0x8000_0000;

/// The pattern of the sample zero.
pub const SAMPLE_ZERO: u32 = 0;

/// The pattern of the sample one.
pub const SAMPLE_ONE: u32 = 0x3f80_0000;

/// The pattern of the positive infinite sample.
pub const SAMPLE_INFINITY: u32 = 0x7f80_0000;

/// The pattern of the negative infinite sample.
pub const SAMPLE_NEG_INFINITY: u32 = 0xff80_0000;

/// A sample's pattern without its sign.
pub open spec fn sample_magnitude(bits: u32) -> int {
    if bits < SAMPLE_SIGN {
        bits as int
    } else {
        bits - SAMPLE_SIGN
    }
}

/// The sample is neither infinite nor a NaN.
pub open spec fn sample_finite(bits: u32) -> bool {
    sample_magnitude(bits) < SAMPLE_INFINITY
}

/// The sample is a NaN.
pub open spec fn sample_nan(bits: u32) -> bool {
    sample_magnitude(bits) > SAMPLE_INFINITY
}

/// Where a sample that is no NaN stands among the samples.
pub open spec fn sample_rank(bits: u32) -> int {
    if bits < SAMPLE_SIGN {
        sample_magnitude(bits)
    } else {
        -sample_magnitude(bits)
    }
}

/// `a < b` as samples.
pub open spec fn sample_less(a: u32, b: u32) -> bool {
    !sample_nan(a) && !sample_nan(b) && sample_rank(a) < sample_rank(b)
}

/// `a <= b` as samples.
pub open spec fn sample_at_most(a: u32, b: u32) -> bool {
    !sample_nan(a) && !sample_nan(b) && sample_rank(a) <= sample_rank(b)
}

/// The sample without its sign.
pub open spec fn sample_absolute(bits: u32) -> u32 {
    sample_magnitude(bits) as u32
}

/// Drop a sample's sign.
pub fn sample_unsigned(bits: u32) -> (r: u32)
    ensures
        r == sample_absolute(bits),
        r == sample_magnitude(bits),
{
    if bits < SAMPLE_SIGN {
        bits
    } else {
        bits - SAMPLE_SIGN
    }
}

/// Whether a sample is finite.
pub fn is_sample_finite(bits: u32) -> (r: bool)
    ensures
        r == sample_finite(bits),
{
    sample_unsigned(bits) < SAMPLE_INFINITY
}

/// Whether a sample is a NaN.
pub fn is_sample_nan(bits: u32) -> (r: bool)
    ensures
        r == sample_nan(bits),
{
    sample_unsigned(bits) > SAMPLE_INFINITY
}

/// Whether a sample is a zero of either sign.
pub fn is_sample_zero(bits: u32) -> (r: bool)
    ensures
        r == (sample_rank(bits) == 0),
{
    bits == SAMPLE_ZERO || bits == SAMPLE_SIGN
}

/// Where a sample stands among the samples.
fn sample_place(bits: u32) -> (r: i64)
    ensures
        r == sample_rank(bits),
{
    if bits < SAMPLE_SIGN {
        bits as i64
    } else {
        -((bits - SAMPLE_SIGN) as i64)
    }
}

/// Whether `a < b` as samples.
pub fn is_sample_less(a: u32, b: u32) -> (r: bool)
    ensures
        r == sample_less(a, b),
{
    !is_sample_nan(a) && !is_sample_nan(b) && sample_place(a) < sample_place(b)
}

/// Whether `a <= b` as samples.
pub fn is_sample_at_most(a: u32, b: u32) -> (r: bool)
    ensures
        r == sample_at_most(a, b),
{
    !is_sample_nan(a) && !is_sample_nan(b) && sample_place(a) <= sample_place(b)
}

} // verus!
