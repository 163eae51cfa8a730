//! The rounding arithmetic that the operations are given.
//!
//! Samples are IEEE 754 binary32 numbers and every sum is taken in binary64. Both are handled by
//! their patterns: a sample is a `u32`, a wide number a `u64`. The operations decide which numbers
//! are combined, and in which order; the combining itself is the work of an [`Arithmetic`].
//!
//! Nothing is taken for granted of an arithmetic but that it is [`lawful`]: every step can be taken on
//! all operands, equal operands give one result, and differences and zeros are [`balanced`]. IEEE 754
//! arithmetic is, once a result that is no number always has the same pattern.
use crate::binary::{sample_absolute, sample_finite, SAMPLE_ZERO, ZERO};
use vstd::prelude::*;

verus! {

/// The primitive steps on wide numbers and samples.
pub trait Arithmetic {
    /// A sample as a wide number.
    fn widen(a: u32) -> u64;

    /// A wide number rounded to a sample.
    fn narrow(a: u64) -> u32;

    /// An integer as a wide number.
    fn whole(a: i64) -> u64;

    /// A count as a wide number.
    fn tally(a: u64) -> u64;

    /// `a + b`.
    fn plus(a: u64, b: u64) -> u64;

    /// `a - b`.
    fn minus(a: u64, b: u64) -> u64;

    /// `a * b`.
    fn times(a: u64, b: u64) -> u64;

    /// `a / b`.
    fn over(a: u64, b: u64) -> u64;

    /// `a * b + c`, rounded once.
    fn fused(a: u64, b: u64, c: u64) -> u64;

    /// The square root.
    fn root(a: u64) -> u64;

    /// The length of the vector `(a, b)`.
    fn hypotenuse(a: u64, b: u64) -> u64;

    /// The exponential.
    fn exponential(a: u64) -> u64;

    /// The cosine.
    fn cosine(a: u64) -> u64;

    /// The sine.
    fn sine(a: u64) -> u64;

    /// The greatest integer that is not above the number.
    fn round_down(a: u64) -> u64;

    /// The least integer that is not below the number.
    fn round_up(a: u64) -> u64;

    /// The integer part of a wide number; the nearest of the type for one beyond it.
    fn to_integer(a: u64) -> i64;

    /// `a + b` of samples.
    fn sample_plus(a: u32, b: u32) -> u32;

    /// `a - b` of samples.
    fn sample_minus(a: u32, b: u32) -> u32;

    /// `a / b` of samples.
    fn sample_over(a: u32, b: u32) -> u32;

    /// `a * b + c` of samples, rounded once.
    fn sample_fused(a: u32, b: u32, c: u32) -> u32;

    /// The square root of a sample.
    fn sample_root(a: u32) -> u32;

    /// `a` to the power `b`, of samples.
    fn sample_power(a: u32, b: u32) -> u32;
}

/// Every step can be taken on all operands, and equal operands give one result.
#[verifier::opaque]
pub open spec fn lawful<A: Arithmetic>() -> bool {
    &&& forall|a: u32| #[trigger] call_requires(A::widen, (a,))
    &&& forall|a: u32, r: u64, s: u64|
        #[trigger] call_ensures(A::widen, (a,), r) && #[trigger] call_ensures(A::widen, (a,), s)
            ==> r == s
    &&& forall|a: u64| #[trigger] call_requires(A::narrow, (a,))
    &&& forall|a: u64, r: u32, s: u32|
        #[trigger] call_ensures(A::narrow, (a,), r) && #[trigger] call_ensures(A::narrow, (a,), s)
            ==> r == s
    &&& forall|a: i64| #[trigger] call_requires(A::whole, (a,))
    &&& forall|a: i64, r: u64, s: u64|
        #[trigger] call_ensures(A::whole, (a,), r) && #[trigger] call_ensures(A::whole, (a,), s)
            ==> r == s
    &&& forall|a: u64| #[trigger] call_requires(A::tally, (a,))
    &&& forall|a: u64, r: u64, s: u64|
        #[trigger] call_ensures(A::tally, (a,), r) && #[trigger] call_ensures(A::tally, (a,), s)
            ==> r == s
    &&& forall|a: u64, b: u64| #[trigger] call_requires(A::plus, (a, b,))
    &&& forall|a: u64, b: u64, r: u64, s: u64|
        #[trigger] call_ensures(A::plus, (a, b,), r) && #[trigger] call_ensures(A::plus, (a, b,), s)
            ==> r == s
    &&& forall|a: u64, b: u64| #[trigger] call_requires(A::minus, (a, b,))
    &&& forall|a: u64, b: u64, r: u64, s: u64|
        #[trigger] call_ensures(A::minus, (a, b,), r) && #[trigger] call_ensures(A::minus, (a, b,), s)
            ==> r == s
    &&& forall|a: u64, b: u64| #[trigger] call_requires(A::times, (a, b,))
    &&& forall|a: u64, b: u64, r: u64, s: u64|
        #[trigger] call_ensures(A::times, (a, b,), r) && #[trigger] call_ensures(A::times, (a, b,), s)
            ==> r == s
    &&& forall|a: u64, b: u64| #[trigger] call_requires(A::over, (a, b,))
    &&& forall|a: u64, b: u64, r: u64, s: u64|
        #[trigger] call_ensures(A::over, (a, b,), r) && #[trigger] call_ensures(A::over, (a, b,), s)
            ==> r == s
    &&& forall|a: u64, b: u64, c: u64| #[trigger] call_requires(A::fused, (a, b, c,))
    &&& forall|a: u64, b: u64, c: u64, r: u64, s: u64|
        #[trigger] call_ensures(A::fused, (a, b, c,), r) && #[trigger] call_ensures(A::fused, (a, b, c,), s)
            ==> r == s
    &&& forall|a: u64| #[trigger] call_requires(A::root, (a,))
    &&& forall|a: u64, r: u64, s: u64|
        #[trigger] call_ensures(A::root, (a,), r) && #[trigger] call_ensures(A::root, (a,), s)
            ==> r == s
    &&& forall|a: u64, b: u64| #[trigger] call_requires(A::hypotenuse, (a, b,))
    &&& forall|a: u64, b: u64, r: u64, s: u64|
        #[trigger] call_ensures(A::hypotenuse, (a, b,), r) && #[trigger] call_ensures(A::hypotenuse, (a, b,), s)
            ==> r == s
    &&& forall|a: u64| #[trigger] call_requires(A::exponential, (a,))
    &&& forall|a: u64, r: u64, s: u64|
        #[trigger] call_ensures(A::exponential, (a,), r) && #[trigger] call_ensures(A::exponential, (a,), s)
            ==> r == s
    &&& forall|a: u64| #[trigger] call_requires(A::cosine, (a,))
    &&& forall|a: u64, r: u64, s: u64|
        #[trigger] call_ensures(A::cosine, (a,), r) && #[trigger] call_ensures(A::cosine, (a,), s)
            ==> r == s
    &&& forall|a: u64| #[trigger] call_requires(A::sine, (a,))
    &&& forall|a: u64, r: u64, s: u64|
        #[trigger] call_ensures(A::sine, (a,), r) && #[trigger] call_ensures(A::sine, (a,), s)
            ==> r == s
    &&& forall|a: u64| #[trigger] call_requires(A::round_down, (a,))
    &&& forall|a: u64, r: u64, s: u64|
        #[trigger] call_ensures(A::round_down, (a,), r) && #[trigger] call_ensures(A::round_down, (a,), s)
            ==> r == s
    &&& forall|a: u64| #[trigger] call_requires(A::round_up, (a,))
    &&& forall|a: u64, r: u64, s: u64|
        #[trigger] call_ensures(A::round_up, (a,), r) && #[trigger] call_ensures(A::round_up, (a,), s)
            ==> r == s
    &&& forall|a: u64| #[trigger] call_requires(A::to_integer, (a,))
    &&& forall|a: u64, r: i64, s: i64|
        #[trigger] call_ensures(A::to_integer, (a,), r) && #[trigger] call_ensures(A::to_integer, (a,), s)
            ==> r == s
    &&& forall|a: u32, b: u32| #[trigger] call_requires(A::sample_plus, (a, b,))
    &&& forall|a: u32, b: u32, r: u32, s: u32|
        #[trigger] call_ensures(A::sample_plus, (a, b,), r) && #[trigger] call_ensures(A::sample_plus, (a, b,), s)
            ==> r == s
    &&& forall|a: u32, b: u32| #[trigger] call_requires(A::sample_minus, (a, b,))
    &&& forall|a: u32, b: u32, r: u32, s: u32|
        #[trigger] call_ensures(A::sample_minus, (a, b,), r) && #[trigger] call_ensures(A::sample_minus, (a, b,), s)
            ==> r == s
    &&& forall|a: u32, b: u32| #[trigger] call_requires(A::sample_over, (a, b,))
    &&& forall|a: u32, b: u32, r: u32, s: u32|
        #[trigger] call_ensures(A::sample_over, (a, b,), r) && #[trigger] call_ensures(A::sample_over, (a, b,), s)
            ==> r == s
    &&& forall|a: u32, b: u32, c: u32| #[trigger] call_requires(A::sample_fused, (a, b, c,))
    &&& forall|a: u32, b: u32, c: u32, r: u32, s: u32|
        #[trigger] call_ensures(A::sample_fused, (a, b, c,), r) && #[trigger] call_ensures(A::sample_fused, (a, b, c,), s)
            ==> r == s
    &&& forall|a: u32| #[trigger] call_requires(A::sample_root, (a,))
    &&& forall|a: u32, r: u32, s: u32|
        #[trigger] call_ensures(A::sample_root, (a,), r) && #[trigger] call_ensures(A::sample_root, (a,), s)
            ==> r == s
    &&& forall|a: u32, b: u32| #[trigger] call_requires(A::sample_power, (a, b,))
    &&& forall|a: u32, b: u32, r: u32, s: u32|
        #[trigger] call_ensures(A::sample_power, (a, b,), r) && #[trigger] call_ensures(A::sample_power, (a, b,), s)
            ==> r == s
    &&& balanced::<A>()
}

/// Swapping two samples changes no more than the sign of their difference, a finite sample less itself
/// is zero, and widening, adding up, averaging and taking the root keep zero.
#[verifier::opaque]
pub open spec fn balanced<A: Arithmetic>() -> bool {
    &&& forall|a: u32, b: u32|
        sample_absolute(#[trigger] sample_minus_of::<A>(a, b)) == sample_absolute(
            sample_minus_of::<A>(b, a),
        )
    &&& forall|a: u32|
        sample_finite(a) ==> #[trigger] sample_minus_of::<A>(a, a) == SAMPLE_ZERO
    &&& widen_of::<A>(SAMPLE_ZERO) == ZERO
    &&& plus_of::<A>(ZERO, ZERO) == ZERO
    &&& fused_of::<A>(ZERO, ZERO, ZERO) == ZERO
    &&& forall|n: u64| n > 0 ==> over_of::<A>(ZERO, #[trigger] tally_of::<A>(n)) == ZERO
    &&& root_of::<A>(ZERO) == ZERO
}

/// Swapping two samples changes no more than the sign of their difference.
pub proof fn lemma_swapped_difference<A: Arithmetic>(a: u32, b: u32)
    requires
        lawful::<A>(),
    ensures
        sample_absolute(sample_minus_of::<A>(a, b)) == sample_absolute(sample_minus_of::<A>(b, a)),
{
    reveal(lawful);
    reveal(balanced);
}

/// A finite sample less itself is zero.
pub proof fn lemma_own_difference<A: Arithmetic>(a: u32)
    requires
        lawful::<A>(),
        sample_finite(a),
    ensures
        sample_minus_of::<A>(a, a) == SAMPLE_ZERO,
{
    reveal(lawful);
    reveal(balanced);
}

/// Widening, adding up, averaging and taking the root keep zero.
pub proof fn lemma_zeros<A: Arithmetic>()
    requires
        lawful::<A>(),
    ensures
        widen_of::<A>(SAMPLE_ZERO) == ZERO,
        plus_of::<A>(ZERO, ZERO) == ZERO,
        fused_of::<A>(ZERO, ZERO, ZERO) == ZERO,
        forall|n: u64| n > 0 ==> over_of::<A>(ZERO, #[trigger] tally_of::<A>(n)) == ZERO,
        root_of::<A>(ZERO) == ZERO,
{
    reveal(lawful);
    reveal(balanced);
}

/// What the arithmetic gives for a sample as a wide number.
pub open spec fn widen_of<A: Arithmetic>(a: u32) -> u64 {
    choose|r: u64| call_ensures(A::widen, (a,), r)
}

/// A sample as a wide number.
pub fn widen<A: Arithmetic>(a: u32) -> (r: u64)
    requires
        lawful::<A>(),
    ensures
        r == widen_of::<A>(a),
{
    proof {
        reveal(lawful);
    }
    A::widen(a)
}

/// What the arithmetic gives for a wide number rounded to a sample.
pub open spec fn narrow_of<A: Arithmetic>(a: u64) -> u32 {
    choose|r: u32| call_ensures(A::narrow, (a,), r)
}

/// A wide number rounded to a sample.
pub fn narrow<A: Arithmetic>(a: u64) -> (r: u32)
    requires
        lawful::<A>(),
    ensures
        r == narrow_of::<A>(a),
{
    proof {
        reveal(lawful);
    }
    A::narrow(a)
}

/// What the arithmetic gives for an integer as a wide number.
pub open spec fn whole_of<A: Arithmetic>(a: i64) -> u64 {
    choose|r: u64| call_ensures(A::whole, (a,), r)
}

/// An integer as a wide number.
pub fn whole<A: Arithmetic>(a: i64) -> (r: u64)
    requires
        lawful::<A>(),
    ensures
        r == whole_of::<A>(a),
{
    proof {
        reveal(lawful);
    }
    A::whole(a)
}

/// What the arithmetic gives for a count as a wide number.
pub open spec fn tally_of<A: Arithmetic>(a: u64) -> u64 {
    choose|r: u64| call_ensures(A::tally, (a,), r)
}

/// A count as a wide number.
pub fn tally<A: Arithmetic>(a: u64) -> (r: u64)
    requires
        lawful::<A>(),
    ensures
        r == tally_of::<A>(a),
{
    proof {
        reveal(lawful);
    }
    A::tally(a)
}

/// What the arithmetic gives for `a + b`.
pub open spec fn plus_of<A: Arithmetic>(a: u64, b: u64) -> u64 {
    choose|r: u64| call_ensures(A::plus, (a, b,), r)
}

/// `a + b`.
pub fn plus<A: Arithmetic>(a: u64, b: u64) -> (r: u64)
    requires
        lawful::<A>(),
    ensures
        r == plus_of::<A>(a, b),
{
    proof {
        reveal(lawful);
    }
    A::plus(a, b)
}

/// What the arithmetic gives for `a - b`.
pub open spec fn minus_of<A: Arithmetic>(a: u64, b: u64) -> u64 {
    choose|r: u64| call_ensures(A::minus, (a, b,), r)
}

/// `a - b`.
pub fn minus<A: Arithmetic>(a: u64, b: u64) -> (r: u64)
    requires
        lawful::<A>(),
    ensures
        r == minus_of::<A>(a, b),
{
    proof {
        reveal(lawful);
    }
    A::minus(a, b)
}

/// What the arithmetic gives for `a * b`.
pub open spec fn times_of<A: Arithmetic>(a: u64, b: u64) -> u64 {
    choose|r: u64| call_ensures(A::times, (a, b,), r)
}

/// `a * b`.
pub fn times<A: Arithmetic>(a: u64, b: u64) -> (r: u64)
    requires
        lawful::<A>(),
    ensures
        r == times_of::<A>(a, b),
{
    proof {
        reveal(lawful);
    }
    A::times(a, b)
}

/// What the arithmetic gives for `a / b`.
pub open spec fn over_of<A: Arithmetic>(a: u64, b: u64) -> u64 {
    choose|r: u64| call_ensures(A::over, (a, b,), r)
}

/// `a / b`.
pub fn over<A: Arithmetic>(a: u64, b: u64) -> (r: u64)
    requires
        lawful::<A>(),
    ensures
        r == over_of::<A>(a, b),
{
    proof {
        reveal(lawful);
    }
    A::over(a, b)
}

/// What the arithmetic gives for `a * b + c`, rounded once.
pub open spec fn fused_of<A: Arithmetic>(a: u64, b: u64, c: u64) -> u64 {
    choose|r: u64| call_ensures(A::fused, (a, b, c,), r)
}

/// `a * b + c`, rounded once.
pub fn fused<A: Arithmetic>(a: u64, b: u64, c: u64) -> (r: u64)
    requires
        lawful::<A>(),
    ensures
        r == fused_of::<A>(a, b, c),
{
    proof {
        reveal(lawful);
    }
    A::fused(a, b, c)
}

/// What the arithmetic gives for the square root.
pub open spec fn root_of<A: Arithmetic>(a: u64) -> u64 {
    choose|r: u64| call_ensures(A::root, (a,), r)
}

/// The square root.
pub fn root<A: Arithmetic>(a: u64) -> (r: u64)
    requires
        lawful::<A>(),
    ensures
        r == root_of::<A>(a),
{
    proof {
        reveal(lawful);
    }
    A::root(a)
}

/// What the arithmetic gives for the length of the vector `(a, b)`.
pub open spec fn hypotenuse_of<A: Arithmetic>(a: u64, b: u64) -> u64 {
    choose|r: u64| call_ensures(A::hypotenuse, (a, b,), r)
}

/// The length of the vector `(a, b)`.
pub fn hypotenuse<A: Arithmetic>(a: u64, b: u64) -> (r: u64)
    requires
        lawful::<A>(),
    ensures
        r == hypotenuse_of::<A>(a, b),
{
    proof {
        reveal(lawful);
    }
    A::hypotenuse(a, b)
}

/// What the arithmetic gives for the exponential.
pub open spec fn exponential_of<A: Arithmetic>(a: u64) -> u64 {
    choose|r: u64| call_ensures(A::exponential, (a,), r)
}

/// The exponential.
pub fn exponential<A: Arithmetic>(a: u64) -> (r: u64)
    requires
        lawful::<A>(),
    ensures
        r == exponential_of::<A>(a),
{
    proof {
        reveal(lawful);
    }
    A::exponential(a)
}

/// What the arithmetic gives for the cosine.
pub open spec fn cosine_of<A: Arithmetic>(a: u64) -> u64 {
    choose|r: u64| call_ensures(A::cosine, (a,), r)
}

/// The cosine.
pub fn cosine<A: Arithmetic>(a: u64) -> (r: u64)
    requires
        lawful::<A>(),
    ensures
        r == cosine_of::<A>(a),
{
    proof {
        reveal(lawful);
    }
    A::cosine(a)
}

/// What the arithmetic gives for the sine.
pub open spec fn sine_of<A: Arithmetic>(a: u64) -> u64 {
    choose|r: u64| call_ensures(A::sine, (a,), r)
}

/// The sine.
pub fn sine<A: Arithmetic>(a: u64) -> (r: u64)
    requires
        lawful::<A>(),
    ensures
        r == sine_of::<A>(a),
{
    proof {
        reveal(lawful);
    }
    A::sine(a)
}

/// What the arithmetic gives for the greatest integer that is not above the number.
pub open spec fn round_down_of<A: Arithmetic>(a: u64) -> u64 {
    choose|r: u64| call_ensures(A::round_down, (a,), r)
}

/// The greatest integer that is not above the number.
pub fn round_down<A: Arithmetic>(a: u64) -> (r: u64)
    requires
        lawful::<A>(),
    ensures
        r == round_down_of::<A>(a),
{
    proof {
        reveal(lawful);
    }
    A::round_down(a)
}

/// What the arithmetic gives for the least integer that is not below the number.
pub open spec fn round_up_of<A: Arithmetic>(a: u64) -> u64 {
    choose|r: u64| call_ensures(A::round_up, (a,), r)
}

/// The least integer that is not below the number.
pub fn round_up<A: Arithmetic>(a: u64) -> (r: u64)
    requires
        lawful::<A>(),
    ensures
        r == round_up_of::<A>(a),
{
    proof {
        reveal(lawful);
    }
    A::round_up(a)
}

/// What the arithmetic gives for the integer part of a wide number; the nearest of the type for one beyond it.
pub open spec fn to_integer_of<A: Arithmetic>(a: u64) -> i64 {
    choose|r: i64| call_ensures(A::to_integer, (a,), r)
}

/// The integer part of a wide number; the nearest of the type for one beyond it.
pub fn to_integer<A: Arithmetic>(a: u64) -> (r: i64)
    requires
        lawful::<A>(),
    ensures
        r == to_integer_of::<A>(a),
{
    proof {
        reveal(lawful);
    }
    A::to_integer(a)
}

/// What the arithmetic gives for `a + b` of samples.
pub open spec fn sample_plus_of<A: Arithmetic>(a: u32, b: u32) -> u32 {
    choose|r: u32| call_ensures(A::sample_plus, (a, b,), r)
}

/// `a + b` of samples.
pub fn sample_plus<A: Arithmetic>(a: u32, b: u32) -> (r: u32)
    requires
        lawful::<A>(),
    ensures
        r == sample_plus_of::<A>(a, b),
{
    proof {
        reveal(lawful);
    }
    A::sample_plus(a, b)
}

/// What the arithmetic gives for `a - b` of samples.
pub open spec fn sample_minus_of<A: Arithmetic>(a: u32, b: u32) -> u32 {
    choose|r: u32| call_ensures(A::sample_minus, (a, b,), r)
}

/// `a - b` of samples.
pub fn sample_minus<A: Arithmetic>(a: u32, b: u32) -> (r: u32)
    requires
        lawful::<A>(),
    ensures
        r == sample_minus_of::<A>(a, b),
{
    proof {
        reveal(lawful);
    }
    A::sample_minus(a, b)
}

/// What the arithmetic gives for `a / b` of samples.
pub open spec fn sample_over_of<A: Arithmetic>(a: u32, b: u32) -> u32 {
    choose|r: u32| call_ensures(A::sample_over, (a, b,), r)
}

/// `a / b` of samples.
pub fn sample_over<A: Arithmetic>(a: u32, b: u32) -> (r: u32)
    requires
        lawful::<A>(),
    ensures
        r == sample_over_of::<A>(a, b),
{
    proof {
        reveal(lawful);
    }
    A::sample_over(a, b)
}

/// What the arithmetic gives for `a * b + c` of samples, rounded once.
pub open spec fn sample_fused_of<A: Arithmetic>(a: u32, b: u32, c: u32) -> u32 {
    choose|r: u32| call_ensures(A::sample_fused, (a, b, c,), r)
}

/// `a * b + c` of samples, rounded once.
pub fn sample_fused<A: Arithmetic>(a: u32, b: u32, c: u32) -> (r: u32)
    requires
        lawful::<A>(),
    ensures
        r == sample_fused_of::<A>(a, b, c),
{
    proof {
        reveal(lawful);
    }
    A::sample_fused(a, b, c)
}

/// What the arithmetic gives for the square root of a sample.
pub open spec fn sample_root_of<A: Arithmetic>(a: u32) -> u32 {
    choose|r: u32| call_ensures(A::sample_root, (a,), r)
}

/// The square root of a sample.
pub fn sample_root<A: Arithmetic>(a: u32) -> (r: u32)
    requires
        lawful::<A>(),
    ensures
        r == sample_root_of::<A>(a),
{
    proof {
        reveal(lawful);
    }
    A::sample_root(a)
}

/// What the arithmetic gives for `a` to the power `b`, of samples.
pub open spec fn sample_power_of<A: Arithmetic>(a: u32, b: u32) -> u32 {
    choose|r: u32| call_ensures(A::sample_power, (a, b,), r)
}

/// `a` to the power `b`, of samples.
pub fn sample_power<A: Arithmetic>(a: u32, b: u32) -> (r: u32)
    requires
        lawful::<A>(),
    ensures
        r == sample_power_of::<A>(a, b),
{
    proof {
        reveal(lawful);
    }
    A::sample_power(a, b)
}

} // verus!
