//! What decoding to linear light is in an arithmetic that rounds: up to the knot nearly a line of slope
//! 1 / 12.92, above it nearly the power 2.4 of (c + 0.055) / 1.055; and what a difference of images is:
//! nearly the distance of their samples in the comparison space.
use crate::arithmetic::{sample_minus_of, sample_over_of, sample_plus_of, sample_power_of, Arithmetic};
use crate::binary::{sample_absolute, sample_at_most, sample_finite, sample_nan};
use crate::diff::{
    distances, in_space, srgb_light, SRGB_DECODE_KNOT, SRGB_OFFSET, SRGB_POWER, SRGB_SCALE, SRGB_SLOPE,
};
use crate::gradient_rounding::{lemma_square, lemma_squares_order};
use crate::rounding::{
    lemma_product_order, lemma_product_sum, lemma_product_units, lemma_sample_order_reads, lemma_size_product,
    obeys, orders_read, product, samples_compute, size, Reading,
};
use vstd::prelude::*;

verus! {

/// A number doubled `e` times, or halved as often as `e` is below zero.
pub open spec fn scaled_by_two(x: real, e: int) -> real
    decreases
        (if e < 0 {
            -e
        } else {
            e
        }),
{
    if e == 0 {
        x
    } else if e > 0 {
        2real * scaled_by_two(x, e - 1)
    } else {
        scaled_by_two(x, e + 1) / 2real
    }
}

/// Samples above zero that are normal numbers stand for what binary32 says: a fraction of 24 bits, scaled by
/// a power of two.
#[verifier::opaque]
pub open spec fn reads_binary32(r: Reading) -> bool {
    forall|s: u32|
        0x0080_0000 <= s < 0x7f80_0000 ==> #[trigger] (r.small)(s) == scaled_by_two(
            (0x0080_0000 + s % 0x0080_0000) as real,
            s / 0x0080_0000 - 150,
        )
}

/// Raising to a power: a first power is the number itself, exponents add up where powers are multiplied, no
/// number from zero to one is raised above one by an exponent that is not negative, and none up to two
/// above eight by one of three at most.
#[verifier::opaque]
pub open spec fn is_power(power: spec_fn(real, real) -> real) -> bool {
    &&& forall|x: real| 0real < x ==> #[trigger] power(x, 1real) == x
    &&& forall|x: real, a: real, b: real|
        0real < x ==> #[trigger] product(power(x, a), power(x, b)) == power(x, a + b)
    &&& forall|x: real, a: real| 0real < x <= 1real && 0real <= a ==> 0real < #[trigger] power(x, a) <= 1real
    &&& forall|x: real, a: real|
        0real < x <= 2real && 0real <= a <= 3real ==> 0real < #[trigger] power(x, a) <= 8real
}

/// The arithmetic raises samples above zero to powers, to within a storing step.
#[verifier::opaque]
pub open spec fn powers_round<A: Arithmetic>(r: Reading, power: spec_fn(real, real) -> real) -> bool {
    forall|a: u32, b: u32|
        sample_finite(a) && sample_finite(b) && 0real < (r.small)(a) && size(
            power((r.small)(a), (r.small)(b)),
        ) <= r.top ==> sample_finite(#[trigger] sample_power_of::<A>(a, b)) && size(
            (r.small)(sample_power_of::<A>(a, b)) - power((r.small)(a), (r.small)(b)),
        ) <= r.store
}

/// A number is within a millionth of another.
pub open spec fn close(x: real, y: real) -> bool {
    1000000real * size(x - y) <= 1real
}

/// The numbers of the curve: 12.92, 0.055, 1.055, 2.4, and the knot at 0.04045.
proof fn lemma_curve_numbers(r: Reading)
    requires
        reads_binary32(r),
    ensures
        close((r.small)(SRGB_SLOPE), 1292real / 100real),
        close((r.small)(SRGB_OFFSET), 55real / 1000real),
        close((r.small)(SRGB_SCALE), 1055real / 1000real),
        close((r.small)(SRGB_POWER), 24real / 10real),
        close((r.small)(SRGB_DECODE_KNOT), 4045real / 100000real),
{
    reveal(reads_binary32);
    reveal_with_fuel(scaled_by_two, 30);
    assert(SRGB_SLOPE % 0x0080_0000 == 0x4e_b852 && SRGB_SLOPE / 0x0080_0000 == 130);
    assert(SRGB_OFFSET % 0x0080_0000 == 0x61_47ae && SRGB_OFFSET / 0x0080_0000 == 122);
    assert(SRGB_SCALE % 0x0080_0000 == 0x07_0a3d && SRGB_SCALE / 0x0080_0000 == 127);
    assert(SRGB_POWER % 0x0080_0000 == 0x19_999a && SRGB_POWER / 0x0080_0000 == 128);
    assert(SRGB_DECODE_KNOT % 0x0080_0000 == 0x25_aee6 && SRGB_DECODE_KNOT / 0x0080_0000 == 122);
}

/// Below the knot at 0.04045 decoding is, up to rounding, division by 12.92.
pub proof fn law_dark_samples_are_nearly_divided<A: Arithmetic>(r: Reading, c: u32)
    requires
        obeys::<A>(r),
        samples_compute::<A>(r),
        orders_read(r),
        reads_binary32(r),
        sample_finite(c),
        (r.small)(c) <= 4045real / 100000real - 1real / 1000000real,
        size((r.small)(c)) <= r.top,
    ensures
        sample_finite(srgb_light::<A>(c)),
        size(1292real / 100real * (r.small)(srgb_light::<A>(c)) - (r.small)(c)) <= 13real * r.store + size(
            (r.small)(srgb_light::<A>(c)),
        ) / 1000000real,
{
    reveal(samples_compute);
    lemma_curve_numbers(r);
    lemma_sample_order_reads(r, c, SRGB_DECODE_KNOT);
    assert(sample_finite(SRGB_SLOPE) && sample_finite(SRGB_DECODE_KNOT));
    let x = (r.small)(c);
    let k = (r.small)(SRGB_SLOPE);
    assert(!sample_nan(c) && !sample_nan(SRGB_DECODE_KNOT));
    assert(sample_at_most(c, SRGB_DECODE_KNOT));
    lemma_product_units(r.top, 1real);
    assert(size(x) <= product(r.top, size(k))) by {
        lemma_product_order(r.top, 1real, k);
    }
    let out = (r.small)(sample_over_of::<A>(c, SRGB_SLOPE));
    lemma_near_factor(out, k, 1292real / 100real);
    lemma_scale(out);
    lemma_times_thirteen(r.store, k);
    assert(size(k) == k);
    assert(size(product(out, k) - x) <= product(r.store, k));
}

/// A product with a number within a millionth of another.
proof fn lemma_near_factor(x: real, k: real, exact: real)
    requires
        close(k, exact),
    ensures
        size(product(x, k) - product(x, exact)) <= size(x) / 1000000real,
{
    lemma_product_sum(k, exact, x);
    lemma_size_product(x, k - exact);
    lemma_product_order(size(x), 1000000real * size(k - exact), 1real);
    lemma_product_units(size(x), 1real);
    lemma_literal(size(x), size(k - exact));
}

/// A literal factor can be taken out of a product.
proof fn lemma_literal(x: real, y: real)
    ensures
        product(x, 1000000real * y) == 1000000real * product(x, y),
{
    reveal(product);
    lemma_literal_factor(x, y);
}

/// A literal factor can be taken out of a product.
proof fn lemma_literal_factor(x: real, y: real)
    by (nonlinear_arith)
    ensures
        x * (1000000real * y) == 1000000real * (x * y),
{
}

/// A product with 12.92 and with 1.055.
proof fn lemma_scale(x: real)
    ensures
        product(x, 1292real / 100real) == 1292real / 100real * x,
        product(x, 1055real / 1000real) == 1055real / 1000real * x,
{
    reveal(product);
}

/// A product with a number near 12.92.
proof fn lemma_times_thirteen(s: real, k: real)
    requires
        0real <= s,
        close(k, 1292real / 100real),
    ensures
        product(s, k) <= 13real * s,
        0real < k,
        1real <= k,
{
    lemma_product_order(s, k, 13real);
    reveal(product);
}

/// How far the base of the power can be from (c + 0.055) / 1.055, times 1.055.
pub open spec fn base_error(r: Reading) -> real {
    3real * r.store + 3real / 1000000real
}

/// Above the knot at 0.04045 decoding is, up to rounding, the power 2.4 of (c + 0.055) / 1.055: what it gives
/// is within a storing step of the power of a base near that quotient with an exponent near 2.4.
pub proof fn law_light_samples_are_nearly_raised<A: Arithmetic>(
    r: Reading,
    power: spec_fn(real, real) -> real,
    c: u32,
) -> (found: (real, real))
    requires
        obeys::<A>(r),
        samples_compute::<A>(r),
        orders_read(r),
        reads_binary32(r),
        is_power(power),
        powers_round::<A>(r, power),
        sample_finite(c),
        4045real / 100000real + 1real / 1000000real < (r.small)(c) <= 3real / 2real,
        8real <= r.top,
        1000real * r.store <= 1real,
    ensures
        ({
            let (base, exponent) = found;
            let x = (r.small)(c);
            &&& 0real < base <= 2real
            &&& size(1055real / 1000real * base - (x + 55real / 1000real)) <= base_error(r)
            &&& close(exponent, 24real / 10real)
            &&& sample_finite(srgb_light::<A>(c))
            &&& size((r.small)(srgb_light::<A>(c)) - power(base, exponent)) <= r.store
        }),
{
    lemma_curve_numbers(r);
    lemma_sample_order_reads(r, c, SRGB_DECODE_KNOT);
    assert(sample_finite(SRGB_SCALE) && sample_finite(SRGB_OFFSET) && sample_finite(SRGB_POWER)
        && sample_finite(SRGB_DECODE_KNOT));
    assert(!sample_at_most(c, SRGB_DECODE_KNOT));
    let x = (r.small)(c);
    let o = (r.small)(SRGB_OFFSET);
    let k = (r.small)(SRGB_SCALE);
    let n = sample_plus_of::<A>(c, SRGB_OFFSET);
    assert(sample_finite(n) && size((r.small)(n) - (x + o)) <= r.store) by {
        reveal(samples_compute);
    }
    let b = sample_over_of::<A>(n, SRGB_SCALE);
    assert(size((r.small)(n)) <= product(r.top, size(k))) by {
        lemma_product_order(r.top, 1real, k);
        lemma_product_units(r.top, 1real);
    }
    assert(sample_finite(b) && size(product((r.small)(b), k) - (r.small)(n)) <= product(r.store, k)) by {
        reveal(samples_compute);
    }
    let base = (r.small)(b);
    lemma_two_stores(r.store, k);
    lemma_base(base, k, x, r.store, (r.small)(n));
    let ex = (r.small)(SRGB_POWER);
    reveal(is_power);
    assert(0real < power(base, ex) <= 8real);
    reveal(powers_round);
    (base, ex)
}

/// A product with a number near 1.055.
proof fn lemma_two_stores(s: real, k: real)
    requires
        0real <= s,
        close(k, 1055real / 1000real),
    ensures
        product(s, k) <= 2real * s,
        1real <= k,
{
    lemma_product_order(s, k, 2real);
    reveal(product);
}

/// The base of the power lies where it should.
proof fn lemma_base(base: real, k: real, x: real, store: real, n: real)
    requires
        close(k, 1055real / 1000real),
        4045real / 100000real < x <= 3real / 2real,
        size(n - (x + 55real / 1000real)) <= store + 1real / 1000000real,
        size(product(base, k) - n) <= 2real * store,
        0real <= store,
        1000real * store <= 1real,
    ensures
        0real < base <= 2real,
        size(1055real / 1000real * base - (x + 55real / 1000real)) <= 3real * store + 3real / 1000000real,
{
    lemma_near_factor(base, k, 1055real / 1000real);
    lemma_scale(base);
}

/// The second power of a number is its square, and a higher one of a number up to one is no more.
proof fn lemma_power_of_two(power: spec_fn(real, real) -> real, x: real, a: real)
    requires
        is_power(power),
        0real < x <= 1real,
        2real <= a,
    ensures
        power(x, a) <= product(x, x),
{
    reveal(is_power);
    let d = a - 2real;
    assert(power(x, 1real) == x);
    assert(product(power(x, 1real), power(x, 1real)) == power(x, 1real + 1real));
    assert(1real + 1real == 2real);
    assert(product(power(x, 2real), power(x, d)) == power(x, 2real + d));
    assert(2real + d == a);
    assert(power(x, d) <= 1real);
    assert(power(x, 2real) == product(x, x));
    lemma_square(x);
    lemma_product_order(product(x, x), power(x, d), 1real);
    lemma_product_units(product(x, x), 1real);
}

/// Decoding darkens: between the knot and one the light of a sample is below the sample, up to rounding, by
/// an amount that vanishes only at one.
pub proof fn law_decoding_nearly_darkens<A: Arithmetic>(
    r: Reading,
    power: spec_fn(real, real) -> real,
    c: u32,
)
    requires
        obeys::<A>(r),
        samples_compute::<A>(r),
        orders_read(r),
        reads_binary32(r),
        is_power(power),
        powers_round::<A>(r, power),
        sample_finite(c),
        4045real / 100000real + 1real / 1000000real < (r.small)(c),
        (r.small)(c) + base_error(r) <= 1real,
        8real <= r.top,
        1000real * r.store <= 1real,
    ensures
        ({
            let x = (r.small)(c);
            let light = (r.small)(srgb_light::<A>(c));
            1113025real / 1000000real * light <= 1113025real / 1000000real * x - product(
                1real - x,
                x - 3025real / 1000000real,
            ) + 4real * base_error(r)
        }),
{
    let (base, exponent) = law_light_samples_are_nearly_raised::<A>(r, power, c);
    let x = (r.small)(c);
    let e = base_error(r);
    let y = x + 55real / 1000real;
    let z = 1055real / 1000real * base;
    assert(base <= 1real);
    lemma_power_of_two(power, base, exponent);
    lemma_square_scaled(base);
    lemma_squares_order(z, y + e);
    lemma_square_plus(y, e);
    lemma_square_plus(x, 55real / 1000real);
    lemma_product_sum(1real, x, x - 3025real / 1000000real);
    lemma_product_sum(x, 3025real / 1000000real, x);
    lemma_product_units(1real, x - 3025real / 1000000real);
    lemma_fixed(x);
    lemma_product_order(e, 2real * y + e, 3real);
    lemma_fixed(e);
}

/// Products with the numbers that the curve leads to.
proof fn lemma_fixed(x: real)
    ensures
        product(x, 3025real / 1000000real) == 3025real / 1000000real * x,
        product(3025real / 1000000real, x) == 3025real / 1000000real * x,
        product(x, 55real / 1000real) == 55real / 1000real * x,
        product(55real / 1000real, 55real / 1000real) == 3025real / 1000000real,
        product(x, 3real) == 3real * x,
{
    reveal(product);
}

/// The square of 1.055 times a number.
proof fn lemma_square_scaled(b: real)
    ensures
        product(1055real / 1000real * b, 1055real / 1000real * b) == 1113025real / 1000000real * product(b, b),
{
    reveal(product);
    lemma_square_literal(b);
}

/// The square of 1.055 times a number.
proof fn lemma_square_literal(b: real)
    by (nonlinear_arith)
    ensures
        (1055real / 1000real * b) * (1055real / 1000real * b) == 1113025real / 1000000real * (b * b),
{
}

/// The square of a sum.
proof fn lemma_square_plus(a: real, b: real)
    ensures
        product(a + b, a + b) == product(a, a) + 2real * product(a, b) + product(b, b),
        product(a + b, a + b) == product(a, a) + product(b, 2real * a + b),
{
    lemma_product_sum(a, b, a + b);
    lemma_product_sum(a, b, a);
    lemma_product_sum(a, b, b);
    lemma_product_units(a, b);
    lemma_product_sum(a, a + b, b);
    assert(a + (a + b) == 2real * a + b);
}

/// Dropping a sample's sign gives the size of its number.
#[verifier::opaque]
pub open spec fn magnitudes_read(r: Reading) -> bool {
    forall|s: u32|
        sample_finite(s) ==> sample_finite(#[trigger] sample_absolute(s)) && (r.small)(sample_absolute(s)) == size(
            (r.small)(s),
        )
}

/// A difference of two samples is, up to rounding, the distance of what they are in the comparison space.
pub proof fn law_difference_is_nearly_the_distance<A: Arithmetic>(
    r: Reading,
    before: Seq<u32>,
    after: Seq<u32>,
    decode_before: bool,
    decode_after: bool,
    i: int,
)
    requires
        samples_compute::<A>(r),
        magnitudes_read(r),
        0 <= i < before.len(),
        i < after.len(),
        sample_finite(in_space::<A>(before[i], decode_before)),
        sample_finite(in_space::<A>(after[i], decode_after)),
        size(
            (r.small)(in_space::<A>(after[i], decode_after)) - (r.small)(in_space::<A>(before[i], decode_before)),
        ) <= r.top,
    ensures
        ({
            let out = distances::<A>(before, after, decode_before, decode_after)[i];
            &&& sample_finite(out)
            &&& size(
                (r.small)(out) - size(
                    (r.small)(in_space::<A>(after[i], decode_after)) - (r.small)(
                        in_space::<A>(before[i], decode_before),
                    ),
                ),
            ) <= r.store
        }),
{
    reveal(samples_compute);
    reveal(magnitudes_read);
    let d = sample_minus_of::<A>(in_space::<A>(after[i], decode_after), in_space::<A>(before[i], decode_before));
    assert(sample_finite(d));
    assert(sample_finite(sample_absolute(d)));
}

} // verus!
