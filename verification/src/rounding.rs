//! Arithmetic that rounds, read as real numbers, and what rounding does to sums.
//!
//! A reading says which real number a pattern stands for, how large numbers may get, and how far a
//! rounded result may be from the exact one. IEEE 754 arithmetic has such a reading for every size
//! below its greatest number.
use crate::arithmetic::{
    fused_of, hypotenuse_of, minus_of, narrow_of, over_of, plus_of, root_of, round_down_of,
    sample_fused_of, sample_minus_of, sample_over_of, sample_plus_of, tally_of, times_of, to_integer_of,
    whole_of, widen_of, Arithmetic,
};
use crate::binary::{finite, negated, rank, sample_finite, sample_rank, HALF, ONE, THREE, TWO, ZERO};
use crate::gradient::center_of;
use vstd::prelude::*;

verus! {

/// Which real numbers the patterns of finite numbers stand for; how large a result may be for its
/// rounding to be bounded; how far a wide result and a stored sample may be from the exact number.
pub ghost struct Reading {
    pub wide: spec_fn(u64) -> real,
    pub small: spec_fn(u32) -> real,
    pub top: real,
    pub step: real,
    pub store: real,
}

/// The magnitude of a real number.
pub open spec fn size(x: real) -> real {
    if x < 0real {
        -x
    } else {
        x
    }
}

/// The product of real numbers.
#[verifier::opaque]
pub open spec fn product(x: real, y: real) -> real {
    x * y
}

/// A wide result is finite and within a rounding step of the exact number.
pub open spec fn rounds_to(r: Reading, result: u64, exact: real) -> bool {
    finite(result) && size((r.wide)(result) - exact) <= r.step
}

/// Sums and differences are rounded as the reading says.
#[verifier::opaque]
pub open spec fn sums_round<A: Arithmetic>(r: Reading) -> bool {
    &&& forall|a: u64, b: u64|
        finite(a) && finite(b) && size((r.wide)(a) + (r.wide)(b)) <= r.top ==>
            rounds_to(r, #[trigger] plus_of::<A>(a, b), (r.wide)(a) + (r.wide)(b))
    &&& forall|a: u64, b: u64|
        finite(a) && finite(b) && size((r.wide)(a) - (r.wide)(b)) <= r.top ==>
            rounds_to(r, #[trigger] minus_of::<A>(a, b), (r.wide)(a) - (r.wide)(b))
}

/// Products and fused steps are rounded as the reading says.
#[verifier::opaque]
pub open spec fn products_round<A: Arithmetic>(r: Reading) -> bool {
    &&& forall|a: u64, b: u64|
        finite(a) && finite(b) && size(product((r.wide)(a), (r.wide)(b))) <= r.top ==>
            rounds_to(r, #[trigger] times_of::<A>(a, b), product((r.wide)(a), (r.wide)(b)))
    &&& forall|a: u64, b: u64, c: u64|
        finite(a) && finite(b) && finite(c) && size(product((r.wide)(a), (r.wide)(b)) + (r.wide)(c)) <= r.top
            ==> rounds_to(
            r,
            #[trigger] fused_of::<A>(a, b, c),
            product((r.wide)(a), (r.wide)(b)) + (r.wide)(c),
        )
}

/// Samples are widened exactly and stored as the reading says.
#[verifier::opaque]
pub open spec fn samples_round<A: Arithmetic>(r: Reading) -> bool {
    &&& forall|s: u32|
        sample_finite(s) ==> finite(#[trigger] widen_of::<A>(s)) && (r.wide)(widen_of::<A>(s))
            == (r.small)(s)
    &&& forall|a: u64|
        finite(a) && size((r.wide)(a)) <= r.top ==> sample_finite(#[trigger] narrow_of::<A>(a)) && size(
            (r.small)(narrow_of::<A>(a)) - (r.wide)(a),
        ) <= r.store
}

/// Patterns that differ in sign stand for opposite numbers, both zeros for zero, and those of one, two
/// and three for these.
#[verifier::opaque]
pub open spec fn signs_read(r: Reading) -> bool {
    &&& forall|a: u64| (r.wide)(#[trigger] negated(a)) == -(r.wide)(a)
    &&& forall|a: u64| #[trigger] rank(a) == 0 ==> (r.wide)(a) == 0real
    &&& (r.wide)(ONE) == 1real
    &&& (r.wide)(TWO) == 2real
    &&& (r.wide)(THREE) == 3real
}

/// The arithmetic rounds as the reading says.
pub open spec fn obeys<A: Arithmetic>(r: Reading) -> bool {
    &&& 0real <= r.step
    &&& 0real <= r.store
    &&& sums_round::<A>(r)
    &&& products_round::<A>(r)
    &&& samples_round::<A>(r)
    &&& signs_read(r)
}

/// Quotients by numbers other than zero are rounded as the reading says: the quotient times the divisor
/// is within a step of the divisor's size of the dividend.
#[verifier::opaque]
pub open spec fn quotients_round<A: Arithmetic>(r: Reading) -> bool {
    forall|a: u64, b: u64|
        finite(a) && finite(b) && (r.wide)(b) != 0real && size((r.wide)(a)) <= product(
            r.top,
            size((r.wide)(b)),
        ) ==> finite(#[trigger] over_of::<A>(a, b)) && size(
            product((r.wide)(over_of::<A>(a, b)), (r.wide)(b)) - (r.wide)(a),
        ) <= product(r.step, size((r.wide)(b)))
}

/// Counts up to `n` are read as themselves.
#[verifier::opaque]
pub open spec fn counts_read<A: Arithmetic>(r: Reading, n: int) -> bool {
    forall|k: int|
        0 <= k <= n ==> finite(#[trigger] tally_of::<A>(k as u64)) && (r.wide)(tally_of::<A>(k as u64)) == k as real
}

/// Square roots are rounded as the reading says: the root is not negative, a step more is enough for the
/// number, and a step less is not too much.
#[verifier::opaque]
pub open spec fn roots_round<A: Arithmetic>(r: Reading) -> bool {
    forall|a: u64|
        finite(a) && 0real <= (r.wide)(a) <= r.top ==> {
            let s = (r.wide)(#[trigger] root_of::<A>(a));
            &&& finite(root_of::<A>(a))
            &&& 0real <= s
            &&& (r.wide)(a) <= product(s + r.step, s + r.step)
            &&& r.step <= s ==> product(s - r.step, s - r.step) <= (r.wide)(a)
        }
}

/// Numbers are rounded down to the greatest whole number that is not above them, and that is taken as
/// an integer.
#[verifier::opaque]
pub open spec fn floors_read<A: Arithmetic>(r: Reading) -> bool {
    forall|a: u64|
        finite(a) && size((r.wide)(a)) <= r.top ==> {
            let k = to_integer_of::<A>(#[trigger] round_down_of::<A>(a));
            &&& finite(round_down_of::<A>(a))
            &&& (r.wide)(round_down_of::<A>(a)) == k as real
            &&& k as real <= (r.wide)(a)
            &&& (r.wide)(a) < k as real + 1real
        }
}

/// The whole numbers from zero to `n`, and a half, are read as themselves.
#[verifier::opaque]
pub open spec fn places_read<A: Arithmetic>(r: Reading, n: int) -> bool {
    &&& forall|k: int|
        0 <= k <= n ==> finite(#[trigger] whole_of::<A>(k as i64)) && (r.wide)(whole_of::<A>(k as i64)) == k as real
    &&& 2real * (r.wide)(0x3fe0_0000_0000_0000u64) == 1real
}

/// Lengths of vectors are rounded as the reading says: the length is not negative, a step more is enough
/// for the sum of the squares, and a step less is not too much.
#[verifier::opaque]
pub open spec fn lengths_round<A: Arithmetic>(r: Reading) -> bool {
    forall|a: u64, b: u64|
        finite(a) && finite(b) && size((r.wide)(a)) + size((r.wide)(b)) <= r.top ==> {
            let s = (r.wide)(#[trigger] hypotenuse_of::<A>(a, b));
            let squares = product((r.wide)(a), (r.wide)(a)) + product((r.wide)(b), (r.wide)(b));
            &&& finite(hypotenuse_of::<A>(a, b))
            &&& 0real <= s
            &&& squares <= product(s + r.step, s + r.step)
            &&& r.step <= s ==> product(s - r.step, s - r.step) <= squares
        }
}

/// The reading keeps the order of numbers and of samples.
#[verifier::opaque]
pub open spec fn orders_read(r: Reading) -> bool {
    &&& forall|a: u64, b: u64|
        finite(a) && finite(b) && #[trigger] rank(a) <= #[trigger] rank(b) ==> (r.wide)(a) <= (r.wide)(b)
    &&& forall|a: u64, b: u64|
        finite(a) && finite(b) && #[trigger] rank(a) < #[trigger] rank(b) ==> (r.wide)(a) < (r.wide)(b)
    &&& forall|a: u32, b: u32|
        sample_finite(a) && sample_finite(b) && #[trigger] sample_rank(a) <= #[trigger] sample_rank(b)
            ==> (r.small)(a) <= (r.small)(b)
    &&& forall|a: u32, b: u32|
        sample_finite(a) && sample_finite(b) && #[trigger] sample_rank(a) < #[trigger] sample_rank(b)
            ==> (r.small)(a) < (r.small)(b)
}

/// Sums, differences, fused steps and quotients of samples are rounded as the reading says, to within a
/// storing step.
#[verifier::opaque]
pub open spec fn samples_compute<A: Arithmetic>(r: Reading) -> bool {
    &&& forall|a: u32, b: u32|
        sample_finite(a) && sample_finite(b) && size((r.small)(a) + (r.small)(b)) <= r.top ==> sample_finite(
            #[trigger] sample_plus_of::<A>(a, b),
        ) && size((r.small)(sample_plus_of::<A>(a, b)) - ((r.small)(a) + (r.small)(b))) <= r.store
    &&& forall|a: u32, b: u32|
        sample_finite(a) && sample_finite(b) && size((r.small)(a) - (r.small)(b)) <= r.top ==> sample_finite(
            #[trigger] sample_minus_of::<A>(a, b),
        ) && size((r.small)(sample_minus_of::<A>(a, b)) - ((r.small)(a) - (r.small)(b))) <= r.store
    &&& forall|a: u32, b: u32, c: u32|
        sample_finite(a) && sample_finite(b) && sample_finite(c) && size(
            product((r.small)(a), (r.small)(b)) + (r.small)(c),
        ) <= r.top ==> sample_finite(#[trigger] sample_fused_of::<A>(a, b, c)) && size(
            (r.small)(sample_fused_of::<A>(a, b, c)) - (product((r.small)(a), (r.small)(b)) + (r.small)(c)),
        ) <= r.store
    &&& forall|a: u32, b: u32|
        sample_finite(a) && sample_finite(b) && (r.small)(b) != 0real && size((r.small)(a)) <= product(
            r.top,
            size((r.small)(b)),
        ) ==> sample_finite(#[trigger] sample_over_of::<A>(a, b)) && size(
            product((r.small)(sample_over_of::<A>(a, b)), (r.small)(b)) - (r.small)(a),
        ) <= product(r.store, size((r.small)(b)))
}

/// A quotient is rounded.
pub proof fn lemma_over_rounds<A: Arithmetic>(r: Reading, a: u64, b: u64)
    requires
        quotients_round::<A>(r),
        finite(a),
        finite(b),
        (r.wide)(b) != 0real,
        size((r.wide)(a)) <= product(r.top, size((r.wide)(b))),
    ensures
        finite(over_of::<A>(a, b)),
        size(product((r.wide)(over_of::<A>(a, b)), (r.wide)(b)) - (r.wide)(a)) <= product(
            r.step,
            size((r.wide)(b)),
        ),
{
    reveal(quotients_round);
}

/// A count is read as itself.
pub proof fn lemma_count_reads<A: Arithmetic>(r: Reading, n: int, k: int)
    requires
        counts_read::<A>(r, n),
        0 <= k <= n,
    ensures
        finite(tally_of::<A>(k as u64)),
        (r.wide)(tally_of::<A>(k as u64)) == k as real,
{
    reveal(counts_read);
}

/// A square root is rounded.
pub proof fn lemma_root_rounds<A: Arithmetic>(r: Reading, a: u64)
    requires
        roots_round::<A>(r),
        finite(a),
        0real <= (r.wide)(a) <= r.top,
    ensures
        finite(root_of::<A>(a)),
        0real <= (r.wide)(root_of::<A>(a)),
        (r.wide)(a) <= product((r.wide)(root_of::<A>(a)) + r.step, (r.wide)(root_of::<A>(a)) + r.step),
        r.step <= (r.wide)(root_of::<A>(a)) ==> product(
            (r.wide)(root_of::<A>(a)) - r.step,
            (r.wide)(root_of::<A>(a)) - r.step,
        ) <= (r.wide)(a),
{
    reveal(roots_round);
}

/// A number is rounded down.
pub proof fn lemma_floor_reads<A: Arithmetic>(r: Reading, a: u64)
    requires
        floors_read::<A>(r),
        finite(a),
        size((r.wide)(a)) <= r.top,
    ensures
        finite(round_down_of::<A>(a)),
        (r.wide)(round_down_of::<A>(a)) == to_integer_of::<A>(round_down_of::<A>(a)) as real,
        to_integer_of::<A>(round_down_of::<A>(a)) as real <= (r.wide)(a),
        (r.wide)(a) < to_integer_of::<A>(round_down_of::<A>(a)) as real + 1real,
{
    reveal(floors_read);
}

/// The centre of a pixel is half a pixel from its edge, up to a rounding step.
pub proof fn lemma_center_reads<A: Arithmetic>(r: Reading, n: int, i: int)
    requires
        obeys::<A>(r),
        places_read::<A>(r, n),
        0 <= i <= n,
        i as real + 1real <= r.top,
    ensures
        finite(center_of::<A>(i)),
        size((r.wide)(center_of::<A>(i)) - (i as real + 1real / 2real)) <= r.step,
        2real * (r.wide)(HALF) == 1real,
        finite(HALF),
{
    reveal(places_read);
    lemma_plus_rounds::<A>(r, whole_of::<A>(i as i64), HALF);
}

/// The length of a vector is rounded.
pub proof fn lemma_length_rounds<A: Arithmetic>(r: Reading, a: u64, b: u64)
    requires
        lengths_round::<A>(r),
        finite(a),
        finite(b),
        size((r.wide)(a)) + size((r.wide)(b)) <= r.top,
    ensures
        finite(hypotenuse_of::<A>(a, b)),
        0real <= (r.wide)(hypotenuse_of::<A>(a, b)),
        product((r.wide)(a), (r.wide)(a)) + product((r.wide)(b), (r.wide)(b)) <= product(
            (r.wide)(hypotenuse_of::<A>(a, b)) + r.step,
            (r.wide)(hypotenuse_of::<A>(a, b)) + r.step,
        ),
        r.step <= (r.wide)(hypotenuse_of::<A>(a, b)) ==> product(
            (r.wide)(hypotenuse_of::<A>(a, b)) - r.step,
            (r.wide)(hypotenuse_of::<A>(a, b)) - r.step,
        ) <= product((r.wide)(a), (r.wide)(a)) + product((r.wide)(b), (r.wide)(b)),
{
    reveal(lengths_round);
}

/// A number above another stands for a greater one.
pub proof fn lemma_order_reads(r: Reading, a: u64, b: u64)
    requires
        orders_read(r),
        finite(a),
        finite(b),
    ensures
        rank(a) <= rank(b) <==> (r.wide)(a) <= (r.wide)(b),
{
    reveal(orders_read);
}

/// A sample above another stands for a greater number.
pub proof fn lemma_sample_order_reads(r: Reading, a: u32, b: u32)
    requires
        orders_read(r),
        sample_finite(a),
        sample_finite(b),
    ensures
        sample_rank(a) <= sample_rank(b) <==> (r.small)(a) <= (r.small)(b),
{
    reveal(orders_read);
}

/// A sum is rounded.
pub proof fn lemma_plus_rounds<A: Arithmetic>(r: Reading, a: u64, b: u64)
    requires
        obeys::<A>(r),
        finite(a),
        finite(b),
        size((r.wide)(a) + (r.wide)(b)) <= r.top,
    ensures
        finite(plus_of::<A>(a, b)),
        size((r.wide)(plus_of::<A>(a, b)) - ((r.wide)(a) + (r.wide)(b))) <= r.step,
{
    reveal(sums_round);
    assert(rounds_to(r, plus_of::<A>(a, b), (r.wide)(a) + (r.wide)(b)));
}

/// A difference is rounded.
pub proof fn lemma_minus_rounds<A: Arithmetic>(r: Reading, a: u64, b: u64)
    requires
        obeys::<A>(r),
        finite(a),
        finite(b),
        size((r.wide)(a) - (r.wide)(b)) <= r.top,
    ensures
        finite(minus_of::<A>(a, b)),
        size((r.wide)(minus_of::<A>(a, b)) - ((r.wide)(a) - (r.wide)(b))) <= r.step,
{
    reveal(sums_round);
    assert(rounds_to(r, minus_of::<A>(a, b), (r.wide)(a) - (r.wide)(b)));
}

/// A product is rounded.
pub proof fn lemma_times_rounds<A: Arithmetic>(r: Reading, a: u64, b: u64)
    requires
        obeys::<A>(r),
        finite(a),
        finite(b),
        size(product((r.wide)(a), (r.wide)(b))) <= r.top,
    ensures
        finite(times_of::<A>(a, b)),
        size((r.wide)(times_of::<A>(a, b)) - product((r.wide)(a), (r.wide)(b))) <= r.step,
{
    reveal(products_round);
    assert(rounds_to(r, times_of::<A>(a, b), product((r.wide)(a), (r.wide)(b))));
}

/// A fused step is rounded once.
pub proof fn lemma_fused_rounds<A: Arithmetic>(r: Reading, a: u64, b: u64, c: u64)
    requires
        obeys::<A>(r),
        finite(a),
        finite(b),
        finite(c),
        size(product((r.wide)(a), (r.wide)(b)) + (r.wide)(c)) <= r.top,
    ensures
        finite(fused_of::<A>(a, b, c)),
        size((r.wide)(fused_of::<A>(a, b, c)) - (product((r.wide)(a), (r.wide)(b)) + (r.wide)(c))) <= r.step,
{
    reveal(products_round);
    assert(rounds_to(r, fused_of::<A>(a, b, c), product((r.wide)(a), (r.wide)(b)) + (r.wide)(c)));
}

/// A sample is widened exactly.
pub proof fn lemma_widen_reads<A: Arithmetic>(r: Reading, s: u32)
    requires
        obeys::<A>(r),
        sample_finite(s),
    ensures
        finite(widen_of::<A>(s)),
        (r.wide)(widen_of::<A>(s)) == (r.small)(s),
{
    reveal(samples_round);
}

/// A wide number is stored within a storing step.
pub proof fn lemma_narrow_rounds<A: Arithmetic>(r: Reading, a: u64)
    requires
        obeys::<A>(r),
        finite(a),
        size((r.wide)(a)) <= r.top,
    ensures
        sample_finite(narrow_of::<A>(a)),
        size((r.small)(narrow_of::<A>(a)) - (r.wide)(a)) <= r.store,
{
    reveal(samples_round);
}

/// Zero is finite and stands for zero.
pub proof fn lemma_zero_reads<A: Arithmetic>(r: Reading)
    requires
        obeys::<A>(r),
    ensures
        finite(ZERO),
        (r.wide)(ZERO) == 0real,
{
    reveal(signs_read);
    assert(rank(ZERO) == 0);
}

/// How products of real numbers are signed, and that zero times a number is zero.
proof fn lemma_signs(x: real, y: real)
    by (nonlinear_arith)
    ensures
        x >= 0real && y >= 0real ==> x * y >= 0real,
        x >= 0real && y <= 0real ==> x * y <= 0real,
        x <= 0real && y >= 0real ==> x * y <= 0real,
        x <= 0real && y <= 0real ==> x * y >= 0real,
        (-x) * y == -(x * y),
        x * (-y) == -(x * y),
        (-x) * (-y) == x * y,
        0real * y == 0real,
        x * 0real == 0real,
        1real * y == y,
        x * y == y * x,
{
}

/// Products of real numbers distribute over sums.
proof fn lemma_distributes(x: real, y: real, z: real)
    by (nonlinear_arith)
    ensures
        (x + y) * z == x * z + y * z,
        z * (x + y) == z * x + z * y,
        (x - y) * z == x * z - y * z,
        z * (x - y) == z * x - z * y,
        (x * y) * z == x * (y * z),
{
}

/// A factor that is not negative keeps an order.
proof fn lemma_order(x: real, y: real, z: real)
    by (nonlinear_arith)
    ensures
        x >= 0real && y <= z ==> x * y <= x * z,
        x >= 0real && y <= z ==> y * x <= z * x,
{
}

/// Zero and one as factors, and the order of factors.
pub proof fn lemma_product_units(x: real, y: real)
    ensures
        product(0real, y) == 0real,
        product(x, 0real) == 0real,
        product(1real, y) == y,
        product(x, 1real) == x,
        product(x, y) == product(y, x),
        product(-x, y) == -product(x, y),
        product(x, -y) == -product(x, y),
{
    reveal(product);
    lemma_signs(x, y);
    lemma_signs(1real, x);
}

/// The magnitude of a product is the product of the magnitudes.
pub proof fn lemma_size_product(x: real, y: real)
    ensures
        size(product(x, y)) == product(size(x), size(y)),
        0real <= product(size(x), size(y)),
        0real <= x && 0real <= y ==> 0real <= product(x, y),
{
    reveal(product);
    lemma_signs(x, y);
}

/// A product with a sum is the sum of the products.
pub proof fn lemma_product_sum(x: real, y: real, z: real)
    ensures
        product(x + y, z) == product(x, z) + product(y, z),
        product(z, x + y) == product(z, x) + product(z, y),
        product(x - y, z) == product(x, z) - product(y, z),
        product(z, x - y) == product(z, x) - product(z, y),
        product(product(x, y), z) == product(x, product(y, z)),
{
    reveal(product);
    lemma_distributes(x, y, z);
}

/// A factor that is not negative keeps an order.
pub proof fn lemma_product_order(x: real, y: real, z: real)
    requires
        0real <= x,
        y <= z,
    ensures
        product(x, y) <= product(x, z),
        product(y, x) <= product(z, x),
{
    reveal(product);
    lemma_order(x, y, z);
}

/// A factor above zero can be taken off both sides of an order.
proof fn lemma_cancel(x: real, y: real, z: real)
    by (nonlinear_arith)
    requires
        0real < x,
        x * y <= x * z,
    ensures
        y <= z,
{
}

/// A factor above zero can be taken off both sides of an order.
pub proof fn lemma_product_cancel(x: real, y: real, z: real)
    requires
        0real < x,
        product(x, y) <= product(x, z),
    ensures
        y <= z,
{
    reveal(product);
    lemma_cancel(x, y, z);
}

/// The ratio of real numbers.
#[verifier::opaque]
pub open spec fn ratio(x: real, y: real) -> real {
    x / y
}

/// A ratio times its divisor.
proof fn lemma_divides(x: real, y: real)
    by (nonlinear_arith)
    requires
        y != 0real,
    ensures
        y * (x / y) == x,
{
}

/// A ratio times its divisor.
pub proof fn lemma_ratio(x: real, y: real)
    requires
        y != 0real,
    ensures
        product(y, ratio(x, y)) == x,
{
    reveal(product);
    reveal(ratio);
    lemma_divides(x, y);
}

/// The sum of the first `n` values of a function.
pub open spec fn sum(f: spec_fn(int) -> real, n: nat) -> real
    decreases n,
{
    if n == 0 {
        0real
    } else {
        sum(f, (n - 1) as nat) + f(n - 1)
    }
}

} // verus!
