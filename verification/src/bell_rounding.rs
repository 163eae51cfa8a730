//! What the taps of a Gaussian are, up to rounding: the exponential of the squared distance from the middle
//! over twice the variance, divided by a total that all taps share.
use crate::arithmetic::{exponential_of, over_of, round_up_of, times_of, to_integer_of, whole_of, Arithmetic};
use crate::binary::{at_most, finite, negated, TWO, THREE};
use crate::exact::total;
use crate::frequency::{line_bell, line_total, taps_of};
use crate::gaussian_blur::{bell_of, kernel_of, radius_of, spread_of, tap_of, tap_total};
use crate::rounding::{
    lemma_over_rounds, lemma_product_cancel, lemma_product_order, lemma_product_sum, lemma_product_units,
    lemma_size_product, lemma_times_rounds, obeys, places_read, product, quotients_round, signs_read, size,
    Reading,
};
use crate::smoothing_laws::{lemma_line_total, lemma_tap_total};
use crate::smoothing_rounding::{
    lemma_summable, lemma_total_near, line_summable, read_sum, summable, taps_summable,
};
use vstd::arithmetic::div_mod::lemma_fundamental_div_mod_converse;
use vstd::prelude::*;

verus! {

/// The function is the exponential: it turns sums into products, and lies above its tangent at zero.
#[verifier::opaque]
pub open spec fn is_exponential(exp: spec_fn(real) -> real) -> bool {
    &&& forall|x: real, y: real| #[trigger] product(exp(x), exp(y)) == exp(x + y)
    &&& forall|x: real| 1real + x <= #[trigger] exp(x)
}

/// The arithmetic takes exponentials of numbers up to one, to within a step.
#[verifier::opaque]
pub open spec fn exponentials_round<A: Arithmetic>(r: Reading, exp: spec_fn(real) -> real) -> bool {
    is_exponential(exp) && forall|a: u64|
        finite(a) && (r.wide)(a) <= 1real ==> finite(#[trigger] exponential_of::<A>(a)) && size(
            (r.wide)(exponential_of::<A>(a)) - exp((r.wide)(a)),
        ) <= r.step
}

/// Numbers are rounded up to the least whole number that is not below them, and that is taken as an
/// integer.
#[verifier::opaque]
pub open spec fn ceilings_read<A: Arithmetic>(r: Reading) -> bool {
    forall|a: u64|
        finite(a) && size((r.wide)(a)) <= r.top ==> {
            let k = to_integer_of::<A>(#[trigger] round_up_of::<A>(a));
            &&& (r.wide)(a) <= k as real
            &&& (k as real) < (r.wide)(a) + 1real
        }
}

/// How far twice the computed variance can be from twice the variance.
pub open spec fn spread_error(r: Reading, sigma: real) -> real {
    product(r.step, sigma) + r.step
}

/// A standard deviation is moderate: its variance can be computed, and distances up to `far` over it.
pub open spec fn moderate(r: Reading, sigma: u64, far: real) -> bool {
    let s = (r.wide)(sigma);
    &&& finite(sigma)
    &&& 0real < s
    &&& 0real <= r.top
    &&& r.step <= 1real
    &&& 2real * s <= r.top
    &&& 2real * product(s, s) + product(r.step, s) <= r.top
    &&& spread_error(r, s) < 2real * product(s, s)
    &&& far <= product(r.top, 2real * product(s, s) - spread_error(r, s))
}

/// Twice the variance is near.
proof fn lemma_spread_near<A: Arithmetic>(r: Reading, sigma: u64, far: real)
    requires
        obeys::<A>(r),
        moderate(r, sigma, far),
    ensures
        finite(spread_of::<A>(sigma)),
        0real < (r.wide)(spread_of::<A>(sigma)),
        size((r.wide)(spread_of::<A>(sigma)) - 2real * product((r.wide)(sigma), (r.wide)(sigma))) <= spread_error(
            r,
            (r.wide)(sigma),
        ),
        far <= product(r.top, (r.wide)(spread_of::<A>(sigma))),
{
    reveal(signs_read);
    let s = (r.wide)(sigma);
    let twice = times_of::<A>(TWO, sigma);
    assert(finite(TWO));
    lemma_product_sum(1real, 1real, s);
    lemma_product_units(1real, s);
    assert(1real + 1real == 2real);
    assert(product(2real, s) == 2real * s);
    lemma_times_rounds::<A>(r, TWO, sigma);
    let t = (r.wide)(twice);
    lemma_product_sum(t, 2real * s, s);
    lemma_product_sum(s, s, s);
    assert(s + s == 2real * s);
    assert(product(2real * s, s) == 2real * product(s, s));
    lemma_size_product(t - 2real * s, s);
    lemma_product_order(s, size(t - 2real * s), r.step);
    lemma_size_product(s, s);
    lemma_times_rounds::<A>(r, twice, sigma);
    lemma_product_order(
        r.top,
        2real * product(s, s) - spread_error(r, s),
        (r.wide)(spread_of::<A>(sigma)),
    );
}

/// The Gaussian at a squared distance is, up to a step, the exponential of a number that times twice the
/// variance is the squared distance, taken negative.
pub proof fn law_gaussian_is_nearly_the_exponential<A: Arithmetic>(
    r: Reading,
    exp: spec_fn(real) -> real,
    sigma: u64,
    n: int,
    far: int,
) -> (found: (real, real))
    requires
        obeys::<A>(r),
        quotients_round::<A>(r),
        places_read::<A>(r, far),
        exponentials_round::<A>(r, exp),
        0 <= n <= far,
        moderate(r, sigma, far as real),
    ensures
        ({
            let (x, spread) = found;
            let bell = bell_of::<A>(n, spread_of::<A>(sigma));
            &&& 0real < spread
            &&& size(spread - 2real * product((r.wide)(sigma), (r.wide)(sigma))) <= spread_error(r, (r.wide)(sigma))
            &&& size(product(x, spread) + n as real) <= product(r.step, spread)
            &&& finite(bell)
            &&& size((r.wide)(bell) - exp(x)) <= r.step
        }),
{
    lemma_spread_near::<A>(r, sigma, far as real);
    let spread = spread_of::<A>(sigma);
    let s = (r.wide)(spread);
    let d = whole_of::<A>(n as i64);
    let arg = over_of::<A>(negated(d), spread);
    assert(finite(d) && (r.wide)(d) == n as real) by {
        reveal(places_read);
    }
    assert((r.wide)(negated(d)) == -(n as real)) by {
        reveal(signs_read);
    }
    assert(finite(negated(d)));
    lemma_over_rounds::<A>(r, negated(d), spread);
    let x = (r.wide)(arg);
    lemma_product_units(r.step, s);
    lemma_product_units(x, s);
    lemma_product_cancel(s, x, r.step);
    reveal(exponentials_round);
    assert(finite(exponential_of::<A>(arg)));
    (x, s)
}

/// A tap of the kernel, times the total of the Gaussians, is the Gaussian at the tap's distance from the
/// middle, up to a step of the total.
pub proof fn law_kernel_is_nearly_a_bell<A: Arithmetic>(
    r: Reading,
    exp: spec_fn(real) -> real,
    sigma: u64,
    dx: int,
    dy: int,
    far: int,
) -> (found: (real, real))
    requires
        obeys::<A>(r),
        quotients_round::<A>(r),
        places_read::<A>(r, far),
        exponentials_round::<A>(r, exp),
        moderate(r, sigma, far as real),
        taps_summable::<A>(r, sigma),
        0 < radius_of::<A>(sigma),
        -radius_of::<A>(sigma) <= dx <= radius_of::<A>(sigma),
        -radius_of::<A>(sigma) <= dy <= radius_of::<A>(sigma),
        dx * dx + dy * dy <= far,
    ensures
        ({
            let (x, spread) = found;
            let radius = radius_of::<A>(sigma);
            let side = 2 * radius + 1;
            let whole = (r.wide)(tap_total::<A>(sigma, radius, (side * side) as nat));
            let weights = kernel_of::<A>(sigma).weights;
            let t = (dy + radius) * side + (dx + radius);
            &&& 0real < spread
            &&& size(spread - 2real * product((r.wide)(sigma), (r.wide)(sigma))) <= spread_error(r, (r.wide)(sigma))
            &&& size(product(x, spread) + (dx * dx + dy * dy) as real) <= product(r.step, spread)
            &&& 0 <= t < weights.len()
            &&& finite(weights[t])
            &&& size(product((r.wide)(weights[t]), whole) - exp(x)) <= product(r.step, whole) + r.step
        }),
{
    let radius = radius_of::<A>(sigma);
    let side = 2 * radius + 1;
    let n = (side * side) as nat;
    let t = (dy + radius) * side + (dx + radius);
    assert(0 <= t < side * side) by (nonlinear_arith)
        requires
            t == (dy + radius) * side + (dx + radius),
            side == 2 * radius + 1,
            0 <= dy + radius < side,
            0 <= dx + radius < side,
    ;
    assert(0 <= dx * dx && 0 <= dy * dy) by (nonlinear_arith);
    lemma_fundamental_div_mod_converse(t, side, dy + radius, dx + radius);
    let found = law_gaussian_is_nearly_the_exponential::<A>(r, exp, sigma, dx * dx + dy * dy, far);
    let f = |t: int| tap_of::<A>(sigma, radius, t);
    lemma_tap_total::<A>(sigma, radius, n);
    lemma_normalised::<A>(r, f, n, t);
    assert(f(t) == bell_of::<A>(dx * dx + dy * dy, spread_of::<A>(sigma)));
    found
}

/// One of several numbers over their running sum, times the sum, is the number.
proof fn lemma_normalised<A: Arithmetic>(r: Reading, f: spec_fn(int) -> u64, n: nat, t: int)
    requires
        obeys::<A>(r),
        quotients_round::<A>(r),
        summable(r, f, n),
        1real <= (r.wide)(total::<A>(f, n)),
        0 <= t < n,
    ensures
        finite(over_of::<A>(f(t), total::<A>(f, n))),
        size(
            product((r.wide)(over_of::<A>(f(t), total::<A>(f, n))), (r.wide)(total::<A>(f, n))) - (r.wide)(f(t)),
        ) <= product(r.step, (r.wide)(total::<A>(f, n))),
{
    let whole = (r.wide)(total::<A>(f, n));
    lemma_summable(r, f, (t + 1) as nat, n);
    lemma_summable(r, f, t as nat, n);
    lemma_total_near::<A>(r, f, n);
    assert(finite(f(t)) && 0real <= (r.wide)(f(t)));
    assert(read_sum(r, f, (t + 1) as nat) == read_sum(r, f, t as nat) + (r.wide)(f(t)));
    lemma_product_order(r.top, 1real, whole);
    lemma_product_units(r.top, 1real);
    lemma_over_rounds::<A>(r, f(t), total::<A>(f, n));
}

/// A tap of the line, times the total of the Gaussians, is the Gaussian at the tap's distance from the
/// middle, up to a step of the total.
pub proof fn law_line_is_nearly_a_bell<A: Arithmetic>(
    r: Reading,
    exp: spec_fn(real) -> real,
    sigma: u64,
    d: int,
    far: int,
) -> (found: (real, real))
    requires
        obeys::<A>(r),
        quotients_round::<A>(r),
        places_read::<A>(r, far),
        exponentials_round::<A>(r, exp),
        moderate(r, sigma, far as real),
        line_summable::<A>(r, sigma),
        0 < radius_of::<A>(sigma),
        -radius_of::<A>(sigma) <= d <= radius_of::<A>(sigma),
        d * d <= far,
    ensures
        ({
            let (x, spread) = found;
            let radius = radius_of::<A>(sigma);
            let whole = (r.wide)(line_total::<A>(sigma, radius, (2 * radius + 1) as nat));
            let taps = taps_of::<A>(sigma);
            &&& 0real < spread
            &&& size(spread - 2real * product((r.wide)(sigma), (r.wide)(sigma))) <= spread_error(r, (r.wide)(sigma))
            &&& size(product(x, spread) + (d * d) as real) <= product(r.step, spread)
            &&& taps.len() == 2 * radius + 1
            &&& finite(taps[d + radius])
            &&& size(product((r.wide)(taps[d + radius]), whole) - exp(x)) <= product(r.step, whole) + r.step
        }),
{
    let radius = radius_of::<A>(sigma);
    let n = (2 * radius + 1) as nat;
    assert(0 <= d * d) by (nonlinear_arith);
    let found = law_gaussian_is_nearly_the_exponential::<A>(r, exp, sigma, d * d, far);
    let f = |t: int| line_bell::<A>(sigma, radius, t);
    lemma_line_total::<A>(sigma, radius, n);
    lemma_normalised::<A>(r, f, n, d + radius);
    assert(f(d + radius) == bell_of::<A>(d * d, spread_of::<A>(sigma)));
    found
}

/// A kernel reaches three standard deviations, and no whole pixel further; below a thousandth it is a
/// single tap.
pub proof fn law_kernel_reaches_three_deviations<A: Arithmetic>(r: Reading, sigma: u64)
    requires
        obeys::<A>(r),
        ceilings_read::<A>(r),
        finite(sigma),
        0real < (r.wide)(sigma),
        3real * (r.wide)(sigma) + r.step + 1real <= r.top,
        3real * (r.wide)(sigma) + r.step + 1real <= u32::MAX as real,
    ensures
        at_most(sigma, 0x3f50_624d_d2f1_a9fcu64) <==> radius_of::<A>(sigma) == 0,
        !at_most(sigma, 0x3f50_624d_d2f1_a9fcu64) ==> {
            &&& 1 <= radius_of::<A>(sigma)
            &&& 3real * (r.wide)(sigma) - r.step <= radius_of::<A>(sigma) as real
            &&& 1 < radius_of::<A>(sigma) ==> (radius_of::<A>(sigma) as real) < 3real * (r.wide)(sigma) + r.step + 1real
        },
{
    reveal(signs_read);
    let s = (r.wide)(sigma);
    assert(finite(THREE));
    lemma_product_sum(1real, 1real, s);
    lemma_product_sum(2real, 1real, s);
    lemma_product_units(1real, s);
    assert(1real + 1real == 2real && 2real + 1real == 3real);
    assert(product(3real, s) == 3real * s);
    lemma_times_rounds::<A>(r, THREE, sigma);
    let reach = times_of::<A>(THREE, sigma);
    reveal(ceilings_read);
    let k = to_integer_of::<A>(round_up_of::<A>(reach));
    assert((r.wide)(reach) <= k as real);
    assert((k as real) < (r.wide)(reach) + 1real);
    assert((k as real) < u32::MAX as real);
    assert(k < u32::MAX);
}

} // verus!
