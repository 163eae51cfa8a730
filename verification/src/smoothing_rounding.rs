//! The smoothing filters in an arithmetic that rounds: their weights nearly add up to one, a constant is
//! nearly kept, and so is every level of its pyramid.
use crate::arithmetic::{minus_of, over_of, widen_of, Arithmetic};
use crate::binary::{finite, sample_finite, ONE};
use crate::convolve::{filtered_sample, BoundaryMode};
use crate::exact::total;
use crate::frequency::{
    axis_sum, band_of, expanded, lemma_child_extent, line_bell, line_total, reduced, sample_gap, smoothed,
    smoothed_axis, tap_index, tap_source, taps_of,
};
use crate::gaussian_blur::{
    kernel_fits, kernel_of, radius_of, request_for, tap_of, tap_total,
};
use crate::gaussian_pyramid::{gaussian_level, gaussian_stack, stack_extents, PyramidParams};
use crate::ir::{child_extent, level_extent, smaller, Extent, PyramidPhase};
use crate::lattice::{lemma_sample_at, lemma_sample_of, sample_at};
use crate::pyramid_laws::flat_plane;
use crate::rounding::{
    lemma_minus_rounds, lemma_narrow_rounds, lemma_over_rounds, lemma_plus_rounds, lemma_product_cancel,
    lemma_product_order, lemma_product_sum, lemma_product_units, lemma_size_product, lemma_widen_reads,
    lemma_zero_reads, obeys, product, quotients_round, signs_read, size, sum, Reading,
};
use crate::rounding_laws::{
    exact_sum, law_constant_is_nearly_scaled, law_weighted_sum_is_near, lemma_load_bound, numbers_finite,
    samples_within, steps, weight,
};
use crate::smoothing_laws::{lemma_axis_is_weighted, lemma_line_total, lemma_tap_total};
use vstd::prelude::*;

verus! {

/// What numbers stand for, added up without rounding.
pub open spec fn read_sum(r: Reading, f: spec_fn(int) -> u64, n: nat) -> real {
    sum(|i: int| (r.wide)(f(i)), n)
}

/// Numbers are finite, not negative, and small enough for their sum to be rounded.
pub open spec fn summable(r: Reading, f: spec_fn(int) -> u64, n: nat) -> bool {
    &&& forall|i: int| 0 <= i < n ==> finite(#[trigger] f(i)) && 0real <= (r.wide)(f(i))
    &&& read_sum(r, f, n) + steps(r, n) <= r.top
}

/// The first numbers of a sum are summable too, and none is more than the sum.
pub proof fn lemma_summable(r: Reading, f: spec_fn(int) -> u64, m: nat, n: nat)
    requires
        0real <= r.step,
        m <= n,
        summable(r, f, n),
    ensures
        summable(r, f, m),
        0real <= read_sum(r, f, m) <= read_sum(r, f, n),
        0real <= steps(r, m) <= steps(r, n),
    decreases n,
{
    if n == 0 {
    } else if m < n {
        let t = (n - 1) as nat;
        assert(finite(f(t as int)) && 0real <= (r.wide)(f(t as int)));
        lemma_summable(r, f, m, t);
    } else {
        let t = (n - 1) as nat;
        assert(finite(f(t as int)) && 0real <= (r.wide)(f(t as int)));
        lemma_summable(r, f, t, t);
    }
}

/// A running sum is within a rounding step per number of the exact sum.
pub proof fn lemma_total_near<A: Arithmetic>(r: Reading, f: spec_fn(int) -> u64, n: nat)
    requires
        obeys::<A>(r),
        summable(r, f, n),
    ensures
        finite(total::<A>(f, n)),
        size((r.wide)(total::<A>(f, n)) - read_sum(r, f, n)) <= steps(r, n),
    decreases n,
{
    lemma_zero_reads::<A>(r);
    if n > 0 {
        let t = (n - 1) as nat;
        lemma_summable(r, f, t, n);
        lemma_total_near::<A>(r, f, t);
        assert(finite(f(t as int)) && 0real <= (r.wide)(f(t as int)));
        lemma_plus_rounds::<A>(r, total::<A>(f, t), f(t as int));
    }
}

/// The magnitudes of what numbers stand for, added up.
pub open spec fn size_sum(r: Reading, f: spec_fn(int) -> u64, n: nat) -> real {
    sum(|i: int| size((r.wide)(f(i))), n)
}

/// Numbers over a number: how their sum compares with the sum of the numbers.
proof fn lemma_quotients_near<A: Arithmetic>(r: Reading, f: spec_fn(int) -> u64, n: nat, g: spec_fn(int) -> u64, d: u64)
    requires
        obeys::<A>(r),
        quotients_round::<A>(r),
        summable(r, f, n),
        finite(d),
        1real <= (r.wide)(d),
        forall|i: int| 0 <= i < n ==> #[trigger] g(i) == over_of::<A>(f(i), d),
    ensures
        forall|i: int| 0 <= i < n ==> finite(#[trigger] g(i)),
        size(product((r.wide)(d), read_sum(r, g, n)) - read_sum(r, f, n)) <= product(steps(r, n), (r.wide)(d)),
        size_sum(r, g, n) <= read_sum(r, g, n) + 2real * steps(r, n),
    decreases n,
{
    let t = (r.wide)(d);
    if n == 0 {
        lemma_product_units(t, 0real);
        lemma_product_units(0real, t);
    } else {
        let prior = (n - 1) as nat;
        lemma_summable(r, f, prior, n);
        lemma_quotients_near::<A>(r, f, prior, g, d);
        let last = prior as int;
        assert(finite(f(last)) && 0real <= (r.wide)(f(last)));
        assert(g(last) == over_of::<A>(f(last), d));
        lemma_product_order(r.top, 1real, t);
        lemma_product_units(r.top, 1real);
        lemma_over_rounds::<A>(r, f(last), d);
        let q = (r.wide)(g(last));
        lemma_product_sum(read_sum(r, g, prior), q, t);
        lemma_product_units(t, read_sum(r, g, prior) + q);
        lemma_product_units(q, t);
        lemma_product_sum(steps(r, prior), r.step, t);
        lemma_product_units(r.step, t);
        lemma_product_units(t, -r.step);
        assert(product(t, -r.step) <= product(t, q));
        lemma_product_cancel(t, -r.step, q);
        assert(size(q) <= q + 2real * r.step);
    }
}

/// Numbers over their running sum nearly add up to one.
proof fn lemma_normalised_near<A: Arithmetic>(r: Reading, f: spec_fn(int) -> u64, n: nat, g: spec_fn(int) -> u64)
    requires
        obeys::<A>(r),
        quotients_round::<A>(r),
        summable(r, f, n),
        1real <= (r.wide)(total::<A>(f, n)),
        forall|i: int| 0 <= i < n ==> #[trigger] g(i) == over_of::<A>(f(i), total::<A>(f, n)),
    ensures
        forall|i: int| 0 <= i < n ==> finite(#[trigger] g(i)),
        size(read_sum(r, g, n) - 1real) <= 2real * steps(r, n),
        size_sum(r, g, n) <= 1real + 4real * steps(r, n),
{
    let d = total::<A>(f, n);
    let t = (r.wide)(d);
    lemma_summable(r, f, n, n);
    lemma_total_near::<A>(r, f, n);
    lemma_quotients_near::<A>(r, f, n, g, d);
    let s = steps(r, n);
    let e = read_sum(r, g, n) - 1real;
    lemma_product_sum(read_sum(r, g, n), 1real, t);
    lemma_product_units(t, 1real);
    lemma_product_order(s, 1real, t);
    lemma_product_units(s, 1real);
    lemma_product_units(s, t);
    lemma_product_sum(s, s, t);
    lemma_product_units(t, -(2real * s));
    assert(s + s == 2real * s);
    assert(product(t, 2real * s) == product(s, t) + product(s, t));
    assert(product(t, -(2real * s)) == -product(t, 2real * s));
    assert(product(t, e) == product(t, read_sum(r, g, n)) - t);
    lemma_product_cancel(t, e, 2real * s);
    lemma_product_cancel(t, -(2real * s), e);
}

/// Weights nearly add up to one, and their magnitudes to little more.
pub open spec fn nearly_one(r: Reading, weights: Seq<u64>) -> bool {
    let n = weights.len();
    &&& numbers_finite(weights)
    &&& size(sum(|i: int| (r.wide)(weights[i]), n) - 1real) <= 2real * steps(r, n)
    &&& weight(r, weights, n) <= 1real + 4real * steps(r, n)
    &&& 0real <= steps(r, n)
}

/// What was normalised is nearly one.
proof fn lemma_weights_near<A: Arithmetic>(r: Reading, f: spec_fn(int) -> u64, weights: Seq<u64>)
    requires
        obeys::<A>(r),
        quotients_round::<A>(r),
        summable(r, f, weights.len()),
        1real <= (r.wide)(total::<A>(f, weights.len())),
        forall|i: int|
            0 <= i < weights.len() ==> #[trigger] weights[i] == over_of::<A>(f(i), total::<A>(f, weights.len())),
    ensures
        nearly_one(r, weights),
{
    let n = weights.len();
    let g = |i: int| weights[i];
    lemma_summable(r, f, n, n);
    assert forall|i: int| 0 <= i < n implies #[trigger] g(i) == over_of::<A>(f(i), total::<A>(f, n)) by {
        assert(weights[i] == over_of::<A>(f(i), total::<A>(f, n)));
    }
    lemma_normalised_near::<A>(r, f, n, g);
    assert forall|i: int| 0 <= i < n implies finite(#[trigger] weights[i]) by {
        assert(finite(g(i)));
    }
    lemma_sum_same(|i: int| (r.wide)(g(i)), |i: int| (r.wide)(weights[i]), n);
    lemma_sum_same(|i: int| size((r.wide)(g(i))), |i: int| size((r.wide)(weights[i])), n);
}

/// Functions with the same first values have the same sum.
pub proof fn lemma_sum_same(f: spec_fn(int) -> real, g: spec_fn(int) -> real, n: nat)
    requires
        forall|i: int| 0 <= i < n ==> #[trigger] f(i) == g(i),
    ensures
        sum(f, n) == sum(g, n),
    decreases n,
{
    if n > 0 {
        lemma_sum_same(f, g, (n - 1) as nat);
        assert(f(n - 1) == g(n - 1));
    }
}

/// One alone is nearly one.
proof fn lemma_unit_near<A: Arithmetic>(r: Reading)
    requires
        obeys::<A>(r),
    ensures
        nearly_one(r, seq![ONE]),
{
    reveal(signs_read);
    let weights = seq![ONE];
    let f = |i: int| (r.wide)(weights[i]);
    let g = |i: int| size((r.wide)(weights[i]));
    assert(sum(f, 0) == 0real && sum(f, 1) == sum(f, 0) + f(0));
    assert(sum(g, 0) == 0real && sum(g, 1) == sum(g, 0) + g(0));
    assert(steps(r, 0) == 0real && steps(r, 1) == steps(r, 0) + r.step);
    assert(finite(ONE));
}

/// The taps of a Gaussian kernel, before they are normalised, can be added up, and to one at least: the
/// middle one is one.
pub open spec fn taps_summable<A: Arithmetic>(r: Reading, sigma: u64) -> bool {
    let radius = radius_of::<A>(sigma);
    let n = ((2 * radius + 1) * (2 * radius + 1)) as nat;
    &&& summable(r, |t: int| tap_of::<A>(sigma, radius, t), n)
    &&& 1real <= (r.wide)(tap_total::<A>(sigma, radius, n))
}

/// The weights of a Gaussian kernel add up to one within two rounding steps per weight.
pub proof fn law_blur_weights_nearly_add_up_to_one<A: Arithmetic>(r: Reading, sigma: u64)
    requires
        obeys::<A>(r),
        quotients_round::<A>(r),
        taps_summable::<A>(r, sigma),
    ensures
        nearly_one(r, kernel_of::<A>(sigma).weights),
{
    let radius = radius_of::<A>(sigma);
    let n = ((2 * radius + 1) * (2 * radius + 1)) as nat;
    if radius == 0 {
        lemma_unit_near::<A>(r);
    } else {
        let f = |t: int| tap_of::<A>(sigma, radius, t);
        lemma_tap_total::<A>(sigma, radius, n);
        lemma_weights_near::<A>(r, f, kernel_of::<A>(sigma).weights);
    }
}

/// How far a kept constant can be from the constant.
pub open spec fn kept_error(r: Reading, n: nat, c: real) -> real {
    product(2real * steps(r, n), size(c)) + steps(r, n) + r.store
}

/// A Gaussian blur keeps a constant channel up to rounding.
pub proof fn law_blur_nearly_keeps_a_constant<A: Arithmetic>(
    r: Reading,
    samples: Seq<u32>,
    src: Extent,
    channels: u32,
    sigma: u64,
    mode: BoundaryMode,
    ch: int,
    x: int,
    y: int,
    s: u32,
    bound: real,
)
    requires
        obeys::<A>(r),
        quotients_round::<A>(r),
        kernel_fits::<A>(sigma),
        taps_summable::<A>(r, sigma),
        src.width >= 1,
        src.height >= 1,
        0 <= ch < channels,
        samples.len() == src.area() * channels,
        samples_within(r, samples, bound),
        0real <= bound,
        mode != BoundaryMode::Constant,
        mode != BoundaryMode::Transparent,
        forall|px: int, py: int|
            0 <= px < src.width && 0 <= py < src.height ==> samples[#[trigger] sample_at(
                px,
                py,
                ch,
                src.width as int,
                channels as int,
            )] == s,
        product(1real + 4real * steps(r, kernel_of::<A>(sigma).weights.len()), bound) + steps(
            r,
            kernel_of::<A>(sigma).weights.len(),
        ) <= r.top,
    ensures
        size(
            (r.small)(
                filtered_sample::<A>(
                    samples,
                    src,
                    channels as int,
                    request_for::<A>(sigma, mode, channels),
                    x,
                    y,
                    ch,
                ),
            ) - (r.small)(s),
        ) <= kept_error(r, kernel_of::<A>(sigma).weights.len(), (r.small)(s)),
{
    let request = request_for::<A>(sigma, mode, channels);
    let weights = request.kernel.weights;
    let n = weights.len();
    let radius = radius_of::<A>(sigma);
    let side = 2 * radius + 1;
    assert(1 <= side * side && (radius == 0 ==> side * side == 1)) by (nonlinear_arith)
        requires
            side >= 1,
            side == 2 * radius + 1,
    ;
    law_blur_weights_nearly_add_up_to_one::<A>(r, sigma);
    lemma_product_order(bound, weight(r, weights, n), 1real + 4real * steps(r, n));
    law_constant_is_nearly_scaled::<A>(r, samples, src, channels as int, request, ch, x, y, s, bound);
    let total = sum(|t: int| (r.wide)(weights[t]), n);
    let c = (r.small)(s);
    lemma_product_sum(total, 1real, c);
    lemma_product_units(c, c);
    lemma_size_product(total - 1real, c);
    lemma_product_order(size(c), size(total - 1real), 2real * steps(r, n));
}

/// The taps of a Gaussian line, before they are normalised, can be added up, and to one at least.
pub open spec fn line_summable<A: Arithmetic>(r: Reading, sigma: u64) -> bool {
    let radius = radius_of::<A>(sigma);
    let n = (2 * radius + 1) as nat;
    &&& summable(r, |t: int| line_bell::<A>(sigma, radius, t), n)
    &&& 1real <= (r.wide)(line_total::<A>(sigma, radius, n))
}

/// The weights of a Gaussian line of taps add up to one within two rounding steps per weight.
pub proof fn law_line_weights_nearly_add_up_to_one<A: Arithmetic>(r: Reading, sigma: u64)
    requires
        obeys::<A>(r),
        quotients_round::<A>(r),
        line_summable::<A>(r, sigma),
    ensures
        nearly_one(r, taps_of::<A>(sigma)),
{
    let radius = radius_of::<A>(sigma);
    let n = (2 * radius + 1) as nat;
    if radius == 0 {
        lemma_unit_near::<A>(r);
    } else {
        let f = |t: int| line_bell::<A>(sigma, radius, t);
        lemma_line_total::<A>(sigma, radius, n);
        lemma_weights_near::<A>(r, f, taps_of::<A>(sigma));
    }
}

/// Every sample of a plane is within a distance of a number.
pub open spec fn nearly_flat(r: Reading, plane: Seq<u32>, c: real, error: real) -> bool {
    forall|i: int|
        0 <= i < plane.len() ==> sample_finite(#[trigger] plane[i]) && size((r.small)(plane[i]) - c) <= error
}

/// How far a plane can be from a constant after a pass, if it was within `error` before.
pub open spec fn pass_error(r: Reading, n: nat, c: real, error: real) -> real {
    product(1real + 4real * steps(r, n), error) + kept_error(r, n, c)
}

/// Nothing that a pass computes gets too large for its rounding to be bounded.
pub open spec fn pass_fits(r: Reading, n: nat, c: real, error: real) -> bool {
    product(1real + 4real * steps(r, n), size(c) + error) + steps(r, n) <= r.top
}

/// The exact weighted sum of values near a number is near the sum of the weights times it.
proof fn lemma_exact_near_constant(
    r: Reading,
    weights: Seq<u64>,
    values: spec_fn(int) -> u64,
    n: nat,
    c: real,
    error: real,
)
    requires
        forall|i: int| 0 <= i < n ==> size((r.wide)(#[trigger] values(i)) - c) <= error,
    ensures
        size(
            exact_sum(r, weights, values, n) - product(sum(|t: int| (r.wide)(weights[t]), n), c),
        ) <= product(weight(r, weights, n), error),
    decreases n,
{
    let plain = |t: int| (r.wide)(weights[t]);
    if n == 0 {
        lemma_product_units(0real, c);
        lemma_product_units(0real, error);
    } else {
        let prior = (n - 1) as nat;
        lemma_exact_near_constant(r, weights, values, prior, c, error);
        let w = (r.wide)(weights[n - 1]);
        let v = (r.wide)(values(n - 1));
        assert(size(v - c) <= error);
        lemma_product_sum(v, c, w);
        lemma_size_product(w, v - c);
        lemma_product_order(size(w), size(v - c), error);
        lemma_product_sum(sum(plain, prior), w, c);
        lemma_product_sum(weight(r, weights, prior), size(w), error);
    }
}

/// A pass along an axis keeps a plane near a constant.
proof fn lemma_axis_nearly_flat<A: Arithmetic>(
    r: Reading,
    src: Seq<u32>,
    w: int,
    h: int,
    channels: int,
    taps: Seq<u64>,
    radius: int,
    horizontal: bool,
    c: real,
    error: real,
)
    requires
        obeys::<A>(r),
        0 <= w,
        0 <= h,
        0 <= channels,
        src.len() == w * h * channels,
        nearly_one(r, taps),
        nearly_flat(r, src, c, error),
        0real <= error,
        pass_fits(r, taps.len(), c, error),
    ensures
        smoothed_axis::<A>(src, w, h, channels, taps, radius, horizontal).len() == w * h * channels,
        nearly_flat(
            r,
            smoothed_axis::<A>(src, w, h, channels, taps, radius, horizontal),
            c,
            pass_error(r, taps.len(), c, error),
        ),
{
    let out = smoothed_axis::<A>(src, w, h, channels, taps, radius, horizontal);
    let n = taps.len();
    let all = sum(|t: int| (r.wide)(taps[t]), n);
    assert forall|i: int| 0 <= i < out.len() implies sample_finite(#[trigger] out[i]) && size(
        (r.small)(out[i]) - c,
    ) <= pass_error(r, n, c, error) by {
        lemma_sample_of(i, w, h, channels);
        let x = (i / channels) % w;
        let y = (i / channels) / w;
        let ch = i % channels;
        let reads = |t: int| widen_of::<A>(src[tap_source(w, h, channels, radius, horizontal, x, y, ch, t)]);
        lemma_axis_is_weighted::<A>(src, w, h, channels, taps, radius, horizontal, x, y, ch, n);
        assert forall|t: int| 0 <= t < n implies finite(#[trigger] reads(t)) && size((r.wide)(reads(t)) - c)
            <= error && size((r.wide)(reads(t))) <= size(c) + error by {
            if horizontal {
                lemma_sample_at(tap_index(x, t, radius, w), y, ch, w, h, channels);
            } else {
                lemma_sample_at(x, tap_index(y, t, radius, h), ch, w, h, channels);
            }
            let place = tap_source(w, h, channels, radius, horizontal, x, y, ch, t);
            assert(sample_finite(src[place]));
            lemma_widen_reads::<A>(r, src[place]);
        }
        lemma_load_bound(r, taps, reads, n, size(c) + error);
        lemma_product_order(size(c) + error, weight(r, taps, n), 1real + 4real * steps(r, n));
        law_weighted_sum_is_near::<A>(r, taps, reads, n);
        let v = axis_sum::<A>(src, w, h, channels, taps, radius, horizontal, x, y, ch, n);
        lemma_narrow_rounds::<A>(r, v);
        lemma_exact_near_constant(r, taps, reads, n, c, error);
        lemma_product_order(error, weight(r, taps, n), 1real + 4real * steps(r, n));
        lemma_product_sum(all, 1real, c);
        lemma_product_units(c, c);
        lemma_size_product(all - 1real, c);
        lemma_product_order(size(c), size(all - 1real), 2real * steps(r, n));
    }
}

/// A pass does not make an error smaller.
proof fn lemma_pass_error(r: Reading, n: nat, c: real, error: real)
    requires
        0real <= r.step,
        0real <= r.store,
        0real <= error,
        0real <= steps(r, n),
    ensures
        0real <= error <= pass_error(r, n, c, error),
{
    lemma_product_order(error, 1real, 1real + 4real * steps(r, n));
    lemma_product_units(error, error);
    lemma_size_product(2real * steps(r, n), size(c));
}

/// How far a plane can be from a constant after smoothing, if it was within `error` before.
pub open spec fn smoothed_error<A: Arithmetic>(r: Reading, sigma: u64, c: real, error: real) -> real {
    let n = taps_of::<A>(sigma).len();
    if radius_of::<A>(sigma) == 0 {
        error
    } else {
        pass_error(r, n, c, pass_error(r, n, c, error))
    }
}

/// Nothing that smoothing computes gets too large for its rounding to be bounded.
pub open spec fn smoothing_fits<A: Arithmetic>(r: Reading, sigma: u64, c: real, error: real) -> bool {
    let n = taps_of::<A>(sigma).len();
    pass_fits(r, n, c, error) && pass_fits(r, n, c, pass_error(r, n, c, error))
}

/// Smoothing keeps a plane near a constant.
pub proof fn law_smoothing_nearly_keeps_a_constant<A: Arithmetic>(
    r: Reading,
    samples: Seq<u32>,
    extent: Extent,
    channels: u32,
    sigma: u64,
    c: real,
    error: real,
)
    requires
        obeys::<A>(r),
        quotients_round::<A>(r),
        line_summable::<A>(r, sigma),
        samples.len() == extent.area() * channels,
        nearly_flat(r, samples, c, error),
        0real <= error,
        smoothing_fits::<A>(r, sigma, c, error),
    ensures
        smoothed::<A>(samples, extent, channels, sigma).len() == extent.area() * channels,
        nearly_flat(
            r,
            smoothed::<A>(samples, extent, channels, sigma),
            c,
            smoothed_error::<A>(r, sigma, c, error),
        ),
        error <= smoothed_error::<A>(r, sigma, c, error),
{
    let w = extent.width as int;
    let h = extent.height as int;
    let k = channels as int;
    let radius = radius_of::<A>(sigma);
    let taps = taps_of::<A>(sigma);
    let n = taps.len();
    if radius != 0 {
        law_line_weights_nearly_add_up_to_one::<A>(r, sigma);
        let e = pass_error(r, n, c, error);
        lemma_pass_error(r, n, c, error);
        lemma_pass_error(r, n, c, e);
        lemma_axis_nearly_flat::<A>(r, samples, w, h, k, taps, radius, true, c, error);
        let once = smoothed_axis::<A>(samples, w, h, k, taps, radius, true);
        lemma_axis_nearly_flat::<A>(r, once, w, h, k, taps, radius, false, c, e);
    }
}

/// How far a level of the pyramid of a constant can be from the constant.
pub open spec fn level_error<A: Arithmetic>(r: Reading, sigma: u64, c: real, l: nat) -> real
    decreases l,
{
    if l == 0 {
        0real
    } else {
        smoothed_error::<A>(r, sigma, c, level_error::<A>(r, sigma, c, (l - 1) as nat))
    }
}

/// Nothing that is computed up to a level gets too large for its rounding to be bounded.
pub open spec fn levels_fit<A: Arithmetic>(r: Reading, sigma: u64, c: real, l: nat) -> bool
    decreases l,
{
    l == 0 || levels_fit::<A>(r, sigma, c, (l - 1) as nat) && smoothing_fits::<A>(
        r,
        sigma,
        c,
        level_error::<A>(r, sigma, c, (l - 1) as nat),
    )
}

/// Reducing keeps a plane near a constant.
proof fn lemma_reduced_nearly_flat<A: Arithmetic>(
    r: Reading,
    samples: Seq<u32>,
    parent: Extent,
    channels: u32,
    sigma: u64,
    phase: PyramidPhase,
    c: real,
    error: real,
)
    requires
        obeys::<A>(r),
        quotients_round::<A>(r),
        line_summable::<A>(r, sigma),
        samples.len() == parent.area() * channels,
        nearly_flat(r, samples, c, error),
        0real <= error,
        smoothing_fits::<A>(r, sigma, c, error),
    ensures
        reduced::<A>(samples, parent, channels, sigma, phase).len() == child_extent(parent, phase).area()
            * channels,
        nearly_flat(
            r,
            reduced::<A>(samples, parent, channels, sigma, phase),
            c,
            smoothed_error::<A>(r, sigma, c, error),
        ),
{
    let child = child_extent(parent, phase);
    let source = smoothed::<A>(samples, parent, channels, sigma);
    let out = reduced::<A>(samples, parent, channels, sigma, phase);
    let e = smoothed_error::<A>(r, sigma, c, error);
    law_smoothing_nearly_keeps_a_constant::<A>(r, samples, parent, channels, sigma, c, error);
    lemma_child_extent(parent, phase);
    assert forall|i: int| 0 <= i < out.len() implies sample_finite(#[trigger] out[i]) && size(
        (r.small)(out[i]) - c,
    ) <= e by {
        lemma_sample_of(i, child.width as int, child.height as int, channels as int);
        let k = channels as int;
        let x = (i / k) % (child.width as int);
        let y = (i / k) / (child.width as int);
        let px = smaller(2 * x, parent.width - 1);
        let py = smaller(2 * y, parent.height - 1);
        lemma_sample_at(px, py, i % k, parent.width as int, parent.height as int, k);
        assert(sample_finite(source[sample_at(px, py, i % k, parent.width as int, k)]));
    }
}

/// Every level of the pyramid of a constant plane is the constant up to rounding.
pub proof fn law_constant_levels_are_near<A: Arithmetic>(
    r: Reading,
    extent: Extent,
    channels: u32,
    params: PyramidParams,
    s: u32,
    l: nat,
)
    requires
        obeys::<A>(r),
        quotients_round::<A>(r),
        line_summable::<A>(r, params.sigma),
        sample_finite(s),
        levels_fit::<A>(r, params.sigma, (r.small)(s), l),
    ensures
        gaussian_level::<A>(flat_plane(extent, channels, s), extent, channels, params, l).len() == level_extent(
            extent,
            params.phase,
            l,
        ).area() * channels,
        nearly_flat(
            r,
            gaussian_level::<A>(flat_plane(extent, channels, s), extent, channels, params, l),
            (r.small)(s),
            level_error::<A>(r, params.sigma, (r.small)(s), l),
        ),
        0real <= level_error::<A>(r, params.sigma, (r.small)(s), l),
    decreases l,
{
    if l > 0 {
        let prior = (l - 1) as nat;
        law_constant_levels_are_near::<A>(r, extent, channels, params, s, prior);
        let level = gaussian_level::<A>(flat_plane(extent, channels, s), extent, channels, params, prior);
        let here = level_extent(extent, params.phase, prior);
        let e = level_error::<A>(r, params.sigma, (r.small)(s), prior);
        law_smoothing_nearly_keeps_a_constant::<A>(r, level, here, channels, params.sigma, (r.small)(s), e);
        lemma_reduced_nearly_flat::<A>(r, level, here, channels, params.sigma, params.phase, (r.small)(s), e);
    } else {
        assert(0 <= extent.area() * channels) by (nonlinear_arith)
            requires
                0 <= extent.area(),
                0 <= channels,
        ;
    }
}

/// Every band of a constant plane but the coarsest is zero up to rounding.
pub proof fn law_constant_bands_nearly_vanish<A: Arithmetic>(
    r: Reading,
    extent: Extent,
    channels: u32,
    params: PyramidParams,
    s: u32,
    l: int,
)
    requires
        obeys::<A>(r),
        quotients_round::<A>(r),
        line_summable::<A>(r, params.sigma),
        sample_finite(s),
        0 <= l,
        l + 1 < params.levels,
        levels_fit::<A>(r, params.sigma, (r.small)(s), (l + 1) as nat),
        level_error::<A>(r, params.sigma, (r.small)(s), l as nat) + level_error::<A>(
            r,
            params.sigma,
            (r.small)(s),
            (l + 1) as nat,
        ) + r.step <= r.top,
    ensures
        nearly_flat(
            r,
            band_of::<A>(
                gaussian_stack::<A>(flat_plane(extent, channels, s), extent, channels, params),
                stack_extents(extent, params),
                channels,
                l,
            ),
            0real,
            level_error::<A>(r, params.sigma, (r.small)(s), l as nat) + level_error::<A>(
                r,
                params.sigma,
                (r.small)(s),
                (l + 1) as nat,
            ) + r.step + r.store,
        ),
{
    let base = flat_plane(extent, channels, s);
    let c = (r.small)(s);
    let here = level_extent(extent, params.phase, l as nat);
    let below = level_extent(extent, params.phase, (l + 1) as nat);
    let fine = gaussian_level::<A>(base, extent, channels, params, l as nat);
    let coarse = gaussian_level::<A>(base, extent, channels, params, (l + 1) as nat);
    law_constant_levels_are_near::<A>(r, extent, channels, params, s, l as nat);
    law_constant_levels_are_near::<A>(r, extent, channels, params, s, (l + 1) as nat);
    lemma_child_extent(here, params.phase);
    let filled = expanded(coarse, below, here, channels);
    let band = band_of::<A>(
        gaussian_stack::<A>(base, extent, channels, params),
        stack_extents(extent, params),
        channels,
        l,
    );
    let e = level_error::<A>(r, params.sigma, c, l as nat);
    let f = level_error::<A>(r, params.sigma, c, (l + 1) as nat);
    assert forall|i: int| 0 <= i < band.len() implies sample_finite(#[trigger] band[i]) && size(
        (r.small)(band[i]) - 0real,
    ) <= e + f + r.step + r.store by {
        let k = channels as int;
        lemma_sample_of(i, here.width as int, here.height as int, k);
        let x = (i / k) % (here.width as int);
        let y = (i / k) / (here.width as int);
        let px = smaller(x / 2, below.width - 1);
        let py = smaller(y / 2, below.height - 1);
        lemma_sample_at(px, py, i % k, below.width as int, below.height as int, k);
        let place = sample_at(px, py, i % k, below.width as int, k);
        assert(filled[i] == coarse[place]);
        assert(band[i] == sample_gap::<A>(fine[i], coarse[place]));
        assert(sample_finite(fine[i]) && sample_finite(coarse[place]));
        lemma_widen_reads::<A>(r, fine[i]);
        lemma_widen_reads::<A>(r, coarse[place]);
        lemma_minus_rounds::<A>(r, widen_of::<A>(fine[i]), widen_of::<A>(coarse[place]));
        lemma_narrow_rounds::<A>(r, minus_of::<A>(widen_of::<A>(fine[i]), widen_of::<A>(coarse[place])));
    }
}

} // verus!
