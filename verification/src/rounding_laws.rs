//! What the filters do up to rounding: a correlation is nearly the weighted sum that it stands for,
//! nearly linear, and nearly scales a constant; bands nearly add up to what they were split from; a
//! feather nearly falls.
use crate::arithmetic::{fused_of, minus_of, plus_of, times_of, widen_of, Arithmetic};
use crate::binary::{
    at_most, finite, less, nan, negated, rank, sample_finite, ONE, THREE, TWO, ZERO,
};
use crate::convolve::{
    convolved, filtered, filtered_sample, law_source_index_is_in_range, lemma_accepted_request, read_of,
    request_of, source_of, sum_of, supported, tap_read, BoundaryMode, RequestView,
};
use crate::ellipse::{fall_of, feather_of, ramp_of};
use crate::frequency::{
    band_of, bands_of, expanded, fillable, law_bands_are_slices, lemma_child_extent, planes_len, rebuilt,
    sample_gap, sample_join,
};
use crate::ir::{level_extent, smaller, Error, Extent, PyramidPhase};
use crate::json::Json;
use crate::lattice::{lemma_sample_at, lemma_sample_of, sample_at};
use crate::ports::port_view;
use crate::rounding::{
    lemma_fused_rounds, lemma_minus_rounds, lemma_narrow_rounds, lemma_plus_rounds,
    lemma_product_order, lemma_product_sum, lemma_product_units, lemma_size_product,
    lemma_times_rounds, lemma_widen_reads, lemma_zero_reads, obeys, product, signs_read, size, sum,
    Reading,
};
use crate::smoothing_laws::{lemma_sum_is_weighted, weighted};
use crate::value::{ResourceValue, ValueView};
use vstd::prelude::*;

verus! {

/// Numbers are finite.
pub open spec fn numbers_finite(numbers: Seq<u64>) -> bool {
    forall|i: int| 0 <= i < numbers.len() ==> finite(#[trigger] numbers[i])
}

/// `n` rounding steps.
pub open spec fn steps(r: Reading, n: nat) -> real
    decreases n,
{
    if n == 0 {
        0real
    } else {
        steps(r, (n - 1) as nat) + r.step
    }
}

/// The magnitude of a weight times that of a value.
pub open spec fn burden(r: Reading, weights: Seq<u64>, values: spec_fn(int) -> u64, i: int) -> real {
    product(size((r.wide)(weights[i])), size((r.wide)(values(i))))
}

/// A weight times a value.
pub open spec fn term(r: Reading, weights: Seq<u64>, values: spec_fn(int) -> u64, i: int) -> real {
    product((r.wide)(weights[i]), (r.wide)(values(i)))
}

/// The magnitudes of the products of weights and values, added up.
pub open spec fn load(r: Reading, weights: Seq<u64>, values: spec_fn(int) -> u64, n: nat) -> real {
    sum(|i: int| burden(r, weights, values, i), n)
}

/// The products of weights and values, added up without rounding.
pub open spec fn exact_sum(r: Reading, weights: Seq<u64>, values: spec_fn(int) -> u64, n: nat) -> real {
    sum(|i: int| term(r, weights, values, i), n)
}

/// The magnitudes of weights, added up.
pub open spec fn weight(r: Reading, weights: Seq<u64>, n: nat) -> real {
    sum(|i: int| size((r.wide)(weights[i])), n)
}

/// A weighted sum is within a rounding step per term of the exact sum.
pub proof fn law_weighted_sum_is_near<A: Arithmetic>(
    r: Reading,
    weights: Seq<u64>,
    values: spec_fn(int) -> u64,
    n: nat,
)
    requires
        obeys::<A>(r),
        n <= weights.len(),
        numbers_finite(weights),
        forall|i: int| 0 <= i < n ==> finite(#[trigger] values(i)),
        load(r, weights, values, n) + steps(r, n) <= r.top,
    ensures
        finite(weighted::<A>(weights, values, n)),
        size((r.wide)(weighted::<A>(weights, values, n)) - exact_sum(r, weights, values, n)) <= steps(r, n),
        size(exact_sum(r, weights, values, n)) <= load(r, weights, values, n),
        0real <= load(r, weights, values, n),
        0real <= steps(r, n),
    decreases n,
{
    lemma_zero_reads::<A>(r);
    if n > 0 {
        let prior = (n - 1) as nat;
        let w = weights[n - 1];
        let x = values(n - 1);
        let before = weighted::<A>(weights, values, prior);
        assert(finite(w) && finite(x));
        lemma_size_product((r.wide)(w), (r.wide)(x));
        law_weighted_sum_is_near::<A>(r, weights, values, prior);
        if rank(w) == 0 {
            assert((r.wide)(w) == 0real) by {
                reveal(signs_read);
            }
            lemma_product_units(0real, (r.wide)(x));
        } else {
            lemma_fused_rounds::<A>(r, w, x, before);
        }
    }
}

/// The load is no more than the weight times a bound on the values.
pub proof fn lemma_load_bound(r: Reading, weights: Seq<u64>, values: spec_fn(int) -> u64, n: nat, bound: real)
    requires
        forall|i: int| 0 <= i < n ==> size((r.wide)(#[trigger] values(i))) <= bound,
    ensures
        load(r, weights, values, n) <= product(weight(r, weights, n), bound),
        0real <= weight(r, weights, n),
    decreases n,
{
    if n == 0 {
        lemma_product_units(0real, bound);
    } else {
        let prior = (n - 1) as nat;
        lemma_load_bound(r, weights, values, prior, bound);
        let a = size((r.wide)(weights[n - 1]));
        let x = size((r.wide)(values(n - 1)));
        lemma_product_sum(weight(r, weights, prior), a, bound);
        lemma_product_order(a, x, bound);
    }
}

/// The exact sum of values that are nearly a combination is nearly the combination of the sums.
proof fn lemma_exact_combination(
    r: Reading,
    weights: Seq<u64>,
    vz: spec_fn(int) -> u64,
    a: real,
    vp: spec_fn(int) -> u64,
    b: real,
    vq: spec_fn(int) -> u64,
    n: nat,
    gap: real,
)
    requires
        forall|i: int|
            0 <= i < n ==> size(
                (r.wide)(#[trigger] vz(i)) - (product(a, (r.wide)(vp(i))) + product(b, (r.wide)(vq(i)))),
            ) <= gap,
    ensures
        size(
            exact_sum(r, weights, vz, n) - (product(a, exact_sum(r, weights, vp, n)) + product(
                b,
                exact_sum(r, weights, vq, n),
            )),
        ) <= product(weight(r, weights, n), gap),
    decreases n,
{
    if n == 0 {
        lemma_product_units(a, gap);
        lemma_product_units(b, gap);
        lemma_product_units(0real, gap);
    } else {
        let prior = (n - 1) as nat;
        lemma_exact_combination(r, weights, vz, a, vp, b, vq, prior, gap);
        let w = (r.wide)(weights[n - 1]);
        let z = (r.wide)(vz(n - 1));
        let p = (r.wide)(vp(n - 1));
        let q = (r.wide)(vq(n - 1));
        let d = z - (product(a, p) + product(b, q));
        assert(size(d) <= gap);
        lemma_size_product(w, d);
        lemma_product_sum(z, product(a, p) + product(b, q), w);
        lemma_product_sum(product(a, p), product(b, q), w);
        lemma_moved_factor(w, a, p);
        lemma_moved_factor(w, b, q);
        lemma_product_sum(exact_sum(r, weights, vp, prior), product(w, p), a);
        lemma_product_sum(exact_sum(r, weights, vq, prior), product(w, q), b);
        lemma_product_sum(weight(r, weights, prior), size(w), gap);
        lemma_product_order(size(w), size(d), gap);
    }
}

/// Factors can be taken in another order.
proof fn lemma_moved_factor(w: real, a: real, p: real)
    ensures
        product(w, product(a, p)) == product(a, product(w, p)),
{
    lemma_product_sum(w, a, p);
    lemma_product_sum(a, w, p);
    lemma_product_units(w, a);
}

/// The samples are finite and no larger than `bound`.
pub open spec fn samples_within(r: Reading, samples: Seq<u32>, bound: real) -> bool {
    forall|i: int|
        0 <= i < samples.len() ==> sample_finite(#[trigger] samples[i]) && size((r.small)(samples[i]))
            <= bound
}

/// What a tap reads of samples within a bound is finite and within it: a sample, or zero off the edge.
proof fn lemma_tap_reads<A: Arithmetic>(
    r: Reading,
    samples: Seq<u32>,
    src: Extent,
    channels: int,
    request: RequestView,
    ch: int,
    sx: int,
    sy: int,
    bound: real,
)
    requires
        obeys::<A>(r),
        src.width >= 1,
        src.height >= 1,
        0 <= ch < channels,
        samples.len() == src.area() * channels,
        samples_within(r, samples, bound),
        0real <= bound,
        request.mode == BoundaryMode::Constant ==> request.value[ch] == ZERO,
    ensures
        finite(read_of::<A>(samples, src, channels, request, ch, sx, sy)),
        size((r.wide)(read_of::<A>(samples, src, channels, request, ch, sx, sy))) <= bound,
        match (
            source_of(sx, src.width as int, request.mode),
            source_of(sy, src.height as int, request.mode),
        ) {
            (Some(px), Some(py)) => {
                let i = sample_at(px, py, ch, src.width as int, channels);
                &&& 0 <= i < samples.len()
                &&& (r.wide)(read_of::<A>(samples, src, channels, request, ch, sx, sy)) == (r.small)(
                    samples[i],
                )
            },
            _ => (r.wide)(read_of::<A>(samples, src, channels, request, ch, sx, sy)) == 0real,
        },
{
    lemma_zero_reads::<A>(r);
    law_source_index_is_in_range(sx, src.width as int, request.mode);
    law_source_index_is_in_range(sy, src.height as int, request.mode);
    match (
        source_of(sx, src.width as int, request.mode),
        source_of(sy, src.height as int, request.mode),
    ) {
        (Some(px), Some(py)) => {
            lemma_sample_at(px, py, ch, src.width as int, src.height as int, channels);
            let i = sample_at(px, py, ch, src.width as int, channels);
            assert(sample_finite(samples[i]));
            lemma_widen_reads::<A>(r, samples[i]);
        },
        _ => {},
    }
}

/// A filtered sample is within a rounding step per tap, and a storing step, of the exact weighted sum
/// of what the taps read.
pub proof fn law_correlation_is_near<A: Arithmetic>(
    r: Reading,
    samples: Seq<u32>,
    src: Extent,
    channels: int,
    request: RequestView,
    ch: int,
    x: int,
    y: int,
    bound: real,
)
    requires
        obeys::<A>(r),
        request.well_formed(channels),
        numbers_finite(request.kernel.weights),
        src.width >= 1,
        src.height >= 1,
        0 <= ch < channels,
        samples.len() == src.area() * channels,
        samples_within(r, samples, bound),
        0real <= bound,
        request.mode == BoundaryMode::Constant ==> request.value[ch] == ZERO,
        product(weight(r, request.kernel.weights, request.kernel.weights.len()), bound) + steps(
            r,
            request.kernel.weights.len(),
        ) <= r.top,
    ensures
        sample_finite(filtered_sample::<A>(samples, src, channels, request, x, y, ch)),
        size(
            (r.small)(filtered_sample::<A>(samples, src, channels, request, x, y, ch)) - exact_sum(
                r,
                request.kernel.weights,
                |t: int|
                    tap_read::<A>(
                        samples,
                        src,
                        channels,
                        request,
                        ch,
                        x + request.shift_x(),
                        y + request.shift_y(),
                        t,
                    ),
                request.kernel.weights.len(),
            ),
        ) <= steps(r, request.kernel.weights.len()) + r.store,
{
    let n = request.kernel.weights.len();
    let cx = x + request.shift_x();
    let cy = y + request.shift_y();
    let reads = |t: int| tap_read::<A>(samples, src, channels, request, ch, cx, cy, t);
    assert forall|t: int| 0 <= t < n implies finite(#[trigger] reads(t)) && size((r.wide)(reads(t)))
        <= bound by {
        lemma_tap_reads::<A>(
            r,
            samples,
            src,
            channels,
            request,
            ch,
            cx + t % (request.kernel.width as int) - request.kernel.origin_x,
            cy + t / (request.kernel.width as int) - request.kernel.origin_y,
            bound,
        );
    }
    lemma_load_bound(r, request.kernel.weights, reads, n, bound);
    lemma_sum_is_weighted::<A>(samples, src, channels, request, ch, cx, cy, n);
    law_weighted_sum_is_near::<A>(r, request.kernel.weights, reads, n);
    lemma_narrow_rounds::<A>(r, sum_of::<A>(samples, src, channels, request, ch, cx, cy, n));
}

/// A correlation is linear up to rounding: what it makes of a plane that is nearly `a` times one and
/// `b` times another is nearly `a` times what it makes of the one and `b` times what it makes of the
/// other. Its output is not clamped.
pub proof fn law_correlation_is_nearly_linear<A: Arithmetic>(
    r: Reading,
    z: Seq<u32>,
    a: real,
    p: Seq<u32>,
    b: real,
    q: Seq<u32>,
    src: Extent,
    channels: int,
    request: RequestView,
    ch: int,
    x: int,
    y: int,
    bound: real,
    gap: real,
)
    requires
        obeys::<A>(r),
        request.well_formed(channels),
        numbers_finite(request.kernel.weights),
        src.width >= 1,
        src.height >= 1,
        0 <= ch < channels,
        z.len() == src.area() * channels,
        p.len() == z.len(),
        q.len() == z.len(),
        samples_within(r, z, bound),
        samples_within(r, p, bound),
        samples_within(r, q, bound),
        0real <= bound,
        0real <= gap,
        forall|i: int|
            0 <= i < z.len() ==> size(
                (r.small)(#[trigger] z[i]) - (product(a, (r.small)(p[i])) + product(b, (r.small)(q[i]))),
            ) <= gap,
        request.mode == BoundaryMode::Constant ==> request.value[ch] == ZERO,
        product(weight(r, request.kernel.weights, request.kernel.weights.len()), bound) + steps(
            r,
            request.kernel.weights.len(),
        ) <= r.top,
    ensures
        size(
            (r.small)(filtered_sample::<A>(z, src, channels, request, x, y, ch)) - (product(
                a,
                (r.small)(filtered_sample::<A>(p, src, channels, request, x, y, ch)),
            ) + product(b, (r.small)(filtered_sample::<A>(q, src, channels, request, x, y, ch)))),
        ) <= product(weight(r, request.kernel.weights, request.kernel.weights.len()), gap) + product(
            1real + size(a) + size(b),
            steps(r, request.kernel.weights.len()) + r.store,
        ),
{
    let weights = request.kernel.weights;
    let n = weights.len();
    let cx = x + request.shift_x();
    let cy = y + request.shift_y();
    let vz = |t: int| tap_read::<A>(z, src, channels, request, ch, cx, cy, t);
    let vp = |t: int| tap_read::<A>(p, src, channels, request, ch, cx, cy, t);
    let vq = |t: int| tap_read::<A>(q, src, channels, request, ch, cx, cy, t);
    law_correlation_is_near::<A>(r, z, src, channels, request, ch, x, y, bound);
    law_correlation_is_near::<A>(r, p, src, channels, request, ch, x, y, bound);
    law_correlation_is_near::<A>(r, q, src, channels, request, ch, x, y, bound);
    assert forall|t: int| 0 <= t < n implies size(
        (r.wide)(#[trigger] vz(t)) - (product(a, (r.wide)(vp(t))) + product(b, (r.wide)(vq(t)))),
    ) <= gap by {
        let sx = cx + t % (request.kernel.width as int) - request.kernel.origin_x;
        let sy = cy + t / (request.kernel.width as int) - request.kernel.origin_y;
        lemma_tap_reads::<A>(r, z, src, channels, request, ch, sx, sy, bound);
        lemma_tap_reads::<A>(r, p, src, channels, request, ch, sx, sy, bound);
        lemma_tap_reads::<A>(r, q, src, channels, request, ch, sx, sy, bound);
        lemma_product_units(a, 0real);
        lemma_product_units(b, 0real);
    }
    lemma_exact_combination(r, weights, vz, a, vp, b, vq, n, gap);
    let e = steps(r, n) + r.store;
    lemma_combined_error(
        (r.small)(filtered_sample::<A>(z, src, channels, request, x, y, ch)),
        exact_sum(r, weights, vz, n),
        a,
        (r.small)(filtered_sample::<A>(p, src, channels, request, x, y, ch)),
        exact_sum(r, weights, vp, n),
        b,
        (r.small)(filtered_sample::<A>(q, src, channels, request, x, y, ch)),
        exact_sum(r, weights, vq, n),
        e,
        product(weight(r, weights, n), gap),
    );
}

/// The operation is linear up to rounding: what it computes of an input that is nearly `a` times one
/// and `b` times another is, sample for sample, nearly `a` times what it computes of the one and `b`
/// times what it computes of the other, under the same parameters. A constant outside the inputs is
/// zero.
pub proof fn law_convolve_is_nearly_linear<A: Arithmetic>(
    r: Reading,
    params: Json,
    request: RequestView,
    whole: Map<Seq<char>, ResourceValue>,
    z: ValueView,
    a: real,
    one: Map<Seq<char>, ResourceValue>,
    p: ValueView,
    b: real,
    other: Map<Seq<char>, ResourceValue>,
    q: ValueView,
    bound: real,
    gap: real,
)
    requires
        obeys::<A>(r),
        request_of(params, z.channels) == Ok::<RequestView, Error>(request),
        port_view(whole, "input"@) == Some(z),
        port_view(one, "input"@) == Some(p),
        port_view(other, "input"@) == Some(q),
        supported(z.descriptor),
        p.descriptor == z.descriptor,
        q.descriptor == z.descriptor,
        p.channels == z.channels,
        q.channels == z.channels,
        z.samples.len() == z.descriptor.extent().area() * z.channels,
        p.samples.len() == z.samples.len(),
        q.samples.len() == z.samples.len(),
        samples_within(r, z.samples, bound),
        samples_within(r, p.samples, bound),
        samples_within(r, q.samples, bound),
        0real <= bound,
        0real <= gap,
        forall|i: int|
            0 <= i < z.samples.len() ==> size(
                (r.small)(#[trigger] z.samples[i]) - (product(a, (r.small)(p.samples[i])) + product(
                    b,
                    (r.small)(q.samples[i]),
                )),
            ) <= gap,
        request.mode == BoundaryMode::Constant ==> forall|ch: int|
            0 <= ch < z.channels ==> #[trigger] request.value[ch] == ZERO,
        product(weight(r, request.kernel.weights, request.kernel.weights.len()), bound) + steps(
            r,
            request.kernel.weights.len(),
        ) <= r.top,
    ensures
        convolved::<A>(whole, params) matches Ok(of_z) && convolved::<A>(one, params) matches Ok(of_p)
            && convolved::<A>(other, params) matches Ok(of_q) && {
            &&& of_p.descriptor == of_z.descriptor
            &&& of_q.descriptor == of_z.descriptor
            &&& of_p.samples.len() == of_z.samples.len()
            &&& of_q.samples.len() == of_z.samples.len()
            &&& forall|i: int|
                0 <= i < of_z.samples.len() ==> size(
                    (r.small)(#[trigger] of_z.samples[i]) - (product(a, (r.small)(of_p.samples[i]))
                        + product(b, (r.small)(of_q.samples[i]))),
                ) <= product(weight(r, request.kernel.weights, request.kernel.weights.len()), gap)
                    + product(
                    1real + size(a) + size(b),
                    steps(r, request.kernel.weights.len()) + r.store,
                )
        },
{
    lemma_accepted_request(params, z.channels);
    let src = z.descriptor.extent();
    let out = request.out_extent(src);
    let channels = z.channels as int;
    let of_z = filtered::<A>(z.samples, src, channels, request);
    let of_p = filtered::<A>(p.samples, src, channels, request);
    let of_q = filtered::<A>(q.samples, src, channels, request);
    assert forall|i: int| 0 <= i < of_z.len() implies size(
        (r.small)(#[trigger] of_z[i]) - (product(a, (r.small)(of_p[i])) + product(
            b,
            (r.small)(of_q[i]),
        )),
    ) <= product(weight(r, request.kernel.weights, request.kernel.weights.len()), gap) + product(
        1real + size(a) + size(b),
        steps(r, request.kernel.weights.len()) + r.store,
    ) by {
        lemma_sample_of(i, out.width as int, out.height as int, channels);
        law_correlation_is_nearly_linear::<A>(
            r,
            z.samples,
            a,
            p.samples,
            b,
            q.samples,
            src,
            channels,
            request,
            i % channels,
            (i / channels) % (out.width as int),
            (i / channels) / (out.width as int),
            bound,
            gap,
        );
    }
}

/// Numbers that are each within `e` of exact ones, which combine up to `gap`, combine up to the sum of
/// these errors.
proof fn lemma_combined_error(
    z: real,
    ez: real,
    a: real,
    p: real,
    ep: real,
    b: real,
    q: real,
    eq: real,
    e: real,
    gap: real,
)
    requires
        size(z - ez) <= e,
        size(p - ep) <= e,
        size(q - eq) <= e,
        size(ez - (product(a, ep) + product(b, eq))) <= gap,
    ensures
        size(z - (product(a, p) + product(b, q))) <= gap + product(1real + size(a) + size(b), e),
{
    let dp = p - ep;
    let dq = q - eq;
    lemma_size_product(a, dp);
    lemma_size_product(b, dq);
    lemma_product_sum(p, ep, a);
    lemma_product_sum(q, eq, b);
    lemma_product_order(size(a), size(dp), e);
    lemma_product_order(size(b), size(dq), e);
    lemma_product_sum(1real + size(a), size(b), e);
    lemma_product_sum(1real, size(a), e);
    lemma_product_units(a, e);
}

/// A correlation nearly scales a constant channel by the sum of its weights.
pub proof fn law_constant_is_nearly_scaled<A: Arithmetic>(
    r: Reading,
    samples: Seq<u32>,
    src: Extent,
    channels: int,
    request: RequestView,
    ch: int,
    x: int,
    y: int,
    s: u32,
    bound: real,
)
    requires
        obeys::<A>(r),
        request.well_formed(channels),
        numbers_finite(request.kernel.weights),
        src.width >= 1,
        src.height >= 1,
        0 <= ch < channels,
        samples.len() == src.area() * channels,
        samples_within(r, samples, bound),
        0real <= bound,
        request.mode != BoundaryMode::Constant,
        request.mode != BoundaryMode::Transparent,
        forall|px: int, py: int|
            0 <= px < src.width && 0 <= py < src.height ==> samples[#[trigger] sample_at(
                px,
                py,
                ch,
                src.width as int,
                channels,
            )] == s,
        product(weight(r, request.kernel.weights, request.kernel.weights.len()), bound) + steps(
            r,
            request.kernel.weights.len(),
        ) <= r.top,
    ensures
        size(
            (r.small)(filtered_sample::<A>(samples, src, channels, request, x, y, ch)) - product(
                sum(
                    |t: int| (r.wide)(request.kernel.weights[t]),
                    request.kernel.weights.len(),
                ),
                (r.small)(s),
            ),
        ) <= steps(r, request.kernel.weights.len()) + r.store,
{
    let weights = request.kernel.weights;
    let n = weights.len();
    let cx = x + request.shift_x();
    let cy = y + request.shift_y();
    let reads = |t: int| tap_read::<A>(samples, src, channels, request, ch, cx, cy, t);
    law_correlation_is_near::<A>(r, samples, src, channels, request, ch, x, y, bound);
    assert forall|t: int| 0 <= t < n implies (r.wide)(#[trigger] reads(t)) == (r.small)(s) by {
        let sx = cx + t % (request.kernel.width as int) - request.kernel.origin_x;
        let sy = cy + t / (request.kernel.width as int) - request.kernel.origin_y;
        lemma_tap_reads::<A>(r, samples, src, channels, request, ch, sx, sy, bound);
        law_source_index_is_in_range(sx, src.width as int, request.mode);
        law_source_index_is_in_range(sy, src.height as int, request.mode);
    }
    lemma_exact_constant(r, weights, reads, n, (r.small)(s));
}

/// The exact sum of equal values is the sum of the weights times the value.
pub proof fn lemma_exact_constant(r: Reading, weights: Seq<u64>, values: spec_fn(int) -> u64, n: nat, c: real)
    requires
        forall|i: int| 0 <= i < n ==> (r.wide)(#[trigger] values(i)) == c,
    ensures
        exact_sum(r, weights, values, n) == product(sum(|t: int| (r.wide)(weights[t]), n), c),
    decreases n,
{
    let plain = |t: int| (r.wide)(weights[t]);
    if n == 0 {
        lemma_product_units(0real, c);
    } else {
        let prior = (n - 1) as nat;
        lemma_exact_constant(r, weights, values, prior, c);
        lemma_product_sum(sum(plain, prior), plain(n - 1), c);
        assert((r.wide)(values(n - 1)) == c);
    }
}

/// How far `n` levels of splitting and rebuilding may drift: two rounding and two storing steps each.
pub open spec fn drift(r: Reading, n: nat) -> real
    decreases n,
{
    if n == 0 {
        0real
    } else {
        drift(r, (n - 1) as nat) + 2real * r.step + 2real * r.store
    }
}

/// Drift grows with the number of levels.
proof fn lemma_drift_grows(r: Reading, few: nat, many: nat)
    requires
        few <= many,
        0real <= r.step,
        0real <= r.store,
    ensures
        0real <= drift(r, few) <= drift(r, many),
    decreases many,
{
    if few < many {
        lemma_drift_grows(r, few, (many - 1) as nat);
    } else if many > 0 {
        lemma_drift_grows(r, (many - 1) as nat, (many - 1) as nat);
    }
}

/// Which sample of a plane sample `i` of the expanded plane is.
pub open spec fn expanded_from(child: Extent, parent: Extent, channels: u32, i: int) -> int {
    let c = channels as int;
    sample_at(
        smaller(((i / c) % (parent.width as int)) / 2, child.width - 1),
        smaller(((i / c) / (parent.width as int)) / 2, child.height - 1),
        i % c,
        child.width as int,
        c,
    )
}

/// An expanded plane holds samples of the plane.
proof fn lemma_expanded_from(samples: Seq<u32>, child: Extent, parent: Extent, channels: u32, i: int)
    requires
        0 <= i < parent.area() * channels,
        fillable(child, parent, channels),
    ensures
        0 <= expanded_from(child, parent, channels, i) < child.area() * channels,
        expanded(samples, child, parent, channels)[i] == samples[expanded_from(
            child,
            parent,
            channels,
            i,
        )],
        expanded(samples, child, parent, channels).len() == parent.area() * channels,
{
    let c = channels as int;
    lemma_sample_of(i, parent.width as int, parent.height as int, c);
    lemma_sample_at(
        smaller(((i / c) % (parent.width as int)) / 2, child.width - 1),
        smaller(((i / c) / (parent.width as int)) / 2, child.height - 1),
        i % c,
        child.width as int,
        child.height as int,
        c,
    );
}

/// A sample less another, stored, and added to one near that other, stored, is near the sample.
proof fn lemma_split_and_joined<A: Arithmetic>(r: Reading, a: u32, b: u32, near: u32, bound: real, off: real)
    requires
        obeys::<A>(r),
        sample_finite(a),
        sample_finite(b),
        sample_finite(near),
        size((r.small)(a)) <= bound,
        size((r.small)(b)) <= bound,
        size((r.small)(near) - (r.small)(b)) <= off,
        3real * bound + off + 2real * r.step + 2real * r.store <= r.top,
    ensures
        sample_finite(sample_join::<A>(sample_gap::<A>(a, b), near)),
        size((r.small)(sample_join::<A>(sample_gap::<A>(a, b), near)) - (r.small)(a)) <= off + 2real
            * r.step + 2real * r.store,
{
    let wa = widen_of::<A>(a);
    let wb = widen_of::<A>(b);
    let wn = widen_of::<A>(near);
    lemma_widen_reads::<A>(r, a);
    lemma_widen_reads::<A>(r, b);
    lemma_widen_reads::<A>(r, near);
    lemma_minus_rounds::<A>(r, wa, wb);
    let d = minus_of::<A>(wa, wb);
    lemma_narrow_rounds::<A>(r, d);
    let gap = sample_gap::<A>(a, b);
    lemma_widen_reads::<A>(r, gap);
    let wg = widen_of::<A>(gap);
    lemma_plus_rounds::<A>(r, wg, wn);
    lemma_narrow_rounds::<A>(r, plus_of::<A>(wg, wn));
}

/// Rebuilding from the bands of a split gives every level of the pyramid back up to rounding.
pub proof fn law_recombine_nearly_inverts_split<A: Arithmetic>(
    r: Reading,
    levels: Seq<Seq<u32>>,
    extents: Seq<Extent>,
    channels: u32,
    l: int,
    bound: real,
)
    requires
        obeys::<A>(r),
        0 <= l < extents.len(),
        levels.len() == extents.len(),
        forall|k: int|
            0 <= k < extents.len() ==> (#[trigger] levels[k]).len() == extents[k].area() * channels,
        forall|k: int|
            0 <= k < extents.len() - 1 ==> fillable(extents[k + 1], #[trigger] extents[k], channels),
        forall|k: int| 0 <= k < extents.len() ==> samples_within(r, #[trigger] levels[k], bound),
        3real * bound + drift(r, extents.len()) <= r.top,
    ensures
        rebuilt::<A>(
            Seq::new(extents.len(), |k: int| band_of::<A>(levels, extents, channels, k)),
            extents,
            channels,
            l,
        ).len() == levels[l].len(),
        forall|i: int|
            0 <= i < levels[l].len() ==> ({
                let out = rebuilt::<A>(
                    Seq::new(extents.len(), |k: int| band_of::<A>(levels, extents, channels, k)),
                    extents,
                    channels,
                    l,
                )[i];
                &&& sample_finite(out)
                &&& size((r.small)(out) - (r.small)(#[trigger] levels[l][i])) <= drift(
                    r,
                    (extents.len() - 1 - l) as nat,
                )
            }),
    decreases extents.len() - l,
{
    let bands = Seq::new(extents.len(), |k: int| band_of::<A>(levels, extents, channels, k));
    let count = extents.len();
    let out = rebuilt::<A>(bands, extents, channels, l);
    assert(levels[l].len() == extents[l].area() * channels);
    assert(samples_within(r, levels[l], bound));
    if l + 1 < count {
        law_recombine_nearly_inverts_split::<A>(r, levels, extents, channels, l + 1, bound);
        let coarse = rebuilt::<A>(bands, extents, channels, l + 1);
        let child = extents[l + 1];
        let parent = extents[l];
        let up = expanded(coarse, child, parent, channels);
        let level_up = expanded(levels[l + 1], child, parent, channels);
        let k = (count - 1 - l) as nat;
        assert(levels[l + 1].len() == child.area() * channels);
        assert(samples_within(r, levels[l + 1], bound));
        lemma_drift_grows(r, k, count);
        assert(fillable(extents[l + 1], extents[l], channels));
        assert(up.len() == levels[l].len() && level_up.len() == levels[l].len());
        assert forall|i: int| 0 <= i < levels[l].len() implies {
            &&& sample_finite(out[i])
            &&& size((r.small)(out[i]) - (r.small)(#[trigger] levels[l][i])) <= drift(r, k)
        } by {
            lemma_expanded_from(coarse, child, parent, channels, i);
            lemma_expanded_from(levels[l + 1], child, parent, channels, i);
            let j = expanded_from(child, parent, channels, i);
            assert(sample_finite(levels[l + 1][j]));
            lemma_split_and_joined::<A>(
                r,
                levels[l][i],
                levels[l + 1][j],
                coarse[j],
                bound,
                drift(r, (k - 1) as nat),
            );
        }
    } else {
        lemma_drift_grows(r, 0, 0);
    }
}

/// Drift stays below a four-millionth a level where two rounding and two storing steps do.
proof fn lemma_drift_is_small(r: Reading, n: nat)
    requires
        4000000real * (2real * r.step + 2real * r.store) <= 1real,
    ensures
        4000000real * drift(r, n) <= n as real,
    decreases n,
{
    if n > 0 {
        lemma_drift_is_small(r, (n - 1) as nat);
    }
}

/// Splitting a pyramid of up to forty levels into bands, cutting these out of the buffer that holds them
/// and rebuilding the finest plane gives every sample back to within a hundred thousandth, where samples
/// are one in size at most and a rounding and a storing step are as small as binary64 and binary32 make
/// them up to four. A pyramid of a single level comes back as it was.
pub proof fn law_recombine_is_close<A: Arithmetic>(
    r: Reading,
    base: Extent,
    phase: PyramidPhase,
    channels: u32,
    levels: Seq<Seq<u32>>,
)
    requires
        obeys::<A>(r),
        4503599627370496real * r.step <= 2real,
        8388608real * r.store <= 1real,
        r.top == 4real,
        1 <= levels.len() <= 40,
        forall|k: int|
            0 <= k < levels.len() ==> (#[trigger] levels[k]).len() == level_extent(
                base,
                phase,
                k as nat,
            ).area() * channels && samples_within(r, levels[k], 1real),
    ensures
        ({
            let n = levels.len();
            let extents = Seq::new(n, |k: int| level_extent(base, phase, k as nat));
            let split = bands_of::<A>(levels, extents, channels, n);
            let bands = Seq::new(
                n,
                |k: int|
                    split.subrange(
                        planes_len(extents, channels, k as nat),
                        planes_len(extents, channels, (k + 1) as nat),
                    ),
            );
            let out = rebuilt::<A>(bands, extents, channels, 0);
            &&& out.len() == levels[0].len()
            &&& forall|i: int|
                0 <= i < levels[0].len() ==> 100000real * size(
                    (r.small)(#[trigger] out[i]) - (r.small)(levels[0][i]),
                ) < 1real
            &&& n == 1 ==> out == levels[0]
        }),
{
    let n = levels.len();
    let extents = Seq::new(n, |k: int| level_extent(base, phase, k as nat));
    let split = bands_of::<A>(levels, extents, channels, n);
    let cut = Seq::new(
        n,
        |k: int|
            split.subrange(
                planes_len(extents, channels, k as nat),
                planes_len(extents, channels, (k + 1) as nat),
            ),
    );
    let bands = Seq::new(n, |k: int| band_of::<A>(levels, extents, channels, k));
    assert forall|k: int| 0 <= k < n implies cut[k] == bands[k] by {
        law_bands_are_slices::<A>(levels, extents, channels, n, k);
    }
    assert(cut =~= bands);
    assert forall|k: int| 0 <= k < n - 1 implies fillable(extents[k + 1], #[trigger] extents[k], channels) by {
        lemma_child_extent(extents[k], phase);
    }
    let out = rebuilt::<A>(bands, extents, channels, 0);
    lemma_drift_is_small(r, n);
    lemma_drift_is_small(r, (n - 1) as nat);
    law_recombine_nearly_inverts_split::<A>(r, levels, extents, channels, 0, 1real);
    assert forall|i: int| 0 <= i < levels[0].len() implies 100000real * size(
        (r.small)(#[trigger] out[i]) - (r.small)(levels[0][i]),
    ) < 1real by {
        assert(size((r.small)(out[i]) - (r.small)(levels[0][i])) <= drift(r, (n - 1) as nat));
    }
}

/// The reading keeps the order of numbers.
pub open spec fn ordered(r: Reading) -> bool {
    forall|a: u64, b: u64|
        finite(a) && finite(b) && #[trigger] rank(a) <= #[trigger] rank(b) ==> (r.wide)(a) <= (r.wide)(b)
}

/// The smoothstep of a fraction, without rounding.
pub open spec fn smoothstep(t: real) -> real {
    product(product(t, t), 3real - 2real * t)
}

/// The smoothstep rises from zero to one.
proof fn lemma_smoothstep_rises(t: real, u: real)
    requires
        0real <= t <= u <= 1real,
    ensures
        0real <= smoothstep(t) <= smoothstep(u) <= 1real,
{
    lemma_smoothstep_step(0real, t);
    lemma_smoothstep_step(t, u);
    lemma_smoothstep_step(u, 1real);
    lemma_product_units(0real, 0real);
    lemma_product_units(0real, 3real);
    lemma_product_units(1real, 1real);
}

/// The smoothstep of a greater fraction is no less.
proof fn lemma_smoothstep_step(t: real, u: real)
    requires
        0real <= t <= u <= 1real,
    ensures
        smoothstep(t) <= smoothstep(u),
{
    let tt = product(t, t);
    let uu = product(u, u);
    let tu = product(t, u);
    let d = u - t;
    // `u * u * (3 - 2 * u) - t * t * (3 - 2 * t)` is `d * (3 * (t + u) - 2 * (t * t + t * u + u * u))`.
    lemma_product_units(t, u);
    lemma_product_units(t, 1real);
    lemma_product_units(u, 1real);
    lemma_product_order(t, t, 1real);
    lemma_product_order(u, u, 1real);
    lemma_product_order(t, u, 1real);
    lemma_product_order(u, t, 1real);
    let factor = 3real * (t + u) - 2real * (tt + tu + uu);
    assert(tt <= t && uu <= u && tu <= t && tu <= u);
    assert(0real <= factor);
    lemma_size_product(d, factor);
    lemma_cubes(t, u);
}

/// The difference of two smoothsteps as a product.
proof fn lemma_cubes(t: real, u: real)
    ensures
        smoothstep(u) - smoothstep(t) == product(
            u - t,
            3real * (t + u) - 2real * (product(t, t) + product(t, u) + product(u, u)),
        ),
{
    reveal(product);
    lemma_cubes_expanded(t, u);
}

proof fn lemma_cubes_expanded(t: real, u: real)
    by (nonlinear_arith)
    ensures
        (u * u) * (3real - 2real * u) - (t * t) * (3real - 2real * t) == (u - t) * (3real * (t + u)
            - 2real * (t * t + t * u + u * u)),
{
}

/// How far the computed fall of a feather may be from the exact one.
pub open spec fn fall_error(r: Reading) -> real {
    6real * r.step + product(r.step, r.step)
}

/// The computed fall of a feather is near the exact one.
pub proof fn law_fall_is_near<A: Arithmetic>(r: Reading, t: u64)
    requires
        obeys::<A>(r),
        finite(t),
        0real <= (r.wide)(t) <= 1real,
        4real + fall_error(r) <= r.top,
    ensures
        finite(fall_of::<A>(t)),
        size((r.wide)(fall_of::<A>(t)) - (1real - smoothstep((r.wide)(t)))) <= fall_error(r),
{
    let x = (r.wide)(t);
    reveal(signs_read);
    assert(finite(ONE) && finite(TWO) && finite(THREE) && finite(negated(t)));
    lemma_size_product(r.step, r.step);
    // The square.
    lemma_product_order(x, x, 1real);
    lemma_product_units(x, 1real);
    lemma_size_product(x, x);
    lemma_times_rounds::<A>(r, t, t);
    let square = times_of::<A>(t, t);
    let d1 = (r.wide)(square) - product(x, x);
    // The line.
    lemma_product_units(2real, x);
    lemma_product_double(x);
    lemma_fused_rounds::<A>(r, TWO, negated(t), THREE);
    let line = fused_of::<A>(TWO, negated(t), THREE);
    let exact_line = 3real - 2real * x;
    let d2 = (r.wide)(line) - exact_line;
    // Their product.
    let xx = product(x, x);
    lemma_perturbed_product(xx, d1, exact_line, d2, 1real, 3real, r.step);
    lemma_product_units(1real, r.step);
    lemma_product_double(r.step);
    lemma_product_sum(2real, 1real, r.step);
    assert(product(3real, r.step) == 3real * r.step) by {
        assert(2real + 1real == 3real);
    }
    assert((r.wide)(square) == xx + d1 && (r.wide)(line) == exact_line + d2);
    lemma_smoothstep_rises(x, x);
    lemma_times_rounds::<A>(r, square, line);
    let step = times_of::<A>(square, line);
    lemma_minus_rounds::<A>(r, ONE, step);
}

/// Twice a number is its product with two.
proof fn lemma_product_double(x: real)
    ensures
        product(2real, x) == 2real * x,
        product(2real, -x) == -(2real * x),
{
    lemma_product_sum(1real, 1real, x);
    lemma_product_units(1real, x);
    lemma_product_units(2real, x);
    assert(1real + 1real == 2real);
}

/// A product of perturbed factors is near the product.
proof fn lemma_perturbed_product(x: real, d: real, y: real, e: real, bx: real, by_: real, step: real)
    requires
        size(x) <= bx,
        size(y) <= by_,
        size(d) <= step,
        size(e) <= step,
    ensures
        size(product(x + d, y + e) - product(x, y)) <= product(bx, step) + product(by_, step) + product(
            step,
            step,
        ),
{
    lemma_product_sum(x, d, y + e);
    lemma_product_sum(y, e, x);
    lemma_product_sum(y, e, d);
    lemma_size_product(x, e);
    lemma_size_product(d, y);
    lemma_size_product(d, e);
    lemma_product_order(size(x), size(e), step);
    lemma_product_order(step, size(x), bx);
    lemma_product_order(size(d), size(y), by_);
    lemma_product_order(by_, size(d), step);
    lemma_product_order(size(d), size(e), step);
    lemma_product_order(step, size(d), step);
    lemma_product_units(step, bx);
    lemma_product_units(size(d), by_);
    lemma_product_units(by_, step);
}

/// Inside its band a feather falls, up to rounding: farther out, where the ramp is higher, coverage is
/// no more than twice the rounding of the fall above what it was.
pub proof fn law_feather_nearly_falls<A: Arithmetic>(r: Reading, near: u64, far: u64, half_width_px: u64)
    requires
        obeys::<A>(r),
        ordered(r),
        4real + fall_error(r) <= r.top,
        less(ZERO, half_width_px),
        less(negated(half_width_px), near),
        less(near, half_width_px),
        less(negated(half_width_px), far),
        less(far, half_width_px),
        at_most(ramp_of::<A>(near, half_width_px), ramp_of::<A>(far, half_width_px)),
    ensures
        (r.wide)(feather_of::<A>(far, half_width_px)) <= (r.wide)(
            feather_of::<A>(near, half_width_px),
        ) + 2real * fall_error(r),
{
    let t = ramp_of::<A>(near, half_width_px);
    let u = ramp_of::<A>(far, half_width_px);
    lemma_feather_is_near::<A>(r, near, half_width_px);
    lemma_feather_is_near::<A>(r, far, half_width_px);
    assert(rank(t) <= rank(u));
    lemma_smoothstep_rises((r.wide)(t), (r.wide)(u));
}

/// Inside its band a feather is near the exact fall of its ramp.
proof fn lemma_feather_is_near<A: Arithmetic>(r: Reading, sd: u64, half_width_px: u64)
    requires
        obeys::<A>(r),
        ordered(r),
        4real + fall_error(r) <= r.top,
        less(ZERO, half_width_px),
        less(negated(half_width_px), sd),
        less(sd, half_width_px),
        !nan(ramp_of::<A>(sd, half_width_px)),
    ensures
        finite(ramp_of::<A>(sd, half_width_px)),
        0real <= (r.wide)(ramp_of::<A>(sd, half_width_px)) <= 1real,
        size(
            (r.wide)(feather_of::<A>(sd, half_width_px)) - (1real - smoothstep(
                (r.wide)(ramp_of::<A>(sd, half_width_px)),
            )),
        ) <= fall_error(r),
{
    let t = ramp_of::<A>(sd, half_width_px);
    reveal(signs_read);
    lemma_zero_reads::<A>(r);
    assert(finite(ONE) && rank(ZERO) == 0 && rank(ONE) == ONE);
    assert(rank(ZERO) <= rank(t) <= rank(ONE));
    assert(finite(t));
    assert((r.wide)(ZERO) <= (r.wide)(t) <= (r.wide)(ONE));
    law_fall_is_near::<A>(r, t);
    lemma_smoothstep_rises((r.wide)(t), (r.wide)(t));
    let f = fall_of::<A>(t);
    if less(f, ZERO) {
        assert(rank(f) <= rank(ZERO));
    } else if less(ONE, f) {
        assert(rank(ONE) <= rank(f));
    }
}

} // verus!
