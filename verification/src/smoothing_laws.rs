//! What the smoothing filters do in an arithmetic that does not round: they add up weighted samples,
//! keep a constant plane, and respect sums and multiples.
use crate::arithmetic::{fused_of, narrow_of, over_of, plus_of, times_of, widen_of, Arithmetic};
use crate::binary::{rank, ONE, ZERO};
use crate::convolve::{
    filtered_sample, law_source_index_is_in_range, read_of, source_of, sum_of, tap_read,
    BoundaryMode, RequestView,
};
use crate::exact::{
    all_plain, combined, lemma_distribute, lemma_fused, lemma_over, lemma_plus, lemma_times,
    lemma_times_assoc, lemma_total_added, lemma_total_plain, lemma_total_same, lemma_total_scaled,
    lemma_units, plain, total, unrounded,
};
use crate::frequency::{
    axis_sum, line_bell, line_total, smoothed, smoothed_axis, tap_index, tap_source, taps_of,
};
use crate::gaussian_blur::{kernel_fits, kernel_of, radius_of, request_for, tap_of, tap_total};
use crate::ir::Extent;
use crate::lattice::{lemma_sample_at, lemma_sample_of, sample_at};
use vstd::prelude::*;

verus! {

/// Weighted values added up in order, those of weight zero passed over.
pub open spec fn weighted<A: Arithmetic>(weights: Seq<u64>, values: spec_fn(int) -> u64, n: nat) -> u64
    decreases n,
{
    if n == 0 {
        ZERO
    } else {
        let before = weighted::<A>(weights, values, (n - 1) as nat);
        if rank(weights[n - 1]) == 0 {
            before
        } else {
            fused_of::<A>(weights[n - 1], values(n - 1), before)
        }
    }
}

/// A correlation's sum is a weighted one.
pub proof fn lemma_sum_is_weighted<A: Arithmetic>(
    samples: Seq<u32>,
    src: Extent,
    channels: int,
    request: RequestView,
    ch: int,
    cx: int,
    cy: int,
    n: nat,
)
    ensures
        sum_of::<A>(samples, src, channels, request, ch, cx, cy, n) == weighted::<A>(
            request.kernel.weights,
            |t: int| tap_read::<A>(samples, src, channels, request, ch, cx, cy, t),
            n,
        ),
    decreases n,
{
    if n > 0 {
        lemma_sum_is_weighted::<A>(samples, src, channels, request, ch, cx, cy, (n - 1) as nat);
    }
}

/// Numbers of a sequence are plain.
pub open spec fn numbers_plain<A: Arithmetic>(numbers: Seq<u64>) -> bool {
    forall|i: int| 0 <= i < numbers.len() ==> plain::<A>(#[trigger] numbers[i])
}

/// The sum of a sequence of numbers, in order.
pub open spec fn sum_total<A: Arithmetic>(numbers: Seq<u64>) -> u64 {
    total::<A>(|i: int| numbers[i], numbers.len())
}

/// A weighted sum is the sum of the products.
pub proof fn lemma_weighted_total<A: Arithmetic>(weights: Seq<u64>, values: spec_fn(int) -> u64, n: nat)
    requires
        unrounded::<A>(),
        n <= weights.len(),
        numbers_plain::<A>(weights),
        all_plain::<A>(values, n),
    ensures
        weighted::<A>(weights, values, n) == total::<A>(|i: int| times_of::<A>(weights[i], values(i)), n),
        all_plain::<A>(|i: int| times_of::<A>(weights[i], values(i)), n),
    decreases n,
{
    let terms = |i: int| times_of::<A>(weights[i], values(i));
    assert forall|i: int| 0 <= i < n implies plain::<A>(#[trigger] terms(i)) by {
        lemma_times::<A>(weights[i], values(i));
    }
    if n > 0 {
        let prior = (n - 1) as nat;
        lemma_weighted_total::<A>(weights, values, prior);
        lemma_total_plain::<A>(terms, prior);
        let before = total::<A>(terms, prior);
        let weight = weights[n - 1];
        let value = values(n - 1);
        lemma_units::<A>(weight);
        lemma_units::<A>(value);
        lemma_units::<A>(before);
        lemma_times::<A>(weight, value);
        lemma_fused::<A>(weight, value, before);
        lemma_plus::<A>(times_of::<A>(weight, value), before);
    }
}

/// A weighted sum of equal values is the value times the sum of the weights.
proof fn lemma_weighted_constant<A: Arithmetic>(weights: Seq<u64>, values: spec_fn(int) -> u64, c: u64)
    requires
        unrounded::<A>(),
        numbers_plain::<A>(weights),
        plain::<A>(c),
        forall|i: int| 0 <= i < weights.len() ==> #[trigger] values(i) == c,
    ensures
        weighted::<A>(weights, values, weights.len()) == times_of::<A>(sum_total::<A>(weights), c),
{
    let n = weights.len();
    let w = |i: int| weights[i];
    lemma_weighted_total::<A>(weights, values, n);
    lemma_total_scaled::<A>(w, n, c);
    lemma_total_same::<A>(
        |i: int| times_of::<A>(weights[i], values(i)),
        |i: int| times_of::<A>(w(i), c),
        n,
    );
}

/// Every tap of a correlation reads one number: the samples of the channel are all equal to it, and
/// so is what stands off the edge where the mode reads that.
pub open spec fn channel_is_constant<A: Arithmetic>(
    samples: Seq<u32>,
    src: Extent,
    channels: int,
    request: RequestView,
    ch: int,
    s: u32,
) -> bool {
    &&& forall|x: int, y: int|
        0 <= x < src.width && 0 <= y < src.height ==> samples[#[trigger] sample_at(
            x,
            y,
            ch,
            src.width as int,
            channels,
        )] == s
    &&& (request.mode == BoundaryMode::Constant || request.mode == BoundaryMode::Transparent)
        ==> request.off_edge(ch) == widen_of::<A>(s)
}

/// A correlation turns a constant channel into the constant times the sum of the weights.
pub proof fn law_constant_scales_by_weight_sum<A: Arithmetic>(
    samples: Seq<u32>,
    src: Extent,
    channels: int,
    request: RequestView,
    ch: int,
    x: int,
    y: int,
    s: u32,
)
    requires
        unrounded::<A>(),
        request.well_formed(channels),
        src.width >= 1,
        src.height >= 1,
        numbers_plain::<A>(request.kernel.weights),
        plain::<A>(widen_of::<A>(s)),
        channel_is_constant::<A>(samples, src, channels, request, ch, s),
    ensures
        filtered_sample::<A>(samples, src, channels, request, x, y, ch) == narrow_of::<A>(
            times_of::<A>(sum_total::<A>(request.kernel.weights), widen_of::<A>(s)),
        ),
{
    let cx = x + request.shift_x();
    let cy = y + request.shift_y();
    let n = (request.kernel.width * request.kernel.height) as nat;
    let reads = |t: int| tap_read::<A>(samples, src, channels, request, ch, cx, cy, t);
    lemma_sum_is_weighted::<A>(samples, src, channels, request, ch, cx, cy, n);
    assert forall|t: int| 0 <= t < n implies #[trigger] reads(t) == widen_of::<A>(s) by {
        let sx = cx + t % (request.kernel.width as int) - request.kernel.origin_x;
        let sy = cy + t / (request.kernel.width as int) - request.kernel.origin_y;
        law_source_index_is_in_range(sx, src.width as int, request.mode);
        law_source_index_is_in_range(sy, src.height as int, request.mode);
    }
    lemma_weighted_constant::<A>(request.kernel.weights, reads, widen_of::<A>(s));
}

/// A correlation whose weights add up to one keeps a constant channel.
pub proof fn law_unit_weights_keep_a_constant<A: Arithmetic>(
    samples: Seq<u32>,
    src: Extent,
    channels: int,
    request: RequestView,
    ch: int,
    x: int,
    y: int,
    s: u32,
)
    requires
        unrounded::<A>(),
        request.well_formed(channels),
        src.width >= 1,
        src.height >= 1,
        numbers_plain::<A>(request.kernel.weights),
        sum_total::<A>(request.kernel.weights) == ONE,
        plain::<A>(widen_of::<A>(s)),
        narrow_of::<A>(widen_of::<A>(s)) == s,
        channel_is_constant::<A>(samples, src, channels, request, ch, s),
    ensures
        filtered_sample::<A>(samples, src, channels, request, x, y, ch) == s,
{
    law_constant_scales_by_weight_sum::<A>(samples, src, channels, request, ch, x, y, s);
    lemma_units::<A>(widen_of::<A>(s));
    lemma_times::<A>(ONE, widen_of::<A>(s));
}

/// Samples whose wide values are, one by one, `a` times those of one plane plus `b` times those of
/// another.
pub open spec fn combines<A: Arithmetic>(z: Seq<u32>, a: u64, p: Seq<u32>, b: u64, q: Seq<u32>) -> bool {
    forall|i: int|
        0 <= i < z.len() ==> widen_of::<A>(#[trigger] z[i]) == plus_of::<A>(
            times_of::<A>(a, widen_of::<A>(p[i])),
            times_of::<A>(b, widen_of::<A>(q[i])),
        )
}

/// The wide values of the samples are plain.
pub open spec fn samples_plain<A: Arithmetic>(samples: Seq<u32>) -> bool {
    forall|i: int| 0 <= i < samples.len() ==> plain::<A>(widen_of::<A>(#[trigger] samples[i]))
}

/// A correlation respects sums and multiples: before its result is narrowed, what it makes of a
/// combination is the combination of what it makes of the parts.
pub proof fn law_correlation_is_linear<A: Arithmetic>(
    z: Seq<u32>,
    a: u64,
    p: Seq<u32>,
    b: u64,
    q: Seq<u32>,
    src: Extent,
    channels: int,
    request: RequestView,
    ch: int,
    cx: int,
    cy: int,
)
    requires
        unrounded::<A>(),
        request.well_formed(channels),
        src.width >= 1,
        src.height >= 1,
        0 <= ch < channels,
        z.len() == src.area() * channels,
        p.len() == z.len(),
        q.len() == z.len(),
        plain::<A>(a),
        plain::<A>(b),
        samples_plain::<A>(p),
        samples_plain::<A>(q),
        combines::<A>(z, a, p, b, q),
        numbers_plain::<A>(request.kernel.weights),
        request.mode == BoundaryMode::Constant ==> request.value[ch] == ZERO,
    ensures
        sum_of::<A>(z, src, channels, request, ch, cx, cy, request.kernel.weights.len())
            == plus_of::<A>(
            times_of::<A>(
                a,
                sum_of::<A>(p, src, channels, request, ch, cx, cy, request.kernel.weights.len()),
            ),
            times_of::<A>(
                b,
                sum_of::<A>(q, src, channels, request, ch, cx, cy, request.kernel.weights.len()),
            ),
        ),
{
    let n = request.kernel.weights.len();
    let weights = request.kernel.weights;
    let rz = |t: int| tap_read::<A>(z, src, channels, request, ch, cx, cy, t);
    let rp = |t: int| tap_read::<A>(p, src, channels, request, ch, cx, cy, t);
    let rq = |t: int| tap_read::<A>(q, src, channels, request, ch, cx, cy, t);
    lemma_sum_is_weighted::<A>(z, src, channels, request, ch, cx, cy, n);
    lemma_sum_is_weighted::<A>(p, src, channels, request, ch, cx, cy, n);
    lemma_sum_is_weighted::<A>(q, src, channels, request, ch, cx, cy, n);
    assert forall|t: int| 0 <= t < n implies plain::<A>(#[trigger] rp(t)) && plain::<A>(rq(t))
        && rz(t) == plus_of::<A>(times_of::<A>(a, rp(t)), times_of::<A>(b, rq(t))) by {
        lemma_read_combines::<A>(
            z,
            a,
            p,
            b,
            q,
            src,
            channels,
            request,
            ch,
            cx + t % (request.kernel.width as int) - request.kernel.origin_x,
            cy + t / (request.kernel.width as int) - request.kernel.origin_y,
        );
    }
    assert forall|t: int| 0 <= t < n implies plain::<A>(#[trigger] rq(t)) by {
        assert(plain::<A>(rp(t)));
    }
    lemma_weighted_combines::<A>(weights, rz, a, rp, b, rq);
}

/// What one tap reads of a combination is the combination of what it reads of the parts.
proof fn lemma_read_combines<A: Arithmetic>(
    z: Seq<u32>,
    a: u64,
    p: Seq<u32>,
    b: u64,
    q: Seq<u32>,
    src: Extent,
    channels: int,
    request: RequestView,
    ch: int,
    sx: int,
    sy: int,
)
    requires
        unrounded::<A>(),
        src.width >= 1,
        src.height >= 1,
        0 <= ch < channels,
        z.len() == src.area() * channels,
        p.len() == z.len(),
        q.len() == z.len(),
        plain::<A>(a),
        plain::<A>(b),
        samples_plain::<A>(p),
        samples_plain::<A>(q),
        combines::<A>(z, a, p, b, q),
        request.mode == BoundaryMode::Constant ==> request.value[ch] == ZERO,
    ensures
        plain::<A>(read_of::<A>(p, src, channels, request, ch, sx, sy)),
        plain::<A>(read_of::<A>(q, src, channels, request, ch, sx, sy)),
        read_of::<A>(z, src, channels, request, ch, sx, sy) == plus_of::<A>(
            times_of::<A>(a, read_of::<A>(p, src, channels, request, ch, sx, sy)),
            times_of::<A>(b, read_of::<A>(q, src, channels, request, ch, sx, sy)),
        ),
{
    law_source_index_is_in_range(sx, src.width as int, request.mode);
    law_source_index_is_in_range(sy, src.height as int, request.mode);
    if source_of(sx, src.width as int, request.mode) is Some && source_of(
        sy,
        src.height as int,
        request.mode,
    ) is Some {
        let px = source_of(sx, src.width as int, request.mode)->0;
        let py = source_of(sy, src.height as int, request.mode)->0;
        lemma_sample_at(px, py, ch, src.width as int, src.height as int, channels);
        let i = sample_at(px, py, ch, src.width as int, channels);
        assert(widen_of::<A>(z[i]) == plus_of::<A>(
            times_of::<A>(a, widen_of::<A>(p[i])),
            times_of::<A>(b, widen_of::<A>(q[i])),
        ));
    } else {
        lemma_units::<A>(a);
        lemma_units::<A>(b);
        lemma_units::<A>(ZERO);
    }
}

/// A weighted sum of combined values is the combination of the weighted sums.
proof fn lemma_weighted_combines<A: Arithmetic>(
    weights: Seq<u64>,
    rz: spec_fn(int) -> u64,
    a: u64,
    rp: spec_fn(int) -> u64,
    b: u64,
    rq: spec_fn(int) -> u64,
)
    requires
        unrounded::<A>(),
        numbers_plain::<A>(weights),
        plain::<A>(a),
        plain::<A>(b),
        all_plain::<A>(rp, weights.len()),
        all_plain::<A>(rq, weights.len()),
        forall|t: int|
            0 <= t < weights.len() ==> #[trigger] rz(t) == plus_of::<A>(
                times_of::<A>(a, rp(t)),
                times_of::<A>(b, rq(t)),
            ),
    ensures
        weighted::<A>(weights, rz, weights.len()) == plus_of::<A>(
            times_of::<A>(a, weighted::<A>(weights, rp, weights.len())),
            times_of::<A>(b, weighted::<A>(weights, rq, weights.len())),
        ),
{
    let n = weights.len();
    let tz = |i: int| times_of::<A>(weights[i], rz(i));
    let tp = |i: int| times_of::<A>(weights[i], rp(i));
    let tq = |i: int| times_of::<A>(weights[i], rq(i));
    let sp = |i: int| times_of::<A>(tp(i), a);
    let sq = |i: int| times_of::<A>(tq(i), b);
    assert forall|t: int| 0 <= t < n implies plain::<A>(#[trigger] rz(t)) && plain::<A>(sp(t))
        && plain::<A>(sq(t)) && tz(t) == plus_of::<A>(sp(t), sq(t)) by {
        let w = weights[t];
        assert(plain::<A>(w) && plain::<A>(rp(t)) && plain::<A>(rq(t)));
        lemma_times::<A>(a, rp(t));
        lemma_times::<A>(b, rq(t));
        lemma_times::<A>(w, rp(t));
        lemma_times::<A>(w, rq(t));
        lemma_times::<A>(tp(t), a);
        lemma_times::<A>(tq(t), b);
        let ap = times_of::<A>(a, rp(t));
        let bq = times_of::<A>(b, rq(t));
        lemma_plus::<A>(ap, bq);
        lemma_distribute::<A>(ap, bq, w);
        lemma_times::<A>(plus_of::<A>(ap, bq), w);
        lemma_times_assoc::<A>(a, rp(t), w);
        lemma_times::<A>(rp(t), w);
        lemma_times_assoc::<A>(b, rq(t), w);
        lemma_times::<A>(rq(t), w);
        lemma_times::<A>(a, tp(t));
        lemma_times::<A>(b, tq(t));
    }
    assert(all_plain::<A>(rz, n));
    lemma_weighted_total::<A>(weights, rz, n);
    lemma_weighted_total::<A>(weights, rp, n);
    lemma_weighted_total::<A>(weights, rq, n);
    lemma_total_scaled::<A>(tp, n, a);
    lemma_total_scaled::<A>(tq, n, b);
    assert forall|t: int| 0 <= t < n implies plain::<A>(#[trigger] sp(t)) by {
        assert(plain::<A>(rz(t)));
    }
    assert forall|t: int| 0 <= t < n implies plain::<A>(#[trigger] sq(t)) by {
        assert(plain::<A>(rz(t)));
    }
    lemma_total_added::<A>(sp, sq, n);
    let both = |i: int| plus_of::<A>(sp(i), sq(i));
    assert forall|t: int| 0 <= t < n implies #[trigger] tz(t) == both(t) by {
        assert(plain::<A>(rz(t)));
    }
    lemma_total_same::<A>(tz, both, n);
    lemma_total_plain::<A>(tp, n);
    lemma_total_plain::<A>(tq, n);
    lemma_times::<A>(total::<A>(tp, n), a);
    lemma_times::<A>(total::<A>(tq, n), b);
}

/// Numbers over their sum add up to one.
proof fn lemma_normalised<A: Arithmetic>(f: spec_fn(int) -> u64, n: nat, g: spec_fn(int) -> u64)
    requires
        unrounded::<A>(),
        all_plain::<A>(f, n),
        rank(total::<A>(f, n)) != 0,
        forall|i: int| 0 <= i < n ==> #[trigger] g(i) == over_of::<A>(f(i), total::<A>(f, n)),
    ensures
        all_plain::<A>(g, n),
        total::<A>(g, n) == ONE,
{
    let t = total::<A>(f, n);
    lemma_total_plain::<A>(f, n);
    assert forall|i: int| 0 <= i < n implies plain::<A>(#[trigger] g(i)) && times_of::<A>(g(i), t) == f(
        i,
    ) by {
        lemma_over::<A>(f(i), t);
    }
    lemma_total_plain::<A>(g, n);
    lemma_total_scaled::<A>(g, n, t);
    let scaled = |i: int| times_of::<A>(g(i), t);
    assert forall|i: int| 0 <= i < n implies #[trigger] scaled(i) == f(i) by {}
    lemma_total_same::<A>(scaled, f, n);
    lemma_over::<A>(total::<A>(g, n), t);
    lemma_units::<A>(t);
    lemma_times::<A>(ONE, t);
    lemma_over::<A>(ONE, t);
}

/// The running sum of the taps is the sum of the taps.
pub proof fn lemma_tap_total<A: Arithmetic>(sigma: u64, r: int, n: nat)
    ensures
        tap_total::<A>(sigma, r, n) == total::<A>(|t: int| tap_of::<A>(sigma, r, t), n),
    decreases n,
{
    if n > 0 {
        lemma_tap_total::<A>(sigma, r, (n - 1) as nat);
    }
}

/// Every tap of the kernel before it is normalised is plain, and their sum is not zero.
pub open spec fn taps_plain<A: Arithmetic>(sigma: u64) -> bool {
    let r = radius_of::<A>(sigma);
    let n = ((2 * r + 1) * (2 * r + 1)) as nat;
    &&& forall|t: int| 0 <= t < n ==> plain::<A>(#[trigger] tap_of::<A>(sigma, r, t))
    &&& rank(tap_total::<A>(sigma, r, n)) != 0
}

/// The weights of a Gaussian kernel add up to one.
pub proof fn law_blur_weights_add_up_to_one<A: Arithmetic>(sigma: u64)
    requires
        unrounded::<A>(),
        taps_plain::<A>(sigma),
    ensures
        numbers_plain::<A>(kernel_of::<A>(sigma).weights),
        sum_total::<A>(kernel_of::<A>(sigma).weights) == ONE,
{
    let r = radius_of::<A>(sigma);
    let n = ((2 * r + 1) * (2 * r + 1)) as nat;
    let weights = kernel_of::<A>(sigma).weights;
    let g = |i: int| weights[i];
    if r == 0 {
        lemma_single_unit::<A>();
    } else {
        let f = |t: int| tap_of::<A>(sigma, r, t);
        lemma_tap_total::<A>(sigma, r, n);
        assert forall|i: int| 0 <= i < n implies #[trigger] g(i) == over_of::<A>(f(i), total::<A>(f, n)) by {}
        lemma_normalised::<A>(f, n, g);
        assert forall|i: int| 0 <= i < weights.len() implies plain::<A>(#[trigger] weights[i]) by {
            assert(plain::<A>(g(i)));
        }
    }
}

/// One alone adds up to one.
proof fn lemma_single_unit<A: Arithmetic>()
    requires
        unrounded::<A>(),
    ensures
        numbers_plain::<A>(seq![ONE]),
        sum_total::<A>(seq![ONE]) == ONE,
{
    let weights = seq![ONE];
    let g = |i: int| weights[i];
    assert(plain::<A>(ONE)) by {
        reveal(combined);
    }
    assert(total::<A>(g, 0) == ZERO);
    assert(total::<A>(g, 1) == plus_of::<A>(ZERO, g(0)));
}

/// A Gaussian blur keeps a constant channel.
pub proof fn law_blur_keeps_a_constant<A: Arithmetic>(
    samples: Seq<u32>,
    src: Extent,
    channels: u32,
    sigma: u64,
    mode: BoundaryMode,
    ch: int,
    x: int,
    y: int,
    s: u32,
)
    requires
        unrounded::<A>(),
        kernel_fits::<A>(sigma),
        taps_plain::<A>(sigma),
        src.width >= 1,
        src.height >= 1,
        plain::<A>(widen_of::<A>(s)),
        narrow_of::<A>(widen_of::<A>(s)) == s,
        channel_is_constant::<A>(
            samples,
            src,
            channels as int,
            request_for::<A>(sigma, mode, channels),
            ch,
            s,
        ),
    ensures
        filtered_sample::<A>(
            samples,
            src,
            channels as int,
            request_for::<A>(sigma, mode, channels),
            x,
            y,
            ch,
        ) == s,
{
    let request = request_for::<A>(sigma, mode, channels);
    let r = radius_of::<A>(sigma);
    let side = 2 * r + 1;
    assert(request.kernel.weights.len() == request.kernel.width * request.kernel.height) by {
        assert(1 <= side * side && (r == 0 ==> side * side == 1)) by (nonlinear_arith)
            requires
                side >= 1,
                side == 2 * r + 1,
        ;
    }
    law_blur_weights_add_up_to_one::<A>(sigma);
    law_unit_weights_keep_a_constant::<A>(samples, src, channels as int, request, ch, x, y, s);
}

/// The running sum of a line of taps is the sum of the taps.
pub proof fn lemma_line_total<A: Arithmetic>(sigma: u64, r: int, n: nat)
    ensures
        line_total::<A>(sigma, r, n) == total::<A>(|t: int| line_bell::<A>(sigma, r, t), n),
    decreases n,
{
    if n > 0 {
        lemma_line_total::<A>(sigma, r, (n - 1) as nat);
    }
}

/// Every tap of the line before it is normalised is plain, and their sum is not zero.
pub open spec fn line_plain<A: Arithmetic>(sigma: u64) -> bool {
    let r = radius_of::<A>(sigma);
    &&& forall|t: int| 0 <= t < 2 * r + 1 ==> plain::<A>(#[trigger] line_bell::<A>(sigma, r, t))
    &&& rank(line_total::<A>(sigma, r, (2 * r + 1) as nat)) != 0
}

/// The weights of a Gaussian line of taps add up to one.
pub proof fn law_line_weights_add_up_to_one<A: Arithmetic>(sigma: u64)
    requires
        unrounded::<A>(),
        line_plain::<A>(sigma),
    ensures
        numbers_plain::<A>(taps_of::<A>(sigma)),
        sum_total::<A>(taps_of::<A>(sigma)) == ONE,
{
    let r = radius_of::<A>(sigma);
    let n = (2 * r + 1) as nat;
    let weights = taps_of::<A>(sigma);
    let g = |i: int| weights[i];
    if r == 0 {
        lemma_single_unit::<A>();
    } else {
        let f = |t: int| line_bell::<A>(sigma, r, t);
        lemma_line_total::<A>(sigma, r, n);
        assert forall|i: int| 0 <= i < n implies #[trigger] g(i) == over_of::<A>(f(i), total::<A>(f, n)) by {}
        lemma_normalised::<A>(f, n, g);
        assert forall|i: int| 0 <= i < weights.len() implies plain::<A>(#[trigger] weights[i]) by {
            assert(plain::<A>(g(i)));
        }
    }
}

/// A pass along an axis adds up weighted samples.
pub proof fn lemma_axis_is_weighted<A: Arithmetic>(
    src: Seq<u32>,
    w: int,
    h: int,
    c: int,
    taps: Seq<u64>,
    r: int,
    horizontal: bool,
    x: int,
    y: int,
    ch: int,
    n: nat,
)
    ensures
        axis_sum::<A>(src, w, h, c, taps, r, horizontal, x, y, ch, n) == weighted::<A>(
            taps,
            |t: int| widen_of::<A>(src[tap_source(w, h, c, r, horizontal, x, y, ch, t)]),
            n,
        ),
    decreases n,
{
    if n > 0 {
        lemma_axis_is_weighted::<A>(src, w, h, c, taps, r, horizontal, x, y, ch, (n - 1) as nat);
    }
}

/// A plane of equal samples.
pub open spec fn flat(w: int, h: int, c: int, s: u32) -> Seq<u32> {
    Seq::new((w * h * c) as nat, |i: int| s)
}

/// A pass along an axis with taps that add up to one keeps a constant plane.
proof fn lemma_axis_keeps_flat<A: Arithmetic>(w: int, h: int, c: int, taps: Seq<u64>, r: int, horizontal: bool, s: u32)
    requires
        unrounded::<A>(),
        0 <= w,
        0 <= h,
        0 <= c,
        numbers_plain::<A>(taps),
        sum_total::<A>(taps) == ONE,
        plain::<A>(widen_of::<A>(s)),
        narrow_of::<A>(widen_of::<A>(s)) == s,
    ensures
        smoothed_axis::<A>(flat(w, h, c, s), w, h, c, taps, r, horizontal) == flat(w, h, c, s),
{
    let src = flat(w, h, c, s);
    let out = smoothed_axis::<A>(src, w, h, c, taps, r, horizontal);
    let wide = widen_of::<A>(s);
    assert forall|i: int| 0 <= i < out.len() implies out[i] == s by {
        lemma_sample_of(i, w, h, c);
        let x = (i / c) % w;
        let y = (i / c) / w;
        let ch = i % c;
        let reads = |t: int| widen_of::<A>(src[tap_source(w, h, c, r, horizontal, x, y, ch, t)]);
        lemma_axis_is_weighted::<A>(src, w, h, c, taps, r, horizontal, x, y, ch, taps.len());
        assert forall|t: int| 0 <= t < taps.len() implies #[trigger] reads(t) == wide by {
            if horizontal {
                lemma_sample_at(tap_index(x, t, r, w), y, ch, w, h, c);
            } else {
                lemma_sample_at(x, tap_index(y, t, r, h), ch, w, h, c);
            }
        }
        lemma_weighted_constant::<A>(taps, reads, wide);
        lemma_units::<A>(wide);
        lemma_times::<A>(ONE, wide);
    }
}

/// Smoothing a plane keeps a constant one.
pub proof fn law_smoothing_keeps_a_constant<A: Arithmetic>(extent: Extent, channels: u32, sigma: u64, s: u32)
    requires
        unrounded::<A>(),
        line_plain::<A>(sigma),
        plain::<A>(widen_of::<A>(s)),
        narrow_of::<A>(widen_of::<A>(s)) == s,
    ensures
        smoothed::<A>(
            flat(extent.width as int, extent.height as int, channels as int, s),
            extent,
            channels,
            sigma,
        ) == flat(extent.width as int, extent.height as int, channels as int, s),
{
    let w = extent.width as int;
    let h = extent.height as int;
    let c = channels as int;
    let r = radius_of::<A>(sigma);
    law_line_weights_add_up_to_one::<A>(sigma);
    lemma_axis_keeps_flat::<A>(w, h, c, taps_of::<A>(sigma), r, true, s);
    lemma_axis_keeps_flat::<A>(w, h, c, taps_of::<A>(sigma), r, false, s);
}

} // verus!
