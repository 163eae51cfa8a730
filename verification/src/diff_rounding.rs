//! How the measures of a difference compare, up to rounding: the mean is no more than the root of the mean
//! square, and that no more than the greatest. Each is near what its name says.
use crate::arithmetic::{over_of, tally_of, widen_of, Arithmetic};
use crate::binary::{finite, nan, rank, sample_finite, ZERO};
use crate::diff::{metrics_of, totals_of};
use crate::ir::Extent;
use crate::rounding::{
    counts_read, lemma_count_reads, lemma_fused_rounds, lemma_over_rounds, lemma_plus_rounds,
    lemma_product_cancel, lemma_product_order, lemma_product_sum, lemma_product_units, lemma_root_rounds,
    lemma_size_product, lemma_widen_reads, lemma_zero_reads, obeys, product, quotients_round, roots_round, size,
    Reading,
};
use crate::rounding_laws::{ordered, steps};
use vstd::prelude::*;

verus! {

/// The sum, the sum of squares and the number of the finite differences among the first `n`, exactly.
pub ghost struct ExactTotals {
    pub sum: real,
    pub sum_sq: real,
    pub count: nat,
}

/// What the finite differences among the first `n` add up to, exactly.
pub open spec fn exact_totals(r: Reading, samples: Seq<u32>, n: nat) -> ExactTotals
    decreases n,
{
    if n == 0 {
        ExactTotals { sum: 0real, sum_sq: 0real, count: 0 }
    } else {
        let before = exact_totals(r, samples, (n - 1) as nat);
        if sample_finite(samples[n - 1]) {
            let v = (r.small)(samples[n - 1]);
            ExactTotals {
                sum: before.sum + v,
                sum_sq: before.sum_sq + product(v, v),
                count: before.count + 1,
            }
        } else {
            before
        }
    }
}

/// The finite samples are not negative: they are magnitudes of differences.
pub open spec fn magnitudes(r: Reading, samples: Seq<u32>) -> bool {
    forall|i: int| 0 <= i < samples.len() && sample_finite(#[trigger] samples[i]) ==> 0real <= (r.small)(samples[i])
}

/// Nothing that is added up gets too large for its rounding to be bounded.
pub open spec fn totals_fit(r: Reading, samples: Seq<u32>, n: nat) -> bool {
    let t = exact_totals(r, samples, n);
    t.sum + steps(r, t.count) <= r.top && t.sum_sq + steps(r, t.count) <= r.top
}

/// Totals of fewer samples are no more.
proof fn lemma_totals_grow(r: Reading, samples: Seq<u32>, n: nat)
    requires
        0real <= r.step,
        0 < n <= samples.len(),
        magnitudes(r, samples),
        totals_fit(r, samples, n),
    ensures
        totals_fit(r, samples, (n - 1) as nat),
{
    let s = samples[n - 1];
    let before = exact_totals(r, samples, (n - 1) as nat);
    if sample_finite(s) {
        let v = (r.small)(s);
        lemma_size_product(v, v);
        assert(steps(r, before.count + 1) == steps(r, before.count) + r.step);
    }
}

/// The computed totals are near the exact ones, and the greatest is at least every difference.
proof fn lemma_totals_near<A: Arithmetic>(r: Reading, samples: Seq<u32>, n: nat)
    requires
        obeys::<A>(r),
        ordered(r),
        n <= samples.len(),
        magnitudes(r, samples),
        totals_fit(r, samples, n),
    ensures
        ({
            let t = totals_of::<A>(samples, n);
            let e = exact_totals(r, samples, n);
            &&& t.count == e.count
            &&& e.count <= n
            &&& finite(t.sum) && size((r.wide)(t.sum) - e.sum) <= steps(r, e.count)
            &&& finite(t.sum_sq) && size((r.wide)(t.sum_sq) - e.sum_sq) <= steps(r, e.count)
            &&& finite(t.peak) && 0real <= (r.wide)(t.peak)
            &&& 0real <= e.sum
            &&& 0real <= e.sum_sq <= product(e.count as real, product((r.wide)(t.peak), (r.wide)(t.peak)))
            &&& 0real <= steps(r, e.count)
        }),
    decreases n,
{
    lemma_zero_reads::<A>(r);
    if n == 0 {
        lemma_product_units(0real, product((r.wide)(totals_of::<A>(samples, 0).peak), 0real));
        let p = (r.wide)(totals_of::<A>(samples, 0).peak);
        lemma_product_units(0real, product(p, p));
    } else {
        let m = (n - 1) as nat;
        lemma_totals_grow(r, samples, n);
        lemma_totals_near::<A>(r, samples, m);
        let s = samples[n - 1];
        if sample_finite(s) {
            let t = totals_of::<A>(samples, m);
            let e = exact_totals(r, samples, m);
            let after = totals_of::<A>(samples, n);
            let v = (r.small)(s);
            let abs = widen_of::<A>(s);
            lemma_widen_reads::<A>(r, s);
            lemma_size_product(v, v);
            assert(steps(r, e.count + 1) == steps(r, e.count) + r.step);
            lemma_plus_rounds::<A>(r, t.sum, abs);
            lemma_fused_rounds::<A>(r, abs, abs, t.sum_sq);
            assert(!nan(abs) && !nan(t.peak));
            let p = (r.wide)(t.peak);
            let q = (r.wide)(after.peak);
            assert(p <= q && v <= q);
            lemma_product_order(p, p, q);
            lemma_product_order(q, p, q);
            lemma_product_order(v, v, q);
            lemma_product_order(q, v, q);
            let k = e.count as real;
            lemma_product_order(k, product(p, p), product(q, q));
            lemma_product_sum(k, 1real, product(q, q));
            lemma_product_units(1real, product(q, q));
            assert((e.count + 1) as real == k + 1real);
        }
    }
}

/// Twice a sum times a number is no more than the sum of squares and as many squares of the number.
proof fn lemma_spread(r: Reading, samples: Seq<u32>, n: nat, t: real)
    ensures
        2real * product(exact_totals(r, samples, n).sum, t) <= exact_totals(r, samples, n).sum_sq + product(
            exact_totals(r, samples, n).count as real,
            product(t, t),
        ),
    decreases n,
{
    if n == 0 {
        lemma_product_units(0real, t);
        lemma_product_units(0real, product(t, t));
    } else {
        let m = (n - 1) as nat;
        lemma_spread(r, samples, m, t);
        let s = samples[n - 1];
        if sample_finite(s) {
            let e = exact_totals(r, samples, m);
            let v = (r.small)(s);
            let k = e.count as real;
            lemma_product_sum(e.sum, v, t);
            lemma_product_sum(k, 1real, product(t, t));
            lemma_product_units(1real, product(t, t));
            lemma_product_sum(v, t, v - t);
            lemma_product_sum(v, t, v);
            lemma_product_sum(v, t, t);
            lemma_product_units(v, t);
            lemma_size_product(v - t, v - t);
            assert(0real <= product(v - t, v - t)) by {
                if v - t < 0real {
                    lemma_product_units(v - t, v - t);
                    lemma_size_product(t - v, t - v);
                    lemma_product_units(v - t, t - v);
                    lemma_product_units(t - v, t - v);
                    assert(-(v - t) == t - v);
                }
            }
            assert((e.count + 1) as real == k + 1real);
        }
    }
}

/// A step for each of a count is the count times a step.
pub proof fn lemma_steps_product(r: Reading, n: nat)
    ensures
        steps(r, n) == product(n as real, r.step),
    decreases n,
{
    if n == 0 {
        lemma_product_units(0real, r.step);
    } else {
        lemma_steps_product(r, (n - 1) as nat);
        lemma_product_sum((n - 1) as real, 1real, r.step);
        lemma_product_units(1real, r.step);
        assert((n - 1) as real + 1real == n as real);
    }
}

/// A number whose square is no more than another's with the square of a spare is no more than the other
/// with the spare.
proof fn lemma_within_spare(a: real, b: real, spare: real, rest: real)
    requires
        0real <= b,
        0real <= spare,
        rest <= product(spare, spare),
        0real <= a ==> product(a, a) <= product(b, b) + rest,
    ensures
        a <= b + spare,
{
    if a > b + spare {
        let c = b + spare;
        lemma_product_sum(b, spare, c);
        lemma_product_sum(b, spare, b);
        lemma_product_sum(b, spare, spare);
        lemma_size_product(b, spare);
        lemma_product_units(b, spare);
        lemma_product_order(a, c, a);
        lemma_product_order(c, c, a);
        assert(product(c, c) <= product(a, a));
        lemma_strictly(a, c);
    }
}

/// Of two numbers that are not negative the greater has the greater square.
proof fn lemma_strictly(a: real, c: real)
    requires
        0real <= c < a,
    ensures
        product(c, c) < product(a, a),
{
    lemma_product_order(c, c, a);
    if product(c, c) >= product(a, a) {
        lemma_product_units(c, a);
        lemma_product_order(a, c, a);
        lemma_product_cancel(a, a, c);
    }
}

/// The mean of the differences is no more than the root of their mean square, and that no more than the
/// greatest, up to rounding: within three steps, and a spare number whose square is two steps.
pub proof fn law_measures_are_nearly_ordered<A: Arithmetic>(
    r: Reading,
    samples: Seq<u32>,
    extent: Extent,
    channels: u32,
    threshold: u64,
    spare: real,
)
    requires
        obeys::<A>(r),
        ordered(r),
        quotients_round::<A>(r),
        roots_round::<A>(r),
        counts_read::<A>(r, samples.len() as int),
        magnitudes(r, samples),
        totals_fit(r, samples, samples.len()),
        0real <= spare,
        2real * r.step <= product(spare, spare),
        exact_totals(r, samples, samples.len()).count > 0 ==> 0real <= (r.wide)(
            over_of::<A>(
                totals_of::<A>(samples, samples.len()).sum_sq,
                tally_of::<A>(totals_of::<A>(samples, samples.len()).count as u64),
            ),
        ),
        exact_totals(r, samples, samples.len()).sum_sq + steps(
            r,
            exact_totals(r, samples, samples.len()).count,
        ) + r.step <= r.top,
    ensures
        (r.wide)(metrics_of::<A>(samples, extent, channels, threshold).mean_abs_error) <= (r.wide)(
            metrics_of::<A>(samples, extent, channels, threshold).rms_error,
        ) + 3real * r.step + spare,
        (r.wide)(metrics_of::<A>(samples, extent, channels, threshold).rms_error) <= (r.wide)(
            metrics_of::<A>(samples, extent, channels, threshold).max_abs_error,
        ) + r.step + spare,
{
    let n = samples.len();
    let t = totals_of::<A>(samples, n);
    let e = exact_totals(r, samples, n);
    let m = metrics_of::<A>(samples, extent, channels, threshold);
    lemma_totals_near::<A>(r, samples, n);
    lemma_zero_reads::<A>(r);
    if e.count > 0 {
        let k = e.count as real;
        let denom = tally_of::<A>(t.count as u64);
        lemma_count_reads::<A>(r, n as int, t.count);
        lemma_steps_product(r, e.count);
        assert(1real <= k);
        lemma_product_order(r.top, 1real, k);
        lemma_product_units(r.top, 1real);
        lemma_over_rounds::<A>(r, t.sum, denom);
        lemma_over_rounds::<A>(r, t.sum_sq, denom);
        let square = over_of::<A>(t.sum_sq, denom);
        let mean = (r.wide)(m.mean_abs_error);
        let ms = (r.wide)(square);
        let st = r.step;
        let total = (r.wide)(t.sum);
        let total_sq = (r.wide)(t.sum_sq);
        lemma_product_units(mean, k);
        lemma_product_units(ms, k);
        lemma_product_units(st, k);
        lemma_root_fits(ms, k, total_sq, st);
        lemma_root_rounds::<A>(r, square);
        let rms = (r.wide)(m.rms_error);
        let peak = (r.wide)(m.max_abs_error);
        let a = mean - 2real * st;
        lemma_twice(k, st);
        lemma_product_sum(mean, 2real * st, k);
        lemma_product_sum(ms, 2real * st, k);
        assert(product(k, a) <= e.sum);
        assert(e.sum_sq <= product(k, ms + 2real * st));
        assert(product(k, ms - 2real * st) <= e.sum_sq);
        lemma_spread(r, samples, n, a);
        if 0real <= a {
            lemma_product_order(a, product(k, a), e.sum);
            lemma_product_sum(k, a, a);
            lemma_product_cancel(k, product(a, a), ms + 2real * st);
        }
        lemma_within_spare(a, rms + st, spare, 2real * st);
        lemma_product_cancel(k, ms - 2real * st, product(peak, peak));
        lemma_within_spare(rms - st, peak, spare, 2real * st);
    } else {
        lemma_product_units(0real, r.step);
    }
}

/// Twice a number as a factor.
proof fn lemma_twice(k: real, x: real)
    ensures
        product(k, 2real * x) == 2real * product(k, x),
{
    lemma_product_sum(x, x, k);
    assert(x + x == 2real * x);
}

/// A mean of at least one number is no more than their sum, with a step.
proof fn lemma_root_fits(ms: real, k: real, total: real, st: real)
    requires
        1real <= k,
        0real <= st,
        size(product(ms, k) - total) <= product(st, k),
    ensures
        ms <= size(total) + st,
{
    if st <= ms {
        lemma_product_sum(ms, st, k);
        lemma_product_order(ms - st, 1real, k);
        lemma_product_units(ms - st, 1real);
    }
}

/// The mean of the differences times their number is, up to rounding, their sum, and the square of the
/// root mean square times their number the sum of their squares.
pub proof fn law_measures_are_near<A: Arithmetic>(
    r: Reading,
    samples: Seq<u32>,
    extent: Extent,
    channels: u32,
    threshold: u64,
)
    requires
        obeys::<A>(r),
        ordered(r),
        quotients_round::<A>(r),
        roots_round::<A>(r),
        counts_read::<A>(r, samples.len() as int),
        magnitudes(r, samples),
        totals_fit(r, samples, samples.len()),
        exact_totals(r, samples, samples.len()).count > 0 ==> 0real <= (r.wide)(
            over_of::<A>(
                totals_of::<A>(samples, samples.len()).sum_sq,
                tally_of::<A>(totals_of::<A>(samples, samples.len()).count as u64),
            ),
        ),
        exact_totals(r, samples, samples.len()).sum_sq + steps(
            r,
            exact_totals(r, samples, samples.len()).count,
        ) + r.step <= r.top,
    ensures
        ({
            let m = metrics_of::<A>(samples, extent, channels, threshold);
            let e = exact_totals(r, samples, samples.len());
            let k = e.count as real;
            let error = 2real * steps(r, e.count);
            let rms = (r.wide)(m.rms_error);
            &&& finite(m.mean_abs_error) && finite(m.rms_error)
            &&& e.count == 0 ==> (r.wide)(m.mean_abs_error) == 0real && rms == 0real
            &&& size(product((r.wide)(m.mean_abs_error), k) - e.sum) <= error
            &&& 0real <= rms
            &&& e.sum_sq <= product(k, product(rms + r.step, rms + r.step)) + error
            &&& r.step <= rms ==> product(k, product(rms - r.step, rms - r.step)) <= e.sum_sq + error
        }),
{
    let n = samples.len();
    let t = totals_of::<A>(samples, n);
    let e = exact_totals(r, samples, n);
    let m = metrics_of::<A>(samples, extent, channels, threshold);
    lemma_totals_near::<A>(r, samples, n);
    lemma_zero_reads::<A>(r);
    let k = e.count as real;
    if e.count > 0 {
        let denom = tally_of::<A>(t.count as u64);
        lemma_count_reads::<A>(r, n as int, t.count);
        lemma_steps_product(r, e.count);
        assert(1real <= k);
        lemma_product_order(r.top, 1real, k);
        lemma_product_units(r.top, 1real);
        lemma_product_units(r.step, k);
        lemma_over_rounds::<A>(r, t.sum, denom);
        lemma_over_rounds::<A>(r, t.sum_sq, denom);
        let square = over_of::<A>(t.sum_sq, denom);
        let ms = (r.wide)(square);
        lemma_product_units(ms, k);
        lemma_root_fits(ms, k, (r.wide)(t.sum_sq), r.step);
        lemma_root_rounds::<A>(r, square);
        let rms = (r.wide)(m.rms_error);
        lemma_product_order(k, ms, product(rms + r.step, rms + r.step));
        if r.step <= rms {
            lemma_product_order(k, product(rms - r.step, rms - r.step), ms);
        }
    } else {
        let rms = (r.wide)(m.rms_error);
        lemma_product_units(0real, 0real);
        lemma_product_units(rms, product(rms + r.step, rms + r.step));
        lemma_product_units(rms, product(rms - r.step, rms - r.step));
        lemma_no_totals(r, samples, n);
    }
}

/// Where no difference is finite, nothing adds up.
proof fn lemma_no_totals(r: Reading, samples: Seq<u32>, n: nat)
    ensures
        exact_totals(r, samples, n).count == 0 ==> exact_totals(r, samples, n).sum == 0real && exact_totals(
            r,
            samples,
            n,
        ).sum_sq == 0real,
    decreases n,
{
    if n > 0 {
        lemma_no_totals(r, samples, (n - 1) as nat);
    }
}

/// The greatest of the first differences is none other than one of them, or zero, and no finite one is
/// above it.
proof fn lemma_peak<A: Arithmetic>(r: Reading, samples: Seq<u32>, n: nat)
    requires
        obeys::<A>(r),
        ordered(r),
        n <= samples.len(),
    ensures
        ({
            let peak = totals_of::<A>(samples, n).peak;
            &&& finite(peak)
            &&& peak == ZERO || exists|i: int|
                0 <= i < n && sample_finite(#[trigger] samples[i]) && (r.wide)(peak) == (r.small)(samples[i])
            &&& forall|i: int|
                0 <= i < n && sample_finite(#[trigger] samples[i]) ==> (r.small)(samples[i]) <= (r.wide)(peak)
        }),
    decreases n,
{
    lemma_zero_reads::<A>(r);
    if n > 0 {
        lemma_peak::<A>(r, samples, (n - 1) as nat);
        let s = samples[n - 1];
        if sample_finite(s) {
            lemma_widen_reads::<A>(r, s);
            let before = totals_of::<A>(samples, (n - 1) as nat).peak;
            let abs = widen_of::<A>(s);
            assert(!nan(abs) && !nan(before));
            assert(rank(before) <= rank(abs) || rank(abs) <= rank(before));
        }
    }
}

/// The greatest difference is one of the finite differences, or zero, and none of them is above it.
pub proof fn law_greatest_is_attained<A: Arithmetic>(
    r: Reading,
    samples: Seq<u32>,
    extent: Extent,
    channels: u32,
    threshold: u64,
)
    requires
        obeys::<A>(r),
        ordered(r),
    ensures
        ({
            let greatest = metrics_of::<A>(samples, extent, channels, threshold).max_abs_error;
            &&& (r.wide)(greatest) == 0real || exists|i: int|
                0 <= i < samples.len() && sample_finite(#[trigger] samples[i]) && (r.wide)(greatest) == (r.small)(
                    samples[i],
                )
            &&& forall|i: int|
                0 <= i < samples.len() && sample_finite(#[trigger] samples[i]) ==> (r.small)(samples[i]) <= (r.wide)(
                    greatest,
                )
        }),
{
    lemma_peak::<A>(r, samples, samples.len());
    lemma_zero_reads::<A>(r);
}

} // verus!
