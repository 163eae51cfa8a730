//! What is counted: the pixels that changed by more than a threshold, and the bands that changed by more than a
//! tolerance.
use crate::arithmetic::{widen_of, Arithmetic};
use crate::binary::{at_most, finite, less, nan, sample_finite, ZERO};
use crate::diff::{changed, changed_count_of, exceeds, law_bounds_are_tight, metrics_of};
use crate::frequency_preserved::{
    delta_of, law_worst_is_greatest, outcome_of, shared_bands, violations_of, worst_of,
};
use crate::ir::Extent;
use crate::lattice::{at, lemma_at_bounds, lemma_at_inverse};
use crate::report::AssertionSeverity;
use crate::rounding::{lemma_order_reads, lemma_widen_reads, obeys, orders_read, Reading};
use vstd::prelude::*;

verus! {

/// The first `n` pixels of which a channel differs by more than the threshold.
pub open spec fn changed_pixels(r: Reading, samples: Seq<u32>, channels: int, threshold: u64, n: nat) -> Set<int> {
    Set::new(
        |p: int|
            0 <= p < n && exists|c: int|
                0 <= c < channels && sample_finite(#[trigger] samples[p * channels + c]) && (r.wide)(threshold)
                    < (r.small)(samples[p * channels + c]),
    )
}

/// A pixel changed where a finite difference of one of its channels is above the threshold, and nowhere else.
pub proof fn law_pixel_changes_above_threshold<A: Arithmetic>(
    r: Reading,
    samples: Seq<u32>,
    channels: int,
    threshold: u64,
    p: int,
)
    requires
        obeys::<A>(r),
        orders_read(r),
        finite(threshold),
    ensures
        changed::<A>(samples, channels, threshold, p) <==> exists|c: int|
            0 <= c < channels && sample_finite(#[trigger] samples[p * channels + c]) && (r.wide)(threshold) < (r.small)(
                samples[p * channels + c],
            ),
{
    assert forall|c: int| 0 <= c < channels implies (exceeds::<A>(samples[#[trigger] at(c, p, channels)], threshold)
        <==> sample_finite(samples[p * channels + c]) && (r.wide)(threshold) < (r.small)(
        samples[p * channels + c],
    )) by {
        let s = samples[at(c, p, channels)];
        if sample_finite(s) {
            lemma_widen_reads::<A>(r, s);
            lemma_order_reads(r, widen_of::<A>(s), threshold);
            assert(!nan(threshold) && !nan(widen_of::<A>(s)));
        }
    }
    if changed::<A>(samples, channels, threshold, p) {
        let c = choose|c: int| 0 <= c < channels && exceeds::<A>(samples[#[trigger] at(c, p, channels)], threshold);
        assert(sample_finite(samples[p * channels + c]));
    }
    if exists|c: int|
        0 <= c < channels && sample_finite(#[trigger] samples[p * channels + c]) && (r.wide)(threshold) < (r.small)(
            samples[p * channels + c],
        ) {
        let c = choose|c: int|
            0 <= c < channels && sample_finite(#[trigger] samples[p * channels + c]) && (r.wide)(threshold)
                < (r.small)(samples[p * channels + c]);
        assert(exceeds::<A>(samples[at(c, p, channels)], threshold));
    }
}

/// The count of the first pixels that changed.
proof fn lemma_changed_count<A: Arithmetic>(r: Reading, samples: Seq<u32>, channels: int, threshold: u64, n: nat)
    requires
        obeys::<A>(r),
        orders_read(r),
        finite(threshold),
    ensures
        changed_pixels(r, samples, channels, threshold, n).finite(),
        changed_count_of::<A>(samples, channels, threshold, n) == changed_pixels(
            r,
            samples,
            channels,
            threshold,
            n,
        ).len(),
        changed_count_of::<A>(samples, channels, threshold, n) <= n,
    decreases n,
{
    let all = changed_pixels(r, samples, channels, threshold, n);
    if n == 0 {
        assert(all =~= Set::empty());
    } else {
        let m = (n - 1) as nat;
        let before = changed_pixels(r, samples, channels, threshold, m);
        lemma_changed_count::<A>(r, samples, channels, threshold, m);
        law_pixel_changes_above_threshold::<A>(r, samples, channels, threshold, n - 1);
        if changed::<A>(samples, channels, threshold, n - 1) {
            assert(all =~= before.insert(n - 1));
        } else {
            assert(all =~= before);
        }
    }
}

/// The number of changed pixels that is reported is how many pixels have a finite difference above the
/// threshold.
pub proof fn law_changed_pixels_are_counted<A: Arithmetic>(
    r: Reading,
    samples: Seq<u32>,
    extent: Extent,
    channels: u32,
    threshold: u64,
)
    requires
        obeys::<A>(r),
        orders_read(r),
        finite(threshold),
        1 <= channels,
        extent.width * extent.height <= u64::MAX,
    ensures
        metrics_of::<A>(samples, extent, channels, threshold).changed_count == changed_pixels(
            r,
            samples,
            channels as int,
            threshold,
            (extent.width * extent.height) as nat,
        ).len(),
        metrics_of::<A>(samples, extent, channels, threshold).threshold == threshold,
{
    let n = (extent.width * extent.height) as nat;
    assert(0 <= extent.width * extent.height) by (nonlinear_arith)
        requires
            0 <= extent.width,
            0 <= extent.height,
    ;
    lemma_changed_count::<A>(r, samples, channels as int, threshold, n);
}

/// The first `n` bands that changed by more than the tolerance.
pub open spec fn violating_bands<A: Arithmetic>(
    r: Reading,
    before: Seq<u64>,
    after: Seq<u64>,
    tolerance: u64,
    n: nat,
) -> Set<int> {
    Set::new(
        |b: int| 0 <= b < n && (r.wide)(tolerance) < (r.wide)(delta_of::<A>(before[b], after[b])),
    )
}

/// The count of the first bands that changed by more than the tolerance.
proof fn lemma_violations<A: Arithmetic>(
    r: Reading,
    before: Seq<u64>,
    after: Seq<u64>,
    tolerance: u64,
    n: nat,
)
    requires
        orders_read(r),
        finite(tolerance),
        forall|b: int| 0 <= b < n ==> finite(#[trigger] delta_of::<A>(before[b], after[b])),
    ensures
        violating_bands::<A>(r, before, after, tolerance, n).finite(),
        violations_of::<A>(before, after, tolerance, n) == violating_bands::<A>(r, before, after, tolerance, n).len(),
        violations_of::<A>(before, after, tolerance, n) <= n,
    decreases n,
{
    let all = violating_bands::<A>(r, before, after, tolerance, n);
    if n == 0 {
        assert(all =~= Set::empty());
    } else {
        let m = (n - 1) as nat;
        let prior = violating_bands::<A>(r, before, after, tolerance, m);
        lemma_violations::<A>(r, before, after, tolerance, m);
        let delta = delta_of::<A>(before[n - 1], after[n - 1]);
        assert(finite(delta));
        lemma_order_reads(r, delta, tolerance);
        assert(!nan(delta) && !nan(tolerance));
        if less(tolerance, delta) {
            assert(all =~= prior.insert(n - 1));
        } else {
            assert(all =~= prior);
        }
    }
}

/// A failed check reports how many of the bands that both measurements have changed by more than the
/// tolerance.
pub proof fn law_violating_bands_are_counted<A: Arithmetic>(
    r: Reading,
    before: Seq<u64>,
    after: Seq<u64>,
    tolerance: u64,
    severity: AssertionSeverity,
)
    requires
        orders_read(r),
        finite(tolerance),
        before.len() == after.len(),
        before.len() <= u64::MAX,
        forall|b: int| 0 <= b < before.len() ==> finite(#[trigger] delta_of::<A>(before[b], after[b])),
    ensures
        outcome_of::<A>(before, after, tolerance, severity).violations matches Some(count) ==> count
            == violating_bands::<A>(r, before, after, tolerance, before.len()).len(),
{
    assert(shared_bands(before, after) == before.len());
    lemma_violations::<A>(r, before, after, tolerance, before.len());
}

/// The bounds that are reported hold the place of every pixel with a finite difference above the threshold, and
/// are there exactly where there is such a pixel.
pub proof fn law_reported_bounds_hold_the_changes<A: Arithmetic>(
    r: Reading,
    samples: Seq<u32>,
    extent: Extent,
    channels: u32,
    threshold: u64,
    x: int,
    y: int,
    c: int,
)
    requires
        obeys::<A>(r),
        orders_read(r),
        finite(threshold),
        0 <= x < extent.width,
        0 <= y < extent.height,
        0 <= c < channels,
        sample_finite(samples[(y * extent.width + x) * channels + c]),
        (r.wide)(threshold) < (r.small)(samples[(y * extent.width + x) * channels + c]),
    ensures
        metrics_of::<A>(samples, extent, channels, threshold).changed_bounds matches Some(bounds) && bounds.covers(x, y),
{
    let w = extent.width as int;
    let h = extent.height as int;
    let p = at(x, y, w);
    lemma_at_bounds(x, y, w, h);
    lemma_at_inverse(x, y, w);
    law_pixel_changes_above_threshold::<A>(r, samples, channels as int, threshold, p);
    assert(sample_finite(samples[p * channels + c]));
    assert(changed::<A>(samples, channels as int, threshold, p));
    assert(w * h <= w * u32::MAX) by (nonlinear_arith)
        requires
            0 <= w,
            h <= u32::MAX,
    ;
    law_bounds_are_tight::<A>(samples, channels as int, threshold, w, (w * h) as nat);
}

/// A failed check names the band that changed most and by how much: no band that both measurements have changed
/// more.
pub proof fn law_worst_band_is_named<A: Arithmetic>(
    before: Seq<u64>,
    after: Seq<u64>,
    tolerance: u64,
    severity: AssertionSeverity,
    band: int,
    other: int,
)
    requires
        at_most(ZERO, tolerance),
        before.len() == after.len(),
        before.len() <= i64::MAX,
        0 <= other < before.len(),
        outcome_of::<A>(before, after, tolerance, severity).worst_pixel matches Some(place) && place.0 == band,
    ensures
        ({
            let outcome = outcome_of::<A>(before, after, tolerance, severity);
            &&& !outcome.passed
            &&& outcome.worst_pixel->Some_0.1 == 0
            &&& 0 <= band < before.len()
            &&& outcome.worst_value == Some(delta_of::<A>(before[band], after[band]))
            &&& !less(delta_of::<A>(before[band], after[band]), delta_of::<A>(before[other], after[other]))
        }),
{
    let n = before.len();
    assert(shared_bands(before, after) == n);
    law_worst_is_greatest::<A>(before, after, n);
    let worst = worst_of::<A>(before, after, n);
    assert(delta_of::<A>(before[other], after[other]) == delta_of::<A>(before[other], after[other]));
    assert(worst != (0int, ZERO));
}

} // verus!
