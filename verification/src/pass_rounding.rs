//! What the steps of a pyramid do with pixels: smoothing adds up the weighted neighbours of a pixel along its
//! row and then along its column, up to rounding, reduction keeps every second pixel, expansion repeats
//! pixels, and a band holds what a level has over its coarser neighbour.
use crate::arithmetic::{minus_of, narrow_of, widen_of, Arithmetic};
use crate::binary::{finite, sample_finite};
use crate::frequency::{
    axis_sum, band_of, expanded, reduced, smoothed, smoothed_axis, tap_index, tap_source, taps_of,
};
use crate::gaussian_blur::radius_of;
use crate::ir::{child_extent, smaller, Extent, PyramidPhase};
use crate::lattice::{lemma_raster_sample, lemma_sample_at, lemma_sample_of, sample_at};
use crate::rounding::{
    lemma_minus_rounds, lemma_narrow_rounds, lemma_widen_reads, obeys, product, size, sum, Reading,
};
use crate::rounding_laws::{
    law_weighted_sum_is_near, lemma_load_bound, numbers_finite, samples_within, steps, term, weight,
};
use crate::smoothing_laws::lemma_axis_is_weighted;
use crate::smoothing_rounding::lemma_sum_same;
use vstd::prelude::*;

verus! {

/// The index nearest to a coordinate on an axis of `n` samples.
pub open spec fn nearest(coord: int, n: int) -> int {
    if coord < 0 {
        0
    } else if coord < n {
        coord
    } else {
        n - 1
    }
}

/// The exact sum of the neighbours of a pixel in its row, each times its weight; neighbours off the plane are
/// those nearest on it.
pub open spec fn row_sum(
    r: Reading,
    plane: Seq<u32>,
    w: int,
    c: int,
    taps: Seq<u64>,
    radius: int,
    x: int,
    y: int,
    ch: int,
) -> real {
    sum(
        |k: int|
            product((r.wide)(taps[k]), (r.small)(plane[(y * w + nearest(x + k - radius, w)) * c + ch])),
        taps.len(),
    )
}

/// The exact sum of the neighbours of a pixel in its column, each times its weight; neighbours off the plane
/// are those nearest on it.
pub open spec fn column_sum(
    r: Reading,
    plane: Seq<u32>,
    w: int,
    h: int,
    c: int,
    taps: Seq<u64>,
    radius: int,
    x: int,
    y: int,
    ch: int,
) -> real {
    sum(
        |k: int|
            product((r.wide)(taps[k]), (r.small)(plane[(nearest(y + k - radius, h) * w + x) * c + ch])),
        taps.len(),
    )
}

/// Nothing that a pass over samples within a bound adds up gets too large for its rounding to be bounded.
pub open spec fn pass_adds_up(r: Reading, taps: Seq<u64>, bound: real) -> bool {
    &&& numbers_finite(taps)
    &&& 0real <= bound
    &&& product(weight(r, taps, taps.len()), bound) + steps(r, taps.len()) <= r.top
}

/// A pass is the exact sum of the weighted neighbours along its axis, up to a step for each and a storing
/// step.
pub proof fn law_pass_adds_up_neighbours<A: Arithmetic>(
    r: Reading,
    plane: Seq<u32>,
    w: int,
    h: int,
    c: int,
    taps: Seq<u64>,
    radius: int,
    x: int,
    y: int,
    ch: int,
    bound: real,
)
    requires
        obeys::<A>(r),
        0 <= x < w,
        0 <= y < h,
        0 <= ch < c,
        plane.len() == w * h * c,
        samples_within(r, plane, bound),
        pass_adds_up(r, taps, bound),
    ensures
        ({
            let along = smoothed_axis::<A>(plane, w, h, c, taps, radius, true);
            let down = smoothed_axis::<A>(plane, w, h, c, taps, radius, false);
            let place = (y * w + x) * c + ch;
            &&& along.len() == w * h * c && down.len() == w * h * c
            &&& 0 <= place < w * h * c
            &&& sample_finite(along[place]) && sample_finite(down[place])
            &&& size((r.small)(along[place]) - row_sum(r, plane, w, c, taps, radius, x, y, ch)) <= steps(
                r,
                taps.len(),
            ) + r.store
            &&& size((r.small)(down[place]) - column_sum(r, plane, w, h, c, taps, radius, x, y, ch)) <= steps(
                r,
                taps.len(),
            ) + r.store
        }),
{
    lemma_pass::<A>(r, plane, w, h, c, taps, radius, true, x, y, ch, bound);
    lemma_pass::<A>(r, plane, w, h, c, taps, radius, false, x, y, ch, bound);
    let n = taps.len();
    lemma_sample_at(x, y, ch, w, h, c);
    assert(sample_at(x, y, ch, w, c) == (y * w + x) * c + ch);
    let f = |k: int|
        product(
            (r.wide)(taps[k]),
            (r.small)(plane[tap_source(w, h, c, radius, true, x, y, ch, k)]),
        );
    let g = |k: int|
        product((r.wide)(taps[k]), (r.small)(plane[(y * w + nearest(x + k - radius, w)) * c + ch]));
    assert forall|k: int| 0 <= k < n implies #[trigger] f(k) == g(k) by {
        assert(tap_source(w, h, c, radius, true, x, y, ch, k) == (y * w + nearest(x + k - radius, w)) * c + ch);
    }
    lemma_sum_same(f, g, n);
    let f = |k: int|
        product(
            (r.wide)(taps[k]),
            (r.small)(plane[tap_source(w, h, c, radius, false, x, y, ch, k)]),
        );
    let g = |k: int|
        product((r.wide)(taps[k]), (r.small)(plane[(nearest(y + k - radius, h) * w + x) * c + ch]));
    assert forall|k: int| 0 <= k < n implies #[trigger] f(k) == g(k) by {
        assert(tap_source(w, h, c, radius, false, x, y, ch, k) == (nearest(y + k - radius, h) * w + x) * c + ch);
    }
    lemma_sum_same(f, g, n);
}

/// One sample of a pass is near the exact sum of what its taps read.
proof fn lemma_pass<A: Arithmetic>(
    r: Reading,
    plane: Seq<u32>,
    w: int,
    h: int,
    c: int,
    taps: Seq<u64>,
    radius: int,
    horizontal: bool,
    x: int,
    y: int,
    ch: int,
    bound: real,
)
    requires
        obeys::<A>(r),
        0 <= x < w,
        0 <= y < h,
        0 <= ch < c,
        plane.len() == w * h * c,
        samples_within(r, plane, bound),
        pass_adds_up(r, taps, bound),
    ensures
        ({
            let out = smoothed_axis::<A>(plane, w, h, c, taps, radius, horizontal);
            let s = out[sample_at(x, y, ch, w, c)];
            let exact = sum(
                |k: int|
                    product(
                        (r.wide)(taps[k]),
                        (r.small)(plane[tap_source(w, h, c, radius, horizontal, x, y, ch, k)]),
                    ),
                taps.len(),
            );
            &&& out.len() == w * h * c
            &&& sample_finite(s)
            &&& size((r.small)(s) - exact) <= steps(r, taps.len()) + r.store
        }),
{
    let n = taps.len();
    let reads = |t: int| widen_of::<A>(plane[tap_source(w, h, c, radius, horizontal, x, y, ch, t)]);
    let f = |x: int, y: int, ch: int|
        narrow_of::<A>(axis_sum::<A>(plane, w, h, c, taps, radius, horizontal, x, y, ch, taps.len()));
    lemma_raster_sample(w, h, c, f, x, y, ch);
    lemma_axis_is_weighted::<A>(plane, w, h, c, taps, radius, horizontal, x, y, ch, n);
    assert forall|t: int| 0 <= t < n implies finite(#[trigger] reads(t)) && (r.wide)(reads(t)) == (r.small)(
        plane[tap_source(w, h, c, radius, horizontal, x, y, ch, t)],
    ) && size((r.wide)(reads(t))) <= bound by {
        if horizontal {
            lemma_sample_at(tap_index(x, t, radius, w), y, ch, w, h, c);
        } else {
            lemma_sample_at(x, tap_index(y, t, radius, h), ch, w, h, c);
        }
        let place = tap_source(w, h, c, radius, horizontal, x, y, ch, t);
        assert(sample_finite(plane[place]));
        lemma_widen_reads::<A>(r, plane[place]);
    }
    lemma_load_bound(r, taps, reads, n, bound);
    law_weighted_sum_is_near::<A>(r, taps, reads, n);
    lemma_narrow_rounds::<A>(r, axis_sum::<A>(plane, w, h, c, taps, radius, horizontal, x, y, ch, n));
    let g = |k: int|
        product(
            (r.wide)(taps[k]),
            (r.small)(plane[tap_source(w, h, c, radius, horizontal, x, y, ch, k)]),
        );
    let e = |i: int| term(r, taps, reads, i);
    assert forall|k: int| 0 <= k < n implies #[trigger] e(k) == g(k) by {
        assert(finite(reads(k)));
    }
    lemma_sum_same(e, g, n);
}

/// Smoothing passes over the rows first and over the columns of what that gives next, both times with the
/// taps of its standard deviation; a radius of zero leaves everything as it is.
pub proof fn law_smoothing_passes_both_ways<A: Arithmetic>(
    r: Reading,
    plane: Seq<u32>,
    extent: Extent,
    channels: u32,
    sigma: u64,
    x: int,
    y: int,
    ch: int,
    bound: real,
    middle_bound: real,
) -> (middle: Seq<u32>)
    requires
        obeys::<A>(r),
        0 <= x < extent.width,
        0 <= y < extent.height,
        0 <= ch < channels,
        plane.len() == extent.width * extent.height * channels,
        samples_within(r, plane, bound),
        pass_adds_up(r, taps_of::<A>(sigma), bound),
        pass_adds_up(r, taps_of::<A>(sigma), middle_bound),
        product(weight(r, taps_of::<A>(sigma), taps_of::<A>(sigma).len()), bound) + steps(
            r,
            taps_of::<A>(sigma).len(),
        ) + r.store <= middle_bound,
    ensures
        ({
            let w = extent.width as int;
            let h = extent.height as int;
            let c = channels as int;
            let taps = taps_of::<A>(sigma);
            let radius = radius_of::<A>(sigma);
            let out = smoothed::<A>(plane, extent, channels, sigma);
            let place = (y * w + x) * c + ch;
            let error = steps(r, taps.len()) + r.store;
            &&& radius == 0 ==> out == plane
            &&& radius > 0 ==> {
                &&& middle.len() == plane.len()
                &&& forall|px: int, py: int, pc: int|
                    0 <= px < w && 0 <= py < h && 0 <= pc < c ==> size(
                        (r.small)(middle[(py * w + px) * c + pc]) - #[trigger] row_sum(
                            r,
                            plane,
                            w,
                            c,
                            taps,
                            radius,
                            px,
                            py,
                            pc,
                        ),
                    ) <= error
                &&& size((r.small)(out[place]) - column_sum(r, middle, w, h, c, taps, radius, x, y, ch)) <= error
            }
        }),
{
    let w = extent.width as int;
    let h = extent.height as int;
    let c = channels as int;
    let taps = taps_of::<A>(sigma);
    let radius = radius_of::<A>(sigma);
    let middle = smoothed_axis::<A>(plane, w, h, c, taps, radius, true);
    if radius > 0 {
        assert forall|px: int, py: int, pc: int| 0 <= px < w && 0 <= py < h && 0 <= pc < c implies size(
            (r.small)(middle[(py * w + px) * c + pc]) - #[trigger] row_sum(r, plane, w, c, taps, radius, px, py, pc),
        ) <= steps(r, taps.len()) + r.store by {
            law_pass_adds_up_neighbours::<A>(r, plane, w, h, c, taps, radius, px, py, pc, bound);
        }
        law_pass_adds_up_neighbours::<A>(r, plane, w, h, c, taps, radius, x, y, ch, bound);
        lemma_middle_within::<A>(r, plane, w, h, c, taps, radius, bound, middle_bound);
        law_pass_adds_up_neighbours::<A>(r, middle, w, h, c, taps, radius, x, y, ch, middle_bound);
    }
    middle
}

/// What a pass over the rows gives is within a bound.
proof fn lemma_middle_within<A: Arithmetic>(
    r: Reading,
    plane: Seq<u32>,
    w: int,
    h: int,
    c: int,
    taps: Seq<u64>,
    radius: int,
    bound: real,
    middle_bound: real,
)
    requires
        obeys::<A>(r),
        0 < w,
        0 < h,
        0 < c,
        plane.len() == w * h * c,
        samples_within(r, plane, bound),
        pass_adds_up(r, taps, bound),
        product(weight(r, taps, taps.len()), bound) + steps(r, taps.len()) + r.store <= middle_bound,
    ensures
        samples_within(r, smoothed_axis::<A>(plane, w, h, c, taps, radius, true), middle_bound),
{
    let out = smoothed_axis::<A>(plane, w, h, c, taps, radius, true);
    let n = taps.len();
    assert forall|i: int| 0 <= i < out.len() implies sample_finite(#[trigger] out[i]) && size((r.small)(out[i]))
        <= middle_bound by {
        lemma_sample_of(i, w, h, c);
        let x = (i / c) % w;
        let y = (i / c) / w;
        let ch = i % c;
        let reads = |t: int| widen_of::<A>(plane[tap_source(w, h, c, radius, true, x, y, ch, t)]);
        assert forall|t: int| 0 <= t < n implies finite(#[trigger] reads(t)) && size((r.wide)(reads(t))) <= bound by {
            lemma_sample_at(tap_index(x, t, radius, w), y, ch, w, h, c);
            let place = tap_source(w, h, c, radius, true, x, y, ch, t);
            assert(sample_finite(plane[place]));
            lemma_widen_reads::<A>(r, plane[place]);
        }
        lemma_axis_is_weighted::<A>(plane, w, h, c, taps, radius, true, x, y, ch, n);
        lemma_load_bound(r, taps, reads, n, bound);
        law_weighted_sum_is_near::<A>(r, taps, reads, n);
        lemma_narrow_rounds::<A>(r, axis_sum::<A>(plane, w, h, c, taps, radius, true, x, y, ch, n));
    }
}

/// A level's axes are half as long as those of the level above: an odd length loses its last pixel where the
/// phase rounds down, and keeps it where the phase rounds up. A single pixel stays.
pub proof fn law_levels_halve(parent: Extent, phase: PyramidPhase)
    ensures
        ({
            let child = child_extent(parent, phase);
            let round_up = phase == PyramidPhase::Ceil;
            &&& parent.width <= 1 ==> child.width == parent.width
            &&& parent.height <= 1 ==> child.height == parent.height
            &&& parent.width > 1 && round_up ==> parent.width <= 2 * child.width <= parent.width + 1
            &&& parent.height > 1 && round_up ==> parent.height <= 2 * child.height <= parent.height + 1
            &&& parent.width > 1 && !round_up ==> parent.width - 1 <= 2 * child.width <= parent.width
            &&& parent.height > 1 && !round_up ==> parent.height - 1 <= 2 * child.height <= parent.height
        }),
{
}

/// Reduction smooths and keeps every second pixel of every second row, each channel apart.
pub proof fn law_reduction_keeps_every_second<A: Arithmetic>(
    plane: Seq<u32>,
    parent: Extent,
    channels: u32,
    sigma: u64,
    phase: PyramidPhase,
    x: int,
    y: int,
    ch: int,
)
    requires
        0 <= x < child_extent(parent, phase).width,
        0 <= y < child_extent(parent, phase).height,
        2 * x < parent.width,
        2 * y < parent.height,
        0 <= ch < channels,
    ensures
        ({
            let fine = smoothed::<A>(plane, parent, channels, sigma);
            let coarse = reduced::<A>(plane, parent, channels, sigma, phase);
            let cw = child_extent(parent, phase).width as int;
            let c = channels as int;
            coarse[(y * cw + x) * c + ch] == fine[(2 * y * parent.width + 2 * x) * c + ch]
        }),
{
    let child = child_extent(parent, phase);
    let source = smoothed::<A>(plane, parent, channels, sigma);
    let f = |x: int, y: int, ch: int|
        source[sample_at(
            smaller(2 * x, parent.width - 1),
            smaller(2 * y, parent.height - 1),
            ch,
            parent.width as int,
            channels as int,
        )];
    lemma_raster_sample(child.width as int, child.height as int, channels as int, f, x, y, ch);
    assert(sample_at(x, y, ch, child.width as int, channels as int) == (y * child.width + x) * channels + ch);
    assert(sample_at(2 * x, 2 * y, ch, parent.width as int, channels as int) == (2 * y * parent.width + 2 * x)
        * channels + ch);
}

/// Expansion repeats: the pixels at twice a pixel's place, and one to the right and below, are that pixel.
pub proof fn law_expansion_repeats_pixels(
    plane: Seq<u32>,
    child: Extent,
    parent: Extent,
    channels: u32,
    x: int,
    y: int,
    dx: int,
    dy: int,
    ch: int,
)
    requires
        0 <= x < child.width,
        0 <= y < child.height,
        0 <= dx <= 1,
        0 <= dy <= 1,
        2 * x + dx < parent.width,
        2 * y + dy < parent.height,
        0 <= ch < channels,
    ensures
        ({
            let c = channels as int;
            expanded(plane, child, parent, channels)[((2 * y + dy) * parent.width + (2 * x + dx)) * c + ch]
                == plane[(y * child.width + x) * c + ch]
        }),
{
    let f = |x: int, y: int, ch: int|
        plane[sample_at(
            smaller(x / 2, child.width - 1),
            smaller(y / 2, child.height - 1),
            ch,
            child.width as int,
            channels as int,
        )];
    let px = 2 * x + dx;
    let py = 2 * y + dy;
    lemma_raster_sample(parent.width as int, parent.height as int, channels as int, f, px, py, ch);
    assert(px / 2 == x && py / 2 == y);
    assert(sample_at(px, py, ch, parent.width as int, channels as int) == (py * parent.width + px) * channels + ch);
    assert(sample_at(x, y, ch, child.width as int, channels as int) == (y * child.width + x) * channels + ch);
}

/// A sample of a band is, up to rounding, what the level's sample is above the one of the coarser level
/// expanded; the coarsest band is the coarsest level.
pub proof fn law_band_is_nearly_the_difference<A: Arithmetic>(
    r: Reading,
    levels: Seq<Seq<u32>>,
    extents: Seq<Extent>,
    channels: u32,
    l: int,
    i: int,
)
    requires
        obeys::<A>(r),
        0 <= l < extents.len(),
        0 <= i < levels[l].len(),
        l + 1 < extents.len() ==> {
            let coarser = expanded(levels[l + 1], extents[l + 1], extents[l], channels);
            &&& i < coarser.len()
            &&& sample_finite(levels[l][i])
            &&& sample_finite(coarser[i])
            &&& size((r.small)(levels[l][i]) - (r.small)(coarser[i])) + r.step <= r.top
        },
    ensures
        l + 1 == extents.len() ==> band_of::<A>(levels, extents, channels, l) == levels[l],
        l + 1 < extents.len() ==> {
            let coarser = expanded(levels[l + 1], extents[l + 1], extents[l], channels);
            let band = band_of::<A>(levels, extents, channels, l);
            &&& i < band.len()
            &&& sample_finite(band[i])
            &&& size((r.small)(band[i]) - ((r.small)(levels[l][i]) - (r.small)(coarser[i]))) <= r.step + r.store
        },
{
    if l + 1 < extents.len() {
        let coarser = expanded(levels[l + 1], extents[l + 1], extents[l], channels);
        let a = widen_of::<A>(levels[l][i]);
        let b = widen_of::<A>(coarser[i]);
        lemma_widen_reads::<A>(r, levels[l][i]);
        lemma_widen_reads::<A>(r, coarser[i]);
        lemma_minus_rounds::<A>(r, a, b);
        lemma_narrow_rounds::<A>(r, minus_of::<A>(a, b));
    }
}

} // verus!
