//! What a pyramid is made of: a constant plane has constant levels and empty bands, and no channel
//! has a part in another.
use crate::arithmetic::{minus_of, narrow_of, plus_of, widen_of, Arithmetic};
use crate::binary::{SAMPLE_ZERO, ZERO};
use crate::exact::{lemma_minus, lemma_units, plain, unrounded};
use crate::frequency::{
    axis_sum, band_of, expanded, lemma_child_extent, reduced, restores, smoothed, smoothed_axis,
    taps_of,
};
use crate::frequency_energy::{
    energy_of, halved_sum, law_energy_is_of_the_band, measured, squares_of, straight_sum,
    Decomposition, FrequencyEnergyParams,
};
use crate::gaussian_blur::radius_of;
use crate::gaussian_pyramid::{gaussian_level, gaussian_stack, stack_extents, PyramidParams};
use crate::ir::{child_extent, level_extent, smaller, Extent, PyramidPhase};
use crate::lattice::{lemma_raster_sample, lemma_sample_at, lemma_sample_of, sample_at};
use crate::smoothing_laws::{flat, law_smoothing_keeps_a_constant, line_plain};
use vstd::prelude::*;

verus! {

/// A plane of equal samples of a size.
pub open spec fn flat_plane(extent: Extent, channels: u32, s: u32) -> Seq<u32> {
    flat(extent.width as int, extent.height as int, channels as int, s)
}

/// The sample can be taken wide and back, and is smoothed without rounding.
pub open spec fn keepable<A: Arithmetic>(s: u32, sigma: u64) -> bool {
    &&& unrounded::<A>()
    &&& line_plain::<A>(sigma)
    &&& plain::<A>(widen_of::<A>(s))
    &&& narrow_of::<A>(widen_of::<A>(s)) == s
}

/// Reducing a constant plane gives a constant plane.
proof fn lemma_reduced_flat<A: Arithmetic>(parent: Extent, channels: u32, sigma: u64, phase: PyramidPhase, s: u32)
    requires
        keepable::<A>(s, sigma),
    ensures
        reduced::<A>(flat_plane(parent, channels, s), parent, channels, sigma, phase) == flat_plane(
            child_extent(parent, phase),
            channels,
            s,
        ),
{
    let child = child_extent(parent, phase);
    let source = flat_plane(parent, channels, s);
    let out = reduced::<A>(source, parent, channels, sigma, phase);
    law_smoothing_keeps_a_constant::<A>(parent, channels, sigma, s);
    lemma_child_extent(parent, phase);
    assert forall|i: int| 0 <= i < out.len() implies out[i] == s by {
        lemma_sample_of(i, child.width as int, child.height as int, channels as int);
        let c = channels as int;
        let x = (i / c) % (child.width as int);
        let y = (i / c) / (child.width as int);
        let px = smaller(2 * x, parent.width - 1);
        let py = smaller(2 * y, parent.height - 1);
        lemma_sample_at(px, py, i % c, parent.width as int, parent.height as int, c);
    }
}

/// Every level of the pyramid of a constant plane is constant.
pub proof fn law_constant_levels<A: Arithmetic>(extent: Extent, channels: u32, params: PyramidParams, s: u32, l: nat)
    requires
        keepable::<A>(s, params.sigma),
    ensures
        gaussian_level::<A>(flat_plane(extent, channels, s), extent, channels, params, l) == flat_plane(
            level_extent(extent, params.phase, l),
            channels,
            s,
        ),
    decreases l,
{
    if l > 0 {
        let prior = (l - 1) as nat;
        law_constant_levels::<A>(extent, channels, params, s, prior);
        lemma_reduced_flat::<A>(
            level_extent(extent, params.phase, prior),
            channels,
            params.sigma,
            params.phase,
            s,
        );
    }
}

/// Expanding a constant plane gives a constant plane.
proof fn lemma_expanded_flat(parent: Extent, phase: PyramidPhase, channels: u32, s: u32)
    ensures
        expanded(
            flat_plane(child_extent(parent, phase), channels, s),
            child_extent(parent, phase),
            parent,
            channels,
        ) == flat_plane(parent, channels, s),
{
    let child = child_extent(parent, phase);
    let out = expanded(flat_plane(child, channels, s), child, parent, channels);
    lemma_child_extent(parent, phase);
    assert forall|i: int| 0 <= i < out.len() implies out[i] == s by {
        lemma_sample_of(i, parent.width as int, parent.height as int, channels as int);
        let c = channels as int;
        let x = (i / c) % (parent.width as int);
        let y = (i / c) / (parent.width as int);
        let px = smaller(x / 2, child.width - 1);
        let py = smaller(y / 2, child.height - 1);
        lemma_sample_at(px, py, i % c, child.width as int, child.height as int, c);
    }
}

/// Every band of a constant plane but the coarsest is zero; the coarsest is the constant.
pub proof fn law_constant_bands_vanish<A: Arithmetic>(extent: Extent, channels: u32, params: PyramidParams, s: u32, l: int)
    requires
        keepable::<A>(s, params.sigma),
        narrow_of::<A>(ZERO) == SAMPLE_ZERO,
        0 <= l < params.levels,
    ensures
        band_of::<A>(
            gaussian_stack::<A>(flat_plane(extent, channels, s), extent, channels, params),
            stack_extents(extent, params),
            channels,
            l,
        ) == flat_plane(
            level_extent(extent, params.phase, l as nat),
            channels,
            if l + 1 < params.levels {
                SAMPLE_ZERO
            } else {
                s
            },
        ),
{
    let here = level_extent(extent, params.phase, l as nat);
    law_constant_levels::<A>(extent, channels, params, s, l as nat);
    if l + 1 < params.levels {
        law_constant_levels::<A>(extent, channels, params, s, (l + 1) as nat);
        lemma_expanded_flat(here, params.phase, channels, s);
        lemma_units::<A>(widen_of::<A>(s));
    }
}

/// Zeros add up to zero, however they are taken together.
proof fn lemma_zeros_add_up<A: Arithmetic>(values: Seq<u64>)
    requires
        plus_of::<A>(ZERO, ZERO) == ZERO,
        forall|i: int| 0 <= i < values.len() ==> #[trigger] values[i] == ZERO,
    ensures
        halved_sum::<A>(values) == ZERO,
    decreases values.len(),
{
    if values.len() <= 8 {
        lemma_zeros_in_order::<A>(values, values.len());
    } else {
        let mid = values.len() as int / 2;
        lemma_zeros_add_up::<A>(values.take(mid));
        lemma_zeros_add_up::<A>(values.skip(mid));
    }
}

/// Zeros added in order add up to zero.
proof fn lemma_zeros_in_order<A: Arithmetic>(values: Seq<u64>, n: nat)
    requires
        plus_of::<A>(ZERO, ZERO) == ZERO,
        n <= values.len(),
        forall|i: int| 0 <= i < values.len() ==> #[trigger] values[i] == ZERO,
    ensures
        straight_sum::<A>(values, n) == ZERO,
    decreases n,
{
    if n > 0 {
        lemma_zeros_in_order::<A>(values, (n - 1) as nat);
    }
}

/// All the energy of a constant plane is in its coarsest band.
pub proof fn law_constant_energy_is_in_the_coarsest_band<A: Arithmetic>(
    extent: Extent,
    channels: u32,
    params: FrequencyEnergyParams,
    s: u32,
    l: int,
)
    requires
        keepable::<A>(s, params.pyramid.sigma),
        narrow_of::<A>(ZERO) == SAMPLE_ZERO,
        widen_of::<A>(SAMPLE_ZERO) == ZERO,
        params.decomposition == Decomposition::Laplacian,
        0 <= l < params.pyramid.levels,
    ensures
        measured::<A>(flat_plane(extent, channels, s), extent, channels, params).band_energy[l] == (if l
            + 1 < params.pyramid.levels {
            ZERO
        } else {
            energy_of::<A>(
                flat_plane(level_extent(extent, params.pyramid.phase, l as nat), channels, s),
            )
        }),
{
    let base = flat_plane(extent, channels, s);
    let here = level_extent(extent, params.pyramid.phase, l as nat);
    law_energy_is_of_the_band::<A>(base, extent, channels, params, l);
    law_constant_bands_vanish::<A>(extent, channels, params.pyramid, s, l);
    lemma_units::<A>(widen_of::<A>(s));
    lemma_units::<A>(ZERO);
    if l + 1 < params.pyramid.levels {
        lemma_zeros_add_up::<A>(squares_of::<A>(flat_plane(here, channels, SAMPLE_ZERO)));
    }
}

/// Two planes have the same samples in one channel.
pub open spec fn same_channel(p: Seq<u32>, q: Seq<u32>, w: int, h: int, c: int, ch: int) -> bool {
    forall|x: int, y: int|
        0 <= x < w && 0 <= y < h ==> p[#[trigger] sample_at(x, y, ch, w, c)] == q[sample_at(x, y, ch, w, c)]
}

/// A pass along an axis reads one channel.
proof fn lemma_same_axis_sum<A: Arithmetic>(
    p: Seq<u32>,
    q: Seq<u32>,
    w: int,
    h: int,
    c: int,
    taps: Seq<u64>,
    r: int,
    horizontal: bool,
    x: int,
    y: int,
    ch: int,
    n: nat,
)
    requires
        0 <= x < w,
        0 <= y < h,
        same_channel(p, q, w, h, c, ch),
    ensures
        axis_sum::<A>(p, w, h, c, taps, r, horizontal, x, y, ch, n) == axis_sum::<A>(
            q,
            w,
            h,
            c,
            taps,
            r,
            horizontal,
            x,
            y,
            ch,
            n,
        ),
    decreases n,
{
    if n > 0 {
        lemma_same_axis_sum::<A>(p, q, w, h, c, taps, r, horizontal, x, y, ch, (n - 1) as nat);
    }
}

/// A pass along an axis keeps channels apart.
proof fn lemma_same_axis<A: Arithmetic>(
    p: Seq<u32>,
    q: Seq<u32>,
    w: int,
    h: int,
    c: int,
    taps: Seq<u64>,
    r: int,
    horizontal: bool,
    ch: int,
)
    requires
        0 <= ch < c,
        same_channel(p, q, w, h, c, ch),
    ensures
        same_channel(
            smoothed_axis::<A>(p, w, h, c, taps, r, horizontal),
            smoothed_axis::<A>(q, w, h, c, taps, r, horizontal),
            w,
            h,
            c,
            ch,
        ),
{
    let a = smoothed_axis::<A>(p, w, h, c, taps, r, horizontal);
    let b = smoothed_axis::<A>(q, w, h, c, taps, r, horizontal);
    assert forall|x: int, y: int| 0 <= x < w && 0 <= y < h implies a[#[trigger] sample_at(x, y, ch, w, c)]
        == b[sample_at(x, y, ch, w, c)] by {
        let f = |x: int, y: int, ch: int|
            narrow_of::<A>(axis_sum::<A>(p, w, h, c, taps, r, horizontal, x, y, ch, taps.len()));
        let g = |x: int, y: int, ch: int|
            narrow_of::<A>(axis_sum::<A>(q, w, h, c, taps, r, horizontal, x, y, ch, taps.len()));
        lemma_raster_sample(w, h, c, f, x, y, ch);
        lemma_raster_sample(w, h, c, g, x, y, ch);
        lemma_same_axis_sum::<A>(p, q, w, h, c, taps, r, horizontal, x, y, ch, taps.len());
    }
}

/// Smoothing and reducing keeps channels apart.
proof fn lemma_same_reduced<A: Arithmetic>(
    p: Seq<u32>,
    q: Seq<u32>,
    parent: Extent,
    channels: u32,
    sigma: u64,
    phase: PyramidPhase,
    ch: int,
)
    requires
        0 <= ch < channels,
        same_channel(p, q, parent.width as int, parent.height as int, channels as int, ch),
    ensures
        same_channel(
            reduced::<A>(p, parent, channels, sigma, phase),
            reduced::<A>(q, parent, channels, sigma, phase),
            child_extent(parent, phase).width as int,
            child_extent(parent, phase).height as int,
            channels as int,
            ch,
        ),
{
    let w = parent.width as int;
    let h = parent.height as int;
    let c = channels as int;
    let child = child_extent(parent, phase);
    let cw = child.width as int;
    let chh = child.height as int;
    let r = radius_of::<A>(sigma);
    let taps = taps_of::<A>(sigma);
    let sp = smoothed::<A>(p, parent, channels, sigma);
    let sq = smoothed::<A>(q, parent, channels, sigma);
    if r != 0 {
        lemma_same_axis::<A>(p, q, w, h, c, taps, r, true, ch);
        lemma_same_axis::<A>(
            smoothed_axis::<A>(p, w, h, c, taps, r, true),
            smoothed_axis::<A>(q, w, h, c, taps, r, true),
            w,
            h,
            c,
            taps,
            r,
            false,
            ch,
        );
    }
    lemma_child_extent(parent, phase);
    let a = reduced::<A>(p, parent, channels, sigma, phase);
    let b = reduced::<A>(q, parent, channels, sigma, phase);
    assert forall|x: int, y: int| 0 <= x < cw && 0 <= y < chh implies a[#[trigger] sample_at(
        x,
        y,
        ch,
        cw,
        c,
    )] == b[sample_at(x, y, ch, cw, c)] by {
        let f = |x: int, y: int, ch: int|
            sp[sample_at(
                smaller(2 * x, w - 1),
                smaller(2 * y, h - 1),
                ch,
                w,
                c,
            )];
        let g = |x: int, y: int, ch: int|
            sq[sample_at(
                smaller(2 * x, w - 1),
                smaller(2 * y, h - 1),
                ch,
                w,
                c,
            )];
        lemma_raster_sample(cw, chh, c, f, x, y, ch);
        lemma_raster_sample(cw, chh, c, g, x, y, ch);
    }
}

/// A channel of a pyramid's level depends on no other channel of the base.
pub proof fn law_levels_keep_channels_apart<A: Arithmetic>(
    p: Seq<u32>,
    q: Seq<u32>,
    extent: Extent,
    channels: u32,
    params: PyramidParams,
    ch: int,
    l: nat,
)
    requires
        0 <= ch < channels,
        same_channel(p, q, extent.width as int, extent.height as int, channels as int, ch),
    ensures
        same_channel(
            gaussian_level::<A>(p, extent, channels, params, l),
            gaussian_level::<A>(q, extent, channels, params, l),
            level_extent(extent, params.phase, l).width as int,
            level_extent(extent, params.phase, l).height as int,
            channels as int,
            ch,
        ),
    decreases l,
{
    if l > 0 {
        let prior = (l - 1) as nat;
        law_levels_keep_channels_apart::<A>(p, q, extent, channels, params, ch, prior);
        lemma_same_reduced::<A>(
            gaussian_level::<A>(p, extent, channels, params, prior),
            gaussian_level::<A>(q, extent, channels, params, prior),
            level_extent(extent, params.phase, prior),
            channels,
            params.sigma,
            params.phase,
            ch,
        );
    }
}

/// Adding back a difference gives the sample again, in an arithmetic that does not round, where the
/// difference can be stored: a pyramid with such differences is rebuilt from its bands.
pub proof fn law_stored_differences_restore<A: Arithmetic>(a: u32, b: u32)
    requires
        unrounded::<A>(),
        plain::<A>(widen_of::<A>(a)),
        plain::<A>(widen_of::<A>(b)),
        narrow_of::<A>(widen_of::<A>(a)) == a,
        widen_of::<A>(
            narrow_of::<A>(minus_of::<A>(widen_of::<A>(a), widen_of::<A>(b))),
        ) == minus_of::<A>(widen_of::<A>(a), widen_of::<A>(b)),
    ensures
        restores::<A>(a, b),
{
    lemma_minus::<A>(widen_of::<A>(a), widen_of::<A>(b));
}

} // verus!
