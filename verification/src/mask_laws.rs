//! What masks do to the pixels of a plane before its bands are measured, and how many samples the bands have.
use crate::arithmetic::Arithmetic;
use crate::binary::{sample_finite, sample_less, sample_nan};
use crate::frequency_energy::{measured, windowed, FrequencyEnergyParams};
use crate::frequency_preserved::untouched;
use crate::ir::{pyramid_len, Extent};
use crate::lattice::{lemma_at_inverse, at};
use crate::rounding::{lemma_sample_order_reads, orders_read, Reading};
use vstd::prelude::*;

verus! {

/// A window keeps every sample of a pixel whose coverage is above zero and makes every sample of another pixel
/// zero; what is left untouched is the other way about. Pixels past the mask's end have no coverage, and
/// without a mask nothing changes.
pub proof fn law_mask_parts_pixels(
    r: Reading,
    plane: Seq<u32>,
    channels: u32,
    mask: Seq<u32>,
    p: int,
    c: int,
)
    requires
        orders_read(r),
        (r.small)(0u32) == 0real,
        1 <= channels,
        0 <= c < channels,
        0 <= p,
        (p + 1) * channels <= plane.len(),
        p < mask.len() ==> sample_finite(mask[p]),
    ensures
        ({
            let i = p * channels + c;
            let covered = p < mask.len() && 0real < (r.small)(mask[p]);
            let inside = windowed(plane, channels, Some(mask));
            let outside = untouched(plane, channels, Some(mask));
            &&& inside.len() == plane.len() && outside.len() == plane.len()
            &&& covered ==> inside[i] == plane[i] && outside[i] == 0
            &&& !covered ==> inside[i] == 0 && outside[i] == plane[i]
            &&& windowed(plane, channels, None) == plane
            &&& untouched(plane, channels, None) == plane
        }),
{
    let w = channels as int;
    let i = p * w + c;
    assert(at(c, p, w) == i);
    assert(0 <= p * w && p * w + w == (p + 1) * w) by (nonlinear_arith)
        requires
            0 <= p,
            1 <= w,
    ;
    lemma_at_inverse(c, p, w);
    let pixels = plane.len() as int / w;
    assert(p < pixels) by (nonlinear_arith)
        requires
            1 <= w,
            (p + 1) * w <= plane.len(),
            pixels == plane.len() as int / w,
    ;
    if p < mask.len() {
        assert(sample_finite(0u32));
        lemma_sample_order_reads(r, mask[p], 0u32);
        assert(!sample_nan(mask[p]) && !sample_nan(0u32));
        assert(sample_less(0u32, mask[p]) <==> 0real < (r.small)(mask[p]));
    }
}

/// The size reported of a band is the number of its samples, which takes its place among the bands.
pub proof fn law_band_sizes_add_up<A: Arithmetic>(
    plane: Seq<u32>,
    extent: Extent,
    channels: u32,
    params: FrequencyEnergyParams,
    l: int,
)
    requires
        0 <= l < params.pyramid.levels,
        pyramid_len(extent, params.pyramid.phase, channels, (l + 1) as nat) - pyramid_len(
            extent,
            params.pyramid.phase,
            channels,
            l as nat,
        ) <= u64::MAX,
        0 <= pyramid_len(extent, params.pyramid.phase, channels, (l + 1) as nat) - pyramid_len(
            extent,
            params.pyramid.phase,
            channels,
            l as nat,
        ),
    ensures
        measured::<A>(plane, extent, channels, params).band_pixels[l] == pyramid_len(
            extent,
            params.pyramid.phase,
            channels,
            (l + 1) as nat,
        ) - pyramid_len(extent, params.pyramid.phase, channels, l as nat),
        l == 0 ==> measured::<A>(plane, extent, channels, params).band_pixels[l] == extent.width * extent.height
            * channels,
        measured::<A>(plane, extent, channels, params).bands == params.pyramid.levels,
{
}

} // verus!
