//! What operations do with their inputs as a whole: transforms take the planes of their inputs, a pyramid begins
//! with its input, and measuring under a mask is measuring what the mask leaves.
use crate::arithmetic::Arithmetic;
use crate::binary::sample_less;
use crate::dft::{forward_of, inverse_real_of};
use crate::fft::{forward_value, inverse_value};
use crate::frequency::smoothed;
use crate::frequency_energy::{energy_found, windowed};
use crate::frequency_preserved::{preservation, untouched};
use crate::gaussian_pyramid::{gaussian_level, law_levels_read_back, pyramid_of, pyramid_value, PyramidParams};
use crate::ir::{level_extent, pyramid_len, Extent};
use crate::json::Json;
use crate::pass_rounding::law_reduction_keeps_every_second;
use crate::ports::port_view;
use crate::value::{ResourceValue, ValueView};
use vstd::arithmetic::div_mod::lemma_div_multiples_vanish;
use vstd::prelude::*;

verus! {

/// The forward operation transforms every channel of its input's plane, and the inverse one every channel of its
/// spectrum's; sizes and channels stay.
pub proof fn law_transforms_take_their_planes<A: Arithmetic>(inputs: Map<Seq<char>, ResourceValue>)
    ensures
        forward_value::<A>(inputs) matches Ok(v) ==> {
            let input = inputs["input"@]@;
            let extent = input.descriptor.extent();
            &&& inputs.dom().contains("input"@)
            &&& v.channels == input.channels
            &&& v.descriptor.extent() == extent
            &&& v.samples == forward_of::<A>(
                input.samples,
                extent.width as int,
                extent.height as int,
                input.channels as int,
            )
        },
        inverse_value::<A>(inputs) matches Ok(v) ==> {
            let spectrum = inputs["spectrum"@]@;
            let extent = spectrum.descriptor.extent();
            &&& inputs.dom().contains("spectrum"@)
            &&& v.descriptor.extent() == extent
            &&& v.samples == inverse_real_of::<A>(
                spectrum.samples,
                extent.width as int,
                extent.height as int,
                v.channels as int,
            )
        },
{
}

/// A pyramid of a level or more begins with its input.
pub proof fn law_pyramid_begins_with_its_input<A: Arithmetic>(
    inputs: Map<Seq<char>, ResourceValue>,
    params: Json,
    i: int,
)
    requires
        pyramid_value::<A>(inputs, params) is Ok,
        pyramid_of(params)->Ok_0.levels >= 1,
        0 <= i < inputs["input"@]@.samples.len(),
    ensures
        inputs.dom().contains("input"@),
        i < pyramid_value::<A>(inputs, params)->Ok_0.samples.len(),
        pyramid_value::<A>(inputs, params)->Ok_0.samples[i] == inputs["input"@]@.samples[i],
{
    let input = inputs["input"@]@;
    let resolved = pyramid_of(params)->Ok_0;
    let extent = input.descriptor.extent();
    let all = pyramid_value::<A>(inputs, params)->Ok_0.samples;
    law_levels_read_back::<A>(input.samples, extent, input.channels, resolved, resolved.levels as nat, 0);
    let first = all.subrange(
        pyramid_len(extent, resolved.phase, input.channels, 0),
        pyramid_len(extent, resolved.phase, input.channels, 1),
    );
    assert(first == input.samples);
    assert(first[i] == all[i]);
}

/// Every further level of a pyramid keeps every second pixel of every second row of the level before it,
/// smoothed with the pyramid's standard deviation.
pub proof fn law_levels_follow_each_other<A: Arithmetic>(
    base: Seq<u32>,
    extent: Extent,
    channels: u32,
    params: PyramidParams,
    l: nat,
    x: int,
    y: int,
    ch: int,
)
    requires
        0 <= x < level_extent(extent, params.phase, l + 1).width,
        0 <= y < level_extent(extent, params.phase, l + 1).height,
        2 * x < level_extent(extent, params.phase, l).width,
        2 * y < level_extent(extent, params.phase, l).height,
        0 <= ch < channels,
    ensures
        gaussian_level::<A>(base, extent, channels, params, 0) == base,
        ({
            let fine = gaussian_level::<A>(base, extent, channels, params, l);
            let coarse = gaussian_level::<A>(base, extent, channels, params, l + 1);
            let parent = level_extent(extent, params.phase, l);
            let child = level_extent(extent, params.phase, l + 1);
            let c = channels as int;
            coarse[(y * child.width + x) * c + ch] == smoothed::<A>(fine, parent, channels, params.sigma)[(2 * y
                * parent.width + 2 * x) * c + ch]
        }),
{
    let fine = gaussian_level::<A>(base, extent, channels, params, l);
    let parent = level_extent(extent, params.phase, l);
    law_reduction_keeps_every_second::<A>(fine, parent, channels, params.sigma, params.phase, x, y, ch);
}

/// The samples of the pixels that a mask covers, or of those that it does not; the others are zero.
pub open spec fn parted(plane: Seq<u32>, mask: Seq<u32>, channels: int, covered: bool) -> Seq<u32> {
    Seq::new(
        plane.len(),
        |i: int|
            if (i / channels < mask.len() && sample_less(0u32, mask[i / channels])) == covered {
                plane[i]
            } else {
                0u32
            },
    )
}

/// A plane of whole pixels is windowed and left untouched pixel by pixel.
proof fn lemma_parted(plane: Seq<u32>, mask: Seq<u32>, channels: u32, pixels: int)
    requires
        1 <= channels,
        plane.len() == pixels * channels,
        0 <= pixels,
    ensures
        windowed(plane, channels, Some(mask)) == parted(plane, mask, channels as int, true),
        untouched(plane, channels, Some(mask)) == parted(plane, mask, channels as int, false),
{
    let w = channels as int;
    lemma_div_multiples_vanish(pixels, w);
    assert(w * pixels == plane.len()) by (nonlinear_arith)
        requires
            plane.len() == pixels * w,
    ;
    assert(plane.len() as int / w == pixels);
    assert forall|i: int| 0 <= i < plane.len() implies 0 <= #[trigger] (i / w) < pixels by {
        assert(0 <= i / w < pixels) by (nonlinear_arith)
            requires
                0 <= i < pixels * w,
                1 <= w,
        ;
    }
    assert(windowed(plane, channels, Some(mask)) =~= parted(plane, mask, w, true));
    assert(untouched(plane, channels, Some(mask)) =~= parted(plane, mask, w, false));
}

/// Measuring the bands of a resource under a mask is measuring those of the resource with every pixel that the
/// mask does not cover made zero, without a mask.
pub proof fn law_masked_energy_is_of_the_covered<A: Arithmetic>(
    inputs: Map<Seq<char>, ResourceValue>,
    bare: Map<Seq<char>, ResourceValue>,
    params: Json,
    resource: ValueView,
    mask: ValueView,
    pixels: int,
)
    requires
        port_view(inputs, "resource"@) == Some(resource),
        port_view(inputs, "mask"@) == Some(mask),
        mask.descriptor is Mask,
        mask.descriptor.extent() == resource.descriptor.extent(),
        1 <= resource.channels,
        0 <= pixels,
        resource.samples.len() == pixels * resource.channels,
        port_view(bare, "mask"@) is None,
        port_view(bare, "resource"@) == Some(
            ValueView {
                samples: parted(resource.samples, mask.samples, resource.channels as int, true),
                ..resource
            },
        ),
    ensures
        energy_found::<A>(inputs, params) == energy_found::<A>(bare, params),
{
    lemma_parted(resource.samples, mask.samples, resource.channels, pixels);
}

/// Comparing the bands of two resources under a mask is comparing those of the resources with every pixel that
/// the mask covers made zero, without a mask.
pub proof fn law_masked_comparison_is_of_the_rest<A: Arithmetic>(
    inputs: Map<Seq<char>, ResourceValue>,
    bare: Map<Seq<char>, ResourceValue>,
    params: Json,
    before: ValueView,
    after: ValueView,
    mask: ValueView,
    pixels: int,
)
    requires
        port_view(inputs, "before"@) == Some(before),
        port_view(inputs, "after"@) == Some(after),
        port_view(inputs, "mask"@) == Some(mask),
        mask.descriptor is Mask,
        mask.descriptor.extent() == before.descriptor.extent(),
        1 <= before.channels,
        before.channels == after.channels,
        0 <= pixels,
        before.samples.len() == pixels * before.channels,
        after.samples.len() == pixels * before.channels,
        port_view(bare, "mask"@) is None,
        port_view(bare, "before"@) == Some(
            ValueView {
                samples: parted(before.samples, mask.samples, before.channels as int, false),
                ..before
            },
        ),
        port_view(bare, "after"@) == Some(
            ValueView {
                samples: parted(after.samples, mask.samples, before.channels as int, false),
                ..after
            },
        ),
    ensures
        preservation::<A>(inputs, params) == preservation::<A>(bare, params),
{
    lemma_parted(before.samples, mask.samples, before.channels, pixels);
    lemma_parted(after.samples, mask.samples, before.channels, pixels);
}

} // verus!
