//! Channels are kept apart: what an operation makes of a channel is what it makes of that channel on its
//! own.
use crate::arithmetic::{narrow_of, Arithmetic};
use crate::convolve::{law_source_index_is_in_range, source_of};
use crate::diff::report_of;
use crate::domain_warp::{
    channels_of, fetch_of, read_position, sampled, warped, warped_sample, warped_value, WarpRequest,
};
use crate::guided::{channel_of, filtered_channel, guided, guided_value, GuidedRequest};
use crate::inspect::inspected;
use crate::ir::Extent;
use crate::json::Json;
use crate::lattice::{at, lemma_at_bounds, lemma_at_inverse, lemma_at_of, lemma_raster_sample, sample_at};
use crate::ports::port_view;
use crate::report::{stats_of, with_sample, Digest};
use crate::value::{ResourceValue, ValueView};
use vstd::prelude::*;

verus! {

/// The buffer `alone` holds channel `c` of the first `n` pixels of a buffer of interleaved channels.
pub open spec fn is_channel(alone: Seq<u32>, samples: Seq<u32>, channels: int, c: int, n: int) -> bool {
    forall|p: int| 0 <= p < n ==> #[trigger] alone[p] == samples[at(c, p, channels)]
}

/// A pixel's place among the samples of one channel is its place among the pixels.
proof fn lemma_only_channel(x: int, y: int, w: int)
    ensures
        sample_at(x, y, 0, w, 1) == at(x, y, w),
{
}

/// A guided filter takes every channel on its own: channel `c` of the result is what the filter makes of
/// channel `c` of the input under channel `c` of the guide, or under the only channel of a guide that
/// has one.
pub proof fn law_guided_channels_are_filtered_alone<A: Arithmetic>(
    input: Seq<u32>,
    guide: Seq<u32>,
    extent: Extent,
    channels: int,
    guide_channels: int,
    request: GuidedRequest,
    c: int,
    input_alone: Seq<u32>,
    guide_alone: Seq<u32>,
    p: int,
)
    requires
        0 <= c < channels,
        guide_channels == 1 || guide_channels == channels,
        is_channel(input_alone, input, channels, c, extent.area()),
        guide_channels == channels ==> is_channel(guide_alone, guide, channels, c, extent.area()),
        guide_channels == 1 ==> is_channel(guide_alone, guide, 1, 0, extent.area()),
        0 <= p < extent.area(),
    ensures
        guided::<A>(input, guide, extent, channels, guide_channels, request)[at(c, p, channels)] == guided::<
            A,
        >(input_alone, guide_alone, extent, 1, 1, request)[p],
{
    let w = extent.width as int;
    let h = extent.height as int;
    let n = extent.area();
    lemma_at_of(p, w, h);
    let x = p % w;
    let y = p / w;
    let g = if guide_channels == channels {
        c
    } else {
        0
    };
    assert(channel_of::<A>(input, n, channels, c) =~= channel_of::<A>(input_alone, n, 1, 0)) by {
        assert forall|i: int| 0 <= i < n implies #[trigger] input_alone[at(0, i, 1)] == input[at(c, i, channels)] by {
            assert(at(0, i, 1) == i);
        }
    }
    assert(channel_of::<A>(guide, n, guide_channels, g) =~= channel_of::<A>(guide_alone, n, 1, 0)) by {
        assert forall|i: int| 0 <= i < n implies #[trigger] guide_alone[at(0, i, 1)] == guide[at(
            g,
            i,
            guide_channels,
        )] by {
            assert(at(0, i, 1) == i);
        }
    }
    assert(filtered_channel::<A>(input, guide, extent, channels, guide_channels, request, c)
        == filtered_channel::<A>(input_alone, guide_alone, extent, 1, 1, request, 0));
    lemma_raster_sample(
        w,
        h,
        channels,
        |x: int, y: int, ch: int|
            narrow_of::<A>(
                filtered_channel::<A>(input, guide, extent, channels, guide_channels, request, ch)[at(x, y, w)],
            ),
        x,
        y,
        c,
    );
    lemma_raster_sample(
        w,
        h,
        1,
        |x: int, y: int, ch: int|
            narrow_of::<A>(
                filtered_channel::<A>(input_alone, guide_alone, extent, 1, 1, request, ch)[at(x, y, w)],
            ),
        x,
        y,
        0,
    );
    lemma_only_channel(x, y, w);
}

/// The operation filters every channel on its own: channel `c` of what it makes of two resources is what
/// it makes of channel `c` of the input under channel `c` of the guide, or under the only channel of a
/// guide that has one, with the same parameters.
pub proof fn law_guided_operation_takes_channels_alone<A: Arithmetic>(
    inputs: Map<Seq<char>, ResourceValue>,
    alone: Map<Seq<char>, ResourceValue>,
    params: Json,
    input: ValueView,
    guide: ValueView,
    input_alone: ValueView,
    guide_alone: ValueView,
    c: int,
    p: int,
)
    requires
        port_view(inputs, "input"@) == Some(input),
        port_view(inputs, "guide"@) == Some(guide),
        port_view(alone, "input"@) == Some(input_alone),
        port_view(alone, "guide"@) == Some(guide_alone),
        guided_value::<A>(inputs, params) is Ok,
        guided_value::<A>(alone, params) is Ok,
        input.channels == guided_value::<A>(inputs, params)->Ok_0.channels,
        input_alone.channels == 1,
        guided_value::<A>(alone, params)->Ok_0.channels == 1,
        guide_alone.channels == 1,
        input_alone.descriptor.extent() == input.descriptor.extent(),
        guide.channels == 1 || guide.channels == input.channels,
        0 <= c < input.channels,
        0 <= p < input.descriptor.extent().area(),
        is_channel(
            input_alone.samples,
            input.samples,
            input.channels as int,
            c,
            input.descriptor.extent().area(),
        ),
        guide.channels == input.channels ==> is_channel(
            guide_alone.samples,
            guide.samples,
            input.channels as int,
            c,
            input.descriptor.extent().area(),
        ),
        guide.channels == 1 ==> is_channel(
            guide_alone.samples,
            guide.samples,
            1,
            0,
            input.descriptor.extent().area(),
        ),
    ensures
        guided_value::<A>(inputs, params)->Ok_0.samples[at(c, p, input.channels as int)] == guided_value::<
            A,
        >(alone, params)->Ok_0.samples[p],
{
    let request = crate::guided::request_of(params)->Ok_0;
    law_guided_channels_are_filtered_alone::<A>(
        input.samples,
        guide.samples,
        input.descriptor.extent(),
        input.channels as int,
        guide.channels as int,
        request,
        c,
        input_alone.samples,
        guide_alone.samples,
        p,
    );
}

/// What stands at a pixel in a channel is what stands there in that channel on its own.
proof fn lemma_fetch_alone<A: Arithmetic>(
    src: Seq<u32>,
    extent: Extent,
    channels: int,
    c: int,
    alone: Seq<u32>,
    ix: int,
    iy: int,
    request: WarpRequest,
)
    requires
        0 <= c < channels,
        extent.width >= 1,
        extent.height >= 1,
        is_channel(alone, src, channels, c, extent.area()),
    ensures
        fetch_of::<A>(src, extent, channels, c, ix, iy, request) == fetch_of::<A>(
            alone,
            extent,
            1,
            0,
            ix,
            iy,
            request,
        ),
{
    let w = extent.width as int;
    let h = extent.height as int;
    law_source_index_is_in_range(ix, w, request.boundary);
    law_source_index_is_in_range(iy, h, request.boundary);
    match (
        source_of(ix, w, request.boundary),
        source_of(iy, h, request.boundary),
    ) {
        (Some(x), Some(y)) => {
            lemma_at_bounds(x, y, w, h);
            lemma_only_channel(x, y, w);
            assert(alone[at(x, y, w)] == src[at(c, at(x, y, w), channels)]);
        },
        _ => {},
    }
}

/// A warp takes every channel on its own, for every displacement: channel `c` of the result is the warp of
/// channel `c` of the source.
pub proof fn law_warped_channels_are_warped_alone<A: Arithmetic>(
    src: Seq<u32>,
    extent: Extent,
    channels: int,
    disp: Seq<u32>,
    request: WarpRequest,
    c: int,
    alone: Seq<u32>,
    p: int,
)
    requires
        0 <= c < channels,
        is_channel(alone, src, channels, c, extent.area()),
        0 <= p < extent.area(),
    ensures
        warped::<A>(src, extent, channels, disp, request)[at(c, p, channels)] == warped::<A>(
            alone,
            extent,
            1,
            disp,
            request,
        )[p],
{
    let w = extent.width as int;
    let h = extent.height as int;
    lemma_at_of(p, w, h);
    let x = p % w;
    let y = p / w;
    let (sx, sy) = read_position::<A>(disp, extent, x, y);
    assert(sampled::<A>(src, extent, channels, c, sx, sy, request) == sampled::<A>(
        alone,
        extent,
        1,
        0,
        sx,
        sy,
        request,
    )) by {
        assert forall|ix: int, iy: int|
            #[trigger] fetch_of::<A>(src, extent, channels, c, ix, iy, request) == fetch_of::<A>(
                alone,
                extent,
                1,
                0,
                ix,
                iy,
                request,
            ) by {
            lemma_fetch_alone::<A>(src, extent, channels, c, alone, ix, iy, request);
        }
    }
    lemma_raster_sample(
        w,
        h,
        channels,
        |x: int, y: int, c: int| warped_sample::<A>(src, extent, channels, disp, request, x, y, c),
        x,
        y,
        c,
    );
    lemma_raster_sample(
        w,
        h,
        1,
        |x: int, y: int, c: int| warped_sample::<A>(alone, extent, 1, disp, request, x, y, c),
        x,
        y,
        0,
    );
    lemma_only_channel(x, y, w);
}

/// The operation warps every channel on its own: channel `c` of what it makes of a source is what it makes
/// of channel `c` of that source, by the same displacement and with the same parameters.
pub proof fn law_warp_operation_takes_channels_alone<A: Arithmetic>(
    inputs: Map<Seq<char>, ResourceValue>,
    alone: Map<Seq<char>, ResourceValue>,
    params: Json,
    source: ValueView,
    source_alone: ValueView,
    displacement: ValueView,
    c: int,
    p: int,
)
    requires
        port_view(inputs, "source"@) == Some(source),
        port_view(inputs, "displacement"@) == Some(displacement),
        port_view(alone, "source"@) == Some(source_alone),
        port_view(alone, "displacement"@) == Some(displacement),
        warped_value::<A>(inputs, params) is Ok,
        warped_value::<A>(alone, params) is Ok,
        channels_of(source.descriptor)->Ok_0 == source.channels,
        channels_of(source_alone.descriptor)->Ok_0 == 1,
        source_alone.descriptor.extent() == source.descriptor.extent(),
        0 <= c < source.channels,
        0 <= p < source.descriptor.extent().area(),
        is_channel(
            source_alone.samples,
            source.samples,
            source.channels as int,
            c,
            source.descriptor.extent().area(),
        ),
    ensures
        warped_value::<A>(inputs, params)->Ok_0.samples[at(c, p, source.channels as int)] == warped_value::<A>(
            alone,
            params,
        )->Ok_0.samples[p],
{
    let request = crate::domain_warp::request_of(params)->Ok_0;
    law_warped_channels_are_warped_alone::<A>(
        source.samples,
        source.descriptor.extent(),
        source.channels as int,
        displacement.samples,
        request,
        c,
        source_alone.samples,
        p,
    );
}

/// Among the first `k` samples of a pixel, the statistics of a channel take in the pixel's sample of that
/// channel and nothing else.
proof fn lemma_stats_of_a_pixel<A: Arithmetic>(samples: Seq<u32>, channels: int, c: int, p: nat, k: nat)
    requires
        0 <= c < channels,
        k <= channels,
    ensures
        0 <= p * channels,
        stats_of::<A>(samples, channels, c, (p * channels + k) as nat) == (if k <= c {
            stats_of::<A>(samples, channels, c, (p * channels) as nat)
        } else {
            with_sample::<A>(
                stats_of::<A>(samples, channels, c, (p * channels) as nat),
                samples[p * channels + c],
            )
        }),
    decreases k,
{
    assert(0 <= p * channels) by (nonlinear_arith)
        requires
            0 <= channels,
            0 <= p,
    ;
    if k > 0 {
        lemma_stats_of_a_pixel::<A>(samples, channels, c, p, (k - 1) as nat);
        lemma_at_inverse(k - 1, p as int, channels);
        assert(at(k - 1, p as int, channels) == p * channels + (k - 1));
    }
}

/// The statistics of a channel are those of the channel on its own.
proof fn lemma_stats_alone<A: Arithmetic>(samples: Seq<u32>, alone: Seq<u32>, channels: int, c: int, n: nat)
    requires
        0 <= c < channels,
        is_channel(alone, samples, channels, c, n as int),
    ensures
        0 <= n * channels,
        stats_of::<A>(samples, channels, c, (n * channels) as nat) == stats_of::<A>(alone, 1, 0, n),
    decreases n,
{
    if n > 0 {
        let m = (n - 1) as nat;
        lemma_stats_alone::<A>(samples, alone, channels, c, m);
        lemma_stats_of_a_pixel::<A>(samples, channels, c, m, channels as nat);
        assert(m * channels + channels == n * channels) by (nonlinear_arith)
            requires
                m == n - 1,
        ;
        assert(alone[m as int] == samples[at(c, m as int, channels)]);
        assert((n - 1) as int % 1 == 0);
    } else {
        assert(0 * channels == 0);
    }
}

/// The statistics that are reported of a channel, of a resource and of a difference alike, are those of the
/// channel on its own.
pub proof fn law_reported_channels_are_measured_alone<A: Arithmetic, H: Digest>(
    value: ValueView,
    alone: Seq<u32>,
    c: int,
    pixels: nat,
    extent: Extent,
    threshold: u64,
)
    requires
        0 <= c < value.channels,
        value.samples.len() == pixels * value.channels,
        is_channel(alone, value.samples, value.channels as int, c, pixels as int),
    ensures
        inspected::<A, H>(value).channel_stats.len() == value.channels,
        inspected::<A, H>(value).channel_stats[c] == stats_of::<A>(alone, 1, 0, pixels),
        report_of::<A, H>(value.samples, extent, value.channels, threshold).channel_stats[c] == stats_of::<A>(
            alone,
            1,
            0,
            pixels,
        ),
{
    lemma_stats_alone::<A>(value.samples, alone, value.channels as int, c, pixels);
}

} // verus!
