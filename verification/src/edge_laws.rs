//! What a filter reads off the edge of a plane: the nearest pixel, the border's value in its own channel, and
//! nothing of other channels.
use crate::arithmetic::{narrow_of, widen_of, Arithmetic};
use crate::channel_laws::is_channel;
use crate::convolve::{
    filtered_sample, law_source_index_is_in_range, read_of, source_of, sum_of, BoundaryMode, RequestView,
};
use crate::domain_warp::{fetch_of, warped_sample, WarpRequest};
use crate::ir::Extent;
use crate::lattice::{at, lemma_at_bounds, sample_at};
use vstd::prelude::*;

verus! {

/// How far two coordinates are apart.
pub open spec fn apart(a: int, b: int) -> int {
    if a < b {
        b - a
    } else {
        a - b
    }
}

/// Clamping reads the sample of the axis that is nearest to the coordinate.
pub proof fn law_clamp_reads_the_nearest(coord: int, n: int, j: int)
    requires
        0 <= j < n,
    ensures
        source_of(coord, n, BoundaryMode::Clamp) is Some,
        0 <= source_of(coord, n, BoundaryMode::Clamp)->Some_0 < n,
        apart(coord, source_of(coord, n, BoundaryMode::Clamp)->Some_0) <= apart(coord, j),
{
}

/// The request with another mode.
pub open spec fn in_mode(request: RequestView, mode: BoundaryMode) -> RequestView {
    RequestView { mode, ..request }
}

/// The first taps read the same where the border has the value of a flat channel.
proof fn lemma_border_sum<A: Arithmetic>(
    samples: Seq<u32>,
    src: Extent,
    channels: int,
    request: RequestView,
    ch: int,
    s: u32,
    cx: int,
    cy: int,
    taps: nat,
)
    requires
        src.width >= 1,
        src.height >= 1,
        0 <= ch < channels,
        request.value[ch] == widen_of::<A>(s),
        forall|px: int, py: int|
            0 <= px < src.width && 0 <= py < src.height ==> samples[#[trigger] sample_at(
                px,
                py,
                ch,
                src.width as int,
                channels,
            )] == s,
    ensures
        sum_of::<A>(samples, src, channels, in_mode(request, BoundaryMode::Constant), ch, cx, cy, taps) == sum_of::<A>(
            samples,
            src,
            channels,
            in_mode(request, BoundaryMode::Clamp),
            ch,
            cx,
            cy,
            taps,
        ),
    decreases taps,
{
    if taps > 0 {
        let t = taps - 1;
        lemma_border_sum::<A>(samples, src, channels, request, ch, s, cx, cy, t as nat);
        let sx = cx + t % (request.kernel.width as int) - request.kernel.origin_x;
        let sy = cy + t / (request.kernel.width as int) - request.kernel.origin_y;
        let a = in_mode(request, BoundaryMode::Constant);
        let b = in_mode(request, BoundaryMode::Clamp);
        law_source_index_is_in_range(sx, src.width as int, BoundaryMode::Constant);
        law_source_index_is_in_range(sy, src.height as int, BoundaryMode::Constant);
        law_source_index_is_in_range(sx, src.width as int, BoundaryMode::Clamp);
        law_source_index_is_in_range(sy, src.height as int, BoundaryMode::Clamp);
        assert(read_of::<A>(samples, src, channels, a, ch, sx, sy) == widen_of::<A>(s));
        assert(read_of::<A>(samples, src, channels, b, ch, sx, sy) == widen_of::<A>(s));
    }
}

/// A border of the value that a flat channel has is not seen: the filter makes of the channel what it makes
/// of it with its edge repeated.
pub proof fn law_matching_border_is_unseen<A: Arithmetic>(
    samples: Seq<u32>,
    src: Extent,
    channels: int,
    request: RequestView,
    ch: int,
    s: u32,
    x: int,
    y: int,
)
    requires
        src.width >= 1,
        src.height >= 1,
        0 <= ch < channels,
        request.value[ch] == widen_of::<A>(s),
        forall|px: int, py: int|
            0 <= px < src.width && 0 <= py < src.height ==> samples[#[trigger] sample_at(
                px,
                py,
                ch,
                src.width as int,
                channels,
            )] == s,
    ensures
        filtered_sample::<A>(samples, src, channels, in_mode(request, BoundaryMode::Constant), x, y, ch)
            == filtered_sample::<A>(samples, src, channels, in_mode(request, BoundaryMode::Clamp), x, y, ch),
{
    let n = (request.kernel.width * request.kernel.height) as nat;
    lemma_border_sum::<A>(samples, src, channels, request, ch, s, x, y, n);
}

/// The request for one channel on its own.
pub open spec fn request_alone(request: RequestView, ch: int) -> RequestView {
    RequestView { value: seq![request.value[ch]], ..request }
}

/// The first taps of a channel read what they read of the channel on its own.
proof fn lemma_alone_sum<A: Arithmetic>(
    samples: Seq<u32>,
    alone: Seq<u32>,
    src: Extent,
    channels: int,
    request: RequestView,
    ch: int,
    cx: int,
    cy: int,
    taps: nat,
)
    requires
        src.width >= 1,
        src.height >= 1,
        0 <= ch < channels,
        is_channel(alone, samples, channels, ch, src.area()),
    ensures
        sum_of::<A>(samples, src, channels, request, ch, cx, cy, taps) == sum_of::<A>(
            alone,
            src,
            1,
            request_alone(request, ch),
            0,
            cx,
            cy,
            taps,
        ),
    decreases taps,
{
    if taps > 0 {
        let t = taps - 1;
        lemma_alone_sum::<A>(samples, alone, src, channels, request, ch, cx, cy, t as nat);
        let w = src.width as int;
        let h = src.height as int;
        let sx = cx + t % (request.kernel.width as int) - request.kernel.origin_x;
        let sy = cy + t / (request.kernel.width as int) - request.kernel.origin_y;
        law_source_index_is_in_range(sx, w, request.mode);
        law_source_index_is_in_range(sy, h, request.mode);
        let one = request_alone(request, ch);
        match (source_of(sx, w, request.mode), source_of(sy, h, request.mode)) {
            (Some(px), Some(py)) => {
                lemma_at_bounds(px, py, w, h);
                assert(sample_at(px, py, 0, w, 1) == at(px, py, w));
                assert(alone[at(px, py, w)] == samples[at(ch, at(px, py, w), channels)]);
            },
            _ => {
                assert(one.off_edge(0) == request.off_edge(ch));
            },
        }
    }
}

/// A filter takes every channel on its own: a sample of channel `ch` is what the filter makes of the channel
/// alone, with the border's value in that channel.
pub proof fn law_filtered_channels_are_filtered_alone<A: Arithmetic>(
    samples: Seq<u32>,
    alone: Seq<u32>,
    src: Extent,
    channels: int,
    request: RequestView,
    ch: int,
    x: int,
    y: int,
)
    requires
        src.width >= 1,
        src.height >= 1,
        0 <= ch < channels,
        is_channel(alone, samples, channels, ch, src.area()),
    ensures
        filtered_sample::<A>(samples, src, channels, request, x, y, ch) == filtered_sample::<A>(
            alone,
            src,
            1,
            request_alone(request, ch),
            x,
            y,
            0,
        ),
{
    lemma_alone_sum::<A>(
        samples,
        alone,
        src,
        channels,
        request,
        ch,
        x + request.shift_x(),
        y + request.shift_y(),
        (request.kernel.width * request.kernel.height) as nat,
    );
}

/// The warp's request with another boundary mode.
pub open spec fn warp_in_mode(request: WarpRequest, boundary: BoundaryMode) -> WarpRequest {
    WarpRequest { boundary, ..request }
}

/// A warp does not see a border of the value that a flat channel has: it makes of the channel what it makes of
/// it with its edge repeated.
pub proof fn law_matching_border_is_unseen_by_a_warp<A: Arithmetic>(
    src: Seq<u32>,
    extent: Extent,
    channels: int,
    disp: Seq<u32>,
    request: WarpRequest,
    c: int,
    s: u32,
    x: int,
    y: int,
)
    requires
        extent.width >= 1,
        extent.height >= 1,
        0 <= c < channels,
        narrow_of::<A>(request.constant) == s,
        forall|px: int, py: int|
            0 <= px < extent.width && 0 <= py < extent.height ==> src[#[trigger] sample_at(
                px,
                py,
                c,
                extent.width as int,
                channels,
            )] == s,
    ensures
        warped_sample::<A>(src, extent, channels, disp, warp_in_mode(request, BoundaryMode::Constant), x, y, c)
            == warped_sample::<A>(src, extent, channels, disp, warp_in_mode(request, BoundaryMode::Clamp), x, y, c),
{
    let a = warp_in_mode(request, BoundaryMode::Constant);
    let b = warp_in_mode(request, BoundaryMode::Clamp);
    assert forall|px: int, py: int|
        #[trigger] fetch_of::<A>(src, extent, channels, c, px, py, a) == fetch_of::<A>(
            src,
            extent,
            channels,
            c,
            px,
            py,
            b,
        ) by {
        law_source_index_is_in_range(px, extent.width as int, BoundaryMode::Constant);
        law_source_index_is_in_range(py, extent.height as int, BoundaryMode::Constant);
        law_source_index_is_in_range(px, extent.width as int, BoundaryMode::Clamp);
        law_source_index_is_in_range(py, extent.height as int, BoundaryMode::Clamp);
    }
}

/// A warp with transparent surroundings is one with a border of zero.
pub proof fn law_transparent_warp_has_a_zero_border<A: Arithmetic>(
    src: Seq<u32>,
    extent: Extent,
    channels: int,
    disp: Seq<u32>,
    request: WarpRequest,
    c: int,
    zero: u64,
    x: int,
    y: int,
)
    requires
        narrow_of::<A>(zero) == 0,
    ensures
        warped_sample::<A>(src, extent, channels, disp, warp_in_mode(request, BoundaryMode::Transparent), x, y, c)
            == warped_sample::<A>(
            src,
            extent,
            channels,
            disp,
            (WarpRequest { constant: zero, ..warp_in_mode(request, BoundaryMode::Constant) }),
            x,
            y,
            c,
        ),
{
    let a = warp_in_mode(request, BoundaryMode::Transparent);
    let b = WarpRequest { constant: zero, ..warp_in_mode(request, BoundaryMode::Constant) };
    assert forall|px: int, py: int|
        #[trigger] fetch_of::<A>(src, extent, channels, c, px, py, a) == fetch_of::<A>(
            src,
            extent,
            channels,
            c,
            px,
            py,
            b,
        ) by {
        assert(source_of(px, extent.width as int, BoundaryMode::Transparent) == source_of(
            px,
            extent.width as int,
            BoundaryMode::Constant,
        ));
        assert(a.off_edge::<A>() == b.off_edge::<A>());
    }
}

} // verus!
