//! The difference of two images: a field of absolute differences, and a report on it.
use crate::arithmetic::{
    fused, fused_of, lawful, lemma_own_difference, lemma_swapped_difference, lemma_zeros, over,
    over_of, plus, plus_of, root, root_of, sample_minus, sample_minus_of, sample_over,
    sample_over_of, sample_plus, sample_plus_of, sample_power, sample_power_of, tally, tally_of,
    widen, widen_of, Arithmetic,
};
use crate::binary::{
    at_most, finite, is_finite, is_less, is_sample_at_most, is_sample_finite, less, sample_absolute,
    sample_at_most, sample_finite, sample_unsigned, SAMPLE_ZERO, ZERO,
};
use crate::inspect::{check_report_output, report_outcome};
use crate::ir::{
    smaller, AlphaRepresentation, AssertionResult, ColorEncoding, ColorRange,
    CoordinateConvention, Detail, Error, ErrorClass, Extent, ImageDescriptor, Rect,
    ReportDescriptor, ResourceDescriptor, ResourceKind, ScalarType, SemanticRole,
};
use crate::json::{json_double, json_get, json_of, json_text, same_text, Json};
use crate::lattice::{at, lemma_at_bounds, lemma_at_of, position};
use crate::ports::{port, port_view, request_whole, with_whole, Ports};
use crate::report::{
    all_channels_finite, all_stats_of, channel_statistics, content_hash, content_of, hash_of,
    stats_finite, steady, ChannelStats, DiffMetrics, Digest, Findings, Report, ReportView,
};
use crate::value::{ResourceValue, ValueView};
use vstd::prelude::*;

verus! {

/// The operation's identifier.
pub const DIFF_OP_ID: &'static str = "analyze.diff@1";

/// An image was absent, or no image.
pub const E_DIFF_INPUT: &'static str = "E_DIFF_INPUT";

/// The images differ in size or channel layout.
pub const E_DIFF_SHAPE: &'static str = "E_DIFF_SHAPE";

/// A parameter was malformed.
pub const E_DIFF_PARAM: &'static str = "E_DIFF_PARAM";

/// The differences are not as many as the images' descriptor says.
pub const E_DIFF_BUFFER: &'static str = "E_DIFF_BUFFER";

pub const BEFORE_REQUIRED: &'static str = "analyze.diff requires a `before` input";

pub const AFTER_REQUIRED: &'static str = "analyze.diff requires a `after` input";

pub const BEFORE_VALUE_REQUIRED: &'static str = "analyze.diff requires a `before` input value";

pub const AFTER_VALUE_REQUIRED: &'static str = "analyze.diff requires a `after` input value";

pub const BEFORE_WRONG: &'static str = "analyze.diff `before` input must be an image resource";

pub const AFTER_WRONG: &'static str = "analyze.diff `after` input must be an image resource";

pub const EXTENT_MISMATCH: &'static str = "analyze.diff: the `before` and `after` images must share an extent";

pub const LAYOUT_MISMATCH: &'static str = "analyze.diff: the `before` and `after` images must share a channel layout";

pub const SPACE_UNKNOWN: &'static str = "analyze.diff `comparison_space` must be `decoded-linear` or `encoded`";

pub const THRESHOLD_INVALID: &'static str = "analyze.diff `threshold` must be a finite non-negative number";

pub const UNEXPECTED_LENGTH: &'static str = "analyze.diff produced a diff buffer of unexpected length";

/// A refusal for an input.
#[verifier::allow_in_spec]
pub fn input_error(class: ErrorClass, message: &'static str) -> Error
    returns
        (Error::new(class, E_DIFF_INPUT, message)),
{
    Error::new(class, E_DIFF_INPUT, message)
}

/// A refusal for a parameter.
#[verifier::allow_in_spec]
pub fn param_error(message: &'static str) -> Error
    returns
        (Error::new(ErrorClass::Schema, E_DIFF_PARAM, message)),
{
    Error::new(ErrorClass::Schema, E_DIFF_PARAM, message)
}

/// A refusal of images that do not match.
#[verifier::allow_in_spec]
pub fn shape_mismatch(message: &'static str) -> Error
    returns
        (Error::new(ErrorClass::Semantic, E_DIFF_SHAPE, message)),
{
    Error::new(ErrorClass::Semantic, E_DIFF_SHAPE, message)
}

/// A refusal of a buffer that is too short.
#[verifier::allow_in_spec]
pub fn buffer_error(actual: u64) -> Error
    returns
        (Error::new(ErrorClass::Execution, E_DIFF_BUFFER, UNEXPECTED_LENGTH).about(
            Detail::Whole { value: actual },
        )),
{
    Error::new(ErrorClass::Execution, E_DIFF_BUFFER, UNEXPECTED_LENGTH).about(
        Detail::Whole { value: actual },
    )
}

/// The representation in which images are compared: as stored, or in linear light.
#[derive(Debug, Clone, Copy, PartialEq, Eq, Structural)]
pub enum ComparisonSpace {
    Encoded,
    DecodedLinear,
}

/// The token of linear light.
pub const DECODED_LINEAR: &'static str = "decoded-linear";

/// The token of stored samples.
pub const ENCODED: &'static str = "encoded";

/// The space that the parameters name, linear light unless they hold one.
pub open spec fn space_of(params: Json) -> Result<ComparisonSpace, Error> {
    match params.get("comparison_space"@) {
        None => Ok(ComparisonSpace::DecodedLinear),
        Some(v) => match v.as_text() {
            None => Err(param_error(SPACE_UNKNOWN).about(Detail::Given)),
            Some(token) => if token == DECODED_LINEAR@ {
                Ok(ComparisonSpace::DecodedLinear)
            } else if token == ENCODED@ {
                Ok(ComparisonSpace::Encoded)
            } else {
                Err(param_error(SPACE_UNKNOWN).about(Detail::Given))
            },
        },
    }
}

/// The threshold that the parameters give, zero unless they hold one.
pub open spec fn threshold_of(params: Json) -> Result<u64, Error> {
    match params.get("threshold"@) {
        None => Ok(ZERO),
        Some(v) => match v.as_double() {
            None => Err(param_error(THRESHOLD_INVALID).about(Detail::Given)),
            Some(t) => if !finite(t) || less(t, ZERO) {
                Err(param_error(THRESHOLD_INVALID).about(Detail::Number { value: t }))
            } else {
                Ok(t)
            },
        },
    }
}

impl ComparisonSpace {
    /// Read the comparison space.
    pub fn resolve(params: &serde_json::Value) -> (r: Result<ComparisonSpace, Error>)
        ensures
            r == space_of(json_of(*params)),
    {
        match json_get(params, "comparison_space") {
            None => Ok(ComparisonSpace::DecodedLinear),
            Some(value) => match json_text(value) {
                None => Err(param_error(SPACE_UNKNOWN).about(Detail::Given)),
                Some(token) => if same_text(token, DECODED_LINEAR) {
                    Ok(ComparisonSpace::DecodedLinear)
                } else if same_text(token, ENCODED) {
                    Ok(ComparisonSpace::Encoded)
                } else {
                    Err(param_error(SPACE_UNKNOWN).about(Detail::Given))
                },
            },
        }
    }
}

/// Read the threshold.
pub fn resolve_threshold(params: &serde_json::Value) -> (r: Result<u64, Error>)
    ensures
        r == threshold_of(json_of(*params)),
{
    match json_get(params, "threshold") {
        None => Ok(ZERO),
        Some(value) => match json_double(value) {
            None => Err(param_error(THRESHOLD_INVALID).about(Detail::Given)),
            Some(t) => if !is_finite(t) || is_less(t, ZERO) {
                Err(param_error(THRESHOLD_INVALID).about(Detail::Number { value: t }))
            } else {
                Ok(t)
            },
        },
    }
}

/// Where the sRGB curve stops being a line, 0.04045 by its binary32 pattern.
pub const SRGB_DECODE_KNOT: u32 = 0x3d25_aee6;

/// The divisor of the curve's line, 12.92.
pub const SRGB_SLOPE: u32 = 0x414e_b852;

/// The offset of the curve, 0.055.
pub const SRGB_OFFSET: u32 = 0x3d61_47ae;

/// The divisor of the curve, 1.055.
pub const SRGB_SCALE: u32 = 0x3f87_0a3d;

/// The exponent of the curve, 2.4.
pub const SRGB_POWER: u32 = 0x4019_999a;

/// The linear light of an sRGB-encoded sample: a line up to the knot, a power above it.
pub open spec fn srgb_light<A: Arithmetic>(c: u32) -> u32 {
    if sample_at_most(c, SRGB_DECODE_KNOT) {
        sample_over_of::<A>(c, SRGB_SLOPE)
    } else {
        sample_power_of::<A>(
            sample_over_of::<A>(sample_plus_of::<A>(c, SRGB_OFFSET), SRGB_SCALE),
            SRGB_POWER,
        )
    }
}

/// Decode an sRGB-encoded sample to linear light.
pub fn srgb_decode<A: Arithmetic>(c: u32) -> (r: u32)
    requires
        lawful::<A>(),
    ensures
        r == srgb_light::<A>(c),
{
    if is_sample_at_most(c, SRGB_DECODE_KNOT) {
        sample_over::<A>(c, SRGB_SLOPE)
    } else {
        sample_power::<A>(
            sample_over::<A>(sample_plus::<A>(c, SRGB_OFFSET), SRGB_SCALE),
            SRGB_POWER,
        )
    }
}

/// Whether an image is decoded for the comparison: an sRGB-encoded one, in linear light.
#[verifier::allow_in_spec]
pub fn decodes(space: ComparisonSpace, color: ColorEncoding) -> bool
    returns
        space == ComparisonSpace::DecodedLinear && color == ColorEncoding::Srgb,
{
    match (space, color) {
        (ComparisonSpace::DecodedLinear, ColorEncoding::Srgb) => true,
        _ => false,
    }
}

/// What the differences of two images are, if the images match.
pub open spec fn retargeted(before: ImageDescriptor, after: ImageDescriptor) -> Result<
    ImageDescriptor,
    Error,
> {
    if before.extent != after.extent {
        Err(shape_mismatch(EXTENT_MISMATCH).about(
            Detail::Extents { first: before.extent, second: after.extent },
        ))
    } else if before.layout != after.layout {
        Err(shape_mismatch(LAYOUT_MISMATCH).about(
            Detail::Layouts { one: before.layout, other: after.layout },
        ))
    } else {
        Ok(
            ImageDescriptor {
                extent: before.extent,
                layout: before.layout,
                scalar: ScalarType::F32,
                color: ColorEncoding::RawLinear,
                range: ColorRange::SceneReferred,
                alpha: AlphaRepresentation::Straight,
                coordinates: CoordinateConvention::PixelCenterUpperLeft,
                semantic: SemanticRole::Material,
            },
        )
    }
}

/// Check that two images match, and describe their differences.
pub fn check_and_retarget(before: ImageDescriptor, after: ImageDescriptor) -> (r: Result<
    ImageDescriptor,
    Error,
>)
    ensures
        r == retargeted(before, after),
{
    if before.extent != after.extent {
        return Err(shape_mismatch(EXTENT_MISMATCH).about(
            Detail::Extents { first: before.extent, second: after.extent },
        ));
    }
    if before.layout != after.layout {
        return Err(shape_mismatch(LAYOUT_MISMATCH).about(
            Detail::Layouts { one: before.layout, other: after.layout },
        ));
    }
    Ok(
        ImageDescriptor {
            extent: before.extent,
            layout: before.layout,
            scalar: ScalarType::F32,
            color: ColorEncoding::RawLinear,
            range: ColorRange::SceneReferred,
            alpha: AlphaRepresentation::Straight,
            coordinates: CoordinateConvention::PixelCenterUpperLeft,
            semantic: SemanticRole::Material,
        },
    )
}

/// A sample in the comparison space.
pub open spec fn in_space<A: Arithmetic>(sample: u32, decode: bool) -> u32 {
    if decode {
        srgb_light::<A>(sample)
    } else {
        sample
    }
}

/// Bring a sample into the comparison space.
fn to_space<A: Arithmetic>(sample: u32, decode: bool) -> (r: u32)
    requires
        lawful::<A>(),
    ensures
        r == in_space::<A>(sample, decode),
{
    if decode {
        srgb_decode::<A>(sample)
    } else {
        sample
    }
}

/// The absolute difference of two samples in the comparison space.
pub open spec fn distance_of<A: Arithmetic>(b: u32, a: u32, decode_before: bool, decode_after: bool) -> u32 {
    sample_absolute(
        sample_minus_of::<A>(in_space::<A>(a, decode_after), in_space::<A>(b, decode_before)),
    )
}

/// The absolute differences of two buffers, as far as the shorter reaches.
pub open spec fn distances<A: Arithmetic>(
    before: Seq<u32>,
    after: Seq<u32>,
    decode_before: bool,
    decode_after: bool,
) -> Seq<u32> {
    Seq::new(
        smaller(before.len() as int, after.len() as int) as nat,
        |i: int| distance_of::<A>(before[i], after[i], decode_before, decode_after),
    )
}

/// Take the absolute differences of two buffers.
pub fn diff_samples<A: Arithmetic>(
    before: &Vec<u32>,
    after: &Vec<u32>,
    decode_before: bool,
    decode_after: bool,
) -> (out: Vec<u32>)
    requires
        lawful::<A>(),
    ensures
        out@ == distances::<A>(before@, after@, decode_before, decode_after),
{
    let mut out: Vec<u32> = Vec::new();
    let mut i: usize = 0;
    while i < before.len() && i < after.len()
        invariant
            lawful::<A>(),
            i <= before@.len(),
            i <= after@.len(),
            out@.len() == i,
            forall|j: int|
                0 <= j < i ==> #[trigger] out@[j] == distance_of::<A>(
                    before@[j],
                    after@[j],
                    decode_before,
                    decode_after,
                ),
        decreases before@.len() - i,
    {
        let b: u32 = to_space::<A>(before[i], decode_before);
        let a: u32 = to_space::<A>(after[i], decode_after);
        out.push(sample_unsigned(sample_minus::<A>(a, b)));
        i = i + 1;
    }
    out
}

/// What the finite differences among the first samples add up to.
pub ghost struct Totals {
    pub peak: u64,
    pub sum: u64,
    pub sum_sq: u64,
    pub count: int,
}

/// The greatest, the sum, the sum of squares and the number of the finite differences among the
/// first `n`, taken in order.
pub open spec fn totals_of<A: Arithmetic>(samples: Seq<u32>, n: nat) -> Totals
    decreases n,
{
    if n == 0 {
        Totals { peak: ZERO, sum: ZERO, sum_sq: ZERO, count: 0 }
    } else {
        let before = totals_of::<A>(samples, (n - 1) as nat);
        if sample_finite(samples[n - 1]) {
            let abs = widen_of::<A>(samples[n - 1]);
            Totals {
                peak: if less(before.peak, abs) {
                    abs
                } else {
                    before.peak
                },
                sum: plus_of::<A>(before.sum, abs),
                sum_sq: fused_of::<A>(abs, abs, before.sum_sq),
                count: before.count + 1,
            }
        } else {
            before
        }
    }
}

/// The sample is a finite difference above the threshold.
pub open spec fn exceeds<A: Arithmetic>(sample: u32, threshold: u64) -> bool {
    sample_finite(sample) && less(threshold, widen_of::<A>(sample))
}

/// One of the first `k` channels of pixel `p` exceeds the threshold.
pub open spec fn touched<A: Arithmetic>(samples: Seq<u32>, channels: int, threshold: u64, p: int, k: int) -> bool {
    exists|ch: int| 0 <= ch < k && exceeds::<A>(samples[#[trigger] at(ch, p, channels)], threshold)
}

/// Pixel `p` changed: one of its channels exceeds the threshold.
pub open spec fn changed<A: Arithmetic>(samples: Seq<u32>, channels: int, threshold: u64, p: int) -> bool {
    touched::<A>(samples, channels, threshold, p, channels)
}

/// How many of the first `n` pixels changed.
pub open spec fn changed_count_of<A: Arithmetic>(
    samples: Seq<u32>,
    channels: int,
    threshold: u64,
    n: nat,
) -> nat
    decreases n,
{
    if n == 0 {
        0
    } else {
        changed_count_of::<A>(samples, channels, threshold, (n - 1) as nat) + (if changed::<A>(
            samples,
            channels,
            threshold,
            n - 1,
        ) {
            1nat
        } else {
            0
        })
    }
}

/// The cell of pixel `p` in an image that is `w` wide.
pub open spec fn cell_of(p: int, w: int) -> Rect {
    Rect {
        x0: (p % w) as i64,
        y0: (p / w) as i64,
        x1: (p % w + 1) as i64,
        y1: (p / w + 1) as i64,
    }
}

/// The least rectangle about the changed ones of the first `n` pixels, if any changed.
pub open spec fn bounds_of<A: Arithmetic>(
    samples: Seq<u32>,
    channels: int,
    threshold: u64,
    w: int,
    n: nat,
) -> Option<Rect>
    decreases n,
{
    if n == 0 {
        None
    } else {
        let before = bounds_of::<A>(samples, channels, threshold, w, (n - 1) as nat);
        if changed::<A>(samples, channels, threshold, n - 1) {
            match before {
                None => Some(cell_of(n - 1, w)),
                Some(b) => Some(b.join(cell_of(n - 1, w))),
            }
        } else {
            before
        }
    }
}

/// How far two images are apart, from the differences of their samples.
pub open spec fn metrics_of<A: Arithmetic>(
    samples: Seq<u32>,
    extent: Extent,
    channels: u32,
    threshold: u64,
) -> DiffMetrics {
    let totals = totals_of::<A>(samples, samples.len());
    let denom = tally_of::<A>(totals.count as u64);
    let pixels = if channels == 0 {
        0
    } else {
        extent.area() as nat
    };
    DiffMetrics {
        max_abs_error: totals.peak,
        mean_abs_error: if totals.count == 0 {
            ZERO
        } else {
            over_of::<A>(totals.sum, denom)
        },
        rms_error: if totals.count == 0 {
            ZERO
        } else {
            root_of::<A>(over_of::<A>(totals.sum_sq, denom))
        },
        threshold,
        changed_count: changed_count_of::<A>(samples, channels as int, threshold, pixels) as u64,
        changed_bounds: bounds_of::<A>(
            samples,
            channels as int,
            threshold,
            extent.width as int,
            pixels,
        ),
    }
}

/// Whether pixel `p` changed.
fn pixel_changed<A: Arithmetic>(samples: &Vec<u32>, channels: usize, threshold: u64, p: usize, pixels: usize) -> (r: bool)
    requires
        lawful::<A>(),
        p < pixels,
        samples@.len() == pixels * channels,
    ensures
        r == changed::<A>(samples@, channels as int, threshold, p as int),
{
    let held: usize = samples.len();
    let mut ch: usize = 0;
    while ch < channels
        invariant
            lawful::<A>(),
            p < pixels,
            samples@.len() == pixels * channels,
            held == samples@.len(),
            ch <= channels,
            !touched::<A>(samples@, channels as int, threshold, p as int, ch as int),
        decreases channels - ch,
    {
        proof {
            lemma_at_bounds(ch as int, p as int, channels as int, pixels as int);
            assert(channels * pixels == pixels * channels) by (nonlinear_arith);
        }
        let index: usize = position(ch, p, channels);
        let sample: u32 = samples[index];
        if is_sample_finite(sample) && is_less(threshold, widen::<A>(sample)) {
            assert(exceeds::<A>(
                samples@[at(ch as int, p as int, channels as int)],
                threshold,
            ));
            return true;
        }
        ch = ch + 1;
    }
    false
}

/// Add up the finite differences; the last member is their number.
fn add_up<A: Arithmetic>(samples: &Vec<u32>) -> (r: (u64, u64, u64, u64))
    requires
        lawful::<A>(),
    ensures
        totals_of::<A>(samples@, samples@.len()) == (Totals {
            peak: r.0,
            sum: r.1,
            sum_sq: r.2,
            count: r.3 as int,
        }),
{
    let len: usize = samples.len();
    let mut peak: u64 = ZERO;
    let mut sum: u64 = ZERO;
    let mut sum_sq: u64 = ZERO;
    let mut count: u64 = 0;
    let mut i: usize = 0;
    while i < len
        invariant
            lawful::<A>(),
            len == samples@.len(),
            i <= len,
            count <= i,
            totals_of::<A>(samples@, i as nat) == (Totals { peak, sum, sum_sq, count: count as int }),
        decreases len - i,
    {
        let sample: u32 = samples[i];
        if is_sample_finite(sample) {
            let abs: u64 = widen::<A>(sample);
            if is_less(peak, abs) {
                peak = abs;
            }
            sum = plus::<A>(sum, abs);
            sum_sq = fused::<A>(abs, abs, sum_sq);
            count = count + 1;
        }
        i = i + 1;
    }
    (peak, sum, sum_sq, count)
}

/// Measure how far two images are apart, from the differences of their samples.
pub fn diff_metrics<A: Arithmetic>(samples: &Vec<u32>, extent: Extent, channels: u32, threshold: u64) -> (r: DiffMetrics)
    requires
        lawful::<A>(),
        samples@.len() == extent.area() * channels,
    ensures
        r == metrics_of::<A>(samples@, extent, channels, threshold),
{
    let (peak, sum, sum_sq, count): (u64, u64, u64, u64) = add_up::<A>(samples);
    let mut changed_count: u64 = 0;
    let mut bounds: Option<Rect> = None;
    if channels != 0 {
        let held: usize = samples.len();
        let w: usize = extent.width as usize;
        let h: usize = extent.height as usize;
        let c: usize = channels as usize;
        proof {
            assert(0 <= w * h <= w * h * c) by (nonlinear_arith)
                requires
                    w >= 0,
                    h >= 0,
                    c >= 1,
            ;
        }
        let pixels: usize = w * h;
        let mut p: usize = 0;
        while p < pixels
            invariant
                lawful::<A>(),
                w == extent.width,
                h == extent.height,
                c == channels,
                pixels == w * h,
                samples@.len() == pixels * c,
                p <= pixels,
                changed_count == changed_count_of::<A>(samples@, c as int, threshold, p as nat),
                changed_count <= p,
                bounds == bounds_of::<A>(samples@, c as int, threshold, w as int, p as nat),
            decreases pixels - p,
        {
            if pixel_changed::<A>(samples, c, threshold, p, pixels) {
                proof {
                    lemma_at_of(p as int, w as int, h as int);
                }
                changed_count = changed_count + 1;
                let x: i64 = (p % w) as i64;
                let y: i64 = (p / w) as i64;
                let cell: Rect = Rect::new(x, y, x + 1, y + 1);
                bounds = match bounds {
                    None => Some(cell),
                    Some(b) => Some(b.union(cell)),
                };
            }
            p = p + 1;
        }
    }
    let (mean, rms): (u64, u64) = if count == 0 {
        (ZERO, ZERO)
    } else {
        let denom: u64 = tally::<A>(count);
        (over::<A>(sum, denom), root::<A>(over::<A>(sum_sq, denom)))
    };
    DiffMetrics {
        max_abs_error: peak,
        mean_abs_error: mean,
        rms_error: rms,
        threshold,
        changed_count,
        changed_bounds: bounds,
    }
}

/// What is reported of the differences of two images.
pub open spec fn report_of<A: Arithmetic, H: Digest>(
    samples: Seq<u32>,
    extent: Extent,
    channels: u32,
    threshold: u64,
) -> ReportView {
    let stats = all_stats_of::<A>(samples, channels);
    ReportView {
        extent,
        channels,
        channel_stats: stats,
        all_finite: stats_finite(stats),
        content_hash: hash_of::<H>(content_of(extent, channels, samples)),
        diff: Some(metrics_of::<A>(samples, extent, channels, threshold)),
        assertion: None,
        frequency_energy: None,
    }
}

/// Report on the differences of two images.
pub fn diff_report<A: Arithmetic, H: Digest>(
    samples: &Vec<u32>,
    extent: Extent,
    channels: u32,
    threshold: u64,
) -> (report: Report)
    requires
        lawful::<A>(),
        steady::<H>(),
        samples@.len() == extent.area() * channels,
    ensures
        report@ == report_of::<A, H>(samples@, extent, channels, threshold),
{
    let channel_stats: Vec<ChannelStats> = channel_statistics::<A>(samples, channels);
    let all_finite: bool = all_channels_finite(&channel_stats);
    let content_hash: String = content_hash::<H>(extent, channels, samples);
    Report {
        extent,
        channels,
        channel_stats,
        all_finite,
        content_hash,
        diff: Some(diff_metrics::<A>(samples, extent, channels, threshold)),
        assertion: None,
        frequency_energy: None,
    }
}

/// The image of a port.
pub open spec fn image_in(
    inputs: Map<Seq<char>, ResourceDescriptor>,
    name: Seq<char>,
    required: &'static str,
    wrong: &'static str,
) -> Result<ImageDescriptor, Error> {
    match port(inputs, name) {
        None => Err(input_error(ErrorClass::Reference, required)),
        Some(ResourceDescriptor::Image(d)) => Ok(d),
        Some(_) => Err(input_error(ErrorClass::Type, wrong)),
    }
}

/// Take the image of a port.
fn image_descriptor(
    inputs: &Ports<ResourceDescriptor>,
    name: &str,
    required: &'static str,
    wrong: &'static str,
) -> (r: Result<ImageDescriptor, Error>)
    ensures
        r == image_in(inputs@, name@, required, wrong),
{
    match inputs.get(name) {
        None => Err(input_error(ErrorClass::Reference, required)),
        Some(ResourceDescriptor::Image(d)) => Ok(*d),
        Some(_) => Err(input_error(ErrorClass::Type, wrong)),
    }
}

/// The operation.
#[derive(Debug, Clone, Copy)]
pub struct Diff;

/// What the operation produces: the differences and a report.
pub open spec fn inferred(inputs: Map<Seq<char>, ResourceDescriptor>, params: Json) -> Result<
    Map<Seq<char>, ResourceDescriptor>,
    Error,
> {
    match space_of(params) {
        Err(e) => Err(e),
        Ok(_) => match threshold_of(params) {
            Err(e) => Err(e),
            Ok(_) => match image_in(inputs, "before"@, BEFORE_REQUIRED, BEFORE_WRONG) {
                Err(e) => Err(e),
                Ok(before) => match image_in(inputs, "after"@, AFTER_REQUIRED, AFTER_WRONG) {
                    Err(e) => Err(e),
                    Ok(after) => match retargeted(before, after) {
                        Err(e) => Err(e),
                        Ok(d) => Ok(
                            Map::empty().insert("diff"@, ResourceDescriptor::Image(d)).insert(
                                "report"@,
                                ResourceDescriptor::Report(
                                    ReportDescriptor {
                                        extent: d.extent,
                                        channels: d.layout.channel_count(),
                                    },
                                ),
                            ),
                        ),
                    },
                },
            },
        },
    }
}

/// The differences of two images with a report on them.
pub ghost struct Difference {
    pub value: ValueView,
    pub report: ReportView,
}

/// What the operation makes of two images.
pub open spec fn differenced<A: Arithmetic, H: Digest>(
    before: ValueView,
    after: ValueView,
    space: ComparisonSpace,
    threshold: u64,
) -> Result<Difference, Error> {
    match (before.descriptor, after.descriptor) {
        (ResourceDescriptor::Image(b), ResourceDescriptor::Image(a)) => match retargeted(b, a) {
            Err(e) => Err(e),
            Ok(d) => {
                let samples = distances::<A>(
                    before.samples,
                    after.samples,
                    decodes(space, b.color),
                    decodes(space, a.color),
                );
                if samples.len() != d.extent.area() * before.channels {
                    Err(buffer_error(samples.len() as u64))
                } else {
                    Ok(
                        Difference {
                            value: ValueView {
                                descriptor: ResourceDescriptor::Image(d),
                                channels: before.channels,
                                samples,
                            },
                            report: report_of::<A, H>(
                                samples,
                                d.extent,
                                before.channels,
                                threshold,
                            ),
                        },
                    )
                }
            },
        },
        (ResourceDescriptor::Image(_), _) => Err(input_error(ErrorClass::Type, AFTER_WRONG)),
        _ => Err(input_error(ErrorClass::Type, BEFORE_WRONG)),
    }
}

/// What the operation makes of its inputs.
pub open spec fn difference_of<A: Arithmetic, H: Digest>(inputs: Map<Seq<char>, ResourceValue>, params: Json) -> Result<
    Difference,
    Error,
> {
    match space_of(params) {
        Err(e) => Err(e),
        Ok(space) => match threshold_of(params) {
            Err(e) => Err(e),
            Ok(threshold) => match (port_view(inputs, "before"@), port_view(inputs, "after"@)) {
                (None, _) => Err(input_error(ErrorClass::Reference, BEFORE_VALUE_REQUIRED)),
                (Some(_), None) => Err(input_error(ErrorClass::Reference, AFTER_VALUE_REQUIRED)),
                (Some(before), Some(after)) => differenced::<A, H>(before, after, space, threshold),
            },
        },
    }
}

/// The result is the expected refusal, or the expected differences under `diff` with the expected
/// report under `report`.
pub open spec fn gives_difference(r: Result<Findings, Error>, expected: Result<Difference, Error>) -> bool {
    match (r, expected) {
        (Ok(findings), Ok(difference)) => {
            &&& findings.values@.dom() == Set::empty().insert("diff"@)
            &&& findings.values@["diff"@]@ == difference.value
            &&& findings.reports@.dom() == Set::empty().insert("report"@)
            &&& findings.reports@["report"@]@ == difference.report
        },
        (Err(e), Err(f)) => e == f,
        _ => false,
    }
}

impl Default for Diff {
    /// The operation.
    fn default() -> (r: Self)
        ensures
            r == Diff,
    {
        Diff
    }
}

impl Diff {
    /// The operation.
    pub fn new() -> (r: Self)
        ensures
            r == Diff,
    {
        Diff
    }

    /// The input ports and their kinds.
    pub fn declared_inputs(&self) -> (r: Vec<(&'static str, ResourceKind)>)
        ensures
            r@ == seq![("before", ResourceKind::Image), ("after", ResourceKind::Image)],
    {
        vec![("before", ResourceKind::Image), ("after", ResourceKind::Image)]
    }

    /// The output ports and their kinds.
    pub fn declared_outputs(&self) -> (r: Vec<(&'static str, ResourceKind)>)
        ensures
            r@ == seq![("diff", ResourceKind::Image), ("report", ResourceKind::Report)],
    {
        vec![("diff", ResourceKind::Image), ("report", ResourceKind::Report)]
    }

    /// What the operation produces of inputs like these.
    pub fn infer_outputs(
        &self,
        inputs: &Ports<ResourceDescriptor>,
        params: &serde_json::Value,
    ) -> (r: Result<Ports<ResourceDescriptor>, Error>)
        ensures
            match (r, inferred(inputs@, json_of(*params))) {
                (Ok(outputs), Ok(expected)) => outputs@ == expected,
                (Err(e), Err(f)) => e == f,
                _ => false,
            },
    {
        if let Err(e) = ComparisonSpace::resolve(params) {
            return Err(e);
        }
        if let Err(e) = resolve_threshold(params) {
            return Err(e);
        }
        let before: ImageDescriptor = match image_descriptor(
            inputs,
            "before",
            BEFORE_REQUIRED,
            BEFORE_WRONG,
        ) {
            Err(e) => {
                return Err(e);
            },
            Ok(d) => d,
        };
        let after: ImageDescriptor = match image_descriptor(
            inputs,
            "after",
            AFTER_REQUIRED,
            AFTER_WRONG,
        ) {
            Err(e) => {
                return Err(e);
            },
            Ok(d) => d,
        };
        match check_and_retarget(before, after) {
            Err(e) => Err(e),
            Ok(d) => {
                let mut outputs: Ports<ResourceDescriptor> = Ports::new();
                outputs.insert("diff".to_owned(), ResourceDescriptor::Image(d));
                outputs.insert(
                    "report".to_owned(),
                    ResourceDescriptor::Report(
                        ReportDescriptor { extent: d.extent, channels: d.layout.channel_count() },
                    ),
                );
                Ok(outputs)
            },
        }
    }

    /// The whole of both images is needed, whatever is requested.
    pub fn required_inputs(
        &self,
        _requested_outputs: &Ports<Rect>,
        inputs: &Ports<ResourceDescriptor>,
        _params: &serde_json::Value,
    ) -> (r: Result<Ports<Rect>, Error>)
        ensures
            r matches Ok(regions) && regions@ == with_whole(
                with_whole(Map::empty(), inputs@, "before"@),
                inputs@,
                "after"@,
            ),
    {
        let mut regions: Ports<Rect> = Ports::new();
        request_whole(&mut regions, inputs, "before");
        request_whole(&mut regions, inputs, "after");
        Ok(regions)
    }

    /// Whether differences and a report were produced.
    pub fn validate_postconditions(
        &self,
        outputs: &Ports<ResourceDescriptor>,
        _params: &serde_json::Value,
    ) -> (r: Result<Vec<AssertionResult>, Error>)
        ensures
            r matches Ok(v) && v@ == seq![
                if port(outputs@, "diff"@) matches Some(d) && d is Image {
                    AssertionResult::pass("produces_diff_field")
                } else {
                    AssertionResult::fail("produces_diff_field", "no `diff` output produced")
                },
                report_outcome(outputs@),
            ],
    {
        let produces_diff: AssertionResult = match outputs.get("diff") {
            Some(ResourceDescriptor::Image(_)) => AssertionResult::pass("produces_diff_field"),
            _ => AssertionResult::fail("produces_diff_field", "no `diff` output produced"),
        };
        Ok(vec![produces_diff, check_report_output(outputs)])
    }

    /// Take the differences of the images, and report on them.
    pub fn compute<A: Arithmetic, H: Digest>(
        &self,
        inputs: &Ports<ResourceValue>,
        params: &serde_json::Value,
    ) -> (r: Result<Findings, Error>)
        requires
            lawful::<A>(),
            steady::<H>(),
        ensures
            gives_difference(r, difference_of::<A, H>(inputs@, json_of(*params))),
    {
        let space: ComparisonSpace = match ComparisonSpace::resolve(params) {
            Err(e) => {
                return Err(e);
            },
            Ok(space) => space,
        };
        let threshold: u64 = match resolve_threshold(params) {
            Err(e) => {
                return Err(e);
            },
            Ok(threshold) => threshold,
        };
        let before: &ResourceValue = match inputs.get("before") {
            None => {
                return Err(input_error(ErrorClass::Reference, BEFORE_VALUE_REQUIRED));
            },
            Some(value) => value,
        };
        let after: &ResourceValue = match inputs.get("after") {
            None => {
                return Err(input_error(ErrorClass::Reference, AFTER_VALUE_REQUIRED));
            },
            Some(value) => value,
        };
        let before_image: ImageDescriptor = match before.descriptor() {
            ResourceDescriptor::Image(d) => d,
            _ => {
                return Err(input_error(ErrorClass::Type, BEFORE_WRONG));
            },
        };
        let after_image: ImageDescriptor = match after.descriptor() {
            ResourceDescriptor::Image(d) => d,
            _ => {
                return Err(input_error(ErrorClass::Type, AFTER_WRONG));
            },
        };
        let diff_image: ImageDescriptor = match check_and_retarget(before_image, after_image) {
            Err(e) => {
                return Err(e);
            },
            Ok(d) => d,
        };
        let samples: Vec<u32> = diff_samples::<A>(
            before.samples(),
            after.samples(),
            decodes(space, before_image.color),
            decodes(space, after_image.color),
        );
        let channels: u32 = before.channels();
        if samples.len() != before.samples().len() {
            return Err(buffer_error(samples.len() as u64));
        }
        let report: Report = diff_report::<A, H>(&samples, diff_image.extent, channels, threshold);
        let value: Result<ResourceValue, usize> = ResourceValue::new(
            ResourceDescriptor::Image(diff_image),
            channels,
            samples,
        );
        let mut values: Ports<ResourceValue> = Ports::new();
        values.insert("diff".to_owned(), value.unwrap());
        let mut reports: Ports<Report> = Ports::new();
        reports.insert("report".to_owned(), report);
        Ok(Findings { values, reports })
    }
}

/// The reported bounds are the tight box about the changed pixels: every changed pixel lies in them,
/// each of their four sides meets one, and there are none exactly where no pixel changed.
pub proof fn law_bounds_are_tight<A: Arithmetic>(
    samples: Seq<u32>,
    channels: int,
    threshold: u64,
    w: int,
    n: nat,
)
    requires
        0 < w <= u32::MAX,
        n <= w * u32::MAX,
    ensures
        match bounds_of::<A>(samples, channels, threshold, w, n) {
            None => forall|p: int|
                0 <= p < n ==> !#[trigger] changed::<A>(samples, channels, threshold, p),
            Some(b) => {
                &&& forall|p: int|
                    0 <= p < n && #[trigger] changed::<A>(samples, channels, threshold, p)
                        ==> b.covers(p % w, p / w)
                &&& exists|p: int|
                    0 <= p < n && #[trigger] changed::<A>(samples, channels, threshold, p) && p % w
                        == b.x0
                &&& exists|p: int|
                    0 <= p < n && #[trigger] changed::<A>(samples, channels, threshold, p) && p / w
                        == b.y0
                &&& exists|p: int|
                    0 <= p < n && #[trigger] changed::<A>(samples, channels, threshold, p) && p % w
                        + 1 == b.x1
                &&& exists|p: int|
                    0 <= p < n && #[trigger] changed::<A>(samples, channels, threshold, p) && p / w
                        + 1 == b.y1
            },
        },
    decreases n,
{
    if n > 0 {
        law_bounds_are_tight::<A>(samples, channels, threshold, w, (n - 1) as nat);
        lemma_at_of(n - 1, w, u32::MAX as int);
    }
}

/// Where no difference exceeds the threshold, as with equal images in which every sample differs
/// from itself by zero, no pixel changed and there are no bounds.
pub proof fn law_equal_images_unchanged<A: Arithmetic>(
    samples: Seq<u32>,
    extent: Extent,
    channels: u32,
    threshold: u64,
)
    requires
        samples.len() == extent.area() * channels,
        forall|i: int| 0 <= i < samples.len() ==> !exceeds::<A>(#[trigger] samples[i], threshold),
    ensures
        metrics_of::<A>(samples, extent, channels, threshold).changed_count == 0,
        metrics_of::<A>(samples, extent, channels, threshold).changed_bounds is None,
{
    let pixels = if channels == 0 {
        0
    } else {
        extent.area() as nat
    };
    assert(extent.area() >= 0) by (nonlinear_arith)
        requires
            extent.area() == extent.width * extent.height,
            extent.width >= 0,
            extent.height >= 0,
    ;
    assert forall|p: int| 0 <= p < pixels implies !#[trigger] changed::<A>(
        samples,
        channels as int,
        threshold,
        p,
    ) by {
        assert forall|ch: int| 0 <= ch < channels implies !exceeds::<A>(
            samples[#[trigger] at(ch, p, channels as int)],
            threshold,
        ) by {
            lemma_at_bounds(ch, p, channels as int, pixels as int);
            assert(channels * pixels == pixels * channels) by (nonlinear_arith);
        }
    }
    lemma_unchanged::<A>(samples, channels as int, threshold, extent.width as int, pixels);
}

/// Without a changed pixel nothing is counted.
proof fn lemma_unchanged<A: Arithmetic>(
    samples: Seq<u32>,
    channels: int,
    threshold: u64,
    w: int,
    n: nat,
)
    requires
        forall|p: int| 0 <= p < n ==> !#[trigger] changed::<A>(samples, channels, threshold, p),
    ensures
        changed_count_of::<A>(samples, channels, threshold, n) == 0,
        bounds_of::<A>(samples, channels, threshold, w, n) is None,
    decreases n,
{
    if n > 0 {
        lemma_unchanged::<A>(samples, channels, threshold, w, (n - 1) as nat);
    }
}

/// Swapping the images leaves the differences as they are.
pub proof fn law_difference_is_symmetric<A: Arithmetic>(
    before: Seq<u32>,
    after: Seq<u32>,
    decode_before: bool,
    decode_after: bool,
)
    requires
        lawful::<A>(),
    ensures
        distances::<A>(before, after, decode_before, decode_after) == distances::<A>(
            after,
            before,
            decode_after,
            decode_before,
        ),
{
    let there = distances::<A>(before, after, decode_before, decode_after);
    let back = distances::<A>(after, before, decode_after, decode_before);
    assert forall|i: int| 0 <= i < there.len() implies there[i] == back[i] by {
        lemma_swapped_difference::<A>(
            in_space::<A>(after[i], decode_after),
            in_space::<A>(before[i], decode_before),
        );
    }
    assert(there =~= back);
}

/// Swapping the two images that the operation is given changes nothing of what it computes: neither
/// the differences nor the report. The images have one size and layout.
pub proof fn law_swapped_images_are_equally_different<A: Arithmetic, H: Digest>(
    inputs: Map<Seq<char>, ResourceValue>,
    swapped: Map<Seq<char>, ResourceValue>,
    params: Json,
    before: ValueView,
    after: ValueView,
    b: ImageDescriptor,
    a: ImageDescriptor,
)
    requires
        lawful::<A>(),
        port_view(inputs, "before"@) == Some(before),
        port_view(inputs, "after"@) == Some(after),
        port_view(swapped, "before"@) == Some(after),
        port_view(swapped, "after"@) == Some(before),
        before.descriptor == ResourceDescriptor::Image(b),
        after.descriptor == ResourceDescriptor::Image(a),
        before.channels == after.channels,
        b.extent == a.extent,
        b.layout == a.layout,
    ensures
        difference_of::<A, H>(swapped, params) == difference_of::<A, H>(inputs, params),
{
    if let Ok(space) = space_of(params) {
        law_difference_is_symmetric::<A>(
            before.samples,
            after.samples,
            decodes(space, b.color),
            decodes(space, a.color),
        );
    }
}

/// An image differs from itself by zero everywhere, where its samples are finite numbers in the
/// comparison space.
pub proof fn law_image_differs_from_itself_by_zero<A: Arithmetic>(samples: Seq<u32>, decode: bool)
    requires
        lawful::<A>(),
        forall|i: int|
            0 <= i < samples.len() ==> sample_finite(in_space::<A>(#[trigger] samples[i], decode)),
    ensures
        distances::<A>(samples, samples, decode, decode).len() == samples.len(),
        forall|i: int|
            0 <= i < samples.len() ==> #[trigger] distances::<A>(samples, samples, decode, decode)[i]
                == SAMPLE_ZERO,
{
    let all = distances::<A>(samples, samples, decode, decode);
    assert forall|i: int| 0 <= i < samples.len() implies #[trigger] all[i] == SAMPLE_ZERO by {
        lemma_own_difference::<A>(in_space::<A>(samples[i], decode));
    }
}

/// Differences of zero add up to nothing.
proof fn lemma_zero_totals<A: Arithmetic>(samples: Seq<u32>, n: nat)
    requires
        lawful::<A>(),
        n <= samples.len(),
        forall|i: int| 0 <= i < samples.len() ==> #[trigger] samples[i] == SAMPLE_ZERO,
    ensures
        totals_of::<A>(samples, n) == (Totals { peak: ZERO, sum: ZERO, sum_sq: ZERO, count: n as int }),
    decreases n,
{
    lemma_zeros::<A>();
    if n > 0 {
        lemma_zero_totals::<A>(samples, (n - 1) as nat);
        assert(samples[n - 1] == SAMPLE_ZERO);
    }
}

/// Given one image twice, the operation finds no difference: every sample of the difference is zero,
/// so are the greatest, the mean and the root mean square error, no pixel changed and there are no
/// bounds. The image's samples are finite numbers in the comparison space.
pub proof fn law_equal_images_do_not_differ<A: Arithmetic, H: Digest>(
    inputs: Map<Seq<char>, ResourceValue>,
    params: Json,
    image: ValueView,
    d: ImageDescriptor,
    space: ComparisonSpace,
    threshold: u64,
)
    requires
        lawful::<A>(),
        port_view(inputs, "before"@) == Some(image),
        port_view(inputs, "after"@) == Some(image),
        image.descriptor == ResourceDescriptor::Image(d),
        image.samples.len() == d.extent.area() * image.channels,
        image.samples.len() <= u64::MAX,
        space_of(params) == Ok::<ComparisonSpace, Error>(space),
        threshold_of(params) == Ok::<u64, Error>(threshold),
        forall|i: int|
            0 <= i < image.samples.len() ==> sample_finite(
                in_space::<A>(#[trigger] image.samples[i], decodes(space, d.color)),
            ),
    ensures
        difference_of::<A, H>(inputs, params) matches Ok(found) && {
            &&& found.value.samples.len() == image.samples.len()
            &&& forall|i: int|
                0 <= i < image.samples.len() ==> #[trigger] found.value.samples[i] == SAMPLE_ZERO
            &&& found.report.diff == Some(
                DiffMetrics {
                    max_abs_error: ZERO,
                    mean_abs_error: ZERO,
                    rms_error: ZERO,
                    threshold,
                    changed_count: 0,
                    changed_bounds: None,
                },
            )
        },
{
    let decode = decodes(space, d.color);
    let all = distances::<A>(image.samples, image.samples, decode, decode);
    law_image_differs_from_itself_by_zero::<A>(image.samples, decode);
    lemma_zeros::<A>();
    lemma_zero_totals::<A>(all, all.len());
    assert forall|i: int| 0 <= i < all.len() implies !exceeds::<A>(#[trigger] all[i], threshold) by {
        assert(all[i] == SAMPLE_ZERO);
    }
    law_equal_images_unchanged::<A>(all, d.extent, image.channels, threshold);
}

/// A pixel changes under a threshold wherever it changes under a higher one.
pub proof fn law_threshold_gates<A: Arithmetic>(
    samples: Seq<u32>,
    channels: int,
    low: u64,
    high: u64,
    n: nat,
)
    requires
        at_most(low, high),
    ensures
        forall|p: int|
            #[trigger] changed::<A>(samples, channels, high, p) ==> changed::<A>(
                samples,
                channels,
                low,
                p,
            ),
        changed_count_of::<A>(samples, channels, high, n) <= changed_count_of::<A>(
            samples,
            channels,
            low,
            n,
        ),
    decreases n,
{
    assert forall|p: int| #[trigger] changed::<A>(samples, channels, high, p) implies changed::<A>(
        samples,
        channels,
        low,
        p,
    ) by {
        let ch = choose|ch: int|
            0 <= ch < channels && exceeds::<A>(samples[#[trigger] at(ch, p, channels)], high);
    }
    if n > 0 {
        law_threshold_gates::<A>(samples, channels, low, high, (n - 1) as nat);
    }
}

/// A difference that is not finite leaves every total as it is.
pub proof fn law_nonfinite_differences_are_left_out<A: Arithmetic>(samples: Seq<u32>, n: nat)
    requires
        n > 0,
        !sample_finite(samples[n - 1]),
    ensures
        totals_of::<A>(samples, n) == totals_of::<A>(samples, (n - 1) as nat),
{
}

} // verus!
