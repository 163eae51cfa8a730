//! Differences.
use paintop_cpu::arithmetic::Arithmetic;
use paintop_cpu::diff::{srgb_decode, Diff, DIFF_OP_ID, E_DIFF_PARAM, E_DIFF_SHAPE};
use paintop_cpu::ir::{
    AlphaRepresentation, ChannelLayout, ColorEncoding, ColorRange, CoordinateConvention, Extent,
    ImageDescriptor, Rect, ResourceDescriptor, ScalarType, SemanticRole,
};
use paintop_cpu::manifest::{check_contract_consistency, verify_categories};
use paintop_cpu::ports::Ports;
use paintop_cpu::report::{Digest, DiffMetrics, Report};
use paintop_cpu::value::ResourceValue;

/// IEEE arithmetic on patterns.
struct Ieee;

fn wide(a: u64) -> f64 {
    f64::from_bits(a)
}

fn small(a: u32) -> f32 {
    f32::from_bits(a)
}

/// The pattern of a result. A result that is no number has one pattern, so that equal operands give
/// one result.
fn wide_pattern(x: f64) -> u64 {
    if x.is_nan() {
        0x7ff8_0000_0000_0000
    } else {
        x.to_bits()
    }
}

/// The pattern of a sample that an operation gives.
fn small_pattern(x: f32) -> u32 {
    if x.is_nan() {
        0x7fc0_0000
    } else {
        x.to_bits()
    }
}

impl Arithmetic for Ieee {
    /// What is no number keeps its sign and payload.
    fn widen(a: u32) -> u64 {
        if small(a).is_nan() {
            let sign = u64::from(a >> 31) << 63;
            sign | 0x7ff0_0000_0000_0000 | (u64::from(a & 0x007f_ffff) << 29)
        } else {
            f64::from(small(a)).to_bits()
        }
    }
    /// What is no number keeps its sign and the upper part of its payload.
    fn narrow(a: u64) -> u32 {
        if wide(a).is_nan() {
            let sign = ((a >> 63) as u32) << 31;
            let payload = ((a >> 29) as u32) & 0x007f_ffff;
            sign | 0x7f80_0000 | if payload == 0 { 0x0040_0000 } else { payload }
        } else {
            (wide(a) as f32).to_bits()
        }
    }
    fn whole(a: i64) -> u64 {
        wide_pattern(a as f64)
    }
    fn tally(a: u64) -> u64 {
        wide_pattern(a as f64)
    }
    fn plus(a: u64, b: u64) -> u64 {
        wide_pattern(wide(a) + wide(b))
    }
    fn minus(a: u64, b: u64) -> u64 {
        wide_pattern(wide(a) - wide(b))
    }
    fn times(a: u64, b: u64) -> u64 {
        wide_pattern(wide(a) * wide(b))
    }
    fn over(a: u64, b: u64) -> u64 {
        wide_pattern(wide(a) / wide(b))
    }
    fn fused(a: u64, b: u64, c: u64) -> u64 {
        wide_pattern(wide(a).mul_add(wide(b), wide(c)))
    }
    fn root(a: u64) -> u64 {
        wide_pattern(wide(a).sqrt())
    }
    fn hypotenuse(a: u64, b: u64) -> u64 {
        wide_pattern(wide(a).hypot(wide(b)))
    }
    fn exponential(a: u64) -> u64 {
        wide_pattern(wide(a).exp())
    }
    fn cosine(a: u64) -> u64 {
        wide_pattern(wide(a).cos())
    }
    fn sine(a: u64) -> u64 {
        wide_pattern(wide(a).sin())
    }
    fn round_down(a: u64) -> u64 {
        wide_pattern(wide(a).floor())
    }
    fn round_up(a: u64) -> u64 {
        wide_pattern(wide(a).ceil())
    }
    fn to_integer(a: u64) -> i64 {
        wide(a) as i64
    }
    fn sample_plus(a: u32, b: u32) -> u32 {
        small_pattern(small(a) + small(b))
    }
    fn sample_minus(a: u32, b: u32) -> u32 {
        small_pattern(small(a) - small(b))
    }
    fn sample_over(a: u32, b: u32) -> u32 {
        small_pattern(small(a) / small(b))
    }
    fn sample_fused(a: u32, b: u32, c: u32) -> u32 {
        small_pattern(small(a).mul_add(small(b), small(c)))
    }
    fn sample_root(a: u32) -> u32 {
        small_pattern(small(a).sqrt())
    }
    fn sample_power(a: u32, b: u32) -> u32 {
        small_pattern(small(a).powf(small(b)))
    }
}

fn bits(samples: &[f32]) -> Vec<u32> {
    samples.iter().map(|s| s.to_bits()).collect()
}

fn unbits(samples: &[u32]) -> Vec<f32> {
    samples.iter().map(|s| f32::from_bits(*s)).collect()
}

/// A resource of float samples.
fn resource(
    descriptor: ResourceDescriptor,
    channels: u32,
    samples: Vec<f32>,
) -> Result<ResourceValue, usize> {
    ResourceValue::new(descriptor, channels, bits(&samples))
}

trait Floats {
    fn floats(&self) -> Vec<f32>;
}

impl Floats for ResourceValue {
    fn floats(&self) -> Vec<f32> {
        unbits(self.samples())
    }
}

fn j<T: Into<serde_json::Value>>(value: T) -> serde_json::Value {
    value.into()
}

fn object(members: Vec<(&str, serde_json::Value)>) -> serde_json::Value {
    let mut map = serde_json::Map::new();
    for (name, value) in members {
        map.insert(name.to_owned(), value);
    }
    serde_json::Value::Object(map)
}

struct Blake;

impl Digest for Blake {
    fn digest(bytes: &Vec<u8>) -> String {
        format!("blake3:{}", blake3::hash(bytes).to_hex())
    }
}

fn decoded(sample: f32) -> f64 {
    f64::from(f32::from_bits(srgb_decode::<Ieee>(sample.to_bits())))
}

/// Build an image [`ResourceValue`] of `channels` from an explicit sample buffer
/// in the given color `encoding` (row-major, channel-interleaved).
fn image_value(
    width: u32,
    height: u32,
    channels: u32,
    encoding: ColorEncoding,
    samples: Vec<f32>,
) -> ResourceValue {
    let layout = match channels {
        1 => ChannelLayout::Gray,
        2 => ChannelLayout::GrayA,
        3 => ChannelLayout::Rgb,
        _ => ChannelLayout::Rgba,
    };
    let descriptor = ResourceDescriptor::Image(ImageDescriptor {
        extent: Extent::new(width, height),
        layout,
        scalar: ScalarType::F32,
        color: encoding,
        range: ColorRange::SceneReferred,
        alpha: AlphaRepresentation::Straight,
        coordinates: CoordinateConvention::PixelCenterUpperLeft,
        semantic: SemanticRole::Color,
    });
    resource(descriptor, channels, samples).expect("sample buffer matches descriptor")
}

/// Run the op's compute kernel and recover the diff field and the report.
fn run_diff(
    before: &ResourceValue,
    after: &ResourceValue,
    params: &serde_json::Value,
) -> (ResourceValue, Report) {
    let mut inputs = Ports::new();
    inputs.insert("before".to_owned(), before.clone());
    inputs.insert("after".to_owned(), after.clone());
    let out = Diff::new()
        .compute::<Ieee, Blake>(&inputs, params)
        .expect("analyze.diff computes");
    let diff = out.values.get("diff").expect("diff port produced").clone();
    let report = out.reports.get("report").expect("report port produced").clone();
    (diff, report)
}

#[test]
fn diff_manifest_validates_and_agrees_with_contract() {
    let manifest = Diff::manifest().expect("diff manifest");
    manifest.validate().expect("diff manifest valid");
    check_contract_consistency(
        &manifest,
        &Diff::new().declared_inputs(),
        &Diff::new().declared_outputs(),
    )
    .expect("diff manifest agrees with contract");
    verify_categories(&manifest)
        .expect("diff verification declarations gate clean");
    assert_eq!(manifest.id.to_string(), DIFF_OP_ID);
}

#[test]
fn identical_inputs_yield_zero_diff_and_empty_bounds() {
    let img = image_value(4, 4, 1, ColorEncoding::LinearSrgb, vec![0.25_f32; 16]);
    let (diff, report) = run_diff(&img, &img, &serde_json::Value::Null);

    // The diff field is all zero.
    assert!(diff.floats().iter().all(|&s| s == 0.0));
    // The diff output is retyped to raw-linear material.
    let ResourceDescriptor::Image(d) = diff.descriptor() else {
        panic!("diff is an image");
    };
    assert_eq!(d.color, ColorEncoding::RawLinear);
    assert_eq!(d.semantic, SemanticRole::Material);

    let metrics = report.diff.expect("report carries diff metrics");
    assert_eq!(metrics.max_abs_error, 0.0_f64.to_bits());
    assert_eq!(metrics.mean_abs_error, 0.0_f64.to_bits());
    assert_eq!(metrics.rms_error, 0.0_f64.to_bits());
    assert_eq!(metrics.changed_count, 0);
    assert_eq!(metrics.changed_bounds, None);
    assert!(report.all_finite);
}

#[test]
fn known_constant_delta_has_exact_metrics() {
    // 4x4 single channel; `after` = `before` + 0.5 everywhere. Every channel
    // diff is exactly 0.5: max = mean = rms = 0.5, all 16 pixels changed,
    // bounds cover the whole image.
    let before = image_value(4, 4, 1, ColorEncoding::LinearSrgb, vec![0.1_f32; 16]);
    let after = image_value(4, 4, 1, ColorEncoding::LinearSrgb, vec![0.6_f32; 16]);
    let (diff, report) = run_diff(
        &before,
        &after,
        &object(vec![("comparison_space", j("encoded"))]),
    );

    assert!(diff.floats().iter().all(|&s| (s - 0.5).abs() < 1e-6));
    let metrics = report.diff.expect("metrics");
    assert!((f64::from_bits(metrics.max_abs_error) - 0.5).abs() < 1e-6);
    assert!((f64::from_bits(metrics.mean_abs_error) - 0.5).abs() < 1e-6);
    assert!((f64::from_bits(metrics.rms_error) - 0.5).abs() < 1e-6);
    assert_eq!(metrics.changed_count, 16);
    assert_eq!(metrics.changed_bounds, Some(Rect::new(0, 0, 4, 4)));
}

#[test]
fn injected_rectangle_has_exact_changed_bounds() {
    // 4x4 single channel; inject a delta only at the single pixel (2, 1).
    let mut after_samples = vec![0.2_f32; 16];
    let idx = 4 + 2;
    after_samples[idx] = 0.9;
    let before = image_value(4, 4, 1, ColorEncoding::LinearSrgb, vec![0.2_f32; 16]);
    let after = image_value(4, 4, 1, ColorEncoding::LinearSrgb, after_samples);
    let (_, report) = run_diff(
        &before,
        &after,
        &object(vec![("comparison_space", j("encoded"))]),
    );

    let metrics = report.diff.expect("metrics");
    assert!((f64::from_bits(metrics.max_abs_error) - 0.7).abs() < 1e-6);
    assert_eq!(metrics.changed_count, 1);
    // Tight bounding box of the single changed pixel (2, 1): [2,3) x [1,2).
    assert_eq!(metrics.changed_bounds, Some(Rect::new(2, 1, 3, 2)));
    // Mean is the single 0.7 over 16 samples.
    assert!((f64::from_bits(metrics.mean_abs_error) - 0.7 / 16.0).abs() < 1e-6);
}

#[test]
fn comparison_space_changes_metrics_for_srgb() {
    // A pair of sRGB-encoded constants. In `encoded` space the diff is the
    // stored-sample difference; in `decoded-linear` space it is the difference
    // of the sRGB-decoded linear values, which differ.
    let before = image_value(2, 2, 1, ColorEncoding::Srgb, vec![0.2_f32; 4]);
    let after = image_value(2, 2, 1, ColorEncoding::Srgb, vec![0.8_f32; 4]);

    let (_, encoded) = run_diff(
        &before,
        &after,
        &object(vec![("comparison_space", j("encoded"))]),
    );
    let (_, linear) = run_diff(
        &before,
        &after,
        &object(vec![("comparison_space", j("decoded-linear"))]),
    );

    let enc = f64::from_bits(encoded.diff.expect("encoded metrics").max_abs_error);
    let lin = f64::from_bits(linear.diff.expect("linear metrics").max_abs_error);
    assert!((enc - 0.6).abs() < 1e-6, "encoded diff is the stored delta");
    // Linear delta = srgb_decode(0.8) - srgb_decode(0.2); the sRGB curve
    // compresses this below the encoded 0.6 delta, so the two spaces disagree.
    let expected_lin = decoded(0.8) - decoded(0.2);
    assert!(
        (lin - expected_lin).abs() < 1e-5,
        "linear delta {lin} vs {expected_lin}"
    );
    assert!(
        (lin - enc).abs() > 1e-3,
        "the comparison space changes the measured delta ({lin} vs {enc})",
    );
}

#[test]
fn default_comparison_space_is_decoded_linear() {
    // With no params, sRGB inputs are compared in decoded-linear (the default),
    // matching an explicit decoded-linear request.
    let before = image_value(2, 2, 1, ColorEncoding::Srgb, vec![0.2_f32; 4]);
    let after = image_value(2, 2, 1, ColorEncoding::Srgb, vec![0.8_f32; 4]);
    let (_, default) = run_diff(&before, &after, &serde_json::Value::Null);
    let (_, explicit) = run_diff(
        &before,
        &after,
        &object(vec![("comparison_space", j("decoded-linear"))]),
    );
    assert_eq!(
        default.diff.expect("default").max_abs_error,
        explicit.diff.expect("explicit").max_abs_error,
    );
}

#[test]
fn threshold_gates_the_changed_count() {
    // Two pixels change by 0.3, one by 0.05. A threshold of 0.1 counts only the
    // two larger changes.
    let before = image_value(3, 1, 1, ColorEncoding::LinearSrgb, vec![0.0, 0.0, 0.0]);
    let after = image_value(3, 1, 1, ColorEncoding::LinearSrgb, vec![0.3, 0.05, 0.3]);
    let (_, report) = run_diff(
        &before,
        &after,
        &object(vec![("comparison_space", j("encoded")), ("threshold", j(0.1))]),
    );
    let metrics = report.diff.expect("metrics");
    assert!((f64::from_bits(metrics.threshold) - 0.1).abs() < 1e-12);
    assert_eq!(metrics.changed_count, 2);
    // The changed pixels are at x = 0 and x = 2: bounds span [0,3) x [0,1).
    assert_eq!(metrics.changed_bounds, Some(Rect::new(0, 0, 3, 1)));
}

#[test]
fn diff_is_symmetric_in_before_and_after() {
    // |after − before| == |before − after|: swapping the inputs leaves the diff
    // field and the metrics unchanged.
    let a = image_value(
        3,
        2,
        4,
        ColorEncoding::LinearSrgb,
        (0..24_i16).map(|i| f32::from(i) / 24.0).collect(),
    );
    let b = image_value(
        3,
        2,
        4,
        ColorEncoding::LinearSrgb,
        (0..24_i16).map(|i| f32::from(23 - i) / 24.0).collect(),
    );
    let params = object(vec![("comparison_space", j("encoded"))]);
    let (diff_ab, report_ab) = run_diff(&a, &b, &params);
    let (diff_ba, report_ba) = run_diff(&b, &a, &params);
    assert_eq!(diff_ab.floats(), diff_ba.floats());
    assert_eq!(report_ab.diff, report_ba.diff);
}

#[test]
fn rms_dominates_mean_for_uneven_errors() {
    // For a non-constant error field, RMS >= mean (with equality only for a
    // constant field). Inject 0.0 and 1.0 errors.
    let before = image_value(2, 1, 1, ColorEncoding::LinearSrgb, vec![0.0, 0.0]);
    let after = image_value(2, 1, 1, ColorEncoding::LinearSrgb, vec![0.0, 1.0]);
    let (_, report) = run_diff(
        &before,
        &after,
        &object(vec![("comparison_space", j("encoded"))]),
    );
    let m: DiffMetrics = report.diff.expect("metrics");
    // mean = 0.5, rms = sqrt((0 + 1)/2) = sqrt(0.5) ≈ 0.707.
    assert!((f64::from_bits(m.mean_abs_error) - 0.5).abs() < 1e-9);
    assert!((f64::from_bits(m.rms_error) - 0.5_f64.sqrt()).abs() < 1e-9);
    assert!(f64::from_bits(m.rms_error) > f64::from_bits(m.mean_abs_error));
}

#[test]
fn nonfinite_input_is_flagged_and_excluded() {
    // A NaN in `after` yields a NaN diff: all_finite is false and the metric
    // reductions exclude the non-finite sample (mean over the one finite 0.5).
    let before = image_value(2, 1, 1, ColorEncoding::LinearSrgb, vec![0.0, 0.0]);
    let after = image_value(2, 1, 1, ColorEncoding::LinearSrgb, vec![0.5, f32::NAN]);
    let (_, report) = run_diff(
        &before,
        &after,
        &object(vec![("comparison_space", j("encoded"))]),
    );
    assert!(!report.all_finite);
    let m = report.diff.expect("metrics");
    assert!((f64::from_bits(m.max_abs_error) - 0.5).abs() < 1e-6);
    assert!((f64::from_bits(m.mean_abs_error) - 0.5).abs() < 1e-6);
}

#[test]
fn unknown_comparison_space_is_rejected() {
    let before = image_value(1, 1, 1, ColorEncoding::LinearSrgb, vec![0.0]);
    let after = image_value(1, 1, 1, ColorEncoding::LinearSrgb, vec![0.0]);
    let mut inputs = Ports::new();
    inputs.insert("before".to_owned(), before);
    inputs.insert("after".to_owned(), after);
    let err = Diff::new()
        .compute::<Ieee, Blake>(
            &inputs,
            &object(vec![("comparison_space", j("perceptual"))]),
        )
        .expect_err("an unknown comparison space is rejected");
    assert_eq!(err.code, E_DIFF_PARAM);
}

#[test]
fn diff_mismatched_extent_is_rejected() {
    let before = image_value(2, 2, 1, ColorEncoding::LinearSrgb, vec![0.0; 4]);
    let after = image_value(3, 2, 1, ColorEncoding::LinearSrgb, vec![0.0; 6]);
    let mut inputs = Ports::new();
    inputs.insert("before".to_owned(), before);
    inputs.insert("after".to_owned(), after);
    let err = Diff::new()
        .compute::<Ieee, Blake>(&inputs, &serde_json::Value::Null)
        .expect_err("mismatched extents are rejected");
    assert_eq!(err.code, E_DIFF_SHAPE);
}

#[test]
fn diff_is_pure() {
    let before = image_value(2, 2, 1, ColorEncoding::LinearSrgb, vec![0.3; 4]);
    let after = image_value(2, 2, 1, ColorEncoding::LinearSrgb, vec![0.7; 4]);
    let before_copy = before.clone();
    let after_copy = after.clone();
    let _ = run_diff(&before, &after, &serde_json::Value::Null);
    assert_eq!(before, before_copy);
    assert_eq!(after, after_copy);
}
