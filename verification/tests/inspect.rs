//! Inspection.
use paintop_cpu::arithmetic::Arithmetic;
use paintop_cpu::inspect::{inspect_value, Inspect, INSPECT_OP_ID};
use paintop_cpu::ir::{
    AlphaRepresentation, ChannelLayout, ColorEncoding, ColorRange, CoordinateConvention, Extent,
    ImageDescriptor, ResourceDescriptor, ScalarType, SemanticRole,
};
use paintop_cpu::manifest::{check_contract_consistency, verify_categories};
use paintop_cpu::ports::Ports;
use paintop_cpu::report::{ChannelStats, Digest, Report};
use paintop_cpu::value::ResourceValue;

/// IEEE arithmetic on patterns.
struct Ieee;

fn wide(a: u64) -> f64 {
    f64::from_bits(a)
}

fn small(a: u32) -> f32 {
    f32::from_bits(a)
}

/// The pattern of a result. A result that is no number has one pattern, so that equal operands give
/// one result.
fn wide_pattern(x: f64) -> u64 {
    if x.is_nan() {
        0x7ff8_0000_0000_0000
    } else {
        x.to_bits()
    }
}

/// The pattern of a sample that an operation gives.
fn small_pattern(x: f32) -> u32 {
    if x.is_nan() {
        0x7fc0_0000
    } else {
        x.to_bits()
    }
}

impl Arithmetic for Ieee {
    /// What is no number keeps its sign and payload.
    fn widen(a: u32) -> u64 {
        if small(a).is_nan() {
            let sign = u64::from(a >> 31) << 63;
            sign | 0x7ff0_0000_0000_0000 | (u64::from(a & 0x007f_ffff) << 29)
        } else {
            f64::from(small(a)).to_bits()
        }
    }
    /// What is no number keeps its sign and the upper part of its payload.
    fn narrow(a: u64) -> u32 {
        if wide(a).is_nan() {
            let sign = ((a >> 63) as u32) << 31;
            let payload = ((a >> 29) as u32) & 0x007f_ffff;
            sign | 0x7f80_0000 | if payload == 0 { 0x0040_0000 } else { payload }
        } else {
            (wide(a) as f32).to_bits()
        }
    }
    fn whole(a: i64) -> u64 {
        wide_pattern(a as f64)
    }
    fn tally(a: u64) -> u64 {
        wide_pattern(a as f64)
    }
    fn plus(a: u64, b: u64) -> u64 {
        wide_pattern(wide(a) + wide(b))
    }
    fn minus(a: u64, b: u64) -> u64 {
        wide_pattern(wide(a) - wide(b))
    }
    fn times(a: u64, b: u64) -> u64 {
        wide_pattern(wide(a) * wide(b))
    }
    fn over(a: u64, b: u64) -> u64 {
        wide_pattern(wide(a) / wide(b))
    }
    fn fused(a: u64, b: u64, c: u64) -> u64 {
        wide_pattern(wide(a).mul_add(wide(b), wide(c)))
    }
    fn root(a: u64) -> u64 {
        wide_pattern(wide(a).sqrt())
    }
    fn hypotenuse(a: u64, b: u64) -> u64 {
        wide_pattern(wide(a).hypot(wide(b)))
    }
    fn exponential(a: u64) -> u64 {
        wide_pattern(wide(a).exp())
    }
    fn cosine(a: u64) -> u64 {
        wide_pattern(wide(a).cos())
    }
    fn sine(a: u64) -> u64 {
        wide_pattern(wide(a).sin())
    }
    fn round_down(a: u64) -> u64 {
        wide_pattern(wide(a).floor())
    }
    fn round_up(a: u64) -> u64 {
        wide_pattern(wide(a).ceil())
    }
    fn to_integer(a: u64) -> i64 {
        wide(a) as i64
    }
    fn sample_plus(a: u32, b: u32) -> u32 {
        small_pattern(small(a) + small(b))
    }
    fn sample_minus(a: u32, b: u32) -> u32 {
        small_pattern(small(a) - small(b))
    }
    fn sample_over(a: u32, b: u32) -> u32 {
        small_pattern(small(a) / small(b))
    }
    fn sample_fused(a: u32, b: u32, c: u32) -> u32 {
        small_pattern(small(a).mul_add(small(b), small(c)))
    }
    fn sample_root(a: u32) -> u32 {
        small_pattern(small(a).sqrt())
    }
    fn sample_power(a: u32, b: u32) -> u32 {
        small_pattern(small(a).powf(small(b)))
    }
}

fn bits(samples: &[f32]) -> Vec<u32> {
    samples.iter().map(|s| s.to_bits()).collect()
}

fn unbits(samples: &[u32]) -> Vec<f32> {
    samples.iter().map(|s| f32::from_bits(*s)).collect()
}

/// A resource of float samples.
fn resource(
    descriptor: ResourceDescriptor,
    channels: u32,
    samples: Vec<f32>,
) -> Result<ResourceValue, usize> {
    ResourceValue::new(descriptor, channels, bits(&samples))
}

trait Floats {
    fn floats(&self) -> Vec<f32>;
}

impl Floats for ResourceValue {
    fn floats(&self) -> Vec<f32> {
        unbits(self.samples())
    }
}

struct Blake;

impl Digest for Blake {
    fn digest(bytes: &Vec<u8>) -> String {
        format!("blake3:{}", blake3::hash(bytes).to_hex())
    }
}

fn inspected(value: &ResourceValue) -> Report {
    inspect_value::<Ieee, Blake>(value)
}

fn number(sample: Option<u32>) -> Option<f32> {
    sample.map(f32::from_bits)
}

fn mean(stats: &ChannelStats) -> Option<f64> {
    stats.mean::<Ieee>().map(f64::from_bits)
}

/// Build an RGBA-ish image [`ResourceValue`] of `channels` from an explicit
/// sample buffer (row-major, channel-interleaved).
fn image_value(width: u32, height: u32, channels: u32, samples: Vec<f32>) -> ResourceValue {
    let layout = match channels {
        1 => ChannelLayout::Gray,
        2 => ChannelLayout::GrayA,
        3 => ChannelLayout::Rgb,
        _ => ChannelLayout::Rgba,
    };
    let descriptor = ResourceDescriptor::Image(ImageDescriptor {
        extent: Extent::new(width, height),
        layout,
        scalar: ScalarType::F32,
        color: ColorEncoding::LinearSrgb,
        range: ColorRange::SceneReferred,
        alpha: AlphaRepresentation::Premultiplied,
        coordinates: CoordinateConvention::PixelCenterUpperLeft,
        semantic: SemanticRole::Color,
    });
    resource(descriptor, channels, samples).expect("sample buffer matches descriptor")
}

/// Run the op's compute kernel and recover the produced report.
fn compute_report(value: &ResourceValue) -> Report {
    let mut inputs = Ports::new();
    inputs.insert("image".to_owned(), value.clone());
    let out = Inspect::new()
        .compute::<Ieee, Blake>(&inputs, &serde_json::Value::Null)
        .expect("inspect computes");
    out.reports.get("report").expect("report port produced").clone()
}

#[test]
fn inspect_manifest_validates_and_agrees_with_contract() {
    let manifest = Inspect::manifest().expect("inspect manifest");
    manifest.validate().expect("inspect manifest valid");
    check_contract_consistency(
        &manifest,
        &Inspect::new().declared_inputs(),
        &Inspect::new().declared_outputs(),
    )
    .expect("inspect manifest agrees with contract");
    verify_categories(&manifest)
        .expect("inspect verification declarations gate clean");
    assert_eq!(manifest.id.to_string(), INSPECT_OP_ID);
}

#[test]
fn constant_fixture_reports_known_stats() {
    // A 4x4 single-channel constant 0.25: min = max = mean = 0.25, all finite.
    let value = image_value(4, 4, 1, vec![0.25_f32; 16]);
    let report = inspected(&value);

    assert_eq!(report.extent, Extent::new(4, 4));
    assert_eq!(report.channels, 1);
    assert!(report.all_finite);
    assert_eq!(report.channel_stats.len(), 1);
    let c = report.channel_stats[0];
    assert_eq!(number(c.min), Some(0.25));
    assert_eq!(number(c.max), Some(0.25));
    assert_eq!(c.finite, 16);
    assert_eq!(c.nonfinite, 0);
    assert!((mean(&c).expect("mean") - 0.25).abs() < 1e-12);
    // The compute kernel produces the identical report.
    assert_eq!(compute_report(&value), report);
}

#[test]
fn per_channel_stats_are_independent() {
    // 2x1 RGBA: channel c holds value (c+1)*0.1 in both pixels.
    let mut samples = Vec::new();
    for _ in 0..2 {
        for c in 0..4 {
            samples.push((c as f32 + 1.0) * 0.1);
        }
    }
    let value = image_value(2, 1, 4, samples);
    let report = inspected(&value);
    assert_eq!(report.channels, 4);
    for (c, stat) in report.channel_stats.iter().enumerate() {
        let expected = (c as f32 + 1.0) * 0.1;
        assert_eq!(number(stat.min), Some(expected));
        assert_eq!(number(stat.max), Some(expected));
        assert_eq!(stat.finite, 2);
    }
}

#[test]
fn ramp_fixture_reports_endpoints() {
    // A horizontal 0..1 ramp across width 5 (single channel, 1 row).
    let w = 5u32;
    let samples: Vec<f32> = (0..w)
        .map(|x| {
            let v = x as f32 / (w as f32 - 1.0);
            v
        })
        .collect();
    let value = image_value(w, 1, 1, samples);
    let report = inspected(&value);
    let c = report.channel_stats[0];
    assert_eq!(number(c.min), Some(0.0));
    assert_eq!(number(c.max), Some(1.0));
    assert_eq!(c.finite, u64::from(w));
    assert!(c.all_finite());
    // Mean of an evenly spaced 0..1 ramp is 0.5.
    assert!((mean(&c).expect("mean") - 0.5).abs() < 1e-6);
}

#[test]
fn nan_and_inf_are_flagged_and_excluded_from_range() {
    // Single channel: [1.0, NaN, -inf, +inf, 2.0]. Finite range is [1.0, 2.0];
    // three samples are non-finite.
    let samples = vec![1.0, f32::NAN, f32::NEG_INFINITY, f32::INFINITY, 2.0];
    let value = image_value(5, 1, 1, samples);
    let report = inspected(&value);

    assert!(!report.all_finite);
    let c = report.channel_stats[0];
    assert_eq!(number(c.min), Some(1.0));
    assert_eq!(number(c.max), Some(2.0));
    assert_eq!(c.finite, 2);
    assert_eq!(c.nonfinite, 3);
    assert!(!c.all_finite());
}

#[test]
fn all_nonfinite_channel_has_no_range() {
    let value = image_value(2, 1, 1, vec![f32::NAN, f32::INFINITY]);
    let report = inspected(&value);
    let c = report.channel_stats[0];
    assert_eq!(c.min, None);
    assert_eq!(c.max, None);
    assert_eq!(mean(&c), None);
    assert_eq!(c.finite, 0);
    assert_eq!(c.nonfinite, 2);
    assert!(!report.all_finite);
}

#[test]
fn content_hash_is_stable_and_algorithm_prefixed() {
    let value = image_value(3, 3, 1, (0..9_i16).map(|i| f32::from(i) / 9.0).collect());
    let a = inspected(&value).content_hash;
    let b = inspected(&value).content_hash;
    assert_eq!(a, b, "hashing the same samples twice is stable");
    assert!(a.starts_with("blake3:"), "{a}");
}

#[test]
fn content_hash_depends_on_samples() {
    let a = inspected(&image_value(2, 1, 1, vec![0.1, 0.2])).content_hash;
    let b = inspected(&image_value(2, 1, 1, vec![0.1, 0.3])).content_hash;
    assert_ne!(a, b, "a changed sample changes the content hash");
}

#[test]
fn content_hash_is_invariant_to_nan_payload() {
    // Two distinct NaN bit patterns must hash identically (logical content is
    // "not a number" in both).
    let nan_a = f32::from_bits(0x7fc0_0001);
    let nan_b = f32::from_bits(0x7fff_dead);
    assert!(nan_a.is_nan() && nan_b.is_nan());
    let a = inspected(&image_value(1, 1, 1, vec![nan_a])).content_hash;
    let b = inspected(&image_value(1, 1, 1, vec![nan_b])).content_hash;
    assert_eq!(a, b, "NaN payload must not affect the content hash");
}

#[test]
fn inspect_is_pure() {
    // The input value is untouched: a clone before inspection equals it after.
    let value = image_value(2, 2, 4, vec![0.3; 16]);
    let before = value.clone();
    let _ = inspected(&value);
    let _ = compute_report(&value);
    assert_eq!(value, before, "inspect must not mutate its input");
}
