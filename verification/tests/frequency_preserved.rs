//! Preserved bands.
use paintop_cpu::arithmetic::Arithmetic;
use paintop_cpu::frequency;
use paintop_cpu::frequency_preserved::{FrequencyPreserved, FREQUENCY_PRESERVED_OP_ID};
use paintop_cpu::ir::{
    AlphaRepresentation, ChannelLayout, ColorEncoding, ColorRange, CoordinateConvention, Extent,
    ImageDescriptor, MaskDescriptor, MaskMeaning, ResourceDescriptor, ScalarType, SemanticRole,
    ValidRange,
};
use paintop_cpu::manifest::{OperationManifest};
use paintop_cpu::ports::Ports;
use paintop_cpu::report::{Report};
use paintop_cpu::value::ResourceValue;

/// IEEE arithmetic on patterns.
struct Ieee;

fn wide(a: u64) -> f64 {
    f64::from_bits(a)
}

fn small(a: u32) -> f32 {
    f32::from_bits(a)
}

/// The pattern of a result. A result that is no number has one pattern, so that equal operands give
/// one result.
fn wide_pattern(x: f64) -> u64 {
    if x.is_nan() {
        0x7ff8_0000_0000_0000
    } else {
        x.to_bits()
    }
}

/// The pattern of a sample that an operation gives.
fn small_pattern(x: f32) -> u32 {
    if x.is_nan() {
        0x7fc0_0000
    } else {
        x.to_bits()
    }
}

impl Arithmetic for Ieee {
    /// What is no number keeps its sign and payload.
    fn widen(a: u32) -> u64 {
        if small(a).is_nan() {
            let sign = u64::from(a >> 31) << 63;
            sign | 0x7ff0_0000_0000_0000 | (u64::from(a & 0x007f_ffff) << 29)
        } else {
            f64::from(small(a)).to_bits()
        }
    }
    /// What is no number keeps its sign and the upper part of its payload.
    fn narrow(a: u64) -> u32 {
        if wide(a).is_nan() {
            let sign = ((a >> 63) as u32) << 31;
            let payload = ((a >> 29) as u32) & 0x007f_ffff;
            sign | 0x7f80_0000 | if payload == 0 { 0x0040_0000 } else { payload }
        } else {
            (wide(a) as f32).to_bits()
        }
    }
    fn whole(a: i64) -> u64 {
        wide_pattern(a as f64)
    }
    fn tally(a: u64) -> u64 {
        wide_pattern(a as f64)
    }
    fn plus(a: u64, b: u64) -> u64 {
        wide_pattern(wide(a) + wide(b))
    }
    fn minus(a: u64, b: u64) -> u64 {
        wide_pattern(wide(a) - wide(b))
    }
    fn times(a: u64, b: u64) -> u64 {
        wide_pattern(wide(a) * wide(b))
    }
    fn over(a: u64, b: u64) -> u64 {
        wide_pattern(wide(a) / wide(b))
    }
    fn fused(a: u64, b: u64, c: u64) -> u64 {
        wide_pattern(wide(a).mul_add(wide(b), wide(c)))
    }
    fn root(a: u64) -> u64 {
        wide_pattern(wide(a).sqrt())
    }
    fn hypotenuse(a: u64, b: u64) -> u64 {
        wide_pattern(wide(a).hypot(wide(b)))
    }
    fn exponential(a: u64) -> u64 {
        wide_pattern(wide(a).exp())
    }
    fn cosine(a: u64) -> u64 {
        wide_pattern(wide(a).cos())
    }
    fn sine(a: u64) -> u64 {
        wide_pattern(wide(a).sin())
    }
    fn round_down(a: u64) -> u64 {
        wide_pattern(wide(a).floor())
    }
    fn round_up(a: u64) -> u64 {
        wide_pattern(wide(a).ceil())
    }
    fn to_integer(a: u64) -> i64 {
        wide(a) as i64
    }
    fn sample_plus(a: u32, b: u32) -> u32 {
        small_pattern(small(a) + small(b))
    }
    fn sample_minus(a: u32, b: u32) -> u32 {
        small_pattern(small(a) - small(b))
    }
    fn sample_over(a: u32, b: u32) -> u32 {
        small_pattern(small(a) / small(b))
    }
    fn sample_fused(a: u32, b: u32, c: u32) -> u32 {
        small_pattern(small(a).mul_add(small(b), small(c)))
    }
    fn sample_root(a: u32) -> u32 {
        small_pattern(small(a).sqrt())
    }
    fn sample_power(a: u32, b: u32) -> u32 {
        small_pattern(small(a).powf(small(b)))
    }
}

fn bits(samples: &[f32]) -> Vec<u32> {
    samples.iter().map(|s| s.to_bits()).collect()
}

fn unbits(samples: &[u32]) -> Vec<f32> {
    samples.iter().map(|s| f32::from_bits(*s)).collect()
}

/// A resource of float samples.
fn resource(
    descriptor: ResourceDescriptor,
    channels: u32,
    samples: Vec<f32>,
) -> Result<ResourceValue, usize> {
    ResourceValue::new(descriptor, channels, bits(&samples))
}

trait Floats {
    fn floats(&self) -> Vec<f32>;
}

impl Floats for ResourceValue {
    fn floats(&self) -> Vec<f32> {
        unbits(self.samples())
    }
}

fn j<T: Into<serde_json::Value>>(value: T) -> serde_json::Value {
    value.into()
}

fn object(members: Vec<(&str, serde_json::Value)>) -> serde_json::Value {
    let mut map = serde_json::Map::new();
    for (name, value) in members {
        map.insert(name.to_owned(), value);
    }
    serde_json::Value::Object(map)
}

fn unit_range() -> ValidRange {
    ValidRange::Bounded { min: 0.0_f64.to_bits(), max: 1.0_f64.to_bits() }
}

fn gaussian_blur_plane(samples: &[f32], extent: Extent, channels: u32, sigma: f64) -> Vec<f32> {
    unbits(&frequency::gaussian_blur_plane::<Ieee>(&bits(samples), extent, channels, sigma.to_bits()))
}

fn gray_image(extent: Extent, samples: Vec<f32>) -> ResourceValue {
    let descriptor = ResourceDescriptor::Image(ImageDescriptor {
        extent,
        layout: ChannelLayout::Gray,
        scalar: ScalarType::F32,
        color: ColorEncoding::LinearSrgb,
        range: ColorRange::SceneReferred,
        alpha: AlphaRepresentation::Premultiplied,
        coordinates: CoordinateConvention::PixelCenterUpperLeft,
        semantic: SemanticRole::Color,
    });
    resource(descriptor, 1, samples).unwrap()
}

fn mask(extent: Extent, samples: Vec<f32>) -> ResourceValue {
    let descriptor = ResourceDescriptor::Mask(MaskDescriptor {
        extent,
        scalar: ScalarType::F32,
        range: unit_range(),
        meaning: MaskMeaning::Coverage,
        coordinates: CoordinateConvention::PixelCenterUpperLeft,
    });
    resource(descriptor, 1, samples).unwrap()
}

/// A deterministic high-frequency texture in `[0, 1)`.
fn texture(extent: Extent) -> Vec<f32> {
    let w = extent.width;
    (0..extent.width * extent.height)
        .map(|i| {
            let x = i % w;
            let y = i / w;
            if (x + y).is_multiple_of(2) { 0.9 } else { 0.1 }
        })
        .collect()
}

fn run(
    before: ResourceValue,
    after: ResourceValue,
    mask: Option<ResourceValue>,
    params: &serde_json::Value,
) -> Report {
    let mut inputs = Ports::new();
    inputs.insert("before".to_owned(), before);
    inputs.insert("after".to_owned(), after);
    if let Some(m) = mask {
        inputs.insert("mask".to_owned(), m);
    }
    let out = FrequencyPreserved::new().compute::<Ieee>(&inputs, params).unwrap();
    out.reports.get("report").unwrap().clone()
}

#[test]
fn frequency_preserved_manifest_validates_and_matches_id() {
    let m: OperationManifest = FrequencyPreserved::manifest().unwrap();
    m.validate().unwrap();
    assert_eq!(m.id.to_string(), FREQUENCY_PRESERVED_OP_ID);
}

#[test]
fn identical_images_pass_with_zero_delta() {
    let base = texture(Extent::new(8, 8));
    let report = run(
        gray_image(Extent::new(8, 8), base.clone()),
        gray_image(Extent::new(8, 8), base),
        None,
        &object(vec![("bands", j(3))]),
    );
    let outcome = report.assertion.unwrap();
    assert!(outcome.passed, "identical images must preserve every band");
    assert!(f64::from_bits(outcome.worst_value.unwrap()) < 1e-9);
}

#[test]
fn over_blurring_the_whole_image_fails_with_a_band_delta() {
    // The "after" image is a heavy blur of "before": high-frequency band energy
    // collapses, so the assertion fails and records a band-energy delta.
    let base = texture(Extent::new(16, 16));
    let blurred = gaussian_blur_plane(&base, Extent::new(16, 16), 1, 3.0);
    let report = run(
        gray_image(Extent::new(16, 16), base),
        gray_image(Extent::new(16, 16), blurred),
        None,
        &object(vec![("bands", j(3)), ("tolerance", j(0.05))]),
    );
    let outcome = report.assertion.unwrap();
    assert!(
        !outcome.passed,
        "an over-blurred image must fail preservation"
    );
    assert!(
        f64::from_bits(outcome.worst_value.unwrap()) > 0.05,
        "the worst band delta {} must exceed the tolerance",
        f64::from_bits(outcome.worst_value.unwrap())
    );
    assert!(outcome.violations.unwrap() >= 1);
    // The worst band is recorded as a [band, 0] locator.
    assert!(outcome.worst_pixel.is_some());
}

#[test]
fn edit_inside_mask_does_not_fail_when_outside_is_preserved() {
    // The edit only touches the masked (left) region; the unmasked region is
    // identical. Checking the complement => preserved => pass, even though the
    // images differ overall.
    let extent = Extent::new(16, 16);
    let base = texture(extent);
    let mut after = base.clone();
    // Over-blur ONLY the left half by overwriting it with a constant.
    for (i, sample) in after.iter_mut().enumerate() {
        if (i % 16) < 8 {
            *sample = 0.5;
        }
    }
    // Mask marks the EDITED (left) region.
    let mask_samples: Vec<f32> = (0..16 * 16)
        .map(|i| if (i % 16) < 8 { 1.0 } else { 0.0 })
        .collect();
    let report = run(
        gray_image(extent, base),
        gray_image(extent, after),
        Some(mask(extent, mask_samples)),
        &object(vec![("bands", j(3)), ("tolerance", j(0.05))]),
    );
    let outcome = report.assertion.unwrap();
    assert!(
        outcome.passed,
        "an edit confined to the mask must preserve the complement; worst {}",
        f64::from_bits(outcome.worst_value.unwrap())
    );
}

#[test]
fn edit_leaking_outside_the_mask_fails() {
    // The edit blurs the whole image but the mask only covers the left half, so
    // the leak into the unmasked region trips the assertion.
    let extent = Extent::new(16, 16);
    let base = texture(extent);
    let after = gaussian_blur_plane(&base, extent, 1, 3.0);
    let mask_samples: Vec<f32> = (0..16 * 16)
        .map(|i| if (i % 16) < 8 { 1.0 } else { 0.0 })
        .collect();
    let report = run(
        gray_image(extent, base),
        gray_image(extent, after),
        Some(mask(extent, mask_samples)),
        &object(vec![("bands", j(3)), ("tolerance", j(0.05))]),
    );
    let outcome = report.assertion.unwrap();
    assert!(!outcome.passed, "a leak outside the mask must fail");
}

#[test]
fn severity_metric_records_but_never_fails_the_run() {
    let base = texture(Extent::new(16, 16));
    let after = gaussian_blur_plane(&base, Extent::new(16, 16), 1, 3.0);
    let report = run(
        gray_image(Extent::new(16, 16), base),
        gray_image(Extent::new(16, 16), after),
        None,
        &object(vec![("bands", j(3)), ("tolerance", j(0.05)), ("severity", j("metric"))]),
    );
    let outcome = report.assertion.unwrap();
    assert!(!outcome.passed);
    assert!(
        !outcome.severity.fails_run(),
        "metric severity never fails the run"
    );
}

#[test]
fn rejects_mismatched_extents_and_missing_bands() {
    let a = gray_image(Extent::new(8, 8), vec![0.0; 64]);
    let b = gray_image(Extent::new(4, 4), vec![0.0; 16]);
    let mut inputs = Ports::new();
    inputs.insert("before".to_owned(), a);
    inputs.insert("after".to_owned(), b);
    assert!(
        FrequencyPreserved::new()
            .compute::<Ieee>(&inputs, &object(vec![("bands", j(2))]))
            .is_err()
    );

    let a = gray_image(Extent::new(8, 8), vec![0.0; 64]);
    let b = gray_image(Extent::new(8, 8), vec![0.0; 64]);
    let mut inputs = Ports::new();
    inputs.insert("before".to_owned(), a);
    inputs.insert("after".to_owned(), b);
    assert!(
        FrequencyPreserved::new()
            .compute::<Ieee>(&inputs, &object(vec![]))
            .is_err()
    );
}
