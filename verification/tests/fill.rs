//! Masked fills.
use paintop_cpu::arithmetic::Arithmetic;
use paintop_cpu::fill::{Fill, E_FILL_INPUT, E_FILL_SHAPE, E_FILL_VALUE, FILL_OP_ID};
use paintop_cpu::ir::{
    AlphaRepresentation, AssertionStatus, ChannelLayout, ColorEncoding, ColorRange,
    CoordinateConvention, ErrorClass, Extent, ImageDescriptor, MaskDescriptor, MaskMeaning,
    Rect, ResourceDescriptor, ScalarType, SemanticRole, ValidRange,
};
use paintop_cpu::manifest::{check_contract_consistency, verify_categories};
use paintop_cpu::ports::Ports;
use paintop_cpu::value::ResourceValue;

/// IEEE arithmetic on patterns.
struct Ieee;

fn wide(a: u64) -> f64 {
    f64::from_bits(a)
}

fn small(a: u32) -> f32 {
    f32::from_bits(a)
}

/// The pattern of a result. A result that is no number has one pattern, so that equal operands give
/// one result.
fn wide_pattern(x: f64) -> u64 {
    if x.is_nan() {
        0x7ff8_0000_0000_0000
    } else {
        x.to_bits()
    }
}

/// The pattern of a sample that an operation gives.
fn small_pattern(x: f32) -> u32 {
    if x.is_nan() {
        0x7fc0_0000
    } else {
        x.to_bits()
    }
}

impl Arithmetic for Ieee {
    /// What is no number keeps its sign and payload.
    fn widen(a: u32) -> u64 {
        if small(a).is_nan() {
            let sign = u64::from(a >> 31) << 63;
            sign | 0x7ff0_0000_0000_0000 | (u64::from(a & 0x007f_ffff) << 29)
        } else {
            f64::from(small(a)).to_bits()
        }
    }
    /// What is no number keeps its sign and the upper part of its payload.
    fn narrow(a: u64) -> u32 {
        if wide(a).is_nan() {
            let sign = ((a >> 63) as u32) << 31;
            let payload = ((a >> 29) as u32) & 0x007f_ffff;
            sign | 0x7f80_0000 | if payload == 0 { 0x0040_0000 } else { payload }
        } else {
            (wide(a) as f32).to_bits()
        }
    }
    fn whole(a: i64) -> u64 {
        wide_pattern(a as f64)
    }
    fn tally(a: u64) -> u64 {
        wide_pattern(a as f64)
    }
    fn plus(a: u64, b: u64) -> u64 {
        wide_pattern(wide(a) + wide(b))
    }
    fn minus(a: u64, b: u64) -> u64 {
        wide_pattern(wide(a) - wide(b))
    }
    fn times(a: u64, b: u64) -> u64 {
        wide_pattern(wide(a) * wide(b))
    }
    fn over(a: u64, b: u64) -> u64 {
        wide_pattern(wide(a) / wide(b))
    }
    fn fused(a: u64, b: u64, c: u64) -> u64 {
        wide_pattern(wide(a).mul_add(wide(b), wide(c)))
    }
    fn root(a: u64) -> u64 {
        wide_pattern(wide(a).sqrt())
    }
    fn hypotenuse(a: u64, b: u64) -> u64 {
        wide_pattern(wide(a).hypot(wide(b)))
    }
    fn exponential(a: u64) -> u64 {
        wide_pattern(wide(a).exp())
    }
    fn cosine(a: u64) -> u64 {
        wide_pattern(wide(a).cos())
    }
    fn sine(a: u64) -> u64 {
        wide_pattern(wide(a).sin())
    }
    fn round_down(a: u64) -> u64 {
        wide_pattern(wide(a).floor())
    }
    fn round_up(a: u64) -> u64 {
        wide_pattern(wide(a).ceil())
    }
    fn to_integer(a: u64) -> i64 {
        wide(a) as i64
    }
    fn sample_plus(a: u32, b: u32) -> u32 {
        small_pattern(small(a) + small(b))
    }
    fn sample_minus(a: u32, b: u32) -> u32 {
        small_pattern(small(a) - small(b))
    }
    fn sample_over(a: u32, b: u32) -> u32 {
        small_pattern(small(a) / small(b))
    }
    fn sample_fused(a: u32, b: u32, c: u32) -> u32 {
        small_pattern(small(a).mul_add(small(b), small(c)))
    }
    fn sample_root(a: u32) -> u32 {
        small_pattern(small(a).sqrt())
    }
    fn sample_power(a: u32, b: u32) -> u32 {
        small_pattern(small(a).powf(small(b)))
    }
}

fn bits(samples: &[f32]) -> Vec<u32> {
    samples.iter().map(|s| s.to_bits()).collect()
}

fn unbits(samples: &[u32]) -> Vec<f32> {
    samples.iter().map(|s| f32::from_bits(*s)).collect()
}

/// A resource of float samples.
fn resource(
    descriptor: ResourceDescriptor,
    channels: u32,
    samples: Vec<f32>,
) -> Result<ResourceValue, usize> {
    ResourceValue::new(descriptor, channels, bits(&samples))
}

trait Floats {
    fn floats(&self) -> Vec<f32>;
}

impl Floats for ResourceValue {
    fn floats(&self) -> Vec<f32> {
        unbits(self.samples())
    }
}

fn j<T: Into<serde_json::Value>>(value: T) -> serde_json::Value {
    value.into()
}

fn object(members: Vec<(&str, serde_json::Value)>) -> serde_json::Value {
    let mut map = serde_json::Map::new();
    for (name, value) in members {
        map.insert(name.to_owned(), value);
    }
    serde_json::Value::Object(map)
}

fn array(items: Vec<serde_json::Value>) -> serde_json::Value {
    serde_json::Value::Array(items)
}

fn unit_range() -> ValidRange {
    ValidRange::Bounded { min: 0.0_f64.to_bits(), max: 1.0_f64.to_bits() }
}

/// A display-referred sRGB RGBA image descriptor of side `n`.
fn rgba_descriptor(n: u32) -> ImageDescriptor {
    ImageDescriptor {
        extent: Extent::new(n, n),
        layout: ChannelLayout::Rgba,
        scalar: ScalarType::F32,
        color: ColorEncoding::Srgb,
        range: ColorRange::DisplayReferred,
        alpha: AlphaRepresentation::Straight,
        coordinates: CoordinateConvention::PixelCenterUpperLeft,
        semantic: SemanticRole::Color,
    }
}

/// An RGBA image value of side `n` whose every sample is `fill`.
fn rgba_image(n: u32, fill: f32) -> ResourceValue {
    let descriptor = ResourceDescriptor::Image(rgba_descriptor(n));
    let channels = ChannelLayout::Rgba.channel_count();
    let len = (n as usize) * (n as usize) * channels as usize;
    resource(descriptor, channels, vec![fill; len]).expect("rgba image")
}

/// An RGBA image value of side `n` from an explicit row-major buffer.
fn rgba_image_from(n: u32, samples: Vec<f32>) -> ResourceValue {
    let descriptor = ResourceDescriptor::Image(rgba_descriptor(n));
    resource(descriptor, ChannelLayout::Rgba.channel_count(), samples)
        .expect("rgba image")
}

/// A coverage mask value of side `n` from an explicit row-major buffer.
fn mask_image(n: u32, coverage: Vec<f32>) -> ResourceValue {
    let descriptor = ResourceDescriptor::Mask(MaskDescriptor {
        extent: Extent::new(n, n),
        scalar: ScalarType::F32,
        range: unit_range(),
        meaning: MaskMeaning::Coverage,
        coordinates: CoordinateConvention::PixelCenterUpperLeft,
    });
    resource(descriptor, 1, coverage).expect("coverage mask")
}

/// A constant coverage mask of side `n`.
fn const_mask(n: u32, coverage: f32) -> ResourceValue {
    mask_image(n, vec![coverage; (n as usize) * (n as usize)])
}

/// Run `paint.fill`, returning the produced image (panics on a compute error).
fn fill(image: ResourceValue, mask: ResourceValue, value: &serde_json::Value) -> ResourceValue {
    let mut inputs = Ports::new();
    inputs.insert("image".to_owned(), image);
    inputs.insert("mask".to_owned(), mask);
    let params = object(vec![("value", j(value.clone()))]);
    let out = Fill::new()
        .compute::<Ieee>(&inputs, &params)
        .expect("fill computes");
    out.get("image").expect("image port produced").clone()
}

/// Run `paint.fill`, returning the error (panics on success).
fn fill_err(
    image: ResourceValue,
    mask: ResourceValue,
    value: &serde_json::Value,
) -> paintop_cpu::ir::Error {
    let mut inputs = Ports::new();
    inputs.insert("image".to_owned(), image);
    inputs.insert("mask".to_owned(), mask);
    let params = object(vec![("value", j(value.clone()))]);
    Fill::new()
        .compute::<Ieee>(&inputs, &params)
        .expect_err("fill must reject")
}

/// The descriptor inputs for `infer_outputs` / `required_inputs`.
fn descriptors(n: u32) -> Ports<ResourceDescriptor> {
    let mut inputs = Ports::new();
    inputs.insert(
        "image".to_owned(),
        ResourceDescriptor::Image(rgba_descriptor(n)),
    );
    inputs.insert(
        "mask".to_owned(),
        ResourceDescriptor::Mask(MaskDescriptor {
            extent: Extent::new(n, n),
            scalar: ScalarType::F32,
            range: unit_range(),
            meaning: MaskMeaning::Coverage,
            coordinates: CoordinateConvention::PixelCenterUpperLeft,
        }),
    );
    inputs
}

#[test]
fn fill_manifest_validates_and_agrees_with_contract() {
    let manifest = Fill::manifest().expect("fill manifest");
    manifest.validate().expect("manifest valid");
    check_contract_consistency(
        &manifest,
        &Fill::new().declared_inputs(),
        &Fill::new().declared_outputs(),
    ).expect("manifest agrees with contract");
    verify_categories(&manifest)
        .expect("verification declarations gate clean");
    assert_eq!(manifest.id.to_string(), FILL_OP_ID);
}

#[test]
fn produces_image_descriptor_matching_input() {
    let out = fill(
        rgba_image(8, 0.25),
        const_mask(8, 0.5),
        &array(vec![j(1.0), j(0.0), j(0.0), j(1.0)]),
    );
    let ResourceDescriptor::Image(d) = out.descriptor() else {
        panic!("expected image output");
    };
    assert_eq!(d.extent, Extent::new(8, 8));
    assert_eq!(d.layout, ChannelLayout::Rgba);
    assert_eq!(out.channels(), 4);
    assert_eq!(out.floats().len(), 8 * 8 * 4);
}

/// Analytic fixture: an empty mask (`m = 0`) is the identity, bit-exactly.
#[test]
fn empty_mask_is_identity_bit_exact() {
    let image = rgba_image(8, 0.375);
    let before: Vec<f32> = image.floats().to_vec();
    let out = fill(
        image,
        const_mask(8, 0.0),
        // A deliberately very different fill to prove only the mask gates it.
        &array(vec![j(0.9), j(0.9), j(0.9), j(0.9)]),
    );
    assert_eq!(out.floats(), before.as_slice());
}

/// Analytic fixture: a full mask (`m = 1`) reproduces the typed value exactly in
/// every channel of every pixel (type correctness, per-channel).
#[test]
fn full_mask_is_constant_value_bit_exact() {
    let value = [0.125_f32, 0.5, 0.75, 1.0];
    let out = fill(
        rgba_image(4, 0.0),
        const_mask(4, 1.0),
        &j(value),
    );
    for pixel in out.floats().chunks_exact(4) {
        for (c, &got) in pixel.iter().enumerate() {
            assert_eq!(got.to_bits(), value[c].to_bits(), "channel {c}");
        }
    }
}

/// The safety-critical property: wherever the mask is `0`, the output is
/// bit-identical to the input image, even with a per-pixel mask and an arbitrary
/// fill.
#[test]
fn outside_mask_is_bit_identical_to_input() {
    let n = 6;
    let pixels = (n * n) as usize;
    let base_samples: Vec<f32> = (0..pixels * 4)
        .map(|i| f32::from(u8::try_from(i % 251).unwrap()) / 251.0)
        .collect();
    // Checkerboard mask: even pixels filled (m=1), odd pixels untouched (m=0).
    let mask_samples: Vec<f32> = (0..pixels)
        .map(|i| if i % 2 == 0 { 1.0 } else { 0.0 })
        .collect();

    let out = fill(
        rgba_image_from(n, base_samples.clone()),
        mask_image(n, mask_samples.clone()),
        &array(vec![j(0.3), j(0.6), j(0.9), j(0.4)]),
    );
    let result = out.floats();
    for (pixel, &m) in mask_samples.iter().enumerate() {
        if m.to_bits() == 0.0_f32.to_bits() {
            for c in 0..4 {
                let idx = pixel * 4 + c;
                assert_eq!(
                    result[idx].to_bits(),
                    base_samples[idx].to_bits(),
                    "pixel {pixel} channel {c} changed outside the mask"
                );
            }
        }
    }
}

/// Soft-mask lerp property: at intermediate coverage each output channel lies
/// between the base and the fill, equals the analytic lerp, and is finite.
#[test]
fn soft_mask_lerps_between_base_and_value() {
    let n = 4;
    let base_val = 0.2_f32;
    let fill_val = 0.8_f32;
    let m = 0.25_f32;
    let out = fill(
        rgba_image(n, base_val),
        const_mask(n, m),
        &array(vec![j(fill_val), j(fill_val), j(fill_val), j(fill_val)]),
    );
    let expected = m.mul_add(fill_val - base_val, base_val);
    for &s in &out.floats() {
        assert!(s.is_finite(), "sample must be finite, got {s}");
        assert!(
            base_val <= s && s <= fill_val,
            "sample {s} not between base {base_val} and fill {fill_val}"
        );
        assert!((s - expected).abs() < 1e-6, "sample {s} != lerp {expected}");
    }
}

/// `infer_outputs` returns the input descriptor and `required_inputs` is pointwise
/// on both ports.
#[test]
fn contract_infers_input_and_pointwise_roi() {
    let inputs = descriptors(10);
    let params = object(vec![("value", array(vec![j(0.0), j(0.0), j(0.0), j(1.0)]))]);
    let outputs = Fill::new().infer_outputs(&inputs, &params).expect("infer");
    let ResourceDescriptor::Image(d) = outputs.get("image").expect("image out") else {
        panic!("expected image");
    };
    assert_eq!(d.extent, Extent::new(10, 10));

    let region = Rect::new(2, 3, 5, 6);
    let mut requested = Ports::new();
    requested.insert("image".to_owned(), region);
    let regions = Fill::new()
        .required_inputs(&requested, &inputs, &params)
        .expect("required inputs");
    for port in ["image", "mask"] {
        assert_eq!(regions.get(port), Some(&region), "port {port} ROI");
    }
}

/// The postcondition passes for a valid in-range value.
#[test]
fn postcondition_checks_value_in_range() {
    let inputs = descriptors(4);
    let params = object(vec![("value", array(vec![j(0.5), j(0.5), j(0.5), j(1.0)]))]);
    let outputs = Fill::new().infer_outputs(&inputs, &params).expect("infer");
    let results = Fill::new()
        .validate_postconditions(&outputs, &params)
        .expect("postconditions");
    assert!(
        results.iter().all(|r| r.status == AssertionStatus::Pass),
        "all postconditions pass: {results:?}"
    );
}

/// A value with the wrong number of components is rejected.
#[test]
fn wrong_value_length_is_rejected() {
    let err = fill_err(
        rgba_image(4, 0.0),
        const_mask(4, 1.0),
        &array(vec![j(0.5), j(0.5)]),
    );
    assert_eq!(err.class, ErrorClass::Schema);
    assert_eq!(err.code, E_FILL_VALUE);
}

/// A non-finite value component is rejected (the output must never be NaN/Inf).
#[test]
fn non_finite_value_is_rejected() {
    let err = fill_err(
        rgba_image(4, 0.0),
        const_mask(4, 1.0),
        // serde_json cannot hold NaN, so a string is the natural "not a number".
        &array(vec![j(0.5), j(0.5), j("nan"), j(1.0)]),
    );
    assert_eq!(err.class, ErrorClass::Schema);
    assert_eq!(err.code, E_FILL_VALUE);
}

/// An out-of-range color component for a display-referred image is rejected
/// (clamping is never implicit).
#[test]
fn out_of_range_display_color_is_rejected() {
    let err = fill_err(
        rgba_image(4, 0.0),
        const_mask(4, 1.0),
        &array(vec![j(1.5), j(0.0), j(0.0), j(1.0)]),
    );
    assert_eq!(err.class, ErrorClass::Policy);
    assert_eq!(err.code, E_FILL_VALUE);
}

/// An out-of-range alpha component is rejected regardless of the color range.
#[test]
fn out_of_range_alpha_is_rejected() {
    // Build a scene-referred image so the color channels are unbounded, isolating
    // the alpha range check.
    let mut d = rgba_descriptor(4);
    d.range = ColorRange::SceneReferred;
    let image = resource(ResourceDescriptor::Image(d), 4, vec![0.0; 4 * 4 * 4])
        .expect("scene image");
    let err = fill_err(
        image,
        const_mask(4, 1.0),
        &array(vec![j(2.0), j(2.0), j(2.0), j(1.5)]),
    );
    assert_eq!(err.class, ErrorClass::Policy);
    assert_eq!(err.code, E_FILL_VALUE);
}

/// A scene-referred color channel accepts an out-of-[0,1] (but finite) fill.
#[test]
fn scene_referred_allows_extended_range() {
    let mut d = rgba_descriptor(2);
    d.range = ColorRange::SceneReferred;
    let image = resource(ResourceDescriptor::Image(d), 4, vec![0.0; 2 * 2 * 4])
        .expect("scene image");
    let out = fill(
        image,
        const_mask(2, 1.0),
        &array(vec![j(4.0), j(2.0), j(8.0), j(1.0)]),
    );
    let expected = [4.0_f32, 2.0, 8.0, 1.0];
    for pixel in out.floats().chunks_exact(4) {
        for (c, &got) in pixel.iter().enumerate() {
            assert_eq!(got.to_bits(), expected[c].to_bits());
        }
    }
}

/// A mask whose extent differs from the image is rejected.
#[test]
fn mask_extent_mismatch_is_rejected() {
    let err = fill_err(
        rgba_image(4, 0.0),
        const_mask(2, 1.0),
        &array(vec![j(0.5), j(0.5), j(0.5), j(1.0)]),
    );
    assert_eq!(err.class, ErrorClass::Semantic);
    assert_eq!(err.code, E_FILL_SHAPE);
}

/// A missing `mask` port is a reference error.
#[test]
fn missing_mask_is_rejected() {
    let mut inputs = Ports::new();
    inputs.insert("image".to_owned(), rgba_image(4, 0.0));
    let params = object(vec![("value", array(vec![j(0.5), j(0.5), j(0.5), j(1.0)]))]);
    let err = Fill::new()
        .compute::<Ieee>(&inputs, &params)
        .expect_err("missing mask must be rejected");
    assert_eq!(err.class, ErrorClass::Reference);
    assert_eq!(err.code, E_FILL_INPUT);
}
