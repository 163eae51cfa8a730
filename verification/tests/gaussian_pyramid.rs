//! Gaussian pyramids.
use paintop_cpu::arithmetic::Arithmetic;
use paintop_cpu::gaussian_pyramid::{
    build_pyramid_samples, GaussianPyramid, PyramidParams, GAUSSIAN_PYRAMID_OP_ID,
};
use paintop_cpu::ir::{
    AlphaRepresentation, ChannelLayout, ColorEncoding, ColorRange, CoordinateConvention, Extent,
    ImageDescriptor, PyramidPhase, ResourceDescriptor, ScalarType, SemanticRole,
};
use paintop_cpu::manifest::{OperationManifest};
use paintop_cpu::ports::Ports;
use paintop_cpu::value::ResourceValue;

/// IEEE arithmetic on patterns.
struct Ieee;

fn wide(a: u64) -> f64 {
    f64::from_bits(a)
}

fn small(a: u32) -> f32 {
    f32::from_bits(a)
}

/// The pattern of a result. A result that is no number has one pattern, so that equal operands give
/// one result.
fn wide_pattern(x: f64) -> u64 {
    if x.is_nan() {
        0x7ff8_0000_0000_0000
    } else {
        x.to_bits()
    }
}

/// The pattern of a sample that an operation gives.
fn small_pattern(x: f32) -> u32 {
    if x.is_nan() {
        0x7fc0_0000
    } else {
        x.to_bits()
    }
}

impl Arithmetic for Ieee {
    /// What is no number keeps its sign and payload.
    fn widen(a: u32) -> u64 {
        if small(a).is_nan() {
            let sign = u64::from(a >> 31) << 63;
            sign | 0x7ff0_0000_0000_0000 | (u64::from(a & 0x007f_ffff) << 29)
        } else {
            f64::from(small(a)).to_bits()
        }
    }
    /// What is no number keeps its sign and the upper part of its payload.
    fn narrow(a: u64) -> u32 {
        if wide(a).is_nan() {
            let sign = ((a >> 63) as u32) << 31;
            let payload = ((a >> 29) as u32) & 0x007f_ffff;
            sign | 0x7f80_0000 | if payload == 0 { 0x0040_0000 } else { payload }
        } else {
            (wide(a) as f32).to_bits()
        }
    }
    fn whole(a: i64) -> u64 {
        wide_pattern(a as f64)
    }
    fn tally(a: u64) -> u64 {
        wide_pattern(a as f64)
    }
    fn plus(a: u64, b: u64) -> u64 {
        wide_pattern(wide(a) + wide(b))
    }
    fn minus(a: u64, b: u64) -> u64 {
        wide_pattern(wide(a) - wide(b))
    }
    fn times(a: u64, b: u64) -> u64 {
        wide_pattern(wide(a) * wide(b))
    }
    fn over(a: u64, b: u64) -> u64 {
        wide_pattern(wide(a) / wide(b))
    }
    fn fused(a: u64, b: u64, c: u64) -> u64 {
        wide_pattern(wide(a).mul_add(wide(b), wide(c)))
    }
    fn root(a: u64) -> u64 {
        wide_pattern(wide(a).sqrt())
    }
    fn hypotenuse(a: u64, b: u64) -> u64 {
        wide_pattern(wide(a).hypot(wide(b)))
    }
    fn exponential(a: u64) -> u64 {
        wide_pattern(wide(a).exp())
    }
    fn cosine(a: u64) -> u64 {
        wide_pattern(wide(a).cos())
    }
    fn sine(a: u64) -> u64 {
        wide_pattern(wide(a).sin())
    }
    fn round_down(a: u64) -> u64 {
        wide_pattern(wide(a).floor())
    }
    fn round_up(a: u64) -> u64 {
        wide_pattern(wide(a).ceil())
    }
    fn to_integer(a: u64) -> i64 {
        wide(a) as i64
    }
    fn sample_plus(a: u32, b: u32) -> u32 {
        small_pattern(small(a) + small(b))
    }
    fn sample_minus(a: u32, b: u32) -> u32 {
        small_pattern(small(a) - small(b))
    }
    fn sample_over(a: u32, b: u32) -> u32 {
        small_pattern(small(a) / small(b))
    }
    fn sample_fused(a: u32, b: u32, c: u32) -> u32 {
        small_pattern(small(a).mul_add(small(b), small(c)))
    }
    fn sample_root(a: u32) -> u32 {
        small_pattern(small(a).sqrt())
    }
    fn sample_power(a: u32, b: u32) -> u32 {
        small_pattern(small(a).powf(small(b)))
    }
}

fn bits(samples: &[f32]) -> Vec<u32> {
    samples.iter().map(|s| s.to_bits()).collect()
}

fn unbits(samples: &[u32]) -> Vec<f32> {
    samples.iter().map(|s| f32::from_bits(*s)).collect()
}

/// A resource of float samples.
fn resource(
    descriptor: ResourceDescriptor,
    channels: u32,
    samples: Vec<f32>,
) -> Result<ResourceValue, usize> {
    ResourceValue::new(descriptor, channels, bits(&samples))
}

trait Floats {
    fn floats(&self) -> Vec<f32>;
}

impl Floats for ResourceValue {
    fn floats(&self) -> Vec<f32> {
        unbits(self.samples())
    }
}

fn j<T: Into<serde_json::Value>>(value: T) -> serde_json::Value {
    value.into()
}

fn object(members: Vec<(&str, serde_json::Value)>) -> serde_json::Value {
    let mut map = serde_json::Map::new();
    for (name, value) in members {
        map.insert(name.to_owned(), value);
    }
    serde_json::Value::Object(map)
}

fn level_of(pyramid: &ResourceValue, level: u32) -> Vec<f32> {
    unbits(&pyramid.pyramid_level(level).unwrap())
}

fn built(base: &[f32], extent: Extent, channels: u32, params: PyramidParams) -> Vec<f32> {
    unbits(&build_pyramid_samples::<Ieee>(&bits(base), extent, channels, params))
}

fn image_descriptor(extent: Extent, layout: ChannelLayout) -> ResourceDescriptor {
    ResourceDescriptor::Image(ImageDescriptor {
        extent,
        layout,
        scalar: ScalarType::F32,
        color: ColorEncoding::LinearSrgb,
        range: ColorRange::SceneReferred,
        alpha: AlphaRepresentation::Premultiplied,
        coordinates: CoordinateConvention::PixelCenterUpperLeft,
        semantic: SemanticRole::Color,
    })
}

fn image_value(extent: Extent, layout: ChannelLayout, samples: Vec<f32>) -> ResourceValue {
    resource(
        image_descriptor(extent, layout),
        layout.channel_count(),
        samples,
    )
    .unwrap()
}

fn run(input: ResourceValue, params: &serde_json::Value) -> ResourceValue {
    let mut inputs = Ports::new();
    inputs.insert("input".to_owned(), input);
    let out = GaussianPyramid::new().compute::<Ieee>(&inputs, params).unwrap();
    out.get("pyramid").unwrap().clone()
}

#[test]
fn gaussian_pyramid_manifest_validates_and_matches_id() {
    let m: OperationManifest = GaussianPyramid::manifest().unwrap();
    m.validate().unwrap();
    assert_eq!(m.id.to_string(), GAUSSIAN_PYRAMID_OP_ID);
}

#[test]
fn level_zero_is_the_input_verbatim() {
    let base: Vec<f32> = (0..16u16).map(f32::from).collect();
    let value = image_value(Extent::new(4, 4), ChannelLayout::Gray, base.clone());
    let pyramid = run(value, &object(vec![("levels", j(3))]));
    assert_eq!(level_of(&pyramid, 0), base.as_slice());
}

#[test]
fn derived_level_extents_follow_the_floor_phase() {
    let base = vec![0.5_f32; 8 * 8];
    let value = image_value(Extent::new(8, 8), ChannelLayout::Gray, base);
    let pyramid = run(value, &object(vec![("levels", j(4)), ("phase", j("floor"))]));
    assert_eq!(level_of(&pyramid, 0).len(), 64);
    assert_eq!(level_of(&pyramid, 1).len(), 16);
    assert_eq!(level_of(&pyramid, 2).len(), 4);
    assert_eq!(level_of(&pyramid, 3).len(), 1);
}

#[test]
fn constant_image_yields_constant_levels() {
    let base = vec![0.25_f32; 8 * 8];
    let value = image_value(Extent::new(8, 8), ChannelLayout::Gray, base);
    let pyramid = run(value, &object(vec![("levels", j(4))]));
    for level in 0..4 {
        for &v in &level_of(&pyramid, level) {
            assert!((v - 0.25).abs() < 1e-6, "level {level}: {v}");
        }
    }
}

#[test]
fn odd_extent_floor_and_ceil_differ() {
    let base = vec![0.0_f32; 5 * 5];
    let value = image_value(Extent::new(5, 5), ChannelLayout::Gray, base.clone());
    let floor = run(value, &object(vec![("levels", j(2)), ("phase", j("floor"))]));
    assert_eq!(level_of(&floor, 1).len(), 4); // 2x2

    let value = image_value(Extent::new(5, 5), ChannelLayout::Gray, base);
    let ceil = run(value, &object(vec![("levels", j(2)), ("phase", j("ceil"))]));
    assert_eq!(level_of(&ceil, 1).len(), 9); // 3x3
}

#[test]
fn one_level_pyramid_is_just_the_base() {
    let base: Vec<f32> = (0..15u16).map(|i| f32::from(i) * 0.1).collect();
    let value = image_value(Extent::new(5, 3), ChannelLayout::Gray, base.clone());
    let pyramid = run(value, &object(vec![("levels", j(1))]));
    assert_eq!(level_of(&pyramid, 0), base.as_slice());
    assert!(pyramid.pyramid_level(1).is_none());
}

#[test]
fn impulse_energy_spreads_but_is_bounded() {
    // A single bright pixel: each coarser level's peak is <= the base peak
    // (a positive normalized blur cannot amplify), and the total stays positive.
    let mut base = vec![0.0_f32; 8 * 8];
    base[4 * 8 + 4] = 1.0; // center-ish impulse
    let value = image_value(Extent::new(8, 8), ChannelLayout::Gray, base);
    let pyramid = run(value, &object(vec![("levels", j(3))]));
    let base_peak = level_of(&pyramid, 0)
        .iter()
        .copied()
        .fold(0.0_f32, f32::max);
    assert!((base_peak - 1.0).abs() < 1e-6);
    for level in 1..3 {
        let peak = level_of(&pyramid, level)
            .iter()
            .copied()
            .fold(0.0_f32, f32::max);
        assert!(
            peak <= base_peak + 1e-6,
            "level {level} peak {peak} exceeds base"
        );
        assert!(peak >= 0.0);
    }
}

#[test]
fn build_is_deterministic_bit_for_bit() {
    let base: Vec<f32> = (0..16u16 * 16)
        .map(|i| f32::from((i.wrapping_mul(37)) % 101) / 101.0)
        .collect();
    let params = PyramidParams {
        levels: 4,
        sigma: 1.0_f64.to_bits(),
        phase: PyramidPhase::Floor,
    };
    let a = built(&base, Extent::new(16, 16), 1, params);
    let b = built(&base, Extent::new(16, 16), 1, params);
    assert_eq!(a, b, "pyramid build must be bit-identical across runs");
}

#[test]
fn rgba_channels_are_built_independently() {
    // Each channel a distinct constant; every level preserves the per-channel
    // constants (no cross-channel bleed in the separable blur).
    let mut base = Vec::new();
    for _ in 0..16 {
        base.extend_from_slice(&[0.1, 0.2, 0.3, 0.4]);
    }
    let value = image_value(Extent::new(4, 4), ChannelLayout::Rgba, base);
    let pyramid = run(value, &object(vec![("levels", j(3))]));
    assert_eq!(pyramid.channels(), 4);
    for level in 0..3 {
        for pixel in level_of(&pyramid, level).chunks_exact(4) {
            assert!((pixel[0] - 0.1).abs() < 1e-6);
            assert!((pixel[1] - 0.2).abs() < 1e-6);
            assert!((pixel[2] - 0.3).abs() < 1e-6);
            assert!((pixel[3] - 0.4).abs() < 1e-6);
        }
    }
}

#[test]
fn rejects_zero_levels_and_bad_phase() {
    let value = image_value(Extent::new(4, 4), ChannelLayout::Gray, vec![0.0; 16]);
    let mut inputs = Ports::new();
    inputs.insert("input".to_owned(), value);
    assert!(
        GaussianPyramid::new()
            .compute::<Ieee>(&inputs, &object(vec![("levels", j(0))]))
            .is_err()
    );
    assert!(
        GaussianPyramid::new()
            .compute::<Ieee>(&inputs, &object(vec![("levels", j(2)), ("phase", j("weird"))]))
            .is_err()
    );
}
