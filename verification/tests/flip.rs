//! Flipping.
use paintop_cpu::flip::{Flip, E_FLIP_AXIS, FLIP_OP_ID};
use paintop_cpu::ir::{
    AlphaRepresentation, ChannelLayout, ColorEncoding, ColorRange, CoordinateConvention,
    ErrorClass, Extent, ImageDescriptor, Rect, ResourceDescriptor, ScalarType, SemanticRole,
};
use paintop_cpu::manifest::{check_contract_consistency, verify_categories};
use paintop_cpu::ports::Ports;
use paintop_cpu::value::ResourceValue;

fn bits(samples: &[f32]) -> Vec<u32> {
    samples.iter().map(|s| s.to_bits()).collect()
}

fn unbits(samples: &[u32]) -> Vec<f32> {
    samples.iter().map(|s| f32::from_bits(*s)).collect()
}

/// A resource of float samples.
fn resource(
    descriptor: ResourceDescriptor,
    channels: u32,
    samples: Vec<f32>,
) -> Result<ResourceValue, usize> {
    ResourceValue::new(descriptor, channels, bits(&samples))
}

trait Floats {
    fn floats(&self) -> Vec<f32>;
}

impl Floats for ResourceValue {
    fn floats(&self) -> Vec<f32> {
        unbits(self.samples())
    }
}

fn j<T: Into<serde_json::Value>>(value: T) -> serde_json::Value {
    value.into()
}

fn object(members: Vec<(&str, serde_json::Value)>) -> serde_json::Value {
    let mut map = serde_json::Map::new();
    for (name, value) in members {
        map.insert(name.to_owned(), value);
    }
    serde_json::Value::Object(map)
}

/// Whether two resources hold the same patterns.
fn samples_bit_identical(a: &ResourceValue, b: &ResourceValue) -> bool {
    a.samples() == b.samples()
}

/// Applying `f` twice gives the resource back, pattern for pattern.
fn assert_involution(value: &ResourceValue, f: impl Fn(&ResourceValue) -> ResourceValue) {
    assert!(samples_bit_identical(&f(&f(value)), value));
}

/// Build an RGBA ramp whose samples encode `(x, y, channel)` positionally:
/// `sample(x, y, c) = (y * width + x) * 4 + c`.
fn ramp_image(width: u32, height: u32) -> ResourceValue {
    let mut samples = Vec::new();
    for y in 0..height {
        for x in 0..width {
            for c in 0..4u32 {
                samples.push(((y * width + x) * 4 + c) as f32);
            }
        }
    }
    image_value(width, height, ChannelLayout::Rgba, samples)
}

/// Build an image [`ResourceValue`] with the given layout/samples.
fn image_value(width: u32, height: u32, layout: ChannelLayout, samples: Vec<f32>) -> ResourceValue {
    let descriptor = ResourceDescriptor::Image(ImageDescriptor {
        extent: Extent::new(width, height),
        layout,
        scalar: ScalarType::F32,
        color: ColorEncoding::Srgb,
        range: ColorRange::DisplayReferred,
        alpha: AlphaRepresentation::Straight,
        coordinates: CoordinateConvention::PixelCenterUpperLeft,
        semantic: SemanticRole::Color,
    });
    resource(descriptor, layout.channel_count(), samples)
        .expect("sample buffer matches descriptor")
}

/// Run the flip kernel for `axis` and recover the output image.
fn flip(value: &ResourceValue, axis: &str) -> ResourceValue {
    let mut inputs = Ports::new();
    inputs.insert("image".to_owned(), value.clone());
    let params = object(vec![("axis", j(axis))]);
    let out = Flip::new()
        .compute(&inputs, &params)
        .expect("flip computes");
    out.get("image").expect("image port produced").clone()
}

/// The base sample index of pixel `(x, y)` in a width-`w` RGBA ramp.
fn ramp_base(x: u32, y: u32, w: u32) -> f32 {
    ((y * w + x) * 4) as f32
}

#[test]
fn flip_manifest_validates_and_agrees_with_contract() {
    let manifest = Flip::manifest().expect("flip manifest");
    manifest.validate().expect("flip manifest valid");
    check_contract_consistency(
        &manifest,
        &Flip::new().declared_inputs(),
        &Flip::new().declared_outputs(),
    )
    .expect("flip manifest agrees with contract");
    verify_categories(&manifest)
        .expect("flip verification declarations gate clean");
    assert_eq!(manifest.id.to_string(), FLIP_OP_ID);
}

#[test]
fn horizontal_flip_reverses_columns() {
    // 3x2 ramp; out(x, y) = in(2-x, y).
    let img = ramp_image(3, 2);
    let out = flip(&img, "horizontal");
    assert_eq!(out.extent(), Extent::new(3, 2));
    for y in 0..2 {
        for x in 0..3 {
            let got = out.floats()[((y * 3 + x) * 4) as usize];
            assert!((got - ramp_base(2 - x, y, 3)).abs() < f32::EPSILON);
        }
    }
}

#[test]
fn vertical_flip_reverses_rows() {
    let img = ramp_image(3, 2);
    let out = flip(&img, "vertical");
    assert_eq!(out.extent(), Extent::new(3, 2));
    for y in 0..2 {
        for x in 0..3 {
            let got = out.floats()[((y * 3 + x) * 4) as usize];
            assert!((got - ramp_base(x, 1 - y, 3)).abs() < f32::EPSILON);
        }
    }
}

#[test]
fn both_flip_reverses_both_axes() {
    let img = ramp_image(3, 2);
    let out = flip(&img, "both");
    for y in 0..2 {
        for x in 0..3 {
            let got = out.floats()[((y * 3 + x) * 4) as usize];
            assert!((got - ramp_base(2 - x, 1 - y, 3)).abs() < f32::EPSILON);
        }
    }
}

#[test]
fn every_flip_is_an_involution() {
    // Double-flip identity.
    let img = ramp_image(4, 3);
    for axis in ["horizontal", "vertical", "both"] {
        assert_involution(&img, |v| flip(v, axis));
    }
}

#[test]
fn horizontal_then_vertical_equals_both() {
    let img = ramp_image(4, 3);
    let hv = flip(&flip(&img, "horizontal"), "vertical");
    let both = flip(&img, "both");
    assert!(samples_bit_identical(&hv, &both));
}

#[test]
fn missing_axis_is_rejected() {
    let img = ramp_image(2, 2);
    let mut inputs = Ports::new();
    inputs.insert("image".to_owned(), img);
    let err = Flip::new()
        .compute(&inputs, &object(vec![]))
        .expect_err("missing axis must be rejected");
    assert_eq!(err.class, ErrorClass::Schema);
    assert_eq!(err.code, E_FLIP_AXIS);
}

#[test]
fn unknown_axis_is_rejected() {
    let img = ramp_image(2, 2);
    let mut inputs = Ports::new();
    inputs.insert("image".to_owned(), img);
    let err = Flip::new()
        .compute(&inputs, &object(vec![("axis", j("diagonal"))]))
        .expect_err("unknown axis must be rejected");
    assert_eq!(err.class, ErrorClass::Schema);
    assert_eq!(err.code, E_FLIP_AXIS);
}

#[test]
fn infer_outputs_preserves_extent_and_maps_roi() {
    let descriptor = ResourceDescriptor::Image(ImageDescriptor {
        extent: Extent::new(10, 8),
        layout: ChannelLayout::Rgb,
        scalar: ScalarType::F32,
        color: ColorEncoding::Srgb,
        range: ColorRange::DisplayReferred,
        alpha: AlphaRepresentation::Straight,
        coordinates: CoordinateConvention::PixelCenterUpperLeft,
        semantic: SemanticRole::Color,
    });
    let mut inputs = Ports::new();
    inputs.insert("image".to_owned(), descriptor);
    let params = object(vec![("axis", j("horizontal"))]);

    let out = Flip::new().infer_outputs(&inputs, &params).expect("infer");
    let ResourceDescriptor::Image(d) = (*out.get("image").unwrap()) else {
        panic!("expected image");
    };
    assert_eq!(d.extent, Extent::new(10, 8));

    // Horizontal flip: an output region [x0, x1) maps to [W-x1, W-x0).
    let mut requested = Ports::new();
    requested.insert("image".to_owned(), Rect::new(1, 2, 4, 5));
    let needed = Flip::new()
        .required_inputs(&requested, &inputs, &params)
        .expect("required_inputs");
    assert_eq!((*needed.get("image").unwrap()), Rect::new(6, 2, 9, 5));
}
