//! Cropping.
use paintop_cpu::crop::{Crop, CROP_OP_ID, E_CROP_BOUNDS, E_CROP_RECT};
use paintop_cpu::ir::{
    AlphaRepresentation, ChannelLayout, ColorEncoding, ColorRange, CoordinateConvention,
    ErrorClass, Extent, ImageDescriptor, Rect, ResourceDescriptor, ScalarType, SemanticRole,
};
use paintop_cpu::manifest::{check_contract_consistency, verify_categories};
use paintop_cpu::ports::Ports;
use paintop_cpu::value::ResourceValue;

fn bits(samples: &[f32]) -> Vec<u32> {
    samples.iter().map(|s| s.to_bits()).collect()
}

fn unbits(samples: &[u32]) -> Vec<f32> {
    samples.iter().map(|s| f32::from_bits(*s)).collect()
}

/// A resource of float samples.
fn resource(
    descriptor: ResourceDescriptor,
    channels: u32,
    samples: Vec<f32>,
) -> Result<ResourceValue, usize> {
    ResourceValue::new(descriptor, channels, bits(&samples))
}

trait Floats {
    fn floats(&self) -> Vec<f32>;
}

impl Floats for ResourceValue {
    fn floats(&self) -> Vec<f32> {
        unbits(self.samples())
    }
}

fn j<T: Into<serde_json::Value>>(value: T) -> serde_json::Value {
    value.into()
}

fn object(members: Vec<(&str, serde_json::Value)>) -> serde_json::Value {
    let mut map = serde_json::Map::new();
    for (name, value) in members {
        map.insert(name.to_owned(), value);
    }
    serde_json::Value::Object(map)
}

/// Build an RGBA image whose samples encode `(x, y, channel)` so a crop is easy
/// to verify positionally: `sample(x, y, c) = (y * width + x) * 4 + c`.
fn ramp_image(width: u32, height: u32) -> ResourceValue {
    let mut samples = Vec::new();
    for y in 0..height {
        for x in 0..width {
            for c in 0..4u32 {
                let v = ((y * width + x) * 4 + c) as f32;
                samples.push(v);
            }
        }
    }
    image_value(width, height, ChannelLayout::Rgba, samples)
}

/// Build an image [`ResourceValue`] with the given layout/samples.
fn image_value(width: u32, height: u32, layout: ChannelLayout, samples: Vec<f32>) -> ResourceValue {
    let descriptor = ResourceDescriptor::Image(ImageDescriptor {
        extent: Extent::new(width, height),
        layout,
        scalar: ScalarType::F32,
        color: ColorEncoding::Srgb,
        range: ColorRange::DisplayReferred,
        alpha: AlphaRepresentation::Straight,
        coordinates: CoordinateConvention::PixelCenterUpperLeft,
        semantic: SemanticRole::Color,
    });
    resource(descriptor, layout.channel_count(), samples)
        .expect("sample buffer matches descriptor")
}

/// Run the crop kernel and recover the output image.
fn crop(value: &ResourceValue, rect: Rect) -> ResourceValue {
    let mut inputs = Ports::new();
    inputs.insert("image".to_owned(), value.clone());
    let params = object(vec![("rect", object(vec![("x0", j(rect.x0)), ("y0", j(rect.y0)), ("x1", j(rect.x1)), ("y1", j(rect.y1))]))]);
    let out = Crop::new()
        .compute(&inputs, &params)
        .expect("crop computes");
    out.get("image").expect("image port produced").clone()
}

#[test]
fn crop_manifest_validates_and_agrees_with_contract() {
    let manifest = Crop::manifest().expect("crop manifest");
    manifest.validate().expect("crop manifest valid");
    check_contract_consistency(
        &manifest,
        &Crop::new().declared_inputs(),
        &Crop::new().declared_outputs(),
    )
    .expect("crop manifest agrees with contract");
    verify_categories(&manifest)
        .expect("crop verification declarations gate clean");
    assert_eq!(manifest.id.to_string(), CROP_OP_ID);
}

#[test]
fn crop_selects_exact_half_open_window() {
    // A 4x3 ramp; crop [1, 3) x [1, 3) => a 2x2 image of pixels (1,1),(2,1),(1,2),(2,2).
    let img = ramp_image(4, 3);
    let out = crop(&img, Rect::new(1, 1, 3, 3));
    assert_eq!(out.extent(), Extent::new(2, 2));
    // Expected sample base index for pixel (x, y) is (y*4 + x)*4.
    let want: Vec<f32> = [(1, 1), (2, 1), (1, 2), (2, 2)]
        .iter()
        .flat_map(|&(x, y)| {
            let base = (y * 4 + x) * 4;
            (0..4).map(move |c| (base + c) as f32)
        })
        .collect();
    assert_eq!(out.floats(), want.as_slice());
}

#[test]
fn single_pixel_crop_is_one_pixel() {
    let img = ramp_image(4, 3);
    let out = crop(&img, Rect::new(2, 1, 3, 2));
    assert_eq!(out.extent(), Extent::new(1, 1));
    // Pixel (2, 1) has base sample index (1 * 4 + 2) * 4 = 24.
    let base = 24;
    let want: Vec<f32> = (0..4).map(|c| (base + c) as f32).collect();
    assert_eq!(out.floats(), want.as_slice());
}

#[test]
fn full_extent_crop_is_exact_identity() {
    let img = ramp_image(5, 4);
    let out = crop(&img, Rect::new(0, 0, 5, 4));
    assert_eq!(out.extent(), Extent::new(5, 4));
    assert_eq!(out.floats(), img.floats());
}

#[test]
fn empty_rect_yields_zero_area_image() {
    let img = ramp_image(4, 3);
    // x0 == x1 => zero width but well-formed.
    let out = crop(&img, Rect::new(2, 1, 2, 3));
    assert_eq!(out.extent(), Extent::new(0, 2));
    assert!(out.floats().is_empty());
}

#[test]
fn nested_crop_is_associative() {
    // crop(crop(img, outer), inner) == crop(img, inner shifted by outer origin).
    let img = ramp_image(8, 8);
    let outer = Rect::new(2, 1, 7, 6); // a 5x5 window at origin (2,1)
    let mid = crop(&img, outer);
    let inner = Rect::new(1, 1, 4, 3); // within the 5x5
    let nested = crop(&mid, inner);
    // Composed crop directly on the original.
    let direct = crop(&img, Rect::new(2 + 1, 1 + 1, 2 + 4, 1 + 3));
    assert_eq!(nested.extent(), direct.extent());
    assert_eq!(nested.floats(), direct.floats());
}

#[test]
fn ill_formed_rect_is_rejected() {
    let img = ramp_image(4, 3);
    let mut inputs = Ports::new();
    inputs.insert("image".to_owned(), img);
    let params = object(vec![("rect", object(vec![("x0", j(3)), ("y0", j(0)), ("x1", j(1)), ("y1", j(2))]))]);
    let err = Crop::new()
        .compute(&inputs, &params)
        .expect_err("x1 < x0 must be rejected");
    assert_eq!(err.class, ErrorClass::Schema);
    assert_eq!(err.code, E_CROP_RECT);
}

#[test]
fn out_of_bounds_rect_is_rejected() {
    let img = ramp_image(4, 3);
    let mut inputs = Ports::new();
    inputs.insert("image".to_owned(), img);
    // x1 = 5 escapes width 4.
    let params = object(vec![("rect", object(vec![("x0", j(0)), ("y0", j(0)), ("x1", j(5)), ("y1", j(2))]))]);
    let err = Crop::new()
        .compute(&inputs, &params)
        .expect_err("out-of-bounds rect must be rejected");
    assert_eq!(err.class, ErrorClass::Semantic);
    assert_eq!(err.code, E_CROP_BOUNDS);
}

#[test]
fn negative_origin_is_rejected() {
    let img = ramp_image(4, 3);
    let mut inputs = Ports::new();
    inputs.insert("image".to_owned(), img);
    let params = object(vec![("rect", object(vec![("x0", j(-1)), ("y0", j(0)), ("x1", j(2)), ("y1", j(2))]))]);
    let err = Crop::new()
        .compute(&inputs, &params)
        .expect_err("negative origin must be rejected");
    assert_eq!(err.class, ErrorClass::Semantic);
    assert_eq!(err.code, E_CROP_BOUNDS);
}

#[test]
fn infer_outputs_matches_rect_extent_and_geometric_roi() {
    let descriptor = ResourceDescriptor::Image(ImageDescriptor {
        extent: Extent::new(10, 8),
        layout: ChannelLayout::Rgb,
        scalar: ScalarType::F32,
        color: ColorEncoding::Srgb,
        range: ColorRange::DisplayReferred,
        alpha: AlphaRepresentation::Straight,
        coordinates: CoordinateConvention::PixelCenterUpperLeft,
        semantic: SemanticRole::Color,
    });
    let mut inputs = Ports::new();
    inputs.insert("image".to_owned(), descriptor);
    let params = object(vec![("rect", object(vec![("x0", j(2)), ("y0", j(3)), ("x1", j(7)), ("y1", j(6))]))]);

    let out = Crop::new().infer_outputs(&inputs, &params).expect("infer");
    let ResourceDescriptor::Image(d) = (*out.get("image").unwrap()) else {
        panic!("expected image");
    };
    assert_eq!(d.extent, Extent::new(5, 3));
    assert_eq!(d.layout, ChannelLayout::Rgb);

    // Geometric ROI: an output region maps to the same region shifted by (x0, y0).
    let mut requested = Ports::new();
    requested.insert("image".to_owned(), Rect::new(0, 0, 2, 2));
    let needed = Crop::new()
        .required_inputs(&requested, &inputs, &params)
        .expect("required_inputs");
    assert_eq!((*needed.get("image").unwrap()), Rect::new(2, 3, 4, 5));
}
