//! Colour gradients.
use paintop_cpu::arithmetic::Arithmetic;
use paintop_cpu::gradient::{
    LinearGradient, RadialGradient, E_GRADIENT_PARAM, E_GRADIENT_STOPS, LINEAR_GRADIENT_OP_ID,
    RADIAL_GRADIENT_OP_ID,
};
use paintop_cpu::ir::{
    AlphaRepresentation, ChannelLayout, ColorEncoding, ColorRange, CoordinateConvention,
    ErrorClass, Extent, ImageDescriptor, ResourceDescriptor, ScalarType, SemanticRole,
};
use paintop_cpu::manifest::{check_contract_consistency, verify_categories};
use paintop_cpu::ports::Ports;
use paintop_cpu::value::ResourceValue;

/// IEEE arithmetic on patterns.
struct Ieee;

fn wide(a: u64) -> f64 {
    f64::from_bits(a)
}

fn small(a: u32) -> f32 {
    f32::from_bits(a)
}

/// The pattern of a result. A result that is no number has one pattern, so that equal operands give
/// one result.
fn wide_pattern(x: f64) -> u64 {
    if x.is_nan() {
        0x7ff8_0000_0000_0000
    } else {
        x.to_bits()
    }
}

/// The pattern of a sample that an operation gives.
fn small_pattern(x: f32) -> u32 {
    if x.is_nan() {
        0x7fc0_0000
    } else {
        x.to_bits()
    }
}

impl Arithmetic for Ieee {
    /// What is no number keeps its sign and payload.
    fn widen(a: u32) -> u64 {
        if small(a).is_nan() {
            let sign = u64::from(a >> 31) << 63;
            sign | 0x7ff0_0000_0000_0000 | (u64::from(a & 0x007f_ffff) << 29)
        } else {
            f64::from(small(a)).to_bits()
        }
    }
    /// What is no number keeps its sign and the upper part of its payload.
    fn narrow(a: u64) -> u32 {
        if wide(a).is_nan() {
            let sign = ((a >> 63) as u32) << 31;
            let payload = ((a >> 29) as u32) & 0x007f_ffff;
            sign | 0x7f80_0000 | if payload == 0 { 0x0040_0000 } else { payload }
        } else {
            (wide(a) as f32).to_bits()
        }
    }
    fn whole(a: i64) -> u64 {
        wide_pattern(a as f64)
    }
    fn tally(a: u64) -> u64 {
        wide_pattern(a as f64)
    }
    fn plus(a: u64, b: u64) -> u64 {
        wide_pattern(wide(a) + wide(b))
    }
    fn minus(a: u64, b: u64) -> u64 {
        wide_pattern(wide(a) - wide(b))
    }
    fn times(a: u64, b: u64) -> u64 {
        wide_pattern(wide(a) * wide(b))
    }
    fn over(a: u64, b: u64) -> u64 {
        wide_pattern(wide(a) / wide(b))
    }
    fn fused(a: u64, b: u64, c: u64) -> u64 {
        wide_pattern(wide(a).mul_add(wide(b), wide(c)))
    }
    fn root(a: u64) -> u64 {
        wide_pattern(wide(a).sqrt())
    }
    fn hypotenuse(a: u64, b: u64) -> u64 {
        wide_pattern(wide(a).hypot(wide(b)))
    }
    fn exponential(a: u64) -> u64 {
        wide_pattern(wide(a).exp())
    }
    fn cosine(a: u64) -> u64 {
        wide_pattern(wide(a).cos())
    }
    fn sine(a: u64) -> u64 {
        wide_pattern(wide(a).sin())
    }
    fn round_down(a: u64) -> u64 {
        wide_pattern(wide(a).floor())
    }
    fn round_up(a: u64) -> u64 {
        wide_pattern(wide(a).ceil())
    }
    fn to_integer(a: u64) -> i64 {
        wide(a) as i64
    }
    fn sample_plus(a: u32, b: u32) -> u32 {
        small_pattern(small(a) + small(b))
    }
    fn sample_minus(a: u32, b: u32) -> u32 {
        small_pattern(small(a) - small(b))
    }
    fn sample_over(a: u32, b: u32) -> u32 {
        small_pattern(small(a) / small(b))
    }
    fn sample_fused(a: u32, b: u32, c: u32) -> u32 {
        small_pattern(small(a).mul_add(small(b), small(c)))
    }
    fn sample_root(a: u32) -> u32 {
        small_pattern(small(a).sqrt())
    }
    fn sample_power(a: u32, b: u32) -> u32 {
        small_pattern(small(a).powf(small(b)))
    }
}

fn bits(samples: &[f32]) -> Vec<u32> {
    samples.iter().map(|s| s.to_bits()).collect()
}

fn unbits(samples: &[u32]) -> Vec<f32> {
    samples.iter().map(|s| f32::from_bits(*s)).collect()
}

/// A resource of float samples.
fn resource(
    descriptor: ResourceDescriptor,
    channels: u32,
    samples: Vec<f32>,
) -> Result<ResourceValue, usize> {
    ResourceValue::new(descriptor, channels, bits(&samples))
}

trait Floats {
    fn floats(&self) -> Vec<f32>;
}

impl Floats for ResourceValue {
    fn floats(&self) -> Vec<f32> {
        unbits(self.samples())
    }
}

fn j<T: Into<serde_json::Value>>(value: T) -> serde_json::Value {
    value.into()
}

fn object(members: Vec<(&str, serde_json::Value)>) -> serde_json::Value {
    let mut map = serde_json::Map::new();
    for (name, value) in members {
        map.insert(name.to_owned(), value);
    }
    serde_json::Value::Object(map)
}

fn array(items: Vec<serde_json::Value>) -> serde_json::Value {
    serde_json::Value::Array(items)
}

/// An RGBA image descriptor of `width × height` (used only as the `extent_from`
/// source; its samples are never read).
fn rgba_descriptor(width: u32, height: u32) -> ImageDescriptor {
    ImageDescriptor {
        extent: Extent::new(width, height),
        layout: ChannelLayout::Rgba,
        scalar: ScalarType::F32,
        color: ColorEncoding::Srgb,
        range: ColorRange::DisplayReferred,
        alpha: AlphaRepresentation::Straight,
        coordinates: CoordinateConvention::PixelCenterUpperLeft,
        semantic: SemanticRole::Color,
    }
}

/// An `extent_from` source image of `width × height`.
fn extent_source(width: u32, height: u32) -> ResourceValue {
    let len = (width as usize) * (height as usize) * 4;
    resource(
        ResourceDescriptor::Image(rgba_descriptor(width, height)),
        4,
        vec![0.0; len],
    )
    .expect("extent source")
}

/// A black-to-white RGBA stop list spanning [0, 1].
fn black_white_stops() -> serde_json::Value {
    array(vec![object(vec![("position", j(0.0)), ("color", array(vec![j(0.0), j(0.0), j(0.0), j(1.0)]))]), object(vec![("position", j(1.0)), ("color", array(vec![j(1.0), j(1.0), j(1.0), j(1.0)]))])])
}

/// Run a linear gradient over a `width × height` canvas with the given params.
fn run_linear(width: u32, height: u32, params: &serde_json::Value) -> ResourceValue {
    let mut inputs = Ports::new();
    inputs.insert("extent_from".to_owned(), extent_source(width, height));
    let out = LinearGradient::new()
        .compute::<Ieee>(&inputs, params)
        .expect("linear gradient computes");
    out.get("image").expect("image produced").clone()
}

/// Run a radial gradient over a `width × height` canvas with the given params.
fn run_radial(width: u32, height: u32, params: &serde_json::Value) -> ResourceValue {
    let mut inputs = Ports::new();
    inputs.insert("extent_from".to_owned(), extent_source(width, height));
    let out = RadialGradient::new()
        .compute::<Ieee>(&inputs, params)
        .expect("radial gradient computes");
    out.get("image").expect("image produced").clone()
}

/// The RGBA pixel at `(x, y)` of a row-major RGBA `width`-wide buffer.
fn pixel(samples: &[f32], width: u32, x: u32, y: u32) -> [f32; 4] {
    let idx = ((y * width + x) as usize) * 4;
    [
        samples[idx],
        samples[idx + 1],
        samples[idx + 2],
        samples[idx + 3],
    ]
}

/// Assert a pixel equals an expected RGBA color bit-exactly.
fn assert_pixel_bits(got: [f32; 4], expected: [f32; 4], label: &str) {
    for c in 0..4 {
        assert_eq!(
            got[c].to_bits(),
            expected[c].to_bits(),
            "{label}: channel {c} got {} expected {}",
            got[c],
            expected[c],
        );
    }
}

#[test]
fn linear_manifest_validates_and_agrees_with_contract() {
    let manifest = LinearGradient::manifest().expect("linear manifest");
    manifest.validate().expect("manifest valid");
    check_contract_consistency(
        &manifest,
        &LinearGradient::new().declared_inputs(),
        &LinearGradient::new().declared_outputs(),
    ).expect("contract agrees");
    verify_categories(&manifest).expect("declarations gate clean");
    assert_eq!(manifest.id.to_string(), LINEAR_GRADIENT_OP_ID);
}

#[test]
fn radial_manifest_validates_and_agrees_with_contract() {
    let manifest = RadialGradient::manifest().expect("radial manifest");
    manifest.validate().expect("manifest valid");
    check_contract_consistency(
        &manifest,
        &RadialGradient::new().declared_inputs(),
        &RadialGradient::new().declared_outputs(),
    ).expect("contract agrees");
    verify_categories(&manifest).expect("declarations gate clean");
    assert_eq!(manifest.id.to_string(), RADIAL_GRADIENT_OP_ID);
}

/// Stop-exactness: a horizontal gradient with endpoints at the left/right pixel
/// centers reproduces the end stop colors bit-exactly at the endpoints.
#[test]
fn linear_reproduces_stops_at_endpoints() {
    // Endpoints at pixel centers (0.5, 0.5) and (3.5, 0.5) of a 4×1 canvas.
    let out = run_linear(
        4,
        1,
        &object(vec![("start_px", array(vec![j(0.5), j(0.5)])), ("end_px", array(vec![j(3.5), j(0.5)])), ("stops", j(black_white_stops()))]),
    );
    let s = out.floats();
    // t = 0 at x = 0 -> black; t = 1 at x = 3 -> white, both exact.
    assert_pixel_bits(pixel(&s, 4, 0, 0), [0.0, 0.0, 0.0, 1.0], "start stop");
    assert_pixel_bits(pixel(&s, 4, 3, 0), [1.0, 1.0, 1.0, 1.0], "end stop");
}

/// Stop-exactness with an interior stop: a pixel landing exactly on a stop
/// position takes that stop's color verbatim.
#[test]
fn linear_reproduces_interior_stop_exactly() {
    // 3-stop gradient: red at 0, green at 0.5, blue at 1. A 3-wide canvas with
    // endpoints at the first/last pixel centers puts the middle pixel at t = 0.5.
    let out = run_linear(
        3,
        1,
        &object(vec![("start_px", array(vec![j(0.5), j(0.5)])), ("end_px", array(vec![j(2.5), j(0.5)])), ("stops", array(vec![object(vec![("position", j(0.0)), ("color", array(vec![j(1.0), j(0.0), j(0.0), j(1.0)]))]), object(vec![("position", j(0.5)), ("color", array(vec![j(0.0), j(1.0), j(0.0), j(1.0)]))]), object(vec![("position", j(1.0)), ("color", array(vec![j(0.0), j(0.0), j(1.0), j(1.0)]))])]))]),
    );
    let s = out.floats();
    assert_pixel_bits(pixel(&s, 3, 1, 0), [0.0, 1.0, 0.0, 1.0], "middle stop exact");
}

/// Interpolation: the midpoint between two stops is their per-channel average.
#[test]
fn linear_midpoint_is_average() {
    // 2-wide canvas, endpoints at center of pixel 0 and just past pixel 1 so the
    // two pixel centers sit at t = 0.25 and t = 0.75.
    let out = run_linear(
        2,
        1,
        &object(vec![("start_px", array(vec![j(0.0), j(0.5)])), ("end_px", array(vec![j(2.0), j(0.5)])), ("stops", j(black_white_stops()))]),
    );
    let s = out.floats();
    // Pixel center x=0.5 -> t=0.25; x=1.5 -> t=0.75.
    let left = pixel(&s, 2, 0, 0);
    let right = pixel(&s, 2, 1, 0);
    for c in 0..3 {
        assert!((left[c] - 0.25).abs() < 1e-6, "left {left:?}");
        assert!((right[c] - 0.75).abs() < 1e-6, "right {right:?}");
    }
}

/// Monotonicity: a single-component (gray) gradient is non-decreasing left to
/// right along the axis.
#[test]
fn linear_is_monotone_along_axis() {
    let out = run_linear(
        16,
        1,
        &object(vec![("start_px", array(vec![j(0.5), j(0.5)])), ("end_px", array(vec![j(15.5), j(0.5)])), ("layout", j("gray")), ("stops", array(vec![object(vec![("position", j(0.0)), ("color", array(vec![j(0.0)]))]), object(vec![("position", j(1.0)), ("color", array(vec![j(1.0)]))])]))]),
    );
    let s = out.floats();
    for x in 1..16 {
        assert!(s[x] >= s[x - 1], "not monotone at x={x}: {s:?}");
    }
}

/// Translation covariance: shifting both endpoints by a vector and reading the
/// correspondingly-shifted pixel yields the same value.
#[test]
fn linear_translation_covariant() {
    let base = run_linear(
        8,
        8,
        &object(vec![("start_px", array(vec![j(0.5), j(0.5)])), ("end_px", array(vec![j(6.5), j(0.5)])), ("layout", j("gray")), ("stops", array(vec![object(vec![("position", j(0.0)), ("color", array(vec![j(0.0)]))]), object(vec![("position", j(1.0)), ("color", array(vec![j(1.0)]))])]))]),
    );
    let shifted = run_linear(
        8,
        8,
        &object(vec![("start_px", array(vec![j(1.5), j(2.5)])), ("end_px", array(vec![j(7.5), j(2.5)])), ("layout", j("gray")), ("stops", array(vec![object(vec![("position", j(0.0)), ("color", array(vec![j(0.0)]))]), object(vec![("position", j(1.0)), ("color", array(vec![j(1.0)]))])]))]),
    );
    let b = base.floats();
    let sh = shifted.floats();
    // base pixel (x, 0) == shifted pixel (x+1, 2) for x in 0..7.
    for x in 0_usize..7 {
        let bv = b[x];
        let sv = sh[(2 * 8) + (x + 1)];
        assert!((bv - sv).abs() < 1e-6, "x={x}: base {bv} != shifted {sv}");
    }
}

/// Radial: the center pixel is the first stop and the parameter grows monotonically
/// with distance.
#[test]
fn radial_center_is_first_stop_and_grows() {
    let out = run_radial(
        9,
        9,
        &object(vec![("center_px", array(vec![j(4.5), j(4.5)])), ("radius_px", j(4.0)), ("layout", j("gray")), ("stops", array(vec![object(vec![("position", j(0.0)), ("color", array(vec![j(0.0)]))]), object(vec![("position", j(1.0)), ("color", array(vec![j(1.0)]))])]))]),
    );
    let s = out.floats();
    // Center pixel (4,4) center is exactly (4.5,4.5) -> t = 0 -> first stop.
    assert_eq!(s[4 * 9 + 4].to_bits(), 0.0_f32.to_bits());
    // Moving out along the row is non-decreasing from the center.
    for x in 5_usize..9 {
        assert!(
            s[4 * 9 + x] >= s[4 * 9 + (x - 1)],
            "radial not monotone outward at x={x}"
        );
    }
}

/// A zero-length linear axis (`start == end`) is rejected.
#[test]
fn linear_degenerate_axis_is_rejected() {
    let mut inputs = Ports::new();
    inputs.insert("extent_from".to_owned(), extent_source(4, 4));
    let err = LinearGradient::new()
        .compute::<Ieee>(
            &inputs,
            &object(vec![("start_px", array(vec![j(1.0), j(1.0)])), ("end_px", array(vec![j(1.0), j(1.0)])), ("stops", j(black_white_stops()))]),
        )
        .expect_err("degenerate axis must be rejected");
    assert_eq!(err.class, ErrorClass::Schema);
    assert_eq!(err.code, E_GRADIENT_PARAM);
}

/// A non-positive radial radius is rejected.
#[test]
fn radial_zero_radius_is_rejected() {
    let mut inputs = Ports::new();
    inputs.insert("extent_from".to_owned(), extent_source(4, 4));
    let err = RadialGradient::new()
        .compute::<Ieee>(
            &inputs,
            &object(vec![("center_px", array(vec![j(2.0), j(2.0)])), ("radius_px", j(0.0)), ("stops", j(black_white_stops()))]),
        )
        .expect_err("zero radius must be rejected");
    assert_eq!(err.class, ErrorClass::Schema);
    assert_eq!(err.code, E_GRADIENT_PARAM);
}

/// Unsorted stops are rejected.
#[test]
fn unsorted_stops_are_rejected() {
    let mut inputs = Ports::new();
    inputs.insert("extent_from".to_owned(), extent_source(4, 4));
    let err = LinearGradient::new()
        .compute::<Ieee>(
            &inputs,
            &object(vec![("start_px", array(vec![j(0.5), j(0.5)])), ("end_px", array(vec![j(3.5), j(0.5)])), ("stops", array(vec![object(vec![("position", j(0.0)), ("color", array(vec![j(0.0), j(0.0), j(0.0), j(1.0)]))]), object(vec![("position", j(0.8)), ("color", array(vec![j(0.5), j(0.5), j(0.5), j(1.0)]))]), object(vec![("position", j(0.3)), ("color", array(vec![j(1.0), j(1.0), j(1.0), j(1.0)]))]), object(vec![("position", j(1.0)), ("color", array(vec![j(1.0), j(1.0), j(1.0), j(1.0)]))])]))]),
        )
        .expect_err("unsorted stops must be rejected");
    assert_eq!(err.class, ErrorClass::Schema);
    assert_eq!(err.code, E_GRADIENT_STOPS);
}

/// Stops that do not span [0, 1] are rejected (no implicit extrapolation).
#[test]
fn non_spanning_stops_are_rejected() {
    let mut inputs = Ports::new();
    inputs.insert("extent_from".to_owned(), extent_source(4, 4));
    let err = LinearGradient::new()
        .compute::<Ieee>(
            &inputs,
            &object(vec![("start_px", array(vec![j(0.5), j(0.5)])), ("end_px", array(vec![j(3.5), j(0.5)])), ("stops", array(vec![object(vec![("position", j(0.2)), ("color", array(vec![j(0.0), j(0.0), j(0.0), j(1.0)]))]), object(vec![("position", j(0.9)), ("color", array(vec![j(1.0), j(1.0), j(1.0), j(1.0)]))])]))]),
        )
        .expect_err("non-spanning stops must be rejected");
    assert_eq!(err.class, ErrorClass::Schema);
    assert_eq!(err.code, E_GRADIENT_STOPS);
}

/// An out-of-range stop color for a display-referred image is rejected.
#[test]
fn out_of_range_stop_color_is_rejected() {
    let mut inputs = Ports::new();
    inputs.insert("extent_from".to_owned(), extent_source(4, 4));
    let err = LinearGradient::new()
        .compute::<Ieee>(
            &inputs,
            &object(vec![("start_px", array(vec![j(0.5), j(0.5)])), ("end_px", array(vec![j(3.5), j(0.5)])), ("stops", array(vec![object(vec![("position", j(0.0)), ("color", array(vec![j(0.0), j(0.0), j(0.0), j(1.0)]))]), object(vec![("position", j(1.0)), ("color", array(vec![j(1.5), j(1.0), j(1.0), j(1.0)]))])]))]),
        )
        .expect_err("out-of-range stop color must be rejected");
    assert_eq!(err.class, ErrorClass::Schema);
    assert_eq!(err.code, E_GRADIENT_STOPS);
}

/// `infer_outputs` produces an RGBA image of the source extent.
#[test]
fn infer_outputs_sizes_from_extent() {
    let mut inputs = Ports::new();
    inputs.insert(
        "extent_from".to_owned(),
        ResourceDescriptor::Image(rgba_descriptor(12, 7)),
    );
    let outputs = LinearGradient::new()
        .infer_outputs::<Ieee>(
            &inputs,
            &object(vec![("start_px", array(vec![j(0.5), j(0.5)])), ("end_px", array(vec![j(11.5), j(0.5)])), ("stops", j(black_white_stops()))]),
        )
        .expect("infer");
    let ResourceDescriptor::Image(d) = outputs.get("image").expect("image out") else {
        panic!("expected image");
    };
    assert_eq!(d.extent, Extent::new(12, 7));
    assert_eq!(d.layout, ChannelLayout::Rgba);
}
