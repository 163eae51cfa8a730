//! The guided filter.
use paintop_cpu::arithmetic::Arithmetic;
use paintop_cpu::guided::{Guided, GuidedRequest, GUIDED_OP_ID};
use paintop_cpu::ir::{
    AlphaRepresentation, ChannelLayout, ColorEncoding, ColorRange, CoordinateConvention,
    ErrorClass, Extent, ImageDescriptor, ResourceDescriptor, ScalarType, SemanticRole,
};
use paintop_cpu::manifest::{check_contract_consistency, verify_categories};
use paintop_cpu::ports::Ports;
use paintop_cpu::value::ResourceValue;

/// IEEE arithmetic on patterns.
struct Ieee;

fn wide(a: u64) -> f64 {
    f64::from_bits(a)
}

fn small(a: u32) -> f32 {
    f32::from_bits(a)
}

/// The pattern of a result. A result that is no number has one pattern, so that equal operands give
/// one result.
fn wide_pattern(x: f64) -> u64 {
    if x.is_nan() {
        0x7ff8_0000_0000_0000
    } else {
        x.to_bits()
    }
}

/// The pattern of a sample that an operation gives.
fn small_pattern(x: f32) -> u32 {
    if x.is_nan() {
        0x7fc0_0000
    } else {
        x.to_bits()
    }
}

impl Arithmetic for Ieee {
    /// What is no number keeps its sign and payload.
    fn widen(a: u32) -> u64 {
        if small(a).is_nan() {
            let sign = u64::from(a >> 31) << 63;
            sign | 0x7ff0_0000_0000_0000 | (u64::from(a & 0x007f_ffff) << 29)
        } else {
            f64::from(small(a)).to_bits()
        }
    }
    /// What is no number keeps its sign and the upper part of its payload.
    fn narrow(a: u64) -> u32 {
        if wide(a).is_nan() {
            let sign = ((a >> 63) as u32) << 31;
            let payload = ((a >> 29) as u32) & 0x007f_ffff;
            sign | 0x7f80_0000 | if payload == 0 { 0x0040_0000 } else { payload }
        } else {
            (wide(a) as f32).to_bits()
        }
    }
    fn whole(a: i64) -> u64 {
        wide_pattern(a as f64)
    }
    fn tally(a: u64) -> u64 {
        wide_pattern(a as f64)
    }
    fn plus(a: u64, b: u64) -> u64 {
        wide_pattern(wide(a) + wide(b))
    }
    fn minus(a: u64, b: u64) -> u64 {
        wide_pattern(wide(a) - wide(b))
    }
    fn times(a: u64, b: u64) -> u64 {
        wide_pattern(wide(a) * wide(b))
    }
    fn over(a: u64, b: u64) -> u64 {
        wide_pattern(wide(a) / wide(b))
    }
    fn fused(a: u64, b: u64, c: u64) -> u64 {
        wide_pattern(wide(a).mul_add(wide(b), wide(c)))
    }
    fn root(a: u64) -> u64 {
        wide_pattern(wide(a).sqrt())
    }
    fn hypotenuse(a: u64, b: u64) -> u64 {
        wide_pattern(wide(a).hypot(wide(b)))
    }
    fn exponential(a: u64) -> u64 {
        wide_pattern(wide(a).exp())
    }
    fn cosine(a: u64) -> u64 {
        wide_pattern(wide(a).cos())
    }
    fn sine(a: u64) -> u64 {
        wide_pattern(wide(a).sin())
    }
    fn round_down(a: u64) -> u64 {
        wide_pattern(wide(a).floor())
    }
    fn round_up(a: u64) -> u64 {
        wide_pattern(wide(a).ceil())
    }
    fn to_integer(a: u64) -> i64 {
        wide(a) as i64
    }
    fn sample_plus(a: u32, b: u32) -> u32 {
        small_pattern(small(a) + small(b))
    }
    fn sample_minus(a: u32, b: u32) -> u32 {
        small_pattern(small(a) - small(b))
    }
    fn sample_over(a: u32, b: u32) -> u32 {
        small_pattern(small(a) / small(b))
    }
    fn sample_fused(a: u32, b: u32, c: u32) -> u32 {
        small_pattern(small(a).mul_add(small(b), small(c)))
    }
    fn sample_root(a: u32) -> u32 {
        small_pattern(small(a).sqrt())
    }
    fn sample_power(a: u32, b: u32) -> u32 {
        small_pattern(small(a).powf(small(b)))
    }
}

fn bits(samples: &[f32]) -> Vec<u32> {
    samples.iter().map(|s| s.to_bits()).collect()
}

fn unbits(samples: &[u32]) -> Vec<f32> {
    samples.iter().map(|s| f32::from_bits(*s)).collect()
}

/// A resource of float samples.
fn resource(
    descriptor: ResourceDescriptor,
    channels: u32,
    samples: Vec<f32>,
) -> Result<ResourceValue, usize> {
    ResourceValue::new(descriptor, channels, bits(&samples))
}

trait Floats {
    fn floats(&self) -> Vec<f32>;
}

impl Floats for ResourceValue {
    fn floats(&self) -> Vec<f32> {
        unbits(self.samples())
    }
}

fn j<T: Into<serde_json::Value>>(value: T) -> serde_json::Value {
    value.into()
}

fn object(members: Vec<(&str, serde_json::Value)>) -> serde_json::Value {
    let mut map = serde_json::Map::new();
    for (name, value) in members {
        map.insert(name.to_owned(), value);
    }
    serde_json::Value::Object(map)
}

const REFERENCE_TOLERANCE: f64 = 1.0e-4;

const FLAT_IDENTITY_TOLERANCE: f32 = 1.0e-5;

fn box_mean(plane: &[f64], w: usize, h: usize, r: u32) -> Vec<f64> {
    let bits: Vec<u64> = plane.iter().map(|v| v.to_bits()).collect();
    let means = paintop_cpu::guided::box_mean::<Ieee>(&bits, w, h, r);
    means.iter().map(|v| f64::from_bits(*v)).collect()
}

/// Build a `channels`-layout image from a row-major interleaved sample list.
fn image(width: u32, height: u32, layout: ChannelLayout, samples: Vec<f32>) -> ResourceValue {
    let descriptor = ResourceDescriptor::Image(ImageDescriptor {
        extent: Extent::new(width, height),
        layout,
        scalar: ScalarType::F32,
        color: ColorEncoding::LinearSrgb,
        range: ColorRange::SceneReferred,
        alpha: AlphaRepresentation::Premultiplied,
        coordinates: CoordinateConvention::PixelCenterUpperLeft,
        semantic: SemanticRole::Color,
    });
    resource(descriptor, layout.channel_count(), samples)
        .expect("sample buffer matches descriptor")
}

/// A single-channel gray image.
fn gray(width: u32, height: u32, samples: Vec<f32>) -> ResourceValue {
    image(width, height, ChannelLayout::Gray, samples)
}

/// Run the guided filter and recover the output.
fn run(input: &ResourceValue, guide: &ResourceValue, params: &serde_json::Value) -> ResourceValue {
    let mut inputs = Ports::new();
    inputs.insert("input".to_owned(), input.clone());
    inputs.insert("guide".to_owned(), guide.clone());
    let out = Guided::new()
        .compute::<Ieee>(&inputs, params)
        .expect("guided filter computes");
    out.get("output").expect("output port produced").clone()
}

/// Sum a plane over the in-bounds intersection of the `(2r+1)` window centred at
/// `(cx, cy)`, returning `(sum, count)` (the shrinking-window boundary the op
/// uses — out-of-bounds taps are dropped, not replicated).
fn window_sum(
    plane: &[f64],
    width: usize,
    height: usize,
    cx: usize,
    cy: usize,
    radius: usize,
) -> (f64, f64) {
    let (mut sum, mut count) = (0.0_f64, 0.0_f64);
    let x0 = cx.saturating_sub(radius);
    let x1 = (cx + radius).min(width - 1);
    let y0 = cy.saturating_sub(radius);
    let y1 = (cy + radius).min(height - 1);
    for y in y0..=y1 {
        for x in x0..=x1 {
            sum += plane[y * width + x];
            count += 1.0;
        }
    }
    (sum, count)
}

/// An independent, brute-force single-channel guided-filter reference: for each
/// window centre fit `(a_k, b_k)` directly over the in-bounds window, then
/// average the per-window linear models over the in-bounds windows covering each
/// pixel. Matches the op's shrinking-window boundary.
fn reference(
    guide: &[f64],
    input: &[f64],
    width: usize,
    height: usize,
    radius: usize,
    eps: f64,
) -> Vec<f64> {
    let len = width * height;
    let mut coef_a = vec![0.0_f64; len];
    let mut coef_b = vec![0.0_f64; len];
    let prod: Vec<f64> = guide.iter().zip(input).map(|(gi, pi)| gi * pi).collect();
    let squares: Vec<f64> = guide.iter().map(|gi| gi * gi).collect();
    for ky in 0..height {
        for kx in 0..width {
            let (sum_guide, count) = window_sum(guide, width, height, kx, ky, radius);
            let (sum_input, _) = window_sum(input, width, height, kx, ky, radius);
            let (sum_prod, _) = window_sum(&prod, width, height, kx, ky, radius);
            let (sum_square, _) = window_sum(&squares, width, height, kx, ky, radius);
            let mean_guide = sum_guide / count;
            let mean_input = sum_input / count;
            let cov = mean_guide.mul_add(-mean_input, sum_prod / count);
            let var = mean_guide.mul_add(-mean_guide, sum_square / count);
            let denom = var + eps;
            let a_k = if denom > 0.0 { cov / denom } else { 0.0 };
            coef_a[ky * width + kx] = a_k;
            coef_b[ky * width + kx] = a_k.mul_add(-mean_guide, mean_input);
        }
    }
    // Average the linear models over the in-bounds windows covering each pixel.
    let mut result = vec![0.0_f64; len];
    for py in 0..height {
        for px in 0..width {
            let (sum_a, count) = window_sum(&coef_a, width, height, px, py, radius);
            let (sum_b, _) = window_sum(&coef_b, width, height, px, py, radius);
            let mean_a = sum_a / count;
            let mean_b = sum_b / count;
            result[py * width + px] = mean_a.mul_add(guide[py * width + px], mean_b);
        }
    }
    result
}

#[test]
fn guided_manifest_validates_and_agrees_with_contract() {
    let manifest = Guided::manifest().expect("manifest");
    manifest.validate().expect("manifest valid");
    check_contract_consistency(
        &manifest,
        &Guided::new().declared_inputs(),
        &Guided::new().declared_outputs(),
    )
    .expect("manifest agrees with contract");
    verify_categories(&manifest)
        .expect("verification declarations gate clean");
    assert_eq!(manifest.id.to_string(), GUIDED_OP_ID);
}

#[test]
fn flat_input_is_preserved_exactly() {
    // A constant input -> a = 0, b = const, regardless of the guide.
    let input = gray(8, 8, vec![0.4; 64]);
    let guide = gray(8, 8, (0..64u16).map(|v| f32::from(v) / 64.0).collect());
    let out = run(
        &input,
        &guide,
        &object(vec![("radius", j(2)), ("epsilon", j(0.01))]),
    );
    for &s in &out.floats() {
        assert!(
            (s - 0.4).abs() < FLAT_IDENTITY_TOLERANCE,
            "flat input not preserved: {s}"
        );
    }
}

#[test]
fn flat_guide_yields_box_mean_of_input() {
    // A constant guide -> var(I) = 0 -> a = 0, b = mean(p); output is the input's
    // box-mean.
    let input = gray(8, 8, (0..64u16).map(|v| f32::from(v) / 64.0).collect());
    let guide = gray(8, 8, vec![0.7; 64]);
    let out = run(
        &input,
        &guide,
        &object(vec![("radius", j(1)), ("epsilon", j(0.0))]),
    );
    // With a flat guide a=0, b=mean_p, and the output is mean_b = box_mean(b),
    // i.e. the input passed through the box mean twice (the coefficients are
    // themselves box-averaged in the final step).
    let p: Vec<f64> = input.floats().iter().map(|&s| f64::from(s)).collect();
    let expected = box_mean(&box_mean(&p, 8, 8, 1), 8, 8, 1);
    for (got, want) in out.floats().iter().zip(expected.iter()) {
        assert!(
            (f64::from(*got) - want).abs() < 1e-5,
            "flat-guide output {got} != double box mean {want}"
        );
    }
}

#[test]
fn matches_independent_reference() {
    // A ramp input and a noisy-ish guide; compare against the brute-force fit.
    let width = 9usize;
    let height = 7usize;
    let coord = |index: usize| f64::from(u32::try_from(index).unwrap_or(0));
    let mut p_samples = Vec::with_capacity(width * height);
    let mut i_samples = Vec::with_capacity(width * height);
    for y in 0..height {
        for x in 0..width {
            let pv = (coord(x) + coord(y)) * 0.05;
            let iv = coord(x)
                .mul_add(0.1, coord(y) * -0.03)
                .sin()
                .mul_add(0.5, 0.5);
            p_samples.push(narrow(pv));
            i_samples.push(narrow(iv));
        }
    }
    let input = gray(9, 7, p_samples.clone());
    let guide = gray(9, 7, i_samples.clone());
    let radius = 2usize;
    let eps = 0.02;
    let out = run(
        &input,
        &guide,
        &object(vec![("radius", j(radius)), ("epsilon", j(eps))]),
    );

    let p: Vec<f64> = p_samples.iter().map(|&s| f64::from(s)).collect();
    let i_plane: Vec<f64> = i_samples.iter().map(|&s| f64::from(s)).collect();
    let want = reference(&i_plane, &p, width, height, radius, eps);
    for (idx, (got, expect)) in out.floats().iter().zip(want.iter()).enumerate() {
        assert!(
            (f64::from(*got) - expect).abs() < REFERENCE_TOLERANCE,
            "pixel {idx}: guided {got} != reference {expect}"
        );
    }
}

#[test]
fn self_guided_preserves_a_step_edge() {
    // A 1-D step (left half 0.0, right half 1.0), guided by itself: the step is
    // preserved (the means on either side stay near 0 and 1), while a uniform
    // smoother would blur the boundary.
    let w = 16usize;
    let h = 4usize;
    let mut samples = Vec::with_capacity(w * h);
    for _y in 0..h {
        for x in 0..w {
            samples.push(if x < w / 2 { 0.0 } else { 1.0 });
        }
    }
    let img = gray(16, 4, samples);
    let out = run(
        &img,
        &img,
        &object(vec![("radius", j(2)), ("epsilon", j(1e-6))]),
    );
    let s = out.floats();
    // Far from the edge the flat regions are preserved.
    let left = f64::from(s[2 * w + 2]);
    let right = f64::from(s[2 * w + (w - 3)]);
    assert!(left < 0.02, "left flat preserved: {left}");
    assert!(right > 0.98, "right flat preserved: {right}");
    // The edge stays sharp: the jump across the boundary is large.
    let jump = f64::from(s[2 * w + (w / 2)]) - f64::from(s[2 * w + (w / 2 - 1)]);
    assert!(jump > 0.5, "edge transition preserved (jump {jump})");
}

#[test]
fn single_channel_guide_broadcasts_over_rgb_input() {
    // An RGB input filtered by one gray guide: each channel is guided identically.
    let w = 6u32;
    let h = 6u32;
    let mut rgb = Vec::with_capacity((w * h * 3) as usize);
    for i in 0..(w * h) {
        let v = f32::from(u16::try_from(i).unwrap_or(0)) / 36.0;
        rgb.push(v);
        rgb.push(v * 0.5);
        rgb.push(0.2);
    }
    let input = image(w, h, ChannelLayout::Rgb, rgb);
    let guide_samples: Vec<f32> = (0..(w * h))
        .map(|i| f32::from(u16::try_from(i).unwrap_or(0)) / 36.0)
        .collect();
    let guide = gray(w, h, guide_samples);
    let out = run(
        &input,
        &guide,
        &object(vec![("radius", j(1)), ("epsilon", j(0.01))]),
    );
    assert_eq!(out.channels(), 3);
    assert_eq!(out.extent(), Extent::new(w, h));
}

#[test]
fn rerun_is_bit_identical() {
    let input = gray(8, 8, (0..64u16).map(|v| f32::from(v) / 64.0).collect());
    let guide = gray(8, 8, vec![0.3; 64]);
    let params = object(vec![("radius", j(2)), ("epsilon", j(0.05))]);
    let a = run(&input, &guide, &params);
    let b = run(&input, &guide, &params);
    assert_eq!(
        a.floats(),
        b.floats(),
        "guided filter must be deterministic"
    );
}

#[test]
fn missing_radius_is_rejected() {
    let img = gray(4, 4, vec![0.0; 16]);
    let mut inputs = Ports::new();
    inputs.insert("input".to_owned(), img.clone());
    inputs.insert("guide".to_owned(), img);
    let err = Guided::new()
        .compute::<Ieee>(&inputs, &object(vec![("epsilon", j(0.1))]))
        .expect_err("a missing radius must be rejected");
    assert_eq!(err.class, ErrorClass::Schema);
}

#[test]
fn zero_radius_and_negative_epsilon_are_rejected() {
    assert!(GuidedRequest::resolve(&object(vec![("radius", j(0)), ("epsilon", j(0.1))])).is_err());
    assert!(GuidedRequest::resolve(&object(vec![("radius", j(2)), ("epsilon", j(-1.0))])).is_err());
}

#[test]
fn guided_mismatched_extent_is_rejected() {
    let input = gray(4, 4, vec![0.0; 16]);
    let guide = gray(5, 5, vec![0.0; 25]);
    let mut inputs = Ports::new();
    inputs.insert("input".to_owned(), input);
    inputs.insert("guide".to_owned(), guide);
    let err = Guided::new()
        .compute::<Ieee>(&inputs, &object(vec![("radius", j(1)), ("epsilon", j(0.1))]))
        .expect_err("a mismatched extent must be rejected");
    assert_eq!(err.class, ErrorClass::Semantic);
}

/// Narrow an f64 test sample to the f32 storage type.
fn narrow(v: f64) -> f32 {
    v as f32
}
