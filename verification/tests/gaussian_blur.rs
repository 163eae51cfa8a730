//! The Gaussian blur.
use paintop_cpu::arithmetic::Arithmetic;
use paintop_cpu::convolve::{convolve_value, BoundaryMode, Convolve};
use paintop_cpu::gaussian_blur::{
    convolve_params, gaussian_kernel, kernel_radius, GaussianBlur, E_BLUR_PARAM,
    GAUSSIAN_BLUR_OP_ID, SIGMA_CUTOFF,
};
use paintop_cpu::ir::{
    AlphaRepresentation, ChannelLayout, ColorEncoding, ColorRange, CoordinateConvention,
    ErrorClass, Extent, ImageDescriptor, ResourceDescriptor, ScalarType, SemanticRole,
};
use paintop_cpu::manifest::{check_contract_consistency, verify_categories};
use paintop_cpu::ports::Ports;
use paintop_cpu::value::ResourceValue;

/// IEEE arithmetic on patterns.
struct Ieee;

fn wide(a: u64) -> f64 {
    f64::from_bits(a)
}

fn small(a: u32) -> f32 {
    f32::from_bits(a)
}

/// The pattern of a result. A result that is no number has one pattern, so that equal operands give
/// one result.
fn wide_pattern(x: f64) -> u64 {
    if x.is_nan() {
        0x7ff8_0000_0000_0000
    } else {
        x.to_bits()
    }
}

/// The pattern of a sample that an operation gives.
fn small_pattern(x: f32) -> u32 {
    if x.is_nan() {
        0x7fc0_0000
    } else {
        x.to_bits()
    }
}

impl Arithmetic for Ieee {
    /// What is no number keeps its sign and payload.
    fn widen(a: u32) -> u64 {
        if small(a).is_nan() {
            let sign = u64::from(a >> 31) << 63;
            sign | 0x7ff0_0000_0000_0000 | (u64::from(a & 0x007f_ffff) << 29)
        } else {
            f64::from(small(a)).to_bits()
        }
    }
    /// What is no number keeps its sign and the upper part of its payload.
    fn narrow(a: u64) -> u32 {
        if wide(a).is_nan() {
            let sign = ((a >> 63) as u32) << 31;
            let payload = ((a >> 29) as u32) & 0x007f_ffff;
            sign | 0x7f80_0000 | if payload == 0 { 0x0040_0000 } else { payload }
        } else {
            (wide(a) as f32).to_bits()
        }
    }
    fn whole(a: i64) -> u64 {
        wide_pattern(a as f64)
    }
    fn tally(a: u64) -> u64 {
        wide_pattern(a as f64)
    }
    fn plus(a: u64, b: u64) -> u64 {
        wide_pattern(wide(a) + wide(b))
    }
    fn minus(a: u64, b: u64) -> u64 {
        wide_pattern(wide(a) - wide(b))
    }
    fn times(a: u64, b: u64) -> u64 {
        wide_pattern(wide(a) * wide(b))
    }
    fn over(a: u64, b: u64) -> u64 {
        wide_pattern(wide(a) / wide(b))
    }
    fn fused(a: u64, b: u64, c: u64) -> u64 {
        wide_pattern(wide(a).mul_add(wide(b), wide(c)))
    }
    fn root(a: u64) -> u64 {
        wide_pattern(wide(a).sqrt())
    }
    fn hypotenuse(a: u64, b: u64) -> u64 {
        wide_pattern(wide(a).hypot(wide(b)))
    }
    fn exponential(a: u64) -> u64 {
        wide_pattern(wide(a).exp())
    }
    fn cosine(a: u64) -> u64 {
        wide_pattern(wide(a).cos())
    }
    fn sine(a: u64) -> u64 {
        wide_pattern(wide(a).sin())
    }
    fn round_down(a: u64) -> u64 {
        wide_pattern(wide(a).floor())
    }
    fn round_up(a: u64) -> u64 {
        wide_pattern(wide(a).ceil())
    }
    fn to_integer(a: u64) -> i64 {
        wide(a) as i64
    }
    fn sample_plus(a: u32, b: u32) -> u32 {
        small_pattern(small(a) + small(b))
    }
    fn sample_minus(a: u32, b: u32) -> u32 {
        small_pattern(small(a) - small(b))
    }
    fn sample_over(a: u32, b: u32) -> u32 {
        small_pattern(small(a) / small(b))
    }
    fn sample_fused(a: u32, b: u32, c: u32) -> u32 {
        small_pattern(small(a).mul_add(small(b), small(c)))
    }
    fn sample_root(a: u32) -> u32 {
        small_pattern(small(a).sqrt())
    }
    fn sample_power(a: u32, b: u32) -> u32 {
        small_pattern(small(a).powf(small(b)))
    }
}

fn bits(samples: &[f32]) -> Vec<u32> {
    samples.iter().map(|s| s.to_bits()).collect()
}

fn unbits(samples: &[u32]) -> Vec<f32> {
    samples.iter().map(|s| f32::from_bits(*s)).collect()
}

/// A resource of float samples.
fn resource(
    descriptor: ResourceDescriptor,
    channels: u32,
    samples: Vec<f32>,
) -> Result<ResourceValue, usize> {
    ResourceValue::new(descriptor, channels, bits(&samples))
}

trait Floats {
    fn floats(&self) -> Vec<f32>;
}

impl Floats for ResourceValue {
    fn floats(&self) -> Vec<f32> {
        unbits(self.samples())
    }
}

fn j<T: Into<serde_json::Value>>(value: T) -> serde_json::Value {
    value.into()
}

fn object(members: Vec<(&str, serde_json::Value)>) -> serde_json::Value {
    let mut map = serde_json::Map::new();
    for (name, value) in members {
        map.insert(name.to_owned(), value);
    }
    serde_json::Value::Object(map)
}

fn array(items: Vec<serde_json::Value>) -> serde_json::Value {
    serde_json::Value::Array(items)
}

fn radius(sigma: f64) -> u32 {
    kernel_radius::<Ieee>(sigma.to_bits())
}

/// Build a single-channel (gray) image from a row-major sample list.
fn gray(width: u32, height: u32, samples: Vec<f32>) -> ResourceValue {
    let descriptor = ResourceDescriptor::Image(ImageDescriptor {
        extent: Extent::new(width, height),
        layout: ChannelLayout::Gray,
        scalar: ScalarType::F32,
        color: ColorEncoding::LinearSrgb,
        range: ColorRange::SceneReferred,
        alpha: AlphaRepresentation::Premultiplied,
        coordinates: CoordinateConvention::PixelCenterUpperLeft,
        semantic: SemanticRole::Color,
    });
    resource(descriptor, 1, samples).expect("sample buffer matches descriptor")
}

/// Run the blur and recover the output resource.
fn blur(value: &ResourceValue, params: &serde_json::Value) -> ResourceValue {
    let mut inputs = Ports::new();
    inputs.insert("input".to_owned(), value.clone());
    let out = GaussianBlur::new()
        .compute::<Ieee>(&inputs, params)
        .expect("blur computes");
    out.get("output").expect("output port produced").clone()
}

#[test]
fn gaussian_blur_manifest_validates_and_agrees_with_contract() {
    let manifest = GaussianBlur::manifest().expect("blur manifest");
    manifest.validate().expect("blur manifest valid");
    check_contract_consistency(
        &manifest,
        &GaussianBlur::new().declared_inputs(),
        &GaussianBlur::new().declared_outputs(),
    )
    .expect("blur manifest agrees with contract");
    verify_categories(&manifest)
        .expect("blur verification declarations gate clean");
    assert_eq!(manifest.id.to_string(), GAUSSIAN_BLUR_OP_ID);
}

#[test]
fn kernel_is_positive_and_unit_sum() {
    for sigma in [0.5, 1.0, 2.0, 3.5] {
        let kernel = gaussian_kernel::<Ieee>(f64::to_bits(sigma));
        let weights: Vec<f64> = kernel.weights.iter().map(|w| f64::from_bits(*w)).collect();
        assert!(
            weights.iter().all(|w| *w > 0.0),
            "kernel must be strictly positive for sigma {sigma}"
        );
        let sum: f64 = weights.iter().sum();
        assert!(
            (sum - 1.0).abs() < 1e-9,
            "kernel must be unit-sum for sigma {sigma}, got {sum}"
        );
    }
}

#[test]
fn kernel_radius_is_ceil_three_sigma() {
    assert_eq!(radius(1.0), 3);
    assert_eq!(radius(2.0), 6);
    assert_eq!(radius(0.5), 2); // ceil(1.5) = 2
    // σ→0 cutoff: radius 0.
    assert_eq!(radius(f64::from_bits(SIGMA_CUTOFF) / 2.0), 0);
}

#[test]
fn constant_image_is_preserved() {
    let img = gray(9, 9, vec![0.7; 81]);
    let out = blur(&img, &object(vec![("sigma", j(1.5)), ("mode", j("clamp"))]));
    assert_eq!(out.extent(), Extent::new(9, 9));
    for &s in &out.floats() {
        assert!((s - 0.7).abs() < 1e-5, "constant not preserved: {s}");
    }
}

#[test]
fn sigma_below_cutoff_is_the_identity() {
    let img = gray(5, 5, (0..25u8).map(f32::from).collect());
    let out = blur(
        &img,
        &object(vec![("sigma", j(f64::from_bits(SIGMA_CUTOFF) / 10.0)), ("mode", j("clamp"))]),
    );
    assert_eq!(out.floats(), img.floats());
}

#[test]
fn isotropic_under_ninety_degree_rotation() {
    // Blur commutes with a 90° rotation: rot(blur(x)) == blur(rot(x)). We test it
    // on an asymmetric image. The Gaussian kernel is rotationally symmetric, so
    // with a symmetric boundary (mirror) the two paths agree within rounding.
    let w = 5usize;
    let h = 5usize;
    let src: Vec<f32> = (0..u8::try_from(w * h).expect("fits u8"))
        .map(f32::from)
        .collect();
    let rot = |s: &[f32]| -> Vec<f32> {
        // 90° clockwise rotation of a w×h grid (square here).
        let mut out = vec![0.0f32; w * h];
        for y in 0..h {
            for x in 0..w {
                out[x * w + (h - 1 - y)] = s[y * w + x];
            }
        }
        out
    };
    let img = gray(5, 5, src.clone());
    let params = object(vec![("sigma", j(1.0)), ("mode", j("mirror"))]);
    let blurred = blur(&img, &params);
    let rot_then = rot(&blurred.floats());

    let img_rot = gray(5, 5, rot(&src));
    let blur_of_rot = blur(&img_rot, &params);

    for (a, b) in rot_then.iter().zip(blur_of_rot.floats()) {
        assert!(
            (a - b).abs() < 1e-4,
            "blur is not rotation-isotropic: {a} != {b}"
        );
    }
}

#[test]
fn semigroup_holds_within_a_bound() {
    // G_s1 ∘ G_s2 ≈ G_sqrt(s1^2 + s2^2) on the interior, away from boundaries.
    // Use a large field with a single central impulse and mirror boundary.
    let n = 31usize;
    let mut src = vec![0.0f32; n * n];
    src[(n / 2) * n + (n / 2)] = 1.0;
    let img = gray(31, 31, src);
    let s1 = 1.5_f64;
    let s2 = 2.0_f64;
    let combined = s1.hypot(s2);

    let once = blur(
        &img,
        &object(vec![("sigma", j(s1)), ("mode", j("constant")), ("value", array(vec![j(0.0)]))]),
    );
    let twice = blur(
        &once,
        &object(vec![("sigma", j(s2)), ("mode", j("constant")), ("value", array(vec![j(0.0)]))]),
    );
    let direct = blur(
        &img,
        &object(vec![("sigma", j(combined)), ("mode", j("constant")), ("value", array(vec![j(0.0)]))]),
    );

    // Compare on the central interior region where neither kernel touches the
    // edge. Max absolute error must be small.
    let margin = 12usize;
    let mut max_err = 0.0f32;
    for y in margin..(n - margin) {
        for x in margin..(n - margin) {
            let a = twice.floats()[y * n + x];
            let b = direct.floats()[y * n + x];
            max_err = max_err.max((a - b).abs());
        }
    }
    assert!(
        max_err < 2e-3,
        "semigroup discretization error too large: {max_err}"
    );
}

#[test]
fn blurred_impulse_variance_matches_sigma_squared() {
    // The empirical second moment of the blurred impulse equals sigma^2 within a
    // discretization bound. Single central impulse, big field, constant-zero
    // border so the kernel mass is conserved.
    let n = 41usize;
    let c = n / 2;
    let mut src = vec![0.0f32; n * n];
    src[c * n + c] = 1.0;
    let img = gray(41, 41, src);
    let sigma = 3.0_f64;
    let out = blur(
        &img,
        &object(vec![("sigma", j(sigma)), ("mode", j("constant")), ("value", array(vec![j(0.0)]))]),
    );

    let ci = i32::try_from(c).expect("centre fits i32");
    let mut mass = 0.0_f64;
    let mut second = 0.0_f64;
    for y in 0..n {
        for x in 0..n {
            let w = f64::from(out.floats()[y * n + x]);
            let xi = i32::try_from(x).expect("x fits i32");
            let yi = i32::try_from(y).expect("y fits i32");
            let dx = f64::from(xi - ci);
            let dy = f64::from(yi - ci);
            mass += w;
            second += w * (dx * dx + dy * dy);
        }
    }
    // Mass conserved (unit-sum kernel) and variance ≈ 2*sigma^2 (sum over both
    // axes: E[dx^2 + dy^2] = 2 sigma^2).
    assert!((mass - 1.0).abs() < 1e-4, "mass not conserved: {mass}");
    let variance = second / mass;
    let expected = 2.0 * sigma * sigma;
    // The kernel is truncated at radius ceil(3*sigma), which clips the Gaussian
    // tails and biases the empirical variance slightly below 2*sigma^2; the bias
    // is ~1-2% for a 3-sigma cutoff, so allow a modest absolute tolerance.
    assert!(
        (variance - expected).abs() < 0.5,
        "impulse variance {variance} != expected {expected}"
    );
}

#[test]
fn differential_against_convolve_with_same_kernel() {
    // The blur must equal filter.convolve driven with the same Gaussian kernel,
    // bit-for-bit (it is literally that convolution).
    let img = gray(8, 8, (0..64u8).map(|n| f32::from(n) * 0.05).collect());
    let sigma = 1.7_f64;
    let mode = "clamp";

    let blurred = blur(&img, &object(vec![("sigma", j(sigma)), ("mode", j(mode))]));

    let request = convolve_params::<Ieee>(sigma.to_bits(), BoundaryMode::from_token(mode).unwrap(), 1);
    let convolved = convolve_value::<Ieee>(&img, &request);
    // The same kernel, handed over as parameters.
    let weights: Vec<f64> = request.kernel.weights.iter().map(|w| f64::from_bits(*w)).collect();
    let kernel = object(vec![
        ("width", j(request.kernel.width)),
        ("height", j(request.kernel.height)),
        ("origin_x", j(request.kernel.origin_x)),
        ("origin_y", j(request.kernel.origin_y)),
        ("weights", j(weights)),
    ]);
    let mut inputs = Ports::new();
    inputs.insert("input".to_owned(), img);
    let conv_out = Convolve::new()
        .compute::<Ieee>(&inputs, &object(vec![("kernel", kernel), ("mode", j(mode))]))
        .expect("convolve computes");
    assert_eq!(conv_out.get("output").expect("output").samples(), convolved.samples());

    assert_eq!(
        blurred.floats(),
        convolved.floats(),
        "blur must equal convolve with the same kernel bit-for-bit"
    );
}

#[test]
fn infer_outputs_preserves_extent() {
    let descriptor = ResourceDescriptor::Image(ImageDescriptor {
        extent: Extent::new(12, 7),
        layout: ChannelLayout::Rgba,
        scalar: ScalarType::F32,
        color: ColorEncoding::Srgb,
        range: ColorRange::DisplayReferred,
        alpha: AlphaRepresentation::Straight,
        coordinates: CoordinateConvention::PixelCenterUpperLeft,
        semantic: SemanticRole::Color,
    });
    let mut inputs = Ports::new();
    inputs.insert("input".to_owned(), descriptor);
    let out = GaussianBlur::new()
        .infer_outputs::<Ieee>(&inputs, &object(vec![("sigma", j(2.0))]))
        .expect("infer");
    let ResourceDescriptor::Image(d) = (*out.get("output").unwrap()) else {
        panic!("expected image");
    };
    assert_eq!(d.extent, Extent::new(12, 7));
    assert_eq!(d.layout, ChannelLayout::Rgba);
}

#[test]
fn missing_sigma_is_rejected() {
    let img = gray(3, 3, vec![0.0; 9]);
    let mut inputs = Ports::new();
    inputs.insert("input".to_owned(), img);
    let err = GaussianBlur::new()
        .compute::<Ieee>(&inputs, &object(vec![("mode", j("clamp"))]))
        .expect_err("missing sigma must fail");
    assert_eq!(err.code, E_BLUR_PARAM);
    assert_eq!(err.class, ErrorClass::Schema);
}

#[test]
fn negative_sigma_is_rejected() {
    let img = gray(3, 3, vec![0.0; 9]);
    let mut inputs = Ports::new();
    inputs.insert("input".to_owned(), img);
    let err = GaussianBlur::new()
        .compute::<Ieee>(&inputs, &object(vec![("sigma", j(-1.0))]))
        .expect_err("negative sigma must fail");
    assert_eq!(err.code, E_BLUR_PARAM);
}

#[test]
fn over_limit_sigma_is_rejected() {
    let img = gray(3, 3, vec![0.0; 9]);
    let mut inputs = Ports::new();
    inputs.insert("input".to_owned(), img);
    let err = GaussianBlur::new()
        .compute::<Ieee>(
            &inputs,
            &object(vec![("sigma", j(10.0)), ("sigma_max", j(4.0))]),
        )
        .expect_err("over-limit sigma must fail");
    assert_eq!(err.code, E_BLUR_PARAM);
    assert_eq!(err.class, ErrorClass::Policy);
}

#[test]
fn gaussian_blur_unknown_mode_is_rejected() {
    let img = gray(3, 3, vec![0.0; 9]);
    let mut inputs = Ports::new();
    inputs.insert("input".to_owned(), img);
    let err = GaussianBlur::new()
        .compute::<Ieee>(
            &inputs,
            &object(vec![("sigma", j(1.0)), ("mode", j("bogus"))]),
        )
        .expect_err("unknown mode must fail");
    assert_eq!(err.code, E_BLUR_PARAM);
}
