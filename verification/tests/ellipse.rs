//! Ellipse masks.
use paintop_cpu::arithmetic::Arithmetic;
use paintop_cpu::ellipse::{EllipseGeometry, EllipseMask, ELLIPSE_OP_ID, E_ELLIPSE_PARAM};
use paintop_cpu::ir::{
    AlphaRepresentation, AssertionStatus, ChannelLayout, ColorEncoding, ColorRange,
    CoordinateConvention, ErrorClass, Extent, ImageDescriptor, MaskMeaning, Rect,
    ResourceDescriptor, ScalarType, SemanticRole, ValidRange,
};
use paintop_cpu::manifest::{check_contract_consistency, verify_categories};
use paintop_cpu::ports::Ports;
use paintop_cpu::value::ResourceValue;

/// IEEE arithmetic on patterns.
struct Ieee;

fn wide(a: u64) -> f64 {
    f64::from_bits(a)
}

fn small(a: u32) -> f32 {
    f32::from_bits(a)
}

/// The pattern of a result. A result that is no number has one pattern, so that equal operands give
/// one result.
fn wide_pattern(x: f64) -> u64 {
    if x.is_nan() {
        0x7ff8_0000_0000_0000
    } else {
        x.to_bits()
    }
}

/// The pattern of a sample that an operation gives.
fn small_pattern(x: f32) -> u32 {
    if x.is_nan() {
        0x7fc0_0000
    } else {
        x.to_bits()
    }
}

impl Arithmetic for Ieee {
    /// What is no number keeps its sign and payload.
    fn widen(a: u32) -> u64 {
        if small(a).is_nan() {
            let sign = u64::from(a >> 31) << 63;
            sign | 0x7ff0_0000_0000_0000 | (u64::from(a & 0x007f_ffff) << 29)
        } else {
            f64::from(small(a)).to_bits()
        }
    }
    /// What is no number keeps its sign and the upper part of its payload.
    fn narrow(a: u64) -> u32 {
        if wide(a).is_nan() {
            let sign = ((a >> 63) as u32) << 31;
            let payload = ((a >> 29) as u32) & 0x007f_ffff;
            sign | 0x7f80_0000 | if payload == 0 { 0x0040_0000 } else { payload }
        } else {
            (wide(a) as f32).to_bits()
        }
    }
    fn whole(a: i64) -> u64 {
        wide_pattern(a as f64)
    }
    fn tally(a: u64) -> u64 {
        wide_pattern(a as f64)
    }
    fn plus(a: u64, b: u64) -> u64 {
        wide_pattern(wide(a) + wide(b))
    }
    fn minus(a: u64, b: u64) -> u64 {
        wide_pattern(wide(a) - wide(b))
    }
    fn times(a: u64, b: u64) -> u64 {
        wide_pattern(wide(a) * wide(b))
    }
    fn over(a: u64, b: u64) -> u64 {
        wide_pattern(wide(a) / wide(b))
    }
    fn fused(a: u64, b: u64, c: u64) -> u64 {
        wide_pattern(wide(a).mul_add(wide(b), wide(c)))
    }
    fn root(a: u64) -> u64 {
        wide_pattern(wide(a).sqrt())
    }
    fn hypotenuse(a: u64, b: u64) -> u64 {
        wide_pattern(wide(a).hypot(wide(b)))
    }
    fn exponential(a: u64) -> u64 {
        wide_pattern(wide(a).exp())
    }
    fn cosine(a: u64) -> u64 {
        wide_pattern(wide(a).cos())
    }
    fn sine(a: u64) -> u64 {
        wide_pattern(wide(a).sin())
    }
    fn round_down(a: u64) -> u64 {
        wide_pattern(wide(a).floor())
    }
    fn round_up(a: u64) -> u64 {
        wide_pattern(wide(a).ceil())
    }
    fn to_integer(a: u64) -> i64 {
        wide(a) as i64
    }
    fn sample_plus(a: u32, b: u32) -> u32 {
        small_pattern(small(a) + small(b))
    }
    fn sample_minus(a: u32, b: u32) -> u32 {
        small_pattern(small(a) - small(b))
    }
    fn sample_over(a: u32, b: u32) -> u32 {
        small_pattern(small(a) / small(b))
    }
    fn sample_fused(a: u32, b: u32, c: u32) -> u32 {
        small_pattern(small(a).mul_add(small(b), small(c)))
    }
    fn sample_root(a: u32) -> u32 {
        small_pattern(small(a).sqrt())
    }
    fn sample_power(a: u32, b: u32) -> u32 {
        small_pattern(small(a).powf(small(b)))
    }
}

fn bits(samples: &[f32]) -> Vec<u32> {
    samples.iter().map(|s| s.to_bits()).collect()
}

fn unbits(samples: &[u32]) -> Vec<f32> {
    samples.iter().map(|s| f32::from_bits(*s)).collect()
}

/// A resource of float samples.
fn resource(
    descriptor: ResourceDescriptor,
    channels: u32,
    samples: Vec<f32>,
) -> Result<ResourceValue, usize> {
    ResourceValue::new(descriptor, channels, bits(&samples))
}

trait Floats {
    fn floats(&self) -> Vec<f32>;
}

impl Floats for ResourceValue {
    fn floats(&self) -> Vec<f32> {
        unbits(self.samples())
    }
}

fn j<T: Into<serde_json::Value>>(value: T) -> serde_json::Value {
    value.into()
}

fn object(members: Vec<(&str, serde_json::Value)>) -> serde_json::Value {
    let mut map = serde_json::Map::new();
    for (name, value) in members {
        map.insert(name.to_owned(), value);
    }
    serde_json::Value::Object(map)
}

fn array(items: Vec<serde_json::Value>) -> serde_json::Value {
    serde_json::Value::Array(items)
}

fn unit_range() -> ValidRange {
    ValidRange::Bounded { min: 0.0_f64.to_bits(), max: 1.0_f64.to_bits() }
}

fn coverage(geometry: &EllipseGeometry, x: f64, y: f64) -> f64 {
    f64::from_bits(geometry.coverage::<Ieee>(x.to_bits(), y.to_bits()))
}

fn feather(sd: f64, half_width_px: f64) -> f64 {
    f64::from_bits(paintop_cpu::ellipse::feather::<Ieee>(sd.to_bits(), half_width_px.to_bits()))
}

/// Coverage tolerance for the `bounded` (sqrt-based) feather.
const TOL: f64 = 1e-6;

/// A square image descriptor of side `n`, used purely as the `extent_from`
/// source (its samples are never read by the mask).
fn extent_source(n: u32) -> ResourceValue {
    let descriptor = ResourceDescriptor::Image(ImageDescriptor {
        extent: Extent::new(n, n),
        layout: ChannelLayout::Rgba,
        scalar: ScalarType::F32,
        color: ColorEncoding::LinearSrgb,
        range: ColorRange::SceneReferred,
        alpha: AlphaRepresentation::Premultiplied,
        coordinates: CoordinateConvention::PixelCenterUpperLeft,
        semantic: SemanticRole::Color,
    });
    let channels = ChannelLayout::Rgba.channel_count();
    let len = (n as usize) * (n as usize) * channels as usize;
    resource(descriptor, channels, vec![0.0; len]).expect("extent source")
}

/// Run the kernel and recover the produced mask value.
fn render(extent: u32, params: &serde_json::Value) -> ResourceValue {
    let mut inputs = Ports::new();
    inputs.insert("extent_from".to_owned(), extent_source(extent));
    let out = EllipseMask::new()
        .compute::<Ieee>(&inputs, params)
        .expect("ellipse computes");
    out.get("mask").expect("mask port produced").clone()
}

#[test]
fn ellipse_manifest_validates_and_agrees_with_contract() {
    let manifest = EllipseMask::manifest().expect("ellipse manifest");
    manifest.validate().expect("ellipse manifest valid");
    check_contract_consistency(
        &manifest,
        &EllipseMask::new().declared_inputs(),
        &EllipseMask::new().declared_outputs(),
    )
    .expect("ellipse manifest agrees with contract");
    verify_categories(&manifest)
        .expect("ellipse verification declarations gate clean");
    assert_eq!(manifest.id.to_string(), ELLIPSE_OP_ID);
}

#[test]
fn produces_a_coverage_mask_descriptor() {
    let params = object(vec![("center_px", array(vec![j(8.0), j(8.0)])), ("radii_px", array(vec![j(4.0), j(4.0)]))]);
    let mask = render(16, &params);
    let ResourceDescriptor::Mask(d) = mask.descriptor() else {
        panic!("expected mask output");
    };
    assert_eq!(d.extent, Extent::new(16, 16));
    assert_eq!(d.meaning, MaskMeaning::Coverage);
    assert_eq!(d.scalar, ScalarType::F32);
    assert_eq!(d.range, unit_range());
    assert_eq!(mask.channels(), 1);
    assert_eq!(mask.floats().len(), 16 * 16);
}

#[test]
fn coverage_is_bounded_and_finite() {
    // A rotated, feathered ellipse: every sample must be a finite [0, 1] value.
    let params = object(vec![("center_px", array(vec![j(33.0), j(24.0)])), ("radii_px", array(vec![j(18.0), j(7.0)])), ("angle_rad", j(0.6)), ("edge", object(vec![("profile", j("smoothstep")), ("half_width_px", j(3.0))]))]);
    let mask = render(64, &params);
    for &s in &mask.floats() {
        assert!(s.is_finite(), "coverage must be finite, got {s}");
        assert!((0.0..=1.0).contains(&s), "coverage out of range: {s}");
    }
}

/// Analytic area convergence: the summed hard-edge
/// coverage approaches the analytic area `π·rx·ry` as resolution grows.
#[test]
fn rendered_area_converges_to_analytic_area() {
    let rx = 0.30_f64;
    let ry = 0.18_f64;
    // Measure the coverage fraction of a centered ellipse at increasing
    // resolution; it must approach π·rx·ry (in unit-square fractions).
    let analytic = std::f64::consts::PI * rx * ry;
    let mut prev_err = f64::INFINITY;
    for &n in &[64_u32, 128, 256] {
        let side = f64::from(n);
        let params = object(vec![("center_px", array(vec![j(side / 2.0), j(side / 2.0)])), ("radii_px", array(vec![j(rx * side), j(ry * side)]))]);
        let mask = render(n, &params);
        let covered: f64 = mask.floats().iter().map(|&s| f64::from(s)).sum();
        let fraction = covered / (side * side);
        let err = (fraction - analytic).abs();
        assert!(
            err < prev_err + 1e-4,
            "area error did not shrink at n={n}: {err} vs {prev_err}"
        );
        prev_err = err;
    }
    // The finest grid is close to the analytic area.
    assert!(prev_err < 1e-3, "area not converged: err={prev_err}");
}

/// 90° rotation covariance: a circle is invariant
/// under a 90° rotation of its (equal) axes.
#[test]
fn circle_is_invariant_under_ninety_degree_rotation() {
    let base = object(vec![("center_px", array(vec![j(16.0), j(16.0)])), ("radii_px", array(vec![j(9.0), j(9.0)])), ("angle_rad", j(0.0)), ("edge", object(vec![("profile", j("smoothstep")), ("half_width_px", j(2.0))]))]);
    let rotated = object(vec![("center_px", array(vec![j(16.0), j(16.0)])), ("radii_px", array(vec![j(9.0), j(9.0)])), ("angle_rad", j(std::f64::consts::FRAC_PI_2)), ("edge", object(vec![("profile", j("smoothstep")), ("half_width_px", j(2.0))]))]);
    let a = render(32, &base);
    let b = render(32, &rotated);
    for (x, y) in a.floats().iter().zip(b.floats().iter()) {
        assert!((f64::from(*x) - f64::from(*y)).abs() < TOL, "{x} vs {y}");
    }
}

/// 90° rotation covariance for an anisotropic ellipse: rotating the ellipse 90°
/// is the same as swapping its radii.
#[test]
fn quarter_turn_equals_swapping_radii() {
    let rotated = object(vec![("center_px", array(vec![j(16.0), j(16.0)])), ("radii_px", array(vec![j(10.0), j(4.0)])), ("angle_rad", j(std::f64::consts::FRAC_PI_2))]);
    let swapped = object(vec![("center_px", array(vec![j(16.0), j(16.0)])), ("radii_px", array(vec![j(4.0), j(10.0)])), ("angle_rad", j(0.0))]);
    let a = render(32, &rotated);
    let b = render(32, &swapped);
    for (x, y) in a.floats().iter().zip(b.floats().iter()) {
        assert!((f64::from(*x) - f64::from(*y)).abs() < TOL, "{x} vs {y}");
    }
}

/// Translation metamorphic: shifting the center by an integer pixel offset
/// shifts the coverage by the same offset.
#[test]
fn integer_translation_shifts_coverage() {
    let side = 40_u32;
    let base = object(vec![("center_px", array(vec![j(18.0), j(18.0)])), ("radii_px", array(vec![j(6.0), j(9.0)])), ("angle_rad", j(0.3)), ("edge", object(vec![("profile", j("smoothstep")), ("half_width_px", j(2.0))]))]);
    let shifted = object(vec![("center_px", array(vec![j(22.0), j(21.0)])), ("radii_px", array(vec![j(6.0), j(9.0)])), ("angle_rad", j(0.3)), ("edge", object(vec![("profile", j("smoothstep")), ("half_width_px", j(2.0))]))]);
    let dx = 4_usize;
    let dy = 3_usize;
    let unshifted = render(side, &base);
    let moved = render(side, &shifted);
    let width = side as usize;
    let height = side as usize;
    for row in 0..(height - dy) {
        for col in 0..(width - dx) {
            let src = unshifted.floats()[row * width + col];
            let dst = moved.floats()[(row + dy) * width + (col + dx)];
            assert!(
                (f64::from(src) - f64::from(dst)).abs() < TOL,
                "translation mismatch at ({col},{row}): {src} vs {dst}"
            );
        }
    }
}

/// The soft-edge transition width equals `2·half_width_px` in physical pixels
/// : measure the band where `0 < coverage < 1` along the
/// boundary normal of an axis-aligned circle and confirm it spans `2h`.
#[test]
fn feather_transition_width_equals_two_half_widths() {
    // Sample coverage along the +x ray from a large centered circle, where the
    // boundary normal is exactly +x, so the analytic signed distance equals the
    // pixel distance from the boundary. The feather coverage maps directly to it.
    let radius = 200.0_f64;
    let h = 6.0_f64;
    let geometry = EllipseGeometry::resolve(&object(vec![("center_px", array(vec![j(0.0), j(0.0)])), ("radii_px", array(vec![j(radius), j(radius)])), ("edge", object(vec![("profile", j("smoothstep")), ("half_width_px", j(h))]))]))
    .expect("geometry");

    // Coverage is 1 at distance r - h from center and 0 at r + h: the transition
    // band is [r - h, r + h], width 2h.
    let inside_edge = coverage(&geometry, radius - h, 0.0);
    let outside_edge = coverage(&geometry, radius + h, 0.0);
    let at_boundary = coverage(&geometry, radius, 0.0);
    assert!(
        (inside_edge - 1.0).abs() < 1e-3,
        "coverage at inner band edge should be ~1, got {inside_edge}"
    );
    assert!(
        outside_edge.abs() < 1e-3,
        "coverage at outer band edge should be ~0, got {outside_edge}"
    );
    assert!(
        (at_boundary - 0.5).abs() < 1e-3,
        "coverage at boundary should be ~0.5, got {at_boundary}"
    );

    // Just inside the band the coverage is strictly between 0 and 1; just outside
    // it is saturated. This pins the band width to exactly 2h.
    assert!(coverage(&geometry, radius - h + 0.5, 0.0) < 1.0);
    assert!(coverage(&geometry, radius + h - 0.5, 0.0) > 0.0);
    assert!((coverage(&geometry, radius - h - 0.5, 0.0) - 1.0).abs() < TOL);
    assert!(coverage(&geometry, radius + h + 0.5, 0.0).abs() < TOL);
}

/// The `feather` primitive is a monotone non-increasing map from signed distance
/// to coverage, pinned at the band edges.
#[test]
fn feather_is_monotone_and_pinned() {
    let half = 4.0_f64;
    assert!((feather(-half - 1.0, half) - 1.0).abs() < TOL);
    assert!(feather(half + 1.0, half).abs() < TOL);
    assert!((feather(0.0, half) - 0.5).abs() < TOL);
    let mut prev = f64::INFINITY;
    for i in 0..=100 {
        let fraction = f64::from(i) / 100.0;
        let sd = (4.0 * half).mul_add(fraction, -2.0 * half);
        let coverage = feather(sd, half);
        assert!(coverage <= prev + TOL, "feather not monotone at sd={sd}");
        assert!((0.0..=1.0).contains(&coverage));
        prev = coverage;
    }
    // h = 0 is a hard, half-open edge.
    assert!((feather(0.0, 0.0) - 1.0).abs() < TOL);
    assert!(feather(1e-9, 0.0).abs() < TOL);
}

/// Half-open pixel convention: with a hard edge a
/// pixel center lying exactly on the analytic boundary is covered, and one just
/// outside is not.
#[test]
fn half_open_convention_on_pixel_aligned_boundary() {
    // A circle of radius 4 centered at a pixel center (8.5, 8.5): the pixel whose
    // center sits at distance exactly 4 along +x is at x = 12.5 (center 8.5 + 4),
    // i.e. pixel column 12. A hard edge (no `edge`) must cover it (sd == 0 -> in)
    // and exclude column 13 (sd > 0 -> out).
    let params = object(vec![("center_px", array(vec![j(8.5), j(8.5)])), ("radii_px", array(vec![j(4.0), j(4.0)]))]);
    let mask = render(17, &params);
    let width = 17_usize;
    let row = 8_usize; // y center 8.5, the circle's center row
    let on_boundary = mask.floats()[row * width + 12];
    let just_outside = mask.floats()[row * width + 13];
    assert!(
        (f64::from(on_boundary) - 1.0).abs() < TOL,
        "pixel center on the boundary is covered, got {on_boundary}"
    );
    assert!(
        f64::from(just_outside).abs() < TOL,
        "pixel just outside is not covered, got {just_outside}"
    );
}

#[test]
fn degenerate_zero_radius_is_rejected() {
    let mut inputs = Ports::new();
    inputs.insert("extent_from".to_owned(), extent_source(8));
    let params = object(vec![("center_px", array(vec![j(4.0), j(4.0)])), ("radii_px", array(vec![j(0.0), j(3.0)]))]);
    let err = EllipseMask::new()
        .compute::<Ieee>(&inputs, &params)
        .expect_err("zero radius must be rejected");
    assert_eq!(err.class, ErrorClass::Schema);
    assert_eq!(err.code, E_ELLIPSE_PARAM);
}

#[test]
fn degenerate_negative_radius_is_rejected() {
    let mut inputs = Ports::new();
    inputs.insert("extent_from".to_owned(), extent_source(8));
    let params = object(vec![("center_px", array(vec![j(4.0), j(4.0)])), ("radii_px", array(vec![j(3.0), j(-2.0)]))]);
    let err = EllipseMask::new()
        .compute::<Ieee>(&inputs, &params)
        .expect_err("negative radius must be rejected");
    assert_eq!(err.class, ErrorClass::Schema);
}

#[test]
fn non_finite_center_is_rejected() {
    // JSON cannot carry NaN/Inf directly; a missing element / wrong shape is the
    // reachable degenerate. A wrong-arity center is rejected.
    let mut inputs = Ports::new();
    inputs.insert("extent_from".to_owned(), extent_source(8));
    let params = object(vec![("center_px", array(vec![j(4.0)])), ("radii_px", array(vec![j(3.0), j(3.0)]))]);
    let err = EllipseMask::new()
        .compute::<Ieee>(&inputs, &params)
        .expect_err("malformed center must be rejected");
    assert_eq!(err.class, ErrorClass::Schema);
}

#[test]
fn unsupported_antialias_is_rejected() {
    let mut inputs = Ports::new();
    inputs.insert("extent_from".to_owned(), extent_source(8));
    let params = object(vec![("center_px", array(vec![j(4.0), j(4.0)])), ("radii_px", array(vec![j(3.0), j(3.0)])), ("antialias", j("supersample"))]);
    let err = EllipseMask::new()
        .compute::<Ieee>(&inputs, &params)
        .expect_err("unsupported antialias must be rejected");
    assert_eq!(err.class, ErrorClass::Schema);
}

#[test]
fn unsupported_edge_profile_is_rejected() {
    let mut inputs = Ports::new();
    inputs.insert("extent_from".to_owned(), extent_source(8));
    let params = object(vec![("center_px", array(vec![j(4.0), j(4.0)])), ("radii_px", array(vec![j(3.0), j(3.0)])), ("edge", object(vec![("profile", j("linear")), ("half_width_px", j(2.0))]))]);
    let err = EllipseMask::new()
        .compute::<Ieee>(&inputs, &params)
        .expect_err("unsupported edge profile must be rejected");
    assert_eq!(err.class, ErrorClass::Schema);
}

#[test]
fn negative_half_width_is_rejected() {
    let mut inputs = Ports::new();
    inputs.insert("extent_from".to_owned(), extent_source(8));
    let params = object(vec![("center_px", array(vec![j(4.0), j(4.0)])), ("radii_px", array(vec![j(3.0), j(3.0)])), ("edge", object(vec![("profile", j("smoothstep")), ("half_width_px", j(-1.0))]))]);
    let err = EllipseMask::new()
        .compute::<Ieee>(&inputs, &params)
        .expect_err("negative half width must be rejected");
    assert_eq!(err.class, ErrorClass::Schema);
}

#[test]
fn infer_outputs_records_mask_and_empty_input_roi() {
    let descriptor = ResourceDescriptor::Image(ImageDescriptor {
        extent: Extent::new(20, 12),
        layout: ChannelLayout::Rgba,
        scalar: ScalarType::F32,
        color: ColorEncoding::LinearSrgb,
        range: ColorRange::SceneReferred,
        alpha: AlphaRepresentation::Premultiplied,
        coordinates: CoordinateConvention::PixelCenterUpperLeft,
        semantic: SemanticRole::Color,
    });
    let mut inputs = Ports::new();
    inputs.insert("extent_from".to_owned(), descriptor);
    let params = object(vec![("center_px", array(vec![j(10.0), j(6.0)])), ("radii_px", array(vec![j(5.0), j(3.0)]))]);

    let out = EllipseMask::new()
        .infer_outputs(&inputs, &params)
        .expect("infer");
    let ResourceDescriptor::Mask(d) = (*out.get("mask").unwrap()) else {
        panic!("expected mask");
    };
    assert_eq!(d.extent, Extent::new(20, 12));

    // The mask reads no input samples: the demanded input region is empty.
    let mut requested = Ports::new();
    requested.insert("mask".to_owned(), Rect::new(0, 0, 20, 12));
    let needed = EllipseMask::new()
        .required_inputs(&requested, &inputs, &params)
        .expect("required_inputs");
    assert_eq!((*needed.get("extent_from").unwrap()), Rect::new(0, 0, 0, 0));

    // Postconditions hold.
    let results = EllipseMask::new()
        .validate_postconditions(&out, &params)
        .expect("postconditions");
    assert!(results.iter().all(|r| r.status == AssertionStatus::Pass));
}

#[test]
fn infer_outputs_rejects_degenerate_geometry() {
    let descriptor = ResourceDescriptor::Image(ImageDescriptor {
        extent: Extent::new(8, 8),
        layout: ChannelLayout::Rgba,
        scalar: ScalarType::F32,
        color: ColorEncoding::LinearSrgb,
        range: ColorRange::SceneReferred,
        alpha: AlphaRepresentation::Premultiplied,
        coordinates: CoordinateConvention::PixelCenterUpperLeft,
        semantic: SemanticRole::Color,
    });
    let mut inputs = Ports::new();
    inputs.insert("extent_from".to_owned(), descriptor);
    let params = object(vec![("center_px", array(vec![j(4.0), j(4.0)])), ("radii_px", array(vec![j(0.0), j(0.0)]))]);
    let err = EllipseMask::new()
        .infer_outputs(&inputs, &params)
        .expect_err("degenerate geometry must be rejected at infer time");
    assert_eq!(err.class, ErrorClass::Schema);
}
