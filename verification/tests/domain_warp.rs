//! Warping by a displacement field.
use paintop_cpu::arithmetic::Arithmetic;
use paintop_cpu::domain_warp::{DomainWarp, DOMAIN_WARP_OP_ID};
use paintop_cpu::ir::{
    AlphaRepresentation, ChannelLayout, ColorEncoding, ColorRange, CoordinateConvention, Extent,
    FieldArity, FieldDescriptor, ImageDescriptor, ResourceDescriptor, ScalarType, SemanticRole,
};
use paintop_cpu::ports::Ports;
use paintop_cpu::value::ResourceValue;

/// IEEE arithmetic on patterns.
struct Ieee;

fn wide(a: u64) -> f64 {
    f64::from_bits(a)
}

fn small(a: u32) -> f32 {
    f32::from_bits(a)
}

/// The pattern of a result. A result that is no number has one pattern, so that equal operands give
/// one result.
fn wide_pattern(x: f64) -> u64 {
    if x.is_nan() {
        0x7ff8_0000_0000_0000
    } else {
        x.to_bits()
    }
}

/// The pattern of a sample that an operation gives.
fn small_pattern(x: f32) -> u32 {
    if x.is_nan() {
        0x7fc0_0000
    } else {
        x.to_bits()
    }
}

impl Arithmetic for Ieee {
    /// What is no number keeps its sign and payload.
    fn widen(a: u32) -> u64 {
        if small(a).is_nan() {
            let sign = u64::from(a >> 31) << 63;
            sign | 0x7ff0_0000_0000_0000 | (u64::from(a & 0x007f_ffff) << 29)
        } else {
            f64::from(small(a)).to_bits()
        }
    }
    /// What is no number keeps its sign and the upper part of its payload.
    fn narrow(a: u64) -> u32 {
        if wide(a).is_nan() {
            let sign = ((a >> 63) as u32) << 31;
            let payload = ((a >> 29) as u32) & 0x007f_ffff;
            sign | 0x7f80_0000 | if payload == 0 { 0x0040_0000 } else { payload }
        } else {
            (wide(a) as f32).to_bits()
        }
    }
    fn whole(a: i64) -> u64 {
        wide_pattern(a as f64)
    }
    fn tally(a: u64) -> u64 {
        wide_pattern(a as f64)
    }
    fn plus(a: u64, b: u64) -> u64 {
        wide_pattern(wide(a) + wide(b))
    }
    fn minus(a: u64, b: u64) -> u64 {
        wide_pattern(wide(a) - wide(b))
    }
    fn times(a: u64, b: u64) -> u64 {
        wide_pattern(wide(a) * wide(b))
    }
    fn over(a: u64, b: u64) -> u64 {
        wide_pattern(wide(a) / wide(b))
    }
    fn fused(a: u64, b: u64, c: u64) -> u64 {
        wide_pattern(wide(a).mul_add(wide(b), wide(c)))
    }
    fn root(a: u64) -> u64 {
        wide_pattern(wide(a).sqrt())
    }
    fn hypotenuse(a: u64, b: u64) -> u64 {
        wide_pattern(wide(a).hypot(wide(b)))
    }
    fn exponential(a: u64) -> u64 {
        wide_pattern(wide(a).exp())
    }
    fn cosine(a: u64) -> u64 {
        wide_pattern(wide(a).cos())
    }
    fn sine(a: u64) -> u64 {
        wide_pattern(wide(a).sin())
    }
    fn round_down(a: u64) -> u64 {
        wide_pattern(wide(a).floor())
    }
    fn round_up(a: u64) -> u64 {
        wide_pattern(wide(a).ceil())
    }
    fn to_integer(a: u64) -> i64 {
        wide(a) as i64
    }
    fn sample_plus(a: u32, b: u32) -> u32 {
        small_pattern(small(a) + small(b))
    }
    fn sample_minus(a: u32, b: u32) -> u32 {
        small_pattern(small(a) - small(b))
    }
    fn sample_over(a: u32, b: u32) -> u32 {
        small_pattern(small(a) / small(b))
    }
    fn sample_fused(a: u32, b: u32, c: u32) -> u32 {
        small_pattern(small(a).mul_add(small(b), small(c)))
    }
    fn sample_root(a: u32) -> u32 {
        small_pattern(small(a).sqrt())
    }
    fn sample_power(a: u32, b: u32) -> u32 {
        small_pattern(small(a).powf(small(b)))
    }
}

fn bits(samples: &[f32]) -> Vec<u32> {
    samples.iter().map(|s| s.to_bits()).collect()
}

fn unbits(samples: &[u32]) -> Vec<f32> {
    samples.iter().map(|s| f32::from_bits(*s)).collect()
}

/// A resource of float samples.
fn resource(
    descriptor: ResourceDescriptor,
    channels: u32,
    samples: Vec<f32>,
) -> Result<ResourceValue, usize> {
    ResourceValue::new(descriptor, channels, bits(&samples))
}

trait Floats {
    fn floats(&self) -> Vec<f32>;
}

impl Floats for ResourceValue {
    fn floats(&self) -> Vec<f32> {
        unbits(self.samples())
    }
}

fn j<T: Into<serde_json::Value>>(value: T) -> serde_json::Value {
    value.into()
}

fn object(members: Vec<(&str, serde_json::Value)>) -> serde_json::Value {
    let mut map = serde_json::Map::new();
    for (name, value) in members {
        map.insert(name.to_owned(), value);
    }
    serde_json::Value::Object(map)
}

/// Wrap a flat row-major scalar buffer as a Field1 source value.
fn field1(width: u32, height: u32, samples: Vec<f32>) -> ResourceValue {
    let descriptor = ResourceDescriptor::Field1(FieldDescriptor {
        arity: FieldArity::Field1,
        extent: Extent::new(width, height),
        scalar: ScalarType::F32,
        semantic: SemanticRole::Material,
        coordinates: CoordinateConvention::PixelCenterUpperLeft,
        space: None,
        normalization: None,
        encoding: None,
    });
    resource(descriptor, 1, samples).expect("field buffer matches descriptor")
}

/// Wrap a flat (dx, dy)-interleaved buffer as a Field2 displacement value.
fn displacement(width: u32, height: u32, samples: Vec<f32>) -> ResourceValue {
    let descriptor = ResourceDescriptor::Field2(FieldDescriptor {
        arity: FieldArity::Field2,
        extent: Extent::new(width, height),
        scalar: ScalarType::F32,
        semantic: SemanticRole::Flow,
        coordinates: CoordinateConvention::PixelCenterUpperLeft,
        space: None,
        normalization: None,
        encoding: None,
    });
    resource(descriptor, 2, samples).expect("displacement buffer matches descriptor")
}

/// A constant (dx, dy) displacement field of the given extent.
fn constant_displacement(width: u32, height: u32, dx: f32, dy: f32) -> ResourceValue {
    let n = (width as usize) * (height as usize);
    let mut samples = Vec::with_capacity(n * 2);
    for _ in 0..n {
        samples.push(dx);
        samples.push(dy);
    }
    displacement(width, height, samples)
}

/// A ramp source where pixel `(x, y)` holds `x + 10*y` (distinct per pixel).
fn ramp(width: u32, height: u32) -> ResourceValue {
    let mut samples = Vec::with_capacity((width * height) as usize);
    for y in 0..height {
        for x in 0..width {
            samples.push(f32::from(u16::try_from(x + 10 * y).unwrap_or(0)));
        }
    }
    field1(width, height, samples)
}

/// Run the warp with the given params and return the warped buffer.
fn warp(source: &ResourceValue, disp: &ResourceValue, params: &serde_json::Value) -> Vec<f32> {
    let mut inputs = Ports::new();
    inputs.insert("source".to_owned(), source.clone());
    inputs.insert("displacement".to_owned(), disp.clone());
    let out = DomainWarp::new()
        .compute::<Ieee>(&inputs, params)
        .expect("warp computes");
    out.get("warped")
        .expect("warped output present")
        .floats()
        .to_vec()
}

#[test]
fn manifest_matches_contract() {
    let manifest = DomainWarp::manifest().expect("manifest builds");
    assert_eq!(manifest.id.to_string(), DOMAIN_WARP_OP_ID);
    assert_eq!(manifest.inputs.len(), 2);
}

#[test]
fn zero_displacement_is_identity_bilinear() {
    let source = ramp(8, 6);
    let disp = constant_displacement(8, 6, 0.0, 0.0);
    let out = warp(&source, &disp, &object(vec![("filter", j("bilinear"))]));
    for (got, want) in out.iter().zip(source.floats()) {
        assert_eq!(got.to_bits(), want.to_bits(), "zero warp must be identity");
    }
}

#[test]
fn zero_displacement_is_identity_nearest() {
    let source = ramp(8, 6);
    let disp = constant_displacement(8, 6, 0.0, 0.0);
    let out = warp(&source, &disp, &object(vec![("filter", j("nearest"))]));
    assert_eq!(
        out,
        source.floats(),
        "zero warp (nearest) must be identity"
    );
}

#[test]
fn integer_constant_displacement_is_a_shift() {
    // dx = 1, dy = 0: output (x, y) reads source (x + 1, y). With nearest and
    // clamp, the rightmost column replicates.
    let source = ramp(5, 3);
    let disp = constant_displacement(5, 3, 1.0, 0.0);
    let out = warp(
        &source,
        &disp,
        &object(vec![("filter", j("nearest")), ("boundary", object(vec![("mode", j("clamp"))]))]),
    );
    let src = source.floats();
    let w = 5usize;
    for y in 0..3usize {
        for x in 0..w {
            let read_x = (x + 1).min(w - 1);
            let want = src[y * w + read_x];
            assert_eq!(
                out[y * w + x].to_bits(),
                want.to_bits(),
                "shift mismatch at ({x},{y})"
            );
        }
    }
}

#[test]
fn half_pixel_displacement_is_the_bilinear_average() {
    // dx = 0.5: output (x, y) reads source center (x + 1.0); with the pixel-center
    // convention that lands exactly between centers x and x+1, so bilinear gives
    // their average. dy = 0 keeps rows aligned.
    let source = ramp(6, 1);
    let disp = constant_displacement(6, 1, 0.5, 0.0);
    let out = warp(
        &source,
        &disp,
        &object(vec![("filter", j("bilinear")), ("boundary", object(vec![("mode", j("clamp"))]))]),
    );
    let src = source.floats();
    let w = 6usize;
    for x in 0..w {
        let a = f64::from(src[x]);
        let b = f64::from(src[(x + 1).min(w - 1)]);
        let want = (a + b) * 0.5;
        assert!(
            (f64::from(out[x]) - want).abs() < 1e-4,
            "half-pixel average mismatch at {x}: got {} want {want}",
            out[x]
        );
    }
}

#[test]
fn warp_inverse_warp_round_trips_in_interior() {
    // A constant fractional shift `d` followed by `-d` is the inverse warp; on a
    // smooth low-gradient source the bilinear round-trip recovers the source to a
    // small, bounded error in the interior (a constant displacement's negation is
    // exactly its inverse, so the only error is the bilinear reconstruction blur).
    let w = 16u32;
    let h = 16u32;
    // A smooth, low-gradient source: a coarse sinusoid so the slope is gentle and
    // a sub-pixel misregistration cannot blow up into a large value error.
    let mut samples = Vec::with_capacity((w * h) as usize);
    for y in 0..h {
        for x in 0..w {
            let v = (f64::from(x) * 0.2).sin() + (f64::from(y) * 0.2).cos();
            samples.push(v as f32);
        }
    }
    let source = field1(w, h, samples);
    let fwd = constant_displacement(w, h, 0.37, -0.21);
    let bwd = constant_displacement(w, h, -0.37, 0.21);
    let params = object(vec![("filter", j("bilinear")), ("boundary", object(vec![("mode", j("clamp"))]))]);
    let once = warp(&source, &fwd, &params);
    let once_field = field1(w, h, once);
    let twice = warp(&once_field, &bwd, &params);
    // Check the interior (away from the 1px border where clamping breaks the
    // inverse).
    let src = source.floats();
    let ww = w as usize;
    for y in 2..(h as usize - 2) {
        for x in 2..(ww - 2) {
            let i = y * ww + x;
            assert!(
                (f64::from(twice[i]) - f64::from(src[i])).abs() < 0.05,
                "round-trip drifted at ({x},{y}): {} vs {}",
                twice[i],
                src[i]
            );
        }
    }
}

#[test]
fn boundary_constant_reads_the_constant_off_edge() {
    // A large negative dx points off the left edge; with constant boundary the
    // value must be the declared constant.
    let source = ramp(4, 1);
    let disp = constant_displacement(4, 1, -100.0, 0.0);
    let out = warp(
        &source,
        &disp,
        &object(vec![("filter", j("nearest")), ("boundary", object(vec![("mode", j("constant")), ("value", j(-7.0))]))]),
    );
    for &v in &out {
        assert_eq!(
            v.to_bits(),
            (-7.0_f32).to_bits(),
            "off-edge must read the constant"
        );
    }
}

#[test]
fn boundary_wrap_is_periodic() {
    // dx = width points exactly one period right; wrap returns the same row.
    let source = ramp(5, 1);
    let disp = constant_displacement(5, 1, 5.0, 0.0);
    let out = warp(
        &source,
        &disp,
        &object(vec![("filter", j("nearest")), ("boundary", object(vec![("mode", j("wrap"))]))]),
    );
    assert_eq!(out, source.floats(), "a full-period wrap is the identity");
}

#[test]
fn warp_is_bit_identical_across_runs() {
    let source = ramp(12, 9);
    let disp = constant_displacement(12, 9, 1.3, -0.7);
    let p = object(vec![("filter", j("bilinear"))]);
    assert_eq!(warp(&source, &disp, &p), warp(&source, &disp, &p));
}

#[test]
fn descriptor_is_preserved_for_an_image_source() {
    let descriptor = ResourceDescriptor::Image(ImageDescriptor {
        extent: Extent::new(3, 2),
        layout: ChannelLayout::Rgb,
        scalar: ScalarType::F32,
        color: ColorEncoding::LinearSrgb,
        range: ColorRange::SceneReferred,
        alpha: AlphaRepresentation::Straight,
        coordinates: CoordinateConvention::PixelCenterUpperLeft,
        semantic: SemanticRole::Color,
    });
    let samples = vec![0.0_f32; 3 * 2 * 3];
    let source = resource(descriptor, 3, samples).expect("image value");
    let disp = constant_displacement(3, 2, 0.0, 0.0);
    let mut inputs = Ports::new();
    inputs.insert("source".to_owned(), source.clone());
    inputs.insert("displacement".to_owned(), disp);
    let out = DomainWarp::new()
        .compute::<Ieee>(&inputs, &object(vec![]))
        .expect("image warp computes");
    let warped = out.get("warped").expect("warped present");
    assert_eq!(
        warped.descriptor(),
        source.descriptor(),
        "the warp must preserve the source descriptor"
    );
}

#[test]
fn extent_mismatch_is_rejected() {
    let source = ramp(4, 4);
    let disp = constant_displacement(3, 4, 0.0, 0.0);
    let mut inputs = Ports::new();
    inputs.insert("source".to_owned(), source);
    inputs.insert("displacement".to_owned(), disp);
    assert!(
        DomainWarp::new()
            .compute::<Ieee>(&inputs, &object(vec![]))
            .is_err()
    );
}
