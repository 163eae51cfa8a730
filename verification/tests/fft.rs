//! The Fourier operations.
use paintop_cpu::arithmetic::Arithmetic;
use paintop_cpu::fft::{Fft2, Ifft2, FFT2_OP_ID, IFFT2_OP_ID};
use paintop_cpu::ir::{
    AlphaRepresentation, ChannelLayout, ColorEncoding, ColorRange, CoordinateConvention, Extent,
    ImageDescriptor, ResourceDescriptor, ScalarType, SemanticRole,
};
use paintop_cpu::manifest::{OperationManifest};
use paintop_cpu::ports::Ports;
use paintop_cpu::value::ResourceValue;

/// IEEE arithmetic on patterns.
struct Ieee;

fn wide(a: u64) -> f64 {
    f64::from_bits(a)
}

fn small(a: u32) -> f32 {
    f32::from_bits(a)
}

/// The pattern of a result. A result that is no number has one pattern, so that equal operands give
/// one result.
fn wide_pattern(x: f64) -> u64 {
    if x.is_nan() {
        0x7ff8_0000_0000_0000
    } else {
        x.to_bits()
    }
}

/// The pattern of a sample that an operation gives.
fn small_pattern(x: f32) -> u32 {
    if x.is_nan() {
        0x7fc0_0000
    } else {
        x.to_bits()
    }
}

impl Arithmetic for Ieee {
    /// What is no number keeps its sign and payload.
    fn widen(a: u32) -> u64 {
        if small(a).is_nan() {
            let sign = u64::from(a >> 31) << 63;
            sign | 0x7ff0_0000_0000_0000 | (u64::from(a & 0x007f_ffff) << 29)
        } else {
            f64::from(small(a)).to_bits()
        }
    }
    /// What is no number keeps its sign and the upper part of its payload.
    fn narrow(a: u64) -> u32 {
        if wide(a).is_nan() {
            let sign = ((a >> 63) as u32) << 31;
            let payload = ((a >> 29) as u32) & 0x007f_ffff;
            sign | 0x7f80_0000 | if payload == 0 { 0x0040_0000 } else { payload }
        } else {
            (wide(a) as f32).to_bits()
        }
    }
    fn whole(a: i64) -> u64 {
        wide_pattern(a as f64)
    }
    fn tally(a: u64) -> u64 {
        wide_pattern(a as f64)
    }
    fn plus(a: u64, b: u64) -> u64 {
        wide_pattern(wide(a) + wide(b))
    }
    fn minus(a: u64, b: u64) -> u64 {
        wide_pattern(wide(a) - wide(b))
    }
    fn times(a: u64, b: u64) -> u64 {
        wide_pattern(wide(a) * wide(b))
    }
    fn over(a: u64, b: u64) -> u64 {
        wide_pattern(wide(a) / wide(b))
    }
    fn fused(a: u64, b: u64, c: u64) -> u64 {
        wide_pattern(wide(a).mul_add(wide(b), wide(c)))
    }
    fn root(a: u64) -> u64 {
        wide_pattern(wide(a).sqrt())
    }
    fn hypotenuse(a: u64, b: u64) -> u64 {
        wide_pattern(wide(a).hypot(wide(b)))
    }
    fn exponential(a: u64) -> u64 {
        wide_pattern(wide(a).exp())
    }
    fn cosine(a: u64) -> u64 {
        wide_pattern(wide(a).cos())
    }
    fn sine(a: u64) -> u64 {
        wide_pattern(wide(a).sin())
    }
    fn round_down(a: u64) -> u64 {
        wide_pattern(wide(a).floor())
    }
    fn round_up(a: u64) -> u64 {
        wide_pattern(wide(a).ceil())
    }
    fn to_integer(a: u64) -> i64 {
        wide(a) as i64
    }
    fn sample_plus(a: u32, b: u32) -> u32 {
        small_pattern(small(a) + small(b))
    }
    fn sample_minus(a: u32, b: u32) -> u32 {
        small_pattern(small(a) - small(b))
    }
    fn sample_over(a: u32, b: u32) -> u32 {
        small_pattern(small(a) / small(b))
    }
    fn sample_fused(a: u32, b: u32, c: u32) -> u32 {
        small_pattern(small(a).mul_add(small(b), small(c)))
    }
    fn sample_root(a: u32) -> u32 {
        small_pattern(small(a).sqrt())
    }
    fn sample_power(a: u32, b: u32) -> u32 {
        small_pattern(small(a).powf(small(b)))
    }
}

fn bits(samples: &[f32]) -> Vec<u32> {
    samples.iter().map(|s| s.to_bits()).collect()
}

fn unbits(samples: &[u32]) -> Vec<f32> {
    samples.iter().map(|s| f32::from_bits(*s)).collect()
}

/// A resource of float samples.
fn resource(
    descriptor: ResourceDescriptor,
    channels: u32,
    samples: Vec<f32>,
) -> Result<ResourceValue, usize> {
    ResourceValue::new(descriptor, channels, bits(&samples))
}

trait Floats {
    fn floats(&self) -> Vec<f32>;
}

impl Floats for ResourceValue {
    fn floats(&self) -> Vec<f32> {
        unbits(self.samples())
    }
}

/// Narrow an `f64` to the op's `f32` sample type for fixture construction.
fn to_f32(v: f64) -> f32 {
    v as f32
}

/// A pseudo-random-but-deterministic ramp sample in `[0, 1)` for index `i`.
fn ramp(i: usize, mul: u32, modulo: u32) -> f32 {
    let n = u32::try_from(i).unwrap_or(0).wrapping_mul(mul) % modulo;
    let v = n as f32 / modulo as f32;
    v
}

fn image_value(extent: Extent, layout: ChannelLayout, samples: Vec<f32>) -> ResourceValue {
    let d = ResourceDescriptor::Image(ImageDescriptor {
        extent,
        layout,
        scalar: ScalarType::F32,
        color: ColorEncoding::LinearSrgb,
        range: ColorRange::SceneReferred,
        alpha: AlphaRepresentation::Premultiplied,
        coordinates: CoordinateConvention::PixelCenterUpperLeft,
        semantic: SemanticRole::Color,
    });
    resource(d, layout.channel_count(), samples).unwrap()
}

fn fft2(input: ResourceValue) -> ResourceValue {
    let mut inputs = Ports::new();
    inputs.insert("input".to_owned(), input);
    let out = Fft2::new()
        .compute::<Ieee>(&inputs, &serde_json::Value::Null)
        .unwrap();
    out.get("spectrum").unwrap().clone()
}

fn ifft2(spectrum: ResourceValue) -> ResourceValue {
    let mut inputs = Ports::new();
    inputs.insert("spectrum".to_owned(), spectrum);
    let out = Ifft2::new()
        .compute::<Ieee>(&inputs, &serde_json::Value::Null)
        .unwrap();
    out.get("image").unwrap().clone()
}

#[test]
fn manifests_validate_and_match_ids() {
    let f: OperationManifest = Fft2::manifest().unwrap();
    f.validate().unwrap();
    assert_eq!(f.id.to_string(), FFT2_OP_ID);
    let i: OperationManifest = Ifft2::manifest().unwrap();
    i.validate().unwrap();
    assert_eq!(i.id.to_string(), IFFT2_OP_ID);
}

#[test]
fn fft2_then_ifft2_round_trips() {
    for (w, h) in [(8u32, 8u32), (12, 12), (10, 6)] {
        let pixels = (w * h) as usize;
        let samples: Vec<f32> = (0..pixels).map(|i| ramp(i, 41, 97)).collect();
        let input = image_value(Extent::new(w, h), ChannelLayout::Gray, samples.clone());
        let spectrum = fft2(input);
        assert_eq!(spectrum.channels(), 1);
        assert_eq!(spectrum.extent(), Extent::new(w, h));
        // Spectrum buffer is W*H*channels*2 (interleaved re/im).
        assert_eq!(spectrum.floats().len(), pixels * 2);
        let recon = ifft2(spectrum);
        assert_eq!(recon.floats().len(), samples.len());
        for (r, s) in recon.floats().iter().zip(samples.iter()) {
            assert!((r - s).abs() < 1e-4, "{w}x{h}: {r} vs {s}");
        }
    }
}

#[test]
fn constant_image_is_pure_dc() {
    let input = image_value(Extent::new(8, 8), ChannelLayout::Gray, vec![0.5_f32; 64]);
    let spectrum = fft2(input);
    let s = spectrum.floats();
    // DC = sum = 0.5*64 = 32; everything else ~0.
    assert!((f64::from(s[0]) - 32.0).abs() < 1e-3);
    for k in 1..64 {
        assert!(f64::from(s[k * 2]).abs() < 1e-3, "bin {k} re");
        assert!(f64::from(s[k * 2 + 1]).abs() < 1e-3, "bin {k} im");
    }
}

#[test]
fn sinusoid_produces_expected_peak() {
    let extent = Extent::new(16, 16);
    let (w, h) = (extent.width as usize, extent.height as usize);
    let fx = 4usize;
    let mut samples = vec![0.0_f32; w * h];
    for y in 0..h {
        for x in 0..w {
            let arg = 2.0 * std::f64::consts::PI * (fx as f64) * (x as f64) / (w as f64);
            samples[y * w + x] = to_f32(arg.cos());
        }
    }
    let input = image_value(extent, ChannelLayout::Gray, samples);
    let spectrum = fft2(input);
    let s = spectrum.floats();
    let energy = |k: usize| -> f64 {
        let re = f64::from(s[k * 2]);
        let im = f64::from(s[k * 2 + 1]);
        re.mul_add(re, im * im)
    };
    let peak = (w * h) as f64 / 2.0;
    assert!((energy(fx).sqrt() - peak).abs() < 1.0, "+fx peak");
    assert!((energy(w - fx).sqrt() - peak).abs() < 1.0, "-fx peak");
}

#[test]
fn round_trip_is_bit_identical_across_reruns() {
    let samples: Vec<f32> = (0..64usize).map(|i| ramp(i, 1, 11)).collect();
    let a = fft2(image_value(
        Extent::new(8, 8),
        ChannelLayout::Gray,
        samples.clone(),
    ));
    let b = fft2(image_value(Extent::new(8, 8), ChannelLayout::Gray, samples));
    assert_eq!(a.floats(), b.floats(), "fft2 must be bit-identical");
}

#[test]
fn rgb_channels_round_trip_independently() {
    let mut samples = Vec::new();
    for i in 0..64usize {
        let f = ramp(i, 1, 5);
        samples.extend_from_slice(&[f, 1.0 - f, 0.5 * f]);
    }
    let input = image_value(Extent::new(8, 8), ChannelLayout::Rgb, samples.clone());
    let spectrum = fft2(input);
    assert_eq!(spectrum.channels(), 3);
    let recon = ifft2(spectrum);
    assert_eq!(recon.channels(), 3);
    for (r, s) in recon.floats().iter().zip(samples.iter()) {
        assert!((r - s).abs() < 1e-4, "{r} vs {s}");
    }
}

#[test]
fn single_channel_inverse_is_a_field() {
    let input = image_value(Extent::new(4, 4), ChannelLayout::Gray, vec![0.3_f32; 16]);
    let spectrum = fft2(input);
    let recon = ifft2(spectrum);
    assert!(matches!(recon.descriptor(), ResourceDescriptor::Field1(_)));
}

#[test]
fn ifft2_rejects_non_spectrum_input() {
    // Feeding an image where a spectrum is required is a type error.
    let img = image_value(Extent::new(4, 4), ChannelLayout::Gray, vec![0.0; 16]);
    let mut inputs = Ports::new();
    inputs.insert("spectrum".to_owned(), img);
    assert!(
        Ifft2::new()
            .compute::<Ieee>(&inputs, &serde_json::Value::Null)
            .is_err()
    );
}
