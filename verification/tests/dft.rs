//! The discrete Fourier transform.
use paintop_cpu::arithmetic::Arithmetic;
use paintop_cpu::dft::signed_frequency;
use paintop_cpu::dft;

/// IEEE arithmetic on patterns.
struct Ieee;

fn wide(a: u64) -> f64 {
    f64::from_bits(a)
}

fn small(a: u32) -> f32 {
    f32::from_bits(a)
}

/// The pattern of a result. A result that is no number has one pattern, so that equal operands give
/// one result.
fn wide_pattern(x: f64) -> u64 {
    if x.is_nan() {
        0x7ff8_0000_0000_0000
    } else {
        x.to_bits()
    }
}

/// The pattern of a sample that an operation gives.
fn small_pattern(x: f32) -> u32 {
    if x.is_nan() {
        0x7fc0_0000
    } else {
        x.to_bits()
    }
}

impl Arithmetic for Ieee {
    /// What is no number keeps its sign and payload.
    fn widen(a: u32) -> u64 {
        if small(a).is_nan() {
            let sign = u64::from(a >> 31) << 63;
            sign | 0x7ff0_0000_0000_0000 | (u64::from(a & 0x007f_ffff) << 29)
        } else {
            f64::from(small(a)).to_bits()
        }
    }
    /// What is no number keeps its sign and the upper part of its payload.
    fn narrow(a: u64) -> u32 {
        if wide(a).is_nan() {
            let sign = ((a >> 63) as u32) << 31;
            let payload = ((a >> 29) as u32) & 0x007f_ffff;
            sign | 0x7f80_0000 | if payload == 0 { 0x0040_0000 } else { payload }
        } else {
            (wide(a) as f32).to_bits()
        }
    }
    fn whole(a: i64) -> u64 {
        wide_pattern(a as f64)
    }
    fn tally(a: u64) -> u64 {
        wide_pattern(a as f64)
    }
    fn plus(a: u64, b: u64) -> u64 {
        wide_pattern(wide(a) + wide(b))
    }
    fn minus(a: u64, b: u64) -> u64 {
        wide_pattern(wide(a) - wide(b))
    }
    fn times(a: u64, b: u64) -> u64 {
        wide_pattern(wide(a) * wide(b))
    }
    fn over(a: u64, b: u64) -> u64 {
        wide_pattern(wide(a) / wide(b))
    }
    fn fused(a: u64, b: u64, c: u64) -> u64 {
        wide_pattern(wide(a).mul_add(wide(b), wide(c)))
    }
    fn root(a: u64) -> u64 {
        wide_pattern(wide(a).sqrt())
    }
    fn hypotenuse(a: u64, b: u64) -> u64 {
        wide_pattern(wide(a).hypot(wide(b)))
    }
    fn exponential(a: u64) -> u64 {
        wide_pattern(wide(a).exp())
    }
    fn cosine(a: u64) -> u64 {
        wide_pattern(wide(a).cos())
    }
    fn sine(a: u64) -> u64 {
        wide_pattern(wide(a).sin())
    }
    fn round_down(a: u64) -> u64 {
        wide_pattern(wide(a).floor())
    }
    fn round_up(a: u64) -> u64 {
        wide_pattern(wide(a).ceil())
    }
    fn to_integer(a: u64) -> i64 {
        wide(a) as i64
    }
    fn sample_plus(a: u32, b: u32) -> u32 {
        small_pattern(small(a) + small(b))
    }
    fn sample_minus(a: u32, b: u32) -> u32 {
        small_pattern(small(a) - small(b))
    }
    fn sample_over(a: u32, b: u32) -> u32 {
        small_pattern(small(a) / small(b))
    }
    fn sample_fused(a: u32, b: u32, c: u32) -> u32 {
        small_pattern(small(a).mul_add(small(b), small(c)))
    }
    fn sample_root(a: u32) -> u32 {
        small_pattern(small(a).sqrt())
    }
    fn sample_power(a: u32, b: u32) -> u32 {
        small_pattern(small(a).powf(small(b)))
    }
}

fn bits(samples: &[f32]) -> Vec<u32> {
    samples.iter().map(|s| s.to_bits()).collect()
}

fn unbits(samples: &[u32]) -> Vec<f32> {
    samples.iter().map(|s| f32::from_bits(*s)).collect()
}

fn forward_real(samples: &[f32], w: usize, h: usize, channels: usize) -> Vec<f32> {
    unbits(&dft::forward_real::<Ieee>(&bits(samples), w, h, channels))
}

fn inverse_real(spectrum: &[f32], w: usize, h: usize, channels: usize) -> Vec<f32> {
    unbits(&dft::inverse_real::<Ieee>(&bits(spectrum), w, h, channels))
}

fn inverse_complex(spectrum: &[f32], w: usize, h: usize, channels: usize) -> Vec<f32> {
    unbits(&dft::inverse_complex::<Ieee>(&bits(spectrum), w, h, channels))
}

fn radial_frequency(kx: usize, ky: usize, w: usize, h: usize) -> f64 {
    f64::from_bits(dft::radial_frequency::<Ieee>(kx, ky, w, h))
}

/// Narrow an `f64` to the op's `f32` sample type for fixture construction.
fn to_f32(v: f64) -> f32 {
    v as f32
}

/// A pseudo-random-but-deterministic ramp sample in `[0, 1)` for index `i`.
fn ramp(i: usize, mul: u32, modulo: u32) -> f32 {
    let n = u32::try_from(i).unwrap_or(0).wrapping_mul(mul) % modulo;
    let v = n as f32 / modulo as f32;
    v
}

/// A horizontal cosine plane `cos(2π·fx·x / w)`.
fn cosine(w: usize, h: usize, fx: usize) -> Vec<f32> {
    let mut s = vec![0.0_f32; w * h];
    for y in 0..h {
        for x in 0..w {
            let arg = 2.0 * std::f64::consts::PI * (fx as f64) * (x as f64) / (w as f64);
            s[y * w + x] = to_f32(arg.cos());
        }
    }
    s
}

/// A forward-then-inverse round trip reconstructs a real plane within tolerance,
/// for both a power-of-two and a non-power-of-two extent.
#[test]
fn forward_inverse_round_trips() {
    for (w, h) in [(8usize, 8usize), (12, 12), (6, 10), (16, 4)] {
        let samples: Vec<f32> = (0..w * h).map(|i| ramp(i, 37, 101)).collect();
        let spec = forward_real(&samples, w, h, 1);
        let recon = inverse_real(&spec, w, h, 1);
        assert_eq!(recon.len(), samples.len());
        for (r, s) in recon.iter().zip(samples.iter()) {
            assert!((r - s).abs() < 1e-4, "{w}x{h}: recon {r} vs {s}");
        }
    }
}

/// A constant plane has all its energy in the DC bin and nowhere else.
#[test]
fn constant_plane_is_pure_dc() {
    let (w, h) = (8usize, 8usize);
    let samples = vec![0.5_f32; w * h];
    let spec = forward_real(&samples, w, h, 1);
    // DC bin (index 0) = sum of samples = 0.5 * 64 = 32.
    assert!((f64::from(spec[0]) - 32.0).abs() < 1e-3, "DC {}", spec[0]);
    assert!(f64::from(spec[1]).abs() < 1e-3, "DC imag {}", spec[1]);
    // Every other bin is ~0.
    for k in 1..w * h {
        assert!(f64::from(spec[k * 2]).abs() < 1e-3, "bin {k} re");
        assert!(f64::from(spec[k * 2 + 1]).abs() < 1e-3, "bin {k} im");
    }
}

/// A horizontal sinusoid `cos(2π·fx·x / W)` produces conjugate-symmetric peaks
/// at the `±fx` bins of row 0 and nowhere else.
#[test]
fn sinusoid_has_expected_spectral_peak() {
    let (w, h) = (16usize, 16usize);
    let fx = 3usize;
    let samples = cosine(w, h, fx);
    let spec = forward_real(&samples, w, h, 1);
    // The energy of bin (kx, ky) is |X|^2; find the dominant bins.
    let mut energy = vec![0.0_f64; w * h];
    for (k, e) in energy.iter_mut().enumerate() {
        let re = f64::from(spec[k * 2]);
        let im = f64::from(spec[k * 2 + 1]);
        *e = re.mul_add(re, im * im);
    }
    // Peaks should be at row 0, columns fx and W-fx (each amplitude W*H/2).
    let peak = (w * h) as f64 / 2.0;
    let e_pos = energy[fx];
    let e_neg = energy[w - fx];
    assert!(
        (e_pos.sqrt() - peak).abs() < 1.0,
        "+fx peak {}",
        e_pos.sqrt()
    );
    assert!(
        (e_neg.sqrt() - peak).abs() < 1.0,
        "-fx peak {}",
        e_neg.sqrt()
    );
    // No energy in ky != 0 rows.
    for ky in 1..h {
        for kx in 0..w {
            assert!(energy[ky * w + kx] < 1e-2, "leak at ({kx},{ky})");
        }
    }
}

/// The transform is bit-identical across reruns (determinism criterion).
#[test]
fn transform_is_deterministic() {
    let (w, h) = (12usize, 8usize);
    let samples: Vec<f32> = (0..w * h).map(|i| ramp(i, 1, 13)).collect();
    let a = forward_real(&samples, w, h, 1);
    let b = forward_real(&samples, w, h, 1);
    assert_eq!(a, b, "forward transform not bit-identical");
    let ra = inverse_complex(&a, w, h, 1);
    let rb = inverse_complex(&b, w, h, 1);
    assert_eq!(ra, rb, "inverse transform not bit-identical");
}

/// Multi-channel planes are transformed independently and interleaved.
#[test]
fn channels_are_independent() {
    let (w, h, ch) = (8usize, 8usize, 3usize);
    let samples: Vec<f32> = (0..w * h * ch).map(|i| ramp(i, 1, 7)).collect();
    let spec = forward_real(&samples, w, h, ch);
    let recon = inverse_real(&spec, w, h, ch);
    for (r, s) in recon.iter().zip(samples.iter()) {
        assert!((r - s).abs() < 1e-4, "multi-channel recon {r} vs {s}");
    }
}

/// Signed frequency folds bins above Nyquist to negative frequencies.
#[test]
fn signed_frequency_folds_at_nyquist() {
    assert_eq!(signed_frequency(0, 8), 0);
    assert_eq!(signed_frequency(3, 8), 3);
    assert_eq!(signed_frequency(4, 8), 4); // Nyquist: 2*4 == 8, stays positive
    assert_eq!(signed_frequency(5, 8), -3);
    assert_eq!(signed_frequency(7, 8), -1);
}

/// Radial frequency: DC is 0, the per-axis Nyquist is 0.5.
#[test]
fn radial_frequency_dc_and_nyquist() {
    assert!(radial_frequency(0, 0, 8, 8).abs() < 1e-12);
    assert!((radial_frequency(4, 0, 8, 8) - 0.5).abs() < 1e-12);
    assert!((radial_frequency(0, 4, 8, 8) - 0.5).abs() < 1e-12);
}
