//! Multi-resolution planes.
use paintop_cpu::arithmetic::Arithmetic;
use paintop_cpu::frequency::level_extents;
use paintop_cpu::frequency;
use paintop_cpu::ir::{Extent, PyramidPhase, child_extent};

/// IEEE arithmetic on patterns.
struct Ieee;

fn wide(a: u64) -> f64 {
    f64::from_bits(a)
}

fn small(a: u32) -> f32 {
    f32::from_bits(a)
}

/// The pattern of a result. A result that is no number has one pattern, so that equal operands give
/// one result.
fn wide_pattern(x: f64) -> u64 {
    if x.is_nan() {
        0x7ff8_0000_0000_0000
    } else {
        x.to_bits()
    }
}

/// The pattern of a sample that an operation gives.
fn small_pattern(x: f32) -> u32 {
    if x.is_nan() {
        0x7fc0_0000
    } else {
        x.to_bits()
    }
}

impl Arithmetic for Ieee {
    /// What is no number keeps its sign and payload.
    fn widen(a: u32) -> u64 {
        if small(a).is_nan() {
            let sign = u64::from(a >> 31) << 63;
            sign | 0x7ff0_0000_0000_0000 | (u64::from(a & 0x007f_ffff) << 29)
        } else {
            f64::from(small(a)).to_bits()
        }
    }
    /// What is no number keeps its sign and the upper part of its payload.
    fn narrow(a: u64) -> u32 {
        if wide(a).is_nan() {
            let sign = ((a >> 63) as u32) << 31;
            let payload = ((a >> 29) as u32) & 0x007f_ffff;
            sign | 0x7f80_0000 | if payload == 0 { 0x0040_0000 } else { payload }
        } else {
            (wide(a) as f32).to_bits()
        }
    }
    fn whole(a: i64) -> u64 {
        wide_pattern(a as f64)
    }
    fn tally(a: u64) -> u64 {
        wide_pattern(a as f64)
    }
    fn plus(a: u64, b: u64) -> u64 {
        wide_pattern(wide(a) + wide(b))
    }
    fn minus(a: u64, b: u64) -> u64 {
        wide_pattern(wide(a) - wide(b))
    }
    fn times(a: u64, b: u64) -> u64 {
        wide_pattern(wide(a) * wide(b))
    }
    fn over(a: u64, b: u64) -> u64 {
        wide_pattern(wide(a) / wide(b))
    }
    fn fused(a: u64, b: u64, c: u64) -> u64 {
        wide_pattern(wide(a).mul_add(wide(b), wide(c)))
    }
    fn root(a: u64) -> u64 {
        wide_pattern(wide(a).sqrt())
    }
    fn hypotenuse(a: u64, b: u64) -> u64 {
        wide_pattern(wide(a).hypot(wide(b)))
    }
    fn exponential(a: u64) -> u64 {
        wide_pattern(wide(a).exp())
    }
    fn cosine(a: u64) -> u64 {
        wide_pattern(wide(a).cos())
    }
    fn sine(a: u64) -> u64 {
        wide_pattern(wide(a).sin())
    }
    fn round_down(a: u64) -> u64 {
        wide_pattern(wide(a).floor())
    }
    fn round_up(a: u64) -> u64 {
        wide_pattern(wide(a).ceil())
    }
    fn to_integer(a: u64) -> i64 {
        wide(a) as i64
    }
    fn sample_plus(a: u32, b: u32) -> u32 {
        small_pattern(small(a) + small(b))
    }
    fn sample_minus(a: u32, b: u32) -> u32 {
        small_pattern(small(a) - small(b))
    }
    fn sample_over(a: u32, b: u32) -> u32 {
        small_pattern(small(a) / small(b))
    }
    fn sample_fused(a: u32, b: u32, c: u32) -> u32 {
        small_pattern(small(a).mul_add(small(b), small(c)))
    }
    fn sample_root(a: u32) -> u32 {
        small_pattern(small(a).sqrt())
    }
    fn sample_power(a: u32, b: u32) -> u32 {
        small_pattern(small(a).powf(small(b)))
    }
}

fn bits(samples: &[f32]) -> Vec<u32> {
    samples.iter().map(|s| s.to_bits()).collect()
}

fn unbits(samples: &[u32]) -> Vec<f32> {
    samples.iter().map(|s| f32::from_bits(*s)).collect()
}

fn gaussian_blur_plane(samples: &[f32], extent: Extent, channels: u32, sigma: f64) -> Vec<f32> {
    unbits(&frequency::gaussian_blur_plane::<Ieee>(&bits(samples), extent, channels, sigma.to_bits()))
}

fn downsample(
    samples: &[f32],
    parent: Extent,
    channels: u32,
    sigma: f64,
    phase: PyramidPhase,
) -> Vec<f32> {
    unbits(&frequency::downsample::<Ieee>(
        &bits(samples),
        parent,
        channels,
        sigma.to_bits(),
        phase,
    ))
}

fn upsample(samples: &[f32], child: Extent, parent: Extent, channels: u32) -> Vec<f32> {
    unbits(&frequency::upsample(&bits(samples), child, parent, channels))
}

fn laplacian_split(levels: &[Vec<f32>], extents: &Vec<Extent>, channels: u32) -> Vec<f32> {
    let levels: Vec<Vec<u32>> = levels.iter().map(|l| bits(l)).collect();
    unbits(&frequency::laplacian_split::<Ieee>(&levels, extents, channels))
}

fn laplacian_recombine(bands: &[Vec<f32>], extents: &Vec<Extent>, channels: u32) -> Vec<f32> {
    let bands: Vec<Vec<u32>> = bands.iter().map(|b| bits(b)).collect();
    unbits(&frequency::laplacian_recombine::<Ieee>(&bands, extents, channels))
}

/// Build the per-level Gaussian planes of a single-channel base for testing.
fn gaussian_levels(
    base: &[f32],
    extents: &[Extent],
    sigma: f64,
    phase: PyramidPhase,
) -> Vec<Vec<f32>> {
    let mut levels = vec![base.to_vec()];
    for win in extents.windows(2) {
        let prev = levels.last().expect("at least the base level");
        levels.push(downsample(prev, win[0], 1, sigma, phase));
    }
    levels
}

#[test]
fn split_then_recombine_reconstructs_within_tolerance() {
    // A non-trivial gradient-ish base reconstructs to itself through the
    // Laplacian split/recombine telescope (exact up to f32 rounding).
    let extents = level_extents(Extent::new(16, 16), 4, PyramidPhase::Floor);
    let base: Vec<f32> = (0..16u16 * 16)
        .map(|i| f32::from(i.wrapping_mul(53) % 97) / 97.0)
        .collect();
    let levels = gaussian_levels(&base, &extents, 1.0, PyramidPhase::Floor);
    let level_refs: Vec<Vec<f32>> = levels.clone();
    let bands = laplacian_split(&level_refs, &extents, 1);

    // Slice the band buffer back into per-level planes.
    let mut band_refs: Vec<Vec<f32>> = Vec::new();
    let mut offset = 0usize;
    for e in &extents {
        let n = (e.width * e.height) as usize;
        band_refs.push(bands[offset..offset + n].to_vec());
        offset += n;
    }
    let recon = laplacian_recombine(&band_refs, &extents, 1);
    assert_eq!(recon.len(), base.len());
    for (r, b) in recon.iter().zip(base.iter()) {
        assert!((r - b).abs() < 1e-5, "reconstruction drift {r} vs {b}");
    }
}

#[test]
fn single_level_split_is_the_base_lowpass() {
    // A 1-level pyramid: the only band is the low-pass (= the base), and
    // recombine returns it verbatim.
    let extents = level_extents(Extent::new(4, 3), 1, PyramidPhase::Floor);
    let base: Vec<f32> = (0..12u16).map(|i| f32::from(i) / 12.0).collect();
    let level_refs: Vec<Vec<f32>> = vec![base.clone()];
    let bands = laplacian_split(&level_refs, &extents, 1);
    assert_eq!(bands, base);
    let recon = laplacian_recombine(&[bands], &extents, 1);
    assert_eq!(recon, base);
}

#[test]
fn odd_extent_split_recombine_round_trips() {
    // Odd base under floor and ceil phases both telescope exactly.
    for phase in [PyramidPhase::Floor, PyramidPhase::Ceil] {
        let extents = level_extents(Extent::new(7, 5), 3, phase);
        let base: Vec<f32> = (0..7u16 * 5).map(|i| f32::from(i % 11) / 11.0).collect();
        let levels = gaussian_levels(&base, &extents, 1.0, phase);
        let level_refs: Vec<Vec<f32>> = levels.clone();
        let bands = laplacian_split(&level_refs, &extents, 1);
        let mut band_refs: Vec<Vec<f32>> = Vec::new();
        let mut offset = 0usize;
        for e in &extents {
            let n = (e.width * e.height) as usize;
            band_refs.push(bands[offset..offset + n].to_vec());
            offset += n;
        }
        let recon = laplacian_recombine(&band_refs, &extents, 1);
        for (r, b) in recon.iter().zip(base.iter()) {
            assert!((r - b).abs() < 1e-5, "phase {phase:?}: {r} vs {b}");
        }
    }
}

#[test]
fn blur_preserves_a_constant_plane() {
    let samples = vec![0.5_f32; 6 * 6];
    let out = gaussian_blur_plane(&samples, Extent::new(6, 6), 1, 1.0);
    for v in out {
        assert!((v - 0.5).abs() < 1e-6, "constant not preserved: {v}");
    }
}

#[test]
fn downsample_halves_even_extents() {
    let samples = vec![1.0_f32; 8 * 8];
    let out = downsample(&samples, Extent::new(8, 8), 1, 1.0, PyramidPhase::Floor);
    assert_eq!(out.len(), 4 * 4);
    // A constant plane stays constant through blur+decimate.
    for v in &out {
        assert!((v - 1.0).abs() < 1e-6, "{v}");
    }
}

#[test]
fn downsample_floor_vs_ceil_on_odd_extent() {
    let samples = vec![0.0_f32; 5 * 5];
    let floor = downsample(&samples, Extent::new(5, 5), 1, 1.0, PyramidPhase::Floor);
    assert_eq!(floor.len(), 2 * 2);
    let ceil = downsample(&samples, Extent::new(5, 5), 1, 1.0, PyramidPhase::Ceil);
    assert_eq!(ceil.len(), 3 * 3);
    assert_eq!(
        child_extent(Extent::new(5, 5), PyramidPhase::Ceil),
        Extent::new(3, 3)
    );
}

#[test]
fn upsample_is_nearest_parent_expansion() {
    // A 2x2 child with distinct values expands to a 4x4 parent block-wise.
    let child = vec![1.0_f32, 2.0, 3.0, 4.0];
    let up = upsample(&child, Extent::new(2, 2), Extent::new(4, 4), 1);
    assert_eq!(up.len(), 16);
    // Row 0 and 1 read child row 0: [1 1 2 2].
    assert_eq!(&up[0..4], &[1.0, 1.0, 2.0, 2.0]);
    assert_eq!(&up[4..8], &[1.0, 1.0, 2.0, 2.0]);
    // Row 2 and 3 read child row 1: [3 3 4 4].
    assert_eq!(&up[8..12], &[3.0, 3.0, 4.0, 4.0]);
}
