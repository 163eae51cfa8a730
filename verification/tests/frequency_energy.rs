//! Band energies.
use paintop_cpu::arithmetic::Arithmetic;
use paintop_cpu::frequency_energy::{FrequencyEnergy, FREQUENCY_ENERGY_OP_ID};
use paintop_cpu::ir::{
    AlphaRepresentation, ChannelLayout, ColorEncoding, ColorRange, CoordinateConvention, Extent,
    ImageDescriptor, MaskDescriptor, MaskMeaning, ResourceDescriptor, ScalarType, SemanticRole,
    ValidRange,
};
use paintop_cpu::manifest::{OperationManifest};
use paintop_cpu::ports::Ports;
use paintop_cpu::report::{FrequencyEnergyData};
use paintop_cpu::value::ResourceValue;

/// IEEE arithmetic on patterns.
struct Ieee;

fn wide(a: u64) -> f64 {
    f64::from_bits(a)
}

fn small(a: u32) -> f32 {
    f32::from_bits(a)
}

/// The pattern of a result. A result that is no number has one pattern, so that equal operands give
/// one result.
fn wide_pattern(x: f64) -> u64 {
    if x.is_nan() {
        0x7ff8_0000_0000_0000
    } else {
        x.to_bits()
    }
}

/// The pattern of a sample that an operation gives.
fn small_pattern(x: f32) -> u32 {
    if x.is_nan() {
        0x7fc0_0000
    } else {
        x.to_bits()
    }
}

impl Arithmetic for Ieee {
    /// What is no number keeps its sign and payload.
    fn widen(a: u32) -> u64 {
        if small(a).is_nan() {
            let sign = u64::from(a >> 31) << 63;
            sign | 0x7ff0_0000_0000_0000 | (u64::from(a & 0x007f_ffff) << 29)
        } else {
            f64::from(small(a)).to_bits()
        }
    }
    /// What is no number keeps its sign and the upper part of its payload.
    fn narrow(a: u64) -> u32 {
        if wide(a).is_nan() {
            let sign = ((a >> 63) as u32) << 31;
            let payload = ((a >> 29) as u32) & 0x007f_ffff;
            sign | 0x7f80_0000 | if payload == 0 { 0x0040_0000 } else { payload }
        } else {
            (wide(a) as f32).to_bits()
        }
    }
    fn whole(a: i64) -> u64 {
        wide_pattern(a as f64)
    }
    fn tally(a: u64) -> u64 {
        wide_pattern(a as f64)
    }
    fn plus(a: u64, b: u64) -> u64 {
        wide_pattern(wide(a) + wide(b))
    }
    fn minus(a: u64, b: u64) -> u64 {
        wide_pattern(wide(a) - wide(b))
    }
    fn times(a: u64, b: u64) -> u64 {
        wide_pattern(wide(a) * wide(b))
    }
    fn over(a: u64, b: u64) -> u64 {
        wide_pattern(wide(a) / wide(b))
    }
    fn fused(a: u64, b: u64, c: u64) -> u64 {
        wide_pattern(wide(a).mul_add(wide(b), wide(c)))
    }
    fn root(a: u64) -> u64 {
        wide_pattern(wide(a).sqrt())
    }
    fn hypotenuse(a: u64, b: u64) -> u64 {
        wide_pattern(wide(a).hypot(wide(b)))
    }
    fn exponential(a: u64) -> u64 {
        wide_pattern(wide(a).exp())
    }
    fn cosine(a: u64) -> u64 {
        wide_pattern(wide(a).cos())
    }
    fn sine(a: u64) -> u64 {
        wide_pattern(wide(a).sin())
    }
    fn round_down(a: u64) -> u64 {
        wide_pattern(wide(a).floor())
    }
    fn round_up(a: u64) -> u64 {
        wide_pattern(wide(a).ceil())
    }
    fn to_integer(a: u64) -> i64 {
        wide(a) as i64
    }
    fn sample_plus(a: u32, b: u32) -> u32 {
        small_pattern(small(a) + small(b))
    }
    fn sample_minus(a: u32, b: u32) -> u32 {
        small_pattern(small(a) - small(b))
    }
    fn sample_over(a: u32, b: u32) -> u32 {
        small_pattern(small(a) / small(b))
    }
    fn sample_fused(a: u32, b: u32, c: u32) -> u32 {
        small_pattern(small(a).mul_add(small(b), small(c)))
    }
    fn sample_root(a: u32) -> u32 {
        small_pattern(small(a).sqrt())
    }
    fn sample_power(a: u32, b: u32) -> u32 {
        small_pattern(small(a).powf(small(b)))
    }
}

fn bits(samples: &[f32]) -> Vec<u32> {
    samples.iter().map(|s| s.to_bits()).collect()
}

fn unbits(samples: &[u32]) -> Vec<f32> {
    samples.iter().map(|s| f32::from_bits(*s)).collect()
}

/// A resource of float samples.
fn resource(
    descriptor: ResourceDescriptor,
    channels: u32,
    samples: Vec<f32>,
) -> Result<ResourceValue, usize> {
    ResourceValue::new(descriptor, channels, bits(&samples))
}

trait Floats {
    fn floats(&self) -> Vec<f32>;
}

impl Floats for ResourceValue {
    fn floats(&self) -> Vec<f32> {
        unbits(self.samples())
    }
}

fn j<T: Into<serde_json::Value>>(value: T) -> serde_json::Value {
    value.into()
}

fn object(members: Vec<(&str, serde_json::Value)>) -> serde_json::Value {
    let mut map = serde_json::Map::new();
    for (name, value) in members {
        map.insert(name.to_owned(), value);
    }
    serde_json::Value::Object(map)
}

fn unit_range() -> ValidRange {
    ValidRange::Bounded { min: 0.0_f64.to_bits(), max: 1.0_f64.to_bits() }
}

/// Band energies as floats.
struct Energy {
    decomposition: &'static str,
    bands: u32,
    band_energy: Vec<f64>,
    band_pixels: Vec<u64>,
    total_energy: f64,
}

impl Energy {
    fn of(data: FrequencyEnergyData) -> Energy {
        Energy {
            decomposition: data.decomposition,
            bands: data.bands,
            band_energy: data.band_energy.iter().map(|e| f64::from_bits(*e)).collect(),
            band_pixels: data.band_pixels,
            total_energy: f64::from_bits(data.total_energy),
        }
    }
}

fn gray_image(extent: Extent, samples: Vec<f32>) -> ResourceValue {
    let descriptor = ResourceDescriptor::Image(ImageDescriptor {
        extent,
        layout: ChannelLayout::Gray,
        scalar: ScalarType::F32,
        color: ColorEncoding::LinearSrgb,
        range: ColorRange::SceneReferred,
        alpha: AlphaRepresentation::Premultiplied,
        coordinates: CoordinateConvention::PixelCenterUpperLeft,
        semantic: SemanticRole::Color,
    });
    resource(descriptor, 1, samples).unwrap()
}

fn mask(extent: Extent, samples: Vec<f32>) -> ResourceValue {
    let descriptor = ResourceDescriptor::Mask(MaskDescriptor {
        extent,
        scalar: ScalarType::F32,
        range: unit_range(),
        meaning: MaskMeaning::Coverage,
        coordinates: CoordinateConvention::PixelCenterUpperLeft,
    });
    resource(descriptor, 1, samples).unwrap()
}

fn energy(
    resource: ResourceValue,
    mask: Option<ResourceValue>,
    params: &serde_json::Value,
) -> Energy {
    let mut inputs = Ports::new();
    inputs.insert("resource".to_owned(), resource);
    if let Some(m) = mask {
        inputs.insert("mask".to_owned(), m);
    }
    let out = FrequencyEnergy::new().compute::<Ieee>(&inputs, params).unwrap();
    Energy::of(out.reports.get("report").unwrap().frequency_energy.clone().unwrap())
}

/// A high-frequency checkerboard over an 8x8 grid (values 0/1).
fn checkerboard(extent: Extent) -> Vec<f32> {
    let w = extent.width;
    (0..extent.width * extent.height)
        .map(|i| {
            let x = i % w;
            let y = i / w;
            if (x + y).is_multiple_of(2) { 1.0 } else { 0.0 }
        })
        .collect()
}

#[test]
fn frequency_energy_manifest_validates_and_matches_id() {
    let m: OperationManifest = FrequencyEnergy::manifest().unwrap();
    m.validate().unwrap();
    assert_eq!(m.id.to_string(), FREQUENCY_ENERGY_OP_ID);
}

#[test]
fn constant_image_concentrates_energy_in_the_low_pass_band() {
    // Laplacian: a constant has ~0 band-pass energy in the fine bands; all its
    // energy is in the coarsest (low-pass) band.
    let base = vec![0.5_f32; 8 * 8];
    let e = energy(
        gray_image(Extent::new(8, 8), base),
        None,
        &object(vec![("bands", j(3)), ("decomposition", j("laplacian"))]),
    );
    assert_eq!(e.bands, 3);
    // Fine bands (0, 1) have negligible energy.
    assert!(
        e.band_energy[0] < 1e-6,
        "fine band energy {}",
        e.band_energy[0]
    );
    assert!(
        e.band_energy[1] < 1e-6,
        "mid band energy {}",
        e.band_energy[1]
    );
    // The coarsest band carries the low-pass energy.
    assert!(e.band_energy[2] > 0.0);
}

#[test]
fn checkerboard_puts_energy_in_the_finest_band() {
    // A 1-pixel checkerboard is the highest representable frequency: the finest
    // Laplacian band carries the dominant energy.
    let base = checkerboard(Extent::new(8, 8));
    let e = energy(
        gray_image(Extent::new(8, 8), base),
        None,
        &object(vec![("bands", j(3))]),
    );
    let total: f64 = e.band_energy.iter().sum();
    assert!(total > 0.0);
    // The finest band holds the majority of the energy.
    assert!(
        e.band_energy[0] > total * 0.5,
        "finest band {} of total {total}",
        e.band_energy[0]
    );
}

#[test]
fn total_energy_is_the_sum_of_bands() {
    let base = checkerboard(Extent::new(8, 8));
    let e = energy(
        gray_image(Extent::new(8, 8), base),
        None,
        &object(vec![("bands", j(4))]),
    );
    let sum: f64 = e.band_energy.iter().sum();
    assert!((e.total_energy - sum).abs() < 1e-9);
    assert_eq!(e.band_pixels.len(), 4);
}

#[test]
fn gaussian_decomposition_reports_per_level_energy() {
    let base = vec![0.5_f32; 8 * 8];
    let e = energy(
        gray_image(Extent::new(8, 8), base),
        None,
        &object(vec![("bands", j(3)), ("decomposition", j("gaussian"))]),
    );
    assert_eq!(e.decomposition, "gaussian");
    // Every Gaussian level of a constant 0.5 has energy 0.25 * pixel_count.
    assert!((e.band_energy[0] - 16.0).abs() < 1e-4);
    assert!((e.band_energy[1] - 4.0).abs() < 1e-4);
    assert!((e.band_energy[2] - 1.0).abs() < 1e-4);
}

#[test]
fn mask_windows_the_analysis_region() {
    // With a mask covering the left half, only the left half's content
    // contributes; energy is strictly less than the full-image energy when the
    // right half is non-zero.
    let base = vec![1.0_f32; 8 * 8];
    let full = energy(
        gray_image(Extent::new(8, 8), base.clone()),
        None,
        &object(vec![("bands", j(2)), ("decomposition", j("gaussian"))]),
    );
    // Mask: left 4 columns covered, right 4 uncovered.
    let mask_samples: Vec<f32> = (0..64)
        .map(|i| if (i % 8) < 4 { 1.0 } else { 0.0 })
        .collect();
    let windowed = energy(
        gray_image(Extent::new(8, 8), base),
        Some(mask(Extent::new(8, 8), mask_samples)),
        &object(vec![("bands", j(2)), ("decomposition", j("gaussian"))]),
    );
    assert!(
        windowed.band_energy[0] < full.band_energy[0],
        "windowed {} should be < full {}",
        windowed.band_energy[0],
        full.band_energy[0]
    );
}

#[test]
fn energy_is_deterministic_bit_for_bit() {
    let base = checkerboard(Extent::new(8, 8));
    let params = object(vec![("bands", j(3))]);
    let a = energy(gray_image(Extent::new(8, 8), base.clone()), None, &params);
    let b = energy(gray_image(Extent::new(8, 8), base), None, &params);
    assert_eq!(a.band_energy, b.band_energy);
    assert_eq!(a.total_energy.to_bits(), b.total_energy.to_bits());
}

#[test]
fn rejects_missing_bands() {
    let value = gray_image(Extent::new(4, 4), vec![0.0; 16]);
    let mut inputs = Ports::new();
    inputs.insert("resource".to_owned(), value);
    assert!(
        FrequencyEnergy::new()
            .compute::<Ieee>(&inputs, &object(vec![]))
            .is_err()
    );
}
