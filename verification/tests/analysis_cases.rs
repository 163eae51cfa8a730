//! Spectra, pyramids, reports and registries on chosen values.
use paintop_cpu::arithmetic::Arithmetic;
use paintop_cpu::convolve::{convolve_samples, BoundaryMode};
use paintop_cpu::dft::{
    dft_direct, fft2_plane, fft_line, fft_radix2, forward_real, inverse_complex, inverse_real,
    radial_frequency, signed_frequency, Complex, FORWARD, INVERSE,
};
use paintop_cpu::diff::{
    decodes, diff_metrics, diff_samples, resolve_threshold, srgb_decode, ComparisonSpace,
};
use paintop_cpu::domains::field::register as register_field;
use paintop_cpu::domains::frequency::register as register_frequency;
use paintop_cpu::domains::register_domains;
use paintop_cpu::fft::{layout_for, reconstructed, spectrum_descriptor, Fft2, Ifft2};
use paintop_cpu::frequency::{
    add_planes, countable, downsample, gaussian_blur_plane, gaussian_taps, laplacian_recombine, laplacian_split,
    level_extents, subtract_planes, upsample,
};
use paintop_cpu::frequency_energy::{
    apply_window, band_energy, frequency_energy_of, pairwise_sum, Decomposition, FrequencyEnergy,
    FrequencyEnergyParams,
};
use paintop_cpu::frequency_preserved::{
    count_violating_bands, judge, resolve_severity, resolve_tolerance, window_complement,
    worst_band_delta, FrequencyPreserved,
};
use paintop_cpu::gaussian_pyramid::{
    build_laplacian_samples, build_pyramid_samples, GaussianPyramid, PyramidParams,
};
use paintop_cpu::gaussian_blur::convolve_params;
use paintop_cpu::ir::{
    child_extent, AlphaRepresentation, ChannelLayout, ColorEncoding, ColorRange, CoordinateConvention,
    ErrorClass, Extent, ImageDescriptor, PyramidPhase, Rect, ResourceDescriptor, ResourceKind,
    ScalarType, SemanticRole,
};
use paintop_cpu::manifest::{
    check_contract_consistency, verify_categories, CategoryStatus, Literal, VerificationCategory,
};
use paintop_cpu::ports::Ports;
use paintop_cpu::registry::{ImplRegistry, Operation, OperationRegistry};
use paintop_cpu::report::{channel_statistics, content_bytes, content_hash, AssertionSeverity, Digest};
use paintop_cpu::value::ResourceValue;

/// IEEE arithmetic on patterns.
struct Ieee;

fn wide(a: u64) -> f64 {
    f64::from_bits(a)
}

fn small(a: u32) -> f32 {
    f32::from_bits(a)
}

/// The pattern of a result. A result that is no number has one pattern, so that equal operands give
/// one result.
fn wide_pattern(x: f64) -> u64 {
    if x.is_nan() {
        0x7ff8_0000_0000_0000
    } else {
        x.to_bits()
    }
}

/// The pattern of a sample that an operation gives.
fn small_pattern(x: f32) -> u32 {
    if x.is_nan() {
        0x7fc0_0000
    } else {
        x.to_bits()
    }
}

impl Arithmetic for Ieee {
    /// What is no number keeps its sign and payload.
    fn widen(a: u32) -> u64 {
        if small(a).is_nan() {
            let sign = u64::from(a >> 31) << 63;
            sign | 0x7ff0_0000_0000_0000 | (u64::from(a & 0x007f_ffff) << 29)
        } else {
            f64::from(small(a)).to_bits()
        }
    }
    /// What is no number keeps its sign and the upper part of its payload.
    fn narrow(a: u64) -> u32 {
        if wide(a).is_nan() {
            let sign = ((a >> 63) as u32) << 31;
            let payload = ((a >> 29) as u32) & 0x007f_ffff;
            sign | 0x7f80_0000 | if payload == 0 { 0x0040_0000 } else { payload }
        } else {
            (wide(a) as f32).to_bits()
        }
    }
    fn whole(a: i64) -> u64 {
        wide_pattern(a as f64)
    }
    fn tally(a: u64) -> u64 {
        wide_pattern(a as f64)
    }
    fn plus(a: u64, b: u64) -> u64 {
        wide_pattern(wide(a) + wide(b))
    }
    fn minus(a: u64, b: u64) -> u64 {
        wide_pattern(wide(a) - wide(b))
    }
    fn times(a: u64, b: u64) -> u64 {
        wide_pattern(wide(a) * wide(b))
    }
    fn over(a: u64, b: u64) -> u64 {
        wide_pattern(wide(a) / wide(b))
    }
    fn fused(a: u64, b: u64, c: u64) -> u64 {
        wide_pattern(wide(a).mul_add(wide(b), wide(c)))
    }
    fn root(a: u64) -> u64 {
        wide_pattern(wide(a).sqrt())
    }
    fn hypotenuse(a: u64, b: u64) -> u64 {
        wide_pattern(wide(a).hypot(wide(b)))
    }
    fn exponential(a: u64) -> u64 {
        wide_pattern(wide(a).exp())
    }
    fn cosine(a: u64) -> u64 {
        wide_pattern(wide(a).cos())
    }
    fn sine(a: u64) -> u64 {
        wide_pattern(wide(a).sin())
    }
    fn round_down(a: u64) -> u64 {
        wide_pattern(wide(a).floor())
    }
    fn round_up(a: u64) -> u64 {
        wide_pattern(wide(a).ceil())
    }
    fn to_integer(a: u64) -> i64 {
        wide(a) as i64
    }
    fn sample_plus(a: u32, b: u32) -> u32 {
        small_pattern(small(a) + small(b))
    }
    fn sample_minus(a: u32, b: u32) -> u32 {
        small_pattern(small(a) - small(b))
    }
    fn sample_over(a: u32, b: u32) -> u32 {
        small_pattern(small(a) / small(b))
    }
    fn sample_fused(a: u32, b: u32, c: u32) -> u32 {
        small_pattern(small(a).mul_add(small(b), small(c)))
    }
    fn sample_root(a: u32) -> u32 {
        small_pattern(small(a).sqrt())
    }
    fn sample_power(a: u32, b: u32) -> u32 {
        small_pattern(small(a).powf(small(b)))
    }
}

fn bits(samples: &[f32]) -> Vec<u32> {
    samples.iter().map(|s| s.to_bits()).collect()
}

fn unbits(samples: &[u32]) -> Vec<f32> {
    samples.iter().map(|s| f32::from_bits(*s)).collect()
}

fn j<T: Into<serde_json::Value>>(value: T) -> serde_json::Value {
    value.into()
}

fn object(members: Vec<(&str, serde_json::Value)>) -> serde_json::Value {
    let mut map = serde_json::Map::new();
    for (name, value) in members {
        map.insert(name.to_owned(), value);
    }
    serde_json::Value::Object(map)
}

fn array(items: Vec<serde_json::Value>) -> serde_json::Value {
    serde_json::Value::Array(items)
}

fn w(x: f64) -> u64 {
    x.to_bits()
}

fn f(x: u64) -> f64 {
    f64::from_bits(x)
}

/// The bytes themselves, so that equal content is equal text.
struct Spelled;

impl Digest for Spelled {
    fn digest(bytes: &Vec<u8>) -> String {
        format!("bytes:{:?}", bytes)
    }
}

fn image(width: u32, height: u32, layout: ChannelLayout) -> ResourceDescriptor {
    ResourceDescriptor::Image(ImageDescriptor {
        extent: Extent::new(width, height),
        layout,
        scalar: ScalarType::F32,
        color: ColorEncoding::LinearSrgb,
        range: ColorRange::SceneReferred,
        alpha: AlphaRepresentation::Straight,
        coordinates: CoordinateConvention::PixelCenterUpperLeft,
        semantic: SemanticRole::Color,
    })
}

fn line(values: &[(f64, f64)]) -> Vec<Complex> {
    values.iter().map(|(re, im)| Complex::new(w(*re), w(*im))).collect()
}

fn near(a: &[Complex], b: &[Complex]) {
    assert_eq!(a.len(), b.len());
    for (x, y) in a.iter().zip(b.iter()) {
        assert!((f(x.re) - f(y.re)).abs() < 1e-9);
        assert!((f(x.im) - f(y.im)).abs() < 1e-9);
    }
}

#[test]
fn complex_numbers_add_and_multiply() {
    let a = Complex::new(w(1.0), w(2.0));
    let b = Complex::new(w(3.0), w(-4.0));
    assert_eq!(a.add::<Ieee>(b), Complex::new(w(4.0), w(-2.0)));
    assert_eq!(a.sub::<Ieee>(b), Complex::new(w(-2.0), w(6.0)));
    assert_eq!(a.mul::<Ieee>(b), Complex::new(w(11.0), w(2.0)));
    assert_eq!(b.norm_sq::<Ieee>(), w(25.0));
}

#[test]
fn halving_and_the_defining_sum_agree() {
    let x = line(&[
        (1.0, 0.0),
        (2.0, -1.0),
        (0.5, 3.0),
        (-4.0, 0.0),
        (0.0, 1.0),
        (7.0, 2.0),
        (1.0, 1.0),
        (-2.0, 0.25),
    ]);
    let mut halved = x.clone();
    fft_radix2::<Ieee>(&mut halved, FORWARD);
    near(&halved, &dft_direct::<Ieee>(&x, FORWARD));
    let turned = dft_direct::<Ieee>(&halved, INVERSE);
    let scaled: Vec<Complex> = x.iter().map(|z| Complex::new(w(8.0 * f(z.re)), w(8.0 * f(z.im)))).collect();
    near(&turned, &scaled);
}

#[test]
fn a_line_of_any_length_turns_back() {
    for n in [1usize, 2, 3, 5, 6, 8] {
        let x: Vec<Complex> = (0..n).map(|i| Complex::new(w(i as f64 * 1.5 - 2.0), w(0.5))).collect();
        let there = fft_line::<Ieee>(x.clone(), FORWARD);
        let back = fft_line::<Ieee>(there, INVERSE);
        let scaled: Vec<Complex> = x
            .iter()
            .map(|z| Complex::new(w(n as f64 * f(z.re)), w(n as f64 * f(z.im))))
            .collect();
        near(&back, &scaled);
    }
}

#[test]
fn constants_and_waves_have_one_bin() {
    let flat = line(&[(2.0, 0.0); 6]);
    let mut expected = line(&[(0.0, 0.0); 6]);
    expected[0] = Complex::new(w(12.0), w(0.0));
    near(&fft_line::<Ieee>(flat, FORWARD), &expected);
    let wave: Vec<Complex> = (0..8)
        .map(|i| {
            let angle = std::f64::consts::TAU * 3.0 * f64::from(i) / 8.0;
            Complex::new(w(angle.cos()), w(angle.sin()))
        })
        .collect();
    let mut peak = line(&[(0.0, 0.0); 8]);
    peak[3] = Complex::new(w(8.0), w(0.0));
    near(&fft_line::<Ieee>(wave, FORWARD), &peak);
    let plane = fft2_plane::<Ieee>(&line(&[(1.5, 0.0); 12]), 4, 3, FORWARD);
    let mut corner = line(&[(0.0, 0.0); 12]);
    corner[0] = Complex::new(w(18.0), w(0.0));
    near(&plane, &corner);
}

#[test]
fn spectra_of_buffers_turn_back_channel_by_channel() {
    let samples = bits(&[1.0, -2.0, 3.5, 4.0, 0.25, 8.0, -1.0, 0.0, 2.0, 5.0, 6.0, -7.0]);
    let spectrum = forward_real::<Ieee>(&samples, 3, 2, 2);
    assert_eq!(spectrum.len(), 24);
    let back = unbits(&inverse_real::<Ieee>(&spectrum, 3, 2, 2));
    for (a, b) in back.iter().zip(unbits(&samples)) {
        assert!((a - b).abs() < 1e-5);
    }
    let both = unbits(&inverse_complex::<Ieee>(&spectrum, 3, 2, 2));
    for i in 0..12 {
        assert!((both[2 * i] - f32::from_bits(samples[i])).abs() < 1e-5);
        assert!(both[2 * i + 1].abs() < 1e-5);
    }
    let mut other = samples.clone();
    other[1] = 9.0f32.to_bits();
    let changed = forward_real::<Ieee>(&other, 3, 2, 2);
    for p in 0..6 {
        assert_eq!(changed[4 * p..4 * p + 2], spectrum[4 * p..4 * p + 2]);
    }
    assert_ne!(changed, spectrum);
}

#[test]
fn frequencies_fold_at_half_the_length() {
    let folded: Vec<i64> = (0..5).map(|k| signed_frequency(k, 5)).collect();
    assert_eq!(folded, vec![0, 1, 2, -2, -1]);
    let even: Vec<i64> = (0..4).map(|k| signed_frequency(k, 4)).collect();
    assert_eq!(even[1], 1);
    assert_eq!(even[3], -1);
    assert_eq!(radial_frequency::<Ieee>(0, 0, 8, 8), w(0.0));
    assert_eq!(f(radial_frequency::<Ieee>(1, 0, 4, 4)), 0.25);
}

#[test]
fn an_inverse_gives_the_shape_back() {
    for channels in [1u32, 3, 4] {
        let spectrum = spectrum_descriptor(Extent::new(5, 3), channels);
        match reconstructed(spectrum) {
            ResourceDescriptor::Image(d) => {
                assert_eq!(d.extent, Extent::new(5, 3));
                assert_eq!(d.layout.channel_count(), channels);
                assert_eq!(layout_for(channels), d.layout);
            }
            ResourceDescriptor::Field1(d) => {
                assert_eq!(channels, 1);
                assert_eq!(d.extent, Extent::new(5, 3));
            }
            _ => panic!("no raster"),
        }
    }
    let input = ResourceValue::new(image(2, 2, ChannelLayout::Rgb), 3, bits(&[0.5; 12])).expect("a value");
    let mut inputs = Ports::new();
    inputs.insert("input".to_owned(), input);
    let none = object(vec![]);
    let there = Fft2::new().compute::<Ieee>(&inputs, &none).expect("a spectrum");
    let mut spectra = Ports::new();
    spectra.insert("spectrum".to_owned(), there.get("spectrum").expect("spectrum").clone());
    let back = Ifft2::new().compute::<Ieee>(&spectra, &none).expect("a raster");
    assert_eq!(unbits(back.get("image").expect("image").samples()), vec![0.5f32; 12]);
}

#[test]
fn bands_of_a_split_add_up_again() {
    let base = bits(&[1.0, 2.0, 4.0, 8.0, 16.0, 32.0, 64.0, 128.0, 3.0, 5.0, 7.0, 9.0, 0.5, 0.25, 6.0, 1.0]);
    let extents = level_extents(Extent::new(4, 4), 3, PyramidPhase::Floor);
    assert_eq!(extents, vec![Extent::new(4, 4), Extent::new(2, 2), Extent::new(1, 1)]);
    let mid = downsample::<Ieee>(&base, extents[0], 1, w(0.0), PyramidPhase::Floor);
    assert_eq!(unbits(&mid), vec![1.0, 4.0, 3.0, 7.0]);
    let top = downsample::<Ieee>(&mid, extents[1], 1, w(0.0), PyramidPhase::Floor);
    let up = upsample(&mid, extents[1], extents[0], 1);
    for y in 0..2usize {
        for x in 0..2usize {
            assert_eq!(up[2 * y * 4 + 2 * x], mid[y * 2 + x]);
        }
    }
    let levels = vec![base.clone(), mid.clone(), top.clone()];
    let bands = laplacian_split::<Ieee>(&levels, &extents, 1);
    assert_eq!(bands.len(), 21);
    assert_eq!(bands[..16], subtract_planes::<Ieee>(&base, &up)[..]);
    assert_eq!(bands[20..], top[..]);
    assert_eq!(add_planes::<Ieee>(&bands[..16].to_vec(), &up), base);
    let apart = vec![bands[..16].to_vec(), bands[16..20].to_vec(), bands[20..].to_vec()];
    assert_eq!(laplacian_recombine::<Ieee>(&apart, &extents, 1), base);
}

#[test]
fn smoothing_taps_add_up_to_one() {
    let (taps, radius) = gaussian_taps::<Ieee>(w(1.0));
    assert_eq!(radius, 3);
    assert_eq!(taps.len(), 7);
    let total: f64 = taps.iter().map(|t| f(*t)).sum();
    assert!((total - 1.0).abs() < 1e-12);
    for k in 0..7 {
        assert_eq!(taps[k], taps[6 - k]);
    }
    let flat = vec![0.5f32.to_bits(); 15];
    assert_eq!(gaussian_blur_plane::<Ieee>(&flat, Extent::new(5, 3), 1, w(1.0)), flat);
    assert_eq!(child_extent(Extent::new(5, 1), PyramidPhase::Floor), Extent::new(2, 1));
    assert_eq!(child_extent(Extent::new(5, 1), PyramidPhase::Ceil), Extent::new(3, 1));
}

#[test]
fn a_constant_pyramid_is_constant_and_has_empty_bands() {
    let params = PyramidParams { levels: 3, sigma: w(1.0), phase: PyramidPhase::Ceil };
    let extent = Extent::new(5, 3);
    let flat = vec![0.5f32.to_bits(); 30];
    let levels = build_pyramid_samples::<Ieee>(&flat, extent, 2, params);
    assert_eq!(levels, vec![0.5f32.to_bits(); 2 * (15 + 6 + 2)]);
    let bands = build_laplacian_samples::<Ieee>(&flat, extent, 2, params);
    assert_eq!(unbits(&bands[..42]), vec![0.0f32; 42]);
    assert_eq!(unbits(&bands[42..]), vec![0.5f32; 4]);
    let data = frequency_energy_of::<Ieee>(
        &flat,
        extent,
        2,
        FrequencyEnergyParams { decomposition: Decomposition::Laplacian, pyramid: params },
    );
    assert_eq!(data.band_energy, vec![w(0.0), w(0.0), w(1.0)]);
    assert_eq!(data.band_pixels, vec![30, 12, 4]);
    assert_eq!(data.total_energy, w(1.0));
    let mut other = flat.clone();
    for p in 0..15 {
        other[2 * p + 1] = (p as f32).to_bits();
    }
    let mixed = build_pyramid_samples::<Ieee>(&other, extent, 2, params);
    for p in 0..23 {
        assert_eq!(mixed[2 * p], levels[2 * p]);
    }
    assert_ne!(mixed, levels);
}

#[test]
fn energies_are_sums_of_squares() {
    assert_eq!(band_energy::<Ieee>(&bits(&[1.0, 2.0, -3.0, 4.0]), 1, 3), w(13.0));
    let many: Vec<u64> = (1..21).map(|i| w(f64::from(i))).collect();
    assert_eq!(pairwise_sum::<Ieee>(&many), w(210.0));
    assert_eq!(pairwise_sum::<Ieee>(&vec![]), w(0.0));
    let base = bits(&[1.0, 2.0, 3.0, 4.0]);
    let mask = bits(&[0.5, 0.0]);
    assert_eq!(unbits(&apply_window(&base, 2, Some(&mask))), vec![1.0, 2.0, 0.0, 0.0]);
    assert_eq!(unbits(&window_complement(&base, 2, Some(&mask))), vec![0.0, 0.0, 3.0, 4.0]);
    assert_eq!(apply_window(&base, 2, None), base);
}

#[test]
fn a_judgement_counts_and_names_the_worst_band() {
    let before = vec![w(4.0), w(2.0), w(1.0)];
    let after = vec![w(4.0), w(3.0), w(1.0)];
    let (band, _) = worst_band_delta::<Ieee>(&before, &after);
    assert_eq!(band, 1);
    assert_eq!(count_violating_bands::<Ieee>(&before, &after, w(0.0)), 1);
    assert_eq!(count_violating_bands::<Ieee>(&before, &before, w(0.0)), 0);
    let passed = judge::<Ieee>(&before, &before, w(0.0), AssertionSeverity::Error);
    assert!(passed.passed);
    assert_eq!(passed.violations, None);
    let failed = judge::<Ieee>(&before, &after, w(0.0), AssertionSeverity::Error);
    assert!(!failed.passed);
    assert_eq!(failed.violations, Some(1));
    assert!(!AssertionSeverity::Metric.fails_run());
    assert!(AssertionSeverity::Error.fails_run());
    assert!(resolve_tolerance(&object(vec![("tolerance", j(-1.0))])).is_err());
    assert_eq!(resolve_tolerance(&object(vec![("tolerance", j(0.5))])).expect("given"), w(0.5));
    assert!(resolve_severity(&object(vec![("severity", j("loud"))])).is_err());
    assert_eq!(
        resolve_severity(&object(vec![("severity", j("metric"))])).expect("given"),
        AssertionSeverity::Metric
    );
}

#[test]
fn content_tells_planes_apart_but_not_nan_payloads() {
    let extent = Extent::new(2, 1);
    let a = bits(&[1.0, 2.0]);
    let b = bits(&[1.0, 2.5]);
    assert_ne!(content_bytes(extent, 1, &a), content_bytes(extent, 1, &b));
    assert_ne!(content_bytes(extent, 1, &a), content_bytes(Extent::new(1, 2), 1, &a));
    assert_ne!(content_bytes(extent, 1, &a), content_bytes(Extent::new(1, 1), 2, &a));
    let quiet = vec![0x7fc0_0000, 0];
    let loaded = vec![0xffc0_1234, 0];
    assert_eq!(content_bytes(extent, 1, &quiet), content_bytes(extent, 1, &loaded));
    let hash = content_hash::<Spelled>(extent, 1, &a);
    assert_eq!(hash, Spelled::digest(&content_bytes(extent, 1, &a)));
}

#[test]
fn statistics_count_every_sample_and_range_over_finite_ones() {
    let samples = bits(&[1.0, 5.0, -2.0, f32::NAN, 4.0, f32::INFINITY]);
    let stats = channel_statistics::<Ieee>(&samples, 2);
    assert_eq!(stats.len(), 2);
    assert_eq!((stats[0].finite, stats[0].nonfinite), (3, 0));
    assert_eq!((stats[1].finite, stats[1].nonfinite), (1, 2));
    assert_eq!(stats[0].min, Some((-2.0f32).to_bits()));
    assert_eq!(stats[0].max, Some(4.0f32.to_bits()));
    assert_eq!(stats[0].sum, w(3.0));
    assert_eq!(stats[0].sum_sq, w(21.0));
    assert_eq!(stats[0].mean::<Ieee>(), Some(w(1.0)));
    assert_eq!(stats[1].min, Some(5.0f32.to_bits()));
    assert!(stats[0].all_finite() && !stats[1].all_finite());
}

#[test]
fn differences_are_symmetric_and_bounded_tightly() {
    let before = bits(&[0.0, 0.5, 1.0, 0.25, 0.0, 0.0]);
    let after = bits(&[0.0, 0.25, 1.0, 0.25, 0.5, 0.0]);
    let there = diff_samples::<Ieee>(&before, &after, false, false);
    assert_eq!(there, diff_samples::<Ieee>(&after, &before, false, false));
    assert_eq!(unbits(&there), vec![0.0, 0.25, 0.0, 0.0, 0.5, 0.0]);
    let metrics = diff_metrics::<Ieee>(&there, Extent::new(3, 2), 1, w(0.0));
    assert_eq!(metrics.changed_count, 2);
    assert_eq!(metrics.changed_bounds, Some(Rect::new(1, 0, 2, 2)));
    assert_eq!(metrics.max_abs_error, w(0.5));
    assert_eq!(metrics.mean_abs_error, w(0.125));
    let gated = diff_metrics::<Ieee>(&there, Extent::new(3, 2), 1, w(0.25));
    assert_eq!((gated.changed_count, gated.changed_bounds), (1, Some(Rect::new(1, 1, 2, 2))));
    let same = diff_samples::<Ieee>(&before, &before, true, true);
    let none = diff_metrics::<Ieee>(&same, Extent::new(3, 2), 1, w(0.0));
    assert_eq!((none.changed_count, none.changed_bounds), (0, None));
    let odd = diff_metrics::<Ieee>(&bits(&[f32::NAN, 0.5]), Extent::new(2, 1), 1, w(0.0));
    assert_eq!(odd.mean_abs_error, w(0.5));
    assert!(resolve_threshold(&object(vec![("threshold", j(-0.5))])).is_err());
    assert_eq!(f32::from_bits(srgb_decode::<Ieee>(1.0f32.to_bits())), 1.0);
    assert_eq!(f32::from_bits(srgb_decode::<Ieee>(0)), 0.0);
    assert!(decodes(ComparisonSpace::DecodedLinear, ColorEncoding::Srgb));
    assert!(!decodes(ComparisonSpace::Encoded, ColorEncoding::Srgb));
}

#[test]
fn all_domains_register_and_refuse_a_second_time() {
    let mut manifests = OperationRegistry::new();
    let mut impls = ImplRegistry::new();
    register_domains(&mut manifests, &mut impls).expect("registered");
    assert!(impls.get(Operation::Ifft2.id()).is_none());
    assert!(manifests.get(Operation::DomainWarp.id()).is_none());
    register_field(&mut manifests, &mut impls).expect("registered on their own");
    register_frequency(&mut manifests, &mut impls).expect("registered on their own");
    for op in [
        Operation::Convolve,
        Operation::Guided,
        Operation::RadialGradient,
        Operation::DomainWarp,
        Operation::Ifft2,
    ] {
        assert_eq!(impls.get(op.id()), Some(op));
        assert_eq!(manifests.get(op.id()).expect("a manifest").id, op.id());
    }
    assert!(manifests.get("filter.unknown@1").is_none());
    let again = register_domains(&mut manifests, &mut impls).expect_err("twice");
    assert_eq!(again.code, "E_DUPLICATE_ID");
}

#[test]
fn manifests_are_checked() {
    let sound = Operation::Convolve.manifest().expect("a manifest");
    assert!(sound.validate().is_ok());
    assert!(verify_categories(&sound).is_ok());
    let inputs = vec![("input", ResourceKind::Image)];
    let outputs = vec![("output", ResourceKind::Image)];
    assert!(check_contract_consistency(&sound, &inputs, &outputs).is_ok());
    let swapped = check_contract_consistency(&sound, &outputs, &inputs).expect_err("other ports");
    assert_eq!((swapped.class, swapped.code), (ErrorClass::Schema, "E_MANIFEST"));
    let mut bare = sound.clone();
    bare.implementations.clear();
    assert_eq!(bare.validate().expect_err("none").message, "the manifest names no implementation");
    let mut eager = sound.clone();
    eager.params[0].default = Some(Literal::Text("x"));
    assert_eq!(eager.validate().expect_err("default").message, "a required parameter has a default");
    let mut odd = sound.clone();
    odd.params[1].default = Some(Literal::Text("sideways"));
    assert_eq!(
        odd.validate().expect_err("choice").message,
        "a parameter's default is none of its choices"
    );
    let mut silent = sound.clone();
    silent.test.verification.retain(|(category, _)| *category != VerificationCategory::Fuzzing);
    assert!(verify_categories(&silent).is_err());
    silent.test.verification.push((VerificationCategory::Fuzzing, CategoryStatus::Covered));
    assert!(verify_categories(&silent).is_ok());
}

#[test]
fn sizes_and_values_are_checked() {
    assert_eq!(Extent::new(3, 2).byte_count(4).expect("bytes"), 96);
    let overflow = Extent::new(u32::MAX, u32::MAX).byte_count(u32::MAX).expect_err("too many");
    assert_eq!(overflow.code, "E_EXTENT_OVERFLOW");
    assert_eq!(
        Rect::new(0, 0, 5, 5).intersect(Rect::new(3, -2, 9, 4)),
        Rect::new(3, 0, 5, 4)
    );
    assert_eq!(Rect::new(0, 0, 1, 1).union(Rect::new(4, 2, 5, 3)), Rect::new(0, 0, 5, 3));
    assert!(!Rect::new(2, 0, 1, 0).is_valid());
    let short = ResourceValue::new(image(2, 2, ChannelLayout::Gray), 1, vec![0; 3]);
    assert_eq!(short.expect_err("too short"), 3);
    let held = ResourceValue::new(image(2, 2, ChannelLayout::Gray), 1, vec![0; 4]).expect("a value");
    assert_eq!((held.extent(), held.channels()), (Extent::new(2, 2), 1));
}

#[test]
fn kernels_with_countable_taps_are_tried() {
    assert!(countable::<Ieee>(w(64.0)));
    let value = ResourceValue::new(image(4, 2, ChannelLayout::Gray), 1, bits(&[0.5; 8])).expect("a value");
    let params = object(vec![("levels", j(2)), ("sigma", j(1.0))]);
    let mut inputs = Ports::new();
    inputs.insert("input".to_owned(), value.clone());
    let out = GaussianPyramid::new().try_compute::<Ieee>(&inputs, &params).expect("tried").expect("built");
    let pyramid = out.get("pyramid").expect("pyramid");
    assert_eq!(pyramid.pyramid_level(0).expect("the base"), bits(&[0.5; 8]));
    assert_eq!(pyramid.pyramid_level(1).expect("a level"), bits(&[0.5; 2]));
    assert!(pyramid.pyramid_level(2).is_none());
    let mut resources = Ports::new();
    resources.insert("resource".to_owned(), value.clone());
    let bands = object(vec![("bands", j(2))]);
    let found = FrequencyEnergy::new().try_compute::<Ieee>(&resources, &bands).expect("tried").expect("measured");
    let report = found.reports.get("report").expect("report");
    assert_eq!(report.frequency_energy.as_ref().expect("energies").bands, 2);
    let mut pair = Ports::new();
    pair.insert("before".to_owned(), value.clone());
    pair.insert("after".to_owned(), value);
    let judged = FrequencyPreserved::new().try_compute::<Ieee>(&pair, &bands).expect("tried").expect("judged");
    let outcome = judged.reports.get("report").expect("report").assertion.expect("an outcome");
    assert!(outcome.passed);
    let refused = GaussianPyramid::new()
        .try_compute::<Ieee>(&inputs, &object(vec![]))
        .expect("tried")
        .expect_err("no levels");
    assert_eq!(refused.message, "frequency.gaussian_pyramid requires a `levels` parameter");
}

#[test]
fn a_blur_follows_a_quarter_turn() {
    let samples: Vec<f32> = (0..12).map(|i| ((i * 7) % 5) as f32).collect();
    let mut turned = vec![0.0f32; 12];
    for y in 0..3usize {
        for x in 0..4usize {
            turned[x * 3 + (2 - y)] = samples[y * 4 + x];
        }
    }
    for mode in [BoundaryMode::Clamp, BoundaryMode::Mirror, BoundaryMode::Wrap, BoundaryMode::Transparent] {
        let asked = convolve_params::<Ieee>(w(0.75), mode, 1);
        let here = unbits(&convolve_samples::<Ieee>(&bits(&samples), Extent::new(4, 3), &asked, 1));
        let there = unbits(&convolve_samples::<Ieee>(&bits(&turned), Extent::new(3, 4), &asked, 1));
        for y in 0..3usize {
            for x in 0..4usize {
                assert!((here[y * 4 + x] - there[x * 3 + (2 - y)]).abs() < 1e-5);
            }
        }
    }
}

#[test]
fn what_follows_the_last_whole_pixel_is_not_windowed() {
    let base = bits(&[1.0, 2.0, 3.0, 4.0, 5.0]);
    let none = bits(&[0.0, 0.0, 0.0]);
    let all = bits(&[1.0, 1.0, 1.0]);
    assert_eq!(unbits(&apply_window(&base, 2, Some(&none))), vec![0.0, 0.0, 0.0, 0.0, 5.0]);
    assert_eq!(unbits(&window_complement(&base, 2, Some(&all))), vec![0.0, 0.0, 0.0, 0.0, 5.0]);
    assert_eq!(unbits(&apply_window(&base, 0, Some(&bits(&[1.0])))), vec![1.0, 0.0, 0.0, 0.0, 0.0]);
    assert_eq!(Complex::default(), Complex::new(w(0.0), w(0.0)));
}

#[test]
fn measures_are_ordered_and_vanish_for_equal_images() {
    let values: Vec<f32> = (0..24).map(|i| ((i * 37) % 101) as f32 / 101.0).collect();
    let before = bits(&values);
    let after: Vec<u32> = values.iter().map(|v| (v * v).to_bits()).collect();
    let apart = diff_samples::<Ieee>(&before, &after, true, false);
    let metrics = diff_metrics::<Ieee>(&apart, Extent::new(6, 4), 1, w(0.0));
    assert!(0.0 < f(metrics.mean_abs_error));
    assert!(f(metrics.mean_abs_error) <= f(metrics.rms_error));
    assert!(f(metrics.rms_error) <= f(metrics.max_abs_error));
    let back = diff_metrics::<Ieee>(
        &diff_samples::<Ieee>(&after, &before, false, true),
        Extent::new(6, 4),
        1,
        w(0.0),
    );
    assert_eq!(back.rms_error, metrics.rms_error);
    assert_eq!(back.changed_bounds, metrics.changed_bounds);
    let same = diff_samples::<Ieee>(&before, &before, true, true);
    assert!(same.iter().all(|s| *s == 0));
    let none = diff_metrics::<Ieee>(&same, Extent::new(6, 4), 1, w(-0.0));
    assert_eq!((none.max_abs_error, none.mean_abs_error, none.rms_error), (0, 0, 0));
    assert_eq!((none.changed_count, none.changed_bounds), (0, None));
}

#[test]
fn deep_splits_come_back_closely_and_single_levels_exactly() {
    let base: Vec<u32> = (0..13 * 9 * 2).map(|i| (((i * 53) % 97) as f32 / 97.0).to_bits()).collect();
    for phase in [PyramidPhase::Floor, PyramidPhase::Ceil] {
        for count in [1u32, 2, 5] {
            let extents = level_extents(Extent::new(13, 9), count, phase);
            let mut levels = vec![base.clone()];
            for l in 1..extents.len() {
                let coarser = downsample::<Ieee>(&levels[l - 1], extents[l - 1], 2, w(1.0), phase);
                levels.push(coarser);
            }
            let split = laplacian_split::<Ieee>(&levels, &extents, 2);
            let mut apart = Vec::new();
            let mut start = 0;
            for level in &levels {
                apart.push(split[start..start + level.len()].to_vec());
                start += level.len();
            }
            let out = laplacian_recombine::<Ieee>(&apart, &extents, 2);
            assert_eq!(out.len(), base.len());
            for (a, b) in unbits(&out).iter().zip(unbits(&base)) {
                assert!((a - b).abs() < 1e-5);
            }
            if count == 1 {
                assert_eq!(out, base);
            }
        }
    }
}
