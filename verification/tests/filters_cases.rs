//! Filters on chosen values.
use paintop_cpu::arithmetic::Arithmetic;
use paintop_cpu::convolve::{
    convolve_samples, mirror_index, required_region, source_index, value_param, BoundaryMode,
    Convolve, ConvolveRequest, Kernel,
};
use paintop_cpu::frequency_energy::FrequencyEnergyParams;
use paintop_cpu::frequency_preserved::resolve_severity;
use paintop_cpu::gaussian_blur::{fits, gaussian_kernel, kernel_radius, mode_param, GaussianBlur};
use paintop_cpu::gaussian_pyramid::PyramidParams;
use paintop_cpu::guided::{box_mean, guided_channel, Guided, GuidedRequest};
use paintop_cpu::ir::{
    AlphaRepresentation, ChannelLayout, ColorEncoding, ColorRange, CoordinateConvention, Detail,
    ErrorClass, Extent, ImageDescriptor, Rect, ResourceDescriptor, ScalarType, SemanticRole,
};
use paintop_cpu::ports::Ports;
use paintop_cpu::value::ResourceValue;

/// IEEE arithmetic on patterns.
struct Ieee;

fn wide(a: u64) -> f64 {
    f64::from_bits(a)
}

fn small(a: u32) -> f32 {
    f32::from_bits(a)
}

/// The pattern of a result. A result that is no number has one pattern, so that equal operands give
/// one result.
fn wide_pattern(x: f64) -> u64 {
    if x.is_nan() {
        0x7ff8_0000_0000_0000
    } else {
        x.to_bits()
    }
}

/// The pattern of a sample that an operation gives.
fn small_pattern(x: f32) -> u32 {
    if x.is_nan() {
        0x7fc0_0000
    } else {
        x.to_bits()
    }
}

impl Arithmetic for Ieee {
    /// What is no number keeps its sign and payload.
    fn widen(a: u32) -> u64 {
        if small(a).is_nan() {
            let sign = u64::from(a >> 31) << 63;
            sign | 0x7ff0_0000_0000_0000 | (u64::from(a & 0x007f_ffff) << 29)
        } else {
            f64::from(small(a)).to_bits()
        }
    }
    /// What is no number keeps its sign and the upper part of its payload.
    fn narrow(a: u64) -> u32 {
        if wide(a).is_nan() {
            let sign = ((a >> 63) as u32) << 31;
            let payload = ((a >> 29) as u32) & 0x007f_ffff;
            sign | 0x7f80_0000 | if payload == 0 { 0x0040_0000 } else { payload }
        } else {
            (wide(a) as f32).to_bits()
        }
    }
    fn whole(a: i64) -> u64 {
        wide_pattern(a as f64)
    }
    fn tally(a: u64) -> u64 {
        wide_pattern(a as f64)
    }
    fn plus(a: u64, b: u64) -> u64 {
        wide_pattern(wide(a) + wide(b))
    }
    fn minus(a: u64, b: u64) -> u64 {
        wide_pattern(wide(a) - wide(b))
    }
    fn times(a: u64, b: u64) -> u64 {
        wide_pattern(wide(a) * wide(b))
    }
    fn over(a: u64, b: u64) -> u64 {
        wide_pattern(wide(a) / wide(b))
    }
    fn fused(a: u64, b: u64, c: u64) -> u64 {
        wide_pattern(wide(a).mul_add(wide(b), wide(c)))
    }
    fn root(a: u64) -> u64 {
        wide_pattern(wide(a).sqrt())
    }
    fn hypotenuse(a: u64, b: u64) -> u64 {
        wide_pattern(wide(a).hypot(wide(b)))
    }
    fn exponential(a: u64) -> u64 {
        wide_pattern(wide(a).exp())
    }
    fn cosine(a: u64) -> u64 {
        wide_pattern(wide(a).cos())
    }
    fn sine(a: u64) -> u64 {
        wide_pattern(wide(a).sin())
    }
    fn round_down(a: u64) -> u64 {
        wide_pattern(wide(a).floor())
    }
    fn round_up(a: u64) -> u64 {
        wide_pattern(wide(a).ceil())
    }
    fn to_integer(a: u64) -> i64 {
        wide(a) as i64
    }
    fn sample_plus(a: u32, b: u32) -> u32 {
        small_pattern(small(a) + small(b))
    }
    fn sample_minus(a: u32, b: u32) -> u32 {
        small_pattern(small(a) - small(b))
    }
    fn sample_over(a: u32, b: u32) -> u32 {
        small_pattern(small(a) / small(b))
    }
    fn sample_fused(a: u32, b: u32, c: u32) -> u32 {
        small_pattern(small(a).mul_add(small(b), small(c)))
    }
    fn sample_root(a: u32) -> u32 {
        small_pattern(small(a).sqrt())
    }
    fn sample_power(a: u32, b: u32) -> u32 {
        small_pattern(small(a).powf(small(b)))
    }
}

fn bits(samples: &[f32]) -> Vec<u32> {
    samples.iter().map(|s| s.to_bits()).collect()
}

fn unbits(samples: &[u32]) -> Vec<f32> {
    samples.iter().map(|s| f32::from_bits(*s)).collect()
}

fn j<T: Into<serde_json::Value>>(value: T) -> serde_json::Value {
    value.into()
}

fn object(members: Vec<(&str, serde_json::Value)>) -> serde_json::Value {
    let mut map = serde_json::Map::new();
    for (name, value) in members {
        map.insert(name.to_owned(), value);
    }
    serde_json::Value::Object(map)
}

fn array(items: Vec<serde_json::Value>) -> serde_json::Value {
    serde_json::Value::Array(items)
}

fn w(x: f64) -> u64 {
    x.to_bits()
}

fn f(x: u64) -> f64 {
    f64::from_bits(x)
}

fn image(width: u32, height: u32, layout: ChannelLayout) -> ResourceDescriptor {
    ResourceDescriptor::Image(ImageDescriptor {
        extent: Extent::new(width, height),
        layout,
        scalar: ScalarType::F32,
        color: ColorEncoding::LinearSrgb,
        range: ColorRange::SceneReferred,
        alpha: AlphaRepresentation::Straight,
        coordinates: CoordinateConvention::PixelCenterUpperLeft,
        semantic: SemanticRole::Color,
    })
}

fn request(width: u32, height: u32, weights: &[f64], mode: BoundaryMode, value: &[f64]) -> ConvolveRequest {
    ConvolveRequest {
        kernel: Kernel {
            width,
            height,
            origin_x: width / 2,
            origin_y: height / 2,
            weights: weights.iter().map(|x| w(*x)).collect(),
        },
        mode,
        value: value.iter().map(|x| w(*x)).collect(),
    }
}

fn filter(samples: &[f32], width: u32, height: u32, request: &ConvolveRequest) -> Vec<f32> {
    unbits(&convolve_samples::<Ieee>(&bits(samples), Extent::new(width, height), request, 1))
}

#[test]
fn every_folded_index_is_inside() {
    for mode in [BoundaryMode::Clamp, BoundaryMode::Mirror, BoundaryMode::Wrap, BoundaryMode::Valid] {
        for n in 1..6 {
            for coord in -20..20 {
                let index = source_index(coord, n, mode).expect("an index");
                assert!(0 <= index && index < n);
            }
        }
    }
    assert_eq!(source_index(-1, 4, BoundaryMode::Constant), None);
    assert_eq!(source_index(4, 4, BoundaryMode::Transparent), None);
    assert_eq!(source_index(3, 4, BoundaryMode::Constant), Some(3));
}

#[test]
fn wrap_repeats_and_mirror_reflects() {
    let wrapped: Vec<Option<i64>> = (-4..8).map(|c| source_index(c, 4, BoundaryMode::Wrap)).collect();
    assert_eq!(
        wrapped,
        vec![0, 1, 2, 3, 0, 1, 2, 3, 0, 1, 2, 3].into_iter().map(Some).collect::<Vec<_>>()
    );
    let folded: Vec<i64> = (-6..10).map(|c| mirror_index(c, 4)).collect();
    assert_eq!(folded, vec![0, 1, 2, 3, 2, 1, 0, 1, 2, 3, 2, 1, 0, 1, 2, 3]);
    assert_eq!(mirror_index(-7, 1), 0);
    for d in 0..9 {
        assert_eq!(mirror_index(d, 5), mirror_index(-d, 5));
        assert_eq!(mirror_index(4 + d, 5), mirror_index(4 - d, 5));
    }
}

#[test]
fn one_sample_answers_with_the_kernel() {
    let weights = [0.5, -1.0, 2.0, 4.0, 0.25, -8.0, 0.0, 1.5, 3.0];
    let asked = request(3, 3, &weights, BoundaryMode::Clamp, &[0.0]);
    let mut samples = vec![0.0f32; 49];
    samples[3 * 7 + 3] = 2.0;
    let out = filter(&samples, 7, 7, &asked);
    for ky in 0..3usize {
        for kx in 0..3usize {
            let x = 3 + 1 - kx;
            let y = 3 + 1 - ky;
            assert_eq!(f64::from(out[y * 7 + x]), 2.0 * weights[ky * 3 + kx]);
        }
    }
}

#[test]
fn zero_off_the_edge_is_what_transparent_reads() {
    let samples = [1.0f32, -2.0, 3.0, 4.0, 5.0, -6.0];
    let weights = [1.0, 2.0, 3.0, 4.0, 5.0, 6.0, 7.0, 8.0, 9.0];
    let transparent = request(3, 3, &weights, BoundaryMode::Transparent, &[7.0]);
    let zero = request(3, 3, &weights, BoundaryMode::Constant, &[0.0]);
    let seven = request(3, 3, &weights, BoundaryMode::Constant, &[7.0]);
    let expected = filter(&samples, 3, 2, &zero);
    assert_eq!(filter(&samples, 3, 2, &transparent), expected);
    assert_ne!(filter(&samples, 3, 2, &seven), expected);
}

#[test]
fn a_constant_is_scaled_by_the_sum_of_the_weights() {
    let asked = request(2, 2, &[1.0, 2.0, -4.0, 0.5], BoundaryMode::Wrap, &[0.0]);
    assert_eq!(filter(&[3.0; 12], 4, 3, &asked), vec![-1.5f32; 12]);
    let unit = request(2, 2, &[0.25; 4], BoundaryMode::Mirror, &[0.0]);
    assert_eq!(filter(&[3.0; 12], 4, 3, &unit), vec![3.0f32; 12]);
}

#[test]
fn filtering_a_combination_combines_what_is_filtered() {
    let p = [1.0f32, 2.0, -3.0, 4.0, 0.5, 6.0];
    let q = [0.0f32, -1.0, 8.0, 2.0, 4.0, -2.0];
    let z: Vec<f32> = p.iter().zip(q.iter()).map(|(a, b)| 2.0 * a - 3.0 * b).collect();
    let asked = request(3, 1, &[0.5, 1.0, -2.0], BoundaryMode::Clamp, &[0.0]);
    let expected: Vec<f32> = filter(&p, 3, 2, &asked)
        .iter()
        .zip(filter(&q, 3, 2, &asked).iter())
        .map(|(a, b)| 2.0 * a - 3.0 * b)
        .collect();
    assert_eq!(filter(&z, 3, 2, &asked), expected);
}

#[test]
fn only_the_required_region_is_read() {
    let asked = request(3, 3, &[1.0; 9], BoundaryMode::Clamp, &[0.0]);
    let extent = Extent::new(6, 6);
    let region = Rect::new(2, 1, 4, 2);
    let needed = required_region(region, &asked, extent);
    assert_eq!(needed, Rect::new(1, 0, 5, 3));
    let p: Vec<f32> = (0..36).map(|i| i as f32).collect();
    let mut q = p.clone();
    for y in 0..6i64 {
        for x in 0..6i64 {
            let inside = needed.x0 <= x && x < needed.x1 && needed.y0 <= y && y < needed.y1;
            if !inside {
                q[(y * 6 + x) as usize] = -100.0;
            }
        }
    }
    let a = filter(&p, 6, 6, &asked);
    let b = filter(&q, 6, 6, &asked);
    for x in 2..4usize {
        assert_eq!(a[6 + x], b[6 + x]);
    }
    assert_ne!(a, b);
}

#[test]
fn valid_reads_nothing_off_the_edge() {
    let asked = request(3, 2, &[1.0, 10.0, 100.0, 1000.0, 10000.0, 100000.0], BoundaryMode::Valid, &[0.0]);
    assert_eq!(asked.output_extent(Extent::new(4, 3)), Extent::new(2, 2));
    assert_eq!(asked.output_extent(Extent::new(2, 1)), Extent::new(0, 0));
    let samples: Vec<f32> = (1..13).map(|i| i as f32).collect();
    let out = filter(&samples, 4, 3, &asked);
    assert_eq!(out, vec![765321.0, 876432.0, 1209765.0, 1320876.0]);
}

#[test]
fn kernel_refusals_name_what_is_amiss() {
    let number = |n: i64| serde_json::Value::from(n);
    let kernel = |members: Vec<(&str, serde_json::Value)>| object(vec![("kernel", object(members))]);
    let code = |params: &serde_json::Value| Kernel::parse(params).expect_err("refused").message;
    assert_eq!(code(&object(vec![])), "filter.convolve requires a `kernel` object");
    assert_eq!(
        code(&object(vec![("kernel", number(3))])),
        "filter.convolve `kernel` must be an object with width/height/weights"
    );
    assert_eq!(code(&kernel(vec![("height", number(1))])), "filter.convolve `kernel.width` is required");
    assert_eq!(
        code(&kernel(vec![("width", number(-1)), ("height", number(1))])),
        "filter.convolve `kernel.width` must be a non-negative integer"
    );
    assert_eq!(
        code(&kernel(vec![("width", serde_json::Value::from(1u64 << 40)), ("height", number(1))])),
        "filter.convolve `kernel.width` does not fit in u32"
    );
    let sized = |more: Vec<(&'static str, serde_json::Value)>| {
        let mut members = vec![("width", number(2)), ("height", number(1))];
        members.extend(more);
        kernel(members)
    };
    assert_eq!(code(&sized(vec![])), "filter.convolve `kernel.weights` is required");
    assert_eq!(
        code(&sized(vec![("weights", number(1))])),
        "filter.convolve `kernel.weights` must be a row-major array"
    );
    assert_eq!(
        code(&sized(vec![("weights", array(vec![number(1), j("x")]))])),
        "filter.convolve `kernel.weights` entry must be a number"
    );
    let parsed = Kernel::parse(&sized(vec![("weights", array(vec![number(1), j(-0.5)]))])).expect("a kernel");
    assert_eq!((parsed.origin_x, parsed.origin_y), (1, 0));
    assert_eq!(parsed.weights, vec![w(1.0), w(-0.5)]);
}

#[test]
fn boundary_values_are_checked() {
    let given = |value: serde_json::Value| object(vec![("value", value)]);
    assert_eq!(value_param(&object(vec![]), 3).expect("zeros"), vec![w(0.0); 3]);
    assert_eq!(
        value_param(&given(array(vec![j(1), j(2.5)])), 2).expect("two"),
        vec![w(1.0), w(2.5)]
    );
    assert_eq!(
        value_param(&given(j(1)), 1).expect_err("no array").message,
        "filter.convolve `value` must be a per-channel array"
    );
    assert_eq!(
        value_param(&given(array(vec![j("a")])), 1).expect_err("no number").message,
        "filter.convolve `value` component must be a number"
    );
}

#[test]
fn blur_weights_add_up_to_one_and_turn_about() {
    for sigma in [0.5, 1.0, 2.25] {
        let kernel = gaussian_kernel::<Ieee>(w(sigma));
        let side = kernel.width as usize;
        let total: f64 = kernel.weights.iter().map(|x| f(*x)).sum();
        assert!((total - 1.0).abs() < 1e-12);
        for y in 0..side {
            for x in 0..side {
                let here = kernel.weights[y * side + x];
                assert_eq!(here, kernel.weights[x * side + y]);
                assert_eq!(here, kernel.weights[y * side + (side - 1 - x)]);
            }
        }
    }
}

#[test]
fn kernel_radius_is_three_deviations_rounded_up() {
    assert_eq!(kernel_radius::<Ieee>(w(1e-3)), 0);
    assert_eq!(kernel_radius::<Ieee>(w(0.0011)), 1);
    assert_eq!(kernel_radius::<Ieee>(w(1.0)), 3);
    assert_eq!(kernel_radius::<Ieee>(w(1.1)), 4);
}

#[test]
fn a_blur_whose_kernel_is_too_wide_is_not_tried() {
    let narrow = object(vec![("sigma", j(1.5))]);
    let wide = object(vec![("sigma", j(20000.0)), ("sigma_max", j(50000.0))]);
    assert!(fits::<Ieee>(&narrow));
    assert!(!fits::<Ieee>(&wide));
    let input = ResourceValue::new(image(1, 1, ChannelLayout::Gray), 1, bits(&[0.5])).expect("a value");
    let mut inputs = Ports::new();
    inputs.insert("input".to_owned(), input);
    assert!(GaussianBlur::new().try_compute::<Ieee>(&inputs, &wide).is_none());
    let out = GaussianBlur::new().try_compute::<Ieee>(&inputs, &narrow).expect("tried").expect("blurred");
    assert_eq!(out.get("output").expect("output").samples().len(), 1);
}

#[test]
fn a_blur_asks_for_its_radius_around() {
    let mut requested = Ports::new();
    requested.insert("output".to_owned(), Rect::new(5, 5, 6, 7));
    let mut inputs = Ports::new();
    inputs.insert("input".to_owned(), image(20, 20, ChannelLayout::Gray));
    let params = object(vec![("sigma", j(1.0))]);
    let op = GaussianBlur::new();
    let regions = op.required_inputs::<Ieee>(&requested, &inputs, &params).expect("regions");
    assert_eq!(*regions.get("input").expect("input"), Rect::new(2, 2, 9, 10));
    let tried = op.try_required_inputs::<Ieee>(&requested, &inputs, &params).expect("tried").expect("regions");
    assert_eq!(*tried.get("input").expect("input"), Rect::new(2, 2, 9, 10));
}

#[test]
fn a_window_mean_is_the_mean_of_the_window() {
    let plane: Vec<u64> = (0..20).map(|i| w(f64::from(i * i % 11))).collect();
    let out = box_mean::<Ieee>(&plane, 5, 4, 1);
    for y in 0..4i64 {
        for x in 0..5i64 {
            let mut sum = 0.0;
            let mut count = 0.0;
            for v in (y - 1).max(0)..(y + 2).min(4) {
                for u in (x - 1).max(0)..(x + 2).min(5) {
                    sum += f(plane[(v * 5 + u) as usize]);
                    count += 1.0;
                }
            }
            assert_eq!(f(out[(y * 5 + x) as usize]), sum / count);
        }
    }
}

#[test]
fn guided_keeps_a_constant_and_averages_under_a_constant_guide() {
    let wanted = GuidedRequest { radius: 1, epsilon: w(0.25) };
    let guide: Vec<u64> = [1.0, 4.0, 2.0, 8.0, 5.0, 7.0].iter().map(|x| w(*x)).collect();
    let kept = guided_channel::<Ieee>(&guide, &vec![w(2.0); 6], 3, 2, wanted);
    assert_eq!(kept, vec![w(2.0); 6]);
    let input: Vec<u64> = [1.0, 2.0, 4.0, 8.0].iter().map(|x| w(*x)).collect();
    let out = guided_channel::<Ieee>(&vec![w(1.0); 4], &input, 4, 1, wanted);
    let once = box_mean::<Ieee>(&input, 4, 1, 1);
    assert_eq!(out, box_mean::<Ieee>(&once, 4, 1, 1));
}

#[test]
fn guided_asks_for_twice_its_radius_around() {
    let mut requested = Ports::new();
    requested.insert("output".to_owned(), Rect::new(9, 9, 10, 11));
    let mut inputs = Ports::new();
    inputs.insert("input".to_owned(), image(30, 12, ChannelLayout::Gray));
    inputs.insert("guide".to_owned(), image(30, 12, ChannelLayout::Gray));
    let params = object(vec![("radius", j(2)), ("epsilon", j(0.1))]);
    let regions = Guided::new().required_inputs(&requested, &inputs, &params).expect("regions");
    assert_eq!(*regions.get("input").expect("input"), Rect::new(5, 5, 14, 12));
    assert_eq!(*regions.get("guide").expect("guide"), Rect::new(5, 5, 14, 12));
}

#[test]
fn guided_parameters_are_checked() {
    let refused = |params: serde_json::Value| GuidedRequest::resolve(&params).expect_err("refused").message;
    assert_eq!(
        refused(object(vec![("radius", j(1u64 << 40)), ("epsilon", j(0.1))])),
        "filter.guided `radius` does not fit in u32"
    );
    assert_eq!(
        refused(object(vec![("radius", j(5000)), ("epsilon", j(0.1))])),
        "filter.guided `radius` exceeds the limit"
    );
    assert_eq!(
        refused(object(vec![("radius", j(1)), ("epsilon", j(-0.5))])),
        "filter.guided `epsilon` must be finite and non-negative"
    );
}

#[test]
fn folding_modes_ask_for_the_whole_axis_at_an_edge() {
    let params = |mode: &str, origin: i64| {
        object(vec![
            (
                "kernel",
                object(vec![
                    ("width", j(3)),
                    ("height", j(1)),
                    ("origin_x", j(origin)),
                    ("weights", array(vec![j(1), j(1), j(1)])),
                ]),
            ),
            ("mode", j(mode)),
        ])
    };
    let mut inputs = Ports::new();
    inputs.insert("input".to_owned(), image(5, 1, ChannelLayout::Gray));
    let region = |mode: &str, origin: i64, x: i64| {
        let mut requested = Ports::new();
        requested.insert("output".to_owned(), Rect::new(x, 0, x + 1, 1));
        *Convolve::new()
            .required_inputs(&requested, &inputs, &params(mode, origin))
            .expect("regions")
            .get("input")
            .expect("input")
    };
    assert_eq!(region("wrap", 1, 0), Rect::new(0, 0, 5, 1));
    assert_eq!(region("wrap", 1, 4), Rect::new(0, 0, 5, 1));
    assert_eq!(region("wrap", 1, 2), Rect::new(1, 0, 4, 1));
    assert_eq!(region("mirror", 2, 0), Rect::new(0, 0, 5, 1));
    assert_eq!(region("clamp", 1, 0), Rect::new(0, 0, 2, 1));
    let blur = object(vec![("sigma", j(0.5)), ("mode", j("wrap"))]);
    let mut requested = Ports::new();
    requested.insert("output".to_owned(), Rect::new(0, 0, 1, 1));
    let regions = GaussianBlur::new().required_inputs::<Ieee>(&requested, &inputs, &blur).expect("regions");
    assert_eq!(*regions.get("input").expect("input"), Rect::new(0, 0, 5, 1));
}

#[test]
fn what_is_no_token_is_refused() {
    let mode = mode_param(&object(vec![("mode", j(7))])).expect_err("a number");
    assert_eq!((mode.class, mode.code), (ErrorClass::Schema, "E_BLUR_PARAM"));
    let phase = PyramidParams::resolve(&object(vec![("levels", j(2)), ("phase", j(7))])).expect_err("a number");
    assert_eq!((phase.class, phase.code), (ErrorClass::Schema, "E_PYRAMID_PARAM"));
    let bands = FrequencyEnergyParams::resolve(&object(vec![("bands", j(2)), ("decomposition", j(7))]))
        .expect_err("a number");
    assert_eq!((bands.class, bands.code), (ErrorClass::Schema, "E_FREQ_ENERGY_PARAM"));
    let severity = resolve_severity(&object(vec![("severity", j(7))])).expect_err("a number");
    assert_eq!((severity.class, severity.code), (ErrorClass::Schema, "E_FREQ_PRESERVED_PARAM"));
    assert!(PyramidParams::resolve(&object(vec![("levels", j(2))])).is_ok());
}

#[test]
fn operations_have_a_default() {
    let inputs = Ports::new();
    let none = object(vec![]);
    assert!(Convolve::default().infer_outputs(&inputs, &none).is_err());
    assert!(GaussianBlur::default().infer_outputs::<Ieee>(&inputs, &none).is_err());
    assert!(Guided::default().infer_outputs(&inputs, &none).is_err());
}

#[test]
fn a_region_may_reach_as_far_as_it_likes() {
    let extent = Extent::new(6, 6);
    let asked = request(3, 3, &[1.0; 9], BoundaryMode::Clamp, &[0.0]);
    let everywhere = Rect::new(i64::MIN, i64::MIN, i64::MAX, i64::MAX);
    assert_eq!(required_region(everywhere, &asked, extent), Rect::new(0, 0, 6, 6));
    let wrapped = request(3, 3, &[1.0; 9], BoundaryMode::Wrap, &[0.0]);
    assert_eq!(required_region(everywhere, &wrapped, extent), Rect::new(0, 0, 6, 6));
    let mut inputs = Ports::new();
    inputs.insert("input".to_owned(), image(6, 6, ChannelLayout::Gray));
    let mut requested = Ports::new();
    requested.insert("output".to_owned(), everywhere);
    let regions = GaussianBlur::new()
        .required_inputs::<Ieee>(&requested, &inputs, &object(vec![("sigma", j(0.5))]))
        .expect("regions");
    assert_eq!(*regions.get("input").expect("input"), Rect::new(0, 0, 6, 6));
}

#[test]
fn a_long_axis_folds_and_a_wide_window_takes_all() {
    let n = i64::MAX;
    assert_eq!(source_index(-1, n, BoundaryMode::Wrap), Some(n - 1));
    assert_eq!(source_index(n, n, BoundaryMode::Clamp), Some(n - 1));
    assert_eq!(source_index(i64::MIN, n, BoundaryMode::Clamp), Some(0));
    assert_eq!(source_index(-1, n, BoundaryMode::Constant), None);
    let plane: Vec<u64> = (0..6).map(|i| w(f64::from(i))).collect();
    let out = box_mean::<Ieee>(&plane, 3, 2, u32::MAX);
    assert!(out.iter().all(|m| f(*m) == 2.5));
}

#[test]
fn a_kernel_refusal_says_what_it_is_about() {
    let detail = |weights: Vec<serde_json::Value>| {
        let kernel = object(vec![("width", j(2)), ("height", j(1)), ("weights", array(weights))]);
        Kernel::parse(&object(vec![("kernel", kernel)])).expect_err("refused").detail
    };
    assert!(matches!(detail(vec![j(1), j("x")]), Detail::Item { index: 1 }));
    assert!(matches!(detail(vec![j(1)]), Detail::Count { found: 1, expected: 2 }));
    let empty = object(vec![("kernel", object(vec![("width", j(0)), ("height", j(3))]))]);
    assert!(matches!(
        Kernel::parse(&empty).expect_err("empty").detail,
        Detail::Size { width: 0, height: 3 }
    ));
}
