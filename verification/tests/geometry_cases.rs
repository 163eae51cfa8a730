//! Images, masks and distances on chosen values.
use paintop_cpu::arithmetic::Arithmetic;
use paintop_cpu::convolve::BoundaryMode;
use paintop_cpu::crop::{check_bounds, crop_samples, rect_param, Crop, E_CROP_BOUNDS, E_CROP_RECT};
use paintop_cpu::domain_warp::{
    boundary_param, warp_samples, DomainWarp, WarpFilter, WarpRequest, E_DOMAIN_WARP_PARAM,
};
use paintop_cpu::edt::{brute_force_sq, distance, dt_1d, squared_samples, transform_sq, BinaryGrid};
use paintop_cpu::ellipse::{feather, EllipseGeometry, EllipseMask, E_ELLIPSE_PARAM};
use paintop_cpu::fill::{paint, Fill};
use paintop_cpu::flip::{flip_samples, Axis, Flip};
use paintop_cpu::gradient::{Geometry, LinearGradient, Stop, Stops, E_GRADIENT_INPUT};
use paintop_cpu::ir::{
    AlphaRepresentation, AssertionStatus, ChannelLayout, ColorEncoding, ColorRange,
    CoordinateConvention, Detail, ErrorClass, Extent, FieldArity, FieldDescriptor, ImageDescriptor, MaskDescriptor, MaskMeaning, Rect,
    ResourceDescriptor, ScalarType, SemanticRole, ValidRange,
};
use paintop_cpu::ports::Ports;
use paintop_cpu::value::ResourceValue;

/// IEEE arithmetic on patterns.
struct Ieee;

fn wide(a: u64) -> f64 {
    f64::from_bits(a)
}

fn small(a: u32) -> f32 {
    f32::from_bits(a)
}

/// The pattern of a result. A result that is no number has one pattern, so that equal operands give
/// one result.
fn wide_pattern(x: f64) -> u64 {
    if x.is_nan() {
        0x7ff8_0000_0000_0000
    } else {
        x.to_bits()
    }
}

/// The pattern of a sample that an operation gives.
fn small_pattern(x: f32) -> u32 {
    if x.is_nan() {
        0x7fc0_0000
    } else {
        x.to_bits()
    }
}

impl Arithmetic for Ieee {
    /// What is no number keeps its sign and payload.
    fn widen(a: u32) -> u64 {
        if small(a).is_nan() {
            let sign = u64::from(a >> 31) << 63;
            sign | 0x7ff0_0000_0000_0000 | (u64::from(a & 0x007f_ffff) << 29)
        } else {
            f64::from(small(a)).to_bits()
        }
    }
    /// What is no number keeps its sign and the upper part of its payload.
    fn narrow(a: u64) -> u32 {
        if wide(a).is_nan() {
            let sign = ((a >> 63) as u32) << 31;
            let payload = ((a >> 29) as u32) & 0x007f_ffff;
            sign | 0x7f80_0000 | if payload == 0 { 0x0040_0000 } else { payload }
        } else {
            (wide(a) as f32).to_bits()
        }
    }
    fn whole(a: i64) -> u64 {
        wide_pattern(a as f64)
    }
    fn tally(a: u64) -> u64 {
        wide_pattern(a as f64)
    }
    fn plus(a: u64, b: u64) -> u64 {
        wide_pattern(wide(a) + wide(b))
    }
    fn minus(a: u64, b: u64) -> u64 {
        wide_pattern(wide(a) - wide(b))
    }
    fn times(a: u64, b: u64) -> u64 {
        wide_pattern(wide(a) * wide(b))
    }
    fn over(a: u64, b: u64) -> u64 {
        wide_pattern(wide(a) / wide(b))
    }
    fn fused(a: u64, b: u64, c: u64) -> u64 {
        wide_pattern(wide(a).mul_add(wide(b), wide(c)))
    }
    fn root(a: u64) -> u64 {
        wide_pattern(wide(a).sqrt())
    }
    fn hypotenuse(a: u64, b: u64) -> u64 {
        wide_pattern(wide(a).hypot(wide(b)))
    }
    fn exponential(a: u64) -> u64 {
        wide_pattern(wide(a).exp())
    }
    fn cosine(a: u64) -> u64 {
        wide_pattern(wide(a).cos())
    }
    fn sine(a: u64) -> u64 {
        wide_pattern(wide(a).sin())
    }
    fn round_down(a: u64) -> u64 {
        wide_pattern(wide(a).floor())
    }
    fn round_up(a: u64) -> u64 {
        wide_pattern(wide(a).ceil())
    }
    fn to_integer(a: u64) -> i64 {
        wide(a) as i64
    }
    fn sample_plus(a: u32, b: u32) -> u32 {
        small_pattern(small(a) + small(b))
    }
    fn sample_minus(a: u32, b: u32) -> u32 {
        small_pattern(small(a) - small(b))
    }
    fn sample_over(a: u32, b: u32) -> u32 {
        small_pattern(small(a) / small(b))
    }
    fn sample_fused(a: u32, b: u32, c: u32) -> u32 {
        small_pattern(small(a).mul_add(small(b), small(c)))
    }
    fn sample_root(a: u32) -> u32 {
        small_pattern(small(a).sqrt())
    }
    fn sample_power(a: u32, b: u32) -> u32 {
        small_pattern(small(a).powf(small(b)))
    }
}

fn bits(samples: &[f32]) -> Vec<u32> {
    samples.iter().map(|s| s.to_bits()).collect()
}

fn unbits(samples: &[u32]) -> Vec<f32> {
    samples.iter().map(|s| f32::from_bits(*s)).collect()
}

fn j<T: Into<serde_json::Value>>(value: T) -> serde_json::Value {
    value.into()
}

fn object(members: Vec<(&str, serde_json::Value)>) -> serde_json::Value {
    let mut map = serde_json::Map::new();
    for (name, value) in members {
        map.insert(name.to_owned(), value);
    }
    serde_json::Value::Object(map)
}

fn array(items: Vec<serde_json::Value>) -> serde_json::Value {
    serde_json::Value::Array(items)
}

fn w(x: f64) -> u64 {
    x.to_bits()
}

fn f(x: u64) -> f64 {
    f64::from_bits(x)
}

fn image(width: u32, height: u32, layout: ChannelLayout) -> ResourceDescriptor {
    ResourceDescriptor::Image(ImageDescriptor {
        extent: Extent::new(width, height),
        layout,
        scalar: ScalarType::F32,
        color: ColorEncoding::Srgb,
        range: ColorRange::DisplayReferred,
        alpha: AlphaRepresentation::Straight,
        coordinates: CoordinateConvention::PixelCenterUpperLeft,
        semantic: SemanticRole::Color,
    })
}

fn mask(width: u32, height: u32) -> ResourceDescriptor {
    ResourceDescriptor::Mask(MaskDescriptor {
        extent: Extent::new(width, height),
        scalar: ScalarType::F32,
        meaning: MaskMeaning::Coverage,
        range: ValidRange::Bounded { min: w(0.0), max: w(1.0) },
        coordinates: CoordinateConvention::PixelCenterUpperLeft,
    })
}

fn field2(width: u32, height: u32) -> ResourceDescriptor {
    ResourceDescriptor::Field2(FieldDescriptor {
        arity: FieldArity::Field2,
        extent: Extent::new(width, height),
        scalar: ScalarType::F32,
        semantic: SemanticRole::Material,
        coordinates: CoordinateConvention::PixelCenterUpperLeft,
        space: None,
        normalization: None,
        encoding: None,
    })
}

fn rect(x0: i64, y0: i64, x1: i64, y1: i64) -> serde_json::Value {
    object(vec![(
        "rect",
        object(vec![("x0", j(x0)), ("y0", j(y0)), ("x1", j(x1)), ("y1", j(y1))]),
    )])
}

#[test]
fn crops_compose_and_keep_whole_images() {
    let samples: Vec<u32> = (0..40).collect();
    let extent = Extent::new(5, 4);
    assert_eq!(crop_samples(&samples, extent, Rect::new(0, 0, 5, 4), 2), samples);
    assert!(crop_samples(&samples, extent, Rect::new(3, 2, 3, 4), 2).is_empty());
    let outer = crop_samples(&samples, extent, Rect::new(1, 1, 5, 4), 2);
    let inner = crop_samples(&outer, Extent::new(4, 3), Rect::new(1, 0, 3, 2), 2);
    assert_eq!(inner, crop_samples(&samples, extent, Rect::new(2, 1, 4, 3), 2));
    assert_eq!(inner, vec![14, 15, 16, 17, 24, 25, 26, 27]);
}

#[test]
fn a_crop_asks_for_the_shifted_region() {
    let mut requested = Ports::new();
    requested.insert("image".to_owned(), Rect::new(1, 0, 3, 2));
    let mut inputs = Ports::new();
    inputs.insert("image".to_owned(), image(9, 9, ChannelLayout::Gray));
    let regions = Crop::new().required_inputs(&requested, &inputs, &rect(4, 5, 8, 9)).expect("regions");
    assert_eq!(*regions.get("image").expect("image"), Rect::new(5, 5, 7, 7));
    let mut far = Ports::new();
    far.insert("image".to_owned(), Rect::new(0, 0, i64::MAX, 1));
    assert!(Crop::new().try_required_inputs(&far, &inputs, &rect(4, 5, 8, 9)).is_none());
}

#[test]
fn crop_rectangles_are_checked() {
    assert_eq!(rect_param(&rect(1, 2, 3, 4)).expect("a rectangle"), Rect::new(1, 2, 3, 4));
    let missing = rect_param(&object(vec![])).expect_err("missing");
    assert_eq!((missing.class, missing.code), (ErrorClass::Schema, E_CROP_RECT));
    let malformed = object(vec![("rect", object(vec![("x0", j(0)), ("y0", j(0)), ("x1", j(1))]))]);
    assert_eq!(
        rect_param(&malformed).expect_err("malformed").message,
        "image.crop `rect` is not a half-open rectangle"
    );
    let escaped = check_bounds(Rect::new(0, 0, 5, 4), Extent::new(4, 4)).expect_err("escapes");
    assert_eq!((escaped.class, escaped.code), (ErrorClass::Semantic, E_CROP_BOUNDS));
    assert!(check_bounds(Rect::new(4, 4, 4, 4), Extent::new(4, 4)).is_ok());
}

#[test]
fn flips_undo_themselves_and_compose() {
    let samples: Vec<u32> = (0..24).collect();
    let extent = Extent::new(4, 3);
    for axis in [Axis::Horizontal, Axis::Vertical, Axis::Both] {
        let once = flip_samples(&samples, extent, axis, 2);
        assert_ne!(once, samples);
        assert_eq!(flip_samples(&once, extent, axis, 2), samples);
    }
    let both = flip_samples(&samples, extent, Axis::Both, 2);
    let step = flip_samples(&samples, extent, Axis::Horizontal, 2);
    assert_eq!(flip_samples(&step, extent, Axis::Vertical, 2), both);
    assert_eq!(flip_samples(&vec![1, 2, 3], Extent::new(3, 1), Axis::Horizontal, 1), vec![3, 2, 1]);
}

#[test]
fn a_flip_asks_for_the_mirrored_region() {
    let mut requested = Ports::new();
    requested.insert("image".to_owned(), Rect::new(1, 0, 4, 2));
    let mut inputs = Ports::new();
    inputs.insert("image".to_owned(), image(10, 6, ChannelLayout::Gray));
    let axis = |token: &str| object(vec![("axis", j(token))]);
    let region = |token: &str| {
        *Flip::new()
            .required_inputs(&requested, &inputs, &axis(token))
            .expect("regions")
            .get("image")
            .expect("image")
    };
    assert_eq!(region("horizontal"), Rect::new(6, 0, 9, 2));
    assert_eq!(region("vertical"), Rect::new(1, 4, 4, 6));
    assert_eq!(region("both"), Rect::new(6, 4, 9, 6));
}

#[test]
fn paint_leaves_what_is_outside_the_mask() {
    let nan = f32::from_bits(0x7fc0_1234);
    let base = bits(&[0.25, -0.0, nan, 0.75]);
    let out = paint::<Ieee>(&base, &bits(&[0.0, -0.0]), &bits(&[1.0, 0.5]), 2);
    assert_eq!(out, base);
    let covered = paint::<Ieee>(&base, &bits(&[1.0, 0.5]), &bits(&[1.0, 0.5]), 2);
    assert_eq!(covered[..2], bits(&[1.0, 0.5])[..]);
    assert_eq!(f32::from_bits(covered[3]), 0.625);
}

#[test]
fn a_fill_that_infers_also_computes() {
    let params = object(vec![("value", array(vec![j(0.5)]))]);
    let mut descriptors = Ports::new();
    descriptors.insert("image".to_owned(), image(2, 1, ChannelLayout::Gray));
    descriptors.insert("mask".to_owned(), mask(2, 1));
    assert!(Fill::new().infer_outputs(&descriptors, &params).is_ok());
    let mut values = Ports::new();
    values.insert(
        "image".to_owned(),
        ResourceValue::new(image(2, 1, ChannelLayout::Gray), 1, bits(&[0.0, 1.0])).expect("image"),
    );
    values.insert("mask".to_owned(), ResourceValue::new(mask(2, 1), 1, bits(&[1.0, 0.0])).expect("mask"));
    let out = Fill::new().compute::<Ieee>(&values, &params).expect("filled");
    assert_eq!(unbits(out.get("image").expect("image").samples()), vec![0.5, 1.0]);
    let absent = Fill::new().compute::<Ieee>(&Ports::new(), &params).expect_err("absent");
    assert_eq!(absent.message, "paint.fill requires an `image` input value");
}

#[test]
fn a_whole_displacement_moves_samples_bit_for_bit() {
    let src = bits(&[1.5, -0.0, 3.25, f32::MIN_POSITIVE, 7.0, 9.0]);
    let extent = Extent::new(3, 2);
    for filter in [WarpFilter::Nearest, WarpFilter::Bilinear] {
        for (boundary, off) in [
            (BoundaryMode::Constant, 0.5f32),
            (BoundaryMode::Transparent, 0.0),
        ] {
            let request = WarpRequest { filter, boundary, constant: w(0.5) };
            let disp = bits(&[1.0, 0.0, 1.0, 0.0, 1.0, 0.0, 1.0, 0.0, 1.0, 0.0, 1.0, 0.0]);
            let out = warp_samples::<Ieee>(&src, extent, 1, &disp, request);
            let edge = off.to_bits();
            assert_eq!(out, vec![src[1], src[2], edge, src[4], src[5], edge]);
        }
        let request = WarpRequest { filter, boundary: BoundaryMode::Wrap, constant: w(0.0) };
        let there = bits(&[-1.0, 1.0, -1.0, 1.0, -1.0, 1.0, -1.0, 1.0, -1.0, 1.0, -1.0, 1.0]);
        let back = bits(&[1.0, -1.0, 1.0, -1.0, 1.0, -1.0, 1.0, -1.0, 1.0, -1.0, 1.0, -1.0]);
        let moved = warp_samples::<Ieee>(&src, extent, 1, &there, request);
        assert_ne!(moved, src);
        assert_eq!(warp_samples::<Ieee>(&moved, extent, 1, &back, request), src);
        assert_eq!(warp_samples::<Ieee>(&src, extent, 1, &vec![0; 12], request), src);
    }
}

#[test]
fn warp_boundaries_are_checked() {
    let given = |members: Vec<(&str, serde_json::Value)>| object(vec![("boundary", object(members))]);
    assert_eq!(boundary_param(&object(vec![])).expect("default"), (BoundaryMode::Clamp, w(0.0)));
    assert_eq!(
        boundary_param(&given(vec![("mode", j("constant")), ("value", j(2.5))])).expect("constant"),
        (BoundaryMode::Constant, w(2.5))
    );
    let valid = boundary_param(&given(vec![("mode", j("valid"))])).expect_err("valid");
    assert_eq!((valid.class, valid.code), (ErrorClass::Schema, E_DOMAIN_WARP_PARAM));
    assert!(boundary_param(&given(vec![("mode", j("tile"))])).is_err());
    assert!(boundary_param(&given(vec![("value", j(1))])).is_err());
    assert!(boundary_param(&given(vec![("mode", j("clamp")), ("value", j("x"))])).is_err());
    assert!(boundary_param(&object(vec![("boundary", j(1))])).is_err());
}

#[test]
fn a_warp_asks_for_all_of_its_source() {
    let mut requested = Ports::new();
    requested.insert("warped".to_owned(), Rect::new(1, 1, 3, 9));
    let mut inputs = Ports::new();
    inputs.insert("source".to_owned(), image(6, 4, ChannelLayout::Gray));
    inputs.insert("displacement".to_owned(), field2(6, 4));
    let regions = DomainWarp::new().required_inputs(&requested, &inputs, &object(vec![])).expect("regions");
    assert_eq!(*regions.get("source").expect("source"), Rect::new(0, 0, 6, 4));
    assert_eq!(*regions.get("displacement").expect("displacement"), Rect::new(1, 1, 3, 4));
}

#[test]
fn a_feather_is_pinned_and_a_hard_edge_is_half_open() {
    assert_eq!(feather::<Ieee>(w(-2.0), w(2.0)), w(1.0));
    assert_eq!(feather::<Ieee>(w(2.0), w(2.0)), w(0.0));
    assert_eq!(feather::<Ieee>(w(0.0), w(2.0)), w(0.5));
    assert_eq!(feather::<Ieee>(w(0.0), w(0.0)), w(1.0));
    assert_eq!(feather::<Ieee>(w(1e-9), w(0.0)), w(0.0));
}

#[test]
fn ellipses_move_with_their_centre_and_swap_with_their_radii() {
    let ellipse = EllipseGeometry {
        cx: w(4.0),
        cy: w(3.0),
        rx: w(3.0),
        ry: w(2.0),
        angle_rad: w(0.0),
        half_width_px: w(1.0),
    };
    let moved = EllipseGeometry { cx: w(9.0), cy: w(1.0), ..ellipse };
    let turned = EllipseGeometry { rx: w(2.0), ry: w(3.0), ..ellipse };
    for dy in -4..5 {
        for dx in -4..5 {
            let (x, y) = (f64::from(dx) + 0.5, f64::from(dy) + 0.5);
            let here = ellipse.coverage::<Ieee>(w(4.0 + x), w(3.0 + y));
            assert_eq!(moved.coverage::<Ieee>(w(9.0 + x), w(1.0 + y)), here);
            let swapped = turned.coverage::<Ieee>(w(4.0 + y), w(3.0 + x));
            assert!((f(swapped) - f(here)).abs() < 1e-12);
        }
    }
    assert_eq!(ellipse.coverage::<Ieee>(w(4.0), w(3.0)), w(1.0));
    assert_eq!(ellipse.coverage::<Ieee>(w(7.0), w(3.0)), w(0.5));
}

#[test]
fn ellipse_refusals_name_what_is_amiss() {
    let geometry = |radii: serde_json::Value, more: Vec<(&'static str, serde_json::Value)>| {
        let mut members = vec![
            ("center_px", array(vec![j(1), j(2)])),
            ("radii_px", radii),
        ];
        members.extend(more);
        EllipseGeometry::resolve(&object(members))
    };
    let pair = || array(vec![j(3), j(4.5)]);
    let plain = geometry(pair(), vec![]).expect("an ellipse");
    assert_eq!((plain.cx, plain.ry, plain.angle_rad), (w(1.0), w(4.5), w(0.0)));
    let refused = |r: Result<EllipseGeometry, paintop_cpu::ir::Error>| {
        let e = r.expect_err("refused");
        assert_eq!((e.class, e.code), (ErrorClass::Schema, E_ELLIPSE_PARAM));
        e.message
    };
    assert_eq!(
        refused(geometry(array(vec![j(3)]), vec![])),
        "mask.ellipse parameter `radii_px`: must have exactly two elements"
    );
    assert_eq!(
        refused(geometry(array(vec![j(3), j(0)]), vec![])),
        "mask.ellipse `radii_px.y` must be a strictly positive radius"
    );
    assert_eq!(
        refused(geometry(pair(), vec![("angle_rad", j("x"))])),
        "mask.ellipse parameter `angle_rad`: must be a number"
    );
    let mut requested = Ports::new();
    requested.insert("mask".to_owned(), Rect::new(0, 0, 1, 1));
    let mut inputs = Ports::new();
    inputs.insert("extent_from".to_owned(), image(4, 4, ChannelLayout::Gray));
    let regions = EllipseMask::new().required_inputs(&requested, &inputs, &object(vec![])).expect("regions");
    assert_eq!(*regions.get("extent_from").expect("extent_from"), Rect::new(0, 0, 0, 0));
}

#[test]
fn stops_are_met_exactly() {
    let stops = Stops {
        stops: vec![
            Stop { position: 0, color: bits(&[0.125]) },
            Stop { position: 0.25f32.to_bits(), color: bits(&[0.75]) },
            Stop { position: 0.25f32.to_bits(), color: bits(&[0.25]) },
            Stop { position: 1.0f32.to_bits(), color: bits(&[0.5]) },
        ],
    };
    let color = |t: f32| f32::from_bits(stops.color_at::<Ieee>(t.to_bits(), 1)[0]);
    assert_eq!(color(0.0), 0.125);
    assert_eq!(color(-1.0), 0.125);
    assert_eq!(color(0.25), 0.75);
    assert_eq!(color(1.0), 0.5);
    assert_eq!(color(0.625), 0.375);
    assert_eq!(color(0.125), 0.4375);
}

#[test]
fn gradients_move_with_their_line() {
    let here = Geometry::Linear { ax: w(1.0), ay: w(2.0), dx: w(4.0), dy: w(0.0), len_sq: w(16.0) };
    let there = Geometry::Linear { ax: w(11.0), ay: w(5.0), dx: w(4.0), dy: w(0.0), len_sq: w(16.0) };
    for x in 0..6 {
        let x = f64::from(x) + 0.5;
        assert_eq!(
            here.parameter::<Ieee>(w(x), w(0.5)),
            there.parameter::<Ieee>(w(x + 10.0), w(3.5))
        );
    }
    assert_eq!(f(here.parameter::<Ieee>(w(3.0), w(9.0))), 0.5);
    let about = Geometry::Radial { cx: w(1.0), cy: w(1.0), radius: w(10.0) };
    assert_eq!(f(about.parameter::<Ieee>(w(4.0), w(5.0))), 0.5);
    let absent = LinearGradient::new().compute::<Ieee>(&Ports::new(), &object(vec![])).expect_err("absent");
    assert_eq!((absent.class, absent.code), (ErrorClass::Reference, E_GRADIENT_INPUT));
    assert_eq!(absent.message, "paint.linear_gradient requires an `extent_from` input value");
}

#[test]
fn a_line_of_distances_is_the_nearest_parabola() {
    assert_eq!(
        dt_1d(&[None, Some(0), None, None, Some(1), None]),
        vec![Some(1), Some(0), Some(1), Some(2), Some(1), Some(2)]
    );
    assert_eq!(dt_1d(&[None, None]), vec![None, None]);
    assert!(dt_1d(&[]).is_empty());
}

#[test]
fn distances_turn_with_the_grid_and_stay_bounded() {
    let cells = [false, true, false, false, false, false, false, false, true, false, false, false];
    let grid = BinaryGrid::new(Extent::new(4, 3), &cells).expect("a grid");
    let squared = transform_sq(&grid);
    assert_eq!(squared, brute_force_sq(&grid));
    let mut turned = vec![false; 12];
    for y in 0..3usize {
        for x in 0..4usize {
            turned[x * 3 + (2 - y)] = cells[y * 4 + x];
        }
    }
    let other = BinaryGrid::new(Extent::new(3, 4), &turned).expect("a grid");
    let around = transform_sq(&other);
    for y in 0..3usize {
        for x in 0..4usize {
            assert_eq!(squared[y * 4 + x], around[x * 3 + (2 - y)]);
            assert!(squared[y * 4 + x].expect("a distance") <= 9 + 4);
            assert_eq!(squared[y * 4 + x] == Some(0), cells[y * 4 + x]);
        }
    }
    let samples = squared_samples::<Ieee>(&squared);
    assert_eq!(unbits(&samples)[..4], [1.0, 0.0, 1.0, 4.0]);
    assert_eq!(unbits(&distance::<Ieee>(&samples))[..4], [1.0, 0.0, 1.0, 2.0]);
    let none = squared_samples::<Ieee>(&vec![None]);
    assert_eq!(unbits(&none), vec![f32::INFINITY]);
    assert_eq!(unbits(&distance::<Ieee>(&none)), vec![f32::INFINITY]);
}

#[test]
fn coverage_is_a_number_even_where_its_estimate_is_none() {
    let tiny = EllipseGeometry {
        cx: w(4.0),
        cy: w(4.0),
        rx: w(1e-200),
        ry: w(1e-200),
        angle_rad: w(0.0),
        half_width_px: w(1.0),
    };
    for y in 0..9 {
        for x in 0..9 {
            let coverage = f(tiny.coverage::<Ieee>(w(f64::from(x)), w(f64::from(y))));
            assert!((0.0..=1.0).contains(&coverage));
        }
    }
    assert_eq!(f(tiny.coverage::<Ieee>(w(4.0), w(4.0))), 1.0);
    assert_eq!(f(tiny.coverage::<Ieee>(w(6.0), w(4.0))), 0.0);
    assert_eq!(feather::<Ieee>(w(f64::NAN), w(1.0)), w(0.0));
    assert_eq!(feather::<Ieee>(w(-3.0), w(1e308)), w(1.0));
}

#[test]
fn a_warp_blends_unless_both_fractions_are_zero() {
    let extent = Extent::new(2, 2);
    let request = WarpRequest { filter: WarpFilter::Bilinear, boundary: BoundaryMode::Clamp, constant: w(0.0) };
    let src = bits(&[1.0, f32::INFINITY, 2.0, 4.0]);
    let down = bits(&[0.0, 0.5, 0.0, 0.0, 0.0, 0.0, 0.0, 0.0]);
    let out = unbits(&warp_samples::<Ieee>(&src, extent, 1, &down, request));
    assert!(out[0].is_nan());
    assert_eq!(out[1], f32::INFINITY);
    assert_eq!(out[2..], [2.0, 4.0]);
}

#[test]
fn a_range_from_minus_zero_is_the_coverage_range() {
    let outcomes = |min: f64, max: f64| {
        let mut outputs = Ports::new();
        outputs.insert(
            "mask".to_owned(),
            ResourceDescriptor::Mask(MaskDescriptor {
                extent: Extent::new(2, 2),
                scalar: ScalarType::F32,
                meaning: MaskMeaning::Coverage,
                range: ValidRange::Bounded { min: w(min), max: w(max) },
                coordinates: CoordinateConvention::PixelCenterUpperLeft,
            }),
        );
        EllipseMask::new().validate_postconditions(&outputs, &object(vec![])).expect("outcomes")
    };
    for min in [0.0, -0.0] {
        let held = outcomes(min, 1.0);
        assert_eq!(held.len(), 2);
        assert!(held.iter().all(|o| o.status == AssertionStatus::Pass));
        assert!(held.iter().all(|o| matches!(o.about, Detail::Nothing)));
    }
    for (min, max) in [(0.25, 1.0), (0.0, 2.0), (f64::NAN, 1.0)] {
        let failed = outcomes(min, max)[1];
        assert_eq!(failed.status, AssertionStatus::Fail);
        assert_eq!(failed.name, "coverage_in_unit_range");
        assert!(matches!(
            failed.about,
            Detail::Range { range: ValidRange::Bounded { min: a, max: b } } if a == w(min) && b == w(max)
        ));
    }
}

#[test]
fn a_refusal_says_what_it_is_about() {
    let escaped = check_bounds(Rect::new(0, 0, 5, 4), Extent::new(4, 3)).expect_err("escapes");
    assert!(matches!(
        escaped.detail,
        Detail::Outside { rect, extent } if rect == Rect::new(0, 0, 5, 4) && extent == Extent::new(4, 3)
    ));

    let mut inputs = Ports::new();
    inputs.insert("image".to_owned(), image(2, 1, ChannelLayout::Rgb));
    inputs.insert("mask".to_owned(), mask(2, 1));
    let filled = |value: Vec<serde_json::Value>| {
        Fill::new()
            .infer_outputs(&inputs, &object(vec![("value", array(value))]))
            .expect_err("refused")
            .detail
    };
    assert!(matches!(filled(vec![j(0.5), j("x"), j(0.5)]), Detail::Item { index: 1 }));
    assert!(matches!(
        filled(vec![j(0.5)]),
        Detail::Components { found: 1, layout: ChannelLayout::Rgb }
    ));

    let stop = |position: f64, color: Vec<serde_json::Value>| {
        object(vec![("position", j(position)), ("color", array(color))])
    };
    let gray = match image(2, 1, ChannelLayout::Gray) {
        ResourceDescriptor::Image(d) => d,
        _ => unreachable!(),
    };
    let stops = |items: Vec<serde_json::Value>| {
        match Stops::resolve::<Ieee>(&object(vec![("stops", array(items))]), gray) {
            Ok(_) => panic!("not refused"),
            Err(e) => e.detail,
        }
    };
    assert!(matches!(
        stops(vec![stop(0.0, vec![j(0.0)]), stop(1.5, vec![j(1.0)])]),
        Detail::NumberAt { index: 1, value } if value == w(1.5)
    ));
    assert!(matches!(
        stops(vec![stop(0.0, vec![j(0.0)]), stop(1.0, vec![j(1.0), j(1.0)])]),
        Detail::ComponentsIn { list: 1, found: 2, layout: ChannelLayout::Gray }
    ));
    assert!(matches!(
        stops(vec![stop(0.0, vec![j("x")]), stop(1.0, vec![j(1.0)])]),
        Detail::ItemIn { list: 0, index: 0 }
    ));
}

#[test]
fn a_region_that_cannot_be_mirrored_is_not_tried() {
    let axis = |token: &str| object(vec![("axis", j(token))]);
    let mut inputs = Ports::new();
    inputs.insert("image".to_owned(), image(10, 6, ChannelLayout::Gray));
    let tried = |region: Rect, token: &str| {
        let mut requested = Ports::new();
        requested.insert("image".to_owned(), region);
        Flip::new()
            .try_required_inputs(&requested, &inputs, &axis(token))
            .map(|regions| *regions.expect("regions").get("image").expect("image"))
    };
    let far = Rect::new(i64::MIN, 0, i64::MIN + 1, 2);
    assert_eq!(tried(far, "horizontal"), None);
    assert_eq!(tried(far, "vertical"), Some(Rect::new(i64::MIN, 4, i64::MIN + 1, 6)));
    let near = Rect::new(10 - i64::MAX, 0, 4, 2);
    assert_eq!(tried(near, "horizontal"), Some(Rect::new(6, 0, i64::MAX, 2)));
    assert_eq!(tried(Rect::new(9 - i64::MAX, 0, 4, 2), "horizontal"), None);
}
