//! The coverage mask of a rotated ellipse with a feathered edge.
//!
//! Coverage is taken at pixel centres from the ellipse's implicit quadratic: a first-order signed
//! distance to the boundary, in pixels, feathered by a smoothstep.
use crate::arithmetic::{
    cosine, cosine_of, fused, fused_of, hypotenuse, hypotenuse_of, lawful, minus, minus_of, narrow,
    narrow_of, over, over_of, plus, plus_of, root, root_of, sine, sine_of, times, times_of, whole,
    Arithmetic,
};
use crate::binary::{
    at_most, clamp_unit, clamped_unit, finite, is_at_most, is_finite, is_less, is_nan, is_zero,
    less, nan, negate, negated, rank, sample_at_most, HALF, ONE, SAMPLE_ONE, SAMPLE_ZERO, THREE,
    TWO, ZERO,
};
use crate::gradient::{center_of, size_only};
use crate::ir::{
    AssertionResult, CoordinateConvention, Detail, Error, ErrorClass, Extent, MaskDescriptor,
    MaskMeaning, Rect, ResourceDescriptor, ResourceKind, ScalarType, ValidRange,
};
use crate::json::{json_get, json_is_object, json_of, json_text, same_text, Json};
use crate::lattice::lemma_at_of;
use crate::params::{number_in, pair_in, read_number, read_pair, NumberErrors, PairErrors};
use crate::ports::{gives_port, gives_value, one_port, port, port_view, Ports};
use crate::value::{ResourceValue, ValueView};
use vstd::prelude::*;

verus! {

/// The operation's identifier.
pub const ELLIPSE_OP_ID: &'static str = "mask.ellipse@1";

/// The input that gives the size was absent.
pub const E_ELLIPSE_INPUT: &'static str = "E_ELLIPSE_INPUT";

/// A parameter was missing, malformed, or degenerate.
pub const E_ELLIPSE_PARAM: &'static str = "E_ELLIPSE_PARAM";

pub const INPUT_REQUIRED: &'static str = "mask.ellipse requires an `extent_from` input";

pub const INPUT_VALUE_REQUIRED: &'static str = "mask.ellipse requires an `extent_from` input value";

pub const CENTER_MISSING: &'static str = "mask.ellipse parameter `center_px`: missing required parameter";

pub const CENTER_NOT_ARRAY: &'static str = "mask.ellipse parameter `center_px`: must be a [x, y] array";

pub const CENTER_COUNT: &'static str = "mask.ellipse parameter `center_px`: must have exactly two elements";

pub const CENTER_NOT_NUMBER: &'static str = "mask.ellipse parameter `center_px`: must be a number";

pub const CENTER_NOT_FINITE: &'static str = "mask.ellipse parameter `center_px`: must be finite";

pub const RADII_MISSING: &'static str = "mask.ellipse parameter `radii_px`: missing required parameter";

pub const RADII_NOT_ARRAY: &'static str = "mask.ellipse parameter `radii_px`: must be a [x, y] array";

pub const RADII_COUNT: &'static str = "mask.ellipse parameter `radii_px`: must have exactly two elements";

pub const RADII_NOT_NUMBER: &'static str = "mask.ellipse parameter `radii_px`: must be a number";

pub const RADII_NOT_FINITE: &'static str = "mask.ellipse parameter `radii_px`: must be finite";

pub const ANGLE_NOT_NUMBER: &'static str = "mask.ellipse parameter `angle_rad`: must be a number";

pub const ANGLE_NOT_FINITE: &'static str = "mask.ellipse parameter `angle_rad`: must be finite";

pub const HALF_WIDTH_NOT_NUMBER: &'static str = "mask.ellipse parameter `edge.half_width_px`: must be a number";

pub const HALF_WIDTH_NOT_FINITE: &'static str = "mask.ellipse parameter `edge.half_width_px`: must be finite";

pub const RADIUS_X_DEGENERATE: &'static str = "mask.ellipse `radii_px.x` must be a strictly positive radius";

pub const RADIUS_Y_DEGENERATE: &'static str = "mask.ellipse `radii_px.y` must be a strictly positive radius";

pub const ANTIALIAS_NOT_STRING: &'static str = "mask.ellipse parameter `antialias`: `antialias` must be a string";

pub const ANTIALIAS_UNSUPPORTED: &'static str = "mask.ellipse only supports `antialias: analytic`";

pub const EDGE_NOT_OBJECT: &'static str = "mask.ellipse parameter `edge`: `edge` must be an object";

pub const PROFILE_NOT_STRING: &'static str = "mask.ellipse parameter `edge.profile`: `edge.profile` must be a string";

pub const PROFILE_UNSUPPORTED: &'static str = "mask.ellipse only supports `edge.profile: smoothstep`";

pub const HALF_WIDTH_REQUIRED: &'static str = "mask.ellipse parameter `edge.half_width_px`: `edge.half_width_px` is required";

pub const HALF_WIDTH_NEGATIVE: &'static str = "mask.ellipse parameter `edge.half_width_px`: must be non-negative";

/// A refusal for a parameter.
#[verifier::allow_in_spec]
pub fn param_error(message: &'static str) -> Error
    returns
        (Error::new(ErrorClass::Schema, E_ELLIPSE_PARAM, message)),
{
    Error::new(ErrorClass::Schema, E_ELLIPSE_PARAM, message)
}

/// How the centre is refused.
#[verifier::allow_in_spec]
pub fn center_errors() -> PairErrors
    returns
        (PairErrors {
            missing: param_error(CENTER_MISSING),
            not_array: param_error(CENTER_NOT_ARRAY).about(Detail::Given),
            count: param_error(CENTER_COUNT).about(Detail::Given),
            number: NumberErrors {
                not_number: param_error(CENTER_NOT_NUMBER).about(Detail::Given),
                not_finite: param_error(CENTER_NOT_FINITE).about(Detail::Given),
            },
        }),
{
    PairErrors {
        missing: param_error(CENTER_MISSING),
        not_array: param_error(CENTER_NOT_ARRAY).about(Detail::Given),
        count: param_error(CENTER_COUNT).about(Detail::Given),
        number: NumberErrors {
            not_number: param_error(CENTER_NOT_NUMBER).about(Detail::Given),
            not_finite: param_error(CENTER_NOT_FINITE).about(Detail::Given),
        },
    }
}

/// How the pair of radii is refused.
#[verifier::allow_in_spec]
pub fn radii_errors() -> PairErrors
    returns
        (PairErrors {
            missing: param_error(RADII_MISSING),
            not_array: param_error(RADII_NOT_ARRAY).about(Detail::Given),
            count: param_error(RADII_COUNT).about(Detail::Given),
            number: NumberErrors {
                not_number: param_error(RADII_NOT_NUMBER).about(Detail::Given),
                not_finite: param_error(RADII_NOT_FINITE).about(Detail::Given),
            },
        }),
{
    PairErrors {
        missing: param_error(RADII_MISSING),
        not_array: param_error(RADII_NOT_ARRAY).about(Detail::Given),
        count: param_error(RADII_COUNT).about(Detail::Given),
        number: NumberErrors {
            not_number: param_error(RADII_NOT_NUMBER).about(Detail::Given),
            not_finite: param_error(RADII_NOT_FINITE).about(Detail::Given),
        },
    }
}

/// How the rotation is refused.
#[verifier::allow_in_spec]
pub fn angle_errors() -> NumberErrors
    returns
        (NumberErrors {
            not_number: param_error(ANGLE_NOT_NUMBER).about(Detail::Given),
            not_finite: param_error(ANGLE_NOT_FINITE).about(Detail::Given),
        }),
{
    NumberErrors {
        not_number: param_error(ANGLE_NOT_NUMBER).about(Detail::Given),
        not_finite: param_error(ANGLE_NOT_FINITE).about(Detail::Given),
    }
}

/// How the half-width of the feather is refused.
#[verifier::allow_in_spec]
pub fn half_width_errors() -> NumberErrors
    returns
        (NumberErrors {
            not_number: param_error(HALF_WIDTH_NOT_NUMBER).about(Detail::Given),
            not_finite: param_error(HALF_WIDTH_NOT_FINITE).about(Detail::Given),
        }),
{
    NumberErrors {
        not_number: param_error(HALF_WIDTH_NOT_NUMBER).about(Detail::Given),
        not_finite: param_error(HALF_WIDTH_NOT_FINITE).about(Detail::Given),
    }
}

/// An ellipse: centre, radii, rotation and the half-width of its feather, by their binary64
/// patterns.
#[derive(Debug, Clone, Copy, PartialEq, Eq, Structural)]
pub struct EllipseGeometry {
    pub cx: u64,
    pub cy: u64,
    pub rx: u64,
    pub ry: u64,
    pub angle_rad: u64,
    pub half_width_px: u64,
}

/// The number is a radius: finite and above zero.
pub open spec fn is_radius(bits: u64) -> bool {
    finite(bits) && less(ZERO, bits)
}

/// The rotation that the parameters give; none unless given.
pub open spec fn angle_of(params: Json) -> Result<u64, Error> {
    match params.get("angle_rad"@) {
        None => Ok(ZERO),
        Some(v) => number_in(v, angle_errors()),
    }
}

/// Why the requested antialiasing is refused, if it is: only the analytic mode is known.
pub open spec fn antialias_refusal(params: Json) -> Option<Error> {
    match params.get("antialias"@) {
        None => None,
        Some(v) => match v.as_text() {
            None => Some(param_error(ANTIALIAS_NOT_STRING).about(Detail::Given)),
            Some(token) => if token == "analytic"@ {
                None
            } else {
                Some(param_error(ANTIALIAS_UNSUPPORTED).about(Detail::Given))
            },
        },
    }
}

/// The half-width that the parameters give: none is a hard edge; a given edge has the smoothstep
/// profile and a width that is not negative.
pub open spec fn half_width_of(params: Json) -> Result<u64, Error> {
    match params.get("edge"@) {
        None => Ok(ZERO),
        Some(edge) => if !(edge is Object) {
            Err(param_error(EDGE_NOT_OBJECT).about(Detail::Given))
        } else {
            match crate::json::member_text(edge, "profile"@) {
                None => Err(param_error(PROFILE_NOT_STRING).about(Detail::Given)),
                Some(profile) => if profile != "smoothstep"@ {
                    Err(param_error(PROFILE_UNSUPPORTED).about(Detail::Given))
                } else {
                    match edge.get("half_width_px"@) {
                        None => Err(param_error(HALF_WIDTH_REQUIRED)),
                        Some(half) => match number_in(half, half_width_errors()) {
                            Err(e) => Err(e),
                            Ok(bits) => if less(bits, ZERO) {
                                Err(param_error(HALF_WIDTH_NEGATIVE).about(Detail::Given))
                            } else {
                                Ok(bits)
                            },
                        },
                    }
                },
            }
        },
    }
}

/// The ellipse that the parameters give.
pub open spec fn geometry_of(params: Json) -> Result<EllipseGeometry, Error> {
    match pair_in(params, "center_px"@, center_errors()) {
        Err(e) => Err(e),
        Ok((cx, cy)) => match pair_in(params, "radii_px"@, radii_errors()) {
            Err(e) => Err(e),
            Ok((rx, ry)) => if !is_radius(rx) {
                Err(param_error(RADIUS_X_DEGENERATE).about(Detail::Number { value: rx }))
            } else if !is_radius(ry) {
                Err(param_error(RADIUS_Y_DEGENERATE).about(Detail::Number { value: ry }))
            } else {
                match angle_of(params) {
                    Err(e) => Err(e),
                    Ok(angle_rad) => match antialias_refusal(params) {
                        Some(e) => Err(e),
                        None => match half_width_of(params) {
                            Err(e) => Err(e),
                            Ok(half_width_px) => Ok(
                                EllipseGeometry { cx, cy, rx, ry, angle_rad, half_width_px },
                            ),
                        },
                    },
                }
            },
        },
    }
}

/// Read the half-width of the edge.
pub fn parse_edge(params: &serde_json::Value) -> (r: Result<u64, Error>)
    ensures
        r == half_width_of(json_of(*params)),
{
    let edge: &serde_json::Value = match json_get(params, "edge") {
        None => {
            return Ok(ZERO);
        },
        Some(edge) => edge,
    };
    if !json_is_object(edge) {
        return Err(param_error(EDGE_NOT_OBJECT).about(Detail::Given));
    }
    let profile: Option<&str> = match json_get(edge, "profile") {
        None => None,
        Some(value) => json_text(value),
    };
    match profile {
        None => {
            return Err(param_error(PROFILE_NOT_STRING).about(Detail::Given));
        },
        Some(token) => {
            if !same_text(token, "smoothstep") {
                return Err(param_error(PROFILE_UNSUPPORTED).about(Detail::Given));
            }
        },
    }
    match json_get(edge, "half_width_px") {
        None => Err(param_error(HALF_WIDTH_REQUIRED)),
        Some(half) => match read_number(half, half_width_errors()) {
            Err(e) => Err(e),
            Ok(bits) => if is_less(bits, ZERO) {
                Err(param_error(HALF_WIDTH_NEGATIVE).about(Detail::Given))
            } else {
                Ok(bits)
            },
        },
    }
}

/// The coverage of a hard edge at a signed distance: a point on the edge is covered.
#[verifier::allow_in_spec]
pub fn hard_edge(sd: u64) -> u64
    returns
        (if at_most(sd, ZERO) {
            ONE
        } else {
            ZERO
        }),
{
    if is_at_most(sd, ZERO) {
        ONE
    } else {
        ZERO
    }
}

/// How far a signed distance is through the band from `-half_width_px` to `half_width_px`, from zero
/// to one.
pub open spec fn ramp_of<A: Arithmetic>(sd: u64, half_width_px: u64) -> u64 {
    clamped_unit(
        over_of::<A>(plus_of::<A>(sd, half_width_px), times_of::<A>(TWO, half_width_px)),
    )
}

/// One less the smoothstep of a fraction.
pub open spec fn fall_of<A: Arithmetic>(t: u64) -> u64 {
    minus_of::<A>(
        ONE,
        times_of::<A>(times_of::<A>(t, t), fused_of::<A>(TWO, negated(t), THREE)),
    )
}

/// The coverage at a signed distance `sd` from the boundary: one up to the feather's inner end, zero
/// from its outer end on, between them the fall of a smoothstep, kept within `[0, 1]`. Without a
/// feather, and where the fall is no number, the edge is hard.
pub open spec fn feather_of<A: Arithmetic>(sd: u64, half_width_px: u64) -> u64 {
    if at_most(half_width_px, ZERO) {
        hard_edge(sd)
    } else if at_most(sd, negated(half_width_px)) {
        ONE
    } else if at_most(half_width_px, sd) {
        ZERO
    } else if nan(fall_of::<A>(ramp_of::<A>(sd, half_width_px))) {
        hard_edge(sd)
    } else {
        clamped_unit(fall_of::<A>(ramp_of::<A>(sd, half_width_px)))
    }
}

/// The coverage at a signed distance.
pub fn feather<A: Arithmetic>(sd: u64, half_width_px: u64) -> (r: u64)
    requires
        lawful::<A>(),
    ensures
        r == feather_of::<A>(sd, half_width_px),
{
    if is_at_most(half_width_px, ZERO) {
        return hard_edge(sd);
    }
    if is_at_most(sd, negate(half_width_px)) {
        return ONE;
    }
    if is_at_most(half_width_px, sd) {
        return ZERO;
    }
    let t: u64 = clamp_unit(
        over::<A>(plus::<A>(sd, half_width_px), times::<A>(TWO, half_width_px)),
    );
    let smoothstep: u64 = times::<A>(times::<A>(t, t), fused::<A>(TWO, negate(t), THREE));
    let fall: u64 = minus::<A>(ONE, smoothstep);
    if is_nan(fall) {
        hard_edge(sd)
    } else {
        clamp_unit(fall)
    }
}

impl EllipseGeometry {
    /// The point `(off_x, off_y)` from the centre, turned into the ellipse's own frame.
    pub open spec fn local_of<A: Arithmetic>(self, off_x: u64, off_y: u64) -> (u64, u64) {
        let s = sine_of::<A>(self.angle_rad);
        let c = cosine_of::<A>(self.angle_rad);
        (
            fused_of::<A>(s, off_y, times_of::<A>(c, off_x)),
            fused_of::<A>(c, off_y, times_of::<A>(negated(s), off_x)),
        )
    }

    /// The coverage at local coordinates: full at the centre, else the feather of the first-order
    /// signed distance `(f - 1) * f / |(u / rx^2, v / ry^2)|` with `f` the normalised radius.
    pub open spec fn local_coverage<A: Arithmetic>(self, u: u64, v: u64) -> u64 {
        let nx = over_of::<A>(u, self.rx);
        let ny = over_of::<A>(v, self.ry);
        let f = root_of::<A>(fused_of::<A>(nx, nx, times_of::<A>(ny, ny)));
        let grad = hypotenuse_of::<A>(
            over_of::<A>(u, times_of::<A>(self.rx, self.rx)),
            over_of::<A>(v, times_of::<A>(self.ry, self.ry)),
        );
        if rank(f) == 0 || rank(grad) == 0 {
            ONE
        } else {
            feather_of::<A>(
                over_of::<A>(times_of::<A>(minus_of::<A>(f, ONE), f), grad),
                self.half_width_px,
            )
        }
    }

    /// The coverage at a point.
    pub open spec fn coverage_of<A: Arithmetic>(self, x: u64, y: u64) -> u64 {
        let (u, v) = self.local_of::<A>(minus_of::<A>(x, self.cx), minus_of::<A>(y, self.cy));
        self.local_coverage::<A>(u, v)
    }

    /// Read and check the geometry parameters.
    pub fn resolve(params: &serde_json::Value) -> (r: Result<EllipseGeometry, Error>)
        ensures
            r == geometry_of(json_of(*params)),
    {
        let (cx, cy): (u64, u64) = match read_pair(params, "center_px", center_errors()) {
            Err(e) => {
                return Err(e);
            },
            Ok(p) => p,
        };
        let (rx, ry): (u64, u64) = match read_pair(params, "radii_px", radii_errors()) {
            Err(e) => {
                return Err(e);
            },
            Ok(p) => p,
        };
        if !(is_finite(rx) && is_less(ZERO, rx)) {
            return Err(param_error(RADIUS_X_DEGENERATE).about(Detail::Number { value: rx }));
        }
        if !(is_finite(ry) && is_less(ZERO, ry)) {
            return Err(param_error(RADIUS_Y_DEGENERATE).about(Detail::Number { value: ry }));
        }
        let angle_rad: u64 = match json_get(params, "angle_rad") {
            None => ZERO,
            Some(value) => match read_number(value, angle_errors()) {
                Err(e) => {
                    return Err(e);
                },
                Ok(bits) => bits,
            },
        };
        match json_get(params, "antialias") {
            None => {},
            Some(value) => match json_text(value) {
                None => {
                    return Err(param_error(ANTIALIAS_NOT_STRING).about(Detail::Given));
                },
                Some(token) => {
                    if !same_text(token, "analytic") {
                        return Err(param_error(ANTIALIAS_UNSUPPORTED).about(Detail::Given));
                    }
                },
            },
        }
        match parse_edge(params) {
            Err(e) => Err(e),
            Ok(half_width_px) => Ok(
                EllipseGeometry { cx, cy, rx, ry, angle_rad, half_width_px },
            ),
        }
    }

    /// The coverage at a point.
    pub fn coverage<A: Arithmetic>(&self, x: u64, y: u64) -> (r: u64)
        requires
            lawful::<A>(),
        ensures
            r == self.coverage_of::<A>(x, y),
    {
        let off_x: u64 = minus::<A>(x, self.cx);
        let off_y: u64 = minus::<A>(y, self.cy);
        let s: u64 = sine::<A>(self.angle_rad);
        let c: u64 = cosine::<A>(self.angle_rad);
        let u: u64 = fused::<A>(s, off_y, times::<A>(c, off_x));
        let v: u64 = fused::<A>(c, off_y, times::<A>(negate(s), off_x));
        let nx: u64 = over::<A>(u, self.rx);
        let ny: u64 = over::<A>(v, self.ry);
        let f: u64 = root::<A>(fused::<A>(nx, nx, times::<A>(ny, ny)));
        if is_zero(f) {
            return ONE;
        }
        let grad: u64 = hypotenuse::<A>(
            over::<A>(u, times::<A>(self.rx, self.rx)),
            over::<A>(v, times::<A>(self.ry, self.ry)),
        );
        if is_zero(grad) {
            return ONE;
        }
        let sd: u64 = over::<A>(times::<A>(minus::<A>(f, ONE), f), grad);
        feather::<A>(sd, self.half_width_px)
    }
}

/// The coverage samples: at every pixel that of its centre.
pub open spec fn rasterized<A: Arithmetic>(ellipse: EllipseGeometry, extent: Extent) -> Seq<u32> {
    Seq::new(
        extent.area() as nat,
        |i: int|
            narrow_of::<A>(
                ellipse.coverage_of::<A>(
                    center_of::<A>(i % extent.width as int),
                    center_of::<A>(i / extent.width as int),
                ),
            ),
    )
}

/// Draw the coverage.
pub fn rasterize<A: Arithmetic>(ellipse: &EllipseGeometry, extent: Extent) -> (out: Vec<u32>)
    requires
        lawful::<A>(),
        extent.area() <= usize::MAX,
    ensures
        out@ == rasterized::<A>(*ellipse, extent),
{
    let w: usize = extent.width as usize;
    let h: usize = extent.height as usize;
    let ghost all = rasterized::<A>(*ellipse, extent);
    assert(w * h >= 0) by (nonlinear_arith)
        requires
            w >= 0,
            h >= 0,
    ;
    let pixels: usize = w * h;
    let mut out: Vec<u32> = Vec::new();
    let mut p: usize = 0;
    while p < pixels
        invariant
            lawful::<A>(),
            w == extent.width,
            h == extent.height,
            pixels == w * h,
            p <= pixels,
            all == rasterized::<A>(*ellipse, extent),
            all.len() == pixels,
            out@ == all.take(p as int),
        decreases pixels - p,
    {
        proof {
            lemma_at_of(p as int, w as int, h as int);
        }
        let x: u64 = plus::<A>(whole::<A>((p % w) as i64), HALF);
        let y: u64 = plus::<A>(whole::<A>((p / w) as i64), HALF);
        out.push(narrow::<A>(ellipse.coverage::<A>(x, y)));
        p = p + 1;
    }
    out
}

/// The mask produced at a size.
#[verifier::allow_in_spec]
pub fn mask_descriptor(extent: Extent) -> MaskDescriptor
    returns
        (MaskDescriptor {
            extent,
            scalar: ScalarType::F32,
            range: ValidRange::Bounded { min: ZERO, max: ONE },
            meaning: MaskMeaning::Coverage,
            coordinates: CoordinateConvention::PixelCenterUpperLeft,
        }),
{
    MaskDescriptor {
        extent,
        scalar: ScalarType::F32,
        range: ValidRange::Bounded { min: ZERO, max: ONE },
        meaning: MaskMeaning::Coverage,
        coordinates: CoordinateConvention::PixelCenterUpperLeft,
    }
}

/// The operation.
#[derive(Debug, Clone, Copy)]
pub struct EllipseMask;

/// What the operation produces.
pub open spec fn inferred(inputs: Map<Seq<char>, ResourceDescriptor>, params: Json) -> Result<
    ResourceDescriptor,
    Error,
> {
    match port(inputs, "extent_from"@) {
        None => Err(Error::new(ErrorClass::Reference, E_ELLIPSE_INPUT, INPUT_REQUIRED)),
        Some(d) => match geometry_of(params) {
            Err(e) => Err(e),
            Ok(_) => Ok(ResourceDescriptor::Mask(mask_descriptor(d.extent()))),
        },
    }
}

/// What the operation makes.
pub open spec fn drawn<A: Arithmetic>(inputs: Map<Seq<char>, ResourceValue>, params: Json) -> Result<
    ValueView,
    Error,
> {
    match port_view(inputs, "extent_from"@) {
        None => Err(Error::new(ErrorClass::Reference, E_ELLIPSE_INPUT, INPUT_VALUE_REQUIRED)),
        Some(source) => match geometry_of(params) {
            Err(e) => Err(e),
            Ok(ellipse) => Ok(
                ValueView {
                    descriptor: ResourceDescriptor::Mask(
                        mask_descriptor(source.descriptor.extent()),
                    ),
                    channels: 1,
                    samples: rasterized::<A>(ellipse, source.descriptor.extent()),
                },
            ),
        },
    }
}

/// The range is that of coverage: from zero, of either sign, to one.
pub open spec fn coverage_range(range: ValidRange) -> bool {
    let ValidRange::Bounded { min, max } = range;
    rank(min) == 0 && max == ONE
}

/// Whether the range is that of coverage.
fn is_coverage_range(range: ValidRange) -> (r: bool)
    ensures
        r == coverage_range(range),
{
    match range {
        ValidRange::Bounded { min, max } => is_zero(min) && max == ONE,
    }
}

/// The outcomes that the operation reports for its outputs.
pub open spec fn outcomes(outputs: Map<Seq<char>, ResourceDescriptor>) -> Seq<AssertionResult> {
    match port(outputs, "mask"@) {
        Some(ResourceDescriptor::Mask(m)) => seq![
            AssertionResult::pass("produces_mask"),
            if coverage_range(m.range) {
                AssertionResult::pass("coverage_in_unit_range")
            } else {
                AssertionResult::fail(
                    "coverage_in_unit_range",
                    "mask range is not the coverage range [0, 1]",
                ).with(Detail::Range { range: m.range })
            },
        ],
        _ => seq![AssertionResult::fail("produces_mask", "no `mask` output produced")],
    }
}

impl Default for EllipseMask {
    /// The operation.
    fn default() -> (r: Self)
        ensures
            r == EllipseMask,
    {
        EllipseMask
    }
}

impl EllipseMask {
    /// The operation.
    pub fn new() -> (r: Self)
        ensures
            r == EllipseMask,
    {
        EllipseMask
    }

    /// The input ports and their kinds.
    pub fn declared_inputs(&self) -> (r: Vec<(&'static str, ResourceKind)>)
        ensures
            r@ == seq![("extent_from", ResourceKind::Image)],
    {
        vec![("extent_from", ResourceKind::Image)]
    }

    /// The output ports and their kinds.
    pub fn declared_outputs(&self) -> (r: Vec<(&'static str, ResourceKind)>)
        ensures
            r@ == seq![("mask", ResourceKind::Mask)],
    {
        vec![("mask", ResourceKind::Mask)]
    }

    /// What the operation produces of inputs like these.
    pub fn infer_outputs(
        &self,
        inputs: &Ports<ResourceDescriptor>,
        params: &serde_json::Value,
    ) -> (r: Result<Ports<ResourceDescriptor>, Error>)
        ensures
            gives_port(r, "mask"@, inferred(inputs@, json_of(*params))),
    {
        let extent: Extent = match inputs.get("extent_from") {
            None => {
                return Err(Error::new(ErrorClass::Reference, E_ELLIPSE_INPUT, INPUT_REQUIRED));
            },
            Some(d) => d.extent(),
        };
        match EllipseGeometry::resolve(params) {
            Err(e) => Err(e),
            Ok(_) => Ok(one_port("mask", ResourceDescriptor::Mask(mask_descriptor(extent)))),
        }
    }

    /// Which regions of the inputs the output needs: none of their pixels.
    pub fn required_inputs(
        &self,
        _requested_outputs: &Ports<Rect>,
        inputs: &Ports<ResourceDescriptor>,
        _params: &serde_json::Value,
    ) -> (r: Result<Ports<Rect>, Error>)
        ensures
            r matches Ok(regions) && regions@ == size_only(inputs@),
    {
        Ok(crate::gradient::extent_only_regions(inputs))
    }

    /// Whether the produced resource is a mask with the coverage range.
    pub fn validate_postconditions(
        &self,
        outputs: &Ports<ResourceDescriptor>,
        _params: &serde_json::Value,
    ) -> (r: Result<Vec<AssertionResult>, Error>)
        ensures
            r matches Ok(v) && v@ == outcomes(outputs@),
    {
        match outputs.get("mask") {
            Some(ResourceDescriptor::Mask(m)) => {
                let in_range: AssertionResult = if is_coverage_range(m.range) {
                    AssertionResult::pass("coverage_in_unit_range")
                } else {
                    AssertionResult::fail(
                        "coverage_in_unit_range",
                        "mask range is not the coverage range [0, 1]",
                    ).with(Detail::Range { range: m.range })
                };
                Ok(vec![AssertionResult::pass("produces_mask"), in_range])
            },
            _ => Ok(vec![AssertionResult::fail("produces_mask", "no `mask` output produced")]),
        }
    }

    /// Draw the mask.
    pub fn compute<A: Arithmetic>(
        &self,
        inputs: &Ports<ResourceValue>,
        params: &serde_json::Value,
    ) -> (r: Result<Ports<ResourceValue>, Error>)
        requires
            lawful::<A>(),
            port_view(inputs@, "extent_from"@) matches Some(source) ==> source.descriptor.extent().area()
                <= usize::MAX,
        ensures
            gives_value(r, "mask"@, drawn::<A>(inputs@, json_of(*params))),
    {
        let extent: Extent = match inputs.get("extent_from") {
            None => {
                return Err(
                    Error::new(ErrorClass::Reference, E_ELLIPSE_INPUT, INPUT_VALUE_REQUIRED),
                );
            },
            Some(source) => source.extent(),
        };
        match EllipseGeometry::resolve(params) {
            Err(e) => Err(e),
            Ok(ellipse) => {
                let samples: Vec<u32> = rasterize::<A>(&ellipse, extent);
                proof {
                    assert(extent.area() >= 0) by (nonlinear_arith)
                        requires
                            extent.area() == extent.width * extent.height,
                            extent.width >= 0,
                            extent.height >= 0,
                    ;
                }
                let value: Result<ResourceValue, usize> = ResourceValue::new(
                    ResourceDescriptor::Mask(mask_descriptor(extent)),
                    1,
                    samples,
                );
                Ok(one_port("mask", value.unwrap()))
            },
        }
    }
}

/// An accepted ellipse has finite numbers, radii above zero and no negative feather.
pub proof fn law_accepted_ellipse_is_proper(params: Json)
    ensures
        geometry_of(params) matches Ok(e) ==> {
            &&& finite(e.cx) && finite(e.cy)
            &&& is_radius(e.rx) && is_radius(e.ry)
            &&& finite(e.angle_rad)
            &&& finite(e.half_width_px) && at_most(ZERO, e.half_width_px)
        },
{
}

/// Without a feather coverage is one or zero, and a point on the boundary is covered.
pub proof fn law_hard_edge_is_half_open<A: Arithmetic>(sd: u64, half_width_px: u64)
    requires
        at_most(half_width_px, ZERO),
        !nan(sd),
    ensures
        feather_of::<A>(sd, half_width_px) == (if rank(sd) <= 0 {
            ONE
        } else {
            ZERO
        }),
{
}

/// Moving the centre and the point together, so that the arithmetic gives the same offset between
/// them, leaves the coverage as it is.
pub proof fn law_translation<A: Arithmetic>(
    ellipse: EllipseGeometry,
    moved: EllipseGeometry,
    x: u64,
    y: u64,
    moved_x: u64,
    moved_y: u64,
)
    requires
        moved == (EllipseGeometry { cx: moved.cx, cy: moved.cy, ..ellipse }),
        minus_of::<A>(moved_x, moved.cx) == minus_of::<A>(x, ellipse.cx),
        minus_of::<A>(moved_y, moved.cy) == minus_of::<A>(y, ellipse.cy),
    ensures
        moved.coverage_of::<A>(moved_x, moved_y) == ellipse.coverage_of::<A>(x, y),
{
}

/// The sum of two squares and the length of a vector do not depend on which coordinate comes first.
pub open spec fn coordinates_turn<A: Arithmetic>() -> bool {
    &&& forall|a: u64, b: u64|
        #[trigger] fused_of::<A>(a, a, times_of::<A>(b, b)) == fused_of::<A>(b, b, times_of::<A>(a, a))
    &&& forall|a: u64, b: u64| #[trigger] hypotenuse_of::<A>(a, b) == hypotenuse_of::<A>(b, a)
}

/// Swapping the radii swaps the local coordinates.
pub proof fn law_swapped_radii_swap_coordinates<A: Arithmetic>(ellipse: EllipseGeometry, u: u64, v: u64)
    requires
        coordinates_turn::<A>(),
    ensures
        (EllipseGeometry { rx: ellipse.ry, ry: ellipse.rx, ..ellipse }).local_coverage::<A>(v, u)
            == ellipse.local_coverage::<A>(u, v),
{
}

/// Coverage is a number from zero to one, at every distance, whatever the arithmetic.
pub proof fn law_feather_is_within_unit<A: Arithmetic>(sd: u64, half_width_px: u64)
    ensures
        !nan(feather_of::<A>(sd, half_width_px)),
        at_most(ZERO, feather_of::<A>(sd, half_width_px)),
        at_most(feather_of::<A>(sd, half_width_px), ONE),
{
    lemma_unit_ends();
}

/// Coverage is a number from zero to one at every point of every ellipse, whatever the arithmetic.
pub proof fn law_coverage_is_within_unit<A: Arithmetic>(ellipse: EllipseGeometry, x: u64, y: u64)
    ensures
        !nan(ellipse.coverage_of::<A>(x, y)),
        at_most(ZERO, ellipse.coverage_of::<A>(x, y)),
        at_most(ellipse.coverage_of::<A>(x, y), ONE),
{
    lemma_unit_ends();
    let (u, v) = ellipse.local_of::<A>(minus_of::<A>(x, ellipse.cx), minus_of::<A>(y, ellipse.cy));
    let nx = over_of::<A>(u, ellipse.rx);
    let ny = over_of::<A>(v, ellipse.ry);
    let f = root_of::<A>(fused_of::<A>(nx, nx, times_of::<A>(ny, ny)));
    let grad = hypotenuse_of::<A>(
        over_of::<A>(u, times_of::<A>(ellipse.rx, ellipse.rx)),
        over_of::<A>(v, times_of::<A>(ellipse.ry, ellipse.ry)),
    );
    law_feather_is_within_unit::<A>(
        over_of::<A>(times_of::<A>(minus_of::<A>(f, ONE), f), grad),
        ellipse.half_width_px,
    );
}

/// A mask holds samples from zero to one, where rounding a number of that range to a sample keeps it
/// there.
pub proof fn law_mask_is_within_unit<A: Arithmetic>(ellipse: EllipseGeometry, extent: Extent, i: int)
    requires
        0 <= i < rasterized::<A>(ellipse, extent).len(),
        forall|c: u64|
            at_most(ZERO, c) && at_most(c, ONE) ==> sample_at_most(SAMPLE_ZERO, #[trigger] narrow_of::<A>(c))
                && sample_at_most(narrow_of::<A>(c), SAMPLE_ONE),
    ensures
        sample_at_most(SAMPLE_ZERO, rasterized::<A>(ellipse, extent)[i]),
        sample_at_most(rasterized::<A>(ellipse, extent)[i], SAMPLE_ONE),
{
    law_coverage_is_within_unit::<A>(
        ellipse,
        center_of::<A>(i % extent.width as int),
        center_of::<A>(i / extent.width as int),
    );
}

/// Zero and one are numbers, zero the lesser.
proof fn lemma_unit_ends()
    ensures
        !nan(ZERO),
        !nan(ONE),
        rank(ZERO) == 0,
        rank(ONE) > 0,
{
}

/// A feather is pinned at both ends: full coverage up to its inner end, none from its outer end on.
pub proof fn law_feather_is_pinned<A: Arithmetic>(sd: u64, half_width_px: u64)
    requires
        less(ZERO, half_width_px),
    ensures
        at_most(sd, negated(half_width_px)) ==> feather_of::<A>(sd, half_width_px) == ONE,
        at_most(half_width_px, sd) ==> feather_of::<A>(sd, half_width_px) == ZERO,
{
}

/// Half a feather is half a coverage: at the boundary itself coverage is one half, where the
/// arithmetic takes a half of a number, and the products and differences of a few small ones, exactly.
pub proof fn law_feather_is_half_on_the_boundary<A: Arithmetic>(half_width_px: u64)
    requires
        less(ZERO, half_width_px),
        over_of::<A>(
            plus_of::<A>(ZERO, half_width_px),
            times_of::<A>(TWO, half_width_px),
        ) == HALF,
        times_of::<A>(times_of::<A>(HALF, HALF), fused_of::<A>(TWO, negated(HALF), THREE)) == HALF,
        minus_of::<A>(ONE, HALF) == HALF,
    ensures
        feather_of::<A>(ZERO, half_width_px) == HALF,
{
}

} // verus!
