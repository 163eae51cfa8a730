//! The guided filter: edge-preserving smoothing by a local linear model of a guide.
//!
//! Over every window the input is fitted by a line in the guide; a pixel's output averages the fits
//! of the windows that hold it. Windows are clipped to the plane.
use crate::arithmetic::{
    fused, fused_of, lawful, minus, minus_of, narrow, narrow_of, over, over_of, plus, plus_of,
    tally, tally_of, times, times_of, widen, widen_of, Arithmetic,
};
use crate::binary::{finite, is_finite, is_less, less, negate, negated, ZERO};
use crate::convolve::{channels_of, supported};
use crate::ir::{
    AssertionResult, Detail, Error, ErrorClass, Extent, Rect, ResourceDescriptor, ResourceKind,
};
use crate::json::{json_double, json_get, json_of, json_unsigned, Json};
use crate::lattice::{
    at, lemma_at_bounds, lemma_at_of, lemma_sample_of, plane_len, position, raster,
};
use crate::ports::{gives_port, gives_value, one_port, port, port_view, Ports};
use crate::value::{ResourceValue, ValueView};
use vstd::prelude::*;

verus! {

/// The operation's identifier.
pub const GUIDED_OP_ID: &'static str = "filter.guided@1";

/// An input was absent or of an unsupported kind.
pub const E_GUIDED_INPUT: &'static str = "E_GUIDED_INPUT";

/// A parameter was missing, malformed, or out of range.
pub const E_GUIDED_PARAM: &'static str = "E_GUIDED_PARAM";

/// The greatest window radius.
pub const RADIUS_MAX: u32 = 256;

pub const INPUT_REQUIRED: &'static str = "filter.guided requires a `input` resource";

pub const GUIDE_REQUIRED: &'static str = "filter.guided requires a `guide` resource";

pub const INPUT_WRONG: &'static str = "filter.guided `input` must be an Image or Field1 resource";

pub const GUIDE_WRONG: &'static str = "filter.guided `guide` must be an Image or Field1 resource";

pub const EXTENT_MISMATCH: &'static str = "filter.guided `input` and `guide` must share one extent";

pub const CHANNEL_MISMATCH: &'static str = "filter.guided `guide` must have the input's channels (per-channel) or 1 (broadcast)";

pub const RADIUS_REQUIRED: &'static str = "filter.guided requires a `radius` parameter";

pub const RADIUS_NOT_INTEGER: &'static str = "filter.guided `radius` must be a non-negative integer";

pub const RADIUS_TOO_LARGE: &'static str = "filter.guided `radius` does not fit in u32";

pub const RADIUS_ZERO: &'static str = "filter.guided `radius` must be >= 1 (a radius-0 window has no neighbourhood)";

pub const RADIUS_EXCEEDS: &'static str = "filter.guided `radius` exceeds the limit";

pub const EPSILON_REQUIRED: &'static str = "filter.guided requires an `epsilon` parameter";

pub const EPSILON_NOT_NUMBER: &'static str = "filter.guided `epsilon` must be a number";

pub const EPSILON_RANGE: &'static str = "filter.guided `epsilon` must be finite and non-negative";

/// A refusal for a parameter.
#[verifier::allow_in_spec]
pub fn param_error(class: ErrorClass, message: &'static str) -> Error
    returns
        (Error::new(class, E_GUIDED_PARAM, message)),
{
    Error::new(class, E_GUIDED_PARAM, message)
}

/// A refusal for an input.
#[verifier::allow_in_spec]
pub fn input_error(class: ErrorClass, message: &'static str) -> Error
    returns
        (Error::new(class, E_GUIDED_INPUT, message)),
{
    Error::new(class, E_GUIDED_INPUT, message)
}

/// A resolved request: the window radius, and the regularisation by its binary64 pattern.
#[derive(Debug, Clone, Copy, PartialEq, Eq, Structural)]
pub struct GuidedRequest {
    pub radius: u32,
    pub epsilon: u64,
}

/// The radius that the parameters give: at least one and within the limit.
pub open spec fn radius_of(params: Json) -> Result<u32, Error> {
    match params.get("radius"@) {
        None => Err(param_error(ErrorClass::Schema, RADIUS_REQUIRED)),
        Some(v) => match v.as_unsigned() {
            None => Err(param_error(ErrorClass::Schema, RADIUS_NOT_INTEGER).about(Detail::Given)),
            Some(n) => if n > u32::MAX {
                Err(param_error(ErrorClass::Schema, RADIUS_TOO_LARGE).about(Detail::Whole { value: n }))
            } else if n == 0 {
                Err(param_error(ErrorClass::Schema, RADIUS_ZERO))
            } else if n > RADIUS_MAX {
                Err(param_error(ErrorClass::Policy, RADIUS_EXCEEDS).about(
                    Detail::WholeBeyond { value: n, greatest: RADIUS_MAX as u64 },
                ))
            } else {
                Ok(n as u32)
            },
        },
    }
}

/// The regularisation that the parameters give: finite and not negative.
pub open spec fn epsilon_of(params: Json) -> Result<u64, Error> {
    match params.get("epsilon"@) {
        None => Err(param_error(ErrorClass::Schema, EPSILON_REQUIRED)),
        Some(v) => match v.as_double() {
            None => Err(param_error(ErrorClass::Schema, EPSILON_NOT_NUMBER).about(Detail::Given)),
            Some(bits) => if !finite(bits) || less(bits, ZERO) {
                Err(param_error(ErrorClass::Schema, EPSILON_RANGE).about(Detail::Number { value: bits }))
            } else {
                Ok(bits)
            },
        },
    }
}

/// The request that the parameters make.
pub open spec fn request_of(params: Json) -> Result<GuidedRequest, Error> {
    match radius_of(params) {
        Err(e) => Err(e),
        Ok(radius) => match epsilon_of(params) {
            Err(e) => Err(e),
            Ok(epsilon) => Ok(GuidedRequest { radius, epsilon }),
        },
    }
}

/// Read the radius.
pub fn radius_param(params: &serde_json::Value) -> (r: Result<u32, Error>)
    ensures
        r == radius_of(json_of(*params)),
{
    match json_get(params, "radius") {
        None => Err(param_error(ErrorClass::Schema, RADIUS_REQUIRED)),
        Some(value) => match json_unsigned(value) {
            None => Err(param_error(ErrorClass::Schema, RADIUS_NOT_INTEGER).about(Detail::Given)),
            Some(n) => if n > u32::MAX as u64 {
                Err(param_error(ErrorClass::Schema, RADIUS_TOO_LARGE).about(Detail::Whole { value: n }))
            } else if n == 0 {
                Err(param_error(ErrorClass::Schema, RADIUS_ZERO))
            } else if n > RADIUS_MAX as u64 {
                Err(param_error(ErrorClass::Policy, RADIUS_EXCEEDS).about(
                    Detail::WholeBeyond { value: n, greatest: RADIUS_MAX as u64 },
                ))
            } else {
                Ok(n as u32)
            },
        },
    }
}

/// Read the regularisation.
pub fn epsilon_param(params: &serde_json::Value) -> (r: Result<u64, Error>)
    ensures
        r == epsilon_of(json_of(*params)),
{
    match json_get(params, "epsilon") {
        None => Err(param_error(ErrorClass::Schema, EPSILON_REQUIRED)),
        Some(value) => match json_double(value) {
            None => Err(param_error(ErrorClass::Schema, EPSILON_NOT_NUMBER).about(Detail::Given)),
            Some(bits) => if !is_finite(bits) || is_less(bits, ZERO) {
                Err(param_error(ErrorClass::Schema, EPSILON_RANGE).about(Detail::Number { value: bits }))
            } else {
                Ok(bits)
            },
        },
    }
}

impl GuidedRequest {
    /// Read and check the parameters.
    pub fn resolve(params: &serde_json::Value) -> (r: Result<GuidedRequest, Error>)
        ensures
            r == request_of(json_of(*params)),
            r matches Ok(request) ==> 1 <= request.radius <= RADIUS_MAX,
    {
        match radius_param(params) {
            Err(e) => Err(e),
            Ok(radius) => match epsilon_param(params) {
                Err(e) => Err(e),
                Ok(epsilon) => Ok(GuidedRequest { radius, epsilon }),
            },
        }
    }
}

/// The size and channels of a supported resource.
pub open spec fn shape_of(d: ResourceDescriptor, wrong: Error) -> Result<(Extent, u32), Error> {
    if supported(d) {
        Ok((d.extent(), channels_of(d)))
    } else {
        Err(wrong)
    }
}

/// The size and channels of the input where the guide goes with it: one size, and as many channels
/// or a single one. The last member says whether a single one serves several.
pub open spec fn pair_of(input: ResourceDescriptor, guide: ResourceDescriptor) -> Result<
    (Extent, u32, bool),
    Error,
> {
    match shape_of(input, input_error(ErrorClass::Type, INPUT_WRONG)) {
        Err(e) => Err(e),
        Ok((extent, channels)) => match shape_of(guide, input_error(ErrorClass::Type, GUIDE_WRONG)) {
            Err(e) => Err(e),
            Ok((guide_extent, guide_channels)) => if extent != guide_extent {
                Err(input_error(ErrorClass::Semantic, EXTENT_MISMATCH).about(
            Detail::Extents { first: extent, second: guide_extent },
        ))
            } else if guide_channels != channels && guide_channels != 1 {
                Err(input_error(ErrorClass::Semantic, CHANNEL_MISMATCH).about(
            Detail::Planes {
                first: extent,
                first_channels: channels,
                second: guide_extent,
                second_channels: guide_channels,
            },
        ))
            } else {
                Ok((extent, channels, guide_channels == 1 && channels != 1))
            },
        },
    }
}

/// Take the size and channels of a supported resource.
pub fn extent_channels(d: ResourceDescriptor, wrong: Error) -> (r: Result<(Extent, u32), Error>)
    ensures
        r == shape_of(d, wrong),
{
    match d {
        ResourceDescriptor::Image(i) => Ok((i.extent, i.layout.channel_count())),
        ResourceDescriptor::Field1(f) => Ok((f.extent, 1)),
        _ => Err(wrong),
    }
}

/// Check that the guide goes with the input.
pub fn validate_pair(input: ResourceDescriptor, guide: ResourceDescriptor) -> (r: Result<
    (Extent, u32, bool),
    Error,
>)
    ensures
        r == pair_of(input, guide),
{
    let (extent, channels): (Extent, u32) = match extent_channels(
        input,
        input_error(ErrorClass::Type, INPUT_WRONG),
    ) {
        Err(e) => {
            return Err(e);
        },
        Ok(shape) => shape,
    };
    let (guide_extent, guide_channels): (Extent, u32) = match extent_channels(
        guide,
        input_error(ErrorClass::Type, GUIDE_WRONG),
    ) {
        Err(e) => {
            return Err(e);
        },
        Ok(shape) => shape,
    };
    if extent != guide_extent {
        return Err(input_error(ErrorClass::Semantic, EXTENT_MISMATCH).about(
            Detail::Extents { first: extent, second: guide_extent },
        ));
    }
    if guide_channels != channels && guide_channels != 1 {
        return Err(input_error(ErrorClass::Semantic, CHANNEL_MISMATCH).about(
            Detail::Planes {
                first: extent,
                first_channels: channels,
                second: guide_extent,
                second_channels: guide_channels,
            },
        ));
    }
    Ok((extent, channels, guide_channels == 1 && channels != 1))
}

/// The sum of the first `x` numbers of row `y`, from left to right.
pub open spec fn row_sum<A: Arithmetic>(plane: Seq<u64>, w: int, y: int, x: nat) -> u64
    decreases x,
{
    if x == 0 {
        ZERO
    } else {
        plus_of::<A>(row_sum::<A>(plane, w, y, (x - 1) as nat), plane[at(x - 1, y, w)])
    }
}

/// The sum of the first `x` columns of the first `y` rows, row by row.
pub open spec fn area_sum<A: Arithmetic>(plane: Seq<u64>, w: int, y: nat, x: nat) -> u64
    decreases y,
{
    if y == 0 || x == 0 {
        ZERO
    } else {
        plus_of::<A>(
            area_sum::<A>(plane, w, (y - 1) as nat, x),
            row_sum::<A>(plane, w, y - 1, x),
        )
    }
}

/// The first index of the window of radius `r` about `i`, clipped.
pub open spec fn window_start(i: int, r: int) -> int {
    if i < r {
        0
    } else {
        i - r
    }
}

/// The end of the window of radius `r` about `i`, clipped to `n`.
pub open spec fn window_end(i: int, r: int, n: int) -> int {
    if i + r + 1 > n {
        n
    } else {
        i + r + 1
    }
}

/// The mean over the clipped window about a pixel, from four corner sums.
pub open spec fn window_mean<A: Arithmetic>(plane: Seq<u64>, w: int, h: int, r: int, x: int, y: int) -> u64 {
    let x0 = window_start(x, r);
    let x1 = window_end(x, r, w);
    let y0 = window_start(y, r);
    let y1 = window_end(y, r, h);
    let sum = plus_of::<A>(
        minus_of::<A>(
            minus_of::<A>(
                area_sum::<A>(plane, w, y1 as nat, x1 as nat),
                area_sum::<A>(plane, w, y0 as nat, x1 as nat),
            ),
            area_sum::<A>(plane, w, y1 as nat, x0 as nat),
        ),
        area_sum::<A>(plane, w, y0 as nat, x0 as nat),
    );
    over_of::<A>(sum, tally_of::<A>(((x1 - x0) * (y1 - y0)) as u64))
}

/// The mean over the clipped window about every pixel.
pub open spec fn window_means<A: Arithmetic>(plane: Seq<u64>, w: int, h: int, r: int) -> Seq<u64> {
    Seq::new((w * h) as nat, |p: int| window_mean::<A>(plane, w, h, r, p % w, p / w))
}

/// `rows` are the corner sums of the first rows, without the zero border.
spec fn is_table<A: Arithmetic>(rows: Seq<Vec<u64>>, plane: Seq<u64>, w: int) -> bool {
    forall|y: int|
        0 <= y < rows.len() ==> (#[trigger] rows[y])@.len() == w && forall|x: int|
            0 <= x < w ==> #[trigger] rows[y]@[x] == area_sum::<A>(plane, w, (y + 1) as nat, (x + 1) as nat)
}

/// Build the table of corner sums.
fn corner_sums<A: Arithmetic>(plane: &Vec<u64>, w: usize, h: usize) -> (rows: Vec<Vec<u64>>)
    requires
        lawful::<A>(),
        plane@.len() == w * h,
    ensures
        rows@.len() == h,
        is_table::<A>(rows@, plane@, w as int),
{
    let held: usize = plane.len();
    let mut rows: Vec<Vec<u64>> = Vec::new();
    let mut y: usize = 0;
    while y < h
        invariant
            lawful::<A>(),
            plane@.len() == w * h,
            held == plane@.len(),
            y <= h,
            rows@.len() == y,
            is_table::<A>(rows@, plane@, w as int),
        decreases h - y,
    {
        let mut row: Vec<u64> = Vec::new();
        let mut sum: u64 = ZERO;
        let mut x: usize = 0;
        while x < w
            invariant
                lawful::<A>(),
                plane@.len() == w * h,
                held == plane@.len(),
                y < h,
                x <= w,
                rows@.len() == y,
                is_table::<A>(rows@, plane@, w as int),
                sum == row_sum::<A>(plane@, w as int, y as int, x as nat),
                row@.len() == x,
                forall|i: int|
                    0 <= i < x ==> #[trigger] row@[i] == area_sum::<A>(
                        plane@,
                        w as int,
                        (y + 1) as nat,
                        (i + 1) as nat,
                    ),
            decreases w - x,
        {
            proof {
                lemma_at_bounds(x as int, y as int, w as int, h as int);
            }
            let index: usize = position(x, y, w);
            sum = plus::<A>(sum, plane[index]);
            let above: u64 = if y == 0 {
                ZERO
            } else {
                assert(rows@[y - 1]@.len() == w);
                assert(rows@[y - 1]@[x as int] == area_sum::<A>(
                    plane@,
                    w as int,
                    y as nat,
                    (x + 1) as nat,
                ));
                rows[y - 1][x]
            };
            row.push(plus::<A>(above, sum));
            assert(row@[x as int] == area_sum::<A>(
                plane@,
                w as int,
                (y + 1) as nat,
                (x + 1) as nat,
            )) by {
                assert(above == area_sum::<A>(plane@, w as int, y as nat, (x + 1) as nat));
                assert(((y + 1) as nat - 1) as nat == y as nat);
                assert((y + 1) as nat - 1 == y);
            }
            x = x + 1;
        }
        rows.push(row);
        y = y + 1;
    }
    rows
}

/// Read a corner sum.
fn corner<A: Arithmetic>(rows: &Vec<Vec<u64>>, plane: &Vec<u64>, w: usize, h: usize, y: usize, x: usize) -> (r: u64)
    requires
        rows@.len() == h,
        is_table::<A>(rows@, plane@, w as int),
        y <= h,
        x <= w,
    ensures
        r == area_sum::<A>(plane@, w as int, y as nat, x as nat),
{
    if y == 0 || x == 0 {
        ZERO
    } else {
        rows[y - 1][x - 1]
    }
}

/// The mean over the clipped window of radius `r` about every pixel of a plane, in time that does
/// not depend on the radius.
pub fn box_mean<A: Arithmetic>(plane: &Vec<u64>, w: usize, h: usize, r: u32) -> (out: Vec<u64>)
    requires
        lawful::<A>(),
        plane@.len() == w * h,
    ensures
        out@ == window_means::<A>(plane@, w as int, h as int, r as int),
{
    let len: usize = plane.len();
    let ri: usize = r as usize;
    let rows: Vec<Vec<u64>> = corner_sums::<A>(plane, w, h);
    let ghost all = window_means::<A>(plane@, w as int, h as int, r as int);
    let mut out: Vec<u64> = Vec::new();
    let mut p: usize = 0;
    while p < len
        invariant
            lawful::<A>(),
            plane@.len() == w * h,
            len == plane@.len(),
            ri == r,
            rows@.len() == h,
            is_table::<A>(rows@, plane@, w as int),
            p <= len,
            all == window_means::<A>(plane@, w as int, h as int, r as int),
            all.len() == len,
            out@ == all.take(p as int),
        decreases len - p,
    {
        proof {
            lemma_at_of(p as int, w as int, h as int);
        }
        let x: usize = p % w;
        let y: usize = p / w;
        let x0: usize = if x < ri {
            0
        } else {
            x - ri
        };
        let x1: usize = if ri < w - x {
            x + ri + 1
        } else {
            w
        };
        let y0: usize = if y < ri {
            0
        } else {
            y - ri
        };
        let y1: usize = if ri < h - y {
            y + ri + 1
        } else {
            h
        };
        let sum: u64 = plus::<A>(
            minus::<A>(
                minus::<A>(
                    corner::<A>(&rows, plane, w, h, y1, x1),
                    corner::<A>(&rows, plane, w, h, y0, x1),
                ),
                corner::<A>(&rows, plane, w, h, y1, x0),
            ),
            corner::<A>(&rows, plane, w, h, y0, x0),
        );
        let columns: u64 = (x1 - x0) as u64;
        let lines: u64 = (y1 - y0) as u64;
        assert(0 <= columns * lines <= w * h) by (nonlinear_arith)
            requires
                0 <= columns <= w,
                0 <= lines <= h,
        ;
        let area: u64 = columns * lines;
        out.push(over::<A>(sum, tally::<A>(area)));
        p = p + 1;
    }
    out
}

/// The slope of a window's fit: covariance over regularised variance, zero where that is not above
/// zero.
pub open spec fn slope_of<A: Arithmetic>(
    mean_guide: u64,
    mean_input: u64,
    mean_prod: u64,
    mean_square: u64,
    epsilon: u64,
) -> u64 {
    let cov = fused_of::<A>(mean_guide, negated(mean_input), mean_prod);
    let var = fused_of::<A>(mean_guide, negated(mean_guide), mean_square);
    let denom = plus_of::<A>(var, epsilon);
    if less(ZERO, denom) {
        over_of::<A>(cov, denom)
    } else {
        ZERO
    }
}

/// The intercept of a window's fit.
pub open spec fn intercept_of<A: Arithmetic>(slope: u64, mean_guide: u64, mean_input: u64) -> u64 {
    fused_of::<A>(slope, negated(mean_guide), mean_input)
}

/// The products of two planes.
pub open spec fn products<A: Arithmetic>(a: Seq<u64>, b: Seq<u64>) -> Seq<u64> {
    Seq::new(a.len(), |i: int| times_of::<A>(a[i], b[i]))
}

/// The slopes of the windows about all pixels.
pub open spec fn slopes<A: Arithmetic>(guide: Seq<u64>, input: Seq<u64>, w: int, h: int, request: GuidedRequest) -> Seq<
    u64,
> {
    let r = request.radius as int;
    let mg = window_means::<A>(guide, w, h, r);
    let mi = window_means::<A>(input, w, h, r);
    let mp = window_means::<A>(products::<A>(guide, input), w, h, r);
    let ms = window_means::<A>(products::<A>(guide, guide), w, h, r);
    Seq::new(
        (w * h) as nat,
        |i: int| slope_of::<A>(mg[i], mi[i], mp[i], ms[i], request.epsilon),
    )
}

/// The intercepts of the windows about all pixels.
pub open spec fn intercepts<A: Arithmetic>(
    guide: Seq<u64>,
    input: Seq<u64>,
    w: int,
    h: int,
    request: GuidedRequest,
) -> Seq<u64> {
    let r = request.radius as int;
    let mg = window_means::<A>(guide, w, h, r);
    let mi = window_means::<A>(input, w, h, r);
    let a = slopes::<A>(guide, input, w, h, request);
    Seq::new((w * h) as nat, |i: int| intercept_of::<A>(a[i], mg[i], mi[i]))
}

/// One filtered channel: at every pixel the mean slope times the guide plus the mean intercept.
pub open spec fn guided_plane<A: Arithmetic>(
    guide: Seq<u64>,
    input: Seq<u64>,
    w: int,
    h: int,
    request: GuidedRequest,
) -> Seq<u64> {
    let r = request.radius as int;
    let ma = window_means::<A>(slopes::<A>(guide, input, w, h, request), w, h, r);
    let mb = window_means::<A>(intercepts::<A>(guide, input, w, h, request), w, h, r);
    Seq::new((w * h) as nat, |i: int| fused_of::<A>(ma[i], guide[i], mb[i]))
}

/// Multiply two planes.
fn multiply<A: Arithmetic>(a: &Vec<u64>, b: &Vec<u64>) -> (out: Vec<u64>)
    requires
        lawful::<A>(),
        a@.len() == b@.len(),
    ensures
        out@ == products::<A>(a@, b@),
{
    let mut out: Vec<u64> = Vec::new();
    let mut i: usize = 0;
    while i < a.len()
        invariant
            lawful::<A>(),
            a@.len() == b@.len(),
            i <= a@.len(),
            out@.len() == i,
            forall|j: int| 0 <= j < i ==> #[trigger] out@[j] == times_of::<A>(a@[j], b@[j]),
        decreases a@.len() - i,
    {
        out.push(times::<A>(a[i], b[i]));
        i = i + 1;
    }
    out
}

/// Filter one channel.
pub fn guided_channel<A: Arithmetic>(
    guide: &Vec<u64>,
    input: &Vec<u64>,
    w: usize,
    h: usize,
    request: GuidedRequest,
) -> (out: Vec<u64>)
    requires
        lawful::<A>(),
        guide@.len() == w * h,
        input@.len() == w * h,
        request.radius <= RADIUS_MAX,
    ensures
        out@ == guided_plane::<A>(guide@, input@, w as int, h as int, request),
{
    let r: u32 = request.radius;
    let len: usize = guide.len();
    let mean_guide: Vec<u64> = box_mean::<A>(guide, w, h, r);
    let mean_input: Vec<u64> = box_mean::<A>(input, w, h, r);
    let prod: Vec<u64> = multiply::<A>(guide, input);
    let mean_prod: Vec<u64> = box_mean::<A>(&prod, w, h, r);
    let squares: Vec<u64> = multiply::<A>(guide, guide);
    let mean_square: Vec<u64> = box_mean::<A>(&squares, w, h, r);
    let mut coef_a: Vec<u64> = Vec::new();
    let mut coef_b: Vec<u64> = Vec::new();
    let mut p: usize = 0;
    while p < len
        invariant
            lawful::<A>(),
            p <= len,
            mean_guide@.len() == len,
            mean_input@.len() == len,
            mean_prod@.len() == len,
            mean_square@.len() == len,
            coef_a@.len() == p,
            coef_b@.len() == p,
            forall|i: int|
                0 <= i < p ==> #[trigger] coef_a@[i] == slope_of::<A>(
                    mean_guide@[i],
                    mean_input@[i],
                    mean_prod@[i],
                    mean_square@[i],
                    request.epsilon,
                ),
            forall|i: int|
                0 <= i < p ==> #[trigger] coef_b@[i] == intercept_of::<A>(
                    coef_a@[i],
                    mean_guide@[i],
                    mean_input@[i],
                ),
        decreases len - p,
    {
        let cov: u64 = fused::<A>(mean_guide[p], negate(mean_input[p]), mean_prod[p]);
        let var: u64 = fused::<A>(mean_guide[p], negate(mean_guide[p]), mean_square[p]);
        let denom: u64 = plus::<A>(var, request.epsilon);
        let slope: u64 = if is_less(ZERO, denom) {
            over::<A>(cov, denom)
        } else {
            ZERO
        };
        coef_a.push(slope);
        coef_b.push(fused::<A>(slope, negate(mean_guide[p]), mean_input[p]));
        p = p + 1;
    }
    assert(coef_a@ =~= slopes::<A>(guide@, input@, w as int, h as int, request));
    assert(coef_b@ =~= intercepts::<A>(guide@, input@, w as int, h as int, request));
    let mean_a: Vec<u64> = box_mean::<A>(&coef_a, w, h, r);
    let mean_b: Vec<u64> = box_mean::<A>(&coef_b, w, h, r);
    let mut out: Vec<u64> = Vec::new();
    let mut i: usize = 0;
    while i < len
        invariant
            lawful::<A>(),
            i <= len,
            guide@.len() == len,
            mean_a@.len() == len,
            mean_b@.len() == len,
            out@.len() == i,
            forall|j: int|
                0 <= j < i ==> #[trigger] out@[j] == fused_of::<A>(mean_a@[j], guide@[j], mean_b@[j]),
        decreases len - i,
    {
        out.push(fused::<A>(mean_a[i], guide[i], mean_b[i]));
        i = i + 1;
    }
    assert(out@ =~= guided_plane::<A>(guide@, input@, w as int, h as int, request));
    out
}

/// Channel `c` of an interleaved plane of `n` pixels, taken wide.
pub open spec fn channel_of<A: Arithmetic>(samples: Seq<u32>, n: int, channels: int, c: int) -> Seq<u64> {
    Seq::new(n as nat, |i: int| widen_of::<A>(samples[at(c, i, channels)]))
}

/// Take a channel of an interleaved plane.
pub fn extract<A: Arithmetic>(samples: &Vec<u32>, n: usize, channels: usize, c: usize) -> (plane: Vec<u64>)
    requires
        lawful::<A>(),
        samples@.len() >= n * channels,
        c < channels,
    ensures
        plane@ == channel_of::<A>(samples@, n as int, channels as int, c as int),
{
    let held: usize = samples.len();
    let mut plane: Vec<u64> = Vec::new();
    let mut i: usize = 0;
    while i < n
        invariant
            lawful::<A>(),
            samples@.len() >= n * channels,
            held == samples@.len(),
            c < channels,
            i <= n,
            plane@.len() == i,
            forall|j: int|
                0 <= j < i ==> #[trigger] plane@[j] == widen_of::<A>(
                    samples@[at(c as int, j, channels as int)],
                ),
        decreases n - i,
    {
        proof {
            lemma_at_bounds(c as int, i as int, channels as int, n as int);
            assert(channels * n == n * channels) by (nonlinear_arith);
        }
        let index: usize = position(c, i, channels);
        plane.push(widen::<A>(samples[index]));
        i = i + 1;
    }
    assert(plane@ =~= channel_of::<A>(samples@, n as int, channels as int, c as int));
    plane
}

/// The guide channel that serves input channel `channel`.
pub open spec fn guide_index(guide_channels: int, channel: int) -> int {
    if guide_channels == 1 {
        0
    } else {
        channel
    }
}

/// One filtered channel of an interleaved plane.
pub open spec fn filtered_channel<A: Arithmetic>(
    input: Seq<u32>,
    guide: Seq<u32>,
    extent: Extent,
    in_channels: int,
    guide_channels: int,
    request: GuidedRequest,
    ch: int,
) -> Seq<u64> {
    guided_plane::<A>(
        channel_of::<A>(guide, extent.area(), guide_channels, guide_index(guide_channels, ch)),
        channel_of::<A>(input, extent.area(), in_channels, ch),
        extent.width as int,
        extent.height as int,
        request,
    )
}

/// The filtered plane: every channel under its own guide channel, or under the only one.
pub open spec fn guided<A: Arithmetic>(
    input: Seq<u32>,
    guide: Seq<u32>,
    extent: Extent,
    in_channels: int,
    guide_channels: int,
    request: GuidedRequest,
) -> Seq<u32> {
    raster(
        extent.width as int,
        extent.height as int,
        in_channels,
        |x: int, y: int, ch: int|
            narrow_of::<A>(
                filtered_channel::<A>(
                    input,
                    guide,
                    extent,
                    in_channels,
                    guide_channels,
                    request,
                    ch,
                )[at(x, y, extent.width as int)],
            ),
    )
}

/// Interleave planes of one size, narrowing each number.
fn interleave<A: Arithmetic>(planes: &Vec<Vec<u64>>, w: usize, h: usize, c: usize, count: usize) -> (out: Vec<u32>)
    requires
        lawful::<A>(),
        planes@.len() == c,
        forall|j: int| 0 <= j < c ==> (#[trigger] planes@[j])@.len() == w * h,
        count == w * h * c,
    ensures
        out@ == raster(
            w as int,
            h as int,
            c as int,
            |x: int, y: int, ch: int| narrow_of::<A>(planes@[ch]@[at(x, y, w as int)]),
        ),
{
    let ghost all = raster(
        w as int,
        h as int,
        c as int,
        |x: int, y: int, ch: int| narrow_of::<A>(planes@[ch]@[at(x, y, w as int)]),
    );
    let mut out: Vec<u32> = Vec::new();
    let mut i: usize = 0;
    while i < count
        invariant
            lawful::<A>(),
            planes@.len() == c,
            forall|j: int| 0 <= j < c ==> (#[trigger] planes@[j])@.len() == w * h,
            count == w * h * c,
            all == raster(
                w as int,
                h as int,
                c as int,
                |x: int, y: int, ch: int| narrow_of::<A>(planes@[ch]@[at(x, y, w as int)]),
            ),
            all.len() == count,
            i <= count,
            out@ == all.take(i as int),
        decreases count - i,
    {
        proof {
            lemma_sample_of(i as int, w as int, h as int, c as int);
            lemma_at_of(i as int / c as int, w as int, h as int);
        }
        let ch: usize = i % c;
        let p: usize = i / c;
        out.push(narrow::<A>(planes[ch][p]));
        i = i + 1;
    }
    out
}

/// Filter an interleaved plane.
pub fn guided_filter<A: Arithmetic>(
    input: &Vec<u32>,
    guide: &Vec<u32>,
    extent: Extent,
    in_channels: u32,
    guide_channels: u32,
    request: GuidedRequest,
) -> (out: Vec<u32>)
    requires
        lawful::<A>(),
        input@.len() >= extent.area() * in_channels,
        guide@.len() >= extent.area() * guide_channels,
        guide_channels == 1 || guide_channels >= in_channels,
        in_channels >= 1,
        request.radius <= RADIUS_MAX,
    ensures
        out@ == guided::<A>(
            input@,
            guide@,
            extent,
            in_channels as int,
            guide_channels as int,
            request,
        ),
{
    let w: usize = extent.width as usize;
    let h: usize = extent.height as usize;
    let in_ch: usize = in_channels as usize;
    let guide_ch: usize = guide_channels as usize;
    let held: usize = input.len();
    proof {
        assert(0 <= w * h <= w * h * in_ch) by (nonlinear_arith)
            requires
                w >= 0,
                h >= 0,
                in_ch >= 1,
        ;
    }
    let len: usize = w * h;
    let count: usize = plane_len(w, h, in_ch);
    let mut planes: Vec<Vec<u64>> = Vec::new();
    let mut c: usize = 0;
    while c < in_ch
        invariant
            lawful::<A>(),
            input@.len() >= len * in_ch,
            guide@.len() >= len * guide_ch,
            guide_ch == 1 || guide_ch >= in_ch,
            request.radius <= RADIUS_MAX,
            w == extent.width,
            h == extent.height,
            in_ch == in_channels,
            guide_ch == guide_channels,
            len == w * h,
            c <= in_ch,
            planes@.len() == c,
            forall|j: int|
                0 <= j < c ==> (#[trigger] planes@[j])@ == filtered_channel::<A>(
                    input@,
                    guide@,
                    extent,
                    in_ch as int,
                    guide_ch as int,
                    request,
                    j,
                ),
        decreases in_ch - c,
    {
        let g: usize = if guide_ch == 1 {
            0
        } else {
            c
        };
        let input_plane: Vec<u64> = extract::<A>(input, len, in_ch, c);
        let guide_plane: Vec<u64> = extract::<A>(guide, len, guide_ch, g);
        planes.push(guided_channel::<A>(&guide_plane, &input_plane, w, h, request));
        c = c + 1;
    }
    let out: Vec<u32> = interleave::<A>(&planes, w, h, in_ch, count);
    proof {
        let all = guided::<A>(
            input@,
            guide@,
            extent,
            in_channels as int,
            guide_channels as int,
            request,
        );
        assert forall|i: int| 0 <= i < all.len() implies #[trigger] out@[i] == all[i] by {
            lemma_sample_of(i, w as int, h as int, in_ch as int);
            assert(planes@[i % (in_ch as int)]@ == filtered_channel::<A>(
                input@,
                guide@,
                extent,
                in_ch as int,
                guide_ch as int,
                request,
                i % (in_ch as int),
            ));
        }
    }
    out
}

/// The operation.
#[derive(Debug, Clone, Copy)]
pub struct Guided;

/// What the operation produces: the input's own descriptor.
pub open spec fn inferred(inputs: Map<Seq<char>, ResourceDescriptor>, params: Json) -> Result<
    ResourceDescriptor,
    Error,
> {
    match (port(inputs, "input"@), port(inputs, "guide"@)) {
        (None, _) => Err(input_error(ErrorClass::Reference, INPUT_REQUIRED)),
        (Some(_), None) => Err(input_error(ErrorClass::Reference, GUIDE_REQUIRED)),
        (Some(input), Some(guide)) => match pair_of(input, guide) {
            Err(e) => Err(e),
            Ok(_) => match request_of(params) {
                Err(e) => Err(e),
                Ok(_) => Ok(input),
            },
        },
    }
}

/// A region dilated by twice the radius, kept inside the plane.
pub open spec fn footprint(region: Rect, radius: u32, extent: Extent) -> Rect {
    let halo = radius * 2;
    extent.clip(region.x0 - halo, region.y0 - halo, region.x1 + halo, region.y1 + halo)
}

/// The regions that the requested output needs: the same of both inputs.
pub open spec fn needed(
    requested: Map<Seq<char>, Rect>,
    inputs: Map<Seq<char>, ResourceDescriptor>,
    params: Json,
) -> Result<Map<Seq<char>, Rect>, Error> {
    match (port(inputs, "input"@), port(inputs, "guide"@)) {
        (None, _) => Err(input_error(ErrorClass::Reference, INPUT_REQUIRED)),
        (Some(_), None) => Err(input_error(ErrorClass::Reference, GUIDE_REQUIRED)),
        (Some(input), Some(guide)) => match pair_of(input, guide) {
            Err(e) => Err(e),
            Ok((extent, _, _)) => match request_of(params) {
                Err(e) => Err(e),
                Ok(request) => Ok(
                    match port(requested, "output"@) {
                        None => Map::empty(),
                        Some(region) => Map::empty().insert(
                            "input"@,
                            footprint(region, request.radius, extent),
                        ).insert("guide"@, footprint(region, request.radius, extent)),
                    },
                ),
            },
        },
    }
}

/// The samples of both inputs are as many as the filter reads.
pub open spec fn inputs_readable(inputs: Map<Seq<char>, ResourceValue>) -> bool {
    match (port_view(inputs, "input"@), port_view(inputs, "guide"@)) {
        (Some(input), Some(guide)) => pair_of(input.descriptor, guide.descriptor) matches Ok((
            extent,
            channels,
            _,
        )) ==> {
            &&& input.channels >= channels
            &&& guide.channels == 1 || guide.channels >= channels
        },
        _ => true,
    }
}

/// What the operation makes of its inputs.
pub open spec fn guided_value<A: Arithmetic>(inputs: Map<Seq<char>, ResourceValue>, params: Json) -> Result<
    ValueView,
    Error,
> {
    match (port_view(inputs, "input"@), port_view(inputs, "guide"@)) {
        (None, _) => Err(input_error(ErrorClass::Reference, INPUT_REQUIRED)),
        (Some(_), None) => Err(input_error(ErrorClass::Reference, GUIDE_REQUIRED)),
        (Some(input), Some(guide)) => match pair_of(input.descriptor, guide.descriptor) {
            Err(e) => Err(e),
            Ok((extent, channels, _)) => match request_of(params) {
                Err(e) => Err(e),
                Ok(request) => Ok(
                    ValueView {
                        descriptor: input.descriptor,
                        channels,
                        samples: guided::<A>(
                            input.samples,
                            guide.samples,
                            extent,
                            channels as int,
                            guide.channels as int,
                            request,
                        ),
                    },
                ),
            },
        },
    }
}

impl Default for Guided {
    /// The operation.
    fn default() -> (r: Self)
        ensures
            r == Guided,
    {
        Guided
    }
}

impl Guided {
    /// The operation.
    pub fn new() -> (r: Self)
        ensures
            r == Guided,
    {
        Guided
    }

    /// The input ports and their kinds.
    pub fn declared_inputs(&self) -> (r: Vec<(&'static str, ResourceKind)>)
        ensures
            r@ == seq![("input", ResourceKind::Image), ("guide", ResourceKind::Image)],
    {
        vec![("input", ResourceKind::Image), ("guide", ResourceKind::Image)]
    }

    /// The output ports and their kinds.
    pub fn declared_outputs(&self) -> (r: Vec<(&'static str, ResourceKind)>)
        ensures
            r@ == seq![("output", ResourceKind::Image)],
    {
        vec![("output", ResourceKind::Image)]
    }

    /// What the operation produces of inputs like these.
    pub fn infer_outputs(
        &self,
        inputs: &Ports<ResourceDescriptor>,
        params: &serde_json::Value,
    ) -> (r: Result<Ports<ResourceDescriptor>, Error>)
        ensures
            gives_port(r, "output"@, inferred(inputs@, json_of(*params))),
    {
        let input: ResourceDescriptor = match inputs.get("input") {
            None => {
                return Err(input_error(ErrorClass::Reference, INPUT_REQUIRED));
            },
            Some(d) => *d,
        };
        let guide: ResourceDescriptor = match inputs.get("guide") {
            None => {
                return Err(input_error(ErrorClass::Reference, GUIDE_REQUIRED));
            },
            Some(d) => *d,
        };
        match validate_pair(input, guide) {
            Err(e) => {
                return Err(e);
            },
            Ok(_) => {},
        }
        match GuidedRequest::resolve(params) {
            Err(e) => Err(e),
            Ok(_) => Ok(one_port("output", input)),
        }
    }

    /// Which regions of the inputs the requested output needs.
    pub fn required_inputs(
        &self,
        requested_outputs: &Ports<Rect>,
        inputs: &Ports<ResourceDescriptor>,
        params: &serde_json::Value,
    ) -> (r: Result<Ports<Rect>, Error>)
        ensures
            match (r, needed(requested_outputs@, inputs@, json_of(*params))) {
                (Ok(regions), Ok(expected)) => regions@ == expected,
                (Err(e), Err(f)) => e == f,
                _ => false,
            },
    {
        let input: ResourceDescriptor = match inputs.get("input") {
            None => {
                return Err(input_error(ErrorClass::Reference, INPUT_REQUIRED));
            },
            Some(d) => *d,
        };
        let guide: ResourceDescriptor = match inputs.get("guide") {
            None => {
                return Err(input_error(ErrorClass::Reference, GUIDE_REQUIRED));
            },
            Some(d) => *d,
        };
        let extent: Extent = match validate_pair(input, guide) {
            Err(e) => {
                return Err(e);
            },
            Ok((extent, _, _)) => extent,
        };
        let request: GuidedRequest = match GuidedRequest::resolve(params) {
            Err(e) => {
                return Err(e);
            },
            Ok(request) => request,
        };
        let halo: i128 = (request.radius as i128) * 2;
        let mut regions: Ports<Rect> = Ports::new();
        if let Some(region) = requested_outputs.get("output") {
            let dilated: Rect = extent.clipped(
                region.x0 as i128 - halo,
                region.y0 as i128 - halo,
                region.x1 as i128 + halo,
                region.y1 as i128 + halo,
            );
            regions.insert("input".to_owned(), dilated);
            regions.insert("guide".to_owned(), dilated);
        }
        Ok(regions)
    }

    /// Whether the produced resource is an image or a scalar field.
    pub fn validate_postconditions(
        &self,
        outputs: &Ports<ResourceDescriptor>,
        _params: &serde_json::Value,
    ) -> (r: Result<Vec<AssertionResult>, Error>)
        ensures
            r matches Ok(v) && v@ == seq![
                if port(outputs@, "output"@) matches Some(d) && supported(d) {
                    AssertionResult::pass("produces_filtered")
                } else {
                    AssertionResult::fail(
                        "produces_filtered",
                        "no `output` Image/Field1 produced",
                    )
                },
            ],
    {
        let outcome: AssertionResult = match outputs.get("output") {
            Some(ResourceDescriptor::Image(_)) | Some(ResourceDescriptor::Field1(_)) => {
                AssertionResult::pass("produces_filtered")
            },
            _ => AssertionResult::fail("produces_filtered", "no `output` Image/Field1 produced"),
        };
        Ok(vec![outcome])
    }

    /// Filter the input.
    pub fn compute<A: Arithmetic>(
        &self,
        inputs: &Ports<ResourceValue>,
        params: &serde_json::Value,
    ) -> (r: Result<Ports<ResourceValue>, Error>)
        requires
            lawful::<A>(),
            inputs_readable(inputs@),
        ensures
            gives_value(r, "output"@, guided_value::<A>(inputs@, json_of(*params))),
    {
        let input: &ResourceValue = match inputs.get("input") {
            None => {
                return Err(input_error(ErrorClass::Reference, INPUT_REQUIRED));
            },
            Some(input) => input,
        };
        let guide: &ResourceValue = match inputs.get("guide") {
            None => {
                return Err(input_error(ErrorClass::Reference, GUIDE_REQUIRED));
            },
            Some(guide) => guide,
        };
        let (extent, channels): (Extent, u32) = match validate_pair(
            input.descriptor(),
            guide.descriptor(),
        ) {
            Err(e) => {
                return Err(e);
            },
            Ok((extent, channels, _)) => (extent, channels),
        };
        let request: GuidedRequest = match GuidedRequest::resolve(params) {
            Err(e) => {
                return Err(e);
            },
            Ok(request) => request,
        };
        let input_samples: &Vec<u32> = input.samples();
        let guide_samples: &Vec<u32> = guide.samples();
        proof {
            let area = extent.area();
            assert(area >= 0) by (nonlinear_arith)
                requires
                    area == extent.width * extent.height,
                    extent.width >= 0,
                    extent.height >= 0,
            ;
            assert(area * input@.channels >= area * channels) by (nonlinear_arith)
                requires
                    area >= 0,
                    input@.channels >= channels,
            ;
            assert(area * channels >= 0) by (nonlinear_arith)
                requires
                    area >= 0,
                    channels >= 0,
            ;
        }
        let samples: Vec<u32> = guided_filter::<A>(
            input_samples,
            guide_samples,
            extent,
            channels,
            guide.channels(),
            request,
        );
        let value: Result<ResourceValue, usize> = ResourceValue::new(
            input.descriptor(),
            channels,
            samples,
        );
        Ok(one_port("output", value.unwrap()))
    }
}

/// Every pixel within twice the radius of a requested one lies in the region asked for.
pub proof fn law_required_region_holds_windows(
    region: Rect,
    radius: u32,
    extent: Extent,
    x: int,
    y: int,
    sx: int,
    sy: int,
)
    requires
        region.covers(x, y),
        -2 * radius <= sx - x <= 2 * radius,
        -2 * radius <= sy - y <= 2 * radius,
        0 <= sx < extent.width,
        0 <= sy < extent.height,
    ensures
        footprint(region, radius, extent).covers(sx, sy),
{
}

/// A window is never empty and lies inside the plane.
pub proof fn law_window_is_clipped(i: int, r: int, n: int)
    requires
        0 <= i < n,
        0 <= r,
    ensures
        0 <= window_start(i, r) <= i < window_end(i, r, n) <= n,
{
}

/// Where the regularised variance of the guide is not above zero the fit has no slope, and its
/// intercept is the mean of the input, for an arithmetic in which adding nothing keeps a number.
pub proof fn law_flat_guide_follows_the_mean<A: Arithmetic>(
    mean_guide: u64,
    mean_input: u64,
    mean_prod: u64,
    mean_square: u64,
    epsilon: u64,
)
    requires
        !less(
            ZERO,
            plus_of::<A>(fused_of::<A>(mean_guide, negated(mean_guide), mean_square), epsilon),
        ),
        fused_of::<A>(ZERO, negated(mean_guide), mean_input) == mean_input,
    ensures
        slope_of::<A>(mean_guide, mean_input, mean_prod, mean_square, epsilon) == ZERO,
        intercept_of::<A>(
            slope_of::<A>(mean_guide, mean_input, mean_prod, mean_square, epsilon),
            mean_guide,
            mean_input,
        ) == mean_input,
{
}

} // verus!
