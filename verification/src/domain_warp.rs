//! Resampling of a raster at positions displaced by a vector field.
//!
//! Output pixel `(x, y)` reads the source at `(x + 0.5 + dx, y + 0.5 + dy)`, where pixel `i` has its
//! centre at `i + 0.5`. A displacement of zero reads every pixel at its own centre and changes
//! nothing.
use crate::arithmetic::{
    fused, fused_of, lawful, minus, minus_of, narrow, narrow_of, plus, plus_of, round_down,
    round_down_of, to_integer, to_integer_of, whole, widen, widen_of, Arithmetic,
};
use crate::binary::{finite, is_zero, rank, HALF, SAMPLE_ZERO, ZERO};
use crate::convolve::{mode_of_token, source_index, source_of, BoundaryMode};
use crate::gradient::center_of;
use crate::ir::{
    AssertionResult, Detail, Error, ErrorClass, Extent, Rect, ResourceDescriptor, ResourceKind,
};
use crate::json::{json_get, json_is_object, json_of, json_text, member_text, same_text, Json};
use crate::lattice::{
    lemma_raster_sample, at, lemma_sample_at, lemma_sample_of, plane_len, raster, sample_at,
    sample_position,
};
use crate::params::{number_in, read_number, NumberErrors};
use crate::ports::{gives_port, gives_value, one_port, port, port_view, Ports};
use crate::value::{ResourceValue, ValueView};
use vstd::prelude::*;

verus! {

/// The operation's identifier.
pub const DOMAIN_WARP_OP_ID: &'static str = "field.domain_warp@1";

/// An input was absent or of an unsupported kind.
pub const E_DOMAIN_WARP_INPUT: &'static str = "E_DOMAIN_WARP_INPUT";

/// A parameter was malformed.
pub const E_DOMAIN_WARP_PARAM: &'static str = "E_DOMAIN_WARP_PARAM";

/// The samples were not as many as the extent declares; no result of this operation is.
pub const E_DOMAIN_WARP_BUFFER: &'static str = "E_DOMAIN_WARP_BUFFER";

pub const SOURCE_REQUIRED: &'static str = "field.domain_warp requires a `source` input";

pub const DISPLACEMENT_REQUIRED: &'static str = "field.domain_warp requires a `displacement` input";

pub const SOURCE_WRONG: &'static str = "field.domain_warp `source` must be an Image, Mask, Sdf, or Field";

pub const DISPLACEMENT_WRONG: &'static str = "field.domain_warp `displacement` must be a Field2 (dx, dy)";

pub const EXTENT_MISMATCH: &'static str = "field.domain_warp `displacement` extent must match the `source` extent";

pub const FILTER_NOT_STRING: &'static str = "field.domain_warp parameter `filter`: `filter` must be a string";

pub const FILTER_UNKNOWN: &'static str = "field.domain_warp parameter `filter`: must be `nearest` or `bilinear`";

pub const BOUNDARY_NOT_OBJECT: &'static str = "field.domain_warp parameter `boundary`: `boundary` must be an object";

pub const MODE_NOT_STRING: &'static str = "field.domain_warp parameter `boundary.mode`: `boundary.mode` must be a string";

pub const MODE_VALID: &'static str = "field.domain_warp parameter `boundary.mode`: `valid` is not a warp boundary mode (a warp reads arbitrary positions)";

pub const MODE_UNKNOWN: &'static str = "field.domain_warp parameter `boundary.mode`: is not a known boundary mode (constant | transparent | clamp | mirror | wrap)";

pub const VALUE_NOT_NUMBER: &'static str = "field.domain_warp parameter `boundary.value`: `boundary.value` must be a number";

pub const VALUE_NOT_FINITE: &'static str = "field.domain_warp parameter `boundary.value`: `boundary.value` must be finite";

/// A refusal for a parameter.
#[verifier::allow_in_spec]
pub fn param_error(message: &'static str) -> Error
    returns
        (Error::new(ErrorClass::Schema, E_DOMAIN_WARP_PARAM, message)),
{
    Error::new(ErrorClass::Schema, E_DOMAIN_WARP_PARAM, message)
}

/// A refusal for an input.
#[verifier::allow_in_spec]
pub fn input_error(class: ErrorClass, message: &'static str) -> Error
    returns
        (Error::new(class, E_DOMAIN_WARP_INPUT, message)),
{
    Error::new(class, E_DOMAIN_WARP_INPUT, message)
}

/// The refusal of an input of an unsupported kind.
#[verifier::allow_in_spec]
pub fn kind_error(message: &'static str, d: ResourceDescriptor) -> Error
    returns
        (input_error(ErrorClass::Type, message).about(Detail::Kind { kind: d.kind() })),
{
    input_error(ErrorClass::Type, message).about(Detail::Kind { kind: d.kind() })
}

/// The refusal of a displacement of another size than the source.
#[verifier::allow_in_spec]
pub fn extent_mismatch(source: Extent, displacement: Extent) -> Error
    returns
        (input_error(ErrorClass::Type, EXTENT_MISMATCH).about(
            Detail::Extents { first: displacement, second: source },
        )),
{
    input_error(ErrorClass::Type, EXTENT_MISMATCH).about(
        Detail::Extents { first: displacement, second: source },
    )
}

/// How the off-edge constant is refused.
#[verifier::allow_in_spec]
pub fn value_errors() -> NumberErrors
    returns
        (NumberErrors {
            not_number: param_error(VALUE_NOT_NUMBER).about(Detail::Given),
            not_finite: param_error(VALUE_NOT_FINITE).about(Detail::Given),
        }),
{
    NumberErrors {
        not_number: param_error(VALUE_NOT_NUMBER).about(Detail::Given),
        not_finite: param_error(VALUE_NOT_FINITE).about(Detail::Given),
    }
}

/// How the source is reconstructed between pixel centres.
#[derive(Debug, Clone, Copy, PartialEq, Eq, Structural)]
pub enum WarpFilter {
    /// The pixel that the position falls in.
    Nearest,
    /// The blend of the four pixels around the position.
    Bilinear,
}

/// The filter that a token names.
pub open spec fn filter_of_token(token: Seq<char>) -> Option<WarpFilter> {
    if token == "nearest"@ {
        Some(WarpFilter::Nearest)
    } else if token == "bilinear"@ {
        Some(WarpFilter::Bilinear)
    } else {
        None
    }
}

impl WarpFilter {
    /// Read a filter from its token.
    pub fn from_token(token: &str) -> (r: Option<WarpFilter>)
        ensures
            r == filter_of_token(token@),
    {
        if same_text(token, "nearest") {
            Some(WarpFilter::Nearest)
        } else if same_text(token, "bilinear") {
            Some(WarpFilter::Bilinear)
        } else {
            None
        }
    }
}

/// A resolved request: filter, boundary mode, and the constant of the `constant` mode by its
/// binary64 pattern.
#[derive(Debug, Clone, Copy, PartialEq, Eq, Structural)]
pub struct WarpRequest {
    pub filter: WarpFilter,
    pub boundary: BoundaryMode,
    pub constant: u64,
}

/// The filter that the parameters name; bilinear unless given.
pub open spec fn filter_of(params: Json) -> Result<WarpFilter, Error> {
    match params.get("filter"@) {
        None => Ok(WarpFilter::Bilinear),
        Some(v) => match v.as_text() {
            None => Err(param_error(FILTER_NOT_STRING).about(Detail::Given)),
            Some(token) => match filter_of_token(token) {
                None => Err(param_error(FILTER_UNKNOWN).about(Detail::Given)),
                Some(filter) => Ok(filter),
            },
        },
    }
}

/// The boundary that the parameters give: mode and constant; clamping with zero unless given. The
/// mode that shrinks its output is refused.
pub open spec fn boundary_of(params: Json) -> Result<(BoundaryMode, u64), Error> {
    match params.get("boundary"@) {
        None => Ok((BoundaryMode::Clamp, ZERO)),
        Some(boundary) => if !(boundary is Object) {
            Err(param_error(BOUNDARY_NOT_OBJECT).about(Detail::Given))
        } else {
            match member_text(boundary, "mode"@) {
                None => Err(param_error(MODE_NOT_STRING).about(Detail::Given)),
                Some(token) => if token == "valid"@ {
                    Err(param_error(MODE_VALID).about(Detail::Given))
                } else {
                    match mode_of_token(token) {
                        None => Err(param_error(MODE_UNKNOWN).about(Detail::Given)),
                        Some(mode) => match boundary.get("value"@) {
                            None => Ok((mode, ZERO)),
                            Some(v) => match number_in(v, value_errors()) {
                                Err(e) => Err(e),
                                Ok(bits) => Ok((mode, bits)),
                            },
                        },
                    }
                },
            }
        },
    }
}

/// The request that the parameters make.
pub open spec fn request_of(params: Json) -> Result<WarpRequest, Error> {
    match filter_of(params) {
        Err(e) => Err(e),
        Ok(filter) => match boundary_of(params) {
            Err(e) => Err(e),
            Ok((boundary, constant)) => Ok(WarpRequest { filter, boundary, constant }),
        },
    }
}

/// Read the optional `boundary` parameter.
pub fn boundary_param(params: &serde_json::Value) -> (r: Result<(BoundaryMode, u64), Error>)
    ensures
        r == boundary_of(json_of(*params)),
{
    let boundary: &serde_json::Value = match json_get(params, "boundary") {
        None => {
            return Ok((BoundaryMode::Clamp, ZERO));
        },
        Some(boundary) => boundary,
    };
    if !json_is_object(boundary) {
        return Err(param_error(BOUNDARY_NOT_OBJECT).about(Detail::Given));
    }
    let token: Option<&str> = match json_get(boundary, "mode") {
        None => None,
        Some(value) => json_text(value),
    };
    let mode: BoundaryMode = match token {
        None => {
            return Err(param_error(MODE_NOT_STRING).about(Detail::Given));
        },
        Some(token) => {
            if same_text(token, "valid") {
                return Err(param_error(MODE_VALID).about(Detail::Given));
            }
            match BoundaryMode::from_token(token) {
                None => {
                    return Err(param_error(MODE_UNKNOWN).about(Detail::Given));
                },
                Some(mode) => mode,
            }
        },
    };
    match json_get(boundary, "value") {
        None => Ok((mode, ZERO)),
        Some(value) => match read_number(value, value_errors()) {
            Err(e) => Err(e),
            Ok(bits) => Ok((mode, bits)),
        },
    }
}

impl WarpRequest {
    /// Read and check the parameters.
    pub fn resolve(params: &serde_json::Value) -> (r: Result<WarpRequest, Error>)
        ensures
            r == request_of(json_of(*params)),
    {
        let filter: WarpFilter = match json_get(params, "filter") {
            None => WarpFilter::Bilinear,
            Some(value) => match json_text(value) {
                None => {
                    return Err(param_error(FILTER_NOT_STRING).about(Detail::Given));
                },
                Some(token) => match WarpFilter::from_token(token) {
                    None => {
                        return Err(param_error(FILTER_UNKNOWN).about(Detail::Given));
                    },
                    Some(filter) => filter,
                },
            },
        };
        match boundary_param(params) {
            Err(e) => Err(e),
            Ok((boundary, constant)) => Ok(WarpRequest { filter, boundary, constant }),
        }
    }

    /// The sample that stands off the edge: the constant where the mode has one, else zero.
    pub open spec fn off_edge<A: Arithmetic>(self) -> u32 {
        if self.boundary == BoundaryMode::Transparent {
            SAMPLE_ZERO
        } else {
            narrow_of::<A>(self.constant)
        }
    }
}

/// The components of a source that can be warped.
pub open spec fn channels_of(d: ResourceDescriptor) -> Result<u32, Error> {
    match d {
        ResourceDescriptor::Image(i) => Ok(i.layout.channel_count()),
        ResourceDescriptor::Mask(_) => Ok(1),
        ResourceDescriptor::SdfMask(_) => Ok(1),
        ResourceDescriptor::Field1(_) => Ok(1),
        ResourceDescriptor::Field2(_) => Ok(2),
        ResourceDescriptor::Field3(_) => Ok(3),
        _ => Err(kind_error(SOURCE_WRONG, d)),
    }
}

/// The components of a source.
pub fn source_channels(d: ResourceDescriptor) -> (r: Result<u32, Error>)
    ensures
        r == channels_of(d),
{
    match d {
        ResourceDescriptor::Image(i) => Ok(i.layout.channel_count()),
        ResourceDescriptor::Mask(_) | ResourceDescriptor::SdfMask(_) => Ok(1),
        ResourceDescriptor::Field1(_) => Ok(1),
        ResourceDescriptor::Field2(_) => Ok(2),
        ResourceDescriptor::Field3(_) => Ok(3),
        _ => Err(kind_error(SOURCE_WRONG, d)),
    }
}

/// The size of a displacement, which is a field of two components.
pub fn displacement_extent(d: ResourceDescriptor) -> (r: Result<Extent, Error>)
    ensures
        r == (match d {
            ResourceDescriptor::Field2(f) => Ok::<Extent, Error>(f.extent),
            _ => Err::<Extent, Error>(kind_error(DISPLACEMENT_WRONG, d)),
        }),
{
    match d {
        ResourceDescriptor::Field2(f) => Ok(f.extent),
        _ => Err(kind_error(DISPLACEMENT_WRONG, d)),
    }
}

/// What stands at pixel `(ix, iy)`: the source sample that the boundary mode resolves it to, or what
/// stands off the edge.
pub open spec fn fetch_of<A: Arithmetic>(
    src: Seq<u32>,
    extent: Extent,
    channels: int,
    c: int,
    ix: int,
    iy: int,
    request: WarpRequest,
) -> u64 {
    widen_of::<A>(
        match (
            source_of(ix, extent.width as int, request.boundary),
            source_of(iy, extent.height as int, request.boundary),
        ) {
            (Some(x), Some(y)) => src[sample_at(x, y, c, extent.width as int, channels)],
            _ => request.off_edge::<A>(),
        },
    )
}

/// The index after `i`; the greatest of its type stays.
pub open spec fn next_of(i: i64) -> i64 {
    if i < i64::MAX {
        (i + 1) as i64
    } else {
        i
    }
}

/// The blend of two numbers, `a + t * (b - a)`.
pub open spec fn lerp_of<A: Arithmetic>(a: u64, b: u64, t: u64) -> u64 {
    fused_of::<A>(minus_of::<A>(b, a), t, a)
}

/// Blend two numbers.
fn lerp<A: Arithmetic>(a: u64, b: u64, t: u64) -> (r: u64)
    requires
        lawful::<A>(),
    ensures
        r == lerp_of::<A>(a, b, t),
{
    fused::<A>(minus::<A>(b, a), t, a)
}

/// The blend of four numbers, along the rows first: the first of them where both fractions are zero.
pub open spec fn blend_of<A: Arithmetic>(v00: u64, v10: u64, v01: u64, v11: u64, tx: u64, ty: u64) -> u64 {
    if rank(tx) == 0 && rank(ty) == 0 {
        v00
    } else {
        lerp_of::<A>(lerp_of::<A>(v00, v10, tx), lerp_of::<A>(v01, v11, tx), ty)
    }
}

/// Blend four numbers.
fn blend<A: Arithmetic>(v00: u64, v10: u64, v01: u64, v11: u64, tx: u64, ty: u64) -> (r: u64)
    requires
        lawful::<A>(),
    ensures
        r == blend_of::<A>(v00, v10, v01, v11, tx, ty),
{
    if is_zero(tx) && is_zero(ty) {
        return v00;
    }
    let top: u64 = lerp::<A>(v00, v10, tx);
    let bottom: u64 = lerp::<A>(v01, v11, tx);
    lerp::<A>(top, bottom, ty)
}

/// The source at a position.
pub open spec fn sampled<A: Arithmetic>(
    src: Seq<u32>,
    extent: Extent,
    channels: int,
    c: int,
    sx: u64,
    sy: u64,
    request: WarpRequest,
) -> u64 {
    match request.filter {
        WarpFilter::Nearest => fetch_of::<A>(
            src,
            extent,
            channels,
            c,
            to_integer_of::<A>(round_down_of::<A>(sx)) as int,
            to_integer_of::<A>(round_down_of::<A>(sy)) as int,
            request,
        ),
        WarpFilter::Bilinear => {
            let gx = minus_of::<A>(sx, HALF);
            let gy = minus_of::<A>(sy, HALF);
            let x0 = round_down_of::<A>(gx);
            let y0 = round_down_of::<A>(gy);
            let tx = minus_of::<A>(gx, x0);
            let ty = minus_of::<A>(gy, y0);
            let ix = to_integer_of::<A>(x0);
            let iy = to_integer_of::<A>(y0);
            blend_of::<A>(
                fetch_of::<A>(src, extent, channels, c, ix as int, iy as int, request),
                fetch_of::<A>(src, extent, channels, c, next_of(ix) as int, iy as int, request),
                fetch_of::<A>(src, extent, channels, c, ix as int, next_of(iy) as int, request),
                fetch_of::<A>(
                    src,
                    extent,
                    channels,
                    c,
                    next_of(ix) as int,
                    next_of(iy) as int,
                    request,
                ),
                tx,
                ty,
            )
        },
    }
}

/// The position that output pixel `(x, y)` reads: its centre moved by its displacement.
pub open spec fn read_position<A: Arithmetic>(disp: Seq<u32>, extent: Extent, x: int, y: int) -> (
    u64,
    u64,
) {
    let pixel = at(x, y, extent.width as int);
    (
        plus_of::<A>(center_of::<A>(x), widen_of::<A>(disp[pixel * 2])),
        plus_of::<A>(center_of::<A>(y), widen_of::<A>(disp[pixel * 2 + 1])),
    )
}

/// The warped sample of a channel of a pixel.
pub open spec fn warped_sample<A: Arithmetic>(
    src: Seq<u32>,
    extent: Extent,
    channels: int,
    disp: Seq<u32>,
    request: WarpRequest,
    x: int,
    y: int,
    c: int,
) -> u32 {
    let (sx, sy) = read_position::<A>(disp, extent, x, y);
    narrow_of::<A>(sampled::<A>(src, extent, channels, c, sx, sy, request))
}

/// The warped raster.
pub open spec fn warped<A: Arithmetic>(
    src: Seq<u32>,
    extent: Extent,
    channels: int,
    disp: Seq<u32>,
    request: WarpRequest,
) -> Seq<u32> {
    raster(
        extent.width as int,
        extent.height as int,
        channels,
        |x: int, y: int, c: int|
            warped_sample::<A>(src, extent, channels, disp, request, x, y, c),
    )
}

/// Take what stands at a pixel.
fn fetch<A: Arithmetic>(
    src: &Vec<u32>,
    extent: Extent,
    channels: u32,
    c: usize,
    ix: i64,
    iy: i64,
    request: WarpRequest,
) -> (r: u64)
    requires
        lawful::<A>(),
        src@.len() >= extent.area() * channels,
        extent.width >= 1,
        extent.height >= 1,
        c < channels,
    ensures
        r == fetch_of::<A>(
            src@,
            extent,
            channels as int,
            c as int,
            ix as int,
            iy as int,
            request,
        ),
{
    let held: usize = src.len();
    match (
        source_index(ix, extent.width as i64, request.boundary),
        source_index(iy, extent.height as i64, request.boundary),
    ) {
        (Some(x), Some(y)) => {
            proof {
                lemma_sample_at(
                    x as int,
                    y as int,
                    c as int,
                    extent.width as int,
                    extent.height as int,
                    channels as int,
                );
            }
            let index: usize = sample_position(
                x as usize,
                y as usize,
                c,
                extent.width as usize,
                channels as usize,
            );
            widen::<A>(src[index])
        },
        _ => if request.boundary == BoundaryMode::Transparent {
            widen::<A>(SAMPLE_ZERO)
        } else {
            widen::<A>(narrow::<A>(request.constant))
        },
    }
}

/// The index after `i`.
fn next_index(i: i64) -> (r: i64)
    ensures
        r == next_of(i),
{
    if i < i64::MAX {
        i + 1
    } else {
        i
    }
}

/// Sample the source at a position.
pub fn sample<A: Arithmetic>(
    src: &Vec<u32>,
    extent: Extent,
    channels: u32,
    c: usize,
    sx: u64,
    sy: u64,
    request: WarpRequest,
) -> (r: u64)
    requires
        lawful::<A>(),
        src@.len() >= extent.area() * channels,
        extent.width >= 1,
        extent.height >= 1,
        c < channels,
    ensures
        r == sampled::<A>(src@, extent, channels as int, c as int, sx, sy, request),
{
    match request.filter {
        WarpFilter::Nearest => {
            let ix: i64 = to_integer::<A>(round_down::<A>(sx));
            let iy: i64 = to_integer::<A>(round_down::<A>(sy));
            fetch::<A>(src, extent, channels, c, ix, iy, request)
        },
        WarpFilter::Bilinear => {
            let gx: u64 = minus::<A>(sx, HALF);
            let gy: u64 = minus::<A>(sy, HALF);
            let x0: u64 = round_down::<A>(gx);
            let y0: u64 = round_down::<A>(gy);
            let tx: u64 = minus::<A>(gx, x0);
            let ty: u64 = minus::<A>(gy, y0);
            let ix: i64 = to_integer::<A>(x0);
            let iy: i64 = to_integer::<A>(y0);
            let v00: u64 = fetch::<A>(src, extent, channels, c, ix, iy, request);
            let v10: u64 = fetch::<A>(src, extent, channels, c, next_index(ix), iy, request);
            let v01: u64 = fetch::<A>(src, extent, channels, c, ix, next_index(iy), request);
            let v11: u64 = fetch::<A>(
                src,
                extent,
                channels,
                c,
                next_index(ix),
                next_index(iy),
                request,
            );
            blend::<A>(v00, v10, v01, v11, tx, ty)
        },
    }
}

/// Warp a channel-interleaved raster by a displacement of two components per pixel.
pub fn warp_samples<A: Arithmetic>(
    src: &Vec<u32>,
    extent: Extent,
    channels: u32,
    disp: &Vec<u32>,
    request: WarpRequest,
) -> (out: Vec<u32>)
    requires
        lawful::<A>(),
        src@.len() >= extent.area() * channels,
        disp@.len() >= extent.area() * 2,
        channels >= 1,
    ensures
        out@ == warped::<A>(src@, extent, channels as int, disp@, request),
{
    let w: usize = extent.width as usize;
    let h: usize = extent.height as usize;
    let stride: usize = channels as usize;
    let held: usize = src.len();
    let moves: usize = disp.len();
    let ghost all = warped::<A>(src@, extent, channels as int, disp@, request);
    proof {
        assert(w * h * stride >= 0) by (nonlinear_arith)
            requires
                w >= 0,
                h >= 0,
                stride >= 0,
        ;
    }
    let count: usize = plane_len(w, h, stride);
    let mut out: Vec<u32> = Vec::new();
    let mut i: usize = 0;
    while i < count
        invariant
            lawful::<A>(),
            src@.len() >= extent.area() * channels,
            disp@.len() >= extent.area() * 2,
            moves == disp@.len(),
            w == extent.width,
            h == extent.height,
            stride == channels,
            count == w * h * stride,
            i <= count,
            all == warped::<A>(src@, extent, channels as int, disp@, request),
            all.len() == count,
            out@ == all.take(i as int),
        decreases count - i,
    {
        proof {
            lemma_sample_of(i as int, w as int, h as int, stride as int);
        }
        let c: usize = i % stride;
        let p: usize = i / stride;
        let x: usize = p % w;
        let y: usize = p / w;
        assert(at(x as int, y as int, w as int) == p) by {
            crate::lattice::lemma_at_of(p as int, w as int, h as int);
        }
        let dx: u64 = widen::<A>(disp[p * 2]);
        let dy: u64 = widen::<A>(disp[p * 2 + 1]);
        let cx: u64 = plus::<A>(whole::<A>(x as i64), HALF);
        let cy: u64 = plus::<A>(whole::<A>(y as i64), HALF);
        let value: u64 = sample::<A>(
            src,
            extent,
            channels,
            c,
            plus::<A>(cx, dx),
            plus::<A>(cy, dy),
            request,
        );
        out.push(narrow::<A>(value));
        i = i + 1;
    }
    out
}

/// The operation.
#[derive(Debug, Clone, Copy)]
pub struct DomainWarp;

/// What the operation produces: the source's own descriptor.
pub open spec fn inferred(inputs: Map<Seq<char>, ResourceDescriptor>, params: Json) -> Result<
    ResourceDescriptor,
    Error,
> {
    match (port(inputs, "source"@), port(inputs, "displacement"@)) {
        (None, _) => Err(input_error(ErrorClass::Reference, SOURCE_REQUIRED)),
        (Some(_), None) => Err(input_error(ErrorClass::Reference, DISPLACEMENT_REQUIRED)),
        (Some(source), Some(displacement)) => match request_of(params) {
            Err(e) => Err(e),
            Ok(_) => match channels_of(source) {
                Err(e) => Err(e),
                Ok(_) => match displacement {
                    ResourceDescriptor::Field2(f) => if source.extent() != f.extent {
                        Err(extent_mismatch(source.extent(), f.extent))
                    } else {
                        Ok(source)
                    },
                    _ => Err(kind_error(DISPLACEMENT_WRONG, displacement)),
                },
            },
        },
    }
}

/// The regions that the requested output needs: all of the source, and of the displacement what is
/// requested.
pub open spec fn needed(
    requested: Map<Seq<char>, Rect>,
    inputs: Map<Seq<char>, ResourceDescriptor>,
) -> Map<Seq<char>, Rect> {
    match port(inputs, "source"@) {
        None => Map::empty(),
        Some(source) => Map::empty().insert("source"@, source.extent().region()).insert(
            "displacement"@,
            match port(requested, "warped"@) {
                None => source.extent().region(),
                Some(r) => r.meet(source.extent().region()),
            },
        ),
    }
}

/// The samples of both inputs are as many as a warp reads.
pub open spec fn readable(source: ValueView, displacement: ValueView) -> bool {
    channels_of(source.descriptor) matches Ok(channels) ==> {
        &&& source.samples.len() >= source.descriptor.extent().area() * channels
        &&& displacement.samples.len() >= source.descriptor.extent().area() * 2
    }
}

/// The inputs, where both are there and of one size, are readable.
pub open spec fn inputs_readable(inputs: Map<Seq<char>, ResourceValue>) -> bool {
    match (port_view(inputs, "source"@), port_view(inputs, "displacement"@)) {
        (Some(source), Some(displacement)) => source.descriptor.extent()
            == displacement.descriptor.extent() ==> readable(source, displacement),
        _ => true,
    }
}

/// What the operation makes of its inputs.
pub open spec fn warped_value<A: Arithmetic>(inputs: Map<Seq<char>, ResourceValue>, params: Json) -> Result<
    ValueView,
    Error,
> {
    match (port_view(inputs, "source"@), port_view(inputs, "displacement"@)) {
        (None, _) => Err(input_error(ErrorClass::Reference, SOURCE_REQUIRED)),
        (Some(_), None) => Err(input_error(ErrorClass::Reference, DISPLACEMENT_REQUIRED)),
        (Some(source), Some(displacement)) => match request_of(params) {
            Err(e) => Err(e),
            Ok(request) => if source.descriptor.extent() != displacement.descriptor.extent() {
                Err(extent_mismatch(source.descriptor.extent(), displacement.descriptor.extent()))
            } else {
                match channels_of(source.descriptor) {
                    Err(e) => Err(e),
                    Ok(channels) => Ok(
                        ValueView {
                            descriptor: source.descriptor,
                            channels,
                            samples: warped::<A>(
                                source.samples,
                                source.descriptor.extent(),
                                channels as int,
                                displacement.samples,
                                request,
                            ),
                        },
                    ),
                }
            },
        },
    }
}

impl Default for DomainWarp {
    /// The operation.
    fn default() -> (r: Self)
        ensures
            r == DomainWarp,
    {
        DomainWarp
    }
}

impl DomainWarp {
    /// The operation.
    pub fn new() -> (r: Self)
        ensures
            r == DomainWarp,
    {
        DomainWarp
    }

    /// The input ports and their kinds.
    pub fn declared_inputs(&self) -> (r: Vec<(&'static str, ResourceKind)>)
        ensures
            r@ == seq![("source", ResourceKind::Image), ("displacement", ResourceKind::Field2)],
    {
        vec![("source", ResourceKind::Image), ("displacement", ResourceKind::Field2)]
    }

    /// The output ports and their kinds.
    pub fn declared_outputs(&self) -> (r: Vec<(&'static str, ResourceKind)>)
        ensures
            r@ == seq![("warped", ResourceKind::Image)],
    {
        vec![("warped", ResourceKind::Image)]
    }

    /// What the operation produces of inputs like these.
    pub fn infer_outputs(
        &self,
        inputs: &Ports<ResourceDescriptor>,
        params: &serde_json::Value,
    ) -> (r: Result<Ports<ResourceDescriptor>, Error>)
        ensures
            gives_port(r, "warped"@, inferred(inputs@, json_of(*params))),
    {
        let source: ResourceDescriptor = match inputs.get("source") {
            None => {
                return Err(input_error(ErrorClass::Reference, SOURCE_REQUIRED));
            },
            Some(d) => *d,
        };
        let displacement: ResourceDescriptor = match inputs.get("displacement") {
            None => {
                return Err(input_error(ErrorClass::Reference, DISPLACEMENT_REQUIRED));
            },
            Some(d) => *d,
        };
        match WarpRequest::resolve(params) {
            Err(e) => {
                return Err(e);
            },
            Ok(_) => {},
        }
        match source_channels(source) {
            Err(e) => {
                return Err(e);
            },
            Ok(_) => {},
        }
        match displacement_extent(displacement) {
            Err(e) => Err(e),
            Ok(extent) => if source.extent() != extent {
                Err(extent_mismatch(source.extent(), extent))
            } else {
                Ok(one_port("warped", source))
            },
        }
    }

    /// Which regions of the inputs the requested output needs.
    pub fn required_inputs(
        &self,
        requested_outputs: &Ports<Rect>,
        inputs: &Ports<ResourceDescriptor>,
        _params: &serde_json::Value,
    ) -> (r: Result<Ports<Rect>, Error>)
        ensures
            r matches Ok(regions) && regions@ == needed(requested_outputs@, inputs@),
    {
        let mut regions: Ports<Rect> = Ports::new();
        if let Some(source) = inputs.get("source") {
            let full: Rect = source.extent().full_rect();
            regions.insert("source".to_owned(), full);
            let region: Rect = match requested_outputs.get("warped") {
                None => full,
                Some(r) => r.intersect(full),
            };
            regions.insert("displacement".to_owned(), region);
        }
        Ok(regions)
    }

    /// Whether a resource was produced.
    pub fn validate_postconditions(
        &self,
        outputs: &Ports<ResourceDescriptor>,
        _params: &serde_json::Value,
    ) -> (r: Result<Vec<AssertionResult>, Error>)
        ensures
            r matches Ok(v) && v@ == seq![
                if outputs@.dom().contains("warped"@) {
                    AssertionResult::pass("produces_warped")
                } else {
                    AssertionResult::fail("produces_warped", "no `warped` output produced")
                },
            ],
    {
        let outcome: AssertionResult = match outputs.get("warped") {
            Some(_) => AssertionResult::pass("produces_warped"),
            None => AssertionResult::fail("produces_warped", "no `warped` output produced"),
        };
        Ok(vec![outcome])
    }

    /// Warp the source.
    pub fn compute<A: Arithmetic>(
        &self,
        inputs: &Ports<ResourceValue>,
        params: &serde_json::Value,
    ) -> (r: Result<Ports<ResourceValue>, Error>)
        requires
            lawful::<A>(),
            inputs_readable(inputs@),
        ensures
            gives_value(r, "warped"@, warped_value::<A>(inputs@, json_of(*params))),
    {
        let source: &ResourceValue = match inputs.get("source") {
            None => {
                return Err(input_error(ErrorClass::Reference, SOURCE_REQUIRED));
            },
            Some(source) => source,
        };
        let displacement: &ResourceValue = match inputs.get("displacement") {
            None => {
                return Err(input_error(ErrorClass::Reference, DISPLACEMENT_REQUIRED));
            },
            Some(displacement) => displacement,
        };
        let request: WarpRequest = match WarpRequest::resolve(params) {
            Err(e) => {
                return Err(e);
            },
            Ok(request) => request,
        };
        let extent: Extent = source.extent();
        if extent != displacement.extent() {
            return Err(extent_mismatch(extent, displacement.extent()));
        }
        let channels: u32 = match source_channels(source.descriptor()) {
            Err(e) => {
                return Err(e);
            },
            Ok(channels) => channels,
        };
        let samples: Vec<u32> = warp_samples::<A>(
            source.samples(),
            extent,
            channels,
            displacement.samples(),
            request,
        );
        proof {
            let n = extent.width * extent.height * channels;
            assert(n >= 0) by (nonlinear_arith)
                requires
                    n == extent.width * extent.height * channels,
                    extent.width >= 0,
                    extent.height >= 0,
                    channels >= 0,
            ;
        }
        let value: Result<ResourceValue, usize> = ResourceValue::new(
            source.descriptor(),
            channels,
            samples,
        );
        Ok(one_port("warped", value.unwrap()))
    }
}

/// The arithmetic is exact where a warp by whole pixels needs it: on the centre of pixel `i` moved
/// by the sample `d`, which stands for `k` pixels.
pub open spec fn exact_step<A: Arithmetic>(i: int, d: u32, k: int) -> bool {
    let s = plus_of::<A>(center_of::<A>(i), widen_of::<A>(d));
    &&& to_integer_of::<A>(round_down_of::<A>(s)) == i + k
    &&& to_integer_of::<A>(round_down_of::<A>(minus_of::<A>(s, HALF))) == i + k
    &&& rank(
        minus_of::<A>(minus_of::<A>(s, HALF), round_down_of::<A>(minus_of::<A>(s, HALF))),
    ) == 0
}

/// The sample that stands at pixel `(ix, iy)` under the boundary mode.
pub open spec fn moved_sample<A: Arithmetic>(
    src: Seq<u32>,
    extent: Extent,
    channels: int,
    request: WarpRequest,
    ix: int,
    iy: int,
    c: int,
) -> u32 {
    match (
        source_of(ix, extent.width as int, request.boundary),
        source_of(iy, extent.height as int, request.boundary),
    ) {
        (Some(x), Some(y)) => src[sample_at(x, y, c, extent.width as int, channels)],
        _ => request.off_edge::<A>(),
    }
}

/// A displacement by whole pixels is a translation: the output sample is, bit for bit, what stands
/// that many pixels away, whatever the filter, if it can be taken wide and back.
pub proof fn law_whole_displacement_is_translation<A: Arithmetic>(
    src: Seq<u32>,
    extent: Extent,
    channels: int,
    disp: Seq<u32>,
    request: WarpRequest,
    x: int,
    y: int,
    c: int,
    kx: int,
    ky: int,
)
    requires
        0 <= x < extent.width,
        0 <= y < extent.height,
        exact_step::<A>(x, disp[at(x, y, extent.width as int) * 2], kx),
        exact_step::<A>(y, disp[at(x, y, extent.width as int) * 2 + 1], ky),
        narrow_of::<A>(
            widen_of::<A>(moved_sample::<A>(src, extent, channels, request, x + kx, y + ky, c)),
        ) == moved_sample::<A>(src, extent, channels, request, x + kx, y + ky, c),
    ensures
        warped_sample::<A>(src, extent, channels, disp, request, x, y, c) == moved_sample::<A>(
            src,
            extent,
            channels,
            request,
            x + kx,
            y + ky,
            c,
        ),
{
}

/// A displacement of zero changes nothing: every sample of the output is the source's, bit for bit, if
/// the source's samples can be taken wide and back.
pub proof fn law_zero_displacement_is_identity<A: Arithmetic>(
    src: Seq<u32>,
    extent: Extent,
    channels: int,
    disp: Seq<u32>,
    request: WarpRequest,
)
    requires
        src.len() == extent.area() * channels,
        channels >= 0,
        forall|x: int, y: int|
            0 <= x < extent.width && 0 <= y < extent.height ==> exact_step::<A>(
                x,
                disp[#[trigger] at(x, y, extent.width as int) * 2],
                0,
            ) && exact_step::<A>(y, disp[at(x, y, extent.width as int) * 2 + 1], 0),
        forall|i: int|
            0 <= i < src.len() ==> narrow_of::<A>(widen_of::<A>(#[trigger] src[i])) == src[i],
    ensures
        warped::<A>(src, extent, channels, disp, request) == src,
{
    let out = warped::<A>(src, extent, channels, disp, request);
    let w = extent.width as int;
    let h = extent.height as int;
    assert forall|i: int| 0 <= i < src.len() implies out[i] == src[i] by {
        lemma_sample_of(i, w, h, channels);
        let x = (i / channels) % w;
        let y = (i / channels) / w;
        law_whole_displacement_is_translation::<A>(
            src,
            extent,
            channels,
            disp,
            request,
            x,
            y,
            i % channels,
            0,
            0,
        );
    }
}

/// Warping by whole pixels and then by as many back gives a sample back, where neither step leaves the
/// raster.
pub proof fn law_whole_displacement_is_undone<A: Arithmetic>(
    src: Seq<u32>,
    extent: Extent,
    channels: int,
    disp: Seq<u32>,
    back: Seq<u32>,
    request: WarpRequest,
    x: int,
    y: int,
    c: int,
    kx: int,
    ky: int,
)
    requires
        0 <= x < extent.width,
        0 <= y < extent.height,
        0 <= x - kx < extent.width,
        0 <= y - ky < extent.height,
        0 <= c < channels,
        exact_step::<A>(x - kx, disp[at(x - kx, y - ky, extent.width as int) * 2], kx),
        exact_step::<A>(y - ky, disp[at(x - kx, y - ky, extent.width as int) * 2 + 1], ky),
        exact_step::<A>(x, back[at(x, y, extent.width as int) * 2], -kx),
        exact_step::<A>(y, back[at(x, y, extent.width as int) * 2 + 1], -ky),
        narrow_of::<A>(
            widen_of::<A>(src[sample_at(x, y, c, extent.width as int, channels)]),
        ) == src[sample_at(x, y, c, extent.width as int, channels)],
    ensures
        warped_sample::<A>(
            warped::<A>(src, extent, channels, disp, request),
            extent,
            channels,
            back,
            request,
            x,
            y,
            c,
        ) == src[sample_at(x, y, c, extent.width as int, channels)],
{
    let w = extent.width as int;
    let h = extent.height as int;
    let moved = warped::<A>(src, extent, channels, disp, request);
    law_whole_displacement_is_translation::<A>(
        src,
        extent,
        channels,
        disp,
        request,
        x - kx,
        y - ky,
        c,
        kx,
        ky,
    );
    lemma_raster_sample(
        w,
        h,
        channels,
        |x: int, y: int, c: int| warped_sample::<A>(src, extent, channels, disp, request, x, y, c),
        x - kx,
        y - ky,
        c,
    );
    law_whole_displacement_is_translation::<A>(
        moved,
        extent,
        channels,
        back,
        request,
        x,
        y,
        c,
        -kx,
        -ky,
    );
}

} // verus!
