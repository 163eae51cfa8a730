//! Direct two-dimensional correlation of an image or a scalar field with a small explicit kernel.
//!
//! Every channel is filtered on its own. The output sample at a pixel is the sum, over the kernel's
//! taps in row-major order, of weight times source sample, taken wide and rounded once.
use crate::arithmetic::{fused, fused_of, lawful, narrow, narrow_of, widen, widen_of, Arithmetic};
use crate::binary::{finite, is_zero, rank, ZERO};
use crate::ir::{
    larger, AssertionResult, Detail, Error, ErrorClass, Extent, FieldDescriptor,
    ImageDescriptor, Rect, ResourceDescriptor, ResourceKind,
};
use crate::json::{
    json_array, json_get, json_is_object, json_of, json_seq, json_text, json_unsigned, same_text,
    Json,
};
use crate::lattice::{
    at, lemma_at_bounds, lemma_at_inverse, lemma_fewer_samples, lemma_sample_at, lemma_sample_of,
    plane_len, raster, sample_at, sample_position,
};
use crate::params::{finite_numbers, finite_numbers_of, lemma_finite_numbers, seq_result};
use crate::ports::{gives_optional_port, gives_port, gives_value, one_port, port, port_view, Ports};
use crate::value::{ResourceValue, ValueView};
use vstd::prelude::*;

verus! {

/// The operation's identifier.
pub const CONVOLVE_OP_ID: &'static str = "filter.convolve@1";

/// The input was absent or of an unsupported kind.
pub const E_CONVOLVE_INPUT: &'static str = "E_CONVOLVE_INPUT";

/// The kernel was missing, malformed, or shaped inconsistently.
pub const E_CONVOLVE_KERNEL: &'static str = "E_CONVOLVE_KERNEL";

/// The boundary parameters were malformed.
pub const E_CONVOLVE_PARAM: &'static str = "E_CONVOLVE_PARAM";

pub const KERNEL_REQUIRED: &'static str = "filter.convolve requires a `kernel` object";

pub const KERNEL_NOT_OBJECT: &'static str = "filter.convolve `kernel` must be an object with width/height/weights";

pub const WIDTH_REQUIRED: &'static str = "filter.convolve `kernel.width` is required";

pub const WIDTH_NOT_INTEGER: &'static str = "filter.convolve `kernel.width` must be a non-negative integer";

pub const WIDTH_TOO_LARGE: &'static str = "filter.convolve `kernel.width` does not fit in u32";

pub const HEIGHT_REQUIRED: &'static str = "filter.convolve `kernel.height` is required";

pub const HEIGHT_NOT_INTEGER: &'static str = "filter.convolve `kernel.height` must be a non-negative integer";

pub const HEIGHT_TOO_LARGE: &'static str = "filter.convolve `kernel.height` does not fit in u32";

pub const ORIGIN_X_REQUIRED: &'static str = "filter.convolve `kernel.origin_x` is required";

pub const ORIGIN_X_NOT_INTEGER: &'static str = "filter.convolve `kernel.origin_x` must be a non-negative integer";

pub const ORIGIN_X_TOO_LARGE: &'static str = "filter.convolve `kernel.origin_x` does not fit in u32";

pub const ORIGIN_Y_REQUIRED: &'static str = "filter.convolve `kernel.origin_y` is required";

pub const ORIGIN_Y_NOT_INTEGER: &'static str = "filter.convolve `kernel.origin_y` must be a non-negative integer";

pub const ORIGIN_Y_TOO_LARGE: &'static str = "filter.convolve `kernel.origin_y` does not fit in u32";

pub const KERNEL_EMPTY: &'static str = "filter.convolve `kernel` must have non-zero extent";

pub const ORIGIN_OUTSIDE: &'static str = "filter.convolve `kernel` origin is outside the kernel";

pub const WEIGHTS_REQUIRED: &'static str = "filter.convolve `kernel.weights` is required";

pub const WEIGHTS_NOT_ARRAY: &'static str = "filter.convolve `kernel.weights` must be a row-major array";

pub const WEIGHTS_COUNT: &'static str = "filter.convolve `kernel.weights` must have width*height entries";

pub const WEIGHT_NOT_NUMBER: &'static str = "filter.convolve `kernel.weights` entry must be a number";

pub const WEIGHT_NOT_FINITE: &'static str = "filter.convolve `kernel.weights` entry must be finite";

pub const MODE_NOT_STRING: &'static str = "filter.convolve `mode` must be a string boundary mode";

pub const MODE_UNKNOWN: &'static str = "filter.convolve `mode` is not a known boundary mode";

pub const VALUE_NOT_ARRAY: &'static str = "filter.convolve `value` must be a per-channel array";

pub const VALUE_COUNT: &'static str = "filter.convolve `value` must have one component per input channel";

pub const VALUE_NOT_NUMBER: &'static str = "filter.convolve `value` component must be a number";

pub const VALUE_NOT_FINITE: &'static str = "filter.convolve `value` component must be finite";

pub const INPUT_REQUIRED: &'static str = "filter.convolve requires an `input` resource";

pub const INPUT_VALUE_REQUIRED: &'static str = "filter.convolve requires an `input` value";

pub const INPUT_UNSUPPORTED: &'static str = "filter.convolve `input` must be an Image or Field1 resource";

/// The error of a malformed kernel.
#[verifier::allow_in_spec]
pub fn kernel_error(message: &'static str) -> Error
    returns
        (Error::new(ErrorClass::Schema, E_CONVOLVE_KERNEL, message)),
{
    Error::new(ErrorClass::Schema, E_CONVOLVE_KERNEL, message)
}

/// The error of a malformed boundary parameter.
#[verifier::allow_in_spec]
pub fn boundary_error(message: &'static str) -> Error
    returns
        (Error::new(ErrorClass::Schema, E_CONVOLVE_PARAM, message)),
{
    Error::new(ErrorClass::Schema, E_CONVOLVE_PARAM, message)
}

/// How a kernel dimension is refused.
#[derive(Debug, Clone, Copy)]
pub struct DimensionErrors {
    pub required: Error,
    pub not_integer: Error,
    pub too_large: Error,
}

/// How the width is refused.
#[verifier::allow_in_spec]
pub fn width_errors() -> DimensionErrors
    returns
        (DimensionErrors {
            required: kernel_error(WIDTH_REQUIRED),
            not_integer: kernel_error(WIDTH_NOT_INTEGER).about(Detail::Given),
            too_large: kernel_error(WIDTH_TOO_LARGE),
        }),
{
    DimensionErrors {
        required: kernel_error(WIDTH_REQUIRED),
        not_integer: kernel_error(WIDTH_NOT_INTEGER).about(Detail::Given),
        too_large: kernel_error(WIDTH_TOO_LARGE),
    }
}

/// How the height is refused.
#[verifier::allow_in_spec]
pub fn height_errors() -> DimensionErrors
    returns
        (DimensionErrors {
            required: kernel_error(HEIGHT_REQUIRED),
            not_integer: kernel_error(HEIGHT_NOT_INTEGER).about(Detail::Given),
            too_large: kernel_error(HEIGHT_TOO_LARGE),
        }),
{
    DimensionErrors {
        required: kernel_error(HEIGHT_REQUIRED),
        not_integer: kernel_error(HEIGHT_NOT_INTEGER).about(Detail::Given),
        too_large: kernel_error(HEIGHT_TOO_LARGE),
    }
}

/// How the origin's column is refused.
#[verifier::allow_in_spec]
pub fn origin_x_errors() -> DimensionErrors
    returns
        (DimensionErrors {
            required: kernel_error(ORIGIN_X_REQUIRED),
            not_integer: kernel_error(ORIGIN_X_NOT_INTEGER).about(Detail::Given),
            too_large: kernel_error(ORIGIN_X_TOO_LARGE),
        }),
{
    DimensionErrors {
        required: kernel_error(ORIGIN_X_REQUIRED),
        not_integer: kernel_error(ORIGIN_X_NOT_INTEGER).about(Detail::Given),
        too_large: kernel_error(ORIGIN_X_TOO_LARGE),
    }
}

/// How the origin's row is refused.
#[verifier::allow_in_spec]
pub fn origin_y_errors() -> DimensionErrors
    returns
        (DimensionErrors {
            required: kernel_error(ORIGIN_Y_REQUIRED),
            not_integer: kernel_error(ORIGIN_Y_NOT_INTEGER).about(Detail::Given),
            too_large: kernel_error(ORIGIN_Y_TOO_LARGE),
        }),
{
    DimensionErrors {
        required: kernel_error(ORIGIN_Y_REQUIRED),
        not_integer: kernel_error(ORIGIN_Y_NOT_INTEGER).about(Detail::Given),
        too_large: kernel_error(ORIGIN_Y_TOO_LARGE),
    }
}

/// How taps that overhang the input's edge are resolved.
#[derive(Debug, Clone, Copy, PartialEq, Eq, Structural)]
pub enum BoundaryMode {
    /// A fixed constant per channel.
    Constant,
    /// Zero on every channel.
    Transparent,
    /// The nearest edge sample.
    Clamp,
    /// Reflection across the edge sample, which is not repeated.
    Mirror,
    /// Periodic tiling.
    Wrap,
    /// No overhang: the output shrinks.
    Valid,
}

/// The mode that a token names.
pub open spec fn mode_of_token(token: Seq<char>) -> Option<BoundaryMode> {
    if token == "constant"@ {
        Some(BoundaryMode::Constant)
    } else if token == "transparent"@ {
        Some(BoundaryMode::Transparent)
    } else if token == "clamp"@ {
        Some(BoundaryMode::Clamp)
    } else if token == "mirror"@ {
        Some(BoundaryMode::Mirror)
    } else if token == "wrap"@ {
        Some(BoundaryMode::Wrap)
    } else if token == "valid"@ {
        Some(BoundaryMode::Valid)
    } else {
        None
    }
}

impl BoundaryMode {
    /// Read a mode from its token.
    pub fn from_token(token: &str) -> (r: Option<BoundaryMode>)
        ensures
            r == mode_of_token(token@),
    {
        if same_text(token, "constant") {
            Some(BoundaryMode::Constant)
        } else if same_text(token, "transparent") {
            Some(BoundaryMode::Transparent)
        } else if same_text(token, "clamp") {
            Some(BoundaryMode::Clamp)
        } else if same_text(token, "mirror") {
            Some(BoundaryMode::Mirror)
        } else if same_text(token, "wrap") {
            Some(BoundaryMode::Wrap)
        } else if same_text(token, "valid") {
            Some(BoundaryMode::Valid)
        } else {
            None
        }
    }
}

/// A kernel: its size, the tap that lands on the output pixel, and its weights row by row, by their
/// binary64 patterns.
#[derive(Debug, Clone)]
pub struct Kernel {
    pub width: u32,
    pub height: u32,
    pub origin_x: u32,
    pub origin_y: u32,
    pub weights: Vec<u64>,
}

/// What a kernel is.
pub ghost struct KernelView {
    pub width: u32,
    pub height: u32,
    pub origin_x: u32,
    pub origin_y: u32,
    pub weights: Seq<u64>,
}

impl View for Kernel {
    type V = KernelView;

    open spec fn view(&self) -> KernelView {
        KernelView {
            width: self.width,
            height: self.height,
            origin_x: self.origin_x,
            origin_y: self.origin_y,
            weights: self.weights@,
        }
    }
}

impl KernelView {
    /// The kernel has a tap, its origin is one of its taps, and every tap has a weight.
    pub open spec fn well_formed(self) -> bool {
        &&& self.origin_x < self.width
        &&& self.origin_y < self.height
        &&& self.weights.len() == self.width * self.height
    }
}

/// A required kernel dimension.
pub open spec fn dimension_of(kernel: Json, name: Seq<char>, errors: DimensionErrors) -> Result<
    u32,
    Error,
> {
    match kernel.get(name) {
        None => Err(errors.required),
        Some(v) => match v.as_unsigned() {
            None => Err(errors.not_integer),
            Some(n) => if n <= u32::MAX {
                Ok(n as u32)
            } else {
                Err(errors.too_large.about(Detail::Whole { value: n }))
            },
        },
    }
}

/// An optional kernel dimension.
pub open spec fn optional_dimension_of(
    kernel: Json,
    name: Seq<char>,
    default: u32,
    errors: DimensionErrors,
) -> Result<u32, Error> {
    if kernel.get(name) is None {
        Ok(default)
    } else {
        dimension_of(kernel, name, errors)
    }
}

/// The weights of a `width` by `height` kernel.
pub open spec fn weights_of(kernel: Json, width: u32, height: u32) -> Result<Seq<u64>, Error> {
    match kernel.get("weights"@) {
        None => Err(kernel_error(WEIGHTS_REQUIRED)),
        Some(v) => match v.as_array() {
            None => Err(kernel_error(WEIGHTS_NOT_ARRAY).about(Detail::Given)),
            Some(items) => if items.len() != width * height {
                Err(
                    kernel_error(WEIGHTS_COUNT).about(
                        Detail::Count { found: items.len() as usize, expected: (width * height) as u64 },
                    ),
                )
            } else {
                finite_numbers_of(
                    items,
                    kernel_error(WEIGHT_NOT_NUMBER),
                    kernel_error(WEIGHT_NOT_FINITE),
                )
            },
        },
    }
}

/// The kernel of `width` by `height` taps that an object describes.
pub open spec fn sized_kernel_of(kernel: Json, width: u32, height: u32) -> Result<KernelView, Error> {
    if width == 0 || height == 0 {
        Err(kernel_error(KERNEL_EMPTY).about(Detail::Size { width, height }))
    } else {
        match optional_dimension_of(kernel, "origin_x"@, width / 2, origin_x_errors()) {
            Err(e) => Err(e),
            Ok(origin_x) => match optional_dimension_of(kernel, "origin_y"@, height / 2, origin_y_errors()) {
                Err(e) => Err(e),
                Ok(origin_y) => if origin_x >= width || origin_y >= height {
                    Err(
                        kernel_error(ORIGIN_OUTSIDE).about(
                            Detail::Origin { x: origin_x, y: origin_y, width, height },
                        ),
                    )
                } else {
                    match weights_of(kernel, width, height) {
                        Err(e) => Err(e),
                        Ok(weights) => Ok(
                            KernelView { width, height, origin_x, origin_y, weights },
                        ),
                    }
                },
            },
        }
    }
}

/// The kernel that the parameters describe: width, height, origins (the geometric centre unless
/// given) and weights, refused at the first thing that is amiss.
pub open spec fn kernel_of(params: Json) -> Result<KernelView, Error> {
    match params.get("kernel"@) {
        None => Err(kernel_error(KERNEL_REQUIRED)),
        Some(kernel) => if !(kernel is Object) {
            Err(kernel_error(KERNEL_NOT_OBJECT).about(Detail::Given))
        } else {
            match dimension_of(kernel, "width"@, width_errors()) {
                Err(e) => Err(e),
                Ok(width) => match dimension_of(kernel, "height"@, height_errors()) {
                    Err(e) => Err(e),
                    Ok(height) => sized_kernel_of(kernel, width, height),
                },
            }
        },
    }
}

/// A result with its kernel taken by its view.
pub open spec fn kernel_result(r: Result<Kernel, Error>) -> Result<KernelView, Error> {
    match r {
        Ok(k) => Ok(k@),
        Err(e) => Err(e),
    }
}

/// Read a required kernel dimension.
pub fn u32_field(kernel: &serde_json::Value, name: &str, errors: DimensionErrors) -> (r: Result<
    u32,
    Error,
>)
    ensures
        r == dimension_of(json_of(*kernel), name@, errors),
{
    match json_get(kernel, name) {
        None => Err(errors.required),
        Some(value) => match json_unsigned(value) {
            None => Err(errors.not_integer),
            Some(n) => if n <= u32::MAX as u64 {
                Ok(n as u32)
            } else {
                Err(errors.too_large.about(Detail::Whole { value: n }))
            },
        },
    }
}

/// Read an optional kernel dimension.
pub fn optional_u32_field(
    kernel: &serde_json::Value,
    name: &str,
    default: u32,
    errors: DimensionErrors,
) -> (r: Result<u32, Error>)
    ensures
        r == optional_dimension_of(json_of(*kernel), name@, default, errors),
{
    if json_get(kernel, name).is_none() {
        return Ok(default);
    }
    u32_field(kernel, name, errors)
}

/// Read the weights of a `width` by `height` kernel.
pub fn weights_field(kernel: &serde_json::Value, width: u32, height: u32) -> (r: Result<
    Vec<u64>,
    Error,
>)
    ensures
        seq_result(r) == weights_of(json_of(*kernel), width, height),
{
    let value: &serde_json::Value = match json_get(kernel, "weights") {
        None => {
            return Err(kernel_error(WEIGHTS_REQUIRED));
        },
        Some(value) => value,
    };
    let items: &Vec<serde_json::Value> = match json_array(value) {
        None => {
            return Err(kernel_error(WEIGHTS_NOT_ARRAY).about(Detail::Given));
        },
        Some(items) => items,
    };
    assert(width * height <= 0xffff_ffff * 0xffff_ffff) by (nonlinear_arith)
        requires
            width <= 0xffff_ffff,
            height <= 0xffff_ffff,
    ;
    if items.len() as u64 != (width as u64) * (height as u64) {
        return Err(
            kernel_error(WEIGHTS_COUNT).about(
                Detail::Count { found: items.len(), expected: (width as u64) * (height as u64) },
            ),
        );
    }
    finite_numbers(items, kernel_error(WEIGHT_NOT_NUMBER), kernel_error(WEIGHT_NOT_FINITE))
}

impl Kernel {
    /// Read and check the `kernel` parameter.
    pub fn parse(params: &serde_json::Value) -> (r: Result<Kernel, Error>)
        ensures
            kernel_result(r) == kernel_of(json_of(*params)),
            r matches Ok(k) ==> k@.well_formed(),
    {
        let kernel: &serde_json::Value = match json_get(params, "kernel") {
            None => {
                return Err(kernel_error(KERNEL_REQUIRED));
            },
            Some(kernel) => kernel,
        };
        if !json_is_object(kernel) {
            return Err(kernel_error(KERNEL_NOT_OBJECT).about(Detail::Given));
        }
        let width: u32 = match u32_field(kernel, "width", width_errors()) {
            Ok(n) => n,
            Err(e) => {
                return Err(e);
            },
        };
        let height: u32 = match u32_field(kernel, "height", height_errors()) {
            Ok(n) => n,
            Err(e) => {
                return Err(e);
            },
        };
        if width == 0 || height == 0 {
            return Err(kernel_error(KERNEL_EMPTY).about(Detail::Size { width, height }));
        }
        let origin_x: u32 = match optional_u32_field(kernel, "origin_x", width / 2, origin_x_errors()) {
            Ok(n) => n,
            Err(e) => {
                return Err(e);
            },
        };
        let origin_y: u32 = match optional_u32_field(kernel, "origin_y", height / 2, origin_y_errors()) {
            Ok(n) => n,
            Err(e) => {
                return Err(e);
            },
        };
        if origin_x >= width || origin_y >= height {
            return Err(kernel_error(ORIGIN_OUTSIDE).about(
                Detail::Origin { x: origin_x, y: origin_y, width, height },
            ));
        }
        match weights_field(kernel, width, height) {
            Ok(weights) => {
                proof {
                    lemma_weights_count(json_of(*kernel), width, height);
                }
                Ok(Kernel { width, height, origin_x, origin_y, weights })
            },
            Err(e) => Err(e),
        }
    }
}

/// Accepted weights are one per tap, and finite.
proof fn lemma_weights_count(kernel: Json, width: u32, height: u32)
    ensures
        weights_of(kernel, width, height) matches Ok(weights) ==> {
            &&& weights.len() == width * height
            &&& forall|i: int| 0 <= i < weights.len() ==> finite(#[trigger] weights[i])
        },
{
    match kernel.get("weights"@) {
        Some(v) => match v.as_array() {
            Some(items) => {
                lemma_finite_numbers(
                    items,
                    kernel_error(WEIGHT_NOT_NUMBER),
                    kernel_error(WEIGHT_NOT_FINITE),
                );
            },
            None => {},
        },
        None => {},
    }
}

/// The boundary mode that the parameters name; `clamp` unless given.
pub open spec fn mode_of(params: Json) -> Result<BoundaryMode, Error> {
    match params.get("mode"@) {
        None => Ok(BoundaryMode::Clamp),
        Some(v) => match v.as_text() {
            None => Err(boundary_error(MODE_NOT_STRING).about(Detail::Given)),
            Some(token) => match mode_of_token(token) {
                None => Err(boundary_error(MODE_UNKNOWN).about(Detail::Given)),
                Some(mode) => Ok(mode),
            },
        },
    }
}

/// Read the optional `mode` parameter.
pub fn mode_param(params: &serde_json::Value) -> (r: Result<BoundaryMode, Error>)
    ensures
        r == mode_of(json_of(*params)),
{
    match json_get(params, "mode") {
        None => Ok(BoundaryMode::Clamp),
        Some(value) => match json_text(value) {
            None => Err(boundary_error(MODE_NOT_STRING).about(Detail::Given)),
            Some(token) => match BoundaryMode::from_token(token) {
                None => Err(boundary_error(MODE_UNKNOWN).about(Detail::Given)),
                Some(mode) => Ok(mode),
            },
        },
    }
}

/// The constant per channel that the parameters give; all zero unless given.
pub open spec fn value_of(params: Json, channels: int) -> Result<Seq<u64>, Error> {
    match params.get("value"@) {
        None => Ok(Seq::new(channels as nat, |i: int| ZERO)),
        Some(v) => match v.as_array() {
            None => Err(boundary_error(VALUE_NOT_ARRAY).about(Detail::Given)),
            Some(items) => if items.len() != channels {
                Err(
                    boundary_error(VALUE_COUNT).about(
                        Detail::Count { found: items.len() as usize, expected: channels as u64 },
                    ),
                )
            } else {
                finite_numbers_of(
                    items,
                    boundary_error(VALUE_NOT_NUMBER),
                    boundary_error(VALUE_NOT_FINITE),
                )
            },
        },
    }
}

/// Read the optional `value` parameter.
pub fn value_param(params: &serde_json::Value, channels: usize) -> (r: Result<Vec<u64>, Error>)
    ensures
        seq_result(r) == value_of(json_of(*params), channels as int),
        r matches Ok(v) ==> v@.len() == channels,
{
    let value: &serde_json::Value = match json_get(params, "value") {
        None => {
            let zeros: Vec<u64> = vec![ZERO; channels];
            assert(zeros@ =~= Seq::new(channels as nat, |i: int| ZERO));
            return Ok(zeros);
        },
        Some(value) => value,
    };
    let items: &Vec<serde_json::Value> = match json_array(value) {
        None => {
            return Err(boundary_error(VALUE_NOT_ARRAY).about(Detail::Given));
        },
        Some(items) => items,
    };
    if items.len() != channels {
        return Err(
            boundary_error(VALUE_COUNT).about(
                Detail::Count { found: items.len(), expected: channels as u64 },
            ),
        );
    }
    proof {
        lemma_finite_numbers(
            json_seq(items@),
            boundary_error(VALUE_NOT_NUMBER),
            boundary_error(VALUE_NOT_FINITE),
        );
    }
    finite_numbers(items, boundary_error(VALUE_NOT_NUMBER), boundary_error(VALUE_NOT_FINITE))
}

/// A fully resolved request.
#[derive(Debug, Clone)]
pub struct ConvolveRequest {
    pub kernel: Kernel,
    pub mode: BoundaryMode,
    pub value: Vec<u64>,
}

/// What a request is.
pub ghost struct RequestView {
    pub kernel: KernelView,
    pub mode: BoundaryMode,
    pub value: Seq<u64>,
}

impl View for ConvolveRequest {
    type V = RequestView;

    open spec fn view(&self) -> RequestView {
        RequestView { kernel: self.kernel@, mode: self.mode, value: self.value@ }
    }
}

/// The request that the parameters make of an input with `channels` channels.
pub open spec fn request_of(params: Json, channels: u32) -> Result<RequestView, Error> {
    match kernel_of(params) {
        Err(e) => Err(e),
        Ok(kernel) => match mode_of(params) {
            Err(e) => Err(e),
            Ok(mode) => match value_of(params, channels as int) {
                Err(e) => Err(e),
                Ok(value) => Ok(RequestView { kernel, mode, value }),
            },
        },
    }
}

/// An accepted request is well formed, and its weights are finite.
pub proof fn lemma_accepted_request(params: Json, channels: u32)
    ensures
        request_of(params, channels) matches Ok(request) ==> {
            &&& request.well_formed(channels as int)
            &&& forall|i: int|
                0 <= i < request.kernel.weights.len() ==> finite(#[trigger] request.kernel.weights[i])
        },
{
    if let Some(kernel) = params.get("kernel"@) {
        let width = dimension_of(kernel, "width"@, width_errors());
        let height = dimension_of(kernel, "height"@, height_errors());
        if width is Ok && height is Ok {
            lemma_weights_count(kernel, width->Ok_0, height->Ok_0);
        }
    }
    if let Some(v) = params.get("value"@) {
        if let Some(items) = v.as_array() {
            lemma_finite_numbers(
                items,
                boundary_error(VALUE_NOT_NUMBER),
                boundary_error(VALUE_NOT_FINITE),
            );
        }
    }
}

/// A result with its request taken by its view.
pub open spec fn request_result(r: Result<ConvolveRequest, Error>) -> Result<RequestView, Error> {
    match r {
        Ok(request) => Ok(request@),
        Err(e) => Err(e),
    }
}

impl RequestView {
    /// The kernel is well formed and there is one constant per channel.
    pub open spec fn well_formed(self, channels: int) -> bool {
        self.kernel.well_formed() && self.value.len() == channels
    }

    /// The output's size: the source's, but for `valid`, which gives up what would overhang.
    pub open spec fn out_extent(self, src: Extent) -> Extent {
        if self.mode == BoundaryMode::Valid {
            Extent {
                width: larger(0, src.width - (self.kernel.width - 1)) as u32,
                height: larger(0, src.height - (self.kernel.height - 1)) as u32,
            }
        } else {
            src
        }
    }

    /// Which source column is under the origin tap at output column zero.
    pub open spec fn shift_x(self) -> int {
        if self.mode == BoundaryMode::Valid {
            self.kernel.origin_x as int
        } else {
            0
        }
    }

    /// Which source row is under the origin tap at output row zero.
    pub open spec fn shift_y(self) -> int {
        if self.mode == BoundaryMode::Valid {
            self.kernel.origin_y as int
        } else {
            0
        }
    }

    /// What stands off the edge in channel `ch` where the mode reads no source sample.
    pub open spec fn off_edge(self, ch: int) -> u64 {
        if self.mode == BoundaryMode::Transparent {
            ZERO
        } else {
            self.value[ch]
        }
    }
}

impl ConvolveRequest {
    /// Read and check every parameter against the input's channel count.
    pub fn resolve(params: &serde_json::Value, channels: u32) -> (r: Result<ConvolveRequest, Error>)
        ensures
            request_result(r) == request_of(json_of(*params), channels),
            r matches Ok(request) ==> request@.well_formed(channels as int),
    {
        let kernel: Kernel = match Kernel::parse(params) {
            Ok(kernel) => kernel,
            Err(e) => {
                return Err(e);
            },
        };
        let mode: BoundaryMode = match mode_param(params) {
            Ok(mode) => mode,
            Err(e) => {
                return Err(e);
            },
        };
        match value_param(params, channels as usize) {
            Ok(value) => Ok(ConvolveRequest { kernel, mode, value }),
            Err(e) => Err(e),
        }
    }

    /// The output's size for a source of size `src`.
    pub fn output_extent(&self, src: Extent) -> (r: Extent)
        requires
            self@.kernel.well_formed(),
        ensures
            r == self@.out_extent(src),
            r.width <= src.width,
            r.height <= src.height,
    {
        if self.mode == BoundaryMode::Valid {
            Extent {
                width: src.width.saturating_sub(self.kernel.width - 1),
                height: src.height.saturating_sub(self.kernel.height - 1),
            }
        } else {
            src
        }
    }
}

/// Where a coordinate lands when it is folded into `[0, n)` by reflections across the end samples,
/// which are not repeated.
pub open spec fn mirror_of(c: int, n: int) -> int {
    if n == 1 {
        0
    } else {
        let m = c % (2 * (n - 1));
        if m < n {
            m
        } else {
            2 * (n - 1) - m
        }
    }
}

/// The source index that a coordinate reads on an axis of `n` samples, none where the mode takes
/// what stands off the edge.
pub open spec fn source_of(coord: int, n: int, mode: BoundaryMode) -> Option<int> {
    if 0 <= coord < n {
        Some(coord)
    } else {
        match mode {
            BoundaryMode::Constant => None,
            BoundaryMode::Transparent => None,
            BoundaryMode::Clamp => Some(
                if coord < 0 {
                    0
                } else {
                    n - 1
                },
            ),
            BoundaryMode::Valid => Some(
                if coord < 0 {
                    0
                } else {
                    n - 1
                },
            ),
            BoundaryMode::Wrap => Some(coord % n),
            BoundaryMode::Mirror => Some(mirror_of(coord, n)),
        }
    }
}

/// Fold a coordinate into `[0, n)` by reflections.
pub fn mirror_index(c: i64, n: i64) -> (r: i64)
    requires
        1 <= n <= 0x4000_0000_0000_0000,
    ensures
        r == mirror_of(c as int, n as int),
        0 <= r < n,
{
    if n == 1 {
        return 0;
    }
    let period: i64 = 2 * (n - 1);
    proof {
        vstd::arithmetic::div_mod::lemma_mod_bound(c as int, period as int);
    }
    let m: i64 = c.checked_rem_euclid(period).unwrap();
    if m < n {
        m
    } else {
        period - m
    }
}

/// The source index that a coordinate reads on an axis of `n` samples.
pub fn source_index(coord: i64, n: i64, mode: BoundaryMode) -> (r: Option<i64>)
    requires
        1 <= n,
        mode == BoundaryMode::Mirror ==> n <= 0x4000_0000_0000_0000,
    ensures
        match r {
            Some(i) => source_of(coord as int, n as int, mode) == Some(i as int) && 0 <= i < n,
            None => source_of(coord as int, n as int, mode) is None,
        },
{
    if coord >= 0 && coord < n {
        return Some(coord);
    }
    match mode {
        BoundaryMode::Constant | BoundaryMode::Transparent => None,
        BoundaryMode::Clamp | BoundaryMode::Valid => if coord < 0 {
            Some(0)
        } else {
            Some(n - 1)
        },
        BoundaryMode::Wrap => {
            proof {
                vstd::arithmetic::div_mod::lemma_mod_bound(coord as int, n as int);
            }
            Some(coord.checked_rem_euclid(n).unwrap())
        },
        BoundaryMode::Mirror => Some(mirror_index(coord, n)),
    }
}

/// What a tap reads: the source sample that its coordinates resolve to, or what stands off the edge.
pub open spec fn read_of<A: Arithmetic>(
    samples: Seq<u32>,
    src: Extent,
    channels: int,
    request: RequestView,
    ch: int,
    sx: int,
    sy: int,
) -> u64 {
    match (
        source_of(sx, src.width as int, request.mode),
        source_of(sy, src.height as int, request.mode),
    ) {
        (Some(x), Some(y)) => widen_of::<A>(samples[sample_at(x, y, ch, src.width as int, channels)]),
        _ => request.off_edge(ch),
    }
}

/// The sum of the first `taps` taps for channel `ch` where the origin tap is at source column `cx`
/// and row `cy`: weight times what the tap reads, added in the kernel's row-major order; a tap of
/// weight zero is left out.
pub open spec fn sum_of<A: Arithmetic>(
    samples: Seq<u32>,
    src: Extent,
    channels: int,
    request: RequestView,
    ch: int,
    cx: int,
    cy: int,
    taps: nat,
) -> u64
    decreases taps,
{
    if taps == 0 {
        ZERO
    } else {
        let t = taps - 1;
        let before = sum_of::<A>(samples, src, channels, request, ch, cx, cy, t as nat);
        let weight = request.kernel.weights[t];
        if rank(weight) == 0 {
            before
        } else {
            let kx = t % (request.kernel.width as int);
            let ky = t / (request.kernel.width as int);
            let sx = cx + kx - request.kernel.origin_x;
            let sy = cy + ky - request.kernel.origin_y;
            fused_of::<A>(
                weight,
                read_of::<A>(samples, src, channels, request, ch, sx, sy),
                before,
            )
        }
    }
}

/// The output sample at column `x`, row `y` and channel `ch`.
pub open spec fn filtered_sample<A: Arithmetic>(
    samples: Seq<u32>,
    src: Extent,
    channels: int,
    request: RequestView,
    x: int,
    y: int,
    ch: int,
) -> u32 {
    narrow_of::<A>(
        sum_of::<A>(
            samples,
            src,
            channels,
            request,
            ch,
            x + request.shift_x(),
            y + request.shift_y(),
            (request.kernel.width * request.kernel.height) as nat,
        ),
    )
}

/// The filtered plane.
pub open spec fn filtered<A: Arithmetic>(
    samples: Seq<u32>,
    src: Extent,
    channels: int,
    request: RequestView,
) -> Seq<u32> {
    let out = request.out_extent(src);
    raster(
        out.width as int,
        out.height as int,
        channels,
        |x: int, y: int, ch: int|
            filtered_sample::<A>(samples, src, channels, request, x, y, ch),
    )
}

/// Filter a channel-interleaved plane of size `src`.
pub fn convolve_samples<A: Arithmetic>(
    samples: &Vec<u32>,
    src: Extent,
    request: &ConvolveRequest,
    channels: u32,
) -> (buf: Vec<u32>)
    requires
        lawful::<A>(),
        request@.well_formed(channels as int),
        samples@.len() == src.area() * channels,
        src.width >= 1,
        src.height >= 1,
        channels >= 1,
    ensures
        buf@ == filtered::<A>(samples@, src, channels as int, request@),
{
    let out: Extent = request.output_extent(src);
    let stride: usize = channels as usize;
    let out_w: usize = out.width as usize;
    let out_h: usize = out.height as usize;
    let (shift_x, shift_y): (i64, i64) = if request.mode == BoundaryMode::Valid {
        (request.kernel.origin_x as i64, request.kernel.origin_y as i64)
    } else {
        (0, 0)
    };
    proof {
        lemma_fewer_samples(
            out_w as int,
            out_h as int,
            src.width as int,
            src.height as int,
            channels as int,
        );
    }
    let held: usize = samples.len();
    let count: usize = plane_len(out_w, out_h, stride);
    let ghost whole = filtered::<A>(samples@, src, channels as int, request@);
    let mut buf: Vec<u32> = Vec::new();
    let mut i: usize = 0;
    while i < count
        invariant
            lawful::<A>(),
            request@.well_formed(channels as int),
            samples@.len() == src.area() * channels,
            src.width >= 1,
            src.height >= 1,
            channels >= 1,
            stride == channels,
            out == request@.out_extent(src),
            out_w == out.width,
            out_h == out.height,
            shift_x == request@.shift_x(),
            shift_y == request@.shift_y(),
            count == out_w * out_h * stride,
            i <= count,
            whole == filtered::<A>(samples@, src, channels as int, request@),
            buf@ == whole.take(i as int),
        decreases count - i,
    {
        proof {
            lemma_sample_of(i as int, out_w as int, out_h as int, stride as int);
        }
        let ch: usize = i % stride;
        let p: usize = i / stride;
        let x: usize = p % out_w;
        let y: usize = p / out_w;
        let sum: u64 = tap_sum::<A>(
            samples,
            src,
            request,
            channels,
            ch,
            x as i64 + shift_x,
            y as i64 + shift_y,
        );
        buf.push(narrow::<A>(sum));
        i = i + 1;
    }
    buf
}

/// Sum all taps for one output sample.
fn tap_sum<A: Arithmetic>(
    samples: &Vec<u32>,
    src: Extent,
    request: &ConvolveRequest,
    channels: u32,
    ch: usize,
    cx: i64,
    cy: i64,
) -> (acc: u64)
    requires
        lawful::<A>(),
        request@.well_formed(channels as int),
        samples@.len() == src.area() * channels,
        src.width >= 1,
        src.height >= 1,
        ch < channels,
        0 <= cx <= 0x2_0000_0000,
        0 <= cy <= 0x2_0000_0000,
    ensures
        acc == sum_of::<A>(
            samples@,
            src,
            channels as int,
            request@,
            ch as int,
            cx as int,
            cy as int,
            (request@.kernel.width * request@.kernel.height) as nat,
        ),
{
    let kw: usize = request.kernel.width as usize;
    let kh: usize = request.kernel.height as usize;
    let ox: i64 = request.kernel.origin_x as i64;
    let oy: i64 = request.kernel.origin_y as i64;
    let src_w: i64 = src.width as i64;
    let src_h: i64 = src.height as i64;
    let held: usize = samples.len();
    let mut acc: u64 = ZERO;
    let taps: usize = request.kernel.weights.len();
    let mut tap: usize = 0;
    while tap < taps
        invariant
            lawful::<A>(),
            request@.well_formed(channels as int),
            samples@.len() == src.area() * channels,
            held == samples@.len(),
            src.width >= 1,
            src.height >= 1,
            src_w == src.width,
            src_h == src.height,
            ch < channels,
            0 <= cx <= 0x2_0000_0000,
            0 <= cy <= 0x2_0000_0000,
            kw == request@.kernel.width,
            kh == request@.kernel.height,
            ox == request@.kernel.origin_x,
            oy == request@.kernel.origin_y,
            taps == kw * kh,
            taps == request@.kernel.weights.len(),
            tap <= taps,
            acc == sum_of::<A>(
                samples@,
                src,
                channels as int,
                request@,
                ch as int,
                cx as int,
                cy as int,
                tap as nat,
            ),
        decreases taps - tap,
    {
        proof {
            crate::lattice::lemma_at_of(tap as int, kw as int, kh as int);
        }
        let weight: u64 = request.kernel.weights[tap];
        if !is_zero(weight) {
            let kx: i64 = (tap % kw) as i64;
            let ky: i64 = (tap / kw) as i64;
            let sx: Option<i64> = source_index(cx + kx - ox, src_w, request.mode);
            let sy: Option<i64> = source_index(cy + ky - oy, src_h, request.mode);
            let sample: u64 = match (sx, sy) {
                (Some(x), Some(y)) => {
                    proof {
                        lemma_sample_at(
                            x as int,
                            y as int,
                            ch as int,
                            src.width as int,
                            src.height as int,
                            channels as int,
                        );
                    }
                    let index: usize = sample_position(
                        x as usize,
                        y as usize,
                        ch,
                        src.width as usize,
                        channels as usize,
                    );
                    widen::<A>(samples[index])
                },
                _ => if request.mode == BoundaryMode::Transparent {
                    ZERO
                } else {
                    request.value[ch]
                },
            };
            acc = fused::<A>(weight, sample, acc);
        }
        tap = tap + 1;
    }
    acc
}

/// The operation.
#[derive(Debug, Clone, Copy)]
pub struct Convolve;

/// The input of the operation: an image or a scalar field.
pub open spec fn input_of(inputs: Map<Seq<char>, ResourceDescriptor>) -> Result<
    ResourceDescriptor,
    Error,
> {
    match port(inputs, "input"@) {
        None => Err(Error::new(ErrorClass::Reference, E_CONVOLVE_INPUT, INPUT_REQUIRED)),
        Some(d) => if supported(d) {
            Ok(d)
        } else {
            Err(Error::new(ErrorClass::Type, E_CONVOLVE_INPUT, INPUT_UNSUPPORTED))
        },
    }
}

/// The resource is an image or a scalar field.
pub open spec fn supported(d: ResourceDescriptor) -> bool {
    d is Image || d is Field1
}

/// The channels of a supported resource.
pub open spec fn channels_of(d: ResourceDescriptor) -> u32 {
    match d {
        ResourceDescriptor::Image(i) => i.layout.channel_count(),
        _ => 1,
    }
}

/// The same resource with another size.
pub open spec fn resized(d: ResourceDescriptor, extent: Extent) -> ResourceDescriptor {
    match d {
        ResourceDescriptor::Image(i) => ResourceDescriptor::Image(ImageDescriptor { extent, ..i }),
        ResourceDescriptor::Field1(f) => ResourceDescriptor::Field1(FieldDescriptor { extent, ..f }),
        other => other,
    }
}

/// What the operation produces: the input's descriptor with the request's output size.
pub open spec fn inferred(inputs: Map<Seq<char>, ResourceDescriptor>, params: Json) -> Result<
    ResourceDescriptor,
    Error,
> {
    match input_of(inputs) {
        Err(e) => Err(e),
        Ok(d) => match request_of(params, channels_of(d)) {
            Err(e) => Err(e),
            Ok(request) => Ok(resized(d, request.out_extent(d.extent()))),
        },
    }
}

/// The mode folds what hangs over an edge back to another place of the axis.
#[verifier::allow_in_spec]
pub fn folds(mode: BoundaryMode) -> bool
    returns
        mode == BoundaryMode::Wrap || mode == BoundaryMode::Mirror,
{
    match mode {
        BoundaryMode::Wrap | BoundaryMode::Mirror => true,
        _ => false,
    }
}

/// What a window from `lo` to `hi` reads of an axis of `n` samples: itself, or the whole axis where
/// it hangs over an edge and the mode folds that back.
pub open spec fn axis_span(lo: int, hi: int, n: int, mode: BoundaryMode) -> (int, int) {
    if folds(mode) && (lo < 0 || hi > n) {
        (0, n)
    } else {
        (lo, hi)
    }
}

/// The source region that an output region reads through a request: the region dilated by the
/// kernel's footprint about its origin, kept inside the source; all of an axis where the mode folds
/// what hangs over its edge.
pub open spec fn footprint(region: Rect, request: RequestView, src: Extent) -> Rect {
    let ox = request.kernel.origin_x;
    let oy = request.kernel.origin_y;
    let across = axis_span(
        region.x0 + request.shift_x() - ox,
        region.x1 + request.shift_x() + (request.kernel.width - 1 - ox),
        src.width as int,
        request.mode,
    );
    let down = axis_span(
        region.y0 + request.shift_y() - oy,
        region.y1 + request.shift_y() + (request.kernel.height - 1 - oy),
        src.height as int,
        request.mode,
    );
    src.clip(across.0, down.0, across.1, down.1)
}

/// The source region that the requested output needs, if any is requested.
pub open spec fn needed(
    requested: Map<Seq<char>, Rect>,
    inputs: Map<Seq<char>, ResourceDescriptor>,
    params: Json,
) -> Result<Option<Rect>, Error> {
    match input_of(inputs) {
        Err(e) => Err(e),
        Ok(d) => match request_of(params, channels_of(d)) {
            Err(e) => Err(e),
            Ok(request) => match port(requested, "output"@) {
                None => Ok(None),
                Some(region) => Ok(Some(footprint(region, request, d.extent()))),
            },
        },
    }
}

/// What the operation makes of a resource under a request: every channel filtered; nothing where
/// the resource has no sample.
pub open spec fn convolved_value<A: Arithmetic>(input: ValueView, request: RequestView) -> ValueView {
    ValueView {
        descriptor: resized(
            input.descriptor,
            request.out_extent(input.descriptor.extent()),
        ),
        channels: input.channels,
        samples: filtered::<A>(
            input.samples,
            input.descriptor.extent(),
            input.channels as int,
            request,
        ),
    }
}

/// What the operation makes of its input.
pub open spec fn convolved<A: Arithmetic>(inputs: Map<Seq<char>, ResourceValue>, params: Json) -> Result<
    ValueView,
    Error,
> {
    match port_view(inputs, "input"@) {
        None => Err(Error::new(ErrorClass::Reference, E_CONVOLVE_INPUT, INPUT_VALUE_REQUIRED)),
        Some(input) => if !supported(input.descriptor) {
            Err(Error::new(ErrorClass::Type, E_CONVOLVE_INPUT, INPUT_UNSUPPORTED))
        } else {
            match request_of(params, input.channels) {
                Err(e) => Err(e),
                Ok(request) => Ok(convolved_value::<A>(input, request)),
            }
        },
    }
}

/// Take the supported `input` descriptor.
pub fn conv_input(inputs: &Ports<ResourceDescriptor>) -> (r: Result<ResourceDescriptor, Error>)
    ensures
        r == input_of(inputs@),
{
    match inputs.get("input") {
        None => Err(Error::new(ErrorClass::Reference, E_CONVOLVE_INPUT, INPUT_REQUIRED)),
        Some(d) => match d {
            ResourceDescriptor::Image(_) | ResourceDescriptor::Field1(_) => Ok(*d),
            _ => Err(Error::new(ErrorClass::Type, E_CONVOLVE_INPUT, INPUT_UNSUPPORTED)),
        },
    }
}

/// The channels of a supported resource.
pub fn input_channels(d: ResourceDescriptor) -> (r: u32)
    ensures
        r == channels_of(d),
{
    match d {
        ResourceDescriptor::Image(i) => i.layout.channel_count(),
        _ => 1,
    }
}

/// The same resource with another size.
pub fn with_extent(d: ResourceDescriptor, extent: Extent) -> (r: ResourceDescriptor)
    ensures
        r == resized(d, extent),
{
    match d {
        ResourceDescriptor::Image(i) => ResourceDescriptor::Image(ImageDescriptor { extent, ..i }),
        ResourceDescriptor::Field1(f) => ResourceDescriptor::Field1(FieldDescriptor { extent, ..f }),
        other => other,
    }
}

/// What a window reads of an axis.
fn span_on(lo: i128, hi: i128, n: u32, mode: BoundaryMode) -> (r: (i128, i128))
    ensures
        axis_span(lo as int, hi as int, n as int, mode) == (r.0 as int, r.1 as int),
{
    if folds(mode) && (lo < 0 || hi > n as i128) {
        (0, n as i128)
    } else {
        (lo, hi)
    }
}

/// The source region that an output region reads.
pub fn required_region(region: Rect, request: &ConvolveRequest, src: Extent) -> (r: Rect)
    requires
        request@.kernel.well_formed(),
    ensures
        r == footprint(region, request@, src),
{
    let ox: i128 = request.kernel.origin_x as i128;
    let oy: i128 = request.kernel.origin_y as i128;
    let kw: i128 = request.kernel.width as i128;
    let kh: i128 = request.kernel.height as i128;
    let (shift_x, shift_y): (i128, i128) = if request.mode == BoundaryMode::Valid {
        (ox, oy)
    } else {
        (0, 0)
    };
    let (x0, x1): (i128, i128) = span_on(
        region.x0 as i128 + shift_x - ox,
        region.x1 as i128 + shift_x + (kw - 1 - ox),
        src.width,
        request.mode,
    );
    let (y0, y1): (i128, i128) = span_on(
        region.y0 as i128 + shift_y - oy,
        region.y1 as i128 + shift_y + (kh - 1 - oy),
        src.height,
        request.mode,
    );
    src.clipped(x0, y0, x1, y1)
}

impl Default for Convolve {
    /// The operation.
    fn default() -> (r: Self)
        ensures
            r == Convolve,
    {
        Convolve
    }
}

impl Convolve {
    /// The operation.
    pub fn new() -> (r: Self)
        ensures
            r == Convolve,
    {
        Convolve
    }

    /// The input ports and their kinds.
    pub fn declared_inputs(&self) -> (r: Vec<(&'static str, ResourceKind)>)
        ensures
            r@ == seq![("input", ResourceKind::Image)],
    {
        vec![("input", ResourceKind::Image)]
    }

    /// The output ports and their kinds.
    pub fn declared_outputs(&self) -> (r: Vec<(&'static str, ResourceKind)>)
        ensures
            r@ == seq![("output", ResourceKind::Image)],
    {
        vec![("output", ResourceKind::Image)]
    }

    /// What the operation produces of inputs like these.
    pub fn infer_outputs(
        &self,
        inputs: &Ports<ResourceDescriptor>,
        params: &serde_json::Value,
    ) -> (r: Result<Ports<ResourceDescriptor>, Error>)
        ensures
            gives_port(r, "output"@, inferred(inputs@, json_of(*params))),
    {
        let input: ResourceDescriptor = match conv_input(inputs) {
            Ok(d) => d,
            Err(e) => {
                return Err(e);
            },
        };
        match ConvolveRequest::resolve(params, input_channels(input)) {
            Err(e) => Err(e),
            Ok(request) => {
                let extent: Extent = request.output_extent(input.extent());
                Ok(one_port("output", with_extent(input, extent)))
            },
        }
    }

    /// Which region of the input the requested output needs.
    pub fn required_inputs(
        &self,
        requested_outputs: &Ports<Rect>,
        inputs: &Ports<ResourceDescriptor>,
        params: &serde_json::Value,
    ) -> (r: Result<Ports<Rect>, Error>)
        ensures
            gives_optional_port(
                r,
                "input"@,
                needed(requested_outputs@, inputs@, json_of(*params)),
            ),
    {
        let input: ResourceDescriptor = match conv_input(inputs) {
            Ok(d) => d,
            Err(e) => {
                return Err(e);
            },
        };
        let request: ConvolveRequest = match ConvolveRequest::resolve(params, input_channels(input)) {
            Err(e) => {
                return Err(e);
            },
            Ok(request) => request,
        };
        match requested_outputs.get("output") {
            None => Ok(Ports::new()),
            Some(region) => {
                Ok(one_port("input", required_region(*region, &request, input.extent())))
            },
        }
    }

    /// Whether the produced resource is an image or a scalar field.
    pub fn validate_postconditions(
        &self,
        outputs: &Ports<ResourceDescriptor>,
        params: &serde_json::Value,
    ) -> (r: Result<Vec<AssertionResult>, Error>)
        ensures
            r matches Ok(v) && v@ == seq![
                if port(outputs@, "output"@) matches Some(d) && supported(d) {
                    AssertionResult::pass("produces_filtered")
                } else {
                    AssertionResult::fail(
                        "produces_filtered",
                        "no `output` Image/Field1 produced",
                    )
                },
            ],
    {
        let outcome: AssertionResult = match outputs.get("output") {
            Some(ResourceDescriptor::Image(_)) | Some(ResourceDescriptor::Field1(_)) => {
                AssertionResult::pass("produces_filtered")
            },
            _ => AssertionResult::fail("produces_filtered", "no `output` Image/Field1 produced"),
        };
        Ok(vec![outcome])
    }

    /// Filter the input.
    pub fn compute<A: Arithmetic>(
        &self,
        inputs: &Ports<ResourceValue>,
        params: &serde_json::Value,
    ) -> (r: Result<Ports<ResourceValue>, Error>)
        requires
            lawful::<A>(),
        ensures
            gives_value(r, "output"@, convolved::<A>(inputs@, json_of(*params))),
    {
        let input: &ResourceValue = match inputs.get("input") {
            None => {
                return Err(
                    Error::new(ErrorClass::Reference, E_CONVOLVE_INPUT, INPUT_VALUE_REQUIRED),
                );
            },
            Some(input) => input,
        };
        match input.descriptor() {
            ResourceDescriptor::Image(_) | ResourceDescriptor::Field1(_) => {},
            _ => {
                return Err(Error::new(ErrorClass::Type, E_CONVOLVE_INPUT, INPUT_UNSUPPORTED));
            },
        }
        let request: ConvolveRequest = match ConvolveRequest::resolve(params, input.channels()) {
            Err(e) => {
                return Err(e);
            },
            Ok(request) => request,
        };
        Ok(one_port("output", convolve_value::<A>(input, &request)))
    }
}

/// Filter an image or a scalar field.
pub fn convolve_value<A: Arithmetic>(input: &ResourceValue, request: &ConvolveRequest) -> (r: ResourceValue)
    requires
        lawful::<A>(),
        supported(input@.descriptor),
        request@.well_formed(input@.channels as int),
    ensures
        r@ == convolved_value::<A>(input@, request@),
{
    let src: Extent = input.extent();
    let channels: u32 = input.channels();
    let out: Extent = request.output_extent(src);
    let held: &Vec<u32> = input.samples();
    let samples: Vec<u32> = if src.width == 0 || src.height == 0 || channels == 0 {
        Vec::new()
    } else {
        convolve_samples::<A>(held, src, request, channels)
    };
    proof {
        lemma_fewer_samples(
            out.width as int,
            out.height as int,
            src.width as int,
            src.height as int,
            channels as int,
        );
        if src.width == 0 || src.height == 0 || channels == 0 {
            assert(src.width * src.height * channels == 0) by (nonlinear_arith)
                requires
                    src.width == 0 || src.height == 0 || channels == 0,
            ;
            assert(samples@ =~= filtered::<A>(held@, src, channels as int, request@));
        }
    }
    assert(samples@ == filtered::<A>(held@, src, channels as int, request@));
    let value: Result<ResourceValue, usize> = ResourceValue::new(
        with_extent(input.descriptor(), out),
        channels,
        samples,
    );
    value.unwrap()
}

/// A resolved source index is an index of the source.
pub proof fn law_source_index_is_in_range(coord: int, n: int, mode: BoundaryMode)
    requires
        n >= 1,
    ensures
        source_of(coord, n, mode) matches Some(i) ==> 0 <= i < n,
        source_of(coord, n, mode) is None <==> !(0 <= coord < n) && (mode == BoundaryMode::Constant
            || mode == BoundaryMode::Transparent),
{
    vstd::arithmetic::div_mod::lemma_mod_bound(coord, n);
    if n > 1 {
        vstd::arithmetic::div_mod::lemma_mod_bound(coord, 2 * (n - 1));
    }
}

/// Wrapping repeats with the source's length.
pub proof fn law_wrap_is_periodic(coord: int, n: int)
    requires
        n >= 1,
    ensures
        source_of(coord + n, n, BoundaryMode::Wrap) == source_of(coord, n, BoundaryMode::Wrap),
{
    vstd::arithmetic::div_mod::lemma_mod_add_multiples_vanish(coord, n);
    if 0 <= coord < n {
        vstd::arithmetic::div_mod::lemma_small_mod(coord as nat, n as nat);
    }
    if 0 <= coord + n < n {
        vstd::arithmetic::div_mod::lemma_small_mod((coord + n) as nat, n as nat);
    }
}

/// Mirroring reads the same sample at equal distances from either end sample.
pub proof fn law_mirror_is_symmetric(d: int, n: int)
    requires
        n >= 1,
    ensures
        source_of(-d, n, BoundaryMode::Mirror) == source_of(d, n, BoundaryMode::Mirror),
        source_of(n - 1 - d, n, BoundaryMode::Mirror) == source_of(n - 1 + d, n, BoundaryMode::Mirror),
{
    lemma_mirror_everywhere(-d, n);
    lemma_mirror_everywhere(d, n);
    lemma_mirror_everywhere(n - 1 - d, n);
    lemma_mirror_everywhere(n - 1 + d, n);
    if n > 1 {
        let period = 2 * (n - 1);
        lemma_mirror_even(d, n);
        lemma_mirror_even(n - 1 + d, n);
        assert(mirror_of(-(n - 1 + d), n) == mirror_of(n - 1 - d, n)) by {
            vstd::arithmetic::div_mod::lemma_mod_add_multiples_vanish(-(n - 1 + d), period);
        }
    }
}

/// Mirroring is the reflection also inside the source.
proof fn lemma_mirror_everywhere(coord: int, n: int)
    requires
        n >= 1,
    ensures
        source_of(coord, n, BoundaryMode::Mirror) == Some(mirror_of(coord, n)),
{
    if 0 <= coord < n && n > 1 {
        vstd::arithmetic::div_mod::lemma_small_mod(coord as nat, (2 * (n - 1)) as nat);
    }
}

proof fn lemma_mirror_even(d: int, n: int)
    requires
        n > 1,
    ensures
        mirror_of(-d, n) == mirror_of(d, n),
{
    let period = 2 * (n - 1);
    let m = d % period;
    vstd::arithmetic::div_mod::lemma_mod_bound(d, period);
    vstd::arithmetic::div_mod::lemma_fundamental_div_mod(d, period);
    let q = d / period;
    assert(-d == period * (-q) - m) by (nonlinear_arith)
        requires
            d == period * q + m,
    ;
    if m == 0 {
        assert(period * (-q) == (-q) * period) by (nonlinear_arith);
        vstd::arithmetic::div_mod::lemma_fundamental_div_mod_converse(-d, period, -q, 0);
    } else {
        assert(period * (-q) - m == (-q - 1) * period + (period - m)) by (nonlinear_arith);
        vstd::arithmetic::div_mod::lemma_fundamental_div_mod_converse(-d, period, -q - 1, period - m);
    }
}

/// Under `valid` every tap of every output pixel reads the source at its own coordinates: nothing
/// is read off the edge.
pub proof fn law_valid_reads_inside(request: RequestView, src: Extent, x: int, y: int, kx: int, ky: int)
    requires
        request.kernel.well_formed(),
        request.mode == BoundaryMode::Valid,
        0 <= x < request.out_extent(src).width,
        0 <= y < request.out_extent(src).height,
        0 <= kx < request.kernel.width,
        0 <= ky < request.kernel.height,
    ensures
        0 <= x + request.shift_x() + kx - request.kernel.origin_x < src.width,
        0 <= y + request.shift_y() + ky - request.kernel.origin_y < src.height,
{
}

/// Every source pixel inside the source that a tap of a requested output pixel addresses lies in the
/// region that the operation asks for.
pub proof fn law_required_region_holds_taps(
    region: Rect,
    request: RequestView,
    src: Extent,
    x: int,
    y: int,
    kx: int,
    ky: int,
)
    requires
        request.kernel.well_formed(),
        region.covers(x, y),
        0 <= kx < request.kernel.width,
        0 <= ky < request.kernel.height,
        0 <= x + request.shift_x() + kx - request.kernel.origin_x < src.width,
        0 <= y + request.shift_y() + ky - request.kernel.origin_y < src.height,
    ensures
        footprint(region, request, src).covers(
            x + request.shift_x() + kx - request.kernel.origin_x,
            y + request.shift_y() + ky - request.kernel.origin_y,
        ),
{
}

/// What tap `t` reads where the origin tap is at source column `cx` and row `cy`.
pub open spec fn tap_read<A: Arithmetic>(
    samples: Seq<u32>,
    src: Extent,
    channels: int,
    request: RequestView,
    ch: int,
    cx: int,
    cy: int,
    t: int,
) -> u64 {
    read_of::<A>(
        samples,
        src,
        channels,
        request,
        ch,
        cx + t % (request.kernel.width as int) - request.kernel.origin_x,
        cy + t / (request.kernel.width as int) - request.kernel.origin_y,
    )
}

/// Two sums whose taps weigh the same and read the same are equal.
proof fn lemma_same_reads<A: Arithmetic>(
    p: Seq<u32>,
    asked: RequestView,
    q: Seq<u32>,
    other: RequestView,
    src: Extent,
    channels: int,
    ch: int,
    cx: int,
    cy: int,
    taps: nat,
)
    requires
        asked.kernel == other.kernel,
        forall|t: int|
            0 <= t < taps ==> #[trigger] tap_read::<A>(p, src, channels, asked, ch, cx, cy, t) == tap_read::<A>(
                q,
                src,
                channels,
                other,
                ch,
                cx,
                cy,
                t,
            ),
    ensures
        sum_of::<A>(p, src, channels, asked, ch, cx, cy, taps) == sum_of::<A>(
            q,
            src,
            channels,
            other,
            ch,
            cx,
            cy,
            taps,
        ),
    decreases taps,
{
    if taps > 0 {
        lemma_same_reads::<A>(p, asked, q, other, src, channels, ch, cx, cy, (taps - 1) as nat);
        assert(tap_read::<A>(p, src, channels, asked, ch, cx, cy, taps - 1) == tap_read::<A>(
            q,
            src,
            channels,
            other,
            ch,
            cx,
            cy,
            taps - 1,
        ));
    }
}

/// The region that the operation asks for suffices: two inputs that agree on it have the same output
/// in the requested region.
pub proof fn law_required_region_suffices<A: Arithmetic>(
    region: Rect,
    p: Seq<u32>,
    q: Seq<u32>,
    src: Extent,
    channels: int,
    request: RequestView,
    x: int,
    y: int,
    ch: int,
)
    requires
        request.well_formed(channels),
        region.covers(x, y),
        0 <= x < request.out_extent(src).width,
        0 <= y < request.out_extent(src).height,
        forall|sx: int, sy: int|
            footprint(region, request, src).covers(sx, sy) ==> p[#[trigger] sample_at(
                sx,
                sy,
                ch,
                src.width as int,
                channels,
            )] == q[sample_at(sx, sy, ch, src.width as int, channels)],
    ensures
        filtered_sample::<A>(p, src, channels, request, x, y, ch) == filtered_sample::<A>(
            q,
            src,
            channels,
            request,
            x,
            y,
            ch,
        ),
{
    let k = request.kernel;
    let cx = x + request.shift_x();
    let cy = y + request.shift_y();
    let taps = (k.width * k.height) as nat;
    assert forall|t: int| 0 <= t < taps implies #[trigger] tap_read::<A>(
        p,
        src,
        channels,
        request,
        ch,
        cx,
        cy,
        t,
    ) == tap_read::<A>(q, src, channels, request, ch, cx, cy, t) by {
        crate::lattice::lemma_at_of(t, k.width as int, k.height as int);
        let sx = cx + t % (k.width as int) - k.origin_x;
        let sy = cy + t / (k.width as int) - k.origin_y;
        law_source_index_is_in_range(sx, src.width as int, request.mode);
        law_source_index_is_in_range(sy, src.height as int, request.mode);
        match (
            source_of(sx, src.width as int, request.mode),
            source_of(sy, src.height as int, request.mode),
        ) {
            (Some(px), Some(py)) => {
                assert(footprint(region, request, src).covers(px, py));
                assert(p[sample_at(px, py, ch, src.width as int, channels)] == q[sample_at(
                    px,
                    py,
                    ch,
                    src.width as int,
                    channels,
                )]);
            },
            _ => {},
        }
    }
    lemma_same_reads::<A>(p, request, q, request, src, channels, ch, cx, cy, taps);
}

/// `transparent` is `constant` with zero, whatever value is given along with it.
pub proof fn law_transparent_is_constant_zero<A: Arithmetic>(
    samples: Seq<u32>,
    src: Extent,
    channels: int,
    kernel: KernelView,
    value: Seq<u64>,
)
    requires
        0 <= channels,
    ensures
        filtered::<A>(
            samples,
            src,
            channels,
            (RequestView { kernel, mode: BoundaryMode::Transparent, value }),
        ) == filtered::<A>(
            samples,
            src,
            channels,
            (RequestView {
                kernel,
                mode: BoundaryMode::Constant,
                value: Seq::new(channels as nat, |ch: int| ZERO),
            }),
        ),
{
    let asked = RequestView { kernel, mode: BoundaryMode::Transparent, value };
    let zeros = Seq::new(channels as nat, |ch: int| ZERO);
    let other = RequestView { kernel, mode: BoundaryMode::Constant, value: zeros };
    let taps = (kernel.width * kernel.height) as nat;
    let a = filtered::<A>(samples, src, channels, asked);
    let b = filtered::<A>(samples, src, channels, other);
    assert forall|i: int| 0 <= i < a.len() implies a[i] == b[i] by {
        crate::lattice::lemma_sample_of(i, src.width as int, src.height as int, channels);
        let x = (i / channels) % (src.width as int);
        let y = (i / channels) / (src.width as int);
        lemma_same_reads::<A>(samples, asked, samples, other, src, channels, i % channels, x, y, taps);
    }
}

/// A kernel whose only weight that is not zero is on its origin leaves a sample as it is, where the
/// arithmetic gives the sample back when it is multiplied by that weight and added to zero.
pub proof fn law_unit_impulse_is_identity<A: Arithmetic>(
    samples: Seq<u32>,
    src: Extent,
    channels: int,
    request: RequestView,
    x: int,
    y: int,
    ch: int,
)
    requires
        request.well_formed(channels),
        request.mode != BoundaryMode::Valid,
        0 <= x < src.width,
        0 <= y < src.height,
        0 <= ch < channels,
        forall|t: int|
            0 <= t < request.kernel.weights.len() ==> ((rank(#[trigger] request.kernel.weights[t]) == 0)
                <==> t != at(
                request.kernel.origin_x as int,
                request.kernel.origin_y as int,
                request.kernel.width as int,
            )),
        narrow_of::<A>(
            fused_of::<A>(
                request.kernel.weights[at(
                    request.kernel.origin_x as int,
                    request.kernel.origin_y as int,
                    request.kernel.width as int,
                )],
                widen_of::<A>(samples[sample_at(x, y, ch, src.width as int, channels)]),
                ZERO,
            ),
        ) == samples[sample_at(x, y, ch, src.width as int, channels)],
    ensures
        filtered_sample::<A>(samples, src, channels, request, x, y, ch) == samples[sample_at(
            x,
            y,
            ch,
            src.width as int,
            channels,
        )],
{
    let k = request.kernel;
    lemma_at_bounds(k.origin_x as int, k.origin_y as int, k.width as int, k.height as int);
    lemma_at_inverse(k.origin_x as int, k.origin_y as int, k.width as int);
    lemma_impulse_sum::<A>(samples, src, channels, request, x, y, ch, k.weights.len());
}

proof fn lemma_impulse_sum<A: Arithmetic>(
    samples: Seq<u32>,
    src: Extent,
    channels: int,
    request: RequestView,
    x: int,
    y: int,
    ch: int,
    taps: nat,
)
    requires
        request.well_formed(channels),
        request.mode != BoundaryMode::Valid,
        0 <= x < src.width,
        0 <= y < src.height,
        taps <= request.kernel.weights.len(),
        forall|t: int|
            0 <= t < request.kernel.weights.len() ==> ((rank(#[trigger] request.kernel.weights[t]) == 0)
                <==> t != at(
                request.kernel.origin_x as int,
                request.kernel.origin_y as int,
                request.kernel.width as int,
            )),
    ensures
        sum_of::<A>(samples, src, channels, request, ch, x, y, taps) == (if taps <= at(
            request.kernel.origin_x as int,
            request.kernel.origin_y as int,
            request.kernel.width as int,
        ) {
            ZERO
        } else {
            fused_of::<A>(
                request.kernel.weights[at(
                    request.kernel.origin_x as int,
                    request.kernel.origin_y as int,
                    request.kernel.width as int,
                )],
                widen_of::<A>(samples[sample_at(x, y, ch, src.width as int, channels)]),
                ZERO,
            )
        }),
    decreases taps,
{
    let k = request.kernel;
    lemma_at_inverse(k.origin_x as int, k.origin_y as int, k.width as int);
    lemma_at_bounds(k.origin_x as int, k.origin_y as int, k.width as int, k.height as int);
    if taps > 0 {
        lemma_impulse_sum::<A>(samples, src, channels, request, x, y, ch, (taps - 1) as nat);
        assert(rank(k.weights[taps - 1]) == 0 <==> taps - 1 != at(
            k.origin_x as int,
            k.origin_y as int,
            k.width as int,
        ));
    }
}

/// The kernel's whole footprint at an output pixel lies inside the source.
pub open spec fn inside_source(request: RequestView, src: Extent, x: int, y: int) -> bool {
    &&& 0 <= x + request.shift_x() - request.kernel.origin_x
    &&& x + request.shift_x() + request.kernel.width - 1 - request.kernel.origin_x < src.width
    &&& 0 <= y + request.shift_y() - request.kernel.origin_y
    &&& y + request.shift_y() + request.kernel.height - 1 - request.kernel.origin_y < src.height
}

/// Away from the edge filtering follows its input: where the kernel lies inside the source at both
/// places, and `moved` has at every pixel under it what `samples` has `(dx, dy)` before, the two
/// outputs agree.
pub proof fn law_translation_away_from_edge<A: Arithmetic>(
    samples: Seq<u32>,
    moved: Seq<u32>,
    src: Extent,
    channels: int,
    request: RequestView,
    x: int,
    y: int,
    ch: int,
    dx: int,
    dy: int,
)
    requires
        request.well_formed(channels),
        inside_source(request, src, x, y),
        inside_source(request, src, x + dx, y + dy),
        forall|sx: int, sy: int|
            0 <= sx < src.width && 0 <= sy < src.height && 0 <= sx + dx < src.width && 0 <= sy + dy
                < src.height ==> moved[#[trigger] sample_at(sx + dx, sy + dy, ch, src.width as int, channels)]
                == samples[sample_at(sx, sy, ch, src.width as int, channels)],
    ensures
        filtered_sample::<A>(moved, src, channels, request, x + dx, y + dy, ch) == filtered_sample::<A>(
            samples,
            src,
            channels,
            request,
            x,
            y,
            ch,
        ),
{
    lemma_translated_sum::<A>(
        samples,
        moved,
        src,
        channels,
        request,
        x,
        y,
        ch,
        dx,
        dy,
        (request.kernel.width * request.kernel.height) as nat,
    );
}

proof fn lemma_translated_sum<A: Arithmetic>(
    samples: Seq<u32>,
    moved: Seq<u32>,
    src: Extent,
    channels: int,
    request: RequestView,
    x: int,
    y: int,
    ch: int,
    dx: int,
    dy: int,
    taps: nat,
)
    requires
        request.well_formed(channels),
        inside_source(request, src, x, y),
        inside_source(request, src, x + dx, y + dy),
        taps <= request.kernel.width * request.kernel.height,
        forall|sx: int, sy: int|
            0 <= sx < src.width && 0 <= sy < src.height && 0 <= sx + dx < src.width && 0 <= sy + dy
                < src.height ==> moved[#[trigger] sample_at(sx + dx, sy + dy, ch, src.width as int, channels)]
                == samples[sample_at(sx, sy, ch, src.width as int, channels)],
    ensures
        sum_of::<A>(
            moved,
            src,
            channels,
            request,
            ch,
            x + dx + request.shift_x(),
            y + dy + request.shift_y(),
            taps,
        ) == sum_of::<A>(
            samples,
            src,
            channels,
            request,
            ch,
            x + request.shift_x(),
            y + request.shift_y(),
            taps,
        ),
    decreases taps,
{
    if taps > 0 {
        let t = taps - 1;
        lemma_translated_sum::<A>(
            samples,
            moved,
            src,
            channels,
            request,
            x,
            y,
            ch,
            dx,
            dy,
            t as nat,
        );
        crate::lattice::lemma_at_of(t, request.kernel.width as int, request.kernel.height as int);
        let sx = x + request.shift_x() + t % (request.kernel.width as int) - request.kernel.origin_x;
        let sy = y + request.shift_y() + t / (request.kernel.width as int) - request.kernel.origin_y;
        assert(moved[sample_at(sx + dx, sy + dy, ch, src.width as int, channels)]
            == samples[sample_at(sx, sy, ch, src.width as int, channels)]);
    }
}

/// What a tap with weight `weight` makes of `wide` alone: their product added to zero, zero where the
/// weight is zero.
pub open spec fn tap_response<A: Arithmetic>(weight: u64, wide: u64) -> u64 {
    if rank(weight) == 0 {
        ZERO
    } else {
        fused_of::<A>(weight, wide, ZERO)
    }
}

/// The response to a single sample is the kernel: at the output pixel whose tap `(kx, ky)` falls on
/// the one pixel that is not zero, away from the edge, what that tap makes of the sample, where adding
/// a weight times zero changes neither zero nor that response.
pub proof fn law_impulse_response_is_the_kernel<A: Arithmetic>(
    samples: Seq<u32>,
    src: Extent,
    channels: int,
    request: RequestView,
    ch: int,
    x: int,
    y: int,
    kx: int,
    ky: int,
    wide: u64,
)
    requires
        request.well_formed(channels),
        inside_source(request, src, x, y),
        0 <= kx < request.kernel.width,
        0 <= ky < request.kernel.height,
        wide == widen_of::<A>(
            samples[sample_at(
                x + request.shift_x() + kx - request.kernel.origin_x,
                y + request.shift_y() + ky - request.kernel.origin_y,
                ch,
                src.width as int,
                channels,
            )],
        ),
        forall|px: int, py: int|
            0 <= px < src.width && 0 <= py < src.height && !(px == x + request.shift_x() + kx
                - request.kernel.origin_x && py == y + request.shift_y() + ky - request.kernel.origin_y)
                ==> widen_of::<A>(
                samples[#[trigger] sample_at(px, py, ch, src.width as int, channels)],
            ) == ZERO,
        ({
            let hot = request.kernel.weights[at(kx, ky, request.kernel.width as int)];
            forall|t: int|
                0 <= t < request.kernel.weights.len() && rank(#[trigger] request.kernel.weights[t]) != 0
                    ==> fused_of::<A>(request.kernel.weights[t], ZERO, ZERO) == ZERO && fused_of::<A>(
                    request.kernel.weights[t],
                    ZERO,
                    tap_response::<A>(hot, wide),
                ) == tap_response::<A>(hot, wide)
        }),
    ensures
        filtered_sample::<A>(samples, src, channels, request, x, y, ch) == narrow_of::<A>(
            tap_response::<A>(
                request.kernel.weights[at(kx, ky, request.kernel.width as int)],
                wide,
            ),
        ),
{
    let k = request.kernel;
    let cx = x + request.shift_x();
    let cy = y + request.shift_y();
    let hot = at(kx, ky, k.width as int);
    lemma_at_bounds(kx, ky, k.width as int, k.height as int);
    lemma_at_inverse(kx, ky, k.width as int);
    assert forall|t: int| 0 <= t < k.weights.len() implies #[trigger] tap_read::<A>(
        samples,
        src,
        channels,
        request,
        ch,
        cx,
        cy,
        t,
    ) == (if t == hot {
        wide
    } else {
        ZERO
    }) by {
        crate::lattice::lemma_at_of(t, k.width as int, k.height as int);
        let px = cx + t % (k.width as int) - k.origin_x;
        let py = cy + t / (k.width as int) - k.origin_y;
        if t != hot {
            assert(widen_of::<A>(samples[sample_at(px, py, ch, src.width as int, channels)]) == ZERO);
        }
    }
    lemma_response_sum::<A>(
        samples,
        src,
        channels,
        request,
        ch,
        cx,
        cy,
        hot,
        wide,
        k.weights.len(),
    );
}

/// The sum up to a tap of which one reads what is not zero.
proof fn lemma_response_sum<A: Arithmetic>(
    samples: Seq<u32>,
    src: Extent,
    channels: int,
    request: RequestView,
    ch: int,
    cx: int,
    cy: int,
    hot: int,
    wide: u64,
    taps: nat,
)
    requires
        0 <= hot < request.kernel.weights.len(),
        taps <= request.kernel.weights.len(),
        forall|t: int|
            0 <= t < request.kernel.weights.len() ==> #[trigger] tap_read::<A>(
                samples,
                src,
                channels,
                request,
                ch,
                cx,
                cy,
                t,
            ) == (if t == hot {
                wide
            } else {
                ZERO
            }),
        forall|t: int|
            0 <= t < request.kernel.weights.len() && rank(#[trigger] request.kernel.weights[t]) != 0
                ==> fused_of::<A>(request.kernel.weights[t], ZERO, ZERO) == ZERO && fused_of::<A>(
                request.kernel.weights[t],
                ZERO,
                tap_response::<A>(request.kernel.weights[hot], wide),
            ) == tap_response::<A>(request.kernel.weights[hot], wide),
    ensures
        sum_of::<A>(samples, src, channels, request, ch, cx, cy, taps) == (if taps <= hot {
            ZERO
        } else {
            tap_response::<A>(request.kernel.weights[hot], wide)
        }),
    decreases taps,
{
    if taps > 0 {
        lemma_response_sum::<A>(
            samples,
            src,
            channels,
            request,
            ch,
            cx,
            cy,
            hot,
            wide,
            (taps - 1) as nat,
        );
        let t = taps - 1;
        assert(tap_read::<A>(samples, src, channels, request, ch, cx, cy, t) == (if t == hot {
            wide
        } else {
            ZERO
        }));
    }
}

/// A channel of the output depends on no other channel of the input.
pub proof fn law_channels_are_independent<A: Arithmetic>(
    samples: Seq<u32>,
    others: Seq<u32>,
    src: Extent,
    channels: int,
    request: RequestView,
    x: int,
    y: int,
    ch: int,
)
    requires
        request.well_formed(channels),
        src.width >= 1,
        src.height >= 1,
        0 <= ch < channels,
        forall|sx: int, sy: int|
            0 <= sx < src.width && 0 <= sy < src.height ==> others[#[trigger] sample_at(
                sx,
                sy,
                ch,
                src.width as int,
                channels,
            )] == samples[sample_at(sx, sy, ch, src.width as int, channels)],
    ensures
        filtered_sample::<A>(others, src, channels, request, x, y, ch) == filtered_sample::<A>(
            samples,
            src,
            channels,
            request,
            x,
            y,
            ch,
        ),
{
    lemma_same_channel_sum::<A>(
        samples,
        others,
        src,
        channels,
        request,
        x + request.shift_x(),
        y + request.shift_y(),
        ch,
        (request.kernel.width * request.kernel.height) as nat,
    );
}

proof fn lemma_same_channel_sum<A: Arithmetic>(
    samples: Seq<u32>,
    others: Seq<u32>,
    src: Extent,
    channels: int,
    request: RequestView,
    cx: int,
    cy: int,
    ch: int,
    taps: nat,
)
    requires
        src.width >= 1,
        src.height >= 1,
        forall|sx: int, sy: int|
            0 <= sx < src.width && 0 <= sy < src.height ==> others[#[trigger] sample_at(
                sx,
                sy,
                ch,
                src.width as int,
                channels,
            )] == samples[sample_at(sx, sy, ch, src.width as int, channels)],
    ensures
        sum_of::<A>(others, src, channels, request, ch, cx, cy, taps) == sum_of::<A>(
            samples,
            src,
            channels,
            request,
            ch,
            cx,
            cy,
            taps,
        ),
    decreases taps,
{
    if taps > 0 {
        let t = taps - 1;
        lemma_same_channel_sum::<A>(samples, others, src, channels, request, cx, cy, ch, t as nat);
        let sx = cx + t % (request.kernel.width as int) - request.kernel.origin_x;
        let sy = cy + t / (request.kernel.width as int) - request.kernel.origin_y;
        law_source_index_is_in_range(sx, src.width as int, request.mode);
        law_source_index_is_in_range(sy, src.height as int, request.mode);
    }
}

} // verus!
