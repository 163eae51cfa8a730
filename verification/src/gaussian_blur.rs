//! Isotropic Gaussian blur: a sampled, normalised Gaussian kernel through the direct correlation.
use crate::arithmetic::{
    exponential, exponential_of, fused_of, lawful, narrow_of, over, over_of, plus, plus_of,
    round_up, round_up_of, times, times_of, to_integer, to_integer_of, whole, whole_of, widen_of,
    Arithmetic,
};
use crate::binary::{
    at_most, finite, is_at_most, is_finite, is_less, less, negate, negated, ONE, THREE, TWO, ZERO,
};
use crate::convolve::{
    channels_of, convolve_value, convolved_value, filtered_sample, footprint, input_channels,
    law_unit_impulse_is_identity, mode_of_token, required_region, supported, BoundaryMode,
    ConvolveRequest, Kernel, KernelView, RequestView, E_CONVOLVE_INPUT, INPUT_UNSUPPORTED,
};
use crate::ir::{
    larger, smaller, AssertionResult, Detail, Error, ErrorClass, Extent, Rect,
    ResourceDescriptor, ResourceKind,
};
use crate::json::{json_double, json_get, json_of, json_text, Json};
use crate::lattice::{at, lemma_at_of, sample_at};
use crate::ports::{
    gives_optional_port, gives_port, gives_value, one_port, port, port_view, Ports,
};
use crate::value::{ResourceValue, ValueView};
use vstd::prelude::*;

verus! {

/// The operation's identifier.
pub const GAUSSIAN_BLUR_OP_ID: &'static str = "filter.gaussian_blur@1";

/// The input was absent or of an unsupported kind.
pub const E_BLUR_INPUT: &'static str = "E_BLUR_INPUT";

/// A parameter was missing or malformed.
pub const E_BLUR_PARAM: &'static str = "E_BLUR_PARAM";

/// At and below this standard deviation, 1e-3 by its binary64 pattern, the blur changes nothing.
pub const SIGMA_CUTOFF: u64 = 0x3f50_624d_d2f1_a9fc;

/// The greatest standard deviation unless the parameters raise it, 512 by its binary64 pattern.
pub const SIGMA_MAX_DEFAULT: u64 = 0x4080_0000_0000_0000;

/// The greatest radius whose kernel has a tap count within 32 bits.
pub const MAX_RADIUS: u32 = 32767;

pub const INPUT_REQUIRED: &'static str = "filter.gaussian_blur requires an `input` resource";

pub const INPUT_VALUE_REQUIRED: &'static str = "filter.gaussian_blur requires an `input` value";

pub const INPUT_WRONG: &'static str = "filter.gaussian_blur `input` must be an Image or Field1 resource";

pub const SIGMA_REQUIRED: &'static str = "filter.gaussian_blur requires a `sigma` parameter";

pub const SIGMA_NOT_NUMBER: &'static str = "filter.gaussian_blur `sigma` must be a number";

pub const SIGMA_RANGE: &'static str = "filter.gaussian_blur `sigma` must be a finite, non-negative number";

pub const SIGMA_MAX_NOT_NUMBER: &'static str = "filter.gaussian_blur `sigma_max` must be a number";

pub const SIGMA_EXCEEDS: &'static str = "filter.gaussian_blur `sigma` exceeds the limit";

pub const MODE_INVALID: &'static str = "filter.gaussian_blur boundary mode is invalid";

/// A refusal for a parameter.
#[verifier::allow_in_spec]
pub fn param_error(class: ErrorClass, message: &'static str) -> Error
    returns
        (Error::new(class, E_BLUR_PARAM, message)),
{
    Error::new(class, E_BLUR_PARAM, message)
}

/// A refusal for an input.
#[verifier::allow_in_spec]
pub fn input_error(class: ErrorClass, message: &'static str) -> Error
    returns
        (Error::new(class, E_BLUR_INPUT, message)),
{
    Error::new(class, E_BLUR_INPUT, message)
}

/// The limit on the standard deviation.
pub open spec fn sigma_max_of(params: Json) -> Result<u64, Error> {
    match params.get("sigma_max"@) {
        None => Ok(SIGMA_MAX_DEFAULT),
        Some(v) => match v.as_double() {
            None => Err(param_error(ErrorClass::Schema, SIGMA_MAX_NOT_NUMBER).about(Detail::Given)),
            Some(bits) => Ok(bits),
        },
    }
}

/// The standard deviation that the parameters give: finite, not negative, and within the limit.
pub open spec fn sigma_of(params: Json) -> Result<u64, Error> {
    match params.get("sigma"@) {
        None => Err(param_error(ErrorClass::Schema, SIGMA_REQUIRED)),
        Some(v) => match v.as_double() {
            None => Err(param_error(ErrorClass::Schema, SIGMA_NOT_NUMBER).about(Detail::Given)),
            Some(sigma) => if !finite(sigma) || less(sigma, ZERO) {
                Err(param_error(ErrorClass::Schema, SIGMA_RANGE).about(Detail::Number { value: sigma }))
            } else {
                match sigma_max_of(params) {
                    Err(e) => Err(e),
                    Ok(max) => if less(max, sigma) {
                        Err(param_error(ErrorClass::Policy, SIGMA_EXCEEDS).about(
            Detail::NumberBeyond { value: sigma, greatest: max },
        ))
                    } else {
                        Ok(sigma)
                    },
                }
            },
        },
    }
}

/// Read the standard deviation.
pub fn sigma_param(params: &serde_json::Value) -> (r: Result<u64, Error>)
    ensures
        r == sigma_of(json_of(*params)),
{
    let sigma: u64 = match json_get(params, "sigma") {
        None => {
            return Err(param_error(ErrorClass::Schema, SIGMA_REQUIRED));
        },
        Some(value) => match json_double(value) {
            None => {
                return Err(param_error(ErrorClass::Schema, SIGMA_NOT_NUMBER).about(Detail::Given));
            },
            Some(bits) => bits,
        },
    };
    if !is_finite(sigma) || is_less(sigma, ZERO) {
        return Err(param_error(ErrorClass::Schema, SIGMA_RANGE).about(Detail::Number { value: sigma }));
    }
    let max: u64 = match json_get(params, "sigma_max") {
        None => SIGMA_MAX_DEFAULT,
        Some(value) => match json_double(value) {
            None => {
                return Err(param_error(ErrorClass::Schema, SIGMA_MAX_NOT_NUMBER).about(Detail::Given));
            },
            Some(bits) => bits,
        },
    };
    if is_less(max, sigma) {
        return Err(param_error(ErrorClass::Policy, SIGMA_EXCEEDS).about(
            Detail::NumberBeyond { value: sigma, greatest: max },
        ));
    }
    Ok(sigma)
}

/// The boundary mode that the parameters name, `clamp` unless they hold one; the mode that shrinks
/// its output is none of a blur's.
pub open spec fn blur_mode_of(params: Json) -> Result<BoundaryMode, Error> {
    match params.get("mode"@) {
        None => Ok(BoundaryMode::Clamp),
        Some(v) => match v.as_text() {
            None => Err(param_error(ErrorClass::Schema, MODE_INVALID).about(Detail::Given)),
            Some(token) => match mode_of_token(token) {
                None => Err(param_error(ErrorClass::Schema, MODE_INVALID).about(Detail::Given)),
                Some(mode) => if mode == BoundaryMode::Valid {
                    Err(param_error(ErrorClass::Schema, MODE_INVALID).about(Detail::Given))
                } else {
                    Ok(mode)
                },
            },
        },
    }
}

/// Read the boundary mode.
pub fn mode_param(params: &serde_json::Value) -> (r: Result<BoundaryMode, Error>)
    ensures
        r == blur_mode_of(json_of(*params)),
{
    match json_get(params, "mode") {
        None => Ok(BoundaryMode::Clamp),
        Some(value) => match json_text(value) {
            None => Err(param_error(ErrorClass::Schema, MODE_INVALID).about(Detail::Given)),
            Some(token) => match BoundaryMode::from_token(token) {
                None => Err(param_error(ErrorClass::Schema, MODE_INVALID).about(Detail::Given)),
                Some(mode) => if mode == BoundaryMode::Valid {
                    Err(param_error(ErrorClass::Schema, MODE_INVALID).about(Detail::Given))
                } else {
                    Ok(mode)
                },
            },
        },
    }
}

/// The kernel's radius: three standard deviations rounded up and at least one, or zero at and below
/// the cutoff.
pub open spec fn radius_of<A: Arithmetic>(sigma: u64) -> int {
    if at_most(sigma, SIGMA_CUTOFF) {
        0
    } else {
        larger(
            1,
            smaller(
                u32::MAX as int,
                to_integer_of::<A>(round_up_of::<A>(times_of::<A>(THREE, sigma))) as int,
            ),
        )
    }
}

/// The kernel's radius for a standard deviation.
pub fn kernel_radius<A: Arithmetic>(sigma: u64) -> (r: u32)
    requires
        lawful::<A>(),
    ensures
        r == radius_of::<A>(sigma),
{
    if is_at_most(sigma, SIGMA_CUTOFF) {
        return 0;
    }
    let n: i64 = to_integer::<A>(round_up::<A>(times::<A>(THREE, sigma)));
    if n < 1 {
        1
    } else if n > u32::MAX as i64 {
        u32::MAX
    } else {
        n as u32
    }
}

/// `-n / two_sigma_sq` exponentiated: the Gaussian at squared distance `n`.
pub open spec fn bell_of<A: Arithmetic>(n: int, two_sigma_sq: u64) -> u64 {
    exponential_of::<A>(over_of::<A>(negated(whole_of::<A>(n as i64)), two_sigma_sq))
}

/// Twice the variance.
pub open spec fn spread_of<A: Arithmetic>(sigma: u64) -> u64 {
    times_of::<A>(times_of::<A>(TWO, sigma), sigma)
}

/// The Gaussian at tap `t` of a kernel with radius `r`, taken in row-major order.
pub open spec fn tap_of<A: Arithmetic>(sigma: u64, r: int, t: int) -> u64 {
    let dx = t % (2 * r + 1) - r;
    let dy = t / (2 * r + 1) - r;
    bell_of::<A>(dx * dx + dy * dy, spread_of::<A>(sigma))
}

/// The sum of the first `n` taps, in row-major order.
pub open spec fn tap_total<A: Arithmetic>(sigma: u64, r: int, n: nat) -> u64
    decreases n,
{
    if n == 0 {
        ZERO
    } else {
        plus_of::<A>(
            tap_total::<A>(sigma, r, (n - 1) as nat),
            tap_of::<A>(sigma, r, n - 1),
        )
    }
}

/// The sampled kernel: every tap over the sum of all, or a single one where the radius is zero.
pub open spec fn kernel_of<A: Arithmetic>(sigma: u64) -> KernelView {
    let r = radius_of::<A>(sigma);
    let side = 2 * r + 1;
    KernelView {
        width: side as u32,
        height: side as u32,
        origin_x: r as u32,
        origin_y: r as u32,
        weights: if r == 0 {
            seq![ONE]
        } else {
            Seq::new(
                (side * side) as nat,
                |t: int|
                    over_of::<A>(
                        tap_of::<A>(sigma, r, t),
                        tap_total::<A>(sigma, r, (side * side) as nat),
                    ),
            )
        },
    }
}

/// The kernel's tap count is within its type.
pub open spec fn kernel_fits<A: Arithmetic>(sigma: u64) -> bool {
    radius_of::<A>(sigma) <= MAX_RADIUS
}

/// Sample the kernel of a standard deviation.
pub fn gaussian_kernel<A: Arithmetic>(sigma: u64) -> (k: Kernel)
    requires
        lawful::<A>(),
        kernel_fits::<A>(sigma),
    ensures
        k@ == kernel_of::<A>(sigma),
        k@.well_formed(),
{
    let r: u32 = kernel_radius::<A>(sigma);
    let side: u32 = 2 * r + 1;
    if r == 0 {
        let weights: Vec<u64> = vec![ONE];
        assert(weights@ =~= seq![ONE]);
        let unit: Kernel = Kernel { width: 1, height: 1, origin_x: 0, origin_y: 0, weights };
        assert(unit.width * unit.height == 1) by (nonlinear_arith)
            requires
                unit.width == 1,
                unit.height == 1,
        ;
        return unit;
    }
    let ri: i64 = r as i64;
    let si: usize = side as usize;
    let spread: u64 = times::<A>(times::<A>(TWO, sigma), sigma);
    assert(1 <= si * si <= 0xffff * 0xffff) by (nonlinear_arith)
        requires
            1 <= si <= 0xffff,
    ;
    let taps: usize = si * si;
    let mut raw: Vec<u64> = Vec::new();
    let mut sum: u64 = ZERO;
    let mut t: usize = 0;
    while t < taps
        invariant
            lawful::<A>(),
            r == radius_of::<A>(sigma),
            1 <= r <= MAX_RADIUS,
            ri == r,
            si == 2 * r + 1,
            taps == si * si,
            spread == spread_of::<A>(sigma),
            t <= taps,
            raw@.len() == t,
            forall|i: int| 0 <= i < t ==> #[trigger] raw@[i] == tap_of::<A>(sigma, r as int, i),
            sum == tap_total::<A>(sigma, r as int, t as nat),
        decreases taps - t,
    {
        proof {
            lemma_at_of(t as int, si as int, si as int);
        }
        let dx: i64 = (t % si) as i64 - ri;
        let dy: i64 = (t / si) as i64 - ri;
        assert(0 <= dx * dx <= 32767 * 32767 && 0 <= dy * dy <= 32767 * 32767) by (nonlinear_arith)
            requires
                -32767 <= dx <= 32767,
                -32767 <= dy <= 32767,
        ;
        let n: i64 = dx * dx + dy * dy;
        let w: u64 = exponential::<A>(over::<A>(negate(whole::<A>(n)), spread));
        sum = plus::<A>(sum, w);
        raw.push(w);
        t = t + 1;
    }
    let mut weights: Vec<u64> = Vec::new();
    let mut i: usize = 0;
    while i < taps
        invariant
            lawful::<A>(),
            i <= taps,
            raw@.len() == taps,
            forall|j: int| 0 <= j < taps ==> #[trigger] raw@[j] == tap_of::<A>(sigma, r as int, j),
            sum == tap_total::<A>(sigma, r as int, taps as nat),
            weights@.len() == i,
            forall|j: int|
                0 <= j < i ==> #[trigger] weights@[j] == over_of::<A>(
                    tap_of::<A>(sigma, r as int, j),
                    sum,
                ),
        decreases taps - i,
    {
        weights.push(over::<A>(raw[i], sum));
        i = i + 1;
    }
    assert(weights@ =~= kernel_of::<A>(sigma).weights);
    Kernel { width: side, height: side, origin_x: r, origin_y: r, weights }
}

/// The correlation that a blur is: its kernel, its boundary mode, and zero off the edge.
pub open spec fn request_for<A: Arithmetic>(sigma: u64, mode: BoundaryMode, channels: u32) -> RequestView {
    RequestView {
        kernel: kernel_of::<A>(sigma),
        mode,
        value: Seq::new(channels as nat, |i: int| ZERO),
    }
}

/// The correlation that the parameters ask for.
pub open spec fn blur_of<A: Arithmetic>(params: Json, channels: u32) -> Result<RequestView, Error> {
    match sigma_of(params) {
        Err(e) => Err(e),
        Ok(sigma) => match blur_mode_of(params) {
            Err(e) => Err(e),
            Ok(mode) => Ok(request_for::<A>(sigma, mode, channels)),
        },
    }
}

/// The kernel of the standard deviation that the parameters give, if any, fits.
pub open spec fn blur_fits<A: Arithmetic>(params: Json) -> bool {
    sigma_of(params) matches Ok(sigma) ==> kernel_fits::<A>(sigma)
}

/// Whether the kernel that the parameters ask for fits.
pub fn fits<A: Arithmetic>(params: &serde_json::Value) -> (r: bool)
    requires
        lawful::<A>(),
    ensures
        r == blur_fits::<A>(json_of(*params)),
{
    match sigma_param(params) {
        Err(_) => true,
        Ok(sigma) => kernel_radius::<A>(sigma) <= MAX_RADIUS,
    }
}

/// The correlation of a standard deviation and a mode.
pub fn convolve_params<A: Arithmetic>(sigma: u64, mode: BoundaryMode, channels: u32) -> (r: ConvolveRequest)
    requires
        lawful::<A>(),
        kernel_fits::<A>(sigma),
    ensures
        r@ == request_for::<A>(sigma, mode, channels),
        r@.well_formed(channels as int),
{
    let kernel: Kernel = gaussian_kernel::<A>(sigma);
    let value: Vec<u64> = vec![ZERO; channels as usize];
    assert(value@ =~= Seq::new(channels as nat, |i: int| ZERO));
    ConvolveRequest { kernel, mode, value }
}

/// Read the correlation that the parameters ask for.
pub fn build_convolve_params<A: Arithmetic>(params: &serde_json::Value, channels: u32) -> (r: Result<
    ConvolveRequest,
    Error,
>)
    requires
        lawful::<A>(),
        blur_fits::<A>(json_of(*params)),
    ensures
        crate::convolve::request_result(r) == blur_of::<A>(json_of(*params), channels),
        r matches Ok(request) ==> request@.well_formed(channels as int),
{
    let sigma: u64 = match sigma_param(params) {
        Err(e) => {
            return Err(e);
        },
        Ok(sigma) => sigma,
    };
    match mode_param(params) {
        Err(e) => Err(e),
        Ok(mode) => Ok(convolve_params::<A>(sigma, mode, channels)),
    }
}

/// The input of the operation.
pub open spec fn input_of(inputs: Map<Seq<char>, ResourceDescriptor>) -> Result<
    ResourceDescriptor,
    Error,
> {
    match port(inputs, "input"@) {
        None => Err(input_error(ErrorClass::Reference, INPUT_REQUIRED)),
        Some(d) => if supported(d) {
            Ok(d)
        } else {
            Err(input_error(ErrorClass::Type, INPUT_WRONG))
        },
    }
}

fn take_input(inputs: &Ports<ResourceDescriptor>) -> (r: Result<ResourceDescriptor, Error>)
    ensures
        r == input_of(inputs@),
{
    match inputs.get("input") {
        None => Err(input_error(ErrorClass::Reference, INPUT_REQUIRED)),
        Some(d) => match d {
            ResourceDescriptor::Image(_) | ResourceDescriptor::Field1(_) => Ok(*d),
            _ => Err(input_error(ErrorClass::Type, INPUT_WRONG)),
        },
    }
}

/// What the operation produces: the input's own descriptor.
pub open spec fn inferred<A: Arithmetic>(inputs: Map<Seq<char>, ResourceDescriptor>, params: Json) -> Result<
    ResourceDescriptor,
    Error,
> {
    match input_of(inputs) {
        Err(e) => Err(e),
        Ok(d) => match blur_of::<A>(params, channels_of(d)) {
            Err(e) => Err(e),
            Ok(_) => Ok(d),
        },
    }
}

/// The source region that the requested output needs, if any is requested.
pub open spec fn needed<A: Arithmetic>(
    requested: Map<Seq<char>, Rect>,
    inputs: Map<Seq<char>, ResourceDescriptor>,
    params: Json,
) -> Result<Option<Rect>, Error> {
    match input_of(inputs) {
        Err(e) => Err(e),
        Ok(d) => match blur_of::<A>(params, channels_of(d)) {
            Err(e) => Err(e),
            Ok(request) => match port(requested, "output"@) {
                None => Ok(None),
                Some(region) => Ok(Some(footprint(region, request, d.extent()))),
            },
        },
    }
}

/// What the operation makes of its input.
pub open spec fn blurred<A: Arithmetic>(inputs: Map<Seq<char>, ResourceValue>, params: Json) -> Result<
    ValueView,
    Error,
> {
    match port_view(inputs, "input"@) {
        None => Err(input_error(ErrorClass::Reference, INPUT_VALUE_REQUIRED)),
        Some(input) => match blur_of::<A>(params, input.channels) {
            Err(e) => Err(e),
            Ok(request) => if supported(input.descriptor) {
                Ok(convolved_value::<A>(input, request))
            } else {
                Err(Error::new(ErrorClass::Type, E_CONVOLVE_INPUT, INPUT_UNSUPPORTED))
            },
        },
    }
}

/// The operation.
#[derive(Debug, Clone, Copy)]
pub struct GaussianBlur;

impl Default for GaussianBlur {
    /// The operation.
    fn default() -> (r: Self)
        ensures
            r == GaussianBlur,
    {
        GaussianBlur
    }
}

impl GaussianBlur {
    /// The operation.
    pub fn new() -> (r: Self)
        ensures
            r == GaussianBlur,
    {
        GaussianBlur
    }

    /// The input ports and their kinds.
    pub fn declared_inputs(&self) -> (r: Vec<(&'static str, ResourceKind)>)
        ensures
            r@ == seq![("input", ResourceKind::Image)],
    {
        vec![("input", ResourceKind::Image)]
    }

    /// The output ports and their kinds.
    pub fn declared_outputs(&self) -> (r: Vec<(&'static str, ResourceKind)>)
        ensures
            r@ == seq![("output", ResourceKind::Image)],
    {
        vec![("output", ResourceKind::Image)]
    }

    /// What the operation produces of inputs like these.
    pub fn infer_outputs<A: Arithmetic>(
        &self,
        inputs: &Ports<ResourceDescriptor>,
        params: &serde_json::Value,
    ) -> (r: Result<Ports<ResourceDescriptor>, Error>)
        ensures
            gives_port(r, "output"@, inferred::<A>(inputs@, json_of(*params))),
    {
        let d: ResourceDescriptor = match take_input(inputs) {
            Err(e) => {
                return Err(e);
            },
            Ok(d) => d,
        };
        match sigma_param(params) {
            Err(e) => {
                return Err(e);
            },
            Ok(_) => {},
        }
        match mode_param(params) {
            Err(e) => Err(e),
            Ok(_) => Ok(one_port("output", d)),
        }
    }

    /// Which region of the input the requested output needs.
    pub fn required_inputs<A: Arithmetic>(
        &self,
        requested_outputs: &Ports<Rect>,
        inputs: &Ports<ResourceDescriptor>,
        params: &serde_json::Value,
    ) -> (r: Result<Ports<Rect>, Error>)
        requires
            lawful::<A>(),
            blur_fits::<A>(json_of(*params)),
        ensures
            gives_optional_port(
                r,
                "input"@,
                needed::<A>(requested_outputs@, inputs@, json_of(*params)),
            ),
    {
        let d: ResourceDescriptor = match take_input(inputs) {
            Err(e) => {
                return Err(e);
            },
            Ok(d) => d,
        };
        let request: ConvolveRequest = match build_convolve_params::<A>(params, input_channels(d)) {
            Err(e) => {
                return Err(e);
            },
            Ok(request) => request,
        };
        match requested_outputs.get("output") {
            None => Ok(Ports::new()),
            Some(region) => Ok(one_port("input", required_region(*region, &request, d.extent()))),
        }
    }

    /// Which region of the input the requested output needs; `None` where the kernel has too many
    /// taps.
    pub fn try_required_inputs<A: Arithmetic>(
        &self,
        requested_outputs: &Ports<Rect>,
        inputs: &Ports<ResourceDescriptor>,
        params: &serde_json::Value,
    ) -> (r: Option<Result<Ports<Rect>, Error>>)
        requires
            lawful::<A>(),
        ensures
            match r {
                None => !blur_fits::<A>(json_of(*params)),
                Some(regions) => {
                    &&& blur_fits::<A>(json_of(*params))
                    &&& gives_optional_port(
                        regions,
                        "input"@,
                        needed::<A>(requested_outputs@, inputs@, json_of(*params)),
                    )
                },
            },
    {
        if !fits::<A>(params) {
            return None;
        }
        Some(self.required_inputs::<A>(requested_outputs, inputs, params))
    }

    /// Whether the produced resource is an image or a scalar field.
    pub fn validate_postconditions(
        &self,
        outputs: &Ports<ResourceDescriptor>,
        _params: &serde_json::Value,
    ) -> (r: Result<Vec<AssertionResult>, Error>)
        ensures
            r matches Ok(v) && v@ == seq![
                if port(outputs@, "output"@) matches Some(d) && supported(d) {
                    AssertionResult::pass("produces_blurred")
                } else {
                    AssertionResult::fail(
                        "produces_blurred",
                        "no `output` Image/Field1 produced",
                    )
                },
            ],
    {
        let outcome: AssertionResult = match outputs.get("output") {
            Some(ResourceDescriptor::Image(_)) | Some(ResourceDescriptor::Field1(_)) => {
                AssertionResult::pass("produces_blurred")
            },
            _ => AssertionResult::fail("produces_blurred", "no `output` Image/Field1 produced"),
        };
        Ok(vec![outcome])
    }

    /// Blur the input.
    pub fn compute<A: Arithmetic>(
        &self,
        inputs: &Ports<ResourceValue>,
        params: &serde_json::Value,
    ) -> (r: Result<Ports<ResourceValue>, Error>)
        requires
            lawful::<A>(),
            blur_fits::<A>(json_of(*params)),
        ensures
            gives_value(r, "output"@, blurred::<A>(inputs@, json_of(*params))),
    {
        let input: &ResourceValue = match inputs.get("input") {
            None => {
                return Err(input_error(ErrorClass::Reference, INPUT_VALUE_REQUIRED));
            },
            Some(input) => input,
        };
        let request: ConvolveRequest = match build_convolve_params::<A>(params, input.channels()) {
            Err(e) => {
                return Err(e);
            },
            Ok(request) => request,
        };
        match input.descriptor() {
            ResourceDescriptor::Image(_) | ResourceDescriptor::Field1(_) => {},
            _ => {
                return Err(Error::new(ErrorClass::Type, E_CONVOLVE_INPUT, INPUT_UNSUPPORTED));
            },
        }
        Ok(one_port("output", convolve_value::<A>(input, &request)))
    }

    /// Blur the input; `None` where the kernel has too many taps.
    pub fn try_compute<A: Arithmetic>(
        &self,
        inputs: &Ports<ResourceValue>,
        params: &serde_json::Value,
    ) -> (r: Option<Result<Ports<ResourceValue>, Error>>)
        requires
            lawful::<A>(),
        ensures
            match r {
                None => !blur_fits::<A>(json_of(*params)),
                Some(out) => {
                    &&& blur_fits::<A>(json_of(*params))
                    &&& gives_value(out, "output"@, blurred::<A>(inputs@, json_of(*params)))
                },
            },
    {
        if !fits::<A>(params) {
            return None;
        }
        Some(self.compute::<A>(inputs, params))
    }
}

/// A blur keeps the size of its input.
pub proof fn law_blur_keeps_extent<A: Arithmetic>(params: Json, channels: u32, src: Extent)
    ensures
        blur_of::<A>(params, channels) matches Ok(request) ==> request.out_extent(src) == src,
{
}

/// A blur is the correlation of its input with its sampled kernel: what the correlation makes of a
/// request with that kernel, mode and zeros off the edge.
pub proof fn law_blur_is_convolution<A: Arithmetic>(
    inputs: Map<Seq<char>, ResourceValue>,
    params: Json,
    input: ValueView,
)
    requires
        port_view(inputs, "input"@) == Some(input),
        supported(input.descriptor),
        sigma_of(params) is Ok,
        blur_mode_of(params) is Ok,
    ensures
        blurred::<A>(inputs, params) == Ok::<ValueView, Error>(
            convolved_value::<A>(
                input,
                request_for::<A>(sigma_of(params)->Ok_0, blur_mode_of(params)->Ok_0, input.channels),
            ),
        ),
{
}

/// At and below the cutoff a blur leaves a sample as it is, where the arithmetic gives the sample back
/// when it is multiplied by one and added to zero.
pub proof fn law_cutoff_is_identity<A: Arithmetic>(
    samples: Seq<u32>,
    src: Extent,
    channels: u32,
    sigma: u64,
    mode: BoundaryMode,
    x: int,
    y: int,
    ch: int,
)
    requires
        at_most(sigma, SIGMA_CUTOFF),
        mode != BoundaryMode::Valid,
        0 <= x < src.width,
        0 <= y < src.height,
        0 <= ch < channels,
        narrow_of::<A>(
            fused_of::<A>(
                ONE,
                widen_of::<A>(samples[sample_at(x, y, ch, src.width as int, channels as int)]),
                ZERO,
            ),
        ) == samples[sample_at(x, y, ch, src.width as int, channels as int)],
    ensures
        filtered_sample::<A>(
            samples,
            src,
            channels as int,
            request_for::<A>(sigma, mode, channels),
            x,
            y,
            ch,
        ) == samples[sample_at(x, y, ch, src.width as int, channels as int)],
{
    let request = request_for::<A>(sigma, mode, channels);
    assert(request.kernel.width * request.kernel.height == 1) by (nonlinear_arith)
        requires
            request.kernel.width == 1,
            request.kernel.height == 1,
    ;
    law_unit_impulse_is_identity::<A>(
        samples,
        src,
        channels as int,
        request,
        x,
        y,
        ch,
    );
}

/// The sampled kernel is symmetric: taps at mirrored and at exchanged offsets have one weight.
pub proof fn law_kernel_is_isotropic<A: Arithmetic>(sigma: u64, dx: int, dy: int)
    requires
        kernel_fits::<A>(sigma),
        -radius_of::<A>(sigma) <= dx <= radius_of::<A>(sigma),
        -radius_of::<A>(sigma) <= dy <= radius_of::<A>(sigma),
    ensures
        ({
            let r = radius_of::<A>(sigma);
            let side = 2 * r + 1;
            let w = kernel_of::<A>(sigma).weights;
            &&& w[at(r + dx, r + dy, side)] == w[at(r - dx, r + dy, side)]
            &&& w[at(r + dx, r + dy, side)] == w[at(r + dy, r + dx, side)]
            &&& w[at(r + dx, r + dy, side)] == w[at(r - dy, r + dx, side)]
        }),
{
    let r = radius_of::<A>(sigma);
    let side = 2 * r + 1;
    if r > 0 {
        lemma_tap::<A>(sigma, r, dx, dy);
        lemma_tap::<A>(sigma, r, -dx, dy);
        lemma_tap::<A>(sigma, r, dy, dx);
        lemma_tap::<A>(sigma, r, -dy, dx);
        assert((-dx) * (-dx) == dx * dx && (-dy) * (-dy) == dy * dy) by (nonlinear_arith);
        assert(r + -dx == r - dx && r + -dy == r - dy);
    }
}

proof fn lemma_tap<A: Arithmetic>(sigma: u64, r: int, dx: int, dy: int)
    requires
        r > 0,
        -r <= dx <= r,
        -r <= dy <= r,
    ensures
        0 <= at(r + dx, r + dy, 2 * r + 1) < (2 * r + 1) * (2 * r + 1),
        tap_of::<A>(sigma, r, at(r + dx, r + dy, 2 * r + 1)) == bell_of::<A>(
            dx * dx + dy * dy,
            spread_of::<A>(sigma),
        ),
{
    crate::lattice::lemma_at_bounds(r + dx, r + dy, 2 * r + 1, 2 * r + 1);
    crate::lattice::lemma_at_inverse(r + dx, r + dy, 2 * r + 1);
}

} // verus!
