//! Gaussian pyramids: the input at the finest level, every coarser one smoothed and reduced two to
//! one from the level above it.
use crate::arithmetic::{lawful, Arithmetic};
use crate::binary::{at_most, finite, is_finite, is_less, less, ZERO};
use crate::convolve::{channels_of, supported};
use crate::frequency::{
    bands_of, contents, copied, countable, downsample, fillable, laplacian_split,
    lemma_child_extent, level_extents, planes_filled, reduced, taps_fit, DEFAULT_PYRAMID_SIGMA,
};
use crate::ir::{
    child_extent, lemma_pyramid_len_grows, level_extent, plane_count, pyramid_len,
    AssertionResult, CoordinateConvention, Detail, DownsampleFactor, Error, ErrorClass, Extent,
    PyramidDescriptor, PyramidPhase, Rect, ResourceDescriptor, ResourceKind, ScalarType,
    MAX_PYRAMID_LEVELS,
};
use crate::json::{
    json_double, json_get, json_of, json_opt, json_text, json_unsigned, same_text, Json,
};
use crate::ports::{gives_port, gives_value, one_port, port, port_view, whole_input, Ports};
use crate::value::{ResourceValue, ValueView};
use vstd::prelude::*;

verus! {

/// The operation's identifier.
pub const GAUSSIAN_PYRAMID_OP_ID: &'static str = "frequency.gaussian_pyramid@1";

/// The input was absent or of an unsupported kind.
pub const E_PYRAMID_INPUT: &'static str = "E_PYRAMID_INPUT";

/// A parameter was missing, of the wrong type, or out of range.
pub const E_PYRAMID_PARAM: &'static str = "E_PYRAMID_PARAM";

/// The greatest standard deviation of the smoothing, 64 by its binary64 pattern.
pub const SIGMA_MAX: u64 = 0x4050_0000_0000_0000;

pub const INPUT_REQUIRED: &'static str = "frequency.gaussian_pyramid requires an `input` resource";

pub const VALUE_REQUIRED: &'static str = "frequency.gaussian_pyramid requires an `input` value";

pub const INPUT_WRONG: &'static str = "frequency.gaussian_pyramid `input` must be an Image or Field1 resource";

pub const UNEXPECTED_LENGTH: &'static str = "frequency.gaussian_pyramid produced a pyramid buffer of unexpected length";

pub const LEVELS_REQUIRED: &'static str = "frequency.gaussian_pyramid requires a `levels` parameter";

pub const LEVELS_NOT_INTEGER: &'static str = "frequency.gaussian_pyramid `levels` must be a positive integer";

pub const LEVELS_RANGE: &'static str = "frequency.gaussian_pyramid `levels` must be in 1..=32";

pub const SIGMA_NOT_NUMBER: &'static str = "frequency.gaussian_pyramid `sigma` must be a number";

pub const SIGMA_RANGE: &'static str = "frequency.gaussian_pyramid `sigma` must be a finite, non-negative number";

pub const SIGMA_EXCEEDS: &'static str = "frequency.gaussian_pyramid `sigma` must not exceed 64";

pub const PHASE_UNKNOWN: &'static str = "frequency.gaussian_pyramid `phase` must be `floor` or `ceil`";

/// A refusal for a parameter.
#[verifier::allow_in_spec]
pub fn param_err(message: &'static str) -> Error
    returns
        (Error::new(ErrorClass::Schema, E_PYRAMID_PARAM, message)),
{
    Error::new(ErrorClass::Schema, E_PYRAMID_PARAM, message)
}

/// A refusal for an input.
#[verifier::allow_in_spec]
pub fn input_err(class: ErrorClass, message: &'static str) -> Error
    returns
        (Error::new(class, E_PYRAMID_INPUT, message)),
{
    Error::new(class, E_PYRAMID_INPUT, message)
}

/// How a pyramid is built: its number of levels, the smoothing's standard deviation by its binary64
/// pattern, and the rounding of odd axes.
#[derive(Debug, Clone, Copy, PartialEq, Eq, Structural)]
pub struct PyramidParams {
    pub levels: u32,
    pub sigma: u64,
    pub phase: PyramidPhase,
}

/// The number of levels that a parameter gives.
pub open spec fn levels_of(levels: Option<Json>) -> Result<u32, Error> {
    match levels {
        None => Err(param_err(LEVELS_REQUIRED)),
        Some(v) => match v.as_unsigned() {
            None => Err(param_err(LEVELS_NOT_INTEGER).about(Detail::Given)),
            Some(n) => if n == 0 || n > MAX_PYRAMID_LEVELS {
                Err(param_err(LEVELS_RANGE).about(
                    Detail::WholeBeyond { value: n, greatest: MAX_PYRAMID_LEVELS as u64 },
                ))
            } else {
                Ok(n as u32)
            },
        },
    }
}

/// The standard deviation that the parameters give, the default unless they hold one.
pub open spec fn sigma_of(params: Json) -> Result<u64, Error> {
    match params.get("sigma"@) {
        None => Ok(DEFAULT_PYRAMID_SIGMA),
        Some(v) => match v.as_double() {
            None => Err(param_err(SIGMA_NOT_NUMBER).about(Detail::Given)),
            Some(sigma) => if !finite(sigma) || less(sigma, ZERO) {
                Err(param_err(SIGMA_RANGE).about(Detail::Number { value: sigma }))
            } else if less(SIGMA_MAX, sigma) {
                Err(param_err(SIGMA_EXCEEDS).about(
                    Detail::NumberBeyond { value: sigma, greatest: SIGMA_MAX },
                ))
            } else {
                Ok(sigma)
            },
        },
    }
}

/// The rounding that the parameters name, `floor` unless they hold one.
pub open spec fn phase_of(params: Json) -> Result<PyramidPhase, Error> {
    match params.get("phase"@) {
        None => Ok(PyramidPhase::Floor),
        Some(v) => match v.as_text() {
            None => Err(param_err(PHASE_UNKNOWN).about(Detail::Given)),
            Some(token) => if token == "floor"@ {
                Ok(PyramidPhase::Floor)
            } else if token == "ceil"@ {
                Ok(PyramidPhase::Ceil)
            } else {
                Err(param_err(PHASE_UNKNOWN).about(Detail::Given))
            },
        },
    }
}

/// What the parameters ask for, the number of levels being given apart.
pub open spec fn pyramid_with(levels: Option<Json>, params: Json) -> Result<PyramidParams, Error> {
    match levels_of(levels) {
        Err(e) => Err(e),
        Ok(levels) => match sigma_of(params) {
            Err(e) => Err(e),
            Ok(sigma) => match phase_of(params) {
                Err(e) => Err(e),
                Ok(phase) => Ok(PyramidParams { levels, sigma, phase }),
            },
        },
    }
}

/// What the parameters ask for.
pub open spec fn pyramid_of(params: Json) -> Result<PyramidParams, Error> {
    pyramid_with(params.get("levels"@), params)
}

/// Read the number of levels.
fn levels_param(levels: Option<&serde_json::Value>) -> (r: Result<u32, Error>)
    ensures
        r == levels_of(json_opt(levels)),
{
    match levels {
        None => Err(param_err(LEVELS_REQUIRED)),
        Some(value) => match json_unsigned(value) {
            None => Err(param_err(LEVELS_NOT_INTEGER).about(Detail::Given)),
            Some(n) => if n == 0 || n > MAX_PYRAMID_LEVELS as u64 {
                Err(param_err(LEVELS_RANGE).about(
                    Detail::WholeBeyond { value: n, greatest: MAX_PYRAMID_LEVELS as u64 },
                ))
            } else {
                Ok(n as u32)
            },
        },
    }
}

/// Read the standard deviation.
fn sigma_param(params: &serde_json::Value) -> (r: Result<u64, Error>)
    ensures
        r == sigma_of(json_of(*params)),
{
    match json_get(params, "sigma") {
        None => Ok(DEFAULT_PYRAMID_SIGMA),
        Some(value) => match json_double(value) {
            None => Err(param_err(SIGMA_NOT_NUMBER).about(Detail::Given)),
            Some(sigma) => if !is_finite(sigma) || is_less(sigma, ZERO) {
                Err(param_err(SIGMA_RANGE).about(Detail::Number { value: sigma }))
            } else if is_less(SIGMA_MAX, sigma) {
                Err(param_err(SIGMA_EXCEEDS).about(
                    Detail::NumberBeyond { value: sigma, greatest: SIGMA_MAX },
                ))
            } else {
                Ok(sigma)
            },
        },
    }
}

/// Read the rounding of odd axes.
fn phase_param(params: &serde_json::Value) -> (r: Result<PyramidPhase, Error>)
    ensures
        r == phase_of(json_of(*params)),
{
    match json_get(params, "phase") {
        None => Ok(PyramidPhase::Floor),
        Some(value) => match json_text(value) {
            None => Err(param_err(PHASE_UNKNOWN).about(Detail::Given)),
            Some(token) => if same_text(token, "floor") {
                Ok(PyramidPhase::Floor)
            } else if same_text(token, "ceil") {
                Ok(PyramidPhase::Ceil)
            } else {
                Err(param_err(PHASE_UNKNOWN).about(Detail::Given))
            },
        },
    }
}

impl PyramidParams {
    /// Read and check the parameters.
    pub fn resolve(params: &serde_json::Value) -> (r: Result<PyramidParams, Error>)
        ensures
            r == pyramid_of(json_of(*params)),
            r matches Ok(p) ==> p.resolved(),
    {
        PyramidParams::resolve_with(json_get(params, "levels"), params)
    }

    /// Read and check the parameters, the number of levels being given apart.
    pub fn resolve_with(levels: Option<&serde_json::Value>, params: &serde_json::Value) -> (r: Result<
        PyramidParams,
        Error,
    >)
        ensures
            r == pyramid_with(json_opt(levels), json_of(*params)),
            r matches Ok(p) ==> p.resolved(),
    {
        match levels_param(levels) {
            Err(e) => Err(e),
            Ok(levels) => match sigma_param(params) {
                Err(e) => Err(e),
                Ok(sigma) => match phase_param(params) {
                    Err(e) => Err(e),
                    Ok(phase) => Ok(PyramidParams { levels, sigma, phase }),
                },
            },
        }
    }

    /// The parameters are within the limits.
    pub open spec fn resolved(self) -> bool {
        1 <= self.levels <= MAX_PYRAMID_LEVELS && at_most(self.sigma, SIGMA_MAX)
    }
}

/// The kernel of the standard deviation that the parameters give, if any, has countable taps.
pub open spec fn pyramid_fits<A: Arithmetic>(params: Json) -> bool {
    pyramid_of(params) matches Ok(p) ==> taps_fit::<A>(p.sigma)
}

/// Whether the kernel that the parameters ask for has countable taps.
pub fn fits<A: Arithmetic>(params: &serde_json::Value) -> (r: bool)
    requires
        lawful::<A>(),
    ensures
        r == pyramid_fits::<A>(json_of(*params)),
{
    match PyramidParams::resolve(params) {
        Err(_) => true,
        Ok(p) => countable::<A>(p.sigma),
    }
}

/// What a pyramid over a plane is.
#[verifier::allow_in_spec]
pub fn pyramid_descriptor(extent: Extent, channels: u32, params: PyramidParams) -> PyramidDescriptor
    returns
        (PyramidDescriptor {
            base_extent: extent,
            levels: params.levels,
            channels,
            scalar: ScalarType::F32,
            factor: DownsampleFactor::Half,
            phase: params.phase,
            coordinates: CoordinateConvention::PixelCenterUpperLeft,
        }),
{
    PyramidDescriptor {
        base_extent: extent,
        levels: params.levels,
        channels,
        scalar: ScalarType::F32,
        factor: DownsampleFactor::Half,
        phase: params.phase,
        coordinates: CoordinateConvention::PixelCenterUpperLeft,
    }
}

/// Level `l` of the pyramid: the base, or the level above it smoothed and reduced.
pub open spec fn gaussian_level<A: Arithmetic>(
    base: Seq<u32>,
    extent: Extent,
    channels: u32,
    params: PyramidParams,
    l: nat,
) -> Seq<u32>
    decreases l,
{
    if l == 0 {
        base
    } else {
        reduced::<A>(
            gaussian_level::<A>(base, extent, channels, params, (l - 1) as nat),
            level_extent(extent, params.phase, (l - 1) as nat),
            channels,
            params.sigma,
            params.phase,
        )
    }
}

/// The first `n` levels, one after the other.
pub open spec fn gaussian_planes<A: Arithmetic>(
    base: Seq<u32>,
    extent: Extent,
    channels: u32,
    params: PyramidParams,
    n: nat,
) -> Seq<u32>
    decreases n,
{
    if n == 0 {
        Seq::empty()
    } else {
        gaussian_planes::<A>(base, extent, channels, params, (n - 1) as nat) + gaussian_level::<A>(
            base,
            extent,
            channels,
            params,
            (n - 1) as nat,
        )
    }
}

/// The number of levels that a pyramid's buffer holds: the base is always among them.
pub open spec fn level_count(params: PyramidParams) -> nat {
    if params.levels == 0 {
        1
    } else {
        params.levels as nat
    }
}

/// Build the levels of a pyramid, finest first, one after the other.
pub fn build_pyramid_samples<A: Arithmetic>(
    base: &Vec<u32>,
    extent: Extent,
    channels: u32,
    params: PyramidParams,
) -> (out: Vec<u32>)
    requires
        lawful::<A>(),
        taps_fit::<A>(params.sigma),
        base@.len() == extent.area() * channels,
    ensures
        out@ == gaussian_planes::<A>(base@, extent, channels, params, level_count(params)),
        out@.len() == pyramid_len(extent, params.phase, channels, level_count(params)),
{
    let mut out: Vec<u32> = copied(base);
    let mut level: Vec<u32> = copied(base);
    let mut at_extent: Extent = extent;
    let mut l: u32 = 1;
    proof {
        reveal_with_fuel(gaussian_planes, 2);
        reveal_with_fuel(pyramid_len, 2);
    }
    while l < params.levels
        invariant
            lawful::<A>(),
            taps_fit::<A>(params.sigma),
            1 <= l,
            l <= level_count(params),
            at_extent == level_extent(extent, params.phase, (l - 1) as nat),
            level@ == gaussian_level::<A>(base@, extent, channels, params, (l - 1) as nat),
            level@.len() == at_extent.area() * channels,
            out@ == gaussian_planes::<A>(base@, extent, channels, params, l as nat),
            out@.len() == pyramid_len(extent, params.phase, channels, l as nat),
        decreases params.levels - l,
    {
        let child: Vec<u32> = downsample::<A>(
            &level,
            at_extent,
            channels,
            params.sigma,
            params.phase,
        );
        let mut added: Vec<u32> = copied(&child);
        out.append(&mut added);
        level = child;
        at_extent = child_extent(at_extent, params.phase);
        l = l + 1;
    }
    out
}

/// The levels of a pyramid, each apart.
pub open spec fn gaussian_stack<A: Arithmetic>(
    base: Seq<u32>,
    extent: Extent,
    channels: u32,
    params: PyramidParams,
) -> Seq<Seq<u32>> {
    Seq::new(
        params.levels as nat,
        |l: int| gaussian_level::<A>(base, extent, channels, params, l as nat),
    )
}

/// The sizes of the levels of a pyramid.
pub open spec fn stack_extents(extent: Extent, params: PyramidParams) -> Seq<Extent> {
    Seq::new(params.levels as nat, |l: int| level_extent(extent, params.phase, l as nat))
}

/// The bands of a plane's pyramid, finest first, one after the other.
pub open spec fn laplacian_planes<A: Arithmetic>(
    base: Seq<u32>,
    extent: Extent,
    channels: u32,
    params: PyramidParams,
) -> Seq<u32> {
    bands_of::<A>(
        gaussian_stack::<A>(base, extent, channels, params),
        stack_extents(extent, params),
        channels,
        params.levels as nat,
    )
}

/// Every level has as many samples as its size says, and is filled from one that has pixels.
pub proof fn lemma_stack_filled<A: Arithmetic>(
    base: Seq<u32>,
    extent: Extent,
    channels: u32,
    params: PyramidParams,
    l: nat,
)
    requires
        base.len() == extent.area() * channels,
    ensures
        gaussian_level::<A>(base, extent, channels, params, l).len() == level_extent(
            extent,
            params.phase,
            l,
        ).area() * channels,
        fillable(
            level_extent(extent, params.phase, l + 1),
            level_extent(extent, params.phase, l),
            channels,
        ),
{
    let at_extent = level_extent(extent, params.phase, l);
    lemma_child_extent(at_extent, params.phase);
    assert(at_extent.area() * channels >= 0) by (nonlinear_arith)
        requires
            at_extent.area() == at_extent.width * at_extent.height,
            at_extent.width >= 0,
            at_extent.height >= 0,
            channels >= 0,
    ;
}

/// Build the levels of a pyramid, each apart.
fn build_levels<A: Arithmetic>(base: &Vec<u32>, extent: Extent, channels: u32, params: PyramidParams) -> (levels: Vec<
    Vec<u32>,
>)
    requires
        lawful::<A>(),
        taps_fit::<A>(params.sigma),
        base@.len() == extent.area() * channels,
    ensures
        contents(levels@) == gaussian_stack::<A>(base@, extent, channels, params),
{
    let mut levels: Vec<Vec<u32>> = Vec::new();
    let mut level: Vec<u32> = copied(base);
    let mut at_extent: Extent = extent;
    let mut l: u32 = 0;
    while l < params.levels
        invariant
            lawful::<A>(),
            taps_fit::<A>(params.sigma),
            l <= params.levels,
            at_extent == level_extent(extent, params.phase, l as nat),
            level@ == gaussian_level::<A>(base@, extent, channels, params, l as nat),
            level@.len() == at_extent.area() * channels,
            levels@.len() == l,
            forall|i: int|
                0 <= i < l ==> (#[trigger] levels@[i])@ == gaussian_level::<A>(
                    base@,
                    extent,
                    channels,
                    params,
                    i as nat,
                ),
        decreases params.levels - l,
    {
        let child: Vec<u32> = downsample::<A>(
            &level,
            at_extent,
            channels,
            params.sigma,
            params.phase,
        );
        levels.push(level);
        level = child;
        at_extent = child_extent(at_extent, params.phase);
        l = l + 1;
    }
    levels
}

/// Build the bands of a plane's pyramid, finest first, one after the other.
pub fn build_laplacian_samples<A: Arithmetic>(
    base: &Vec<u32>,
    extent: Extent,
    channels: u32,
    params: PyramidParams,
) -> (out: Vec<u32>)
    requires
        lawful::<A>(),
        taps_fit::<A>(params.sigma),
        base@.len() == extent.area() * channels,
    ensures
        out@ == laplacian_planes::<A>(base@, extent, channels, params),
{
    let levels: Vec<Vec<u32>> = build_levels::<A>(base, extent, channels, params);
    let extents: Vec<Extent> = level_extents(extent, params.levels, params.phase);
    proof {
        assert(extents@ == stack_extents(extent, params));
        assert(contents(levels@).len() == levels@.len());
        assert forall|l: int| 0 <= l < extents@.len() implies (#[trigger] levels@[l])@.len()
            == extents@[l].area() * channels by {
            lemma_stack_filled::<A>(base@, extent, channels, params, l as nat);
            assert(contents(levels@)[l] == levels@[l]@);
        }
        assert forall|l: int| 0 <= l < extents@.len() - 1 implies fillable(
            extents@[l + 1],
            #[trigger] extents@[l],
            channels,
        ) by {
            lemma_stack_filled::<A>(base@, extent, channels, params, l as nat);
        }
        assert(planes_filled(levels@, extents@, channels));
    }
    laplacian_split::<A>(&levels, &extents, channels)
}

/// The operation.
#[derive(Debug, Clone, Copy)]
pub struct GaussianPyramid;

/// What the operation produces.
pub open spec fn inferred(inputs: Map<Seq<char>, ResourceDescriptor>, params: Json) -> Result<
    ResourceDescriptor,
    Error,
> {
    match port(inputs, "input"@) {
        None => Err(input_err(ErrorClass::Reference, INPUT_REQUIRED)),
        Some(d) => if !supported(d) {
            Err(input_err(ErrorClass::Type, INPUT_WRONG))
        } else {
            match pyramid_of(params) {
                Err(e) => Err(e),
                Ok(resolved) => {
                    let pyramid = pyramid_descriptor(d.extent(), channels_of(d), resolved);
                    match pyramid.validity() {
                        Err(e) => Err(e),
                        Ok(_) => Ok(ResourceDescriptor::Pyramid(pyramid)),
                    }
                },
            }
        },
    }
}

/// What the operation makes of its input.
pub open spec fn pyramid_value<A: Arithmetic>(inputs: Map<Seq<char>, ResourceValue>, params: Json) -> Result<
    ValueView,
    Error,
> {
    match port_view(inputs, "input"@) {
        None => Err(input_err(ErrorClass::Reference, VALUE_REQUIRED)),
        Some(input) => match pyramid_of(params) {
            Err(e) => Err(e),
            Ok(resolved) => {
                let extent = input.descriptor.extent();
                let pyramid = pyramid_descriptor(extent, input.channels, resolved);
                match pyramid.validity() {
                    Err(e) => Err(e),
                    Ok(_) => if input.samples.len() != extent.area() * input.channels {
                        Err(
                            input_err(ErrorClass::Execution, UNEXPECTED_LENGTH).about(
                                Detail::Whole { value: input.samples.len() as u64 },
                            ),
                        )
                    } else {
                        Ok(
                            ValueView {
                                descriptor: ResourceDescriptor::Pyramid(pyramid),
                                channels: input.channels,
                                samples: gaussian_planes::<A>(
                                    input.samples,
                                    extent,
                                    input.channels,
                                    resolved,
                                    resolved.levels as nat,
                                ),
                            },
                        )
                    },
                }
            },
        },
    }
}

impl Default for GaussianPyramid {
    /// The operation.
    fn default() -> (r: Self)
        ensures
            r == GaussianPyramid,
    {
        GaussianPyramid
    }
}

impl GaussianPyramid {
    /// The operation.
    pub fn new() -> (r: Self)
        ensures
            r == GaussianPyramid,
    {
        GaussianPyramid
    }

    /// The input ports and their kinds.
    pub fn declared_inputs(&self) -> (r: Vec<(&'static str, ResourceKind)>)
        ensures
            r@ == seq![("input", ResourceKind::Image)],
    {
        vec![("input", ResourceKind::Image)]
    }

    /// The output ports and their kinds.
    pub fn declared_outputs(&self) -> (r: Vec<(&'static str, ResourceKind)>)
        ensures
            r@ == seq![("pyramid", ResourceKind::Pyramid)],
    {
        vec![("pyramid", ResourceKind::Pyramid)]
    }

    /// What the operation produces of inputs like these.
    pub fn infer_outputs(
        &self,
        inputs: &Ports<ResourceDescriptor>,
        params: &serde_json::Value,
    ) -> (r: Result<Ports<ResourceDescriptor>, Error>)
        ensures
            gives_port(r, "pyramid"@, inferred(inputs@, json_of(*params))),
    {
        let (extent, channels): (Extent, u32) = match inputs.get("input") {
            None => {
                return Err(input_err(ErrorClass::Reference, INPUT_REQUIRED));
            },
            Some(ResourceDescriptor::Image(d)) => (d.extent, d.layout.channel_count()),
            Some(ResourceDescriptor::Field1(d)) => (d.extent, 1),
            Some(_) => {
                return Err(input_err(ErrorClass::Type, INPUT_WRONG));
            },
        };
        let resolved: PyramidParams = match PyramidParams::resolve(params) {
            Err(e) => {
                return Err(e);
            },
            Ok(resolved) => resolved,
        };
        let pyramid: PyramidDescriptor = pyramid_descriptor(extent, channels, resolved);
        match pyramid.validate() {
            Err(e) => Err(e),
            Ok(_) => Ok(one_port("pyramid", ResourceDescriptor::Pyramid(pyramid))),
        }
    }

    /// The whole input is needed, whatever is requested.
    pub fn required_inputs(
        &self,
        _requested_outputs: &Ports<Rect>,
        inputs: &Ports<ResourceDescriptor>,
        _params: &serde_json::Value,
    ) -> (r: Result<Ports<Rect>, Error>)
        ensures
            r matches Ok(regions) && regions@ == whole_input(inputs@, "input"@),
    {
        match inputs.get("input") {
            None => Ok(Ports::new()),
            Some(d) => Ok(one_port("input", d.extent().full_rect())),
        }
    }

    /// Whether the produced resource is a pyramid.
    pub fn validate_postconditions(
        &self,
        outputs: &Ports<ResourceDescriptor>,
        _params: &serde_json::Value,
    ) -> (r: Result<Vec<AssertionResult>, Error>)
        ensures
            r matches Ok(v) && v@ == seq![
                if port(outputs@, "pyramid"@) matches Some(d) && d is Pyramid {
                    AssertionResult::pass("produces_pyramid")
                } else {
                    AssertionResult::fail("produces_pyramid", "no `pyramid` output produced")
                },
            ],
    {
        let outcome: AssertionResult = match outputs.get("pyramid") {
            Some(ResourceDescriptor::Pyramid(_)) => AssertionResult::pass("produces_pyramid"),
            _ => AssertionResult::fail("produces_pyramid", "no `pyramid` output produced"),
        };
        Ok(vec![outcome])
    }

    /// Build the pyramid over the input.
    pub fn compute<A: Arithmetic>(
        &self,
        inputs: &Ports<ResourceValue>,
        params: &serde_json::Value,
    ) -> (r: Result<Ports<ResourceValue>, Error>)
        requires
            lawful::<A>(),
            pyramid_fits::<A>(json_of(*params)),
        ensures
            gives_value(r, "pyramid"@, pyramid_value::<A>(inputs@, json_of(*params))),
    {
        let input: &ResourceValue = match inputs.get("input") {
            None => {
                return Err(input_err(ErrorClass::Reference, VALUE_REQUIRED));
            },
            Some(input) => input,
        };
        let channels: u32 = input.channels();
        let extent: Extent = input.extent();
        let resolved: PyramidParams = match PyramidParams::resolve(params) {
            Err(e) => {
                return Err(e);
            },
            Ok(resolved) => resolved,
        };
        let pyramid: PyramidDescriptor = pyramid_descriptor(extent, channels, resolved);
        match pyramid.validate() {
            Err(e) => {
                return Err(e);
            },
            Ok(_) => {},
        }
        let base: &Vec<u32> = input.samples();
        if base.len() as u128 != plane_count(extent, channels) {
            return Err(
                input_err(ErrorClass::Execution, UNEXPECTED_LENGTH).about(
                    Detail::Whole { value: base.len() as u64 },
                ),
            );
        }
        let samples: Vec<u32> = build_pyramid_samples::<A>(base, extent, channels, resolved);
        let value: Result<ResourceValue, usize> = ResourceValue::new(
            ResourceDescriptor::Pyramid(pyramid),
            channels,
            samples,
        );
        Ok(one_port("pyramid", value.unwrap()))
    }

    /// Build the pyramid over the input; `None` where the kernel has too many taps.
    pub fn try_compute<A: Arithmetic>(
        &self,
        inputs: &Ports<ResourceValue>,
        params: &serde_json::Value,
    ) -> (r: Option<Result<Ports<ResourceValue>, Error>>)
        requires
            lawful::<A>(),
        ensures
            match r {
                None => !pyramid_fits::<A>(json_of(*params)),
                Some(out) => {
                    &&& pyramid_fits::<A>(json_of(*params))
                    &&& gives_value(out, "pyramid"@, pyramid_value::<A>(inputs@, json_of(*params)))
                },
            },
    {
        if !fits::<A>(params) {
            return None;
        }
        Some(self.compute::<A>(inputs, params))
    }
}

/// The first `n` levels hold as many samples as their sizes say.
pub proof fn lemma_planes_len<A: Arithmetic>(
    base: Seq<u32>,
    extent: Extent,
    channels: u32,
    params: PyramidParams,
    n: nat,
)
    requires
        base.len() == extent.area() * channels,
    ensures
        gaussian_planes::<A>(base, extent, channels, params, n).len() == pyramid_len(
            extent,
            params.phase,
            channels,
            n,
        ),
    decreases n,
{
    if n > 0 {
        lemma_planes_len::<A>(base, extent, channels, params, (n - 1) as nat);
        lemma_stack_filled::<A>(base, extent, channels, params, (n - 1) as nat);
    }
}

/// Level `l` of a built pyramid, read at its place, is the base where `l` is zero, and otherwise the
/// level above it smoothed and reduced.
pub proof fn law_levels_read_back<A: Arithmetic>(
    base: Seq<u32>,
    extent: Extent,
    channels: u32,
    params: PyramidParams,
    n: nat,
    l: nat,
)
    requires
        base.len() == extent.area() * channels,
        l < n,
    ensures
        0 <= pyramid_len(extent, params.phase, channels, l) <= pyramid_len(
            extent,
            params.phase,
            channels,
            l + 1,
        ) <= gaussian_planes::<A>(base, extent, channels, params, n).len(),
        gaussian_planes::<A>(base, extent, channels, params, n).subrange(
            pyramid_len(extent, params.phase, channels, l),
            pyramid_len(extent, params.phase, channels, l + 1),
        ) == gaussian_level::<A>(base, extent, channels, params, l),
        l == 0 ==> gaussian_level::<A>(base, extent, channels, params, l) == base,
    decreases n,
{
    lemma_planes_len::<A>(base, extent, channels, params, (n - 1) as nat);
    lemma_planes_len::<A>(base, extent, channels, params, n);
    lemma_pyramid_len_grows(extent, params.phase, channels, l, l + 1);
    lemma_pyramid_len_grows(extent, params.phase, channels, l + 1, n);
    if l + 1 < n {
        law_levels_read_back::<A>(base, extent, channels, params, (n - 1) as nat, l);
    }
}

} // verus!
