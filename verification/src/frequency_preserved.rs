//! The check that an edit kept the energy of every frequency band outside the edited region.
use crate::arithmetic::{lawful, minus, minus_of, over, over_of, plus, plus_of, Arithmetic};
use crate::binary::{
    absolute, at_most, drop_sign, finite, is_at_most, is_finite, is_less, is_sample_less, less, nan,
    sample_less, SAMPLE_ZERO, ZERO,
};
use crate::convolve::{channels_of, supported};
use crate::frequency::{copied, countable, taps_fit};
use crate::frequency_energy::{
    coverage_of, energy_params_of, frequency_energy_of, in_whole_pixel, mask_in, mask_opt, mask_samples, measured,
    pixel_width, single_plane, FrequencyEnergyParams,
};
use crate::inspect::{check_report_output, report_outcome};
use crate::ir::{
    smaller, AssertionResult, Detail, Error, ErrorClass, Extent, Rect, ReportDescriptor,
    ResourceDescriptor, ResourceKind,
};
use crate::json::{json_double, json_get, json_of, json_text, same_text, Json};
use crate::ports::{gives_port, one_port, port, port_view, request_whole, with_whole, Ports};
use crate::report::{
    gives_report, report_alone, AssertionOutcome, AssertionSeverity, ChannelStats, Findings,
    FrequencyEnergyData, Report, ReportView,
};
use crate::value::{ResourceValue, ValueView};
use vstd::prelude::*;

verus! {

/// The operation's identifier.
pub const FREQUENCY_PRESERVED_OP_ID: &'static str = "assert.frequency_preserved@1";

/// An input was absent or of the wrong kind.
pub const E_FREQ_PRESERVED_INPUT: &'static str = "E_FREQ_PRESERVED_INPUT";

/// A parameter was missing, of the wrong type, or out of range.
pub const E_FREQ_PRESERVED_PARAM: &'static str = "E_FREQ_PRESERVED_PARAM";

/// The inputs differ in size or channel count.
pub const E_FREQ_PRESERVED_SHAPE: &'static str = "E_FREQ_PRESERVED_SHAPE";

/// What is added to an energy before it divides, 1e-9 by its binary64 pattern.
pub const ENERGY_EPSILON: u64 = 0x3e11_2e0b_e826_d695;

/// The tolerance unless the parameters give one, 0.05 by its binary64 pattern.
pub const DEFAULT_TOLERANCE: u64 = 0x3fa9_9999_9999_999a;

pub const BEFORE_REQUIRED: &'static str = "assert.frequency_preserved requires a `before` input";

pub const AFTER_REQUIRED: &'static str = "assert.frequency_preserved requires a `after` input";

pub const BEFORE_VALUE_REQUIRED: &'static str = "assert.frequency_preserved requires a `before` input value";

pub const AFTER_VALUE_REQUIRED: &'static str = "assert.frequency_preserved requires a `after` input value";

pub const INPUT_WRONG: &'static str = "assert.frequency_preserved inputs must be Image or Field1 resources";

pub const MASK_WRONG: &'static str = "assert.frequency_preserved `mask` input must be a mask resource";

pub const EXTENT_MISMATCH: &'static str = "assert.frequency_preserved: `before` and `after` must share an extent";

pub const VALUE_MISMATCH: &'static str = "assert.frequency_preserved: `before` and `after` must share extent and channel count";

pub const MASK_MISMATCH: &'static str = "assert.frequency_preserved: the `mask` must share the input extent";

pub const BANDS_REQUIRED: &'static str = "assert.frequency_preserved requires a `bands` parameter";

pub const TOLERANCE_INVALID: &'static str = "assert.frequency_preserved `tolerance` must be a finite non-negative number";

pub const SEVERITY_UNKNOWN: &'static str = "assert.frequency_preserved `severity` must be `error`, `warning`, or `metric`";

/// A refusal for a parameter.
#[verifier::allow_in_spec]
pub fn param_error(message: &'static str) -> Error
    returns
        (Error::new(ErrorClass::Schema, E_FREQ_PRESERVED_PARAM, message)),
{
    Error::new(ErrorClass::Schema, E_FREQ_PRESERVED_PARAM, message)
}

/// A refusal for an input.
#[verifier::allow_in_spec]
pub fn input_error(class: ErrorClass, message: &'static str) -> Error
    returns
        (Error::new(class, E_FREQ_PRESERVED_INPUT, message)),
{
    Error::new(class, E_FREQ_PRESERVED_INPUT, message)
}

/// A refusal of inputs that do not match.
#[verifier::allow_in_spec]
pub fn shape_mismatch(message: &'static str) -> Error
    returns
        (Error::new(ErrorClass::Semantic, E_FREQ_PRESERVED_SHAPE, message)),
{
    Error::new(ErrorClass::Semantic, E_FREQ_PRESERVED_SHAPE, message)
}

/// The greatest relative change of a band's energy that the parameters allow.
pub open spec fn tolerance_of(params: Json) -> Result<u64, Error> {
    match params.get("tolerance"@) {
        None => Ok(DEFAULT_TOLERANCE),
        Some(v) => match v.as_double() {
            None => Err(param_error(TOLERANCE_INVALID).about(Detail::Given)),
            Some(t) => if !finite(t) || less(t, ZERO) {
                Err(param_error(TOLERANCE_INVALID).about(Detail::Number { value: t }))
            } else {
                Ok(t)
            },
        },
    }
}

/// Read the tolerance.
pub fn resolve_tolerance(params: &serde_json::Value) -> (r: Result<u64, Error>)
    ensures
        r == tolerance_of(json_of(*params)),
{
    match json_get(params, "tolerance") {
        None => Ok(DEFAULT_TOLERANCE),
        Some(value) => match json_double(value) {
            None => Err(param_error(TOLERANCE_INVALID).about(Detail::Given)),
            Some(t) => if !is_finite(t) || is_less(t, ZERO) {
                Err(param_error(TOLERANCE_INVALID).about(Detail::Number { value: t }))
            } else {
                Ok(t)
            },
        },
    }
}

/// The severity that the parameters name, `error` unless they hold one.
pub open spec fn severity_of(params: Json) -> Result<AssertionSeverity, Error> {
    match params.get("severity"@) {
        None => Ok(AssertionSeverity::Error),
        Some(v) => match v.as_text() {
            None => Err(param_error(SEVERITY_UNKNOWN).about(Detail::Given)),
            Some(token) => if token == "error"@ {
                Ok(AssertionSeverity::Error)
            } else if token == "warning"@ {
                Ok(AssertionSeverity::Warning)
            } else if token == "metric"@ {
                Ok(AssertionSeverity::Metric)
            } else {
                Err(param_error(SEVERITY_UNKNOWN).about(Detail::Given))
            },
        },
    }
}

/// Read the severity.
pub fn resolve_severity(params: &serde_json::Value) -> (r: Result<AssertionSeverity, Error>)
    ensures
        r == severity_of(json_of(*params)),
{
    match json_get(params, "severity") {
        None => Ok(AssertionSeverity::Error),
        Some(value) => match json_text(value) {
            None => Err(param_error(SEVERITY_UNKNOWN).about(Detail::Given)),
            Some(token) => if same_text(token, "error") {
                Ok(AssertionSeverity::Error)
            } else if same_text(token, "warning") {
                Ok(AssertionSeverity::Warning)
            } else if same_text(token, "metric") {
                Ok(AssertionSeverity::Metric)
            } else {
                Err(param_error(SEVERITY_UNKNOWN).about(Detail::Given))
            },
        },
    }
}

/// What the parameters ask for: what is measured, the tolerance, and the severity.
pub open spec fn request_of(params: Json) -> Result<
    (FrequencyEnergyParams, u64, AssertionSeverity),
    Error,
> {
    if params.get("bands"@) is None {
        Err(param_error(BANDS_REQUIRED))
    } else {
        match energy_params_of(params) {
            Err(e) => Err(param_error(e.message).about(e.detail)),
            Ok(energy) => match tolerance_of(params) {
                Err(e) => Err(e),
                Ok(tolerance) => match severity_of(params) {
                    Err(e) => Err(e),
                    Ok(severity) => Ok((energy, tolerance, severity)),
                },
            },
        }
    }
}

/// Read and check the parameters.
pub fn resolve_params(params: &serde_json::Value) -> (r: Result<
    (FrequencyEnergyParams, u64, AssertionSeverity),
    Error,
>)
    ensures
        r == request_of(json_of(*params)),
        r matches Ok((energy, _, _)) ==> energy.pyramid.resolved(),
{
    if json_get(params, "bands").is_none() {
        return Err(param_error(BANDS_REQUIRED));
    }
    match FrequencyEnergyParams::resolve(params) {
        Err(e) => Err(param_error(e.message).about(e.detail)),
        Ok(energy) => match resolve_tolerance(params) {
            Err(e) => Err(e),
            Ok(tolerance) => match resolve_severity(params) {
                Err(e) => Err(e),
                Ok(severity) => Ok((energy, tolerance, severity)),
            },
        },
    }
}

/// Samples with those inside the mask made zero: a pixel goes where its coverage is above zero. What
/// follows the last whole pixel stays.
pub open spec fn untouched(base: Seq<u32>, channels: u32, mask: Option<Seq<u32>>) -> Seq<u32> {
    match mask {
        None => base,
        Some(m) => Seq::new(
            base.len(),
            |i: int|
                if in_whole_pixel(i, base.len() as int, channels) && sample_less(
                    SAMPLE_ZERO,
                    coverage_of(m, i / (pixel_width(channels) as int)),
                ) {
                    SAMPLE_ZERO
                } else {
                    base[i]
                },
        ),
    }
}

/// Make the samples inside the mask zero.
pub fn window_complement(base: &Vec<u32>, channels: u32, mask: Option<&Vec<u32>>) -> (out: Vec<u32>)
    ensures
        out@ == untouched(base@, channels, mask_opt(mask)),
        out@.len() == base@.len(),
{
    let mask: &Vec<u32> = match mask {
        None => {
            return copied(base);
        },
        Some(m) => m,
    };
    let width: usize = pixel_width(channels) as usize;
    let pixels: usize = base.len() / width;
    let mut out: Vec<u32> = Vec::new();
    let mut i: usize = 0;
    while i < base.len()
        invariant
            width == pixel_width(channels),
            pixels == base@.len() as int / width as int,
            i <= base@.len(),
            out@ == untouched(base@, channels, Some(mask@)).take(i as int),
        decreases base@.len() - i,
    {
        let p: usize = i / width;
        let coverage: u32 = if p < mask.len() {
            mask[p]
        } else {
            SAMPLE_ZERO
        };
        out.push(
            if p < pixels && is_sample_less(SAMPLE_ZERO, coverage) {
                SAMPLE_ZERO
            } else {
                base[i]
            },
        );
        i = i + 1;
    }
    out
}

/// The relative change of a band's energy.
pub open spec fn delta_of<A: Arithmetic>(before: u64, after: u64) -> u64 {
    over_of::<A>(
        absolute(minus_of::<A>(after, before)),
        plus_of::<A>(before, ENERGY_EPSILON),
    )
}

/// Compute the relative change of a band's energy.
fn band_delta<A: Arithmetic>(before: u64, after: u64) -> (r: u64)
    requires
        lawful::<A>(),
    ensures
        r == delta_of::<A>(before, after),
{
    over::<A>(drop_sign(minus::<A>(after, before)), plus::<A>(before, ENERGY_EPSILON))
}

/// The first of the greatest relative changes of the first `n` bands, and its band.
pub open spec fn worst_of<A: Arithmetic>(before: Seq<u64>, after: Seq<u64>, n: nat) -> (int, u64)
    decreases n,
{
    if n == 0 {
        (0, ZERO)
    } else {
        let worst = worst_of::<A>(before, after, (n - 1) as nat);
        let delta = delta_of::<A>(before[n - 1], after[n - 1]);
        if less(worst.1, delta) {
            (n - 1, delta)
        } else {
            worst
        }
    }
}

/// How many bands both measurements have.
pub open spec fn shared_bands(before: Seq<u64>, after: Seq<u64>) -> nat {
    smaller(before.len() as int, after.len() as int) as nat
}

/// Find the band that changed most.
pub fn worst_band_delta<A: Arithmetic>(before: &Vec<u64>, after: &Vec<u64>) -> (worst: (usize, u64))
    requires
        lawful::<A>(),
    ensures
        worst_of::<A>(before@, after@, shared_bands(before@, after@)) == (worst.0 as int, worst.1),
{
    let mut worst_band: usize = 0;
    let mut worst_delta: u64 = ZERO;
    let mut band: usize = 0;
    while band < before.len() && band < after.len()
        invariant
            lawful::<A>(),
            band <= before@.len(),
            band <= after@.len(),
            worst_of::<A>(before@, after@, band as nat) == (worst_band as int, worst_delta),
        decreases before@.len() - band,
    {
        let delta: u64 = band_delta::<A>(before[band], after[band]);
        if is_less(worst_delta, delta) {
            worst_delta = delta;
            worst_band = band;
        }
        band = band + 1;
    }
    (worst_band, worst_delta)
}

/// How many of the first `n` bands changed by more than the tolerance.
pub open spec fn violations_of<A: Arithmetic>(
    before: Seq<u64>,
    after: Seq<u64>,
    tolerance: u64,
    n: nat,
) -> nat
    decreases n,
{
    if n == 0 {
        0
    } else {
        violations_of::<A>(before, after, tolerance, (n - 1) as nat) + (if less(
            tolerance,
            delta_of::<A>(before[n - 1], after[n - 1]),
        ) {
            1nat
        } else {
            0
        })
    }
}

/// Count the bands that changed by more than the tolerance.
pub fn count_violating_bands<A: Arithmetic>(before: &Vec<u64>, after: &Vec<u64>, tolerance: u64) -> (count: u64)
    requires
        lawful::<A>(),
    ensures
        count == violations_of::<A>(
            before@,
            after@,
            tolerance,
            shared_bands(before@, after@),
        ),
{
    let mut count: u64 = 0;
    let mut band: usize = 0;
    while band < before.len() && band < after.len()
        invariant
            lawful::<A>(),
            band <= before@.len(),
            band <= after@.len(),
            count <= band,
            count == violations_of::<A>(before@, after@, tolerance, band as nat),
        decreases before@.len() - band,
    {
        if is_less(tolerance, band_delta::<A>(before[band], after[band])) {
            count = count + 1;
        }
        band = band + 1;
    }
    count
}

/// The outcome on two measurements.
pub open spec fn outcome_of<A: Arithmetic>(
    before: Seq<u64>,
    after: Seq<u64>,
    tolerance: u64,
    severity: AssertionSeverity,
) -> AssertionOutcome {
    let n = shared_bands(before, after);
    let worst = worst_of::<A>(before, after, n);
    let passed = at_most(worst.1, tolerance);
    AssertionOutcome {
        op: FREQUENCY_PRESERVED_OP_ID,
        passed,
        severity,
        violations: if passed {
            None
        } else {
            Some(violations_of::<A>(before, after, tolerance, n) as u64)
        },
        worst_value: Some(worst.1),
        worst_pixel: if passed {
            None
        } else {
            Some((smaller(worst.0, i64::MAX as int) as i64, 0))
        },
    }
}

/// Judge two measurements: passed where no band changed by more than the tolerance, and otherwise
/// with the number of bands that did and the place of the worst.
pub fn judge<A: Arithmetic>(
    before: &Vec<u64>,
    after: &Vec<u64>,
    tolerance: u64,
    severity: AssertionSeverity,
) -> (outcome: AssertionOutcome)
    requires
        lawful::<A>(),
    ensures
        outcome == outcome_of::<A>(before@, after@, tolerance, severity),
{
    let (worst_band, worst_delta): (usize, u64) = worst_band_delta::<A>(before, after);
    let passed: bool = is_at_most(worst_delta, tolerance);
    let mut outcome: AssertionOutcome = AssertionOutcome {
        op: FREQUENCY_PRESERVED_OP_ID,
        passed,
        severity,
        violations: None,
        worst_value: Some(worst_delta),
        worst_pixel: None,
    };
    if !passed {
        outcome.violations = Some(count_violating_bands::<A>(before, after, tolerance));
        let band: i64 = if worst_band as u64 > i64::MAX as u64 {
            i64::MAX
        } else {
            worst_band as i64
        };
        outcome.worst_pixel = Some((band, 0));
    }
    outcome
}

/// The kernel of the standard deviation that the parameters give, if any, has countable taps.
pub open spec fn preserved_fits<A: Arithmetic>(params: Json) -> bool {
    request_of(params) matches Ok((energy, _, _)) ==> taps_fit::<A>(energy.pyramid.sigma)
}

/// Whether the kernel that the parameters ask for has countable taps.
pub fn fits<A: Arithmetic>(params: &serde_json::Value) -> (r: bool)
    requires
        lawful::<A>(),
    ensures
        r == preserved_fits::<A>(json_of(*params)),
{
    match resolve_params(params) {
        Err(_) => true,
        Ok((energy, _, _)) => countable::<A>(energy.pyramid.sigma),
    }
}

/// The operation.
#[derive(Debug, Clone, Copy)]
pub struct FrequencyPreserved;

/// What the operation produces.
pub open spec fn inferred(inputs: Map<Seq<char>, ResourceDescriptor>, params: Json) -> Result<
    ResourceDescriptor,
    Error,
> {
    match (port(inputs, "before"@), port(inputs, "after"@)) {
        (None, _) => Err(input_error(ErrorClass::Reference, BEFORE_REQUIRED)),
        (Some(_), None) => Err(input_error(ErrorClass::Reference, AFTER_REQUIRED)),
        (Some(before), Some(after)) => if !supported(before) {
            Err(input_error(ErrorClass::Type, INPUT_WRONG))
        } else if after.extent() != before.extent() {
            Err(
                shape_mismatch(EXTENT_MISMATCH).about(
                    Detail::Extents { first: before.extent(), second: after.extent() },
                ),
            )
        } else {
            match request_of(params) {
                Err(e) => Err(e),
                Ok(_) => if port(inputs, "mask"@) matches Some(m) && m.extent() != before.extent() {
                    Err(
                        shape_mismatch(MASK_MISMATCH).about(
                            Detail::Extents {
                                first: port(inputs, "mask"@)->0.extent(),
                                second: before.extent(),
                            },
                        ),
                    )
                } else {
                    Ok(
                        ResourceDescriptor::Report(
                            ReportDescriptor {
                                extent: before.extent(),
                                channels: channels_of(before),
                            },
                        ),
                    )
                },
            }
        },
    }
}

/// What is reported of two resources: the outcome, and the second's energies.
pub open spec fn preserved_report<A: Arithmetic>(
    before: ValueView,
    after: ValueView,
    mask: Option<Seq<u32>>,
    energy: FrequencyEnergyParams,
    tolerance: u64,
    severity: AssertionSeverity,
) -> ReportView {
    let extent = before.descriptor.extent();
    let channels = before.channels;
    let before_energy = measured::<A>(
        untouched(before.samples, channels, mask),
        extent,
        channels,
        energy,
    );
    let after_energy = measured::<A>(
        untouched(after.samples, channels, mask),
        extent,
        channels,
        energy,
    );
    ReportView {
        extent,
        channels,
        channel_stats: Seq::empty(),
        all_finite: true,
        content_hash: ""@,
        diff: None,
        assertion: Some(
            outcome_of::<A>(
                before_energy.band_energy,
                after_energy.band_energy,
                tolerance,
                severity,
            ),
        ),
        frequency_energy: Some(after_energy),
    }
}

/// What the operation makes of its inputs.
pub open spec fn preservation<A: Arithmetic>(inputs: Map<Seq<char>, ResourceValue>, params: Json) -> Result<
    ReportView,
    Error,
> {
    match (port_view(inputs, "before"@), port_view(inputs, "after"@)) {
        (None, _) => Err(input_error(ErrorClass::Reference, BEFORE_VALUE_REQUIRED)),
        (Some(_), None) => Err(input_error(ErrorClass::Reference, AFTER_VALUE_REQUIRED)),
        (Some(before), Some(after)) => if after.descriptor.extent() != before.descriptor.extent()
            || after.channels != before.channels {
            Err(
                shape_mismatch(VALUE_MISMATCH).about(
                    Detail::Planes {
                        first: before.descriptor.extent(),
                        first_channels: before.channels,
                        second: after.descriptor.extent(),
                        second_channels: after.channels,
                    },
                ),
            )
        } else {
            match request_of(params) {
                Err(e) => Err(e),
                Ok((energy, tolerance, severity)) => match mask_in(
                    inputs,
                    before.descriptor.extent(),
                    input_error(ErrorClass::Type, MASK_WRONG),
                    shape_mismatch(MASK_MISMATCH),
                ) {
                    Err(e) => Err(e),
                    Ok(mask) => Ok(
                        preserved_report::<A>(before, after, mask, energy, tolerance, severity),
                    ),
                },
            }
        },
    }
}

impl Default for FrequencyPreserved {
    /// The operation.
    fn default() -> (r: Self)
        ensures
            r == FrequencyPreserved,
    {
        FrequencyPreserved
    }
}

impl FrequencyPreserved {
    /// The operation.
    pub fn new() -> (r: Self)
        ensures
            r == FrequencyPreserved,
    {
        FrequencyPreserved
    }

    /// The input ports and their kinds.
    pub fn declared_inputs(&self) -> (r: Vec<(&'static str, ResourceKind)>)
        ensures
            r@ == seq![
                ("before", ResourceKind::Image),
                ("after", ResourceKind::Image),
                ("mask", ResourceKind::Mask),
            ],
    {
        vec![
            ("before", ResourceKind::Image),
            ("after", ResourceKind::Image),
            ("mask", ResourceKind::Mask),
        ]
    }

    /// The output ports and their kinds.
    pub fn declared_outputs(&self) -> (r: Vec<(&'static str, ResourceKind)>)
        ensures
            r@ == seq![("report", ResourceKind::Report)],
    {
        vec![("report", ResourceKind::Report)]
    }

    /// What the operation produces of inputs like these.
    pub fn infer_outputs(
        &self,
        inputs: &Ports<ResourceDescriptor>,
        params: &serde_json::Value,
    ) -> (r: Result<Ports<ResourceDescriptor>, Error>)
        ensures
            gives_port(r, "report"@, inferred(inputs@, json_of(*params))),
    {
        let before: ResourceDescriptor = match inputs.get("before") {
            None => {
                return Err(input_error(ErrorClass::Reference, BEFORE_REQUIRED));
            },
            Some(d) => *d,
        };
        let after: ResourceDescriptor = match inputs.get("after") {
            None => {
                return Err(input_error(ErrorClass::Reference, AFTER_REQUIRED));
            },
            Some(d) => *d,
        };
        let (extent, channels): (Extent, u32) = match before {
            ResourceDescriptor::Image(d) => (d.extent, d.layout.channel_count()),
            ResourceDescriptor::Field1(d) => (d.extent, 1),
            _ => {
                return Err(input_error(ErrorClass::Type, INPUT_WRONG));
            },
        };
        if after.extent() != extent {
            return Err(
                shape_mismatch(EXTENT_MISMATCH).about(
                    Detail::Extents { first: extent, second: after.extent() },
                ),
            );
        }
        if let Err(e) = resolve_params(params) {
            return Err(e);
        }
        if let Some(mask) = inputs.get("mask") {
            if mask.extent() != extent {
                return Err(
                    shape_mismatch(MASK_MISMATCH).about(
                        Detail::Extents { first: mask.extent(), second: extent },
                    ),
                );
            }
        }
        Ok(one_port("report", ResourceDescriptor::Report(ReportDescriptor { extent, channels })))
    }

    /// The whole of every input is needed, whatever is requested.
    pub fn required_inputs(
        &self,
        _requested_outputs: &Ports<Rect>,
        inputs: &Ports<ResourceDescriptor>,
        _params: &serde_json::Value,
    ) -> (r: Result<Ports<Rect>, Error>)
        ensures
            r matches Ok(regions) && regions@ == with_whole(
                with_whole(with_whole(Map::empty(), inputs@, "before"@), inputs@, "after"@),
                inputs@,
                "mask"@,
            ),
    {
        let mut regions: Ports<Rect> = Ports::new();
        request_whole(&mut regions, inputs, "before");
        request_whole(&mut regions, inputs, "after");
        request_whole(&mut regions, inputs, "mask");
        Ok(regions)
    }

    /// Whether the produced resource is a report.
    pub fn validate_postconditions(
        &self,
        outputs: &Ports<ResourceDescriptor>,
        _params: &serde_json::Value,
    ) -> (r: Result<Vec<AssertionResult>, Error>)
        ensures
            r matches Ok(v) && v@ == seq![report_outcome(outputs@)],
    {
        Ok(vec![check_report_output(outputs)])
    }

    /// Compare the bands of both resources outside the mask.
    pub fn compute<A: Arithmetic>(
        &self,
        inputs: &Ports<ResourceValue>,
        params: &serde_json::Value,
    ) -> (r: Result<Findings, Error>)
        requires
            lawful::<A>(),
            preserved_fits::<A>(json_of(*params)),
            port_view(inputs@, "before"@) matches Some(before) ==> single_plane(before),
            port_view(inputs@, "after"@) matches Some(after) ==> single_plane(after),
        ensures
            gives_report(r, preservation::<A>(inputs@, json_of(*params))),
    {
        let before: &ResourceValue = match inputs.get("before") {
            None => {
                return Err(input_error(ErrorClass::Reference, BEFORE_VALUE_REQUIRED));
            },
            Some(before) => before,
        };
        let after: &ResourceValue = match inputs.get("after") {
            None => {
                return Err(input_error(ErrorClass::Reference, AFTER_VALUE_REQUIRED));
            },
            Some(after) => after,
        };
        let extent: Extent = before.extent();
        let channels: u32 = before.channels();
        if after.extent() != extent || after.channels() != channels {
            return Err(
                shape_mismatch(VALUE_MISMATCH).about(
                    Detail::Planes {
                        first: extent,
                        first_channels: channels,
                        second: after.extent(),
                        second_channels: after.channels(),
                    },
                ),
            );
        }
        let (energy, tolerance, severity): (FrequencyEnergyParams, u64, AssertionSeverity) =
            match resolve_params(params) {
            Err(e) => {
                return Err(e);
            },
            Ok(request) => request,
        };
        let mask: Option<&Vec<u32>> = match mask_samples(
            inputs,
            extent,
            input_error(ErrorClass::Type, MASK_WRONG),
            shape_mismatch(MASK_MISMATCH),
        ) {
            Err(e) => {
                return Err(e);
            },
            Ok(mask) => mask,
        };
        let before_kept: Vec<u32> = window_complement(before.samples(), channels, mask);
        let after_kept: Vec<u32> = window_complement(after.samples(), channels, mask);
        let before_energy: FrequencyEnergyData = frequency_energy_of::<A>(
            &before_kept,
            extent,
            channels,
            energy,
        );
        let after_energy: FrequencyEnergyData = frequency_energy_of::<A>(
            &after_kept,
            extent,
            channels,
            energy,
        );
        let outcome: AssertionOutcome = judge::<A>(
            &before_energy.band_energy,
            &after_energy.band_energy,
            tolerance,
            severity,
        );
        let channel_stats: Vec<ChannelStats> = Vec::new();
        let report: Report = Report {
            extent,
            channels,
            channel_stats,
            all_finite: true,
            content_hash: "".to_owned(),
            diff: None,
            assertion: Some(outcome),
            frequency_energy: Some(after_energy),
        };
        Ok(report_alone(report))
    }

    /// Compare the bands of both resources outside the mask; `None` where the kernel has too many taps.
    pub fn try_compute<A: Arithmetic>(
        &self,
        inputs: &Ports<ResourceValue>,
        params: &serde_json::Value,
    ) -> (r: Option<Result<Findings, Error>>)
        requires
            lawful::<A>(),
            port_view(inputs@, "before"@) matches Some(before) ==> single_plane(before),
            port_view(inputs@, "after"@) matches Some(after) ==> single_plane(after),
        ensures
            match r {
                None => !preserved_fits::<A>(json_of(*params)),
                Some(out) => {
                    &&& preserved_fits::<A>(json_of(*params))
                    &&& gives_report(out, preservation::<A>(inputs@, json_of(*params)))
                },
            },
    {
        if !fits::<A>(params) {
            return None;
        }
        Some(self.compute::<A>(inputs, params))
    }
}

/// An edit that stays inside the mask has no part in the outcome: resources that agree but for whole
/// pixels with coverage are compared as if they were one.
pub proof fn law_masked_edit_is_unseen<A: Arithmetic>(
    before: ValueView,
    after: ValueView,
    mask: Seq<u32>,
    energy: FrequencyEnergyParams,
    tolerance: u64,
    severity: AssertionSeverity,
)
    requires
        before.samples.len() == after.samples.len(),
        before.channels == after.channels,
        forall|i: int|
            0 <= i < before.samples.len() && !(in_whole_pixel(
                i,
                before.samples.len() as int,
                before.channels,
            ) && sample_less(
                SAMPLE_ZERO,
                coverage_of(mask, i / (pixel_width(before.channels) as int)),
            )) ==> #[trigger] before.samples[i] == after.samples[i],
    ensures
        preserved_report::<A>(before, after, Some(mask), energy, tolerance, severity)
            == preserved_report::<A>(before, before, Some(mask), energy, tolerance, severity),
{
    assert(untouched(before.samples, before.channels, Some(mask)) =~= untouched(
        after.samples,
        before.channels,
        Some(mask),
    ));
}

/// Measurements pass against themselves with a worst change of zero, under any tolerance that is not
/// negative, in an arithmetic where no band's change from itself is above zero.
pub proof fn law_equal_energies_pass<A: Arithmetic>(
    energies: Seq<u64>,
    tolerance: u64,
    severity: AssertionSeverity,
)
    requires
        at_most(ZERO, tolerance),
        forall|b: int|
            0 <= b < energies.len() ==> !less(
                ZERO,
                #[trigger] delta_of::<A>(energies[b], energies[b]),
            ),
    ensures
        outcome_of::<A>(energies, energies, tolerance, severity).passed,
        outcome_of::<A>(energies, energies, tolerance, severity).worst_value == Some(ZERO),
        outcome_of::<A>(energies, energies, tolerance, severity).violations is None,
{
    lemma_no_worst::<A>(energies, energies.len());
}

/// Where no band changes, there is no worst.
proof fn lemma_no_worst<A: Arithmetic>(energies: Seq<u64>, n: nat)
    requires
        n <= energies.len(),
        forall|b: int|
            0 <= b < energies.len() ==> !less(
                ZERO,
                #[trigger] delta_of::<A>(energies[b], energies[b]),
            ),
    ensures
        worst_of::<A>(energies, energies, n) == (0int, ZERO),
    decreases n,
{
    if n > 0 {
        lemma_no_worst::<A>(energies, (n - 1) as nat);
    }
}

/// The worst change is above that of no band, and is one of theirs unless it is zero.
pub proof fn law_worst_is_greatest<A: Arithmetic>(before: Seq<u64>, after: Seq<u64>, n: nat)
    ensures
        !nan(worst_of::<A>(before, after, n).1),
        forall|b: int|
            0 <= b < n ==> !less(
                worst_of::<A>(before, after, n).1,
                #[trigger] delta_of::<A>(before[b], after[b]),
            ),
        worst_of::<A>(before, after, n) == (0int, ZERO) || {
            &&& 0 <= worst_of::<A>(before, after, n).0 < n
            &&& worst_of::<A>(before, after, n).1 == delta_of::<A>(
                before[worst_of::<A>(before, after, n).0],
                after[worst_of::<A>(before, after, n).0],
            )
        },
    decreases n,
{
    if n > 0 {
        law_worst_is_greatest::<A>(before, after, (n - 1) as nat);
    }
}

/// A check passes exactly where no band changed by more than the tolerance, and a failed one counts
/// at least one.
pub proof fn law_passes_without_violations<A: Arithmetic>(
    before: Seq<u64>,
    after: Seq<u64>,
    tolerance: u64,
    severity: AssertionSeverity,
)
    requires
        at_most(ZERO, tolerance),
    ensures
        outcome_of::<A>(before, after, tolerance, severity).passed <==> violations_of::<A>(
            before,
            after,
            tolerance,
            shared_bands(before, after),
        ) == 0,
        outcome_of::<A>(before, after, tolerance, severity).passed <==> forall|b: int|
            0 <= b < shared_bands(before, after) ==> !less(
                tolerance,
                #[trigger] delta_of::<A>(before[b], after[b]),
            ),
{
    let n = shared_bands(before, after);
    law_worst_is_greatest::<A>(before, after, n);
    lemma_violations::<A>(before, after, tolerance, n);
}

/// Nothing is counted exactly where no band changed by more than the tolerance.
proof fn lemma_violations<A: Arithmetic>(before: Seq<u64>, after: Seq<u64>, tolerance: u64, n: nat)
    ensures
        violations_of::<A>(before, after, tolerance, n) == 0 <==> forall|b: int|
            0 <= b < n ==> !less(tolerance, #[trigger] delta_of::<A>(before[b], after[b])),
    decreases n,
{
    if n > 0 {
        lemma_violations::<A>(before, after, tolerance, (n - 1) as nat);
        if less(tolerance, delta_of::<A>(before[n - 1], after[n - 1])) {
            assert(!(forall|b: int|
                0 <= b < n ==> !less(tolerance, #[trigger] delta_of::<A>(before[b], after[b]))));
        }
    }
}

} // verus!
