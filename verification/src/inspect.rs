//! Inspection of any resource: size, per-channel range and sums over the finite samples, and a hash
//! of the content.
use crate::arithmetic::{lawful, Arithmetic};
use crate::binary::sample_finite;
use crate::ir::{
    AssertionResult, Error, ErrorClass, Extent, Rect, ReportDescriptor, ResourceDescriptor,
    ResourceKind,
};
use crate::ports::{gives_port, one_port, port, port_view, whole_input, Ports};
use crate::report::{
    all_channels_finite, all_stats_of, channel_statistics, content_hash, content_of, gives_report,
    hash_of, lemma_nonfinite, report_alone, stats_finite, steady, ChannelStats, Digest, Findings,
    Report, ReportView,
};
use crate::value::{ResourceValue, ValueView};
use vstd::prelude::*;

verus! {

/// The operation's identifier.
pub const INSPECT_OP_ID: &'static str = "image.inspect@1";

/// The image to inspect was absent.
pub const E_INSPECT_INPUT: &'static str = "E_INSPECT_INPUT";

pub const INPUT_REQUIRED: &'static str = "image.inspect requires an `image` input";

pub const VALUE_REQUIRED: &'static str = "image.inspect requires an `image` input value";

/// A refusal for the input.
#[verifier::allow_in_spec]
pub fn input_error(message: &'static str) -> Error
    returns
        (Error::new(ErrorClass::Reference, E_INSPECT_INPUT, message)),
{
    Error::new(ErrorClass::Reference, E_INSPECT_INPUT, message)
}

/// What inspection finds of a resource.
pub open spec fn inspected<A: Arithmetic, H: Digest>(value: ValueView) -> ReportView {
    let stats = all_stats_of::<A>(value.samples, value.channels);
    ReportView {
        extent: value.descriptor.extent(),
        channels: value.channels,
        channel_stats: stats,
        all_finite: stats_finite(stats),
        content_hash: hash_of::<H>(
            content_of(value.descriptor.extent(), value.channels, value.samples),
        ),
        diff: None,
        assertion: None,
        frequency_energy: None,
    }
}

/// Inspect a resource.
pub fn inspect_value<A: Arithmetic, H: Digest>(value: &ResourceValue) -> (report: Report)
    requires
        lawful::<A>(),
        steady::<H>(),
    ensures
        report@ == inspected::<A, H>(value@),
{
    let extent: Extent = value.extent();
    let channels: u32 = value.channels();
    let samples: &Vec<u32> = value.samples();
    let channel_stats: Vec<ChannelStats> = channel_statistics::<A>(samples, channels);
    let all_finite: bool = all_channels_finite(&channel_stats);
    let content_hash: String = content_hash::<H>(extent, channels, samples);
    Report {
        extent,
        channels,
        channel_stats,
        all_finite,
        content_hash,
        diff: None,
        assertion: None,
        frequency_energy: None,
    }
}

/// The channels of an image; zero for every other resource.
#[verifier::allow_in_spec]
pub fn channel_count_of(descriptor: ResourceDescriptor) -> u32
    returns
        (match descriptor {
            ResourceDescriptor::Image(d) => d.layout.channel_count(),
            _ => 0,
        }),
{
    match descriptor {
        ResourceDescriptor::Image(d) => d.layout.channel_count(),
        _ => 0,
    }
}

/// The operation.
#[derive(Debug, Clone, Copy)]
pub struct Inspect;

/// What the operation produces.
pub open spec fn inferred(inputs: Map<Seq<char>, ResourceDescriptor>) -> Result<
    ResourceDescriptor,
    Error,
> {
    match port(inputs, "image"@) {
        None => Err(input_error(INPUT_REQUIRED)),
        Some(d) => Ok(
            ResourceDescriptor::Report(
                ReportDescriptor { extent: d.extent(), channels: channel_count_of(d) },
            ),
        ),
    }
}

/// The outcome of the check that a report was produced.
pub open spec fn report_outcome(outputs: Map<Seq<char>, ResourceDescriptor>) -> AssertionResult {
    if port(outputs, "report"@) matches Some(d) && d is Report {
        AssertionResult::pass("produces_report")
    } else {
        AssertionResult::fail("produces_report", "no `report` output produced")
    }
}

/// Check that a report was produced.
pub fn check_report_output(outputs: &Ports<ResourceDescriptor>) -> (r: AssertionResult)
    ensures
        r == report_outcome(outputs@),
{
    match outputs.get("report") {
        Some(ResourceDescriptor::Report(_)) => AssertionResult::pass("produces_report"),
        _ => AssertionResult::fail("produces_report", "no `report` output produced"),
    }
}

/// What the operation makes of its input.
pub open spec fn inspection<A: Arithmetic, H: Digest>(inputs: Map<Seq<char>, ResourceValue>) -> Result<
    ReportView,
    Error,
> {
    match port_view(inputs, "image"@) {
        None => Err(input_error(VALUE_REQUIRED)),
        Some(value) => Ok(inspected::<A, H>(value)),
    }
}

impl Default for Inspect {
    /// The operation.
    fn default() -> (r: Self)
        ensures
            r == Inspect,
    {
        Inspect
    }
}

impl Inspect {
    /// The operation.
    pub fn new() -> (r: Self)
        ensures
            r == Inspect,
    {
        Inspect
    }

    /// The input ports and their kinds.
    pub fn declared_inputs(&self) -> (r: Vec<(&'static str, ResourceKind)>)
        ensures
            r@ == seq![("image", ResourceKind::Image)],
    {
        vec![("image", ResourceKind::Image)]
    }

    /// The output ports and their kinds.
    pub fn declared_outputs(&self) -> (r: Vec<(&'static str, ResourceKind)>)
        ensures
            r@ == seq![("report", ResourceKind::Report)],
    {
        vec![("report", ResourceKind::Report)]
    }

    /// What the operation produces of inputs like these.
    pub fn infer_outputs(
        &self,
        inputs: &Ports<ResourceDescriptor>,
        _params: &serde_json::Value,
    ) -> (r: Result<Ports<ResourceDescriptor>, Error>)
        ensures
            gives_port(r, "report"@, inferred(inputs@)),
    {
        match inputs.get("image") {
            None => Err(input_error(INPUT_REQUIRED)),
            Some(d) => Ok(
                one_port(
                    "report",
                    ResourceDescriptor::Report(
                        ReportDescriptor { extent: d.extent(), channels: channel_count_of(*d) },
                    ),
                ),
            ),
        }
    }

    /// The whole input is needed, whatever is requested.
    pub fn required_inputs(
        &self,
        _requested_outputs: &Ports<Rect>,
        inputs: &Ports<ResourceDescriptor>,
        _params: &serde_json::Value,
    ) -> (r: Result<Ports<Rect>, Error>)
        ensures
            r matches Ok(regions) && regions@ == whole_input(inputs@, "image"@),
    {
        match inputs.get("image") {
            None => Ok(Ports::new()),
            Some(d) => Ok(one_port("image", d.extent().full_rect())),
        }
    }

    /// Whether the produced resource is a report.
    pub fn validate_postconditions(
        &self,
        outputs: &Ports<ResourceDescriptor>,
        _params: &serde_json::Value,
    ) -> (r: Result<Vec<AssertionResult>, Error>)
        ensures
            r matches Ok(v) && v@ == seq![report_outcome(outputs@)],
    {
        Ok(vec![check_report_output(outputs)])
    }

    /// Inspect the input.
    pub fn compute<A: Arithmetic, H: Digest>(
        &self,
        inputs: &Ports<ResourceValue>,
        _params: &serde_json::Value,
    ) -> (r: Result<Findings, Error>)
        requires
            lawful::<A>(),
            steady::<H>(),
        ensures
            gives_report(r, inspection::<A, H>(inputs@)),
    {
        match inputs.get("image") {
            None => Err(input_error(VALUE_REQUIRED)),
            Some(value) => Ok(report_alone(inspect_value::<A, H>(value))),
        }
    }
}

/// A report finds a resource finite exactly where every sample of it is, its buffer being made of
/// whole pixels.
pub proof fn law_finite_where_samples_are<A: Arithmetic, H: Digest>(value: ValueView)
    requires
        value.channels > 0,
        value.samples.len() <= u64::MAX,
    ensures
        inspected::<A, H>(value).all_finite <==> forall|i: int|
            0 <= i < value.samples.len() ==> sample_finite(
                #[trigger] value.samples[i],
            ),
{
    let channels = value.channels as int;
    let n = value.samples.len();
    let stats = all_stats_of::<A>(value.samples, value.channels);
    assert forall|c: int| 0 <= c < channels implies ((#[trigger] stats[c]).all_finite() <==> forall|
        i: int,
    |
        0 <= i < n && i % channels == c ==> sample_finite(
            #[trigger] value.samples[i],
        )) by {
        lemma_nonfinite::<A>(value.samples, channels, c, n);
    }
    if stats_finite(stats) {
        assert forall|i: int| 0 <= i < n implies sample_finite(
            #[trigger] value.samples[i],
        ) by {
            assert(0 <= i % channels < channels) by (nonlinear_arith)
                requires
                    channels > 0,
            ;
            assert(stats[i % channels].all_finite());
        }
    }
}

} // verus!
