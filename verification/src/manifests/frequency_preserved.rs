//! What the operation of [`FrequencyPreserved`] declares of itself.
use crate::frequency_preserved::{FrequencyPreserved, FREQUENCY_PRESERVED_OP_ID};
use crate::ir::{Error, ResourceKind};
use crate::manifest::{
    agrees, all_answered, fault, lemma_answered, params_fault, reference_impl,
    test_metadata, tests_of, DeterminismTier, ImplId, InputSpec, Literal, ManifestView,
    OperationManifest, OutputSpec, ParamSpec, ParamType, ParamView, RoiCategory, RoiPolicy,
};
use vstd::prelude::*;

verus! {

/// What the operation does.
pub const SUMMARY: &'static str = "Assert an edit preserved per-band frequency energy outside \
    the edited region (within a relative tolerance); FAILS with the worst band's energy delta \
    when a region is over-blurred or sharpened.";

/// What the `before` input is.
pub const BEFORE_INPUT: &'static str = "The edit's input Image/Field1.";

/// What the `after` input is.
pub const AFTER_INPUT: &'static str = "The edit's output Image/Field1 (same extent as `before`).";

/// What the `mask` input is.
pub const MASK_INPUT: &'static str = "An optional coverage mask marking the EDITED region; \
    preservation is checked over its complement (the whole image when absent).";

/// What the `report` output is.
pub const REPORT_OUTPUT: &'static str = "The assertion report: per-band before/after energy and \
    the verdict.";

/// What the `bands` parameter is.
pub const BANDS_PARAM: &'static str = "The number of bands (= pyramid levels), finest first.";

/// What the `tolerance` parameter is.
pub const TOLERANCE_PARAM: &'static str = "The maximum allowed relative per-band energy change.";

/// What the `decomposition` parameter is.
pub const DECOMPOSITION_PARAM: &'static str = "The decomposition to compare over.";

/// What the `phase` parameter is.
pub const PHASE_PARAM: &'static str = "The odd-size rounding rule for the pyramid level extents.";

/// What the `severity` parameter is.
pub const SEVERITY_PARAM: &'static str = "Whether a failure fails the run (error), warns, or is \
    a metric.";

/// What the manifest says.
pub open spec fn declared() -> ManifestView {
    ManifestView {
        id: FREQUENCY_PRESERVED_OP_ID,
        impl_version: 1,
        summary: SUMMARY,
        determinism: DeterminismTier::Exact,
        roi: RoiPolicy { category: RoiCategory::FullDomain, halo_px: None },
        inputs: seq![
            InputSpec {
                name: "before",
                kind: ResourceKind::Image,
                required: true,
                doc: BEFORE_INPUT,
            },
            InputSpec {
                name: "after",
                kind: ResourceKind::Image,
                required: true,
                doc: AFTER_INPUT,
            },
            InputSpec {
                name: "mask",
                kind: ResourceKind::Mask,
                required: false,
                doc: MASK_INPUT,
            },
        ],
        outputs: seq![
            OutputSpec {
                name: "report",
                kind: ResourceKind::Report,
                doc: REPORT_OUTPUT,
            },
        ],
        params: seq![
            ParamView {
                name: "bands",
                ty: ParamType::Integer,
                unit: None,
                required: true,
                default: None,
                choices: Seq::empty(),
                doc: BANDS_PARAM,
            },
            ParamView {
                name: "tolerance",
                ty: ParamType::Float,
                unit: None,
                required: false,
                default: Some(Literal::Number(0x3fa9_9999_9999_999a)),
                choices: Seq::empty(),
                doc: TOLERANCE_PARAM,
            },
            ParamView {
                name: "decomposition",
                ty: ParamType::String,
                unit: None,
                required: false,
                default: Some(Literal::Text("laplacian")),
                choices: seq!["laplacian", "gaussian"],
                doc: DECOMPOSITION_PARAM,
            },
            ParamView {
                name: "phase",
                ty: ParamType::String,
                unit: None,
                required: false,
                default: Some(Literal::Text("floor")),
                choices: seq!["floor", "ceil"],
                doc: PHASE_PARAM,
            },
            ParamView {
                name: "severity",
                ty: ParamType::String,
                unit: None,
                required: false,
                default: Some(Literal::Text("error")),
                choices: seq!["error", "warning", "metric"],
                doc: SEVERITY_PARAM,
            },
        ],
        implementations: seq![reference_impl()],
        test: tests_of(None),
    }
}

impl FrequencyPreserved {
    /// The operation's manifest.
    pub fn manifest() -> (r: Result<OperationManifest, Error>)
        ensures
            r matches Ok(m) && m@ == declared(),
    {
        let inputs: Vec<InputSpec> = vec![
            InputSpec {
                name: "before",
                kind: ResourceKind::Image,
                required: true,
                doc: BEFORE_INPUT,
            },
            InputSpec {
                name: "after",
                kind: ResourceKind::Image,
                required: true,
                doc: AFTER_INPUT,
            },
            InputSpec {
                name: "mask",
                kind: ResourceKind::Mask,
                required: false,
                doc: MASK_INPUT,
            },
        ];
        let outputs: Vec<OutputSpec> = vec![
            OutputSpec {
                name: "report",
                kind: ResourceKind::Report,
                doc: REPORT_OUTPUT,
            },
        ];
        let bands_choices: Vec<&'static str> = Vec::new();
        assert(bands_choices@ =~= Seq::empty());
        let tolerance_choices: Vec<&'static str> = Vec::new();
        assert(tolerance_choices@ =~= Seq::empty());
        let decomposition_choices: Vec<&'static str> = vec!["laplacian", "gaussian"];
        assert(decomposition_choices@ =~= seq!["laplacian", "gaussian"]);
        let phase_choices: Vec<&'static str> = vec!["floor", "ceil"];
        assert(phase_choices@ =~= seq!["floor", "ceil"]);
        let severity_choices: Vec<&'static str> = vec!["error", "warning", "metric"];
        assert(severity_choices@ =~= seq!["error", "warning", "metric"]);
        let params: Vec<ParamSpec> = vec![
            ParamSpec {
                name: "bands",
                ty: ParamType::Integer,
                unit: None,
                required: true,
                default: None,
                choices: bands_choices,
                doc: BANDS_PARAM,
            },
            ParamSpec {
                name: "tolerance",
                ty: ParamType::Float,
                unit: None,
                required: false,
                default: Some(Literal::Number(0x3fa9_9999_9999_999a)),
                choices: tolerance_choices,
                doc: TOLERANCE_PARAM,
            },
            ParamSpec {
                name: "decomposition",
                ty: ParamType::String,
                unit: None,
                required: false,
                default: Some(Literal::Text("laplacian")),
                choices: decomposition_choices,
                doc: DECOMPOSITION_PARAM,
            },
            ParamSpec {
                name: "phase",
                ty: ParamType::String,
                unit: None,
                required: false,
                default: Some(Literal::Text("floor")),
                choices: phase_choices,
                doc: PHASE_PARAM,
            },
            ParamSpec {
                name: "severity",
                ty: ParamType::String,
                unit: None,
                required: false,
                default: Some(Literal::Text("error")),
                choices: severity_choices,
                doc: SEVERITY_PARAM,
            },
        ];
        let implementations: Vec<ImplId> = vec![reference_impl()];
        let m: OperationManifest = OperationManifest {
            id: FREQUENCY_PRESERVED_OP_ID,
            impl_version: 1,
            summary: SUMMARY,
            determinism: DeterminismTier::Exact,
            roi: RoiPolicy { category: RoiCategory::FullDomain, halo_px: None },
            inputs,
            outputs,
            params,
            implementations,
            test: test_metadata(None),
        };
        assert(m@.inputs =~= declared().inputs);
        assert(m@.outputs =~= declared().outputs);
        assert(m@.params =~= declared().params);
        assert(m@.implementations =~= declared().implementations);
        Ok(m)
    }
}

/// The manifest's ports are those that the operation itself declares.
pub proof fn law_manifest_agrees_with_ports()
    ensures
        agrees(
            declared(),
            seq![("before", ResourceKind::Image), ("after", ResourceKind::Image), ("mask", ResourceKind::Mask)],
            seq![("report", ResourceKind::Report)],
        ),
{
}

/// The manifest is sound, and every verification category is answered for.
pub proof fn law_manifest_is_in_order()
    ensures
        fault(declared()) is None,
        all_answered(declared()),
{
    reveal_with_fuel(params_fault, 6);
    assert(declared().params[2].choices[0]@ == "laplacian"@);
    assert(declared().params[3].choices[0]@ == "floor"@);
    assert(declared().params[4].choices[0]@ == "error"@);
    lemma_answered(declared(), None);
}

} // verus!
