//! What the operation of [`Diff`] declares of itself.
use crate::binary::ZERO;
use crate::diff::{Diff, DIFF_OP_ID};
use crate::ir::{Error, ResourceKind};
use crate::manifest::{
    agrees, all_answered, fault, lemma_answered, params_fault, reference_impl,
    test_metadata, tests_of, DeterminismTier, ImplId, InputSpec, Literal, ManifestView,
    OperationManifest, OutputSpec, ParamSpec, ParamType, ParamUnit, ParamView, RoiCategory,
    RoiPolicy,
};
use vstd::prelude::*;

verus! {

/// What the operation does.
pub const SUMMARY: &'static str = "Difference a before and after image into a per-pixel \
    absolute-difference field and a report (max / mean / RMS error, changed-pixel count and \
    bounds) in an explicit comparison space (encoded or decoded-linear). Identical inputs yield \
    a zero diff with empty changed bounds.";

/// What the `before` input is.
pub const BEFORE_INPUT: &'static str = "The reference image the change is measured against.";

/// What the `after` input is.
pub const AFTER_INPUT: &'static str = "The edited image whose change from `before` is measured.";

/// What the `diff` output is.
pub const DIFF_OUTPUT: &'static str = "The per-pixel, per-channel absolute-difference field \
    |after − before| (the evidence heatmap), retyped raw-linear material.";

/// What the `report` output is.
pub const REPORT_OUTPUT: &'static str = "The difference report: per-channel stats plus max / \
    mean / RMS error, changed-pixel count and bounds.";

/// What the `comparison_space` parameter is.
pub const COMPARISON_SPACE_PARAM: &'static str = "The space the pair is compared in: `encoded` \
    (stored samples) or `decoded-linear` (sRGB-decoded to linear light first).";

/// What the `threshold` parameter is.
pub const THRESHOLD_PARAM: &'static str = "The absolute error a pixel must strictly exceed to \
    count as changed (drives changed_count / changed_bounds).";

/// What the manifest says.
pub open spec fn declared() -> ManifestView {
    ManifestView {
        id: DIFF_OP_ID,
        impl_version: 1,
        summary: SUMMARY,
        determinism: DeterminismTier::Exact,
        roi: RoiPolicy { category: RoiCategory::FullDomain, halo_px: None },
        inputs: seq![
            InputSpec {
                name: "before",
                kind: ResourceKind::Image,
                required: true,
                doc: BEFORE_INPUT,
            },
            InputSpec {
                name: "after",
                kind: ResourceKind::Image,
                required: true,
                doc: AFTER_INPUT,
            },
        ],
        outputs: seq![
            OutputSpec {
                name: "diff",
                kind: ResourceKind::Image,
                doc: DIFF_OUTPUT,
            },
            OutputSpec {
                name: "report",
                kind: ResourceKind::Report,
                doc: REPORT_OUTPUT,
            },
        ],
        params: seq![
            ParamView {
                name: "comparison_space",
                ty: ParamType::String,
                unit: None,
                required: false,
                default: Some(Literal::Text("decoded-linear")),
                choices: seq!["encoded", "decoded-linear"],
                doc: COMPARISON_SPACE_PARAM,
            },
            ParamView {
                name: "threshold",
                ty: ParamType::Float,
                unit: Some(ParamUnit::Ratio),
                required: false,
                default: Some(Literal::Number(ZERO)),
                choices: Seq::empty(),
                doc: THRESHOLD_PARAM,
            },
        ],
        implementations: seq![reference_impl()],
        test: tests_of(None),
    }
}

impl Diff {
    /// The operation's manifest.
    pub fn manifest() -> (r: Result<OperationManifest, Error>)
        ensures
            r matches Ok(m) && m@ == declared(),
    {
        let inputs: Vec<InputSpec> = vec![
            InputSpec {
                name: "before",
                kind: ResourceKind::Image,
                required: true,
                doc: BEFORE_INPUT,
            },
            InputSpec {
                name: "after",
                kind: ResourceKind::Image,
                required: true,
                doc: AFTER_INPUT,
            },
        ];
        let outputs: Vec<OutputSpec> = vec![
            OutputSpec {
                name: "diff",
                kind: ResourceKind::Image,
                doc: DIFF_OUTPUT,
            },
            OutputSpec {
                name: "report",
                kind: ResourceKind::Report,
                doc: REPORT_OUTPUT,
            },
        ];
        let comparison_space_choices: Vec<&'static str> = vec!["encoded", "decoded-linear"];
        assert(comparison_space_choices@ =~= seq!["encoded", "decoded-linear"]);
        let threshold_choices: Vec<&'static str> = Vec::new();
        assert(threshold_choices@ =~= Seq::empty());
        let params: Vec<ParamSpec> = vec![
            ParamSpec {
                name: "comparison_space",
                ty: ParamType::String,
                unit: None,
                required: false,
                default: Some(Literal::Text("decoded-linear")),
                choices: comparison_space_choices,
                doc: COMPARISON_SPACE_PARAM,
            },
            ParamSpec {
                name: "threshold",
                ty: ParamType::Float,
                unit: Some(ParamUnit::Ratio),
                required: false,
                default: Some(Literal::Number(ZERO)),
                choices: threshold_choices,
                doc: THRESHOLD_PARAM,
            },
        ];
        let implementations: Vec<ImplId> = vec![reference_impl()];
        let m: OperationManifest = OperationManifest {
            id: DIFF_OP_ID,
            impl_version: 1,
            summary: SUMMARY,
            determinism: DeterminismTier::Exact,
            roi: RoiPolicy { category: RoiCategory::FullDomain, halo_px: None },
            inputs,
            outputs,
            params,
            implementations,
            test: test_metadata(None),
        };
        assert(m@.inputs =~= declared().inputs);
        assert(m@.outputs =~= declared().outputs);
        assert(m@.params =~= declared().params);
        assert(m@.implementations =~= declared().implementations);
        Ok(m)
    }
}

/// The manifest's ports are those that the operation itself declares.
pub proof fn law_manifest_agrees_with_ports()
    ensures
        agrees(
            declared(),
            seq![("before", ResourceKind::Image), ("after", ResourceKind::Image)],
            seq![("diff", ResourceKind::Image), ("report", ResourceKind::Report)],
        ),
{
}

/// The manifest is sound, and every verification category is answered for.
pub proof fn law_manifest_is_in_order()
    ensures
        fault(declared()) is None,
        all_answered(declared()),
{
    reveal_with_fuel(params_fault, 3);
    assert(declared().params[0].choices[1]@ == "decoded-linear"@);
    lemma_answered(declared(), None);
}

} // verus!
