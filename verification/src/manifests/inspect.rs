//! What the operation of [`Inspect`] declares of itself.
use crate::inspect::{Inspect, INSPECT_OP_ID};
use crate::ir::{Error, ResourceKind};
use crate::manifest::{
    agrees, all_answered, fault, lemma_answered, reference_impl, test_metadata, tests_of,
    DeterminismTier, ImplId, InputSpec, ManifestView, OperationManifest, OutputSpec,
    ParamSpec, RoiCategory, RoiPolicy,
};
use vstd::prelude::*;

verus! {

/// What the operation does.
pub const SUMMARY: &'static str = "Summarize a resource into a Report: extent, per-channel \
    ranges, finite-value statistics, and a stable content hash.";

/// What the `image` input is.
pub const IMAGE_INPUT: &'static str = "The resource to inspect.";

/// What the `report` output is.
pub const REPORT_OUTPUT: &'static str = "The analysis report: extent, ranges, finite stats, \
    content hash.";

/// What the manifest says.
pub open spec fn declared() -> ManifestView {
    ManifestView {
        id: INSPECT_OP_ID,
        impl_version: 1,
        summary: SUMMARY,
        determinism: DeterminismTier::Exact,
        roi: RoiPolicy { category: RoiCategory::FullDomain, halo_px: None },
        inputs: seq![
            InputSpec {
                name: "image",
                kind: ResourceKind::Image,
                required: true,
                doc: IMAGE_INPUT,
            },
        ],
        outputs: seq![
            OutputSpec {
                name: "report",
                kind: ResourceKind::Report,
                doc: REPORT_OUTPUT,
            },
        ],
        params: Seq::empty(),
        implementations: seq![reference_impl()],
        test: tests_of(None),
    }
}

impl Inspect {
    /// The operation's manifest.
    pub fn manifest() -> (r: Result<OperationManifest, Error>)
        ensures
            r matches Ok(m) && m@ == declared(),
    {
        let inputs: Vec<InputSpec> = vec![
            InputSpec {
                name: "image",
                kind: ResourceKind::Image,
                required: true,
                doc: IMAGE_INPUT,
            },
        ];
        let outputs: Vec<OutputSpec> = vec![
            OutputSpec {
                name: "report",
                kind: ResourceKind::Report,
                doc: REPORT_OUTPUT,
            },
        ];
        let params: Vec<ParamSpec> = Vec::new();
        let implementations: Vec<ImplId> = vec![reference_impl()];
        let m: OperationManifest = OperationManifest {
            id: INSPECT_OP_ID,
            impl_version: 1,
            summary: SUMMARY,
            determinism: DeterminismTier::Exact,
            roi: RoiPolicy { category: RoiCategory::FullDomain, halo_px: None },
            inputs,
            outputs,
            params,
            implementations,
            test: test_metadata(None),
        };
        assert(m@.inputs =~= declared().inputs);
        assert(m@.outputs =~= declared().outputs);
        assert(m@.params =~= declared().params);
        assert(m@.implementations =~= declared().implementations);
        Ok(m)
    }
}

/// The manifest's ports are those that the operation itself declares.
pub proof fn law_manifest_agrees_with_ports()
    ensures
        agrees(
            declared(),
            seq![("image", ResourceKind::Image)],
            seq![("report", ResourceKind::Report)],
        ),
{
}

/// The manifest is sound, and every verification category is answered for.
pub proof fn law_manifest_is_in_order()
    ensures
        fault(declared()) is None,
        all_answered(declared()),
{
    lemma_answered(declared(), None);
}

} // verus!
