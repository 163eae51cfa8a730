//! What the operation of [`FrequencyEnergy`] declares of itself.
use crate::frequency_energy::{FrequencyEnergy, FREQUENCY_ENERGY_OP_ID};
use crate::ir::{Error, ResourceKind};
use crate::manifest::{
    agrees, all_answered, fault, lemma_answered, params_fault, reference_impl,
    test_metadata, tests_of, DeterminismTier, ImplId, InputSpec, Literal, ManifestView,
    OperationManifest, OutputSpec, ParamSpec, ParamType, ParamView, RoiCategory, RoiPolicy,
};
use vstd::prelude::*;

verus! {

/// What the operation does.
pub const SUMMARY: &'static str = "Report the per-band frequency energy (sum of squares) of an \
    Image/Field1 under a Laplacian or Gaussian decomposition, optionally windowed by a mask. The \
    texture-preservation measurement assert.frequency_preserved compares.";

/// What the `resource` input is.
pub const RESOURCE_INPUT: &'static str = "The Image or Field1 whose per-band energy is reported.";

/// What the `mask` input is.
pub const MASK_INPUT: &'static str = "An optional coverage mask: energy is computed over the \
    masked region (unmasked base pixels are zeroed before decomposition).";

/// What the `report` output is.
pub const REPORT_OUTPUT: &'static str = "The per-band frequency-energy report.";

/// What the `bands` parameter is.
pub const BANDS_PARAM: &'static str = "The number of bands (= pyramid levels), finest first.";

/// What the `decomposition` parameter is.
pub const DECOMPOSITION_PARAM: &'static str = "The decomposition to report over (band-pass vs \
    per-level low-pass).";

/// What the `phase` parameter is.
pub const PHASE_PARAM: &'static str = "The odd-size rounding rule for the pyramid level extents.";

/// What the manifest says.
pub open spec fn declared() -> ManifestView {
    ManifestView {
        id: FREQUENCY_ENERGY_OP_ID,
        impl_version: 1,
        summary: SUMMARY,
        determinism: DeterminismTier::Exact,
        roi: RoiPolicy { category: RoiCategory::FullDomain, halo_px: None },
        inputs: seq![
            InputSpec {
                name: "resource",
                kind: ResourceKind::Image,
                required: true,
                doc: RESOURCE_INPUT,
            },
            InputSpec {
                name: "mask",
                kind: ResourceKind::Mask,
                required: false,
                doc: MASK_INPUT,
            },
        ],
        outputs: seq![
            OutputSpec {
                name: "report",
                kind: ResourceKind::Report,
                doc: REPORT_OUTPUT,
            },
        ],
        params: seq![
            ParamView {
                name: "bands",
                ty: ParamType::Integer,
                unit: None,
                required: true,
                default: None,
                choices: Seq::empty(),
                doc: BANDS_PARAM,
            },
            ParamView {
                name: "decomposition",
                ty: ParamType::String,
                unit: None,
                required: false,
                default: Some(Literal::Text("laplacian")),
                choices: seq!["laplacian", "gaussian"],
                doc: DECOMPOSITION_PARAM,
            },
            ParamView {
                name: "phase",
                ty: ParamType::String,
                unit: None,
                required: false,
                default: Some(Literal::Text("floor")),
                choices: seq!["floor", "ceil"],
                doc: PHASE_PARAM,
            },
        ],
        implementations: seq![reference_impl()],
        test: tests_of(None),
    }
}

impl FrequencyEnergy {
    /// The operation's manifest.
    pub fn manifest() -> (r: Result<OperationManifest, Error>)
        ensures
            r matches Ok(m) && m@ == declared(),
    {
        let inputs: Vec<InputSpec> = vec![
            InputSpec {
                name: "resource",
                kind: ResourceKind::Image,
                required: true,
                doc: RESOURCE_INPUT,
            },
            InputSpec {
                name: "mask",
                kind: ResourceKind::Mask,
                required: false,
                doc: MASK_INPUT,
            },
        ];
        let outputs: Vec<OutputSpec> = vec![
            OutputSpec {
                name: "report",
                kind: ResourceKind::Report,
                doc: REPORT_OUTPUT,
            },
        ];
        let bands_choices: Vec<&'static str> = Vec::new();
        assert(bands_choices@ =~= Seq::empty());
        let decomposition_choices: Vec<&'static str> = vec!["laplacian", "gaussian"];
        assert(decomposition_choices@ =~= seq!["laplacian", "gaussian"]);
        let phase_choices: Vec<&'static str> = vec!["floor", "ceil"];
        assert(phase_choices@ =~= seq!["floor", "ceil"]);
        let params: Vec<ParamSpec> = vec![
            ParamSpec {
                name: "bands",
                ty: ParamType::Integer,
                unit: None,
                required: true,
                default: None,
                choices: bands_choices,
                doc: BANDS_PARAM,
            },
            ParamSpec {
                name: "decomposition",
                ty: ParamType::String,
                unit: None,
                required: false,
                default: Some(Literal::Text("laplacian")),
                choices: decomposition_choices,
                doc: DECOMPOSITION_PARAM,
            },
            ParamSpec {
                name: "phase",
                ty: ParamType::String,
                unit: None,
                required: false,
                default: Some(Literal::Text("floor")),
                choices: phase_choices,
                doc: PHASE_PARAM,
            },
        ];
        let implementations: Vec<ImplId> = vec![reference_impl()];
        let m: OperationManifest = OperationManifest {
            id: FREQUENCY_ENERGY_OP_ID,
            impl_version: 1,
            summary: SUMMARY,
            determinism: DeterminismTier::Exact,
            roi: RoiPolicy { category: RoiCategory::FullDomain, halo_px: None },
            inputs,
            outputs,
            params,
            implementations,
            test: test_metadata(None),
        };
        assert(m@.inputs =~= declared().inputs);
        assert(m@.outputs =~= declared().outputs);
        assert(m@.params =~= declared().params);
        assert(m@.implementations =~= declared().implementations);
        Ok(m)
    }
}

/// The manifest's ports are those that the operation itself declares.
pub proof fn law_manifest_agrees_with_ports()
    ensures
        agrees(
            declared(),
            seq![("resource", ResourceKind::Image), ("mask", ResourceKind::Mask)],
            seq![("report", ResourceKind::Report)],
        ),
{
}

/// The manifest is sound, and every verification category is answered for.
pub proof fn law_manifest_is_in_order()
    ensures
        fault(declared()) is None,
        all_answered(declared()),
{
    reveal_with_fuel(params_fault, 4);
    assert(declared().params[1].choices[0]@ == "laplacian"@);
    assert(declared().params[2].choices[0]@ == "floor"@);
    lemma_answered(declared(), None);
}

} // verus!
