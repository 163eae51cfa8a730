//! What the operation of [`Guided`] declares of itself.
use crate::guided::{Guided, GUIDED_OP_ID};
use crate::ir::{Error, ResourceKind};
use crate::manifest::{
    agrees, all_answered, fault, lemma_answered, params_fault, reference_impl,
    test_metadata, tests_of, DeterminismTier, ImplId, InputSpec, ManifestView,
    OperationManifest, OutputSpec, ParamSpec, ParamType, ParamUnit, ParamView, RoiCategory,
    RoiPolicy,
};
use vstd::prelude::*;

verus! {

/// What the operation does.
pub const SUMMARY: &'static str = "Guided filter (He et al.): filter an input under a guide's \
    structure via a per-window local linear model q = a*I + b fitted by ridge regression (box \
    radius, epsilon); edge-preserving, flat input preserved exactly.";

/// What the `input` input is.
pub const INPUT_INPUT: &'static str = "The Image or Field1 to filter (per channel).";

/// What the `guide` input is.
pub const GUIDE_INPUT: &'static str = "The guide Image or Field1 whose structure the filter \
    follows; a single-channel guide is broadcast across the input's channels.";

/// What the `output` output is.
pub const OUTPUT_OUTPUT: &'static str = "The guided-filtered result (same kind and extent as the \
    input).";

/// What the `radius` parameter is.
pub const RADIUS_PARAM: &'static str = "The box-window radius (the window side is 2*radius + 1); \
    >= 1.";

/// What the `epsilon` parameter is.
pub const EPSILON_PARAM: &'static str = "The ridge regularization bounding the linear \
    coefficient; larger epsilon smooths flatter regions. Non-negative.";

/// Why no perceptual measure applies.
pub const NOT_PERCEPTUAL: &'static str = "filter.guided is a closed-form local-linear-model \
    filter verified by analytic properties (flat-input identity, flat-guide box-mean degeneracy, \
    self-guided edge preservation, the per-window ridge fit against an independent \
    box-statistics reference); there is no perceptual-quality metric to apply";

/// What the manifest says.
pub open spec fn declared() -> ManifestView {
    ManifestView {
        id: GUIDED_OP_ID,
        impl_version: 1,
        summary: SUMMARY,
        determinism: DeterminismTier::Bounded,
        roi: RoiPolicy { category: RoiCategory::Geometric, halo_px: None },
        inputs: seq![
            InputSpec {
                name: "input",
                kind: ResourceKind::Image,
                required: true,
                doc: INPUT_INPUT,
            },
            InputSpec {
                name: "guide",
                kind: ResourceKind::Image,
                required: true,
                doc: GUIDE_INPUT,
            },
        ],
        outputs: seq![
            OutputSpec {
                name: "output",
                kind: ResourceKind::Image,
                doc: OUTPUT_OUTPUT,
            },
        ],
        params: seq![
            ParamView {
                name: "radius",
                ty: ParamType::Integer,
                unit: Some(ParamUnit::Pixels),
                required: true,
                default: None,
                choices: Seq::empty(),
                doc: RADIUS_PARAM,
            },
            ParamView {
                name: "epsilon",
                ty: ParamType::Float,
                unit: None,
                required: true,
                default: None,
                choices: Seq::empty(),
                doc: EPSILON_PARAM,
            },
        ],
        implementations: seq![reference_impl()],
        test: tests_of(Some(NOT_PERCEPTUAL)),
    }
}

impl Guided {
    /// The operation's manifest.
    pub fn manifest() -> (r: Result<OperationManifest, Error>)
        ensures
            r matches Ok(m) && m@ == declared(),
    {
        let inputs: Vec<InputSpec> = vec![
            InputSpec {
                name: "input",
                kind: ResourceKind::Image,
                required: true,
                doc: INPUT_INPUT,
            },
            InputSpec {
                name: "guide",
                kind: ResourceKind::Image,
                required: true,
                doc: GUIDE_INPUT,
            },
        ];
        let outputs: Vec<OutputSpec> = vec![
            OutputSpec {
                name: "output",
                kind: ResourceKind::Image,
                doc: OUTPUT_OUTPUT,
            },
        ];
        let radius_choices: Vec<&'static str> = Vec::new();
        assert(radius_choices@ =~= Seq::empty());
        let epsilon_choices: Vec<&'static str> = Vec::new();
        assert(epsilon_choices@ =~= Seq::empty());
        let params: Vec<ParamSpec> = vec![
            ParamSpec {
                name: "radius",
                ty: ParamType::Integer,
                unit: Some(ParamUnit::Pixels),
                required: true,
                default: None,
                choices: radius_choices,
                doc: RADIUS_PARAM,
            },
            ParamSpec {
                name: "epsilon",
                ty: ParamType::Float,
                unit: None,
                required: true,
                default: None,
                choices: epsilon_choices,
                doc: EPSILON_PARAM,
            },
        ];
        let implementations: Vec<ImplId> = vec![reference_impl()];
        let m: OperationManifest = OperationManifest {
            id: GUIDED_OP_ID,
            impl_version: 1,
            summary: SUMMARY,
            determinism: DeterminismTier::Bounded,
            roi: RoiPolicy { category: RoiCategory::Geometric, halo_px: None },
            inputs,
            outputs,
            params,
            implementations,
            test: test_metadata(Some(NOT_PERCEPTUAL)),
        };
        assert(m@.inputs =~= declared().inputs);
        assert(m@.outputs =~= declared().outputs);
        assert(m@.params =~= declared().params);
        assert(m@.implementations =~= declared().implementations);
        Ok(m)
    }
}

/// The manifest's ports are those that the operation itself declares.
pub proof fn law_manifest_agrees_with_ports()
    ensures
        agrees(
            declared(),
            seq![("input", ResourceKind::Image), ("guide", ResourceKind::Image)],
            seq![("output", ResourceKind::Image)],
        ),
{
}

/// The manifest is sound, and every verification category is answered for.
pub proof fn law_manifest_is_in_order()
    ensures
        fault(declared()) is None,
        all_answered(declared()),
{
    reveal_with_fuel(params_fault, 3);
    lemma_answered(declared(), Some(NOT_PERCEPTUAL));
}

} // verus!
