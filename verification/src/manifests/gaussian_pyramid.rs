//! What the operation of [`GaussianPyramid`] declares of itself.
use crate::gaussian_pyramid::{GaussianPyramid, GAUSSIAN_PYRAMID_OP_ID};
use crate::ir::{Error, ResourceKind};
use crate::manifest::{
    agrees, all_answered, fault, lemma_answered, params_fault, reference_impl,
    test_metadata, tests_of, DeterminismTier, ImplId, InputSpec, Literal, ManifestView,
    OperationManifest, OutputSpec, ParamSpec, ParamType, ParamUnit, ParamView, RoiCategory,
    RoiPolicy,
};
use vstd::prelude::*;

verus! {

/// What the operation does.
pub const SUMMARY: &'static str = "Build a multi-resolution Gaussian pyramid: level 0 is the \
    input, each deeper level a fixed separable Gaussian pre-blur decimated 2:1 under the \
    declared floor/ceil odd-size phase. Output is a single Pyramid resource.";

/// What the `input` input is.
pub const INPUT_INPUT: &'static str = "The Image or Field1 base (level 0) of the pyramid.";

/// What the `pyramid` output is.
pub const PYRAMID_OUTPUT: &'static str = "The multi-resolution Gaussian pyramid (level 0 = \
    input).";

/// What the `levels` parameter is.
pub const LEVELS_PARAM: &'static str = "The number of levels, level 0 the base (1..=32).";

/// What the `sigma` parameter is.
pub const SIGMA_PARAM: &'static str = "The pre-decimation Gaussian standard deviation \
    (anti-alias low-pass).";

/// What the `phase` parameter is.
pub const PHASE_PARAM: &'static str = "The odd-size rounding rule mapping a parent extent to its \
    child.";

/// Why no perceptual measure applies.
pub const NOT_PERCEPTUAL: &'static str = "the Gaussian pyramid is verified by the level-extent \
    convention, constant preservation, and the deterministic blur+decimate chain, not a \
    perceptual metric";

/// What the manifest says.
pub open spec fn declared() -> ManifestView {
    ManifestView {
        id: GAUSSIAN_PYRAMID_OP_ID,
        impl_version: 1,
        summary: SUMMARY,
        determinism: DeterminismTier::Bounded,
        roi: RoiPolicy { category: RoiCategory::FullDomain, halo_px: None },
        inputs: seq![
            InputSpec {
                name: "input",
                kind: ResourceKind::Image,
                required: true,
                doc: INPUT_INPUT,
            },
        ],
        outputs: seq![
            OutputSpec {
                name: "pyramid",
                kind: ResourceKind::Pyramid,
                doc: PYRAMID_OUTPUT,
            },
        ],
        params: seq![
            ParamView {
                name: "levels",
                ty: ParamType::Integer,
                unit: None,
                required: true,
                default: None,
                choices: Seq::empty(),
                doc: LEVELS_PARAM,
            },
            ParamView {
                name: "sigma",
                ty: ParamType::Float,
                unit: Some(ParamUnit::Pixels),
                required: false,
                default: Some(Literal::Number(0x3ff0_0000_0000_0000)),
                choices: Seq::empty(),
                doc: SIGMA_PARAM,
            },
            ParamView {
                name: "phase",
                ty: ParamType::String,
                unit: None,
                required: false,
                default: Some(Literal::Text("floor")),
                choices: seq!["floor", "ceil"],
                doc: PHASE_PARAM,
            },
        ],
        implementations: seq![reference_impl()],
        test: tests_of(Some(NOT_PERCEPTUAL)),
    }
}

impl GaussianPyramid {
    /// The operation's manifest.
    pub fn manifest() -> (r: Result<OperationManifest, Error>)
        ensures
            r matches Ok(m) && m@ == declared(),
    {
        let inputs: Vec<InputSpec> = vec![
            InputSpec {
                name: "input",
                kind: ResourceKind::Image,
                required: true,
                doc: INPUT_INPUT,
            },
        ];
        let outputs: Vec<OutputSpec> = vec![
            OutputSpec {
                name: "pyramid",
                kind: ResourceKind::Pyramid,
                doc: PYRAMID_OUTPUT,
            },
        ];
        let levels_choices: Vec<&'static str> = Vec::new();
        assert(levels_choices@ =~= Seq::empty());
        let sigma_choices: Vec<&'static str> = Vec::new();
        assert(sigma_choices@ =~= Seq::empty());
        let phase_choices: Vec<&'static str> = vec!["floor", "ceil"];
        assert(phase_choices@ =~= seq!["floor", "ceil"]);
        let params: Vec<ParamSpec> = vec![
            ParamSpec {
                name: "levels",
                ty: ParamType::Integer,
                unit: None,
                required: true,
                default: None,
                choices: levels_choices,
                doc: LEVELS_PARAM,
            },
            ParamSpec {
                name: "sigma",
                ty: ParamType::Float,
                unit: Some(ParamUnit::Pixels),
                required: false,
                default: Some(Literal::Number(0x3ff0_0000_0000_0000)),
                choices: sigma_choices,
                doc: SIGMA_PARAM,
            },
            ParamSpec {
                name: "phase",
                ty: ParamType::String,
                unit: None,
                required: false,
                default: Some(Literal::Text("floor")),
                choices: phase_choices,
                doc: PHASE_PARAM,
            },
        ];
        let implementations: Vec<ImplId> = vec![reference_impl()];
        let m: OperationManifest = OperationManifest {
            id: GAUSSIAN_PYRAMID_OP_ID,
            impl_version: 1,
            summary: SUMMARY,
            determinism: DeterminismTier::Bounded,
            roi: RoiPolicy { category: RoiCategory::FullDomain, halo_px: None },
            inputs,
            outputs,
            params,
            implementations,
            test: test_metadata(Some(NOT_PERCEPTUAL)),
        };
        assert(m@.inputs =~= declared().inputs);
        assert(m@.outputs =~= declared().outputs);
        assert(m@.params =~= declared().params);
        assert(m@.implementations =~= declared().implementations);
        Ok(m)
    }
}

/// The manifest's ports are those that the operation itself declares.
pub proof fn law_manifest_agrees_with_ports()
    ensures
        agrees(
            declared(),
            seq![("input", ResourceKind::Image)],
            seq![("pyramid", ResourceKind::Pyramid)],
        ),
{
}

/// The manifest is sound, and every verification category is answered for.
pub proof fn law_manifest_is_in_order()
    ensures
        fault(declared()) is None,
        all_answered(declared()),
{
    reveal_with_fuel(params_fault, 4);
    assert(declared().params[2].choices[0]@ == "floor"@);
    lemma_answered(declared(), Some(NOT_PERCEPTUAL));
}

} // verus!
