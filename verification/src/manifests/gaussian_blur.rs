//! What the operation of [`GaussianBlur`] declares of itself.
use crate::gaussian_blur::{GaussianBlur, GAUSSIAN_BLUR_OP_ID};
use crate::ir::{Error, ResourceKind};
use crate::manifest::{
    agrees, all_answered, fault, lemma_answered, params_fault, reference_impl,
    test_metadata, tests_of, DeterminismTier, ImplId, InputSpec, Literal, ManifestView,
    OperationManifest, OutputSpec, ParamSpec, ParamType, ParamUnit, ParamView, RoiCategory,
    RoiPolicy,
};
use vstd::prelude::*;

verus! {

/// What the operation does.
pub const SUMMARY: &'static str = "Isotropic Gaussian blur: a normalized sampled Gaussian \
    (radius ceil(3*sigma), sigma->0 identity cutoff) convolved through the direct convolution \
    reference.";

/// What the `input` input is.
pub const INPUT_INPUT: &'static str = "The Image or Field1 to blur (each channel blurred \
    independently).";

/// What the `output` output is.
pub const OUTPUT_OUTPUT: &'static str = "The blurred Image or Field1 (same kind and extent as \
    the input).";

/// What the `sigma` parameter is.
pub const SIGMA_PARAM: &'static str = "The Gaussian standard deviation in pixels; sigma <= 1e-3 \
    is the identity.";

/// What the `mode` parameter is.
pub const MODE_PARAM: &'static str = "The boundary mode forwarded to the convolution.";

/// What the `sigma_max` parameter is.
pub const SIGMA_MAX_PARAM: &'static str = "Upper bound on sigma; a larger request is rejected.";

/// Why no perceptual measure applies.
pub const NOT_PERCEPTUAL: &'static str = "filter.gaussian_blur convolves a normalized sampled \
    Gaussian verified by analytic properties (unit-sum positive kernel, constant preservation, \
    90-degree isotropy, the sigma-semigroup G_s1*G_s2 ~ G_sqrt(s1^2+s2^2), the blurred-impulse \
    variance match, and the sigma->0 identity cutoff) and a differential check against \
    filter.convolve with the same kernel; there is no perceptual-quality metric to apply";

/// What the manifest says.
pub open spec fn declared() -> ManifestView {
    ManifestView {
        id: GAUSSIAN_BLUR_OP_ID,
        impl_version: 1,
        summary: SUMMARY,
        determinism: DeterminismTier::Bounded,
        roi: RoiPolicy { category: RoiCategory::Geometric, halo_px: None },
        inputs: seq![
            InputSpec {
                name: "input",
                kind: ResourceKind::Image,
                required: true,
                doc: INPUT_INPUT,
            },
        ],
        outputs: seq![
            OutputSpec {
                name: "output",
                kind: ResourceKind::Image,
                doc: OUTPUT_OUTPUT,
            },
        ],
        params: seq![
            ParamView {
                name: "sigma",
                ty: ParamType::Float,
                unit: Some(ParamUnit::Pixels),
                required: true,
                default: None,
                choices: Seq::empty(),
                doc: SIGMA_PARAM,
            },
            ParamView {
                name: "mode",
                ty: ParamType::String,
                unit: None,
                required: false,
                default: Some(Literal::Text("clamp")),
                choices: seq!["constant", "transparent", "clamp", "mirror", "wrap"],
                doc: MODE_PARAM,
            },
            ParamView {
                name: "sigma_max",
                ty: ParamType::Float,
                unit: Some(ParamUnit::Pixels),
                required: false,
                default: Some(Literal::Number(0x4080_0000_0000_0000)),
                choices: Seq::empty(),
                doc: SIGMA_MAX_PARAM,
            },
        ],
        implementations: seq![reference_impl()],
        test: tests_of(Some(NOT_PERCEPTUAL)),
    }
}

impl GaussianBlur {
    /// The operation's manifest.
    pub fn manifest() -> (r: Result<OperationManifest, Error>)
        ensures
            r matches Ok(m) && m@ == declared(),
    {
        let inputs: Vec<InputSpec> = vec![
            InputSpec {
                name: "input",
                kind: ResourceKind::Image,
                required: true,
                doc: INPUT_INPUT,
            },
        ];
        let outputs: Vec<OutputSpec> = vec![
            OutputSpec {
                name: "output",
                kind: ResourceKind::Image,
                doc: OUTPUT_OUTPUT,
            },
        ];
        let sigma_choices: Vec<&'static str> = Vec::new();
        assert(sigma_choices@ =~= Seq::empty());
        let mode_choices: Vec<&'static str> = vec!["constant", "transparent", "clamp", "mirror", "wrap"];
        assert(mode_choices@ =~= seq!["constant", "transparent", "clamp", "mirror", "wrap"]);
        let sigma_max_choices: Vec<&'static str> = Vec::new();
        assert(sigma_max_choices@ =~= Seq::empty());
        let params: Vec<ParamSpec> = vec![
            ParamSpec {
                name: "sigma",
                ty: ParamType::Float,
                unit: Some(ParamUnit::Pixels),
                required: true,
                default: None,
                choices: sigma_choices,
                doc: SIGMA_PARAM,
            },
            ParamSpec {
                name: "mode",
                ty: ParamType::String,
                unit: None,
                required: false,
                default: Some(Literal::Text("clamp")),
                choices: mode_choices,
                doc: MODE_PARAM,
            },
            ParamSpec {
                name: "sigma_max",
                ty: ParamType::Float,
                unit: Some(ParamUnit::Pixels),
                required: false,
                default: Some(Literal::Number(0x4080_0000_0000_0000)),
                choices: sigma_max_choices,
                doc: SIGMA_MAX_PARAM,
            },
        ];
        let implementations: Vec<ImplId> = vec![reference_impl()];
        let m: OperationManifest = OperationManifest {
            id: GAUSSIAN_BLUR_OP_ID,
            impl_version: 1,
            summary: SUMMARY,
            determinism: DeterminismTier::Bounded,
            roi: RoiPolicy { category: RoiCategory::Geometric, halo_px: None },
            inputs,
            outputs,
            params,
            implementations,
            test: test_metadata(Some(NOT_PERCEPTUAL)),
        };
        assert(m@.inputs =~= declared().inputs);
        assert(m@.outputs =~= declared().outputs);
        assert(m@.params =~= declared().params);
        assert(m@.implementations =~= declared().implementations);
        Ok(m)
    }
}

/// The manifest's ports are those that the operation itself declares.
pub proof fn law_manifest_agrees_with_ports()
    ensures
        agrees(
            declared(),
            seq![("input", ResourceKind::Image)],
            seq![("output", ResourceKind::Image)],
        ),
{
}

/// The manifest is sound, and every verification category is answered for.
pub proof fn law_manifest_is_in_order()
    ensures
        fault(declared()) is None,
        all_answered(declared()),
{
    reveal_with_fuel(params_fault, 4);
    assert(declared().params[1].choices[2]@ == "clamp"@);
    lemma_answered(declared(), Some(NOT_PERCEPTUAL));
}

} // verus!
