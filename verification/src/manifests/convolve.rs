//! What the operation of [`Convolve`] declares of itself.
use crate::convolve::{Convolve, CONVOLVE_OP_ID};
use crate::ir::{Error, ResourceKind};
use crate::manifest::{
    agrees, all_answered, fault, lemma_answered, params_fault, reference_impl,
    test_metadata, tests_of, DeterminismTier, ImplId, InputSpec, Literal, ManifestView,
    OperationManifest, OutputSpec, ParamSpec, ParamType, ParamView, RoiCategory, RoiPolicy,
};
use vstd::prelude::*;

verus! {

/// What the operation does.
pub const SUMMARY: &'static str = "Direct 2-D correlation of an Image or Field1 against a small \
    explicit kernel under a boundary mode (constant/transparent/clamp/mirror/wrap/valid); the \
    reference oracle for all optimized convolution paths.";

/// What the `input` input is.
pub const INPUT_INPUT: &'static str = "The Image or Field1 to filter (each channel filtered \
    independently).";

/// What the `output` output is.
pub const OUTPUT_OUTPUT: &'static str = "The filtered Image or Field1 (same kind as the input; \
    extent shrinks under `valid`).";

/// What the `kernel` parameter is.
pub const KERNEL_PARAM: &'static str = "The kernel: { width, height, origin_x?, origin_y?, \
    weights[] } with a row-major weights array of width*height finite numbers; origin defaults \
    to the geometric centre.";

/// What the `mode` parameter is.
pub const MODE_PARAM: &'static str = "How taps that overhang the input edge are resolved.";

/// What the `value` parameter is.
pub const VALUE_PARAM: &'static str = "Per-channel constant for `constant` mode; defaults to \
    all-zero.";

/// What the manifest says.
pub open spec fn declared() -> ManifestView {
    ManifestView {
        id: CONVOLVE_OP_ID,
        impl_version: 1,
        summary: SUMMARY,
        determinism: DeterminismTier::Exact,
        roi: RoiPolicy { category: RoiCategory::Geometric, halo_px: None },
        inputs: seq![
            InputSpec {
                name: "input",
                kind: ResourceKind::Image,
                required: true,
                doc: INPUT_INPUT,
            },
        ],
        outputs: seq![
            OutputSpec {
                name: "output",
                kind: ResourceKind::Image,
                doc: OUTPUT_OUTPUT,
            },
        ],
        params: seq![
            ParamView {
                name: "kernel",
                ty: ParamType::Json,
                unit: None,
                required: true,
                default: None,
                choices: Seq::empty(),
                doc: KERNEL_PARAM,
            },
            ParamView {
                name: "mode",
                ty: ParamType::String,
                unit: None,
                required: false,
                default: Some(Literal::Text("clamp")),
                choices: seq!["constant", "transparent", "clamp", "mirror", "wrap", "valid"],
                doc: MODE_PARAM,
            },
            ParamView {
                name: "value",
                ty: ParamType::Json,
                unit: None,
                required: false,
                default: None,
                choices: Seq::empty(),
                doc: VALUE_PARAM,
            },
        ],
        implementations: seq![reference_impl()],
        test: tests_of(None),
    }
}

impl Convolve {
    /// The operation's manifest.
    pub fn manifest() -> (r: Result<OperationManifest, Error>)
        ensures
            r matches Ok(m) && m@ == declared(),
    {
        let inputs: Vec<InputSpec> = vec![
            InputSpec {
                name: "input",
                kind: ResourceKind::Image,
                required: true,
                doc: INPUT_INPUT,
            },
        ];
        let outputs: Vec<OutputSpec> = vec![
            OutputSpec {
                name: "output",
                kind: ResourceKind::Image,
                doc: OUTPUT_OUTPUT,
            },
        ];
        let kernel_choices: Vec<&'static str> = Vec::new();
        assert(kernel_choices@ =~= Seq::empty());
        let mode_choices: Vec<&'static str> = vec!["constant", "transparent", "clamp", "mirror", "wrap", "valid"];
        assert(mode_choices@ =~= seq!["constant", "transparent", "clamp", "mirror", "wrap", "valid"]);
        let value_choices: Vec<&'static str> = Vec::new();
        assert(value_choices@ =~= Seq::empty());
        let params: Vec<ParamSpec> = vec![
            ParamSpec {
                name: "kernel",
                ty: ParamType::Json,
                unit: None,
                required: true,
                default: None,
                choices: kernel_choices,
                doc: KERNEL_PARAM,
            },
            ParamSpec {
                name: "mode",
                ty: ParamType::String,
                unit: None,
                required: false,
                default: Some(Literal::Text("clamp")),
                choices: mode_choices,
                doc: MODE_PARAM,
            },
            ParamSpec {
                name: "value",
                ty: ParamType::Json,
                unit: None,
                required: false,
                default: None,
                choices: value_choices,
                doc: VALUE_PARAM,
            },
        ];
        let implementations: Vec<ImplId> = vec![reference_impl()];
        let m: OperationManifest = OperationManifest {
            id: CONVOLVE_OP_ID,
            impl_version: 1,
            summary: SUMMARY,
            determinism: DeterminismTier::Exact,
            roi: RoiPolicy { category: RoiCategory::Geometric, halo_px: None },
            inputs,
            outputs,
            params,
            implementations,
            test: test_metadata(None),
        };
        assert(m@.inputs =~= declared().inputs);
        assert(m@.outputs =~= declared().outputs);
        assert(m@.params =~= declared().params);
        assert(m@.implementations =~= declared().implementations);
        Ok(m)
    }
}

/// The manifest's ports are those that the operation itself declares.
pub proof fn law_manifest_agrees_with_ports()
    ensures
        agrees(
            declared(),
            seq![("input", ResourceKind::Image)],
            seq![("output", ResourceKind::Image)],
        ),
{
}

/// The manifest is sound, and every verification category is answered for.
pub proof fn law_manifest_is_in_order()
    ensures
        fault(declared()) is None,
        all_answered(declared()),
{
    reveal_with_fuel(params_fault, 4);
    assert(declared().params[1].choices[2]@ == "clamp"@);
    lemma_answered(declared(), None);
}

} // verus!
