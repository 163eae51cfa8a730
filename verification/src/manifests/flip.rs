//! What the operation of [`Flip`] declares of itself.
use crate::flip::{Flip, FLIP_OP_ID};
use crate::ir::{Error, ResourceKind};
use crate::manifest::{
    agrees, all_answered, fault, lemma_answered, params_fault, reference_impl,
    test_metadata, tests_of, DeterminismTier, ImplId, InputSpec, ManifestView,
    OperationManifest, OutputSpec, ParamSpec, ParamType, ParamView, RoiCategory, RoiPolicy,
};
use vstd::prelude::*;

verus! {

/// What the operation does.
pub const SUMMARY: &'static str = "Exact axis reflection (horizontal / vertical / both) as a \
    bijective integer pixel remap; no resampling. Involution: flipping twice is the identity.";

/// What the `image` input is.
pub const IMAGE_INPUT: &'static str = "The image to flip.";

/// What the `image` output is.
pub const IMAGE_OUTPUT: &'static str = "The reflected image (same extent and descriptor as the \
    input).";

/// What the `axis` parameter is.
pub const AXIS_PARAM: &'static str = "Reflection axis: horizontal (left<->right), vertical \
    (top<->bottom), or both.";

/// Why no perceptual measure applies.
pub const NOT_PERCEPTUAL: &'static str = "image.flip is a bijective integer pixel remap copying \
    samples verbatim; correctness is verified by exact pixel-correspondence fixtures and the \
    double-flip involution identity, not a perceptual-quality metric";

/// What the manifest says.
pub open spec fn declared() -> ManifestView {
    ManifestView {
        id: FLIP_OP_ID,
        impl_version: 1,
        summary: SUMMARY,
        determinism: DeterminismTier::Exact,
        roi: RoiPolicy { category: RoiCategory::Geometric, halo_px: None },
        inputs: seq![
            InputSpec {
                name: "image",
                kind: ResourceKind::Image,
                required: true,
                doc: IMAGE_INPUT,
            },
        ],
        outputs: seq![
            OutputSpec {
                name: "image",
                kind: ResourceKind::Image,
                doc: IMAGE_OUTPUT,
            },
        ],
        params: seq![
            ParamView {
                name: "axis",
                ty: ParamType::String,
                unit: None,
                required: true,
                default: None,
                choices: seq!["horizontal", "vertical", "both"],
                doc: AXIS_PARAM,
            },
        ],
        implementations: seq![reference_impl()],
        test: tests_of(Some(NOT_PERCEPTUAL)),
    }
}

impl Flip {
    /// The operation's manifest.
    pub fn manifest() -> (r: Result<OperationManifest, Error>)
        ensures
            r matches Ok(m) && m@ == declared(),
    {
        let inputs: Vec<InputSpec> = vec![
            InputSpec {
                name: "image",
                kind: ResourceKind::Image,
                required: true,
                doc: IMAGE_INPUT,
            },
        ];
        let outputs: Vec<OutputSpec> = vec![
            OutputSpec {
                name: "image",
                kind: ResourceKind::Image,
                doc: IMAGE_OUTPUT,
            },
        ];
        let axis_choices: Vec<&'static str> = vec!["horizontal", "vertical", "both"];
        assert(axis_choices@ =~= seq!["horizontal", "vertical", "both"]);
        let params: Vec<ParamSpec> = vec![
            ParamSpec {
                name: "axis",
                ty: ParamType::String,
                unit: None,
                required: true,
                default: None,
                choices: axis_choices,
                doc: AXIS_PARAM,
            },
        ];
        let implementations: Vec<ImplId> = vec![reference_impl()];
        let m: OperationManifest = OperationManifest {
            id: FLIP_OP_ID,
            impl_version: 1,
            summary: SUMMARY,
            determinism: DeterminismTier::Exact,
            roi: RoiPolicy { category: RoiCategory::Geometric, halo_px: None },
            inputs,
            outputs,
            params,
            implementations,
            test: test_metadata(Some(NOT_PERCEPTUAL)),
        };
        assert(m@.inputs =~= declared().inputs);
        assert(m@.outputs =~= declared().outputs);
        assert(m@.params =~= declared().params);
        assert(m@.implementations =~= declared().implementations);
        Ok(m)
    }
}

/// The manifest's ports are those that the operation itself declares.
pub proof fn law_manifest_agrees_with_ports()
    ensures
        agrees(
            declared(),
            seq![("image", ResourceKind::Image)],
            seq![("image", ResourceKind::Image)],
        ),
{
}

/// The manifest is sound, and every verification category is answered for.
pub proof fn law_manifest_is_in_order()
    ensures
        fault(declared()) is None,
        all_answered(declared()),
{
    reveal_with_fuel(params_fault, 2);
    lemma_answered(declared(), Some(NOT_PERCEPTUAL));
}

} // verus!
