//! What the operation of [`Fill`] declares of itself.
use crate::fill::{Fill, FILL_OP_ID};
use crate::ir::{Error, ResourceKind};
use crate::manifest::{
    agrees, all_answered, fault, lemma_answered, params_fault, reference_impl,
    test_metadata, tests_of, DeterminismTier, ImplId, InputSpec, ManifestView,
    OperationManifest, OutputSpec, ParamSpec, ParamType, ParamView, RoiCategory, RoiPolicy,
};
use vstd::prelude::*;

verus! {

/// What the operation does.
pub const SUMMARY: &'static str = "Paint a typed per-channel constant value into an image \
    through a coverage mask (out = base + m·(value − base)); where the mask is 0 the output is \
    the base bit-for-bit, where it is 1 the output is the value. The value is range-checked \
    against the image's valid-range policy.";

/// What the `image` input is.
pub const IMAGE_INPUT: &'static str = "The image painted into; kept where the mask is 0.";

/// What the `mask` input is.
pub const MASK_INPUT: &'static str = "The coverage mask in [0, 1] selecting the fill, co-located \
    with the image.";

/// What the `image` output is.
pub const IMAGE_OUTPUT: &'static str = "The masked-filled image (same descriptor as the input \
    image).";

/// What the `value` parameter is.
pub const VALUE_PARAM: &'static str = "The per-channel constant fill value; one component per \
    layout channel, each respecting the image's declared valid range.";

/// Why no perceptual measure applies.
pub const NOT_PERCEPTUAL: &'static str = "paint.fill is a bit-exact per-channel masked blend of \
    a typed constant verified by mask-extreme exactness, outside-region bit-identity, and \
    soft-mask lerp fixtures; there is no perceptual-quality metric to apply";

/// What the manifest says.
pub open spec fn declared() -> ManifestView {
    ManifestView {
        id: FILL_OP_ID,
        impl_version: 1,
        summary: SUMMARY,
        determinism: DeterminismTier::Exact,
        roi: RoiPolicy { category: RoiCategory::Pointwise, halo_px: None },
        inputs: seq![
            InputSpec {
                name: "image",
                kind: ResourceKind::Image,
                required: true,
                doc: IMAGE_INPUT,
            },
            InputSpec {
                name: "mask",
                kind: ResourceKind::Mask,
                required: true,
                doc: MASK_INPUT,
            },
        ],
        outputs: seq![
            OutputSpec {
                name: "image",
                kind: ResourceKind::Image,
                doc: IMAGE_OUTPUT,
            },
        ],
        params: seq![
            ParamView {
                name: "value",
                ty: ParamType::Json,
                unit: None,
                required: true,
                default: None,
                choices: Seq::empty(),
                doc: VALUE_PARAM,
            },
        ],
        implementations: seq![reference_impl()],
        test: tests_of(Some(NOT_PERCEPTUAL)),
    }
}

impl Fill {
    /// The operation's manifest.
    pub fn manifest() -> (r: Result<OperationManifest, Error>)
        ensures
            r matches Ok(m) && m@ == declared(),
    {
        let inputs: Vec<InputSpec> = vec![
            InputSpec {
                name: "image",
                kind: ResourceKind::Image,
                required: true,
                doc: IMAGE_INPUT,
            },
            InputSpec {
                name: "mask",
                kind: ResourceKind::Mask,
                required: true,
                doc: MASK_INPUT,
            },
        ];
        let outputs: Vec<OutputSpec> = vec![
            OutputSpec {
                name: "image",
                kind: ResourceKind::Image,
                doc: IMAGE_OUTPUT,
            },
        ];
        let value_choices: Vec<&'static str> = Vec::new();
        assert(value_choices@ =~= Seq::empty());
        let params: Vec<ParamSpec> = vec![
            ParamSpec {
                name: "value",
                ty: ParamType::Json,
                unit: None,
                required: true,
                default: None,
                choices: value_choices,
                doc: VALUE_PARAM,
            },
        ];
        let implementations: Vec<ImplId> = vec![reference_impl()];
        let m: OperationManifest = OperationManifest {
            id: FILL_OP_ID,
            impl_version: 1,
            summary: SUMMARY,
            determinism: DeterminismTier::Exact,
            roi: RoiPolicy { category: RoiCategory::Pointwise, halo_px: None },
            inputs,
            outputs,
            params,
            implementations,
            test: test_metadata(Some(NOT_PERCEPTUAL)),
        };
        assert(m@.inputs =~= declared().inputs);
        assert(m@.outputs =~= declared().outputs);
        assert(m@.params =~= declared().params);
        assert(m@.implementations =~= declared().implementations);
        Ok(m)
    }
}

/// The manifest's ports are those that the operation itself declares.
pub proof fn law_manifest_agrees_with_ports()
    ensures
        agrees(
            declared(),
            seq![("image", ResourceKind::Image), ("mask", ResourceKind::Mask)],
            seq![("image", ResourceKind::Image)],
        ),
{
}

/// The manifest is sound, and every verification category is answered for.
pub proof fn law_manifest_is_in_order()
    ensures
        fault(declared()) is None,
        all_answered(declared()),
{
    reveal_with_fuel(params_fault, 2);
    lemma_answered(declared(), Some(NOT_PERCEPTUAL));
}

} // verus!
