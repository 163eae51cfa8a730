//! What the operation of [`Crop`] declares of itself.
use crate::crop::{Crop, CROP_OP_ID};
use crate::ir::{Error, ResourceKind};
use crate::manifest::{
    agrees, all_answered, fault, lemma_answered, params_fault, reference_impl,
    test_metadata, tests_of, DeterminismTier, ImplId, InputSpec, ManifestView,
    OperationManifest, OutputSpec, ParamSpec, ParamType, ParamUnit, ParamView, RoiCategory,
    RoiPolicy,
};
use vstd::prelude::*;

verus! {

/// What the operation does.
pub const SUMMARY: &'static str = "Exact pixel selection of a half-open rectangle [x0, x1) x \
    [y0, y1) within the input image; the rect must lie fully inside the input extent.";

/// What the `image` input is.
pub const IMAGE_INPUT: &'static str = "The image to crop.";

/// What the `image` output is.
pub const IMAGE_OUTPUT: &'static str = "The cropped image (extent = rect width x height; all \
    other descriptor fields preserved).";

/// What the `rect` parameter is.
pub const RECT_PARAM: &'static str = "The half-open crop rectangle {x0, y0, x1, y1} in input \
    pixel space; upper bounds are exclusive and must lie within the input extent.";

/// Why no perceptual measure applies.
pub const NOT_PERCEPTUAL: &'static str = "image.crop is an exact verbatim sub-window copy \
    verified by pixel-selection fixtures, half-open boundary cases, and the crop/pad round-trip \
    identity; there is no perceptual-quality metric to apply";

/// What the manifest says.
pub open spec fn declared() -> ManifestView {
    ManifestView {
        id: CROP_OP_ID,
        impl_version: 1,
        summary: SUMMARY,
        determinism: DeterminismTier::Exact,
        roi: RoiPolicy { category: RoiCategory::Geometric, halo_px: None },
        inputs: seq![
            InputSpec {
                name: "image",
                kind: ResourceKind::Image,
                required: true,
                doc: IMAGE_INPUT,
            },
        ],
        outputs: seq![
            OutputSpec {
                name: "image",
                kind: ResourceKind::Image,
                doc: IMAGE_OUTPUT,
            },
        ],
        params: seq![
            ParamView {
                name: "rect",
                ty: ParamType::Json,
                unit: Some(ParamUnit::Pixels),
                required: true,
                default: None,
                choices: Seq::empty(),
                doc: RECT_PARAM,
            },
        ],
        implementations: seq![reference_impl()],
        test: tests_of(Some(NOT_PERCEPTUAL)),
    }
}

impl Crop {
    /// The operation's manifest.
    pub fn manifest() -> (r: Result<OperationManifest, Error>)
        ensures
            r matches Ok(m) && m@ == declared(),
    {
        let inputs: Vec<InputSpec> = vec![
            InputSpec {
                name: "image",
                kind: ResourceKind::Image,
                required: true,
                doc: IMAGE_INPUT,
            },
        ];
        let outputs: Vec<OutputSpec> = vec![
            OutputSpec {
                name: "image",
                kind: ResourceKind::Image,
                doc: IMAGE_OUTPUT,
            },
        ];
        let rect_choices: Vec<&'static str> = Vec::new();
        assert(rect_choices@ =~= Seq::empty());
        let params: Vec<ParamSpec> = vec![
            ParamSpec {
                name: "rect",
                ty: ParamType::Json,
                unit: Some(ParamUnit::Pixels),
                required: true,
                default: None,
                choices: rect_choices,
                doc: RECT_PARAM,
            },
        ];
        let implementations: Vec<ImplId> = vec![reference_impl()];
        let m: OperationManifest = OperationManifest {
            id: CROP_OP_ID,
            impl_version: 1,
            summary: SUMMARY,
            determinism: DeterminismTier::Exact,
            roi: RoiPolicy { category: RoiCategory::Geometric, halo_px: None },
            inputs,
            outputs,
            params,
            implementations,
            test: test_metadata(Some(NOT_PERCEPTUAL)),
        };
        assert(m@.inputs =~= declared().inputs);
        assert(m@.outputs =~= declared().outputs);
        assert(m@.params =~= declared().params);
        assert(m@.implementations =~= declared().implementations);
        Ok(m)
    }
}

/// The manifest's ports are those that the operation itself declares.
pub proof fn law_manifest_agrees_with_ports()
    ensures
        agrees(
            declared(),
            seq![("image", ResourceKind::Image)],
            seq![("image", ResourceKind::Image)],
        ),
{
}

/// The manifest is sound, and every verification category is answered for.
pub proof fn law_manifest_is_in_order()
    ensures
        fault(declared()) is None,
        all_answered(declared()),
{
    reveal_with_fuel(params_fault, 2);
    lemma_answered(declared(), Some(NOT_PERCEPTUAL));
}

} // verus!
