//! What the operation of [`RadialGradient`] declares of itself.
use crate::gradient::{RadialGradient, RADIAL_GRADIENT_OP_ID};
use crate::ir::{Error, ResourceKind};
use crate::manifest::{
    agrees, all_answered, fault, lemma_answered, params_fault, reference_impl,
    test_metadata, tests_of, DeterminismTier, ImplId, InputSpec, Literal, ManifestView,
    OperationManifest, OutputSpec, ParamSpec, ParamType, ParamUnit, ParamView, RoiCategory,
    RoiPolicy,
};
use vstd::prelude::*;

verus! {

/// What the operation does.
pub const SUMMARY: &'static str = "Synthesize a radial color gradient about a center with \
    explicit sorted color stops; t = clamp(|P − center| / radius, 0, 1) interpolated per channel \
    in the declared color space. A non-positive radius is rejected.";

/// What the `extent_from` input is.
pub const EXTENT_FROM_INPUT: &'static str = "The resource whose pixel extent the produced \
    gradient image matches.";

/// What the `image` output is.
pub const IMAGE_OUTPUT: &'static str = "The produced gradient image.";

/// What the `center_px` parameter is.
pub const CENTER_PX_PARAM: &'static str = "The gradient center [x, y] in pixel coordinates (t = \
    0).";

/// What the `radius_px` parameter is.
pub const RADIUS_PX_PARAM: &'static str = "The gradient radius in pixels (t = 1 at this \
    distance); strictly positive.";

/// What the `layout` parameter is.
pub const LAYOUT_PARAM: &'static str = "The channel layout of the produced image; stop colors \
    carry one component per channel.";

/// What the `color` parameter is.
pub const COLOR_PARAM: &'static str = "The color encoding of the produced image; interpolation \
    happens in this space.";

/// What the `range` parameter is.
pub const RANGE_PARAM: &'static str = "The reference-light range policy; display-referred bounds \
    color stops to [0, 1].";

/// What the `alpha` parameter is.
pub const ALPHA_PARAM: &'static str = "The alpha representation of the produced image.";

/// What the `stops` parameter is.
pub const STOPS_PARAM: &'static str = "The sorted color stops [{ position: p in [0,1], color: \
    [per-channel] }, …], spanning position 0 to 1.";

/// Why no perceptual measure applies.
pub const NOT_PERCEPTUAL: &'static str = "paint.radial_gradient is a closed-form per-channel \
    interpolation verified by stop-exactness, monotonic radial parameterization, and \
    degenerate-radius rejection; there is no perceptual-quality metric to apply";

/// What the manifest says.
pub open spec fn declared() -> ManifestView {
    ManifestView {
        id: RADIAL_GRADIENT_OP_ID,
        impl_version: 1,
        summary: SUMMARY,
        determinism: DeterminismTier::Bounded,
        roi: RoiPolicy { category: RoiCategory::Pointwise, halo_px: None },
        inputs: seq![
            InputSpec {
                name: "extent_from",
                kind: ResourceKind::Image,
                required: true,
                doc: EXTENT_FROM_INPUT,
            },
        ],
        outputs: seq![
            OutputSpec {
                name: "image",
                kind: ResourceKind::Image,
                doc: IMAGE_OUTPUT,
            },
        ],
        params: seq![
            ParamView {
                name: "center_px",
                ty: ParamType::Json,
                unit: Some(ParamUnit::Pixels),
                required: true,
                default: None,
                choices: Seq::empty(),
                doc: CENTER_PX_PARAM,
            },
            ParamView {
                name: "radius_px",
                ty: ParamType::Float,
                unit: Some(ParamUnit::Pixels),
                required: true,
                default: None,
                choices: Seq::empty(),
                doc: RADIUS_PX_PARAM,
            },
            ParamView {
                name: "layout",
                ty: ParamType::String,
                unit: None,
                required: false,
                default: Some(Literal::Text("rgba")),
                choices: seq!["gray", "gray-a", "rgb", "rgba"],
                doc: LAYOUT_PARAM,
            },
            ParamView {
                name: "color",
                ty: ParamType::String,
                unit: None,
                required: false,
                default: Some(Literal::Text("srgb")),
                choices: seq!["srgb", "linear-srgb", "raw-linear"],
                doc: COLOR_PARAM,
            },
            ParamView {
                name: "range",
                ty: ParamType::String,
                unit: None,
                required: false,
                default: Some(Literal::Text("display-referred")),
                choices: seq!["display-referred", "scene-referred"],
                doc: RANGE_PARAM,
            },
            ParamView {
                name: "alpha",
                ty: ParamType::String,
                unit: None,
                required: false,
                default: Some(Literal::Text("straight")),
                choices: seq!["premultiplied", "straight"],
                doc: ALPHA_PARAM,
            },
            ParamView {
                name: "stops",
                ty: ParamType::Json,
                unit: None,
                required: true,
                default: None,
                choices: Seq::empty(),
                doc: STOPS_PARAM,
            },
        ],
        implementations: seq![reference_impl()],
        test: tests_of(Some(NOT_PERCEPTUAL)),
    }
}

impl RadialGradient {
    /// The operation's manifest.
    pub fn manifest() -> (r: Result<OperationManifest, Error>)
        ensures
            r matches Ok(m) && m@ == declared(),
    {
        let inputs: Vec<InputSpec> = vec![
            InputSpec {
                name: "extent_from",
                kind: ResourceKind::Image,
                required: true,
                doc: EXTENT_FROM_INPUT,
            },
        ];
        let outputs: Vec<OutputSpec> = vec![
            OutputSpec {
                name: "image",
                kind: ResourceKind::Image,
                doc: IMAGE_OUTPUT,
            },
        ];
        let center_px_choices: Vec<&'static str> = Vec::new();
        assert(center_px_choices@ =~= Seq::empty());
        let radius_px_choices: Vec<&'static str> = Vec::new();
        assert(radius_px_choices@ =~= Seq::empty());
        let layout_choices: Vec<&'static str> = vec!["gray", "gray-a", "rgb", "rgba"];
        assert(layout_choices@ =~= seq!["gray", "gray-a", "rgb", "rgba"]);
        let color_choices: Vec<&'static str> = vec!["srgb", "linear-srgb", "raw-linear"];
        assert(color_choices@ =~= seq!["srgb", "linear-srgb", "raw-linear"]);
        let range_choices: Vec<&'static str> = vec!["display-referred", "scene-referred"];
        assert(range_choices@ =~= seq!["display-referred", "scene-referred"]);
        let alpha_choices: Vec<&'static str> = vec!["premultiplied", "straight"];
        assert(alpha_choices@ =~= seq!["premultiplied", "straight"]);
        let stops_choices: Vec<&'static str> = Vec::new();
        assert(stops_choices@ =~= Seq::empty());
        let params: Vec<ParamSpec> = vec![
            ParamSpec {
                name: "center_px",
                ty: ParamType::Json,
                unit: Some(ParamUnit::Pixels),
                required: true,
                default: None,
                choices: center_px_choices,
                doc: CENTER_PX_PARAM,
            },
            ParamSpec {
                name: "radius_px",
                ty: ParamType::Float,
                unit: Some(ParamUnit::Pixels),
                required: true,
                default: None,
                choices: radius_px_choices,
                doc: RADIUS_PX_PARAM,
            },
            ParamSpec {
                name: "layout",
                ty: ParamType::String,
                unit: None,
                required: false,
                default: Some(Literal::Text("rgba")),
                choices: layout_choices,
                doc: LAYOUT_PARAM,
            },
            ParamSpec {
                name: "color",
                ty: ParamType::String,
                unit: None,
                required: false,
                default: Some(Literal::Text("srgb")),
                choices: color_choices,
                doc: COLOR_PARAM,
            },
            ParamSpec {
                name: "range",
                ty: ParamType::String,
                unit: None,
                required: false,
                default: Some(Literal::Text("display-referred")),
                choices: range_choices,
                doc: RANGE_PARAM,
            },
            ParamSpec {
                name: "alpha",
                ty: ParamType::String,
                unit: None,
                required: false,
                default: Some(Literal::Text("straight")),
                choices: alpha_choices,
                doc: ALPHA_PARAM,
            },
            ParamSpec {
                name: "stops",
                ty: ParamType::Json,
                unit: None,
                required: true,
                default: None,
                choices: stops_choices,
                doc: STOPS_PARAM,
            },
        ];
        let implementations: Vec<ImplId> = vec![reference_impl()];
        let m: OperationManifest = OperationManifest {
            id: RADIAL_GRADIENT_OP_ID,
            impl_version: 1,
            summary: SUMMARY,
            determinism: DeterminismTier::Bounded,
            roi: RoiPolicy { category: RoiCategory::Pointwise, halo_px: None },
            inputs,
            outputs,
            params,
            implementations,
            test: test_metadata(Some(NOT_PERCEPTUAL)),
        };
        assert(m@.inputs =~= declared().inputs);
        assert(m@.outputs =~= declared().outputs);
        assert(m@.params =~= declared().params);
        assert(m@.implementations =~= declared().implementations);
        Ok(m)
    }
}

/// The manifest's ports are those that the operation itself declares.
pub proof fn law_manifest_agrees_with_ports()
    ensures
        agrees(
            declared(),
            seq![("extent_from", ResourceKind::Image)],
            seq![("image", ResourceKind::Image)],
        ),
{
}

/// The manifest is sound, and every verification category is answered for.
pub proof fn law_manifest_is_in_order()
    ensures
        fault(declared()) is None,
        all_answered(declared()),
{
    reveal_with_fuel(params_fault, 8);
    assert(declared().params[2].choices[3]@ == "rgba"@);
    assert(declared().params[3].choices[0]@ == "srgb"@);
    assert(declared().params[4].choices[0]@ == "display-referred"@);
    assert(declared().params[5].choices[1]@ == "straight"@);
    lemma_answered(declared(), Some(NOT_PERCEPTUAL));
}

} // verus!
