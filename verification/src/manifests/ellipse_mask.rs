//! What the operation of [`EllipseMask`] declares of itself.
use crate::binary::ZERO;
use crate::ellipse::{EllipseMask, ELLIPSE_OP_ID};
use crate::ir::{Error, ResourceKind};
use crate::manifest::{
    agrees, all_answered, fault, lemma_answered, params_fault, reference_impl,
    test_metadata, tests_of, DeterminismTier, ImplId, InputSpec, Literal, ManifestView,
    OperationManifest, OutputSpec, ParamSpec, ParamType, ParamUnit, ParamView, RoiCategory,
    RoiPolicy,
};
use vstd::prelude::*;

verus! {

/// What the operation does.
pub const SUMMARY: &'static str = "Rasterize a rotated ellipse into a coverage Mask with an \
    analytic soft-edge feather (smoothstep, half_width_px) evaluated from the implicit \
    quadratic.";

/// What the `extent_from` input is.
pub const EXTENT_FROM_INPUT: &'static str = "The resource whose pixel extent the produced mask \
    matches.";

/// What the `mask` output is.
pub const MASK_OUTPUT: &'static str = "The ellipse coverage mask in [0, 1].";

/// What the `center_px` parameter is.
pub const CENTER_PX_PARAM: &'static str = "The ellipse center [x, y] in pixel coordinates.";

/// What the `radii_px` parameter is.
pub const RADII_PX_PARAM: &'static str = "The semi-axis radii [rx, ry] in pixels; both strictly \
    positive.";

/// What the `angle_rad` parameter is.
pub const ANGLE_RAD_PARAM: &'static str = "Counter-clockwise rotation of the ellipse, in \
    radians.";

/// What the `antialias` parameter is.
pub const ANTIALIAS_PARAM: &'static str = "The antialias mode; only analytic coverage is \
    supported.";

/// What the `edge` parameter is.
pub const EDGE_PARAM: &'static str = "Optional soft edge { profile: smoothstep, half_width_px: N \
    } feathering the boundary by N physical pixels; absent is a hard edge.";

/// Why no perceptual measure applies.
pub const NOT_PERCEPTUAL: &'static str = "mask.ellipse produces analytic geometric coverage \
    verified by analytic area convergence, rotation/translation covariance, and a measured \
    feather width; there is no perceptual-quality metric to apply";

/// What the manifest says.
pub open spec fn declared() -> ManifestView {
    ManifestView {
        id: ELLIPSE_OP_ID,
        impl_version: 1,
        summary: SUMMARY,
        determinism: DeterminismTier::Bounded,
        roi: RoiPolicy { category: RoiCategory::Pointwise, halo_px: None },
        inputs: seq![
            InputSpec {
                name: "extent_from",
                kind: ResourceKind::Image,
                required: true,
                doc: EXTENT_FROM_INPUT,
            },
        ],
        outputs: seq![
            OutputSpec {
                name: "mask",
                kind: ResourceKind::Mask,
                doc: MASK_OUTPUT,
            },
        ],
        params: seq![
            ParamView {
                name: "center_px",
                ty: ParamType::Json,
                unit: Some(ParamUnit::Pixels),
                required: true,
                default: None,
                choices: Seq::empty(),
                doc: CENTER_PX_PARAM,
            },
            ParamView {
                name: "radii_px",
                ty: ParamType::Json,
                unit: Some(ParamUnit::Pixels),
                required: true,
                default: None,
                choices: Seq::empty(),
                doc: RADII_PX_PARAM,
            },
            ParamView {
                name: "angle_rad",
                ty: ParamType::Float,
                unit: Some(ParamUnit::Radians),
                required: false,
                default: Some(Literal::Number(ZERO)),
                choices: Seq::empty(),
                doc: ANGLE_RAD_PARAM,
            },
            ParamView {
                name: "antialias",
                ty: ParamType::String,
                unit: None,
                required: false,
                default: Some(Literal::Text("analytic")),
                choices: seq!["analytic"],
                doc: ANTIALIAS_PARAM,
            },
            ParamView {
                name: "edge",
                ty: ParamType::Json,
                unit: None,
                required: false,
                default: None,
                choices: Seq::empty(),
                doc: EDGE_PARAM,
            },
        ],
        implementations: seq![reference_impl()],
        test: tests_of(Some(NOT_PERCEPTUAL)),
    }
}

impl EllipseMask {
    /// The operation's manifest.
    pub fn manifest() -> (r: Result<OperationManifest, Error>)
        ensures
            r matches Ok(m) && m@ == declared(),
    {
        let inputs: Vec<InputSpec> = vec![
            InputSpec {
                name: "extent_from",
                kind: ResourceKind::Image,
                required: true,
                doc: EXTENT_FROM_INPUT,
            },
        ];
        let outputs: Vec<OutputSpec> = vec![
            OutputSpec {
                name: "mask",
                kind: ResourceKind::Mask,
                doc: MASK_OUTPUT,
            },
        ];
        let center_px_choices: Vec<&'static str> = Vec::new();
        assert(center_px_choices@ =~= Seq::empty());
        let radii_px_choices: Vec<&'static str> = Vec::new();
        assert(radii_px_choices@ =~= Seq::empty());
        let angle_rad_choices: Vec<&'static str> = Vec::new();
        assert(angle_rad_choices@ =~= Seq::empty());
        let antialias_choices: Vec<&'static str> = vec!["analytic"];
        assert(antialias_choices@ =~= seq!["analytic"]);
        let edge_choices: Vec<&'static str> = Vec::new();
        assert(edge_choices@ =~= Seq::empty());
        let params: Vec<ParamSpec> = vec![
            ParamSpec {
                name: "center_px",
                ty: ParamType::Json,
                unit: Some(ParamUnit::Pixels),
                required: true,
                default: None,
                choices: center_px_choices,
                doc: CENTER_PX_PARAM,
            },
            ParamSpec {
                name: "radii_px",
                ty: ParamType::Json,
                unit: Some(ParamUnit::Pixels),
                required: true,
                default: None,
                choices: radii_px_choices,
                doc: RADII_PX_PARAM,
            },
            ParamSpec {
                name: "angle_rad",
                ty: ParamType::Float,
                unit: Some(ParamUnit::Radians),
                required: false,
                default: Some(Literal::Number(ZERO)),
                choices: angle_rad_choices,
                doc: ANGLE_RAD_PARAM,
            },
            ParamSpec {
                name: "antialias",
                ty: ParamType::String,
                unit: None,
                required: false,
                default: Some(Literal::Text("analytic")),
                choices: antialias_choices,
                doc: ANTIALIAS_PARAM,
            },
            ParamSpec {
                name: "edge",
                ty: ParamType::Json,
                unit: None,
                required: false,
                default: None,
                choices: edge_choices,
                doc: EDGE_PARAM,
            },
        ];
        let implementations: Vec<ImplId> = vec![reference_impl()];
        let m: OperationManifest = OperationManifest {
            id: ELLIPSE_OP_ID,
            impl_version: 1,
            summary: SUMMARY,
            determinism: DeterminismTier::Bounded,
            roi: RoiPolicy { category: RoiCategory::Pointwise, halo_px: None },
            inputs,
            outputs,
            params,
            implementations,
            test: test_metadata(Some(NOT_PERCEPTUAL)),
        };
        assert(m@.inputs =~= declared().inputs);
        assert(m@.outputs =~= declared().outputs);
        assert(m@.params =~= declared().params);
        assert(m@.implementations =~= declared().implementations);
        Ok(m)
    }
}

/// The manifest's ports are those that the operation itself declares.
pub proof fn law_manifest_agrees_with_ports()
    ensures
        agrees(
            declared(),
            seq![("extent_from", ResourceKind::Image)],
            seq![("mask", ResourceKind::Mask)],
        ),
{
}

/// The manifest is sound, and every verification category is answered for.
pub proof fn law_manifest_is_in_order()
    ensures
        fault(declared()) is None,
        all_answered(declared()),
{
    reveal_with_fuel(params_fault, 6);
    assert(declared().params[3].choices[0]@ == "analytic"@);
    lemma_answered(declared(), Some(NOT_PERCEPTUAL));
}

} // verus!
