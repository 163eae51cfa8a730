//! What the operation of [`DomainWarp`] declares of itself.
use crate::domain_warp::{DomainWarp, DOMAIN_WARP_OP_ID};
use crate::ir::{Error, ResourceKind};
use crate::manifest::{
    agrees, all_answered, fault, lemma_answered, params_fault, reference_impl,
    test_metadata, tests_of, DeterminismTier, ImplId, InputSpec, Literal, ManifestView,
    OperationManifest, OutputSpec, ParamSpec, ParamType, ParamView, RoiCategory, RoiPolicy,
};
use vstd::prelude::*;

verus! {

/// What the operation does.
pub const SUMMARY: &'static str = "Warp a source Image/Field by a per-pixel Field2 displacement: \
    output (x, y) reads the source at (x + 0.5 + dx, y + 0.5 + dy) with the M1 bilinear/nearest \
    sampler and an explicit boundary mode. Zero displacement is identity; a constant \
    displacement is a translation.";

/// What the `source` input is.
pub const SOURCE_INPUT: &'static str = "The raster to warp (an Image, Mask, Sdf, or Field). Its \
    descriptor and extent are preserved on the output.";

/// What the `displacement` input is.
pub const DISPLACEMENT_INPUT: &'static str = "The per-pixel (dx, dy) lookup offset in physical \
    pixels; must share the source extent.";

/// What the `warped` output is.
pub const WARPED_OUTPUT: &'static str = "The warped raster, same descriptor/extent as `source`.";

/// What the `filter` parameter is.
pub const FILTER_PARAM: &'static str = "The reconstruction filter (M1 resize vocabulary): \
    nearest or bilinear.";

/// What the `boundary` parameter is.
pub const BOUNDARY_PARAM: &'static str = "Out-of-bounds policy { mode: \
    constant|transparent|clamp|mirror|wrap, value?: N }; absent is clamp.";

/// Why no perceptual measure applies.
pub const NOT_PERCEPTUAL: &'static str = "field.domain_warp is a displacement-field resampler \
    verified by analytic properties (zero-displacement identity, constant-displacement \
    integer/fractional translation equivalence, warp/inverse-warp round-trip within the bilinear \
    tolerance, boundary-mode honoring); there is no perceptual-quality metric to apply";

/// What the manifest says.
pub open spec fn declared() -> ManifestView {
    ManifestView {
        id: DOMAIN_WARP_OP_ID,
        impl_version: 1,
        summary: SUMMARY,
        determinism: DeterminismTier::Bounded,
        roi: RoiPolicy { category: RoiCategory::FullDomain, halo_px: None },
        inputs: seq![
            InputSpec {
                name: "source",
                kind: ResourceKind::Image,
                required: true,
                doc: SOURCE_INPUT,
            },
            InputSpec {
                name: "displacement",
                kind: ResourceKind::Field2,
                required: true,
                doc: DISPLACEMENT_INPUT,
            },
        ],
        outputs: seq![
            OutputSpec {
                name: "warped",
                kind: ResourceKind::Image,
                doc: WARPED_OUTPUT,
            },
        ],
        params: seq![
            ParamView {
                name: "filter",
                ty: ParamType::String,
                unit: None,
                required: false,
                default: Some(Literal::Text("bilinear")),
                choices: seq!["nearest", "bilinear"],
                doc: FILTER_PARAM,
            },
            ParamView {
                name: "boundary",
                ty: ParamType::Json,
                unit: None,
                required: false,
                default: None,
                choices: Seq::empty(),
                doc: BOUNDARY_PARAM,
            },
        ],
        implementations: seq![reference_impl()],
        test: tests_of(Some(NOT_PERCEPTUAL)),
    }
}

impl DomainWarp {
    /// The operation's manifest.
    pub fn manifest() -> (r: Result<OperationManifest, Error>)
        ensures
            r matches Ok(m) && m@ == declared(),
    {
        let inputs: Vec<InputSpec> = vec![
            InputSpec {
                name: "source",
                kind: ResourceKind::Image,
                required: true,
                doc: SOURCE_INPUT,
            },
            InputSpec {
                name: "displacement",
                kind: ResourceKind::Field2,
                required: true,
                doc: DISPLACEMENT_INPUT,
            },
        ];
        let outputs: Vec<OutputSpec> = vec![
            OutputSpec {
                name: "warped",
                kind: ResourceKind::Image,
                doc: WARPED_OUTPUT,
            },
        ];
        let filter_choices: Vec<&'static str> = vec!["nearest", "bilinear"];
        assert(filter_choices@ =~= seq!["nearest", "bilinear"]);
        let boundary_choices: Vec<&'static str> = Vec::new();
        assert(boundary_choices@ =~= Seq::empty());
        let params: Vec<ParamSpec> = vec![
            ParamSpec {
                name: "filter",
                ty: ParamType::String,
                unit: None,
                required: false,
                default: Some(Literal::Text("bilinear")),
                choices: filter_choices,
                doc: FILTER_PARAM,
            },
            ParamSpec {
                name: "boundary",
                ty: ParamType::Json,
                unit: None,
                required: false,
                default: None,
                choices: boundary_choices,
                doc: BOUNDARY_PARAM,
            },
        ];
        let implementations: Vec<ImplId> = vec![reference_impl()];
        let m: OperationManifest = OperationManifest {
            id: DOMAIN_WARP_OP_ID,
            impl_version: 1,
            summary: SUMMARY,
            determinism: DeterminismTier::Bounded,
            roi: RoiPolicy { category: RoiCategory::FullDomain, halo_px: None },
            inputs,
            outputs,
            params,
            implementations,
            test: test_metadata(Some(NOT_PERCEPTUAL)),
        };
        assert(m@.inputs =~= declared().inputs);
        assert(m@.outputs =~= declared().outputs);
        assert(m@.params =~= declared().params);
        assert(m@.implementations =~= declared().implementations);
        Ok(m)
    }
}

/// The manifest's ports are those that the operation itself declares.
pub proof fn law_manifest_agrees_with_ports()
    ensures
        agrees(
            declared(),
            seq![("source", ResourceKind::Image), ("displacement", ResourceKind::Field2)],
            seq![("warped", ResourceKind::Image)],
        ),
{
}

/// The manifest is sound, and every verification category is answered for.
pub proof fn law_manifest_is_in_order()
    ensures
        fault(declared()) is None,
        all_answered(declared()),
{
    reveal_with_fuel(params_fault, 3);
    assert(declared().params[0].choices[1]@ == "bilinear"@);
    lemma_answered(declared(), Some(NOT_PERCEPTUAL));
}

} // verus!
