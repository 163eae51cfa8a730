//! What the operation of [`Ifft2`] declares of itself.
use crate::fft::{Ifft2, IFFT2_OP_ID};
use crate::ir::{Error, ResourceKind};
use crate::manifest::{
    agrees, all_answered, fault, lemma_answered, reference_impl, test_metadata, tests_of,
    DeterminismTier, ImplId, InputSpec, ManifestView, OperationManifest, OutputSpec,
    ParamSpec, RoiCategory, RoiPolicy,
};
use vstd::prelude::*;

verus! {

/// What the operation does.
pub const SUMMARY: &'static str = "Inverse 2-D DFT of a complex Spectrum back to a real spatial \
    plane (Field1 for one channel, Image otherwise; full 1/(W*H) normalization, imaginary \
    residual discarded).";

/// What the `spectrum` input is.
pub const SPECTRUM_INPUT: &'static str = "The complex frequency spectrum to invert.";

/// What the `image` output is.
pub const IMAGE_OUTPUT: &'static str = "The reconstructed real spatial plane (Field1 for a \
    single channel).";

/// Why no perceptual measure applies.
pub const NOT_PERCEPTUAL: &'static str = "the inverse DFT is verified as the exact inverse of \
    fft2 (reconstruction round trip within tolerance) and the DC-only-spectrum constant-plane \
    fixture, not a perceptual metric";

/// What the manifest says.
pub open spec fn declared() -> ManifestView {
    ManifestView {
        id: IFFT2_OP_ID,
        impl_version: 1,
        summary: SUMMARY,
        determinism: DeterminismTier::Bounded,
        roi: RoiPolicy { category: RoiCategory::FullDomain, halo_px: None },
        inputs: seq![
            InputSpec {
                name: "spectrum",
                kind: ResourceKind::Spectrum,
                required: true,
                doc: SPECTRUM_INPUT,
            },
        ],
        outputs: seq![
            OutputSpec {
                name: "image",
                kind: ResourceKind::Image,
                doc: IMAGE_OUTPUT,
            },
        ],
        params: Seq::empty(),
        implementations: seq![reference_impl()],
        test: tests_of(Some(NOT_PERCEPTUAL)),
    }
}

impl Ifft2 {
    /// The operation's manifest.
    pub fn manifest() -> (r: Result<OperationManifest, Error>)
        ensures
            r matches Ok(m) && m@ == declared(),
    {
        let inputs: Vec<InputSpec> = vec![
            InputSpec {
                name: "spectrum",
                kind: ResourceKind::Spectrum,
                required: true,
                doc: SPECTRUM_INPUT,
            },
        ];
        let outputs: Vec<OutputSpec> = vec![
            OutputSpec {
                name: "image",
                kind: ResourceKind::Image,
                doc: IMAGE_OUTPUT,
            },
        ];
        let params: Vec<ParamSpec> = Vec::new();
        let implementations: Vec<ImplId> = vec![reference_impl()];
        let m: OperationManifest = OperationManifest {
            id: IFFT2_OP_ID,
            impl_version: 1,
            summary: SUMMARY,
            determinism: DeterminismTier::Bounded,
            roi: RoiPolicy { category: RoiCategory::FullDomain, halo_px: None },
            inputs,
            outputs,
            params,
            implementations,
            test: test_metadata(Some(NOT_PERCEPTUAL)),
        };
        assert(m@.inputs =~= declared().inputs);
        assert(m@.outputs =~= declared().outputs);
        assert(m@.params =~= declared().params);
        assert(m@.implementations =~= declared().implementations);
        Ok(m)
    }
}

/// The manifest's ports are those that the operation itself declares.
pub proof fn law_manifest_agrees_with_ports()
    ensures
        agrees(
            declared(),
            seq![("spectrum", ResourceKind::Spectrum)],
            seq![("image", ResourceKind::Image)],
        ),
{
}

/// The manifest is sound, and every verification category is answered for.
pub proof fn law_manifest_is_in_order()
    ensures
        fault(declared()) is None,
        all_answered(declared()),
{
    lemma_answered(declared(), Some(NOT_PERCEPTUAL));
}

} // verus!
