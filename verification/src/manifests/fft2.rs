//! What the operation of [`Fft2`] declares of itself.
use crate::fft::{Fft2, FFT2_OP_ID};
use crate::ir::{Error, ResourceKind};
use crate::manifest::{
    agrees, all_answered, fault, lemma_answered, reference_impl, test_metadata, tests_of,
    DeterminismTier, ImplId, InputSpec, ManifestView, OperationManifest, OutputSpec,
    ParamSpec, RoiCategory, RoiPolicy,
};
use vstd::prelude::*;

verus! {

/// What the operation does.
pub const SUMMARY: &'static str = "Forward 2-D DFT of a real Image/Field1 plane into a typed \
    complex Spectrum (non-normalized forward transform, DC at the array origin, channels \
    transformed independently).";

/// What the `input` input is.
pub const INPUT_INPUT: &'static str = "The real Image or Field1 spatial plane to transform.";

/// What the `spectrum` output is.
pub const SPECTRUM_OUTPUT: &'static str = "The complex frequency spectrum (interleaved \
    real/imaginary per bin).";

/// Why no perceptual measure applies.
pub const NOT_PERCEPTUAL: &'static str = "the forward DFT is verified by the fft2->ifft2 \
    reconstruction round trip, the constant-plane pure-DC fixture, and the known-sinusoid \
    spectral-peak fixture, not a perceptual metric";

/// What the manifest says.
pub open spec fn declared() -> ManifestView {
    ManifestView {
        id: FFT2_OP_ID,
        impl_version: 1,
        summary: SUMMARY,
        determinism: DeterminismTier::Bounded,
        roi: RoiPolicy { category: RoiCategory::FullDomain, halo_px: None },
        inputs: seq![
            InputSpec {
                name: "input",
                kind: ResourceKind::Image,
                required: true,
                doc: INPUT_INPUT,
            },
        ],
        outputs: seq![
            OutputSpec {
                name: "spectrum",
                kind: ResourceKind::Spectrum,
                doc: SPECTRUM_OUTPUT,
            },
        ],
        params: Seq::empty(),
        implementations: seq![reference_impl()],
        test: tests_of(Some(NOT_PERCEPTUAL)),
    }
}

impl Fft2 {
    /// The operation's manifest.
    pub fn manifest() -> (r: Result<OperationManifest, Error>)
        ensures
            r matches Ok(m) && m@ == declared(),
    {
        let inputs: Vec<InputSpec> = vec![
            InputSpec {
                name: "input",
                kind: ResourceKind::Image,
                required: true,
                doc: INPUT_INPUT,
            },
        ];
        let outputs: Vec<OutputSpec> = vec![
            OutputSpec {
                name: "spectrum",
                kind: ResourceKind::Spectrum,
                doc: SPECTRUM_OUTPUT,
            },
        ];
        let params: Vec<ParamSpec> = Vec::new();
        let implementations: Vec<ImplId> = vec![reference_impl()];
        let m: OperationManifest = OperationManifest {
            id: FFT2_OP_ID,
            impl_version: 1,
            summary: SUMMARY,
            determinism: DeterminismTier::Bounded,
            roi: RoiPolicy { category: RoiCategory::FullDomain, halo_px: None },
            inputs,
            outputs,
            params,
            implementations,
            test: test_metadata(Some(NOT_PERCEPTUAL)),
        };
        assert(m@.inputs =~= declared().inputs);
        assert(m@.outputs =~= declared().outputs);
        assert(m@.params =~= declared().params);
        assert(m@.implementations =~= declared().implementations);
        Ok(m)
    }
}

/// The manifest's ports are those that the operation itself declares.
pub proof fn law_manifest_agrees_with_ports()
    ensures
        agrees(
            declared(),
            seq![("input", ResourceKind::Image)],
            seq![("spectrum", ResourceKind::Spectrum)],
        ),
{
}

/// The manifest is sound, and every verification category is answered for.
pub proof fn law_manifest_is_in_order()
    ensures
        fault(declared()) is None,
        all_answered(declared()),
{
    lemma_answered(declared(), Some(NOT_PERCEPTUAL));
}

} // verus!
