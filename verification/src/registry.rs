//! The registries of operations: their manifests, and the operations themselves, by identifier.
use crate::convolve::{Convolve, CONVOLVE_OP_ID};
use crate::crop::{Crop, CROP_OP_ID};
use crate::diff::{Diff, DIFF_OP_ID};
use crate::domain_warp::{DomainWarp, DOMAIN_WARP_OP_ID};
use crate::ellipse::{EllipseMask, ELLIPSE_OP_ID};
use crate::fft::{Fft2, FFT2_OP_ID, Ifft2, IFFT2_OP_ID};
use crate::fill::{Fill, FILL_OP_ID};
use crate::flip::{Flip, FLIP_OP_ID};
use crate::frequency_energy::{FrequencyEnergy, FREQUENCY_ENERGY_OP_ID};
use crate::frequency_preserved::{FrequencyPreserved, FREQUENCY_PRESERVED_OP_ID};
use crate::gaussian_blur::{GaussianBlur, GAUSSIAN_BLUR_OP_ID};
use crate::gaussian_pyramid::{GaussianPyramid, GAUSSIAN_PYRAMID_OP_ID};
use crate::gradient::{LinearGradient, LINEAR_GRADIENT_OP_ID, RadialGradient, RADIAL_GRADIENT_OP_ID};
use crate::guided::{Guided, GUIDED_OP_ID};
use crate::inspect::{Inspect, INSPECT_OP_ID};
use crate::ir::{Error, ErrorClass, ResourceKind};
use crate::manifest::{fault, ManifestView, OperationManifest};
use crate::manifests;
use crate::ports::Ports;
use vstd::prelude::*;

verus! {

/// The operations.
#[derive(Debug, Clone, Copy, PartialEq, Eq, Structural)]
pub enum Operation {
    Convolve,
    Crop,
    Diff,
    DomainWarp,
    EllipseMask,
    Fft2,
    Fill,
    Flip,
    FrequencyEnergy,
    FrequencyPreserved,
    GaussianBlur,
    GaussianPyramid,
    Guided,
    Ifft2,
    Inspect,
    LinearGradient,
    RadialGradient,
}

impl Operation {
    /// The operation's identifier.
    #[verifier::allow_in_spec]
    pub fn id(self) -> &'static str
        returns
            (match self {
                Operation::Convolve => CONVOLVE_OP_ID,
                Operation::Crop => CROP_OP_ID,
                Operation::Diff => DIFF_OP_ID,
                Operation::DomainWarp => DOMAIN_WARP_OP_ID,
                Operation::EllipseMask => ELLIPSE_OP_ID,
                Operation::Fft2 => FFT2_OP_ID,
                Operation::Fill => FILL_OP_ID,
                Operation::Flip => FLIP_OP_ID,
                Operation::FrequencyEnergy => FREQUENCY_ENERGY_OP_ID,
                Operation::FrequencyPreserved => FREQUENCY_PRESERVED_OP_ID,
                Operation::GaussianBlur => GAUSSIAN_BLUR_OP_ID,
                Operation::GaussianPyramid => GAUSSIAN_PYRAMID_OP_ID,
                Operation::Guided => GUIDED_OP_ID,
                Operation::Ifft2 => IFFT2_OP_ID,
                Operation::Inspect => INSPECT_OP_ID,
                Operation::LinearGradient => LINEAR_GRADIENT_OP_ID,
                Operation::RadialGradient => RADIAL_GRADIENT_OP_ID,
            }),
    {
        match self {
            Operation::Convolve => CONVOLVE_OP_ID,
            Operation::Crop => CROP_OP_ID,
            Operation::Diff => DIFF_OP_ID,
            Operation::DomainWarp => DOMAIN_WARP_OP_ID,
            Operation::EllipseMask => ELLIPSE_OP_ID,
            Operation::Fft2 => FFT2_OP_ID,
            Operation::Fill => FILL_OP_ID,
            Operation::Flip => FLIP_OP_ID,
            Operation::FrequencyEnergy => FREQUENCY_ENERGY_OP_ID,
            Operation::FrequencyPreserved => FREQUENCY_PRESERVED_OP_ID,
            Operation::GaussianBlur => GAUSSIAN_BLUR_OP_ID,
            Operation::GaussianPyramid => GAUSSIAN_PYRAMID_OP_ID,
            Operation::Guided => GUIDED_OP_ID,
            Operation::Ifft2 => IFFT2_OP_ID,
            Operation::Inspect => INSPECT_OP_ID,
            Operation::LinearGradient => LINEAR_GRADIENT_OP_ID,
            Operation::RadialGradient => RADIAL_GRADIENT_OP_ID,
        }
    }

    /// What the operation's manifest says.
    pub open spec fn declared(self) -> ManifestView {
        match self {
            Operation::Convolve => manifests::convolve::declared(),
            Operation::Crop => manifests::crop::declared(),
            Operation::Diff => manifests::diff::declared(),
            Operation::DomainWarp => manifests::domain_warp::declared(),
            Operation::EllipseMask => manifests::ellipse_mask::declared(),
            Operation::Fft2 => manifests::fft2::declared(),
            Operation::Fill => manifests::fill::declared(),
            Operation::Flip => manifests::flip::declared(),
            Operation::FrequencyEnergy => manifests::frequency_energy::declared(),
            Operation::FrequencyPreserved => manifests::frequency_preserved::declared(),
            Operation::GaussianBlur => manifests::gaussian_blur::declared(),
            Operation::GaussianPyramid => manifests::gaussian_pyramid::declared(),
            Operation::Guided => manifests::guided::declared(),
            Operation::Ifft2 => manifests::ifft2::declared(),
            Operation::Inspect => manifests::inspect::declared(),
            Operation::LinearGradient => manifests::linear_gradient::declared(),
            Operation::RadialGradient => manifests::radial_gradient::declared(),
        }
    }

    /// The operation's manifest.
    pub fn manifest(self) -> (r: Result<OperationManifest, Error>)
        ensures
            r matches Ok(m) && m@ == self.declared(),
            self.declared().id == self.id(),
    {
        match self {
            Operation::Convolve => Convolve::manifest(),
            Operation::Crop => Crop::manifest(),
            Operation::Diff => Diff::manifest(),
            Operation::DomainWarp => DomainWarp::manifest(),
            Operation::EllipseMask => EllipseMask::manifest(),
            Operation::Fft2 => Fft2::manifest(),
            Operation::Fill => Fill::manifest(),
            Operation::Flip => Flip::manifest(),
            Operation::FrequencyEnergy => FrequencyEnergy::manifest(),
            Operation::FrequencyPreserved => FrequencyPreserved::manifest(),
            Operation::GaussianBlur => GaussianBlur::manifest(),
            Operation::GaussianPyramid => GaussianPyramid::manifest(),
            Operation::Guided => Guided::manifest(),
            Operation::Ifft2 => Ifft2::manifest(),
            Operation::Inspect => Inspect::manifest(),
            Operation::LinearGradient => LinearGradient::manifest(),
            Operation::RadialGradient => RadialGradient::manifest(),
        }
    }

    /// The operation's input ports and their kinds.
    pub fn declared_inputs(self) -> (r: Vec<(&'static str, ResourceKind)>)
        ensures
            r@.len() == self.declared().inputs.len(),
            forall|i: int|
                0 <= i < r@.len() ==> (#[trigger] r@[i]).0 == self.declared().inputs[i].name && r@[i].1
                    == self.declared().inputs[i].kind,
    {
        match self {
            Operation::Convolve => Convolve.declared_inputs(),
            Operation::Crop => Crop.declared_inputs(),
            Operation::Diff => Diff.declared_inputs(),
            Operation::DomainWarp => DomainWarp.declared_inputs(),
            Operation::EllipseMask => EllipseMask.declared_inputs(),
            Operation::Fft2 => Fft2.declared_inputs(),
            Operation::Fill => Fill.declared_inputs(),
            Operation::Flip => Flip.declared_inputs(),
            Operation::FrequencyEnergy => FrequencyEnergy.declared_inputs(),
            Operation::FrequencyPreserved => FrequencyPreserved.declared_inputs(),
            Operation::GaussianBlur => GaussianBlur.declared_inputs(),
            Operation::GaussianPyramid => GaussianPyramid.declared_inputs(),
            Operation::Guided => Guided.declared_inputs(),
            Operation::Ifft2 => Ifft2.declared_inputs(),
            Operation::Inspect => Inspect.declared_inputs(),
            Operation::LinearGradient => LinearGradient.declared_inputs(),
            Operation::RadialGradient => RadialGradient.declared_inputs(),
        }
    }

    /// The operation's output ports and their kinds.
    pub fn declared_outputs(self) -> (r: Vec<(&'static str, ResourceKind)>)
        ensures
            r@.len() == self.declared().outputs.len(),
            forall|i: int|
                0 <= i < r@.len() ==> (#[trigger] r@[i]).0 == self.declared().outputs[i].name
                    && r@[i].1 == self.declared().outputs[i].kind,
    {
        match self {
            Operation::Convolve => Convolve.declared_outputs(),
            Operation::Crop => Crop.declared_outputs(),
            Operation::Diff => Diff.declared_outputs(),
            Operation::DomainWarp => DomainWarp.declared_outputs(),
            Operation::EllipseMask => EllipseMask.declared_outputs(),
            Operation::Fft2 => Fft2.declared_outputs(),
            Operation::Fill => Fill.declared_outputs(),
            Operation::Flip => Flip.declared_outputs(),
            Operation::FrequencyEnergy => FrequencyEnergy.declared_outputs(),
            Operation::FrequencyPreserved => FrequencyPreserved.declared_outputs(),
            Operation::GaussianBlur => GaussianBlur.declared_outputs(),
            Operation::GaussianPyramid => GaussianPyramid.declared_outputs(),
            Operation::Guided => Guided.declared_outputs(),
            Operation::Ifft2 => Ifft2.declared_outputs(),
            Operation::Inspect => Inspect.declared_outputs(),
            Operation::LinearGradient => LinearGradient.declared_outputs(),
            Operation::RadialGradient => RadialGradient.declared_outputs(),
        }
    }
}

/// An identifier is registered already.
pub const E_DUPLICATE_ID: &'static str = "E_DUPLICATE_ID";

/// The refusal of a second registration.
#[verifier::allow_in_spec]
pub fn duplicate_id() -> Error
    returns
        (Error::new(ErrorClass::Schema, E_DUPLICATE_ID, "the operation is registered already")),
{
    Error::new(ErrorClass::Schema, E_DUPLICATE_ID, "the operation is registered already")
}

/// The manifests by identifier.
#[derive(Debug)]
pub struct OperationRegistry {
    manifests: Ports<OperationManifest>,
}

impl View for OperationRegistry {
    type V = Map<Seq<char>, ManifestView>;

    closed spec fn view(&self) -> Map<Seq<char>, ManifestView> {
        self.manifests@.map_values(|m: OperationManifest| m@)
    }
}

/// What registering a manifest leaves, or why it is refused.
pub open spec fn with_manifest(held: Map<Seq<char>, ManifestView>, m: ManifestView) -> Result<
    Map<Seq<char>, ManifestView>,
    Error,
> {
    match fault(m) {
        Some(e) => Err(e),
        None => if held.dom().contains(m.id@) {
            Err(duplicate_id())
        } else {
            Ok(held.insert(m.id@, m))
        },
    }
}

impl OperationRegistry {
    /// A registry without manifests.
    pub fn new() -> (r: Self)
        ensures
            r@ == Map::<Seq<char>, ManifestView>::empty(),
    {
        let r: OperationRegistry = OperationRegistry { manifests: Ports::new() };
        r
    }

    /// Add a manifest; refused if it is unsound or its identifier is taken.
    pub fn register(&mut self, manifest: OperationManifest) -> (r: Result<(), Error>)
        ensures
            match (r, with_manifest(old(self)@, manifest@)) {
                (Ok(_), Ok(held)) => final(self)@ == held,
                (Err(e), Err(f)) => e == f && final(self)@ == old(self)@,
                _ => false,
            },
    {
        match manifest.validate() {
            Err(e) => {
                return Err(e);
            },
            Ok(_) => {},
        }
        if self.manifests.get(manifest.id).is_some() {
            return Err(duplicate_id());
        }
        self.manifests.insert(manifest.id.to_owned(), manifest);
        Ok(())
    }

    /// The manifest of an identifier.
    pub fn get(&self, id: &str) -> (r: Option<&OperationManifest>)
        ensures
            match r {
                Some(m) => self@.dom().contains(id@) && m@ == self@[id@],
                None => !self@.dom().contains(id@),
            },
    {
        self.manifests.get(id)
    }
}

/// The operations by identifier.
#[derive(Debug)]
pub struct ImplRegistry {
    operations: Ports<Operation>,
}

impl View for ImplRegistry {
    type V = Map<Seq<char>, Operation>;

    closed spec fn view(&self) -> Map<Seq<char>, Operation> {
        self.operations@
    }
}

/// What registering an operation leaves, or why it is refused.
pub open spec fn with_operation(held: Map<Seq<char>, Operation>, id: Seq<char>, op: Operation) -> Result<
    Map<Seq<char>, Operation>,
    Error,
> {
    if held.dom().contains(id) {
        Err(duplicate_id())
    } else {
        Ok(held.insert(id, op))
    }
}

impl ImplRegistry {
    /// A registry without operations.
    pub fn new() -> (r: Self)
        ensures
            r@ == Map::<Seq<char>, Operation>::empty(),
    {
        ImplRegistry { operations: Ports::new() }
    }

    /// Add an operation; refused if its identifier is taken.
    pub fn register(&mut self, id: &str, op: Operation) -> (r: Result<(), Error>)
        ensures
            match (r, with_operation(old(self)@, id@, op)) {
                (Ok(_), Ok(held)) => final(self)@ == held,
                (Err(e), Err(f)) => e == f && final(self)@ == old(self)@,
                _ => false,
            },
    {
        if self.operations.get(id).is_some() {
            return Err(duplicate_id());
        }
        self.operations.insert(id.to_owned(), op);
        Ok(())
    }

    /// The operation of an identifier.
    pub fn get(&self, id: &str) -> (r: Option<Operation>)
        ensures
            r == (if self@.dom().contains(id@) {
                Some(self@[id@])
            } else {
                None
            }),
    {
        match self.operations.get(id) {
            Some(op) => Some(*op),
            None => None,
        }
    }
}

/// What both registries hold.
pub ghost struct Held {
    pub manifests: Map<Seq<char>, ManifestView>,
    pub operations: Map<Seq<char>, Operation>,
}

/// What both registries hold after one more operation, and the refusal, if there is one.
pub open spec fn enrolled_one(held: Held, op: Operation) -> (Held, Option<Error>) {
    match with_manifest(held.manifests, op.declared()) {
        Err(e) => (held, Some(e)),
        Ok(manifests) => match with_operation(held.operations, op.id()@, op) {
            Err(e) => (Held { manifests, ..held }, Some(e)),
            Ok(operations) => (Held { manifests, operations }, None),
        },
    }
}

/// What both registries hold after a list of operations, taken in order up to the first refusal.
pub open spec fn enrolled(held: Held, ops: Seq<Operation>) -> (Held, Option<Error>)
    decreases ops.len(),
{
    if ops.len() == 0 {
        (held, None)
    } else {
        let before = enrolled(held, ops.drop_last());
        if before.1 is Some {
            before
        } else {
            enrolled_one(before.0, ops.last())
        }
    }
}

/// Registering a list of operations leaves the registries as told, and returns the first refusal.
pub open spec fn registered(
    manifests: Map<Seq<char>, ManifestView>,
    operations: Map<Seq<char>, Operation>,
    ops: Seq<Operation>,
    manifests_after: Map<Seq<char>, ManifestView>,
    operations_after: Map<Seq<char>, Operation>,
    r: Result<(), Error>,
) -> bool {
    let result = enrolled(Held { manifests, operations }, ops);
    &&& manifests_after == result.0.manifests
    &&& operations_after == result.0.operations
    &&& r == (match result.1 {
        None => Ok(()),
        Some(e) => Err(e),
    })
}

/// A refusal stays when more operations follow.
proof fn lemma_refusal_stays(held: Held, ops: Seq<Operation>, n: int)
    requires
        0 <= n <= ops.len(),
        enrolled(held, ops.take(n)).1 is Some,
    ensures
        enrolled(held, ops) == enrolled(held, ops.take(n)),
    decreases ops.len(),
{
    if n < ops.len() {
        assert(ops.drop_last().take(n) =~= ops.take(n));
        lemma_refusal_stays(held, ops.drop_last(), n);
    } else {
        assert(ops.take(n) =~= ops);
    }
}

/// Register operations in order, up to the first refusal.
pub fn register_all(reg: &mut OperationRegistry, impls: &mut ImplRegistry, ops: &Vec<Operation>) -> (r: Result<
    (),
    Error,
>)
    ensures
        registered(old(reg)@, old(impls)@, ops@, final(reg)@, final(impls)@, r),
{
    let ghost start = Held { manifests: reg@, operations: impls@ };
    let mut i: usize = 0;
    assert(ops@.take(0) =~= Seq::empty());
    while i < ops.len()
        invariant
            start == (Held { manifests: old(reg)@, operations: old(impls)@ }),
            i <= ops@.len(),
            enrolled(start, ops@.take(i as int)) == (
                Held { manifests: reg@, operations: impls@ },
                None::<Error>,
            ),
        decreases ops@.len() - i,
    {
        let op: Operation = ops[i];
        assert(ops@.take(i + 1).drop_last() =~= ops@.take(i as int));
        let manifest: OperationManifest = match op.manifest() {
            Err(e) => {
                return Err(e);
            },
            Ok(m) => m,
        };
        if let Err(e) = reg.register(manifest) {
            proof {
                lemma_refusal_stays(start, ops@, i + 1);
            }
            return Err(e);
        }
        if let Err(e) = impls.register(op.id(), op) {
            proof {
                lemma_refusal_stays(start, ops@, i + 1);
            }
            return Err(e);
        }
        i = i + 1;
    }
    assert(ops@.take(i as int) =~= ops@);
    Ok(())
}

/// Every operation's manifest is sound and carries its identifier.
pub proof fn law_manifests_are_sound(op: Operation)
    ensures
        fault(op.declared()) is None,
        op.declared().id == op.id(),
{
    match op {
        Operation::Convolve => manifests::convolve::law_manifest_is_in_order(),
        Operation::Crop => manifests::crop::law_manifest_is_in_order(),
        Operation::Diff => manifests::diff::law_manifest_is_in_order(),
        Operation::DomainWarp => manifests::domain_warp::law_manifest_is_in_order(),
        Operation::EllipseMask => manifests::ellipse_mask::law_manifest_is_in_order(),
        Operation::Fft2 => manifests::fft2::law_manifest_is_in_order(),
        Operation::Fill => manifests::fill::law_manifest_is_in_order(),
        Operation::Flip => manifests::flip::law_manifest_is_in_order(),
        Operation::FrequencyEnergy => manifests::frequency_energy::law_manifest_is_in_order(),
        Operation::FrequencyPreserved => manifests::frequency_preserved::law_manifest_is_in_order(),
        Operation::GaussianBlur => manifests::gaussian_blur::law_manifest_is_in_order(),
        Operation::GaussianPyramid => manifests::gaussian_pyramid::law_manifest_is_in_order(),
        Operation::Guided => manifests::guided::law_manifest_is_in_order(),
        Operation::Ifft2 => manifests::ifft2::law_manifest_is_in_order(),
        Operation::Inspect => manifests::inspect::law_manifest_is_in_order(),
        Operation::LinearGradient => manifests::linear_gradient::law_manifest_is_in_order(),
        Operation::RadialGradient => manifests::radial_gradient::law_manifest_is_in_order(),
    }
}

/// No two operations share an identifier.
pub proof fn law_identifiers_are_distinct(a: Operation, b: Operation)
    requires
        a.id()@ == b.id()@,
    ensures
        a == b,
{
    reveal_strlit("filter.convolve@1");
    reveal_strlit("image.crop@1");
    reveal_strlit("analyze.diff@1");
    reveal_strlit("field.domain_warp@1");
    reveal_strlit("mask.ellipse@1");
    reveal_strlit("frequency.fft2@1");
    reveal_strlit("paint.fill@1");
    reveal_strlit("image.flip@1");
    reveal_strlit("analyze.frequency_energy@1");
    reveal_strlit("assert.frequency_preserved@1");
    reveal_strlit("filter.gaussian_blur@1");
    reveal_strlit("frequency.gaussian_pyramid@1");
    reveal_strlit("filter.guided@1");
    reveal_strlit("frequency.ifft2@1");
    reveal_strlit("image.inspect@1");
    reveal_strlit("paint.linear_gradient@1");
    reveal_strlit("paint.radial_gradient@1");
    assert(CONVOLVE_OP_ID@.len() == 17);
    assert(CROP_OP_ID@.len() == 12);
    assert(DIFF_OP_ID@.len() == 14);
    assert(DOMAIN_WARP_OP_ID@.len() == 19);
    assert(ELLIPSE_OP_ID@.len() == 14);
    assert(FFT2_OP_ID@.len() == 16);
    assert(FILL_OP_ID@.len() == 12);
    assert(FLIP_OP_ID@.len() == 12);
    assert(FREQUENCY_ENERGY_OP_ID@.len() == 26);
    assert(FREQUENCY_PRESERVED_OP_ID@.len() == 28);
    assert(GAUSSIAN_BLUR_OP_ID@.len() == 22);
    assert(GAUSSIAN_PYRAMID_OP_ID@.len() == 28);
    assert(GUIDED_OP_ID@.len() == 15);
    assert(IFFT2_OP_ID@.len() == 17);
    assert(INSPECT_OP_ID@.len() == 15);
    assert(LINEAR_GRADIENT_OP_ID@.len() == 23);
    assert(RADIAL_GRADIENT_OP_ID@.len() == 23);
    assert(CONVOLVE_OP_ID@[1] != IFFT2_OP_ID@[1]);
    assert(CROP_OP_ID@[0] != FILL_OP_ID@[0]);
    assert(CROP_OP_ID@[6] != FLIP_OP_ID@[6]);
    assert(DIFF_OP_ID@[0] != ELLIPSE_OP_ID@[0]);
    assert(FILL_OP_ID@[0] != FLIP_OP_ID@[0]);
    assert(FREQUENCY_PRESERVED_OP_ID@[0] != GAUSSIAN_PYRAMID_OP_ID@[0]);
    assert(GUIDED_OP_ID@[0] != INSPECT_OP_ID@[0]);
    assert(LINEAR_GRADIENT_OP_ID@[6] != RADIAL_GRADIENT_OP_ID@[6]);
}

/// Different operations can be registered in any order: into empty registries they all go, and the
/// registries then hold them and nothing else.
pub proof fn law_registration_order_is_free(ops: Seq<Operation>)
    requires
        ops.no_duplicates(),
    ensures
        ({
            let result = enrolled(Held { manifests: Map::empty(), operations: Map::empty() }, ops);
            &&& result.1 is None
            &&& forall|op: Operation|
                #[trigger] ops.contains(op) ==> result.0.operations.dom().contains(op.id()@)
                    && result.0.operations[op.id()@] == op && result.0.manifests.dom().contains(
                    op.id()@,
                ) && result.0.manifests[op.id()@] == op.declared()
            &&& forall|id: Seq<char>|
                #[trigger] result.0.operations.dom().contains(id) ==> exists|op: Operation|
                    #[trigger] ops.contains(op) && op.id()@ == id
            &&& result.0.manifests.dom() =~= result.0.operations.dom()
        }),
    decreases ops.len(),
{
    if ops.len() > 0 {
        let prior = ops.drop_last();
        let last = ops.last();
        law_registration_order_is_free(prior);
        law_manifests_are_sound(last);
        let before = enrolled(Held { manifests: Map::empty(), operations: Map::empty() }, prior);
        if before.0.operations.dom().contains(last.id()@) {
            let op = choose|op: Operation| #[trigger] prior.contains(op) && op.id()@ == last.id()@;
            law_identifiers_are_distinct(op, last);
            let k = choose|k: int| 0 <= k < prior.len() && prior[k] == op;
            assert(ops[k] == ops[ops.len() - 1]);
        }
        let result = enrolled(Held { manifests: Map::empty(), operations: Map::empty() }, ops);
        assert forall|op: Operation| #[trigger] ops.contains(op) implies result.0.operations.dom().contains(
            op.id()@,
        ) && result.0.operations[op.id()@] == op && result.0.manifests.dom().contains(op.id()@)
            && result.0.manifests[op.id()@] == op.declared() by {
            let k = choose|k: int| 0 <= k < ops.len() && ops[k] == op;
            if k < prior.len() {
                assert(prior[k] == op);
                assert(prior.contains(op));
                if op.id()@ == last.id()@ {
                    law_identifiers_are_distinct(op, last);
                    assert(ops[k] == ops[ops.len() - 1]);
                }
            }
        }
        assert forall|id: Seq<char>| #[trigger] result.0.operations.dom().contains(id) implies exists|
            op: Operation,
        | #[trigger] ops.contains(op) && op.id()@ == id by {
            if id == last.id()@ {
                assert(ops[ops.len() - 1] == last);
                assert(ops.contains(last));
            } else {
                let op = choose|op: Operation| #[trigger] prior.contains(op) && op.id()@ == id;
                let k = choose|k: int| 0 <= k < prior.len() && prior[k] == op;
                assert(ops[k] == op);
                assert(ops.contains(op));
            }
        }
    }
}

} // verus!
