//! The domains of operations, each with its registration.
use crate::ir::Error;
use crate::registry::{
    enrolled, law_registration_order_is_free, registered, Held, ImplRegistry, Operation, OperationRegistry,
};
use vstd::prelude::*;

pub mod analyze;
pub mod assert_ops;
pub mod field;
pub mod filter;
pub mod frequency;
pub mod image;
pub mod mask;
pub mod paint;

verus! {

/// The operations of the domains that are registered together, in the order of their registration; the
/// `field` and the `frequency` operations are registered on their own.
pub open spec fn operations() -> Seq<Operation> {
    image::operations() + mask::operations() + paint::operations() + filter::operations()
        + analyze::operations() + assert_ops::operations()
}

/// Registering two lists one after the other is registering them as one.
pub proof fn lemma_enrolled_in_parts(held: Held, first: Seq<Operation>, second: Seq<Operation>)
    ensures
        enrolled(held, first + second) == (if enrolled(held, first).1 is Some {
            enrolled(held, first)
        } else {
            enrolled(enrolled(held, first).0, second)
        }),
    decreases second.len(),
{
    if second.len() == 0 {
        assert(first + second =~= first);
    } else {
        assert((first + second).drop_last() =~= first + second.drop_last());
        lemma_enrolled_in_parts(held, first, second.drop_last());
    }
}

/// Register the operations of these domains, up to the first refusal.
pub fn register_domains(reg: &mut OperationRegistry, impls: &mut ImplRegistry) -> (r: Result<(), Error>)
    ensures
        registered(old(reg)@, old(impls)@, operations(), final(reg)@, final(impls)@, r),
{
    let ghost start = Held { manifests: reg@, operations: impls@ };
    proof {
        lemma_enrolled_in_parts(
            start,
            image::operations(),
            mask::operations(),
        );
        lemma_enrolled_in_parts(
            start,
            image::operations() + mask::operations(),
            paint::operations(),
        );
        lemma_enrolled_in_parts(
            start,
            image::operations() + mask::operations() + paint::operations(),
            filter::operations(),
        );
        lemma_enrolled_in_parts(
            start,
            image::operations() + mask::operations() + paint::operations() + filter::operations(),
            analyze::operations(),
        );
        lemma_enrolled_in_parts(
            start,
            image::operations() + mask::operations() + paint::operations() + filter::operations() + analyze::operations(),
            assert_ops::operations(),
        );
    }
    if let Err(e) = image::register(reg, impls) {
        return Err(e);
    }
    if let Err(e) = mask::register(reg, impls) {
        return Err(e);
    }
    if let Err(e) = paint::register(reg, impls) {
        return Err(e);
    }
    if let Err(e) = filter::register(reg, impls) {
        return Err(e);
    }
    if let Err(e) = analyze::register(reg, impls) {
        return Err(e);
    }
    assert_ops::register(reg, impls)
}

/// No operation is registered by two domains.
pub proof fn law_domains_share_no_operation()
    ensures
        (operations() + field::operations() + frequency::operations()).no_duplicates(),
{
    let ops = operations() + field::operations() + frequency::operations();
    assert(ops =~= seq![
        Operation::Crop,
        Operation::Flip,
        Operation::Inspect,
        Operation::EllipseMask,
        Operation::Fill,
        Operation::LinearGradient,
        Operation::RadialGradient,
        Operation::Convolve,
        Operation::GaussianBlur,
        Operation::Guided,
        Operation::Diff,
        Operation::FrequencyEnergy,
        Operation::FrequencyPreserved,
        Operation::DomainWarp,
        Operation::GaussianPyramid,
        Operation::Fft2,
        Operation::Ifft2,
    ]);
}

/// These domains can be registered: into empty registries every one of their operations goes.
pub proof fn law_all_domains_register()
    ensures
        enrolled(Held { manifests: Map::empty(), operations: Map::empty() }, operations()).1 is None,
{
    law_domains_share_no_operation();
    let all = operations() + field::operations() + frequency::operations();
    assert(operations().no_duplicates()) by {
        assert forall|i: int, j: int|
            0 <= i < operations().len() && 0 <= j < operations().len() && i != j implies operations()[i]
            != operations()[j] by {
            assert(all[i] == operations()[i] && all[j] == operations()[j]);
        }
    }
    law_registration_order_is_free(operations());
}

} // verus!
