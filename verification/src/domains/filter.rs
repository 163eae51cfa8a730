//! Registration of the `filter` operations.
use crate::ir::Error;
use crate::registry::{register_all, registered, ImplRegistry, Operation, OperationRegistry};
use vstd::prelude::*;

verus! {

/// The `filter` operations, in the order of their registration.
pub open spec fn operations() -> Seq<Operation> {
    seq![Operation::Convolve, Operation::GaussianBlur, Operation::Guided]
}

/// Register the `filter` operations, up to the first refusal.
pub fn register(reg: &mut OperationRegistry, impls: &mut ImplRegistry) -> (r: Result<(), Error>)
    ensures
        registered(old(reg)@, old(impls)@, operations(), final(reg)@, final(impls)@, r),
{
    let ops: Vec<Operation> = vec![Operation::Convolve, Operation::GaussianBlur, Operation::Guided];
    assert(ops@ =~= operations());
    register_all(reg, impls, &ops)
}

} // verus!
