//! Registration of the `image` operations.
use crate::ir::Error;
use crate::registry::{register_all, registered, ImplRegistry, Operation, OperationRegistry};
use vstd::prelude::*;

verus! {

/// The `image` operations, in the order of their registration.
pub open spec fn operations() -> Seq<Operation> {
    seq![Operation::Crop, Operation::Flip, Operation::Inspect]
}

/// Register the `image` operations, up to the first refusal.
pub fn register(reg: &mut OperationRegistry, impls: &mut ImplRegistry) -> (r: Result<(), Error>)
    ensures
        registered(old(reg)@, old(impls)@, operations(), final(reg)@, final(impls)@, r),
{
    let ops: Vec<Operation> = vec![Operation::Crop, Operation::Flip, Operation::Inspect];
    assert(ops@ =~= operations());
    register_all(reg, impls, &ops)
}

} // verus!
