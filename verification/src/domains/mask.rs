//! Registration of the `mask` operations.
use crate::ir::Error;
use crate::registry::{register_all, registered, ImplRegistry, Operation, OperationRegistry};
use vstd::prelude::*;

verus! {

/// The `mask` operations, in the order of their registration.
pub open spec fn operations() -> Seq<Operation> {
    seq![Operation::EllipseMask]
}

/// Register the `mask` operations, up to the first refusal.
pub fn register(reg: &mut OperationRegistry, impls: &mut ImplRegistry) -> (r: Result<(), Error>)
    ensures
        registered(old(reg)@, old(impls)@, operations(), final(reg)@, final(impls)@, r),
{
    let ops: Vec<Operation> = vec![Operation::EllipseMask];
    assert(ops@ =~= operations());
    register_all(reg, impls, &ops)
}

} // verus!
