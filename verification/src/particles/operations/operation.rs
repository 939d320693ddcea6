use vstd::prelude::*;

verus! {

/// Shared context handed to particle operations (it carries nothing yet).
pub struct OperationContext {}

} // verus!
