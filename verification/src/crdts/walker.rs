//! Views of a replicated data type and the element count of its ops.

use vstd::prelude::*;

verus! {

/// Which state of a replicated data type a query looks at: the effect state
/// (every op applied) or the prepare state (only the ops advanced into it).
#[derive(Debug, Clone, Copy, PartialEq, Eq, Structural)]
pub enum View {
    Effect,
    Prepare,
}

/// An op that creates a number of elements.
pub trait CountableOp {
    /// The number of elements the op creates.
    fn num_elements(&self) -> u64;
}

} // verus!
