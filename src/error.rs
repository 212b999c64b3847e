//! The ways a kernel operation can fail.
use vstd::prelude::*;

verus! {

/// Why an operation produced no result.
#[derive(Clone, Copy, PartialEq, Eq, Structural, Debug)]
pub enum KernelError {
    /// An input does not have the expected shape.
    Decode,
    /// An input breaks a documented precondition (a length, a step, a
    /// non-canonical field element).
    Precondition,
    /// The substitution evaluator could not find a value it refers to.
    Lookup,
}

} // verus!
