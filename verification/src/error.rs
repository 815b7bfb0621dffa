//! Failures reported by the network's constructors.

use vstd::prelude::*;

verus! {

/// Why a network could not be built.
#[derive(Clone, Copy, Debug, PartialEq, Eq)]
pub enum NetworkError {
    /// The model's header has no terminating sentinel word, or holds a size
    /// that this machine cannot address.
    MalformedHeader,
    /// The model's body is not as long as its header says.
    SizeMismatch,
    /// The supplied random draws do not cover the requested shape.
    ConstructionFailure,
}

} // verus!
