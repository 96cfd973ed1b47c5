//! The ways an operation on a network can be refused.

use vstd::prelude::*;

verus! {

/// Why an operation on a network was refused.
#[derive(Clone, Copy, Debug, PartialEq, Eq)]
pub enum ModelError {
    /// The network has fewer than two layers.
    InvalidModel,
    /// A vector does not have the length the network calls for: an input
    /// that is not as long as the first layer is wide, an expected output
    /// that is not as long as the last layer is wide, or divergence vectors
    /// of different lengths in one batch.
    ShapeMismatch,
    /// A batch size of zero, an epoch count of zero, or an empty training
    /// set.
    InvalidArgument,
}

} // verus!
