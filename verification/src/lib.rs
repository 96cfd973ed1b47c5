//! A small feedforward neural network: layers of neurons, a forward pass,
//! and a batched weight adjustment that pushes averaged divergences back
//! through the layers.
//!
//! The network is generic in the numbers it computes with (see
//! [`scalar::Scalar`]), and every contract says which arithmetic operations
//! produced a result, from which operands and in which order.

use vstd::prelude::*;

pub mod error;
pub mod fitting;
pub mod forward;
pub mod model;
pub mod neuron;
pub mod repeatable;
pub mod scalar;
pub mod training;

verus! {

/// The outputs of one layer, or the input to the network.
pub type ActivationData<S> = Vec<S>;

/// One labelled example: an input and the output expected for it.
pub struct TrainingData<S> {
    data: ActivationData<S>,
    expected: ActivationData<S>,
}

/// A labelled example as a mathematical value.
pub ghost struct ExampleModel<S> {
    /// The input.
    pub data: Seq<S>,
    /// The output expected for it.
    pub expected: Seq<S>,
}

impl<S> View for TrainingData<S> {
    type V = ExampleModel<S>;

    closed spec fn view(&self) -> ExampleModel<S> {
        ExampleModel { data: self.data@, expected: self.expected@ }
    }
}

impl<S> TrainingData<S> {
    /// Pairs an input with the output expected for it.
    pub fn new(data: ActivationData<S>, expected: ActivationData<S>) -> (example: Self)
        ensures
            example@ == (ExampleModel { data: data@, expected: expected@ }),
    {
        Self { data, expected }
    }

    /// The input.
    pub fn data(&self) -> (data: &ActivationData<S>)
        ensures
            data@ == self@.data,
    {
        &self.data
    }

    /// The output expected for the input.
    pub fn expected(&self) -> (expected: &ActivationData<S>)
        ensures
            expected@ == self@.expected,
    {
        &self.expected
    }
}

} // verus!
