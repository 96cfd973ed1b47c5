//! The forward pass: what each layer puts out for a given input.

use crate::neuron::{is_activation, NeuronModel};
use crate::scalar::Scalar;
use vstd::prelude::*;

verus! {

/// `out` holds, for each neuron of `layer` in order, its activation on
/// `inputs`.
pub open spec fn is_layer_output<S: Scalar>(
    layer: Seq<NeuronModel<S>>,
    inputs: Seq<S>,
    out: Seq<S>,
) -> bool {
    &&& out.len() == layer.len()
    &&& forall|j: int| 0 <= j < layer.len() ==> is_activation(layer[j], inputs, #[trigger] out[j])
}

/// `activations[i]` is what layer `i` puts out when the network is given
/// `input`: the input itself for layer 0, and for every later layer the
/// activations of its neurons on the output of the layer before.
pub open spec fn is_forward_pass<S: Scalar>(
    network: Seq<Seq<NeuronModel<S>>>,
    input: Seq<S>,
    activations: Seq<Seq<S>>,
) -> bool {
    &&& activations.len() == network.len()
    &&& network.len() > 0 ==> activations[0] == input
    &&& forall|i: int|
        1 <= i < network.len() ==> is_layer_output(
            network[i],
            activations[i - 1],
            #[trigger] activations[i],
        )
}

/// `out` is what the last layer puts out when the network is given `input`.
pub open spec fn is_prediction<S: Scalar>(
    network: Seq<Seq<NeuronModel<S>>>,
    input: Seq<S>,
    out: Seq<S>,
) -> bool {
    exists|activations: Seq<Seq<S>>| #[trigger]
        is_forward_pass(network, input, activations) && activations.last() == out
}

/// The forward pass puts out, at every layer, one value per neuron; so a
/// prediction is as long as the last layer is wide.
pub proof fn lemma_forward_pass_widths<S: Scalar>(
    network: Seq<Seq<NeuronModel<S>>>,
    input: Seq<S>,
    activations: Seq<Seq<S>>,
)
    requires
        is_forward_pass(network, input, activations),
    ensures
        forall|i: int| 1 <= i < network.len() ==> (#[trigger] activations[i]).len() == network[i].len(),
        network.len() > 0 ==> activations[0].len() == input.len(),
        network.len() >= 2 ==> activations.last().len() == network.last().len(),
{
    assert forall|i: int| 1 <= i < network.len() implies (#[trigger] activations[i]).len()
        == network[i].len() by {
        assert(is_layer_output(network[i], activations[i - 1], activations[i]));
    }
}

} // verus!
