//! Repeatable arithmetic makes the forward pass a function.
//!
//! The network assumes nothing about its arithmetic, so in general two
//! runs on the same input may differ. Where every operation of the number
//! type can return only one value for given operands, everything built
//! from those operations can too; this module proves it for the forward
//! pass.

use crate::forward::{is_forward_pass, is_layer_output, is_prediction};
use crate::neuron::{is_activation, is_pre_activation, is_weighted, NeuronModel};
use crate::scalar::{
    is_count, is_difference, is_exp, is_int, is_negation, is_product, is_quotient,
    is_running_sum, is_sigmoid, is_sum, is_total, Scalar,
};
use vstd::prelude::*;

verus! {

/// Every operation of `S` can return only one value for given operands.
pub open spec fn is_repeatable<S: Scalar>() -> bool {
    &&& forall|value: i32, a: S, b: S|
        call_ensures(S::from_i32, (value,), a) && call_ensures(S::from_i32, (value,), b) ==> a
            == b
    &&& forall|value: usize, a: S, b: S| is_count(value, a) && is_count(value, b) ==> a == b
    &&& forall|x: S, y: S, a: S, b: S| is_sum(x, y, a) && is_sum(x, y, b) ==> a == b
    &&& forall|x: S, y: S, a: S, b: S| is_difference(x, y, a) && is_difference(x, y, b) ==> a == b
    &&& forall|x: S, y: S, a: S, b: S| is_product(x, y, a) && is_product(x, y, b) ==> a == b
    &&& forall|x: S, y: S, a: S, b: S| is_quotient(x, y, a) && is_quotient(x, y, b) ==> a == b
    &&& forall|x: S, a: S, b: S| is_exp(x, a) && is_exp(x, b) ==> a == b
}

/// With repeatable arithmetic a number has one negation.
pub proof fn lemma_negation_repeatable<S: Scalar>(x: S, a: S, b: S)
    requires
        is_repeatable::<S>(),
        is_negation(x, a),
        is_negation(x, b),
    ensures
        a == b,
{
    let m = choose|m: S| is_int(-1, m) && is_product(m, x, a);
    let n = choose|n: S| is_int(-1, n) && is_product(n, x, b);
    assert(m == n);
}

/// With repeatable arithmetic a number has one sigmoid.
pub proof fn lemma_sigmoid_repeatable<S: Scalar>(x: S, a: S, b: S)
    requires
        is_repeatable::<S>(),
        is_sigmoid(x, a),
        is_sigmoid(x, b),
    ensures
        a == b,
{
    let (n1, p1, o1, d1) = choose|negated: S, power: S, one: S, denominator: S|
        is_negation(x, negated) && is_exp(negated, power) && is_int(1, one) && is_sum(
            one,
            power,
            denominator,
        ) && is_quotient(one, denominator, a);
    let (n2, p2, o2, d2) = choose|negated: S, power: S, one: S, denominator: S|
        is_negation(x, negated) && is_exp(negated, power) && is_int(1, one) && is_sum(
            one,
            power,
            denominator,
        ) && is_quotient(one, denominator, b);
    lemma_negation_repeatable(x, n1, n2);
    assert(p1 == p2);
    assert(o1 == o2);
    assert(d1 == d2);
}

/// With repeatable arithmetic two running sums of the same terms from the
/// same start agree up to every position.
pub proof fn lemma_running_sum_repeatable<S: Scalar>(
    start: S,
    terms: Seq<S>,
    first: Seq<S>,
    second: Seq<S>,
    i: int,
)
    requires
        is_repeatable::<S>(),
        is_running_sum(start, terms, first),
        is_running_sum(start, terms, second),
        0 <= i <= terms.len(),
    ensures
        first[i] == second[i],
    decreases i,
{
    if i > 0 {
        lemma_running_sum_repeatable(start, terms, first, second, i - 1);
        assert(is_sum(first[i - 1], terms[i - 1], first[i - 1 + 1]));
        assert(is_sum(second[i - 1], terms[i - 1], second[i - 1 + 1]));
    }
}

/// With repeatable arithmetic terms have one total.
pub proof fn lemma_total_repeatable<S: Scalar>(start: S, terms: Seq<S>, a: S, b: S)
    requires
        is_repeatable::<S>(),
        is_total(start, terms, a),
        is_total(start, terms, b),
    ensures
        a == b,
{
    let first = choose|partial: Seq<S>| #[trigger]
        is_running_sum(start, terms, partial) && partial.last() == a;
    let second = choose|partial: Seq<S>| #[trigger]
        is_running_sum(start, terms, partial) && partial.last() == b;
    lemma_running_sum_repeatable(start, terms, first, second, terms.len() as int);
}

/// With repeatable arithmetic a neuron has one activation on given inputs.
pub proof fn lemma_activation_repeatable<S: Scalar>(
    neuron: NeuronModel<S>,
    inputs: Seq<S>,
    a: S,
    b: S,
)
    requires
        is_repeatable::<S>(),
        is_activation(neuron, inputs, a),
        is_activation(neuron, inputs, b),
    ensures
        a == b,
{
    let (raw1, negated1) = choose|raw: S, negated: S|
        is_pre_activation(neuron, inputs, raw) && is_negation(raw, negated) && is_sigmoid(
            negated,
            a,
        );
    let (raw2, negated2) = choose|raw: S, negated: S|
        is_pre_activation(neuron, inputs, raw) && is_negation(raw, negated) && is_sigmoid(
            negated,
            b,
        );
    let products1 = choose|products: Seq<S>| #[trigger]
        is_weighted(neuron.weights, inputs, products) && is_total(neuron.bias, products, raw1);
    let products2 = choose|products: Seq<S>| #[trigger]
        is_weighted(neuron.weights, inputs, products) && is_total(neuron.bias, products, raw2);
    assert(products1 =~= products2);
    lemma_total_repeatable(neuron.bias, products1, raw1, raw2);
    lemma_negation_repeatable(raw1, negated1, negated2);
    lemma_sigmoid_repeatable(negated1, a, b);
}

/// With repeatable arithmetic a layer has one output on given inputs.
pub proof fn lemma_layer_output_repeatable<S: Scalar>(
    layer: Seq<NeuronModel<S>>,
    inputs: Seq<S>,
    a: Seq<S>,
    b: Seq<S>,
)
    requires
        is_repeatable::<S>(),
        is_layer_output(layer, inputs, a),
        is_layer_output(layer, inputs, b),
    ensures
        a == b,
{
    assert forall|j: int| 0 <= j < layer.len() implies a[j] == b[j] by {
        lemma_activation_repeatable(layer[j], inputs, a[j], b[j]);
    }
    assert(a =~= b);
}

/// With repeatable arithmetic two forward passes on the same input agree
/// at every layer.
pub proof fn lemma_forward_pass_repeatable<S: Scalar>(
    network: Seq<Seq<NeuronModel<S>>>,
    input: Seq<S>,
    first: Seq<Seq<S>>,
    second: Seq<Seq<S>>,
    i: int,
)
    requires
        is_repeatable::<S>(),
        is_forward_pass(network, input, first),
        is_forward_pass(network, input, second),
        0 <= i < network.len(),
    ensures
        first[i] == second[i],
    decreases i,
{
    if i > 0 {
        lemma_forward_pass_repeatable(network, input, first, second, i - 1);
        assert(is_layer_output(network[i], first[i - 1], first[i]));
        assert(is_layer_output(network[i], second[i - 1], second[i]));
        lemma_layer_output_repeatable(network[i], first[i - 1], first[i], second[i]);
    }
}

/// Evaluation is deterministic where the arithmetic is: a network with at
/// least one layer, given the same input twice, predicts the same output
/// twice.
pub proof fn lemma_prediction_repeatable<S: Scalar>(
    network: Seq<Seq<NeuronModel<S>>>,
    input: Seq<S>,
    a: Seq<S>,
    b: Seq<S>,
)
    requires
        is_repeatable::<S>(),
        network.len() > 0,
        is_prediction(network, input, a),
        is_prediction(network, input, b),
    ensures
        a == b,
{
    let first = choose|activations: Seq<Seq<S>>| #[trigger]
        is_forward_pass(network, input, activations) && activations.last() == a;
    let second = choose|activations: Seq<Seq<S>>| #[trigger]
        is_forward_pass(network, input, activations) && activations.last() == b;
    lemma_forward_pass_repeatable(network, input, first, second, network.len() - 1);
}

} // verus!
