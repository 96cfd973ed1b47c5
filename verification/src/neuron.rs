//! A single neuron: a bias and one weight for every neuron of the layer
//! before it.

use crate::scalar::{
    draw, is_index, is_negation, is_product, is_running_sum, is_sigmoid, is_sum, is_total,
    negate, sigmoid, Sampler, Scalar,
};
use vstd::prelude::*;

verus! {

/// A neuron of the network.
///
/// The bias is fixed when the neuron is built. The weights are changed only
/// by [`Neuron::adjust_previous_weights`], which never changes how many
/// there are.
pub struct Neuron<S: Scalar> {
    bias: S,
    previous_weights: Vec<S>,
}

/// A neuron as a mathematical value.
pub ghost struct NeuronModel<S> {
    /// The bias.
    pub bias: S,
    /// The weights, one per neuron of the previous layer, in that layer's
    /// order.
    pub weights: Seq<S>,
}

impl<S: Scalar> View for Neuron<S> {
    type V = NeuronModel<S>;

    closed spec fn view(&self) -> NeuronModel<S> {
        NeuronModel { bias: self.bias, weights: self.previous_weights@ }
    }
}

/// `products[i]` is `weights[i] * inputs[i]` for every weight.
pub open spec fn is_weighted<S: Scalar>(weights: Seq<S>, inputs: Seq<S>, products: Seq<S>) -> bool {
    &&& products.len() == weights.len()
    &&& forall|i: int|
        0 <= i < weights.len() ==> is_product(weights[i], inputs[i], #[trigger] products[i])
}

/// `raw` is the neuron's pre-activation on `inputs`: its bias plus
/// `weights[0] * inputs[0]`, plus `weights[1] * inputs[1]`, and so on in
/// index order.
pub open spec fn is_pre_activation<S: Scalar>(neuron: NeuronModel<S>, inputs: Seq<S>, raw: S) -> bool {
    exists|products: Seq<S>| #[trigger]
        is_weighted(neuron.weights, inputs, products) && is_total(neuron.bias, products, raw)
}

/// `out` is the neuron's activation on `inputs`: the sigmoid of the negated
/// pre-activation, that is `1 / (1 + exp(raw))`.
pub open spec fn is_activation<S: Scalar>(neuron: NeuronModel<S>, inputs: Seq<S>, out: S) -> bool {
    exists|raw: S, negated: S|
        is_pre_activation(neuron, inputs, raw) && is_negation(raw, negated) && is_sigmoid(
            negated,
            out,
        )
}

/// `r` is `w + offset * w`.
pub open spec fn is_adjusted_weight<S: Scalar>(w: S, offset: S, r: S) -> bool {
    exists|step: S| is_product(offset, w, step) && is_sum(w, step, r)
}

/// `after` is `before` with every weight `w` replaced by `w + offset * w`
/// and nothing else changed.
pub open spec fn is_adjusted<S: Scalar>(
    before: NeuronModel<S>,
    offset: S,
    after: NeuronModel<S>,
) -> bool {
    &&& after.bias == before.bias
    &&& after.weights.len() == before.weights.len()
    &&& forall|p: int|
        0 <= p < before.weights.len() ==> is_adjusted_weight(
            before.weights[p],
            offset,
            #[trigger] after.weights[p],
        )
}

impl<S: Scalar> Neuron<S> {
    /// Builds a neuron with the given bias and `previous_neurons` weights,
    /// each drawn from `sampler`, the weight for index 0 first.
    ///
    /// The sampler is drawn from exactly `previous_neurons` times:
    /// `states` lists what the sampler was before the first draw, between
    /// one draw and the next, and after the last, and weight `k` is what
    /// the draw that took the sampler from `states[k]` to `states[k + 1]`
    /// returned.
    pub fn new<R: Sampler<S>>(bias: S, sampler: &mut R, previous_neurons: usize) -> (neuron: Self)
        ensures
            neuron@.bias == bias,
            neuron@.weights.len() == previous_neurons,
            exists|states: Seq<R>|
                #![trigger states.len()]
                states.len() == previous_neurons + 1 && states[0] == *old(sampler)
                    && states[previous_neurons as int] == *final(sampler) && forall|k: int| #[trigger]
                    is_index(k, previous_neurons as int) ==> exists|m: &mut R|
                        mut_ref_current(m) == states[k] && mut_ref_future(m) == states[k + 1]
                            && #[trigger] call_ensures(R::sample, (m,), neuron@.weights[k]),
    {
        let mut previous_weights: Vec<S> = Vec::new();
        let ghost mut states: Seq<R> = seq![*sampler];
        let mut i: usize = 0;
        while i < previous_neurons
            invariant
                i <= previous_neurons,
                previous_weights.len() == i,
                states.len() == i + 1,
                states[0] == *old(sampler),
                states[i as int] == *sampler,
                forall|k: int| #[trigger]
                    is_index(k, i as int) ==> exists|m: &mut R|
                        mut_ref_current(m) == states[k] && mut_ref_future(m) == states[k + 1]
                            && #[trigger] call_ensures(R::sample, (m,), previous_weights@[k]),
            decreases previous_neurons - i,
        {
            let ghost drawn = previous_weights@;
            let ghost earlier = states;
            let weight = draw(sampler);
            previous_weights.push(weight);
            proof {
                states = states.push(*sampler);
            }
            i += 1;
            proof {
                assert forall|k: int| #[trigger] is_index(k, i as int) implies exists|m: &mut R|
                    mut_ref_current(m) == states[k] && mut_ref_future(m) == states[k + 1]
                        && #[trigger] call_ensures(R::sample, (m,), previous_weights@[k]) by {
                    if k < i - 1 {
                        assert(is_index(k, i - 1));
                        assert(states[k] == earlier[k]);
                        assert(states[k + 1] == earlier[k + 1]);
                        assert(previous_weights@[k] == drawn[k]);
                    } else {
                        assert(states[k] == earlier[k]);
                        assert(states[k + 1] == *sampler);
                        assert(previous_weights@[k] == weight);
                    }
                }
            }
        }
        let neuron = Neuron::with_weights(bias, previous_weights);
        proof {
            assert(states.len() == previous_neurons + 1);
        }
        neuron
    }

    /// Builds a neuron from a bias and the weights it is to start with.
    pub fn with_weights(bias: S, previous_weights: Vec<S>) -> (neuron: Self)
        ensures
            neuron@ == (NeuronModel { bias, weights: previous_weights@ }),
    {
        Neuron { bias, previous_weights }
    }

    /// The bias.
    pub fn bias(&self) -> (bias: S)
        ensures
            bias == self@.bias,
    {
        self.bias
    }

    /// The weights, one per neuron of the previous layer.
    pub fn previous_weights(&self) -> (weights: &Vec<S>)
        ensures
            weights@ == self@.weights,
    {
        &self.previous_weights
    }

    /// The neuron's output for the outputs of the previous layer.
    ///
    /// The pre-activation is accumulated in index order starting from the
    /// bias, negated, and passed through the sigmoid.
    pub fn activate(&self, previous_activation: &[S]) -> (out: S)
        requires
            previous_activation@.len() == self@.weights.len(),
        ensures
            is_activation(self@, previous_activation@, out),
    {
        let mut result = self.bias;
        let ghost mut products: Seq<S> = Seq::empty();
        let ghost mut partial: Seq<S> = seq![self.bias];
        let mut i: usize = 0;
        while i < self.previous_weights.len()
            invariant
                i <= self.previous_weights.len(),
                previous_activation@.len() == self.previous_weights.len(),
                is_weighted(
                    self.previous_weights@.take(i as int),
                    previous_activation@.take(i as int),
                    products,
                ),
                is_running_sum(self.bias, products, partial),
                partial.last() == result,
            decreases self.previous_weights.len() - i,
        {
            let product = self.previous_weights[i].times(previous_activation[i]);
            let next = result.plus(product);
            proof {
                let more = products.push(product);
                let longer = partial.push(next);
                assert forall|k: int| 0 <= k < i + 1 implies is_product(
                    self.previous_weights@.take(i + 1)[k],
                    previous_activation@.take(i + 1)[k],
                    #[trigger] more[k],
                ) by {
                    if k < i {
                        assert(more[k] == products[k]);
                        assert(self.previous_weights@.take(i as int)[k]
                            == self.previous_weights@[k]);
                        assert(previous_activation@.take(i as int)[k] == previous_activation@[k]);
                    }
                }
                assert forall|k: int| 0 <= k < more.len() implies is_sum(
                    longer[k],
                    more[k],
                    #[trigger] longer[k + 1],
                ) by {
                    if k < i {
                        assert(longer[k + 1] == partial[k + 1]);
                    }
                }
                products = more;
                partial = longer;
            }
            result = next;
            i += 1;
        }
        let negated = negate(result);
        let out = sigmoid(negated);
        proof {
            assert(self.previous_weights@.take(i as int) == self@.weights);
            assert(previous_activation@.take(i as int) == previous_activation@);
            assert(is_weighted(self@.weights, previous_activation@, products));
            assert(is_total(self@.bias, products, result));
            assert(is_pre_activation(self@, previous_activation@, result));
            assert(is_pre_activation(self@, previous_activation@, result) && is_negation(
                result,
                negated,
            ) && is_sigmoid(negated, out));
        }
        out
    }

    /// Replaces every weight `w` by `w + offset * w`.
    pub fn adjust_previous_weights(&mut self, offset: S)
        ensures
            is_adjusted(old(self)@, offset, final(self)@),
    {
        let count = self.previous_weights.len();
        let mut i: usize = 0;
        while i < count
            invariant
                i <= count,
                count == self.previous_weights.len(),
                self.bias == old(self).bias,
                self.previous_weights.len() == old(self).previous_weights.len(),
                forall|p: int|
                    0 <= p < i ==> is_adjusted_weight(
                        old(self).previous_weights@[p],
                        offset,
                        #[trigger] self.previous_weights@[p],
                    ),
                forall|p: int|
                    i <= p < count ==> self.previous_weights@[p] == old(self).previous_weights@[p],
            decreases count - i,
        {
            let weight = self.previous_weights[i];
            let step = offset.times(weight);
            let adjusted = weight.plus(step);
            self.previous_weights[i] = adjusted;
            proof {
                assert(is_product(offset, weight, step) && is_sum(weight, step, adjusted));
                assert(is_adjusted_weight(old(self).previous_weights@[i as int], offset, adjusted));
            }
            i += 1;
        }
    }
}

/// A neuron without weights ignores its input: its activation is the
/// sigmoid of its negated bias, whatever `inputs` holds.
pub proof fn lemma_activation_without_weights<S: Scalar>(
    neuron: NeuronModel<S>,
    inputs: Seq<S>,
    out: S,
)
    requires
        neuron.weights.len() == 0,
    ensures
        is_activation(neuron, inputs, out) <==> (exists|negated: S|
            is_negation(neuron.bias, negated) && is_sigmoid(negated, out)),
{
    if is_activation(neuron, inputs, out) {
        let (raw, negated) = choose|raw: S, negated: S|
            is_pre_activation(neuron, inputs, raw) && is_negation(raw, negated) && is_sigmoid(
                negated,
                out,
            );
        let products = choose|products: Seq<S>| #[trigger]
            is_weighted(neuron.weights, inputs, products) && is_total(neuron.bias, products, raw);
        let partial = choose|partial: Seq<S>| #[trigger]
            is_running_sum(neuron.bias, products, partial) && partial.last() == raw;
        assert(raw == neuron.bias);
        assert(is_negation(neuron.bias, negated) && is_sigmoid(negated, out));
    }
    if exists|negated: S| is_negation(neuron.bias, negated) && is_sigmoid(negated, out) {
        let negated = choose|negated: S|
            is_negation(neuron.bias, negated) && is_sigmoid(negated, out);
        let products = Seq::<S>::empty();
        let partial = seq![neuron.bias];
        assert(is_weighted(neuron.weights, inputs, products));
        assert(is_running_sum(neuron.bias, products, partial) && partial.last() == neuron.bias);
        assert(is_total(neuron.bias, products, neuron.bias));
        assert(is_pre_activation(neuron, inputs, neuron.bias));
        assert(is_pre_activation(neuron, inputs, neuron.bias) && is_negation(
            neuron.bias,
            negated,
        ) && is_sigmoid(negated, out));
    }
}

/// A weight that `w + offset * w` can only map to itself is left as it is.
///
/// This covers an offset of zero, and a weight of zero under any offset,
/// in every arithmetic where `offset * w` is then zero and adding zero
/// changes nothing.
pub proof fn lemma_fixed_weight_stays<S: Scalar>(
    before: NeuronModel<S>,
    offset: S,
    after: NeuronModel<S>,
    p: int,
)
    requires
        is_adjusted(before, offset, after),
        0 <= p < before.weights.len(),
        forall|step: S, r: S|
            is_product(offset, before.weights[p], step) && is_sum(before.weights[p], step, r) ==> r
                == before.weights[p],
    ensures
        after.weights[p] == before.weights[p],
{
    assert(is_adjusted_weight(before.weights[p], offset, after.weights[p]));
}

} // verus!
