//! The network: an ordered list of layers, the forward pass through them,
//! and training.

use crate::error::ModelError;
use crate::fitting::{
    adjust_layer, adjusted_count, batch_means, duplicate, is_batch_mean, is_backward_pass,
    is_fitted, is_layer_adjusted, is_next_offsets, is_reweighting, is_uniform,
    lemma_backward_pass_reweights, offsets_width, lemma_fit_reweights, lemma_reweighting_composes,
    lemma_reweighting_keeps_shape, rows, same_lengths, snapshot_weights, weight_changes,
    weights_of,
};
use crate::forward::{is_forward_pass, is_layer_output, is_prediction, lemma_forward_pass_widths};
use crate::neuron::{is_adjusted, Neuron, NeuronModel};
use crate::scalar::{is_index, is_int, Sampler, Scalar};
use crate::training::{
    divergence, divergence_len, examples_view, is_faulty_step, is_interrupted, is_trained,
    is_training_run, is_training_step, lemma_batch_position, lemma_batch_uniformity,
    lemma_run_extends, lemma_run_interrupted, lemma_step_example, training_fault,
    training_refusal,
};
use crate::TrainingData;
use vstd::prelude::*;

verus! {

/// The bias every neuron is given by [`Model::add_layer`].
pub const INITIAL_BIAS: i32 = -10;

/// A feedforward network.
///
/// Layer 0 stands for the input: only its width matters and its neurons
/// have no weights. Every neuron of a later layer has exactly one weight
/// per neuron of the layer before it.
pub struct Model<S: Scalar> {
    layers: Vec<Vec<Neuron<S>>>,
}

/// A layer as a mathematical value: its neurons in order.
pub open spec fn layer_view<S: Scalar>(layer: Seq<Neuron<S>>) -> Seq<NeuronModel<S>> {
    Seq::new(layer.len(), |j: int| layer[j]@)
}

/// A list of layers as a mathematical value.
pub open spec fn network_view<S: Scalar>(layers: Seq<Vec<Neuron<S>>>) -> Seq<Seq<NeuronModel<S>>> {
    Seq::new(layers.len(), |i: int| layer_view(layers[i]@))
}

/// Every neuron has one weight per neuron of the layer before its own, and
/// none in layer 0.
pub open spec fn well_shaped<S>(network: Seq<Seq<NeuronModel<S>>>) -> bool {
    forall|i: int, j: int|
        0 <= i < network.len() && 0 <= j < network[i].len() ==> (#[trigger] network[i][j]).weights.len()
            == (if i == 0 {
            0
        } else {
            network[i - 1].len()
        })
}

/// The width of the last layer, or 0 where there is no layer.
pub open spec fn last_width<S>(network: Seq<Seq<NeuronModel<S>>>) -> nat {
    if network.len() == 0 {
        0
    } else {
        network.last().len()
    }
}

/// `layer` has `neurons` neurons, each with the initial bias and `width`
/// weights.
pub open spec fn is_fresh_layer<S: Scalar>(
    layer: Seq<NeuronModel<S>>,
    neurons: nat,
    width: nat,
) -> bool {
    &&& layer.len() == neurons
    &&& forall|j: int|
        0 <= j < layer.len() ==> is_int(INITIAL_BIAS as int, (#[trigger] layer[j]).bias)
            && layer[j].weights.len() == width
}

impl<S: Scalar> View for Model<S> {
    type V = Seq<Seq<NeuronModel<S>>>;

    closed spec fn view(&self) -> Seq<Seq<NeuronModel<S>>> {
        network_view(self.layers@)
    }
}

impl<S: Scalar> Model<S> {
    #[verifier::type_invariant]
    spec fn shaped(self) -> bool {
        well_shaped(self@)
    }

    /// A network without layers.
    pub fn new() -> (model: Self)
        ensures
            model@.len() == 0,
    {
        Self { layers: Vec::new() }
    }

    /// The layers, input layer first.
    pub fn layers(&self) -> (layers: &Vec<Vec<Neuron<S>>>)
        ensures
            network_view(layers@) == self@,
            well_shaped(self@),
    {
        proof {
            use_type_invariant(self);
        }
        &self.layers
    }

    /// Appends a layer of `neurons` neurons.
    ///
    /// Each new neuron gets the initial bias and one weight, drawn from
    /// `sampler`, per neuron of the layer that was last before the call;
    /// the first layer added gets no weights. Neurons are built in order,
    /// and each draws its weights in order.
    ///
    /// In the last clause `states[j]` is what the sampler was before
    /// neuron `j` was built and `states[j + 1]` what it was after; between
    /// the two, `draws` lists what the sampler was before and after each
    /// of the neuron's draws, and weight `p` of the neuron is what the
    /// draw from `draws[p]` to `draws[p + 1]` returned.
    pub fn add_layer<R: Sampler<S>>(&mut self, neurons: u64, sampler: &mut R)
        ensures
            well_shaped(final(self)@),
            final(self)@.len() == old(self)@.len() + 1,
            final(self)@.drop_last() == old(self)@,
            is_fresh_layer(final(self)@.last(), neurons as nat, last_width(old(self)@)),
            exists|states: Seq<R>|
                #![trigger states.len()]
                states.len() == neurons + 1 && states[0] == *old(sampler) && states[neurons as int]
                    == *final(sampler) && forall|j: int| #[trigger]
                    is_index(j, neurons as int) ==> exists|draws: Seq<R>|
                        #![trigger draws.len()]
                        draws.len() == last_width(old(self)@) + 1 && draws[0] == states[j]
                            && draws[last_width(old(self)@) as int] == states[j + 1] && forall|
                            p: int,
                        | #[trigger]
                            is_index(p, last_width(old(self)@) as int) ==> exists|m: &mut R|
                                mut_ref_current(m) == draws[p] && mut_ref_future(m) == draws[p + 1]
                                    && #[trigger] call_ensures(
                                    R::sample,
                                    (m,),
                                    final(self)@.last()[j].weights[p],
                                ),
    {
        proof {
            use_type_invariant(&*self);
        }
        let previous_neurons = if self.layers.is_empty() {
            0
        } else {
            self.layers[self.layers.len() - 1].len()
        };
        let mut new_layer: Vec<Neuron<S>> = Vec::new();
        let ghost mut states: Seq<R> = seq![*sampler];
        let mut built: u64 = 0;
        while built < neurons
            invariant
                built <= neurons,
                new_layer.len() == built,
                is_fresh_layer(layer_view(new_layer@), built as nat, previous_neurons as nat),
                states.len() == built + 1,
                states[0] == *old(sampler),
                states[built as int] == *sampler,
                forall|j: int| #[trigger]
                    is_index(j, built as int) ==> exists|draws: Seq<R>|
                        #![trigger draws.len()]
                        draws.len() == previous_neurons + 1 && draws[0] == states[j]
                            && draws[previous_neurons as int] == states[j + 1] && forall|p: int| #[trigger]
                            is_index(p, previous_neurons as int) ==> exists|m: &mut R|
                                mut_ref_current(m) == draws[p] && mut_ref_future(m) == draws[p + 1]
                                    && #[trigger] call_ensures(
                                    R::sample,
                                    (m,),
                                    layer_view(new_layer@)[j].weights[p],
                                ),
            decreases neurons - built,
        {
            let bias = S::from_i32(INITIAL_BIAS);
            let neuron = Neuron::new(bias, sampler, previous_neurons);
            let ghost earlier = layer_view(new_layer@);
            let ghost reached = states;
            new_layer.push(neuron);
            proof {
                states = states.push(*sampler);
                let grown = layer_view(new_layer@);
                assert forall|j: int| 0 <= j < grown.len() implies is_int(
                    INITIAL_BIAS as int,
                    (#[trigger] grown[j]).bias,
                ) && grown[j].weights.len() == previous_neurons by {
                    if j < built {
                        assert(grown[j] == earlier[j]);
                    }
                }
            }
            built += 1;
            proof {
                let grown = layer_view(new_layer@);
                assert forall|j: int| #[trigger] is_index(j, built as int) implies exists|
                    draws: Seq<R>,
                |
                    #![trigger draws.len()]
                    draws.len() == previous_neurons + 1 && draws[0] == states[j]
                        && draws[previous_neurons as int] == states[j + 1] && forall|p: int| #[trigger]
                        is_index(p, previous_neurons as int) ==> exists|m: &mut R|
                            mut_ref_current(m) == draws[p] && mut_ref_future(m) == draws[p + 1]
                                && #[trigger] call_ensures(
                                R::sample,
                                (m,),
                                layer_view(new_layer@)[j].weights[p],
                            ) by {
                    if j < built - 1 {
                        assert(is_index(j, built - 1));
                        assert(states[j] == reached[j]);
                        assert(states[j + 1] == reached[j + 1]);
                        assert(grown[j] == earlier[j]);
                    } else {
                        assert(states[j] == reached[j]);
                        assert(states[j + 1] == *sampler);
                        assert(grown[j] == neuron@);
                    }
                }
            }
        }
        proof {
            let grown = network_view(self.layers@.push(new_layer));
            assert(grown.drop_last() == self@);
            assert(grown.last() == layer_view(new_layer@));
            assert(well_shaped(grown)) by {
                assert forall|i: int, j: int|
                    0 <= i < grown.len() && 0 <= j < grown[i].len() implies (#[trigger] grown[i][j]).weights.len()
                    == (if i == 0 {
                    0
                } else {
                    grown[i - 1].len()
                }) by {
                    if i < self@.len() {
                        assert(grown[i] == self@[i]);
                        assert(self@[i][j].weights.len() == (if i == 0 {
                            0
                        } else {
                            self@[i - 1].len()
                        }));
                    }
                }
            }
        }
        // The layers are taken out to be changed and put back whole, so that
        // the model never holds layers that are not well shaped.
        let mut layers: Vec<Vec<Neuron<S>>> = Vec::new();
        core::mem::swap(&mut self.layers, &mut layers);
        layers.push(new_layer);
        self.layers = layers;
    }

    /// Runs the network on `data` and returns the output of the last layer.
    ///
    /// Layers are evaluated from layer 1 upwards; within a layer the
    /// neurons are evaluated in order, each on the complete output of the
    /// layer before.
    pub fn evaluate(&self, data: &Vec<S>) -> (result: Result<Vec<S>, ModelError>)
        ensures
            well_shaped(self@),
            self@.len() < 2 ==> result == Err::<Vec<S>, ModelError>(ModelError::InvalidModel),
            self@.len() >= 2 && data@.len() != self@[0].len() ==> result == Err::<
                Vec<S>,
                ModelError,
            >(ModelError::ShapeMismatch),
            self@.len() >= 2 && data@.len() == self@[0].len() ==> result is Ok && is_prediction(
                self@,
                data@,
                result->Ok_0@,
            ) && result->Ok_0@.len() == self@.last().len(),
    {
        proof {
            use_type_invariant(self);
        }
        if self.layers.len() < 2 {
            return Err(ModelError::InvalidModel);
        }
        if data.len() != self.layers[0].len() {
            return Err(ModelError::ShapeMismatch);
        }
        let mut previous_activations = duplicate(data);
        let ghost mut activations: Seq<Seq<S>> = seq![data@];
        let mut i: usize = 1;
        while i < self.layers.len()
            invariant
                1 <= i <= self.layers.len(),
                well_shaped(self@),
                activations.len() == i,
                is_forward_pass(self@.take(i as int), data@, activations),
                activations.last() == previous_activations@,
                previous_activations@.len() == self@[i - 1].len(),
            decreases self.layers.len() - i,
        {
            let neurons = &self.layers[i];
            let mut current_activations: Vec<S> = Vec::new();
            let mut j: usize = 0;
            while j < neurons.len()
                invariant
                    1 <= i < self.layers.len(),
                    neurons == self.layers[i as int],
                    well_shaped(self@),
                    previous_activations@.len() == self@[i - 1].len(),
                    j <= neurons.len(),
                    is_layer_output(
                        self@[i as int].take(j as int),
                        previous_activations@,
                        current_activations@,
                    ),
                decreases neurons.len() - j,
            {
                assert(neurons[j as int]@ == self@[i as int][j as int]);
                let activation = neurons[j].activate(previous_activations.as_slice());
                current_activations.push(activation);
                j += 1;
            }
            proof {
                assert(self@[i as int].take(j as int) == self@[i as int]);
                let longer = activations.push(current_activations@);
                assert forall|l: int| 1 <= l < i + 1 implies is_layer_output(
                    self@.take(i + 1)[l],
                    longer[l - 1],
                    #[trigger] longer[l],
                ) by {
                    if l < i {
                        assert(self@.take(i as int)[l] == self@[l]);
                        assert(longer[l] == activations[l]);
                    }
                }
                activations = longer;
            }
            previous_activations = current_activations;
            i += 1;
        }
        proof {
            assert(self@.take(i as int) == self@);
            lemma_forward_pass_widths(self@, data@, activations);
        }
        Ok(previous_activations)
    }

    /// Adjusts the weights to a batch of divergence vectors.
    ///
    /// The batch is averaged position by position into one offset per
    /// output. Then, from the last layer down to layer 1, neuron `j` of the
    /// layer is adjusted by offset `j`, and the offsets for the layer
    /// before are the means, per weight position, of how far the adjusted
    /// neurons' weights moved. Where the offsets reach no neuron of a layer,
    /// because there are no offsets or the layer has no neurons, there is
    /// no weight change to average: no offsets are handed on and the
    /// layers before are left as they are. A batch whose vectors differ in
    /// length is refused before anything is changed.
    pub fn fit(&mut self, batch_results: &Vec<Vec<S>>) -> (result: Result<(), ModelError>)
        requires
            batch_results.len() > 0,
        ensures
            well_shaped(final(self)@),
            is_reweighting(old(self)@, final(self)@),
            is_uniform(rows(batch_results@)) ==> result is Ok && is_fitted(
                old(self)@,
                rows(batch_results@),
                final(self)@,
            ),
            !is_uniform(rows(batch_results@)) ==> result == Err::<(), ModelError>(
                ModelError::ShapeMismatch,
            ) && final(self)@ == old(self)@,
    {
        proof {
            use_type_invariant(&*self);
        }
        if !same_lengths(batch_results) {
            return Err(ModelError::ShapeMismatch);
        }
        let mut offsets = batch_means(batch_results);
        let ghost before = self@;
        // As in `add_layer`, the layers are taken out while they change.
        let mut layers: Vec<Vec<Neuron<S>>> = Vec::new();
        core::mem::swap(&mut self.layers, &mut layers);
        let depth = layers.len();
        let ghost mut reached: Seq<Seq<S>> = Seq::new(depth as nat, |l: int| offsets@);
        let mut i = depth;
        while i > 1
            invariant
                layers.len() == depth,
                before.len() == depth,
                well_shaped(before),
                i <= depth,
                depth >= 1 ==> i >= 1,
                reached.len() == depth,
                i >= 1 ==> reached[i - 1] == offsets@,
                depth >= 2 ==> is_batch_mean(rows(batch_results@), reached.last()),
                forall|l: int| 0 <= l < i ==> #[trigger] network_view(layers@)[l] == before[l],
                forall|l: int|
                    i <= l < depth && 1 <= l ==> is_layer_adjusted(
                        before[l],
                        reached[l],
                        #[trigger] network_view(layers@)[l],
                    ) && is_next_offsets(
                        weights_of(before[l]),
                        weights_of(network_view(layers@)[l]),
                        adjusted_count(before[l].len(), reached[l].len()),
                        offsets_width(
                            adjusted_count(before[l].len(), reached[l].len()),
                            before[l - 1].len(),
                        ),
                        reached[l - 1],
                    ),
            decreases i,
        {
            i -= 1;
            let ghost earlier = network_view(layers@);
            let ghost reached_earlier = reached;
            assert(earlier[i as int] == before[i as int]);
            assert(earlier[i - 1] == before[i - 1]);
            let old_weights = snapshot_weights(&layers[i]);
            adjust_layer(&mut layers[i], &offsets);
            let count = if offsets.len() <= layers[i].len() {
                offsets.len()
            } else {
                layers[i].len()
            };
            let width = layers[i - 1].len();
            proof {
                let current = network_view(layers@);
                assert(is_layer_adjusted(before[i as int], offsets@, current[i as int]));
                assert(layers@[i as int].len() == before[i as int].len());
                assert(old_weights.len() == before[i as int].len());
                assert forall|j: int| 0 <= j < layers@[i as int].len() implies (
                #[trigger] old_weights@[j]).len() == width by {
                    assert(rows(old_weights@)[j] == before[i as int][j].weights);
                    assert(before[i as int][j].weights.len() == before[i - 1].len());
                }
                assert forall|j: int| 0 <= j < layers@[i as int].len() implies (
                #[trigger] layers@[i as int]@[j])@.weights.len() == width by {
                    assert(before[i as int][j].weights.len() == before[i - 1].len());
                    assert(current[i as int][j] == layers@[i as int]@[j]@);
                    if j < offsets.len() {
                        assert(is_adjusted(
                            before[i as int][j],
                            offsets@[j],
                            current[i as int][j],
                        ));
                    }
                }
            }
            let next = if count == 0 {
                Vec::new()
            } else {
                weight_changes(&old_weights, &layers[i], count, width)
            };
            proof {
                let current = network_view(layers@);
                reached = reached.update(i - 1, next@);
                assert forall|l: int| 0 <= l < i implies #[trigger] current[l] == before[l] by {
                    assert(current[l] == earlier[l]);
                }
                assert forall|l: int| i <= l < depth && 1 <= l implies is_layer_adjusted(
                    before[l],
                    reached[l],
                    #[trigger] current[l],
                ) && is_next_offsets(
                    weights_of(before[l]),
                    weights_of(current[l]),
                    adjusted_count(before[l].len(), reached[l].len()),
                    offsets_width(
                        adjusted_count(before[l].len(), reached[l].len()),
                        before[l - 1].len(),
                    ),
                    reached[l - 1],
                ) by {
                    if l > i {
                        assert(current[l] == earlier[l]);
                        assert(reached[l] == reached_earlier[l]);
                        assert(reached[l - 1] == reached_earlier[l - 1]);
                    } else {
                        assert(rows(old_weights@) == weights_of(before[l]));
                    }
                }
            }
            offsets = next;
        }
        proof {
            let after = network_view(layers@);
            assert(is_backward_pass(before, reached, after));
            lemma_backward_pass_reweights(before, reached, after);
            lemma_reweighting_keeps_shape(before, after);
        }
        self.layers = layers;
        Ok(())
    }

    /// Trains the network on `training_data`, `epoch` times over, fitting
    /// it to every `batch` divergences measured.
    ///
    /// Every step evaluates the network on the next example, measures how
    /// far the prediction lies from what the example expects, and adds the
    /// divergence to the pending batch; the step that fills the batch fits
    /// the network to it and empties it. Nothing is changed when training
    /// is refused before it starts. A step that cannot be carried out ends
    /// training with a shape mismatch, and the network keeps what earlier
    /// steps did to it.
    pub fn train(&mut self, training_data: Vec<TrainingData<S>>, batch: usize, epoch: u64) -> (result:
        Result<(), ModelError>)
        ensures
            well_shaped(final(self)@),
            is_reweighting(old(self)@, final(self)@),
            training_refusal(
                old(self)@,
                examples_view(training_data@),
                batch as nat,
                epoch as nat,
            ) is Some ==> final(self)@ == old(self)@,
            match training_fault(
                old(self)@,
                examples_view(training_data@),
                batch as nat,
                epoch as nat,
            ) {
                Some(error) => result == Err::<(), ModelError>(error) && (training_refusal(
                    old(self)@,
                    examples_view(training_data@),
                    batch as nat,
                    epoch as nat,
                ) is None ==> is_interrupted(
                    old(self)@,
                    examples_view(training_data@),
                    batch as nat,
                    epoch as nat,
                    final(self)@,
                )),
                None => result is Ok && is_trained(
                    old(self)@,
                    examples_view(training_data@),
                    batch as nat,
                    epoch as nat,
                    final(self)@,
                ),
            },
    {
        proof {
            use_type_invariant(&*self);
        }
        if batch == 0 || epoch == 0 || training_data.is_empty() {
            return Err(ModelError::InvalidArgument);
        }
        if self.layers.len() < 2 {
            return Err(ModelError::InvalidModel);
        }
        if training_data[0].expected().len() != self.layers[self.layers.len() - 1].len() {
            return Err(ModelError::ShapeMismatch);
        }
        let ghost initial = self@;
        let ghost examples = examples_view(training_data@);
        let ghost in_width = initial[0].len();
        let ghost out_width = initial.last().len();
        let ghost mut networks: Seq<Seq<Seq<NeuronModel<S>>>> = seq![initial];
        let ghost mut divergences: Seq<Seq<S>> = Seq::empty();
        let ghost mut t: int = 0;
        let mut batch_results: Vec<Vec<S>> = Vec::new();
        let mut e: u64 = 0;
        proof {
            lemma_batch_position(0, batch as int);
            assert(rows(batch_results@) =~= divergences.subrange(0, 0));
            assert(training_refusal(initial, examples, batch as nat, epoch as nat) is None);
        }
        while e < epoch
            invariant
                batch > 0,
                training_data.len() > 0,
                examples == examples_view(training_data@),
                e <= epoch,
                t == e * training_data.len(),
                initial == old(self)@,
                0 <= t,
                divergences.len() == t,
                initial.len() >= 2,
                in_width == initial[0].len(),
                out_width == initial.last().len(),
                well_shaped(initial),
                well_shaped(self@),
                is_reweighting(initial, self@),
                is_training_run(initial, examples, batch as nat, t as nat, networks, divergences),
                networks.last() == self@,
                forall|s: int|
                    0 <= s < t ==> !#[trigger] is_faulty_step(
                        in_width,
                        out_width,
                        examples,
                        batch as nat,
                        s,
                    ),
                forall|s: int|
                    0 <= s < t ==> (#[trigger] divergences[s]).len() == divergence_len(
                        out_width,
                        examples,
                        s,
                    ),
                batch_results.len() == t % (batch as int),
                rows(batch_results@) == divergences.subrange(t - batch_results.len(), t),
                training_refusal(initial, examples, batch as nat, epoch as nat) is None,
            decreases epoch - e,
        {
            let mut k: usize = 0;
            while k < training_data.len()
                invariant
                    batch > 0,
                    training_data.len() > 0,
                    examples == examples_view(training_data@),
                    e < epoch,
                    k <= training_data.len(),
                    t == e * training_data.len() + k,
                    initial == old(self)@,
                    0 <= t,
                    divergences.len() == t,
                    initial.len() >= 2,
                    in_width == initial[0].len(),
                    out_width == initial.last().len(),
                    well_shaped(initial),
                    well_shaped(self@),
                    is_reweighting(initial, self@),
                    is_training_run(
                        initial,
                        examples,
                        batch as nat,
                        t as nat,
                        networks,
                        divergences,
                    ),
                    networks.last() == self@,
                    forall|s: int|
                        0 <= s < t ==> !#[trigger] is_faulty_step(
                            in_width,
                            out_width,
                            examples,
                            batch as nat,
                            s,
                        ),
                    forall|s: int|
                        0 <= s < t ==> (#[trigger] divergences[s]).len() == divergence_len(
                            out_width,
                            examples,
                            s,
                        ),
                    batch_results.len() == t % (batch as int),
                    rows(batch_results@) == divergences.subrange(t - batch_results.len(), t),
                    training_refusal(initial, examples, batch as nat, epoch as nat) is None,
                decreases training_data.len() - k,
            {
                proof {
                    assert(e * training_data.len() >= 0) by (nonlinear_arith)
                        requires
                            e >= 0,
                            training_data.len() >= 0,
                    ;
                    assert(e * training_data.len() + training_data.len() <= epoch
                        * training_data.len()) by (nonlinear_arith)
                        requires
                            e + 1 <= epoch,
                            training_data.len() >= 0,
                    ;
                    lemma_step_example(e as int, training_data.len() as int, k as int);
                    lemma_batch_position(t, batch as int);
                    assert(examples[t % (examples.len() as int)] == training_data@[k as int]@);
                }
                let example = &training_data[k];
                let prediction = match self.evaluate(example.data()) {
                    Ok(prediction) => prediction,
                    Err(error) => {
                        proof {
                            lemma_run_interrupted(
                                initial,
                                examples,
                                batch as nat,
                                epoch as nat,
                                t,
                                networks,
                                divergences,
                            );
                        }
                        return Err(error);
                    },
                };
                let measured = divergence(&prediction, example.expected());
                let ghost unfitted = self@;
                let ghost longer = divergences.push(measured@);
                let ghost pending = rows(batch_results@);
                batch_results.push(measured);
                proof {
                    assert(is_prediction(unfitted, examples[t % (examples.len() as int)].data, prediction@));
                    assert(longer[t].len() == divergence_len(out_width, examples, t));
                    assert forall|s: int| 0 <= s <= t implies (#[trigger] longer[s]).len()
                        == divergence_len(out_width, examples, s) by {
                        if s < t {
                            assert(longer[s] == divergences[s]);
                        }
                    }
                    assert(rows(batch_results@) =~= longer.subrange(
                        t + 1 - batch_results.len(),
                        t + 1,
                    )) by {
                        let grown = rows(batch_results@);
                        let wanted = longer.subrange(t + 1 - batch_results.len(), t + 1);
                        assert forall|b: int| 0 <= b < grown.len() implies grown[b]
                            == wanted[b] by {
                            if b < grown.len() - 1 {
                                assert(grown[b] == pending[b]);
                            }
                        }
                    }
                }
                if batch_results.len() >= batch {
                    proof {
                        lemma_batch_uniformity(out_width, examples, batch as nat, t, longer);
                    }
                    match self.fit(&batch_results) {
                        Ok(()) => {},
                        Err(error) => {
                            proof {
                                lemma_run_interrupted(
                                    initial,
                                    examples,
                                    batch as nat,
                                    epoch as nat,
                                    t,
                                    networks,
                                    divergences,
                                );
                            }
                            return Err(error);
                        },
                    }
                    batch_results.clear();
                    proof {
                        lemma_fit_reweights(unfitted, longer.subrange(t + 1 - batch, t + 1), self@);
                        lemma_reweighting_composes(initial, unfitted, self@);
                        assert(rows(batch_results@) =~= longer.subrange(t + 1, t + 1));
                    }
                }
                proof {
                    let grown = networks.push(self@);
                    assert(grown[t] == unfitted);
                    assert(grown[t + 1] == self@);
                    assert(is_training_step(examples, batch as nat, t, grown, longer));
                    lemma_run_extends(
                        initial,
                        examples,
                        batch as nat,
                        t as nat,
                        networks,
                        divergences,
                        self@,
                        measured@,
                    );
                    assert(!is_faulty_step(in_width, out_width, examples, batch as nat, t));
                    networks = grown;
                    divergences = longer;
                    t = t + 1;
                }
                k += 1;
            }
            proof {
                assert((e + 1) * training_data.len() == e * training_data.len()
                    + training_data.len()) by (nonlinear_arith);
            }
            e += 1;
        }
        proof {
            assert(is_training_run(
                initial,
                examples,
                batch as nat,
                (epoch as nat) * examples.len(),
                networks,
                divergences,
            ) && networks.last() == self@);
        }
        Ok(())
    }
}

impl<S: Scalar> Default for Model<S> {
    fn default() -> (model: Self)
        ensures
            model@.len() == 0,
    {
        Self::new()
    }
}

} // verus!
