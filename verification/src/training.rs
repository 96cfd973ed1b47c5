//! What a training run is: the stream of examples, how it is cut into
//! batches, and which runs are refused.
//!
//! Training walks the training set `epochs` times, in order. Step `t` of
//! the run, counting from 0, uses example `t mod n` of a set of `n`
//! examples. Each step adds one divergence vector to the pending batch;
//! the step that brings the batch to `batch` vectors fits the network to
//! it and empties it. Steps are therefore cut into consecutive groups of
//! `batch`, across epoch boundaries, and a last group that stays short is
//! never fitted.

use crate::error::ModelError;
use crate::fitting::{is_fitted, is_uniform};
use crate::forward::is_prediction;
use crate::neuron::NeuronModel;
use crate::scalar::{is_difference, Scalar};
use crate::{ExampleModel, TrainingData};
use vstd::arithmetic::div_mod::{
    lemma_add_mod_noop, lemma_mod_decreases, lemma_mod_is_zero, lemma_mod_multiples_vanish,
    lemma_mod_pos_bound, lemma_mod_self_0, lemma_small_mod,
};
use vstd::prelude::*;

verus! {

/// A training set as a mathematical value.
pub open spec fn examples_view<S>(set: Seq<TrainingData<S>>) -> Seq<ExampleModel<S>> {
    Seq::new(set.len(), |k: int| set[k]@)
}

/// The smaller of two lengths.
pub open spec fn shorter(a: nat, b: nat) -> nat {
    if a <= b {
        a
    } else {
        b
    }
}

/// `divergence[k]` is `prediction[k] - expected[k]` for every position
/// that both vectors have.
pub open spec fn is_divergence<S: Scalar>(
    prediction: Seq<S>,
    expected: Seq<S>,
    divergence: Seq<S>,
) -> bool {
    &&& divergence.len() == shorter(prediction.len(), expected.len())
    &&& forall|k: int|
        0 <= k < divergence.len() ==> is_difference(
            prediction[k],
            expected[k],
            #[trigger] divergence[k],
        )
}

/// `divergence` is how far the network's prediction for `example` lies
/// from what the example expects.
pub open spec fn is_example_divergence<S: Scalar>(
    network: Seq<Seq<NeuronModel<S>>>,
    example: ExampleModel<S>,
    divergence: Seq<S>,
) -> bool {
    exists|prediction: Seq<S>| #[trigger]
        is_prediction(network, example.data, prediction) && is_divergence(
            prediction,
            example.expected,
            divergence,
        )
}

/// Step `t` of a run: `networks[t]` is the network before the step,
/// `networks[t + 1]` the network after it and `divergences[t]` the
/// divergence the step measured. The step that completes a batch fits the
/// network to the last `batch` divergences; any other step leaves the
/// network as it was.
pub open spec fn is_training_step<S: Scalar>(
    examples: Seq<ExampleModel<S>>,
    batch: nat,
    t: int,
    networks: Seq<Seq<Seq<NeuronModel<S>>>>,
    divergences: Seq<Seq<S>>,
) -> bool {
    &&& is_example_divergence(networks[t], examples[t % (examples.len() as int)], divergences[t])
    &&& if (t + 1) % (batch as int) == 0 {
        is_fitted(networks[t], divergences.subrange(t + 1 - batch, t + 1), networks[t + 1])
    } else {
        networks[t + 1] == networks[t]
    }
}

/// `networks` and `divergences` record a run of `steps` steps that starts
/// from `before`.
pub open spec fn is_training_run<S: Scalar>(
    before: Seq<Seq<NeuronModel<S>>>,
    examples: Seq<ExampleModel<S>>,
    batch: nat,
    steps: nat,
    networks: Seq<Seq<Seq<NeuronModel<S>>>>,
    divergences: Seq<Seq<S>>,
) -> bool {
    &&& networks.len() == steps + 1
    &&& divergences.len() == steps
    &&& networks[0] == before
    &&& forall|t: int|
        0 <= t < steps ==> #[trigger] is_training_step(examples, batch, t, networks, divergences)
}

/// `after` is `before` trained on `examples` for `epochs` epochs in
/// batches of `batch`.
pub open spec fn is_trained<S: Scalar>(
    before: Seq<Seq<NeuronModel<S>>>,
    examples: Seq<ExampleModel<S>>,
    batch: nat,
    epochs: nat,
    after: Seq<Seq<NeuronModel<S>>>,
) -> bool {
    exists|networks: Seq<Seq<Seq<NeuronModel<S>>>>, divergences: Seq<Seq<S>>| #[trigger]
        is_training_run(before, examples, batch, epochs * examples.len(), networks, divergences)
            && networks.last() == after
}

/// How long the divergence measured at step `t` is, for a network whose
/// last layer is `out_width` wide.
pub open spec fn divergence_len<S>(out_width: nat, examples: Seq<ExampleModel<S>>, t: int) -> nat {
    shorter(out_width, examples[t % (examples.len() as int)].expected.len())
}

/// Step `t` completes a batch in which not all divergences are equally
/// long.
pub open spec fn is_ragged_batch<S>(
    out_width: nat,
    examples: Seq<ExampleModel<S>>,
    batch: nat,
    t: int,
) -> bool {
    &&& (t + 1) % (batch as int) == 0
    &&& exists|s: int|
        t + 1 - batch <= s <= t && #[trigger] divergence_len(out_width, examples, s)
            != divergence_len(out_width, examples, t + 1 - batch)
}

/// Step `t` cannot be carried out: its example's input is not as long as
/// the first layer is wide, or it completes a ragged batch.
pub open spec fn is_faulty_step<S>(
    in_width: nat,
    out_width: nat,
    examples: Seq<ExampleModel<S>>,
    batch: nat,
    t: int,
) -> bool {
    examples[t % (examples.len() as int)].data.len() != in_width || is_ragged_batch(
        out_width,
        examples,
        batch,
        t,
    )
}

/// Step `t` is the first step that cannot be carried out.
pub open spec fn is_first_faulty_step<S>(
    in_width: nat,
    out_width: nat,
    examples: Seq<ExampleModel<S>>,
    batch: nat,
    t: int,
) -> bool {
    &&& is_faulty_step(in_width, out_width, examples, batch, t)
    &&& forall|s: int|
        0 <= s < t ==> !#[trigger] is_faulty_step(in_width, out_width, examples, batch, s)
}

/// `after` is what a run that starts from `before` leaves behind when it
/// ends at its first faulty step: the network as the steps before that one
/// made it.
pub open spec fn is_interrupted<S: Scalar>(
    before: Seq<Seq<NeuronModel<S>>>,
    examples: Seq<ExampleModel<S>>,
    batch: nat,
    epochs: nat,
    after: Seq<Seq<NeuronModel<S>>>,
) -> bool {
    exists|t: int, networks: Seq<Seq<Seq<NeuronModel<S>>>>, divergences: Seq<Seq<S>>|
        0 <= t < epochs * examples.len() && is_first_faulty_step(
            before[0].len(),
            before.last().len(),
            examples,
            batch,
            t,
        ) && #[trigger] is_training_run(before, examples, batch, t as nat, networks, divergences)
            && networks.last() == after
}

/// Why training is refused before it starts, if it is: the checks are made
/// in this order, and the first that fails decides.
pub open spec fn training_refusal<S>(
    network: Seq<Seq<NeuronModel<S>>>,
    examples: Seq<ExampleModel<S>>,
    batch: nat,
    epochs: nat,
) -> Option<ModelError> {
    if batch == 0 || epochs == 0 || examples.len() == 0 {
        Some(ModelError::InvalidArgument)
    } else if network.len() < 2 {
        Some(ModelError::InvalidModel)
    } else if examples[0].expected.len() != network.last().len() {
        Some(ModelError::ShapeMismatch)
    } else {
        None
    }
}

/// Some step of the run cannot be carried out.
pub open spec fn has_faulty_step<S>(
    network: Seq<Seq<NeuronModel<S>>>,
    examples: Seq<ExampleModel<S>>,
    batch: nat,
    epochs: nat,
) -> bool {
    exists|t: int|
        0 <= t < epochs * examples.len() && #[trigger] is_faulty_step(
            network[0].len(),
            network.last().len(),
            examples,
            batch,
            t,
        )
}

/// The error training ends with, if it does: a refusal before the start,
/// or a shape mismatch at the first step that cannot be carried out.
pub open spec fn training_fault<S>(
    network: Seq<Seq<NeuronModel<S>>>,
    examples: Seq<ExampleModel<S>>,
    batch: nat,
    epochs: nat,
) -> Option<ModelError> {
    if training_refusal(network, examples, batch, epochs) is Some {
        training_refusal(network, examples, batch, epochs)
    } else if has_faulty_step(network, examples, batch, epochs) {
        Some(ModelError::ShapeMismatch)
    } else {
        None
    }
}

/// In epoch `epoch`, the step at position `k` of the set uses example `k`.
pub proof fn lemma_step_example(epoch: int, n: int, k: int)
    requires
        0 <= epoch,
        0 <= k < n,
    ensures
        (epoch * n + k) % n == k,
{
    lemma_mod_multiples_vanish(epoch, k, n);
    lemma_small_mod(k as nat, n as nat);
    assert(n * epoch == epoch * n) by (nonlinear_arith);
}

/// Where the step after `t` stands in its batch: a batch that holds
/// `t mod batch` vectors before step `t` is complete after it exactly when
/// one more fills it.
pub proof fn lemma_batch_position(t: int, batch: int)
    requires
        0 <= t,
        0 < batch,
    ensures
        0 <= t % batch < batch,
        t % batch <= t,
        t % batch + 1 == batch ==> (t + 1) % batch == 0,
        t % batch + 1 < batch ==> (t + 1) % batch == t % batch + 1,
{
    lemma_mod_pos_bound(t, batch);
    lemma_mod_decreases(t as nat, batch as nat);
    lemma_add_mod_noop(t, 1, batch);
    if batch == 1 {
        lemma_mod_self_0(1);
    } else {
        lemma_small_mod(1, batch as nat);
        if t % batch + 1 == batch {
            lemma_mod_self_0(batch);
        } else {
            lemma_small_mod((t % batch + 1) as nat, batch as nat);
        }
    }
}

/// A step that completes a batch has at least `batch - 1` steps before it.
pub proof fn lemma_complete_batch_fits(t: int, batch: int)
    requires
        0 <= t,
        0 < batch,
        (t + 1) % batch == 0,
    ensures
        t + 1 - batch >= 0,
{
    lemma_mod_is_zero((t + 1) as nat, batch as nat);
}

/// A run grows by one step: if step `t` holds of the run's record with one
/// more network and one more divergence appended, the longer record is a
/// run of `t + 1` steps.
pub proof fn lemma_run_extends<S: Scalar>(
    before: Seq<Seq<NeuronModel<S>>>,
    examples: Seq<ExampleModel<S>>,
    batch: nat,
    t: nat,
    networks: Seq<Seq<Seq<NeuronModel<S>>>>,
    divergences: Seq<Seq<S>>,
    next: Seq<Seq<NeuronModel<S>>>,
    measured: Seq<S>,
)
    requires
        batch > 0,
        is_training_run(before, examples, batch, t, networks, divergences),
        is_training_step(examples, batch, t as int, networks.push(next), divergences.push(measured)),
    ensures
        is_training_run(
            before,
            examples,
            batch,
            t + 1,
            networks.push(next),
            divergences.push(measured),
        ),
{
    let longer = networks.push(next);
    let more = divergences.push(measured);
    assert forall|s: int| 0 <= s < t + 1 implies #[trigger] is_training_step(
        examples,
        batch,
        s,
        longer,
        more,
    ) by {
        if s < t {
            assert(is_training_step(examples, batch, s, networks, divergences));
            assert(longer[s] == networks[s]);
            assert(longer[s + 1] == networks[s + 1]);
            assert(more[s] == divergences[s]);
            if (s + 1) % (batch as int) == 0 {
                lemma_complete_batch_fits(s, batch as int);
                assert(more.subrange(s + 1 - batch, s + 1) =~= divergences.subrange(
                    s + 1 - batch,
                    s + 1,
                ));
            }
        }
    }
}

/// A run whose first faulty step is step `t` ends there with a shape
/// mismatch, and leaves the network as the `t` steps before made it.
pub proof fn lemma_run_interrupted<S: Scalar>(
    before: Seq<Seq<NeuronModel<S>>>,
    examples: Seq<ExampleModel<S>>,
    batch: nat,
    epochs: nat,
    t: int,
    networks: Seq<Seq<Seq<NeuronModel<S>>>>,
    divergences: Seq<Seq<S>>,
)
    requires
        training_refusal(before, examples, batch, epochs) is None,
        0 <= t < epochs * examples.len(),
        is_first_faulty_step(before[0].len(), before.last().len(), examples, batch, t),
        is_training_run(before, examples, batch, t as nat, networks, divergences),
    ensures
        training_fault(before, examples, batch, epochs) == Some(ModelError::ShapeMismatch),
        is_interrupted(before, examples, batch, epochs, networks.last()),
{
    assert(is_faulty_step(before[0].len(), before.last().len(), examples, batch, t));
    assert(0 <= t < epochs * examples.len() && is_first_faulty_step(
        before[0].len(),
        before.last().len(),
        examples,
        batch,
        t,
    ) && is_training_run(before, examples, batch, t as nat, networks, divergences)
        && networks.last() == networks.last());
}

/// The batch that step `t` completes has vectors of one length exactly
/// when it is not ragged.
pub proof fn lemma_batch_uniformity<S>(
    out_width: nat,
    examples: Seq<ExampleModel<S>>,
    batch: nat,
    t: int,
    divergences: Seq<Seq<S>>,
)
    requires
        batch > 0,
        0 <= t,
        (t + 1) % (batch as int) == 0,
        divergences.len() == t + 1,
        forall|s: int|
            0 <= s <= t ==> (#[trigger] divergences[s]).len() == divergence_len(
                out_width,
                examples,
                s,
            ),
    ensures
        is_uniform(divergences.subrange(t + 1 - batch, t + 1)) <==> !is_ragged_batch(
            out_width,
            examples,
            batch,
            t,
        ),
{
    lemma_complete_batch_fits(t, batch as int);
    let first = t + 1 - batch;
    let group = divergences.subrange(first, t + 1);
    if is_ragged_batch(out_width, examples, batch, t) {
        let s = choose|s: int|
            first <= s <= t && #[trigger] divergence_len(out_width, examples, s) != divergence_len(
                out_width,
                examples,
                first,
            );
        assert(group[s - first] == divergences[s]);
        assert(group[0] == divergences[first]);
        assert(group[s - first].len() != group[0].len());
    } else {
        assert forall|b: int| 0 <= b < group.len() implies (#[trigger] group[b]).len()
            == group[0].len() by {
            assert(group[b] == divergences[first + b]);
            assert(group[0] == divergences[first]);
            assert(divergence_len(out_width, examples, first + b) == divergence_len(
                out_width,
                examples,
                first,
            ));
        }
    }
}

/// The difference of two vectors, position by position, over the positions
/// both have.
pub fn divergence<S: Scalar>(prediction: &Vec<S>, expected: &Vec<S>) -> (divergence: Vec<S>)
    ensures
        is_divergence(prediction@, expected@, divergence@),
{
    let length = if prediction.len() <= expected.len() {
        prediction.len()
    } else {
        expected.len()
    };
    let mut divergence: Vec<S> = Vec::new();
    let mut k: usize = 0;
    while k < length
        invariant
            k <= length,
            length == shorter(prediction@.len(), expected@.len()),
            divergence.len() == k,
            forall|q: int|
                0 <= q < k ==> is_difference(prediction@[q], expected@[q], #[trigger] divergence@[q]),
        decreases length - k,
    {
        divergence.push(prediction[k].minus(expected[k]));
        k += 1;
    }
    divergence
}

} // verus!
