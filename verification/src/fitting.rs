//! Fitting: how a batch of divergences becomes offsets, and how offsets
//! are pushed back through the layers.

use crate::model::{layer_view, well_shaped};
use crate::neuron::{is_adjusted, Neuron, NeuronModel};
use crate::scalar::{is_difference, is_mean, mean, Scalar};
use vstd::prelude::*;

verus! {

/// A list of vectors as a mathematical value.
pub open spec fn rows<S>(vectors: Seq<Vec<S>>) -> Seq<Seq<S>> {
    Seq::new(vectors.len(), |b: int| vectors[b]@)
}

/// Entry `k` of every vector of `batch`, in batch order.
pub open spec fn column<S>(batch: Seq<Seq<S>>, k: int) -> Seq<S> {
    Seq::new(batch.len(), |b: int| batch[b][k])
}

/// Every vector of `batch` is as long as the first.
pub open spec fn is_uniform<S>(batch: Seq<Seq<S>>) -> bool {
    forall|b: int| 0 <= b < batch.len() ==> (#[trigger] batch[b]).len() == batch[0].len()
}

/// `offsets[k]` is the mean of entry `k` over the vectors of `batch`, for
/// every position `k` of the first vector.
pub open spec fn is_batch_mean<S: Scalar>(batch: Seq<Seq<S>>, offsets: Seq<S>) -> bool {
    &&& offsets.len() == batch[0].len()
    &&& forall|k: int| 0 <= k < offsets.len() ==> is_mean(column(batch, k), #[trigger] offsets[k])
}

/// The weight vectors of the neurons of `layer`, in order.
pub open spec fn weights_of<S>(layer: Seq<NeuronModel<S>>) -> Seq<Seq<S>> {
    Seq::new(layer.len(), |j: int| layer[j].weights)
}

/// How many neurons of a layer an offset vector reaches: neuron `j` is
/// adjusted by `offsets[j]`, so neurons beyond the offsets are left alone
/// and offsets beyond the layer are not used.
pub open spec fn adjusted_count(layer_width: nat, offsets_len: nat) -> nat {
    if offsets_len <= layer_width {
        offsets_len
    } else {
        layer_width
    }
}

/// How many offsets a layer hands to the layer before it: one per weight
/// position, that is one per neuron of the layer before. A layer of which
/// no neuron was adjusted has no weight change to average and hands on no
/// offsets, so that every layer before it is left as it is.
pub open spec fn offsets_width(adjusted: nat, previous_width: nat) -> nat {
    if adjusted == 0 {
        0
    } else {
        previous_width
    }
}

/// `after` is the layer `before` once neuron `j` has been adjusted by
/// `offsets[j]`, for every `j` that both have; the other neurons are as
/// they were.
pub open spec fn is_layer_adjusted<S: Scalar>(
    before: Seq<NeuronModel<S>>,
    offsets: Seq<S>,
    after: Seq<NeuronModel<S>>,
) -> bool {
    &&& after.len() == before.len()
    &&& forall|j: int|
        0 <= j < before.len() ==> if j < offsets.len() {
            is_adjusted(before[j], offsets[j], #[trigger] after[j])
        } else {
            after[j] == before[j]
        }
}

/// `changes[j]` is `old_weights[j][p] - new_weights[j][p]` for each of the
/// first `count` neurons.
pub open spec fn is_weight_change<S: Scalar>(
    old_weights: Seq<Seq<S>>,
    new_weights: Seq<Seq<S>>,
    count: nat,
    p: int,
    changes: Seq<S>,
) -> bool {
    &&& changes.len() == count
    &&& forall|j: int|
        0 <= j < count ==> is_difference(old_weights[j][p], new_weights[j][p], #[trigger] changes[j])
}

/// `r` is the mean, over the first `count` neurons, of how far the weight
/// at position `p` moved: old weight minus new weight.
pub open spec fn is_mean_weight_change<S: Scalar>(
    old_weights: Seq<Seq<S>>,
    new_weights: Seq<Seq<S>>,
    count: nat,
    p: int,
    r: S,
) -> bool {
    exists|changes: Seq<S>| #[trigger]
        is_weight_change(old_weights, new_weights, count, p, changes) && is_mean(changes, r)
}

/// `next[p]` is the mean weight change at position `p`, for each of the
/// `width` weight positions.
pub open spec fn is_next_offsets<S: Scalar>(
    old_weights: Seq<Seq<S>>,
    new_weights: Seq<Seq<S>>,
    count: nat,
    width: nat,
    next: Seq<S>,
) -> bool {
    &&& next.len() == width
    &&& forall|p: int|
        0 <= p < width ==> is_mean_weight_change(
            old_weights,
            new_weights,
            count,
            p,
            #[trigger] next[p],
        )
}

/// `after` is `before` once the offsets have been pushed back through it,
/// `offsets[i]` being the offsets that reached layer `i`.
///
/// The last layer is reached by `offsets.last()`. Each layer from the last
/// down to layer 1 is adjusted by the offsets that reach it, and the mean
/// weight change of its adjusted neurons becomes the offsets that reach
/// the layer before. Where the offsets reach no neuron of a layer, no
/// offsets reach the layer before, and so none of the layers before it is
/// changed. Layer 0 is never changed.
pub open spec fn is_backward_pass<S: Scalar>(
    before: Seq<Seq<NeuronModel<S>>>,
    offsets: Seq<Seq<S>>,
    after: Seq<Seq<NeuronModel<S>>>,
) -> bool {
    &&& after.len() == before.len()
    &&& offsets.len() == before.len()
    &&& before.len() > 0 ==> after[0] == before[0]
    &&& forall|i: int|
        1 <= i < before.len() ==> is_layer_adjusted(before[i], offsets[i], #[trigger] after[i])
            && is_next_offsets(
            weights_of(before[i]),
            weights_of(after[i]),
            adjusted_count(before[i].len(), offsets[i].len()),
            offsets_width(adjusted_count(before[i].len(), offsets[i].len()), before[i - 1].len()),
            offsets[i - 1],
        )
}

/// `after` is `before` fitted to `batch`: the per-position means of the
/// batch reach the last layer and are pushed back through the network. A
/// network of fewer than two layers is left as it is.
pub open spec fn is_fitted<S: Scalar>(
    before: Seq<Seq<NeuronModel<S>>>,
    batch: Seq<Seq<S>>,
    after: Seq<Seq<NeuronModel<S>>>,
) -> bool {
    exists|offsets: Seq<Seq<S>>| #[trigger]
        is_backward_pass(before, offsets, after) && (before.len() >= 2 ==> is_batch_mean(
            batch,
            offsets.last(),
        ))
}

/// `after` differs from `before` at most in the values of weights: it has
/// the same layers, neurons and biases, as many weights in every neuron,
/// and the same layer 0.
pub open spec fn is_reweighting<S>(
    before: Seq<Seq<NeuronModel<S>>>,
    after: Seq<Seq<NeuronModel<S>>>,
) -> bool {
    &&& after.len() == before.len()
    &&& before.len() > 0 ==> after[0] == before[0]
    &&& forall|i: int| 0 <= i < before.len() ==> (#[trigger] after[i]).len() == before[i].len()
    &&& forall|i: int, j: int|
        0 <= i < before.len() && 0 <= j < before[i].len() ==> (#[trigger] after[i][j]).bias
            == before[i][j].bias && after[i][j].weights.len() == before[i][j].weights.len()
}

/// Reweighting twice is reweighting.
pub proof fn lemma_reweighting_composes<S>(
    a: Seq<Seq<NeuronModel<S>>>,
    b: Seq<Seq<NeuronModel<S>>>,
    c: Seq<Seq<NeuronModel<S>>>,
)
    requires
        is_reweighting(a, b),
        is_reweighting(b, c),
    ensures
        is_reweighting(a, c),
{
    assert forall|i: int| 0 <= i < a.len() implies (#[trigger] c[i]).len() == a[i].len() by {
        assert(b[i].len() == a[i].len());
    }
    assert forall|i: int, j: int| 0 <= i < a.len() && 0 <= j < a[i].len() implies (
    #[trigger] c[i][j]).bias == a[i][j].bias && c[i][j].weights.len()
        == a[i][j].weights.len() by {
        assert(b[i].len() == a[i].len());
        assert(b[i][j].bias == a[i][j].bias);
    }
}

/// A reweighting of a well-shaped network is well shaped.
pub proof fn lemma_reweighting_keeps_shape<S>(
    before: Seq<Seq<NeuronModel<S>>>,
    after: Seq<Seq<NeuronModel<S>>>,
)
    requires
        is_reweighting(before, after),
        well_shaped(before),
    ensures
        well_shaped(after),
{
    assert forall|i: int, j: int|
        0 <= i < after.len() && 0 <= j < after[i].len() implies (#[trigger] after[i][j]).weights.len()
        == (if i == 0 {
        0
    } else {
        after[i - 1].len()
    }) by {
        assert(after[i].len() == before[i].len());
        assert(before[i][j].weights.len() == (if i == 0 {
            0
        } else {
            before[i - 1].len()
        }));
        if i > 0 {
            assert(after[i - 1].len() == before[i - 1].len());
        }
    }
}

/// Pushing offsets back through a network changes the values of weights
/// and nothing else.
pub proof fn lemma_backward_pass_reweights<S: Scalar>(
    before: Seq<Seq<NeuronModel<S>>>,
    offsets: Seq<Seq<S>>,
    after: Seq<Seq<NeuronModel<S>>>,
)
    requires
        is_backward_pass(before, offsets, after),
    ensures
        is_reweighting(before, after),
{
    assert forall|i: int| 0 <= i < before.len() implies (#[trigger] after[i]).len()
        == before[i].len() by {
        if i >= 1 {
            assert(is_layer_adjusted(before[i], offsets[i], after[i]));
        }
    }
    assert forall|i: int, j: int| 0 <= i < before.len() && 0 <= j < before[i].len() implies (
    #[trigger] after[i][j]).bias == before[i][j].bias && after[i][j].weights.len()
        == before[i][j].weights.len() by {
        if i >= 1 {
            assert(is_layer_adjusted(before[i], offsets[i], after[i]));
            if j < offsets[i].len() {
                assert(is_adjusted(before[i][j], offsets[i][j], after[i][j]));
            }
        }
    }
}

/// Fitting changes the values of weights and nothing else.
pub proof fn lemma_fit_reweights<S: Scalar>(
    before: Seq<Seq<NeuronModel<S>>>,
    batch: Seq<Seq<S>>,
    after: Seq<Seq<NeuronModel<S>>>,
)
    requires
        is_fitted(before, batch, after),
    ensures
        is_reweighting(before, after),
{
    let offsets = choose|offsets: Seq<Seq<S>>| #[trigger]
        is_backward_pass(before, offsets, after) && (before.len() >= 2 ==> is_batch_mean(
            batch,
            offsets.last(),
        ));
    lemma_backward_pass_reweights(before, offsets, after);
}

/// A copy of `values`.
pub(crate) fn duplicate<S: Scalar>(values: &Vec<S>) -> (copy: Vec<S>)
    ensures
        copy@ == values@,
{
    let mut copy: Vec<S> = Vec::new();
    let mut i: usize = 0;
    while i < values.len()
        invariant
            i <= values.len(),
            copy@ == values@.take(i as int),
        decreases values.len() - i,
    {
        copy.push(values[i]);
        assert(values@.take(i + 1) == values@.take(i as int).push(values@[i as int]));
        i += 1;
    }
    assert(values@.take(i as int) == values@);
    copy
}

/// Whether every vector of `batch` is as long as the first.
pub(crate) fn same_lengths<S: Scalar>(batch: &Vec<Vec<S>>) -> (uniform: bool)
    requires
        batch.len() > 0,
    ensures
        uniform == is_uniform(rows(batch@)),
{
    let length = batch[0].len();
    let mut b: usize = 1;
    while b < batch.len()
        invariant
            1 <= b <= batch.len(),
            length == batch[0].len(),
            forall|c: int| 0 <= c < b ==> (#[trigger] rows(batch@)[c]).len() == length,
        decreases batch.len() - b,
    {
        if batch[b].len() != length {
            assert(rows(batch@)[b as int].len() != rows(batch@)[0].len());
            return false;
        }
        b += 1;
    }
    true
}

/// The mean of every position over the vectors of `batch`.
pub(crate) fn batch_means<S: Scalar>(batch: &Vec<Vec<S>>) -> (offsets: Vec<S>)
    requires
        batch.len() > 0,
        is_uniform(rows(batch@)),
    ensures
        is_batch_mean(rows(batch@), offsets@),
{
    let length = batch[0].len();
    let mut offsets: Vec<S> = Vec::new();
    let mut k: usize = 0;
    while k < length
        invariant
            k <= length,
            length == batch[0].len(),
            is_uniform(rows(batch@)),
            offsets.len() == k,
            forall|q: int| 0 <= q < k ==> is_mean(column(rows(batch@), q), #[trigger] offsets@[q]),
        decreases length - k,
    {
        let mut entries: Vec<S> = Vec::new();
        let mut b: usize = 0;
        while b < batch.len()
            invariant
                b <= batch.len(),
                k < length,
                length == batch[0].len(),
                is_uniform(rows(batch@)),
                entries@ == column(rows(batch@), k as int).take(b as int),
            decreases batch.len() - b,
        {
            assert(rows(batch@)[b as int].len() == length);
            entries.push(batch[b][k]);
            assert(entries@ == column(rows(batch@), k as int).take(b + 1));
            b += 1;
        }
        assert(entries@ == column(rows(batch@), k as int));
        offsets.push(mean(&entries));
        k += 1;
    }
    offsets
}

/// A copy of the weight vector of every neuron of `layer`.
pub(crate) fn snapshot_weights<S: Scalar>(layer: &Vec<Neuron<S>>) -> (weights: Vec<Vec<S>>)
    ensures
        weights.len() == layer.len(),
        rows(weights@) == weights_of(layer_view(layer@)),
{
    let mut weights: Vec<Vec<S>> = Vec::new();
    let mut j: usize = 0;
    while j < layer.len()
        invariant
            j <= layer.len(),
            weights.len() == j,
            rows(weights@) == weights_of(layer_view(layer@)).take(j as int),
        decreases layer.len() - j,
    {
        let ghost earlier = rows(weights@);
        weights.push(duplicate(layer[j].previous_weights()));
        proof {
            let grown = rows(weights@);
            let wanted = weights_of(layer_view(layer@)).take(j + 1);
            assert forall|q: int| 0 <= q < grown.len() implies grown[q] == wanted[q] by {
                if q < j {
                    assert(grown[q] == earlier[q]);
                }
            }
            assert(grown =~= wanted);
        }
        j += 1;
    }
    assert(weights_of(layer_view(layer@)).take(j as int) == weights_of(layer_view(layer@)));
    weights
}

/// Adjusts neuron `j` of `layer` by `offsets[j]`, for every `j` that both
/// have.
pub(crate) fn adjust_layer<S: Scalar>(layer: &mut Vec<Neuron<S>>, offsets: &Vec<S>)
    ensures
        is_layer_adjusted(layer_view(old(layer)@), offsets@, layer_view(final(layer)@)),
{
    let count = if offsets.len() <= layer.len() {
        offsets.len()
    } else {
        layer.len()
    };
    let mut j: usize = 0;
    while j < count
        invariant
            j <= count,
            count <= offsets.len(),
            count <= layer.len(),
            layer.len() == old(layer).len(),
            forall|q: int|
                0 <= q < j ==> is_adjusted(old(layer)@[q]@, offsets@[q], #[trigger] layer@[q]@),
            forall|q: int| j <= q < layer.len() ==> #[trigger] layer@[q] == old(layer)@[q],
        decreases count - j,
    {
        layer[j].adjust_previous_weights(offsets[j]);
        j += 1;
    }
}

/// The offsets for the layer before: for each weight position the mean,
/// over the first `count` neurons, of old weight minus current weight.
pub(crate) fn weight_changes<S: Scalar>(
    old_weights: &Vec<Vec<S>>,
    layer: &Vec<Neuron<S>>,
    count: usize,
    width: usize,
) -> (next: Vec<S>)
    requires
        count <= layer.len(),
        old_weights.len() == layer.len(),
        forall|j: int| 0 <= j < layer.len() ==> (#[trigger] old_weights@[j]).len() == width,
        forall|j: int| 0 <= j < layer.len() ==> (#[trigger] layer@[j])@.weights.len() == width,
    ensures
        is_next_offsets(
            rows(old_weights@),
            weights_of(layer_view(layer@)),
            count as nat,
            width as nat,
            next@,
        ),
{
    let mut next: Vec<S> = Vec::new();
    let mut p: usize = 0;
    while p < width
        invariant
            p <= width,
            count <= layer.len(),
            old_weights.len() == layer.len(),
            forall|j: int| 0 <= j < layer.len() ==> (#[trigger] old_weights@[j]).len() == width,
            forall|j: int| 0 <= j < layer.len() ==> (#[trigger] layer@[j])@.weights.len() == width,
            is_next_offsets(
                rows(old_weights@),
                weights_of(layer_view(layer@)),
                count as nat,
                p as nat,
                next@,
            ),
        decreases width - p,
    {
        let mut changes: Vec<S> = Vec::new();
        let mut j: usize = 0;
        while j < count
            invariant
                j <= count,
                p < width,
                count <= layer.len(),
                old_weights.len() == layer.len(),
                forall|q: int| 0 <= q < layer.len() ==> (#[trigger] old_weights@[q]).len() == width,
                forall|q: int|
                    0 <= q < layer.len() ==> (#[trigger] layer@[q])@.weights.len() == width,
                is_weight_change(
                    rows(old_weights@),
                    weights_of(layer_view(layer@)),
                    j as nat,
                    p as int,
                    changes@,
                ),
            decreases count - j,
        {
            let before = old_weights[j][p];
            let current = layer[j].previous_weights()[p];
            assert(weights_of(layer_view(layer@))[j as int][p as int] == current);
            changes.push(before.minus(current));
            j += 1;
        }
        let ghost earlier = next@;
        let average = mean(&changes);
        next.push(average);
        proof {
            assert forall|q: int| 0 <= q < p + 1 implies is_mean_weight_change(
                rows(old_weights@),
                weights_of(layer_view(layer@)),
                count as nat,
                q,
                #[trigger] next@[q],
            ) by {
                if q < p {
                    assert(next@[q] == earlier[q]);
                } else {
                    assert(is_weight_change(
                        rows(old_weights@),
                        weights_of(layer_view(layer@)),
                        count as nat,
                        q,
                        changes@,
                    ) && is_mean(changes@, next@[q]));
                }
            }
        }
        p += 1;
    }
    next
}

} // verus!
