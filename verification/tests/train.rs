use feedforward::error::ModelError;
use feedforward::model::Model;
use feedforward::scalar::{Sampler, Scalar};
use feedforward::training::divergence;
use feedforward::TrainingData;

#[derive(Clone, Copy, Debug, PartialEq)]
struct Real(f64);

impl Scalar for Real {
    fn from_i32(value: i32) -> Self {
        Real(f64::from(value))
    }

    fn from_usize(value: usize) -> Self {
        Real(value as f64)
    }

    fn plus(self, rhs: Self) -> Self {
        Real(self.0 + rhs.0)
    }

    fn minus(self, rhs: Self) -> Self {
        Real(self.0 - rhs.0)
    }

    fn times(self, rhs: Self) -> Self {
        Real(self.0 * rhs.0)
    }

    fn over(self, rhs: Self) -> Self {
        Real(self.0 / rhs.0)
    }

    fn exp(self) -> Self {
        Real(self.0.exp())
    }
}

/// Hands out the given values in order, starting over when they run out.
struct Replay {
    values: Vec<f64>,
    drawn: usize,
}

impl Replay {
    fn new(values: &[f64]) -> Self {
        Replay { values: values.to_vec(), drawn: 0 }
    }
}

impl Sampler<Real> for Replay {
    fn sample(&mut self) -> Real {
        let value = self.values[self.drawn % self.values.len()];
        self.drawn += 1;
        Real(value)
    }
}

fn reals(values: &[f64]) -> Vec<Real> {
    values.iter().map(|value| Real(*value)).collect()
}

fn weights(model: &Model<Real>) -> Vec<Vec<Vec<f64>>> {
    model
        .layers()
        .iter()
        .map(|layer| {
            layer
                .iter()
                .map(|neuron| neuron.previous_weights().iter().map(|w| w.0).collect())
                .collect()
        })
        .collect()
}

fn network(widths: &[u64], values: &[f64]) -> Model<Real> {
    let mut sampler = Replay::new(values);
    let mut model = Model::new();
    for width in widths {
        model.add_layer(*width, &mut sampler);
    }
    model
}

const WEIGHTS: [f64; 6] = [0.5, 0.25, -0.5, 1.0, 2.0, -1.0];

fn example(data: &[f64], expected: &[f64]) -> TrainingData<Real> {
    TrainingData::new(reals(data), reals(expected))
}

fn examples() -> Vec<TrainingData<Real>> {
    vec![
        example(&[3.0, 4.0], &[0.5]),
        example(&[-1.0, 2.0], &[0.25]),
        example(&[0.5, 0.5], &[1.0]),
    ]
}

/// Measures the divergence of `model` on example `k` of `examples()`.
fn measure(model: &Model<Real>, k: usize) -> Vec<Real> {
    let set = examples();
    let prediction = model.evaluate(set[k].data()).unwrap();
    divergence(&prediction, set[k].expected())
}

#[test]
fn training_data_keeps_input_and_expected_output() {
    let example = example(&[1.0, 2.0], &[3.0]);
    assert_eq!(example.data(), &reals(&[1.0, 2.0]));
    assert_eq!(example.expected(), &reals(&[3.0]));
}

#[test]
fn divergence_is_prediction_minus_expected() {
    assert_eq!(
        divergence(&reals(&[1.0, 0.5, -2.0]), &reals(&[0.25, 0.5, 1.0])),
        reals(&[0.75, 0.0, -3.0])
    );
}

#[test]
fn divergence_stops_at_the_shorter_vector() {
    assert_eq!(divergence(&reals(&[1.0, 0.5]), &reals(&[0.25])), reals(&[0.75]));
    assert_eq!(divergence(&reals(&[1.0]), &reals(&[0.25, 8.0])), reals(&[0.75]));
    assert_eq!(divergence(&reals(&[]), &reals(&[0.25])), reals(&[]));
}

#[test]
fn train_rejects_a_batch_size_of_zero() {
    let mut model = network(&[2, 2, 1], &WEIGHTS);
    assert_eq!(model.train(examples(), 0, 1), Err(ModelError::InvalidArgument));
}

#[test]
fn train_rejects_zero_epochs() {
    let mut model = network(&[2, 2, 1], &WEIGHTS);
    assert_eq!(model.train(examples(), 1, 0), Err(ModelError::InvalidArgument));
}

#[test]
fn train_rejects_an_empty_training_set() {
    let mut model = network(&[2, 2, 1], &WEIGHTS);
    assert_eq!(model.train(Vec::new(), 1, 1), Err(ModelError::InvalidArgument));
}

#[test]
fn train_rejects_a_model_with_fewer_than_two_layers() {
    let mut model = network(&[2], &WEIGHTS);
    assert_eq!(model.train(examples(), 1, 1), Err(ModelError::InvalidModel));
    let mut model: Model<Real> = Model::new();
    assert_eq!(model.train(examples(), 1, 1), Err(ModelError::InvalidModel));
}

#[test]
fn train_rejects_a_first_example_whose_expected_output_has_the_wrong_length() {
    let mut model = network(&[2, 2, 1], &WEIGHTS);
    let set = vec![example(&[3.0, 4.0], &[0.5, 0.5]), example(&[-1.0, 2.0], &[0.25])];
    assert_eq!(model.train(set, 1, 1), Err(ModelError::ShapeMismatch));
    let set = vec![example(&[3.0, 4.0], &[])];
    assert_eq!(model.train(set, 1, 1), Err(ModelError::ShapeMismatch));
}

#[test]
fn train_checks_its_arguments_before_the_model_and_the_model_before_the_shapes() {
    let mut model = network(&[2], &WEIGHTS);
    let set = vec![example(&[3.0, 4.0], &[0.5, 0.5])];
    assert_eq!(model.train(set, 0, 1), Err(ModelError::InvalidArgument));
    let set = vec![example(&[3.0, 4.0], &[0.5, 0.5, 0.5])];
    assert_eq!(model.train(set, 1, 1), Err(ModelError::InvalidModel));
}

#[test]
fn train_changes_nothing_when_it_refuses_to_start() {
    let mut model = network(&[2, 2, 1], &WEIGHTS);
    let before = weights(&model);
    assert!(model.train(examples(), 0, 1).is_err());
    assert!(model.train(examples(), 1, 0).is_err());
    assert!(model.train(Vec::new(), 1, 1).is_err());
    assert!(model.train(vec![example(&[3.0, 4.0], &[0.5, 0.5])], 1, 1).is_err());
    assert_eq!(weights(&model), before);
}

#[test]
fn train_fits_after_every_example_when_the_batch_size_is_one() {
    let mut trained = network(&[2, 2, 1], &WEIGHTS);
    trained.train(examples(), 1, 1).unwrap();

    let mut stepped = network(&[2, 2, 1], &WEIGHTS);
    for k in 0..3 {
        let measured = measure(&stepped, k);
        stepped.fit(&vec![measured]).unwrap();
    }
    assert_eq!(weights(&trained), weights(&stepped));
    assert_ne!(weights(&trained), weights(&network(&[2, 2, 1], &WEIGHTS)));
}

#[test]
fn train_fits_once_per_full_batch_and_drops_a_short_last_batch() {
    let mut trained = network(&[2, 2, 1], &WEIGHTS);
    trained.train(examples(), 2, 1).unwrap();

    let mut stepped = network(&[2, 2, 1], &WEIGHTS);
    let batch = vec![measure(&stepped, 0), measure(&stepped, 1)];
    stepped.fit(&batch).unwrap();
    assert_eq!(weights(&trained), weights(&stepped));
}

#[test]
fn train_lets_a_batch_run_across_epochs() {
    let mut trained = network(&[2, 2, 1], &WEIGHTS);
    trained.train(examples(), 2, 2).unwrap();

    let mut stepped = network(&[2, 2, 1], &WEIGHTS);
    for pair in [[0, 1], [2, 0], [1, 2]] {
        let batch = vec![measure(&stepped, pair[0]), measure(&stepped, pair[1])];
        stepped.fit(&batch).unwrap();
    }
    assert_eq!(weights(&trained), weights(&stepped));
}

#[test]
fn train_never_fits_when_the_batch_is_never_filled() {
    let mut model = network(&[2, 2, 1], &WEIGHTS);
    let before = weights(&model);
    assert_eq!(model.train(examples(), 7, 2), Ok(()));
    assert_eq!(weights(&model), before);
}

#[test]
fn train_with_single_example_batch_scales_the_output_weights() {
    let mut model = network(&[2, 1], &[0.5, -0.25]);
    let before = network(&[2, 1], &[0.5, -0.25]);
    let set = vec![example(&[3.0, 4.0], &[0.5])];
    let d = before.evaluate(set[0].data()).unwrap()[0].0 - 0.5;
    model.train(set, 1, 1).unwrap();
    assert_eq!(
        weights(&model),
        vec![vec![vec![], vec![]], vec![vec![0.5 + d * 0.5, -0.25 + d * -0.25]]]
    );
}

#[test]
fn train_rejects_an_input_of_the_wrong_length_when_it_reaches_it() {
    let mut model = network(&[2, 2, 1], &WEIGHTS);
    let set = vec![example(&[3.0, 4.0], &[0.5]), example(&[-1.0], &[0.25])];
    assert_eq!(model.train(set, 1, 1), Err(ModelError::ShapeMismatch));

    let mut stepped = network(&[2, 2, 1], &WEIGHTS);
    let measured = measure(&stepped, 0);
    stepped.fit(&vec![measured]).unwrap();
    assert_eq!(weights(&model), weights(&stepped));
}

#[test]
fn train_rejects_a_batch_of_divergences_of_different_lengths() {
    let mut model = network(&[2, 2, 1], &WEIGHTS);
    let before = weights(&model);
    let set = vec![example(&[3.0, 4.0], &[0.5]), example(&[-1.0, 2.0], &[])];
    assert_eq!(model.train(set, 2, 1), Err(ModelError::ShapeMismatch));
    assert_eq!(weights(&model), before);
}

#[test]
fn train_accepts_a_short_expected_output_in_a_batch_that_is_never_filled() {
    let mut model = network(&[2, 2, 1], &WEIGHTS);
    let set = vec![example(&[3.0, 4.0], &[0.5]), example(&[-1.0, 2.0], &[])];
    assert_eq!(model.train(set, 3, 1), Ok(()));
}

#[test]
fn train_ignores_what_a_later_expected_output_has_beyond_the_last_layer() {
    let mut trained = network(&[2, 2, 1], &WEIGHTS);
    let set = vec![example(&[3.0, 4.0], &[0.5]), example(&[-1.0, 2.0], &[0.25, 9.0])];
    assert_eq!(trained.train(set, 2, 1), Ok(()));

    let mut stepped = network(&[2, 2, 1], &WEIGHTS);
    let batch = vec![measure(&stepped, 0), measure(&stepped, 1)];
    stepped.fit(&batch).unwrap();
    assert_eq!(weights(&trained), weights(&stepped));
}

#[test]
fn train_keeps_the_shape_and_the_biases() {
    let mut model = network(&[2, 2, 1], &WEIGHTS);
    model.train(examples(), 2, 3).unwrap();
    assert_eq!(model.layers().len(), 3);
    assert_eq!(model.layers()[0].len(), 2);
    assert_eq!(model.layers()[1].len(), 2);
    assert_eq!(model.layers()[2].len(), 1);
    for layer in model.layers() {
        for neuron in layer {
            assert_eq!(neuron.bias(), Real(-10.0));
        }
    }
    for neuron in &model.layers()[0] {
        assert!(neuron.previous_weights().is_empty());
    }
}

#[test]
fn train_leaves_a_network_without_outputs_as_it_is() {
    let mut model = network(&[2, 2, 0], &WEIGHTS);
    let before = weights(&model);
    let set = vec![example(&[3.0, 4.0], &[]), example(&[-1.0, 2.0], &[])];
    assert_eq!(model.train(set, 1, 2), Ok(()));
    assert_eq!(weights(&model), before);
}
