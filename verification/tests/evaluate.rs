use feedforward::error::ModelError;
use feedforward::model::Model;
use feedforward::scalar::{sigmoid, Sampler, Scalar};

#[derive(Clone, Copy, Debug, PartialEq)]
struct Real(f64);

impl Scalar for Real {
    fn from_i32(value: i32) -> Self {
        Real(f64::from(value))
    }

    fn from_usize(value: usize) -> Self {
        Real(value as f64)
    }

    fn plus(self, rhs: Self) -> Self {
        Real(self.0 + rhs.0)
    }

    fn minus(self, rhs: Self) -> Self {
        Real(self.0 - rhs.0)
    }

    fn times(self, rhs: Self) -> Self {
        Real(self.0 * rhs.0)
    }

    fn over(self, rhs: Self) -> Self {
        Real(self.0 / rhs.0)
    }

    fn exp(self) -> Self {
        Real(self.0.exp())
    }
}

/// Hands out the given values in order, starting over when they run out.
struct Replay {
    values: Vec<f64>,
    drawn: usize,
}

impl Replay {
    fn new(values: &[f64]) -> Self {
        Replay { values: values.to_vec(), drawn: 0 }
    }
}

impl Sampler<Real> for Replay {
    fn sample(&mut self) -> Real {
        let value = self.values[self.drawn % self.values.len()];
        self.drawn += 1;
        Real(value)
    }
}

fn reals(values: &[f64]) -> Vec<Real> {
    values.iter().map(|value| Real(*value)).collect()
}

fn weights(model: &Model<Real>) -> Vec<Vec<Vec<f64>>> {
    model
        .layers()
        .iter()
        .map(|layer| {
            layer
                .iter()
                .map(|neuron| neuron.previous_weights().iter().map(|w| w.0).collect())
                .collect()
        })
        .collect()
}

fn network(widths: &[u64], values: &[f64]) -> Model<Real> {
    let mut sampler = Replay::new(values);
    let mut model = Model::new();
    for width in widths {
        model.add_layer(*width, &mut sampler);
    }
    model
}

#[test]
fn new_model_has_no_layers() {
    let model: Model<Real> = Model::new();
    assert!(model.layers().is_empty());
}

#[test]
fn default_model_has_no_layers() {
    let model: Model<Real> = Model::default();
    assert!(model.layers().is_empty());
}

#[test]
fn add_layer_stores_the_layer() {
    let model = network(&[3, 2], &[0.5]);
    assert_eq!(model.layers().len(), 2);
    assert_eq!(model.layers()[0].len(), 3);
    assert_eq!(model.layers()[1].len(), 2);
}

#[test]
fn add_layer_gives_first_layer_no_weights() {
    let mut sampler = Replay::new(&[0.5]);
    let mut model: Model<Real> = Model::new();
    model.add_layer(4, &mut sampler);
    assert_eq!(sampler.drawn, 0);
    for neuron in &model.layers()[0] {
        assert!(neuron.previous_weights().is_empty());
    }
}

#[test]
fn add_layer_wires_each_neuron_to_the_previous_layer() {
    let model = network(&[3, 2, 4], &[0.5]);
    for neuron in &model.layers()[1] {
        assert_eq!(neuron.previous_weights().len(), 3);
    }
    for neuron in &model.layers()[2] {
        assert_eq!(neuron.previous_weights().len(), 2);
    }
}

#[test]
fn add_layer_sets_every_bias_to_minus_ten() {
    let model = network(&[2, 3], &[0.5]);
    for layer in model.layers() {
        for neuron in layer {
            assert_eq!(neuron.bias(), Real(-10.0));
        }
    }
}

#[test]
fn add_layer_draws_weights_neuron_by_neuron() {
    let model = network(&[2, 3], &[0.1, 0.2, 0.3, 0.4, 0.5, 0.6]);
    assert_eq!(
        weights(&model),
        vec![
            vec![vec![], vec![]],
            vec![vec![0.1, 0.2], vec![0.3, 0.4], vec![0.5, 0.6]],
        ]
    );
}

#[test]
fn add_layer_of_width_zero_is_stored() {
    let model = network(&[2, 0, 3], &[0.5]);
    assert_eq!(model.layers().len(), 3);
    assert!(model.layers()[1].is_empty());
    for neuron in &model.layers()[2] {
        assert!(neuron.previous_weights().is_empty());
    }
}

#[test]
fn evaluate_rejects_a_model_without_layers() {
    let model: Model<Real> = Model::new();
    assert_eq!(model.evaluate(&reals(&[])), Err(ModelError::InvalidModel));
}

#[test]
fn evaluate_rejects_a_model_with_one_layer() {
    let model = network(&[2], &[0.5]);
    assert_eq!(model.evaluate(&reals(&[0.0, 0.0])), Err(ModelError::InvalidModel));
}

#[test]
fn evaluate_rejects_an_input_of_the_wrong_length() {
    let model = network(&[2, 1], &[0.5]);
    assert_eq!(model.evaluate(&reals(&[0.0])), Err(ModelError::ShapeMismatch));
    assert_eq!(model.evaluate(&reals(&[0.0, 0.0, 0.0])), Err(ModelError::ShapeMismatch));
    assert_eq!(model.evaluate(&reals(&[])), Err(ModelError::ShapeMismatch));
}

#[test]
fn evaluate_checks_the_layers_before_the_input() {
    let model = network(&[2], &[0.5]);
    assert_eq!(model.evaluate(&reals(&[0.0])), Err(ModelError::InvalidModel));
}

#[test]
fn evaluate_two_inputs_one_output_with_zero_weights() {
    let model = network(&[2, 1], &[0.0]);
    let out = model.evaluate(&reals(&[0.0, 0.0])).unwrap();
    assert_eq!(out, vec![sigmoid(Real(10.0))]);
    assert!((out[0].0 - 0.9999546).abs() < 1e-7);
}

#[test]
fn evaluate_output_is_as_long_as_the_last_layer() {
    for widths in [vec![3, 4, 2], vec![1, 1], vec![2, 5], vec![4, 0, 3], vec![2, 3, 0]] {
        let model = network(&widths, &[0.25, 0.5]);
        let input = vec![Real(0.5); widths[0] as usize];
        let out = model.evaluate(&input).unwrap();
        assert_eq!(out.len() as u64, *widths.last().unwrap());
    }
}

#[test]
fn evaluate_feeds_each_layer_the_output_of_the_one_before() {
    let model = network(&[2, 2, 1], &[0.5, 0.25, -0.5, 1.0, 2.0, -1.0]);
    let input = [3.0_f64, 4.0];
    let unit = |bias: f64, w: [f64; 2], x: [f64; 2]| {
        1.0 / (1.0 + (bias + w[0] * x[0] + w[1] * x[1]).exp())
    };
    let hidden = [unit(-10.0, [0.5, 0.25], input), unit(-10.0, [-0.5, 1.0], input)];
    let expected = unit(-10.0, [2.0, -1.0], hidden);
    assert_eq!(model.evaluate(&reals(&input)).unwrap(), vec![Real(expected)]);
}

#[test]
fn evaluate_twice_gives_the_same_bits() {
    let model = network(&[3, 4, 2], &[0.1, 0.7, 0.3, 0.9, 0.5]);
    let input = reals(&[0.25, 8.0, -1.5]);
    let first = model.evaluate(&input).unwrap();
    let second = model.evaluate(&input).unwrap();
    assert_eq!(first.len(), second.len());
    for (a, b) in first.iter().zip(&second) {
        assert_eq!(a.0.to_bits(), b.0.to_bits());
    }
}

#[test]
fn evaluate_twice_with_zero_weights_gives_the_same_bits() {
    let model = network(&[2, 3, 2], &[0.0]);
    let input = reals(&[1.0, 2.0]);
    let first = model.evaluate(&input).unwrap();
    let second = model.evaluate(&input).unwrap();
    assert_eq!(first, vec![sigmoid(Real(10.0)); 2]);
    for (a, b) in first.iter().zip(&second) {
        assert_eq!(a.0.to_bits(), b.0.to_bits());
    }
}

#[test]
fn evaluate_changes_neither_the_model_nor_the_input() {
    let model = network(&[2, 2, 1], &[0.5, 0.25, -0.5, 1.0, 2.0, -1.0]);
    let before = weights(&model);
    let input = reals(&[3.0, 4.0]);
    model.evaluate(&input).unwrap();
    assert_eq!(weights(&model), before);
    assert_eq!(input, reals(&[3.0, 4.0]));
}

#[test]
fn add_layer_draws_one_value_per_weight() {
    let mut sampler = Replay::new(&[0.1, 0.2, 0.3]);
    let mut model: Model<Real> = Model::new();
    model.add_layer(3, &mut sampler);
    assert_eq!(sampler.drawn, 0);
    model.add_layer(4, &mut sampler);
    assert_eq!(sampler.drawn, 12);
    model.add_layer(2, &mut sampler);
    assert_eq!(sampler.drawn, 20);
    model.add_layer(0, &mut sampler);
    assert_eq!(sampler.drawn, 20);
}

#[test]
fn add_layer_with_a_constant_sampler_gives_every_weight_that_value() {
    let model = network(&[2, 1], &[0.0]);
    assert_eq!(weights(&model), vec![vec![vec![], vec![]], vec![vec![0.0, 0.0]]]);
    assert_eq!(model.layers()[1][0].bias(), Real(-10.0));
}
