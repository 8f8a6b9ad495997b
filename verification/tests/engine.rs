//! End-to-end tests of the matrix engine and the network, instantiated
//! with 64-bit floating-point scalars and ordinary arithmetic closures.
use std::cell::Cell;

use neural::Error;
use neural::matrix::Matrix;
use neural::network::{Activation, Arith, Network, SavedParams};

fn arith() -> Arith<f64, impl Fn(f64, f64) -> f64, impl Fn(f64, f64) -> f64, impl Fn(f64, f64) -> f64> {
    Arith {
        plus: |a: f64, b: f64| a + b,
        minus: |a: f64, b: f64| a - b,
        times: |a: f64, b: f64| a * b,
        zero: 0.0,
    }
}

fn identity_activation() -> Activation<impl Fn(f64) -> f64, impl Fn(f64) -> f64> {
    Activation { function: |x: f64| x, derivative: |_x: f64| 1.0 }
}

fn logistic_activation() -> Activation<impl Fn(f64) -> f64, impl Fn(f64) -> f64> {
    Activation {
        function: |x: f64| 1.0 / (1.0 + (-x).exp()),
        derivative: |y: f64| y * (1.0 - y),
    }
}

/// A small deterministic generator in [-1, 1), so constructions are
/// reproducible.
fn seeded_draw(seed: u64) -> impl Fn() -> f64 {
    let state = Cell::new(seed);
    move || {
        let s = state
            .get()
            .wrapping_mul(6364136223846793005)
            .wrapping_add(1442695040888963407);
        state.set(s);
        ((s >> 32) as f64) / 2147483648.0 - 1.0
    }
}

#[test]
fn transpose_row_vector() {
    let m = Matrix::from_rows(vec![vec![1.0, 2.0, 3.0]]).unwrap();
    let t = m.transpose();
    assert_eq!(t.rows, 3);
    assert_eq!(t.cols, 1);
    assert_eq!(t.data, vec![vec![1.0], vec![2.0], vec![3.0]]);
}

#[test]
fn transpose_twice_restores() {
    let m = Matrix::from_rows(vec![vec![1.0, 2.0, 3.0], vec![4.0, 5.0, 6.0]]).unwrap();
    let tt = m.transpose().transpose();
    assert_eq!(tt.rows, m.rows);
    assert_eq!(tt.cols, m.cols);
    assert_eq!(tt.data, m.data);
}

#[test]
fn multiply_concrete() {
    let ar = arith();
    let a = Matrix::from_rows(vec![vec![1.0, 2.0], vec![3.0, 4.0]]).unwrap();
    let b = Matrix::from_rows(vec![vec![5.0, 6.0], vec![7.0, 8.0]]).unwrap();
    let p = a.multiply(&b, &ar.plus, &ar.times, ar.zero).unwrap();
    assert_eq!(p.data, vec![vec![19.0, 22.0], vec![43.0, 50.0]]);
}

#[test]
fn multiply_by_identity() {
    let ar = arith();
    let a = Matrix::from_rows(vec![vec![1.5, -2.0, 3.25], vec![0.0, 4.0, -1.0]]).unwrap();
    let id = Matrix::identity(3, 0.0, 1.0);
    let p = a.multiply(&id, &ar.plus, &ar.times, ar.zero).unwrap();
    assert_eq!(p.data, a.data);
}

#[test]
fn multiply_shape_mismatch() {
    let ar = arith();
    let a = Matrix::from_rows(vec![vec![1.0, 2.0, 3.0]]).unwrap();
    let b = Matrix::from_rows(vec![vec![1.0], vec![2.0]]).unwrap();
    let r = a.multiply(&b, &ar.plus, &ar.times, ar.zero);
    assert_eq!(r.unwrap_err(), Error::ShapeMismatch { expected: 3, actual: 2 });
}

#[test]
fn from_rows_rejects_ragged_and_empty() {
    let r = Matrix::from_rows(vec![vec![1.0, 2.0], vec![1.0, 2.0, 3.0]]);
    assert_eq!(r.unwrap_err(), Error::ShapeMismatch { expected: 2, actual: 3 });
    let e = Matrix::<f64>::from_rows(vec![]);
    assert_eq!(e.unwrap_err(), Error::ShapeMismatch { expected: 1, actual: 0 });
}

#[test]
fn combine_adds_and_subtracts_elementwise() {
    let ar = arith();
    let a = Matrix::from_rows(vec![vec![1.0, 2.0], vec![3.0, 4.0]]).unwrap();
    let b = Matrix::from_rows(vec![vec![10.0, 20.0], vec![30.0, 40.0]]).unwrap();
    let sum = a.combine(&b, &ar.plus).unwrap();
    assert_eq!(sum.data, vec![vec![11.0, 22.0], vec![33.0, 44.0]]);
    let diff = b.combine(&a, &ar.minus).unwrap();
    assert_eq!(diff.data, vec![vec![9.0, 18.0], vec![27.0, 36.0]]);
    let had = a.combine(&b, &ar.times).unwrap();
    assert_eq!(had.data, vec![vec![10.0, 40.0], vec![90.0, 160.0]]);
    let tall = Matrix::from_rows(vec![vec![1.0], vec![2.0], vec![3.0]]).unwrap();
    let r = a.combine(&tall, &ar.plus);
    assert_eq!(r.unwrap_err(), Error::ShapeMismatch { expected: 2, actual: 3 });
}

#[test]
fn zeros_scale_and_map() {
    let ar = arith();
    let z = Matrix::zeros(2, 3, 0.0);
    assert_eq!(z.data, vec![vec![0.0, 0.0, 0.0], vec![0.0, 0.0, 0.0]]);
    let m = Matrix::from_rows(vec![vec![1.0, -2.0], vec![3.0, -4.0]]).unwrap();
    let s = m.scale(0.5, &ar.times);
    assert_eq!(s.data, vec![vec![0.5, -1.0], vec![1.5, -2.0]]);
    let doubled = m.map(&|x: f64| 2.0 * x);
    assert_eq!(doubled.data, vec![vec![2.0, -4.0], vec![6.0, -8.0]]);
}

#[test]
fn random_fills_the_shape_from_the_source() {
    let draw = seeded_draw(7);
    let m = Matrix::random(3, 4, &draw);
    assert_eq!(m.rows, 3);
    assert_eq!(m.cols, 4);
    assert_eq!(m.data.len(), 3);
    for row in &m.data {
        assert_eq!(row.len(), 4);
        for &v in row {
            assert!((-1.0..1.0).contains(&v));
        }
    }
}

#[test]
fn feed_forward_output_length_and_input_check() {
    let draw = seeded_draw(11);
    let mut net = Network::new(vec![2, 3, 1], 0.5, logistic_activation(), arith(), &draw);
    let out = net.feed_forward(vec![0.25, 0.75]).unwrap();
    assert_eq!(out.len(), 1);
    let r = net.feed_forward(vec![0.25]);
    assert_eq!(r.unwrap_err(), Error::ShapeMismatch { expected: 2, actual: 1 });
}

#[test]
fn back_propagate_target_check() {
    let draw = seeded_draw(13);
    let mut net = Network::new(vec![2, 3, 1], 0.5, logistic_activation(), arith(), &draw);
    let out = net.feed_forward(vec![0.25, 0.75]).unwrap();
    let r = net.back_propagate(out, vec![0.0, 1.0]);
    assert_eq!(r.unwrap_err(), Error::ShapeMismatch { expected: 1, actual: 2 });
    let out = net.feed_forward(vec![0.25, 0.75]).unwrap();
    assert!(net.back_propagate(out, vec![1.0]).is_ok());
}

#[test]
fn save_load_round_trip_is_exact() {
    let draw1 = seeded_draw(17);
    let draw2 = seeded_draw(99);
    let mut net1 = Network::new(vec![2, 3, 1], 0.5, logistic_activation(), arith(), &draw1);
    let mut net2 = Network::new(vec![2, 3, 1], 0.5, logistic_activation(), arith(), &draw2);
    // Make the first network's parameters non-trivial before capturing them.
    let out = net1.feed_forward(vec![0.1, 0.9]).unwrap();
    net1.back_propagate(out, vec![1.0]).unwrap();
    let p1 = net1.save();
    assert_ne!(p1.weights, net2.save().weights);
    net2.load(&p1).unwrap();
    let p2 = net2.save();
    assert_eq!(p1.weights, p2.weights);
    assert_eq!(p1.biases, p2.biases);
}

#[test]
fn load_rejects_wrong_record_sizes() {
    let draw = seeded_draw(19);
    let mut net = Network::new(vec![2, 3, 1], 0.5, identity_activation(), arith(), &draw);
    let r = net.load(&SavedParams { weights: vec![], biases: vec![] });
    assert_eq!(r.unwrap_err(), Error::ParseError);
    // Right number of grids, wrong shape for the first transition.
    let bad = SavedParams {
        weights: vec![vec![vec![1.0, 2.0]], vec![vec![1.0, 1.0, 1.0]]],
        biases: vec![vec![vec![0.0]; 3], vec![vec![0.0]]],
    };
    let r = net.load(&bad);
    assert_eq!(r.unwrap_err(), Error::ShapeMismatch { expected: 3, actual: 1 });
}

#[test]
fn zero_network_identity_activation_gives_zero_output() {
    let zero_draw = || 0.0;
    let mut net = Network::new(vec![4, 3, 2], 0.5, identity_activation(), arith(), &zero_draw);
    let out = net.feed_forward(vec![5.0, -3.0, 2.5, 100.0]).unwrap();
    assert_eq!(out, vec![0.0, 0.0]);
}

#[test]
fn forward_example_with_fixed_weights() {
    let zero_draw = || 0.0;
    let mut net = Network::new(vec![2, 2, 1], 0.5, identity_activation(), arith(), &zero_draw);
    let params = SavedParams {
        weights: vec![vec![vec![1.0, 0.0], vec![0.0, 1.0]], vec![vec![1.0, 1.0]]],
        biases: vec![vec![vec![0.0], vec![0.0]], vec![vec![0.0]]],
    };
    net.load(&params).unwrap();
    let out = net.feed_forward(vec![3.0, 4.0]).unwrap();
    assert_eq!(out, vec![7.0]);
}

#[test]
fn train_reports_bad_samples() {
    let draw = seeded_draw(23);
    let mut net = Network::new(vec![2, 3, 1], 0.5, logistic_activation(), arith(), &draw);
    let r = net.train(vec![vec![0.0, 0.0], vec![0.5]], vec![vec![0.0], vec![1.0]], 3);
    assert_eq!(r.unwrap_err(), Error::ShapeMismatch { expected: 2, actual: 1 });
    let r = net.train(vec![vec![0.0, 0.0]], vec![vec![0.0, 0.0]], 3);
    assert_eq!(r.unwrap_err(), Error::ShapeMismatch { expected: 1, actual: 2 });
    assert!(net.train(vec![vec![0.0, 0.0]], vec![vec![0.0]], 3).is_ok());
}

fn grids_to_value(grids: &[Vec<Vec<f64>>]) -> serde_json::Value {
    serde_json::Value::Array(
        grids
            .iter()
            .map(|m| {
                serde_json::Value::Array(
                    m.iter()
                        .map(|row| {
                            serde_json::Value::Array(
                                row.iter().map(|&x| serde_json::Value::from(x)).collect(),
                            )
                        })
                        .collect(),
                )
            })
            .collect(),
    )
}

fn value_to_grids(v: &serde_json::Value) -> Vec<Vec<Vec<f64>>> {
    v.as_array()
        .unwrap()
        .iter()
        .map(|m| {
            m.as_array()
                .unwrap()
                .iter()
                .map(|row| {
                    row.as_array()
                        .unwrap()
                        .iter()
                        .map(|x| x.as_f64().unwrap())
                        .collect()
                })
                .collect()
        })
        .collect()
}

#[test]
fn json_record_round_trip_is_exact() {
    let draw1 = seeded_draw(29);
    let draw2 = seeded_draw(31);
    let mut net1 = Network::new(vec![2, 3, 1], 0.5, logistic_activation(), arith(), &draw1);
    let mut net2 = Network::new(vec![2, 3, 1], 0.5, logistic_activation(), arith(), &draw2);
    let p1 = net1.save();

    // The persisted form: a single object with exactly the two fields
    // "weights" and "biases", one matrix per layer transition each.
    let mut record = serde_json::Map::new();
    record.insert("weights".to_string(), grids_to_value(&p1.weights));
    record.insert("biases".to_string(), grids_to_value(&p1.biases));
    let text = serde_json::Value::Object(record).to_string();

    let parsed: serde_json::Value = serde_json::from_str(&text).unwrap();
    let p2 = SavedParams {
        weights: value_to_grids(&parsed["weights"]),
        biases: value_to_grids(&parsed["biases"]),
    };
    net2.load(&p2).unwrap();
    let p3 = net2.save();
    assert_eq!(p1.weights, p3.weights);
    assert_eq!(p1.biases, p3.biases);
}

#[test]
fn xor_training_converges() {
    let draw = seeded_draw(42);
    let mut net = Network::new(vec![2, 3, 1], 0.5, logistic_activation(), arith(), &draw);
    let inputs = vec![
        vec![0.0, 0.0],
        vec![0.0, 1.0],
        vec![1.0, 0.0],
        vec![1.0, 1.0],
    ];
    let targets = vec![vec![0.0], vec![1.0], vec![1.0], vec![0.0]];
    net.train(inputs.clone(), targets.clone(), 10000).unwrap();
    for (input, target) in inputs.iter().zip(targets.iter()) {
        let out = net.feed_forward(input.clone()).unwrap();
        assert!(
            (out[0] - target[0]).abs() < 0.1,
            "prediction {:?} for {:?} is not within 0.1 of {:?}",
            out,
            input,
            target
        );
    }
}
