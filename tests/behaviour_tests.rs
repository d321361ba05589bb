use std::cell::Cell;

use simple_nn::{Matrix, MatrixError, NeuralNetwork, ScalarOps, TrainingData};

type F64Ops = ScalarOps<
    f64,
    fn(f64) -> f64,
    fn(f64, f64) -> f64,
    fn(f64, f64) -> f64,
    fn(f64, f64) -> f64,
>;

fn parse(t: &[char]) -> Option<f64> {
    t.iter().collect::<String>().parse().ok()
}

fn fmt(x: f64, d: usize) -> String {
    format!("{:.*}", d, x)
}

fn times(a: f64, b: f64) -> f64 {
    a * b
}

fn sigmoid(x: f64) -> f64 {
    1.0 / (1.0 + (-x).exp())
}

fn plus(a: f64, b: f64) -> f64 {
    a + b
}

fn minus(a: f64, b: f64) -> f64 {
    a - b
}

fn ops() -> F64Ops {
    ScalarOps { zero: 0.0, one: 1.0, activation: sigmoid, minus, plus, times }
}

fn read(text: &str) -> Matrix<f64> {
    Matrix::from_str(text, parse).unwrap()
}

fn golden_network() -> NeuralNetwork<f64> {
    let mut nn = NeuralNetwork::new(2, 2);
    let w1 = Matrix::from_vec(&vec![1.0, 0.75, 0.5, 0.25], 2, 2);
    let w2 = Matrix::from_vec(&vec![0.25, 0.5, 0.75, 1.0], 2, 2);
    nn.set_weights(&vec![w1, w2]);
    nn
}

#[test]
fn literal_round_trips_at_its_precision() {
    let text = "[[1.50,-2.25],[0.00,3.75]]";
    assert_eq!(read(text).to_string_fmt(2, fmt), text);
    let text = "[[1,2,3]]";
    assert_eq!(read(text).to_string_fmt(0, fmt), text);
    let text = "[[7],[8],[9]]";
    assert_eq!(read(text).to_string_fmt(0, fmt), text);
    let padded = "  [[0.5,0.25]]\n";
    assert_eq!(read(padded).to_string_fmt(2, fmt), "[[0.50,0.25]]");
}

#[test]
fn literal_ignores_blanks_anywhere() {
    let m = read(" [ [ 1 , 2 ] ,\t[ 3 , 4 ] ] ");
    assert_eq!(m.size(), (2, 2));
    assert_eq!(m.to_string(fmt), "[[1,2],[3,4]]");
}

#[test]
fn literal_with_bad_token_is_a_parse_error() {
    assert_eq!(Matrix::from_str("[[1,a],[3,4]]", parse).err(), Some(MatrixError::ParseError));
    assert_eq!(Matrix::from_str("", parse).err(), Some(MatrixError::ParseError));
    assert_eq!(Matrix::from_str("[[1,,2]]", parse).err(), Some(MatrixError::ParseError));
}

#[test]
fn literal_with_ragged_rows_reads_row_count_and_last_row_width() {
    let m = read("[[1,2],[3]]");
    assert_eq!(m.size(), (2, 1));
    assert_eq!(m.as_vec(), vec![1.0, 2.0, 3.0]);
    let m = read("[[1],[2,3,4]]");
    assert_eq!(m.size(), (2, 3));
    assert_eq!(m.as_vec(), vec![1.0, 2.0, 3.0, 4.0]);
}

#[test]
fn literal_ignores_every_kind_of_whitespace() {
    let m = read("\u{A0}[[1,\u{0B}2],\u{0C}[3,\u{3000}4]]\u{2028}");
    assert_eq!(m.size(), (2, 2));
    assert_eq!(m.to_string(fmt), "[[1,2],[3,4]]");
}

#[test]
fn failed_set_leaves_matrix_empty() {
    let mut m = read("[[1,2]]");
    assert_eq!(m.set("[[x]]", parse), Err(MatrixError::ParseError));
    assert_eq!(m.size(), (0, 0));
    assert_eq!(m.to_string(fmt), "[]");
}

#[test]
fn add_then_subtract_restores_within_tolerance() {
    let a = read("[[0.1,0.7,-3.3],[1e10,2.5,0.333]]");
    let b = read("[[0.2,-0.9,1.1],[3.7,1e-7,0.667]]");
    let back = a.add(&b, plus).unwrap().subtract(&b, minus).unwrap();
    assert_eq!(back.size(), a.size());
    let (x, y) = (a.as_vec(), back.as_vec());
    for i in 0..x.len() {
        assert!((x[i] - y[i]).abs() <= 1e-9 * (1.0 + x[i].abs()));
    }
}

#[test]
fn dot_prod_shape_and_mismatch() {
    let a = Matrix::from_vec(&vec![1.0, 2.0, 3.0, 4.0, 5.0, 6.0], 2, 3);
    let b = Matrix::from_vec(&vec![1.0; 12], 3, 4);
    let c = a.dot_prod(&b, 0.0, plus, times).unwrap();
    assert_eq!(c.size(), (2, 4));
    assert_eq!(c.to_string(fmt), "[[6,6,6,6],[15,15,15,15]]");
    assert_eq!(b.dot_prod(&a, 0.0, plus, times).err(), Some(MatrixError::DimensionMismatch));
    let empty: Matrix<f64> = Matrix::new();
    assert_eq!(empty.dot_prod(&empty, 0.0, plus, times).unwrap().size(), (0, 0));
}

#[test]
fn dot_prod_accumulates_in_ascending_order() {
    let a = Matrix::from_vec(&vec![1e16, 1.0, -1e16], 1, 3);
    let b = Matrix::from_vec(&vec![1.0, 1.0, 1.0], 3, 1);
    let c = a.dot_prod(&b, 0.0, plus, times).unwrap();
    assert_eq!(c.as_vec(), vec![((0.0 + 1e16) + 1.0) + -1e16]);
    let shift_add = |acc: f64, x: f64| acc * 10.0 + x;
    let d = Matrix::from_vec(&vec![1.0, 2.0, 3.0], 1, 3);
    assert_eq!(d.dot_prod(&b, 0.0, shift_add, times).unwrap().as_vec(), vec![123.0]);
}

#[test]
fn index_errors_for_row_and_column() {
    let mut m = read("[[1,2,3],[4,5,6]]");
    assert_eq!(m.get_at_index(2, 0), Err(MatrixError::IndexOutOfBounds));
    assert_eq!(m.get_at_index(0, 3), Err(MatrixError::IndexOutOfBounds));
    assert_eq!(m.set_at_index(0, 3, 1.0), Err(MatrixError::IndexOutOfBounds));
    assert_eq!(m.to_string(fmt), "[[1,2,3],[4,5,6]]");
    assert_eq!(m.get_at_index(1, 1), Ok(5.0));
    let empty: Matrix<f64> = Matrix::new();
    assert_eq!(empty.get_at_index(0, 0), Err(MatrixError::IndexOutOfBounds));
}

#[test]
fn empty_shapes_render_as_empty_brackets() {
    let mut m: Matrix<f64> = Matrix::new();
    assert_eq!(m.to_string(fmt), "[]");
    m.zero_fill(0, 3, 0.0);
    assert_eq!(m.to_string(fmt), "[]");
    m.zero_fill(2, 0, 0.0);
    assert_eq!(m.to_string(fmt), "[]");
    assert_eq!(m.transpose().size(), (0, 2));
    m.clear();
    assert_eq!(m.size(), (0, 0));
}

#[test]
fn outputs_count_and_first_entry() {
    let mut nn = NeuralNetwork::new(2, 3);
    let w = Matrix::from_vec(&vec![0.1, -0.2, 0.3, 0.4], 2, 2);
    nn.set_weights(&vec![w.clone(), w.clone(), w]);
    let inputs = vec![0.3, -1.2];
    let outputs = nn.get_outputs(&inputs, &ops()).unwrap();
    assert_eq!(outputs.len(), 4);
    assert_eq!(outputs[0].size(), (2, 1));
    assert_eq!(outputs[0].as_vec(), inputs);
}

#[test]
fn golden_outputs_errors_and_deltas() {
    let nn = golden_network();
    let inputs = vec![1.0, 1.0];
    let targets = vec![0.0, 1.0];
    let outputs = nn.get_outputs(&inputs, &ops()).unwrap();
    let texts: Vec<String> = outputs.iter().map(|m| m.transpose().to_string_fmt(10, fmt)).collect();
    assert_eq!(texts, vec!["[[1.0000000000,1.0000000000]]", "[[0.8519528020,0.6791786992]]", "[[0.6347333953,0.7888726343]]"]);
    let errors = nn.get_errors(&inputs, &targets, &ops()).unwrap();
    let texts: Vec<String> = errors.iter().map(|m| m.transpose().to_string_fmt(10, fmt)).collect();
    assert_eq!(texts, vec!["[[-0.2518116765,-0.0927905032]]", "[[-0.0531196660,-0.2649226808]]", "[[-0.6347333953,0.2111273657]]"]);
    let deltas = nn.get_deltas(&inputs, &targets, 0.1, &ops()).unwrap();
    assert_eq!(deltas[0].to_string_fmt(10, fmt), "[[-0.0006699942,-0.0006699942],[-0.0057725326,-0.0057725326]]");
    assert_eq!(deltas[1].to_string_fmt(10, fmt), "[[-0.0125374207,-0.0099948601],[0.0029957908,0.0023882512]]");
}

#[test]
fn execute_is_the_last_output() {
    let nn = golden_network();
    let out = nn.execute(&vec![1.0, 1.0], &ops()).unwrap();
    assert_eq!(out.to_string_fmt(10, fmt), "[[0.6347333953],[0.7888726343]]");
}

#[test]
fn network_shape_errors() {
    let nn: NeuralNetwork<f64> = NeuralNetwork::new(2, 2);
    assert_eq!(nn.get_outputs(&vec![1.0, 1.0], &ops()).err(), Some(MatrixError::DimensionMismatch));
    let nn = golden_network();
    assert_eq!(nn.get_outputs(&vec![1.0], &ops()).err(), Some(MatrixError::DimensionMismatch));
    assert_eq!(nn.get_errors(&vec![1.0, 1.0], &vec![1.0], &ops()).err(), Some(MatrixError::DimensionMismatch));
    assert_eq!(nn.get_deltas(&vec![1.0, 1.0, 1.0], &vec![1.0, 1.0], 0.1, &ops()).err(), Some(MatrixError::DimensionMismatch));
    assert_eq!(nn.execute(&vec![], &ops()).err(), Some(MatrixError::DimensionMismatch));
    let mut odd = NeuralNetwork::new(2, 1);
    odd.set_weights(&vec![Matrix::from_vec(&vec![1.0, 2.0], 1, 2)]);
    assert_eq!(odd.get_outputs(&vec![1.0, 1.0], &ops()).err(), Some(MatrixError::DimensionMismatch));
}

#[test]
fn train_rejects_bad_data_and_keeps_weights() {
    let mut nn = golden_network();
    let data: TrainingData<f64> = vec![(vec![1.0, 1.0], vec![0.0, 1.0]), (vec![1.0], vec![0.0, 1.0])];
    assert_eq!(nn.train(&data, 0.1, 3, &ops()), Err(MatrixError::DimensionMismatch));
    assert_eq!(nn.get_weights()[0].to_string_fmt(2, fmt), "[[1.00,0.75],[0.50,0.25]]");
    assert_eq!(nn.get_weights()[1].to_string_fmt(2, fmt), "[[0.25,0.50],[0.75,1.00]]");
}

#[test]
fn one_training_step_adds_the_deltas() {
    let mut nn = golden_network();
    let inputs = vec![1.0, 1.0];
    let targets = vec![0.0, 1.0];
    let deltas = nn.get_deltas(&inputs, &targets, 0.1, &ops()).unwrap();
    let expected: Vec<Matrix<f64>> =
        nn.get_weights().iter().zip(deltas.iter()).map(|(w, d)| w.add(d, plus).unwrap()).collect();
    nn.train(&vec![(inputs, targets)], 0.1, 1, &ops()).unwrap();
    for l in 0..2 {
        assert_eq!(nn.get_weights()[l].as_vec(), expected[l].as_vec());
    }
    assert_eq!(
        nn.get_weights()[1].to_string_fmt(10, fmt),
        "[[0.2374625793,0.4900051399],[0.7529957908,1.0023882512]]"
    );
}

#[test]
fn zero_epochs_change_nothing() {
    let mut nn = golden_network();
    nn.train(&vec![(vec![1.0, 0.0], vec![1.0, 0.0])], 0.1, 0, &ops()).unwrap();
    assert_eq!(nn.get_weights()[0].to_string_fmt(2, fmt), "[[1.00,0.75],[0.50,0.25]]");
}

#[test]
fn randomize_fills_layers_in_draw_order() {
    let mut nn: NeuralNetwork<f64> = NeuralNetwork::new(2, 2);
    let counter = Cell::new(0.0);
    let draw = || {
        counter.set(counter.get() + 1.0);
        counter.get()
    };
    nn.randomize_weights(draw);
    nn.randomize_weights(draw);
    let w = nn.get_weights();
    assert_eq!(w.len(), 2);
    assert_eq!(w[0].to_string(fmt), "[[9,10],[11,12]]");
    assert_eq!(w[1].to_string(fmt), "[[13,14],[15,16]]");
}

#[test]
fn xor_training_separates_classes() {
    let mut nn = NeuralNetwork::new(2, 2);
    let w1 = Matrix::from_vec(&vec![0.0, -0.2, 0.3, 0.2], 2, 2);
    let w2 = Matrix::from_vec(&vec![-0.3, 0.1, 0.0, 0.4], 2, 2);
    nn.set_weights(&vec![w1, w2]);
    let data: TrainingData<f64> = vec![
        (vec![0.0, 0.0], vec![1.0, 0.0]),
        (vec![0.0, 1.0], vec![0.0, 1.0]),
        (vec![1.0, 0.0], vec![0.0, 1.0]),
        (vec![1.0, 1.0], vec![1.0, 0.0]),
    ];
    nn.train(&data, 0.1, 10000, &ops()).unwrap();
    for (inputs, targets) in &data {
        let out = nn.execute(inputs, &ops()).unwrap().as_vec();
        assert_eq!(out[0] > out[1], targets[0] > targets[1]);
    }
}

#[test]
fn map_applies_function_to_every_cell() {
    let mut m = read("[[1,-2],[3,0]]");
    m.map(|x| x * x);
    assert_eq!(m.to_string(fmt), "[[1,4],[9,0]]");
    m.map_with_index(|x, i| x * 10.0 + i as f64);
    assert_eq!(m.to_string(fmt), "[[10,41],[92,3]]");
}
