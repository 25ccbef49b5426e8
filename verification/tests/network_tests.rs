use rusty_neural_net::pure_rust_network::{NetworkShape, Operand, ShapeMismatchError};

#[test]
fn shape_with_positive_layers_exists() {
    let shape = NetworkShape::new(3, 2, 2);
    assert_eq!(shape, Some(NetworkShape { input_nodes: 3, hidden_nodes: 2, output_nodes: 2 }));
}

#[test]
fn shape_with_an_empty_layer_does_not_exist() {
    assert_eq!(NetworkShape::new(0, 2, 2), None);
    assert_eq!(NetworkShape::new(3, 0, 2), None);
    assert_eq!(NetworkShape::new(3, 2, 0), None);
}

#[test]
fn weight_matrices_have_rows_for_the_layer_they_feed() {
    let shape = NetworkShape::new(784, 100, 10).unwrap();
    assert_eq!(shape.input_hidden(), (100, 784));
    assert_eq!(shape.hidden_output(), (10, 100));
}

#[test]
fn shape_is_recovered_from_matching_matrices() {
    let shape = NetworkShape::of_weights((3, 2), (2, 3));
    assert_eq!(shape, Some(NetworkShape { input_nodes: 2, hidden_nodes: 3, output_nodes: 2 }));
}

#[test]
fn matrices_that_do_not_chain_have_no_shape() {
    assert_eq!(NetworkShape::of_weights((3, 2), (2, 4)), None);
    assert_eq!(NetworkShape::of_weights((0, 2), (2, 0)), None);
    assert_eq!(NetworkShape::of_weights((3, 0), (2, 3)), None);
    assert_eq!(NetworkShape::of_weights((3, 2), (0, 3)), None);
}

#[test]
fn query_on_three_inputs_yields_two_outputs() {
    let shape = NetworkShape::new(3, 2, 2).unwrap();
    assert_eq!(shape.check_query(3), Ok(2));
}

#[test]
fn query_with_wrong_length_is_a_shape_mismatch() {
    let shape = NetworkShape::new(3, 2, 2).unwrap();
    assert_eq!(
        shape.check_query(4),
        Err(ShapeMismatchError { operand: Operand::Input, expected: 3, actual: 4 })
    );
    assert_eq!(
        shape.check_query(2),
        Err(ShapeMismatchError { operand: Operand::Input, expected: 3, actual: 2 })
    );
    assert_eq!(
        shape.check_query(0),
        Err(ShapeMismatchError { operand: Operand::Input, expected: 3, actual: 0 })
    );
}

#[test]
fn train_accepts_matching_lengths() {
    let shape = NetworkShape::new(2, 3, 2).unwrap();
    assert_eq!(shape.check_train(2, 2), Ok(()));
}

#[test]
fn train_reports_the_target_when_only_it_is_wrong() {
    let shape = NetworkShape::new(2, 3, 2).unwrap();
    assert_eq!(
        shape.check_train(2, 3),
        Err(ShapeMismatchError { operand: Operand::Target, expected: 2, actual: 3 })
    );
}

#[test]
fn train_reports_the_input_before_the_target() {
    let shape = NetworkShape::new(2, 3, 2).unwrap();
    assert_eq!(
        shape.check_train(5, 7),
        Err(ShapeMismatchError { operand: Operand::Input, expected: 2, actual: 5 })
    );
}

#[test]
fn train_accepts_exactly_what_query_yields() {
    let shape = NetworkShape::new(4, 6, 3).unwrap();
    for input_len in 0..8 {
        for target_len in 0..8 {
            let trains = shape.check_train(input_len, target_len).is_ok();
            let queried = shape.check_query(input_len) == Ok(target_len);
            assert_eq!(trains, queried);
        }
    }
}
