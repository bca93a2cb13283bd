//! Element-wise boolean column logic.

use metacat::array_logic::{ArrayError, DataArrayLogic, LogicOperator};

#[test]
fn test_and_or_columns() {
    let args = vec![vec![true, true, false, false], vec![true, false, true, false]];
    let conj = DataArrayLogic::data_array_logic_op(LogicOperator::And, &args).unwrap();
    assert_eq!(conj, vec![true, false, false, false]);
    let disj = DataArrayLogic::data_array_logic_op(LogicOperator::Or, &args).unwrap();
    assert_eq!(disj, vec![true, true, true, false]);
}

#[test]
fn test_negation_column() {
    let args = vec![vec![true, false, true]];
    let neg = DataArrayLogic::data_array_logic_op(LogicOperator::Not, &args).unwrap();
    assert_eq!(neg, vec![false, true, false]);
}

#[test]
fn test_unequal_lengths_are_an_error() {
    let args = vec![vec![true, false], vec![true]];
    let conj = DataArrayLogic::data_array_logic_op(LogicOperator::And, &args);
    assert_eq!(conj, Err(ArrayError::LengthMismatch));
    let disj = DataArrayLogic::data_array_logic_op(LogicOperator::Or, &args);
    assert_eq!(disj, Err(ArrayError::LengthMismatch));
}
