//! Vectorized boolean logic over whole columns, as the query layer applies
//! it to filter results read from the catalog's tables.

use vstd::prelude::*;

verus! {

/// A logical operator applied element-wise to boolean columns.
#[derive(Clone, Copy, PartialEq, Eq, Structural, Debug)]
pub enum LogicOperator {
    And,
    Or,
    Not,
}

/// What column logic can fail with: `And` and `Or` need columns of one
/// length.
#[derive(Clone, Copy, PartialEq, Eq, Structural, Debug)]
pub enum ArrayError {
    LengthMismatch,
}

/// Element-wise logic over boolean columns.
pub struct DataArrayLogic;

impl DataArrayLogic {
    /// Element-wise conjunction or disjunction of two equally long columns.
    fn data_array_logic_binary(is_and: bool, left: &Vec<bool>, right: &Vec<bool>) -> (r: Vec<
        bool,
    >)
        requires
            left@.len() == right@.len(),
        ensures
            r@.len() == left@.len(),
            forall|k: int|
                0 <= k < r@.len() ==> r@[k] == if is_and {
                    left@[k] && right@[k]
                } else {
                    left@[k] || right@[k]
                },
    {
        let mut r: Vec<bool> = Vec::new();
        let mut k: usize = 0;
        while k < left.len()
            invariant
                k <= left@.len(),
                left@.len() == right@.len(),
                r@.len() == k,
                forall|j: int|
                    0 <= j < k ==> r@[j] == if is_and {
                        left@[j] && right@[j]
                    } else {
                        left@[j] || right@[j]
                    },
            decreases left@.len() - k,
        {
            if is_and {
                r.push(left[k] && right[k]);
            } else {
                r.push(left[k] || right[k]);
            }
            k += 1;
        }
        r
    }

    /// Element-wise negation of a boolean column.
    fn data_array_negation(v: &Vec<bool>) -> (r: Vec<bool>)
        ensures
            r@.len() == v@.len(),
            forall|k: int| 0 <= k < r@.len() ==> r@[k] == !v@[k],
    {
        let mut r: Vec<bool> = Vec::new();
        let mut k: usize = 0;
        while k < v.len()
            invariant
                k <= v@.len(),
                r@.len() == k,
                forall|j: int| 0 <= j < k ==> r@[j] == !v@[j],
            decreases v@.len() - k,
        {
            r.push(!v[k]);
            k += 1;
        }
        r
    }

    /// Applies `op` to the given columns: `Not` negates the first column,
    /// `And` and `Or` combine the first two element-wise, answering columns
    /// of unequal length with an error.
    pub fn data_array_logic_op(op: LogicOperator, args: &Vec<Vec<bool>>) -> (r: Result<
        Vec<bool>,
        ArrayError,
    >)
        requires
            match op {
                LogicOperator::Not => args@.len() >= 1,
                _ => args@.len() >= 2,
            },
        ensures
            match op {
                LogicOperator::Not => r matches Ok(out) && out@.len() == args@[0]@.len()
                    && forall|k: int| 0 <= k < args@[0]@.len() ==> r->Ok_0@[k] == !args@[0]@[k],
                LogicOperator::And => (r is Ok <==> args@[0]@.len() == args@[1]@.len()) && (r
                    matches Ok(out) ==> out@.len() == args@[0]@.len() && forall|k: int|
                    0 <= k < out@.len() ==> out@[k] == (args@[0]@[k] && args@[1]@[k])) && (r is Err
                    ==> r == Err::<Vec<bool>, ArrayError>(ArrayError::LengthMismatch)),
                LogicOperator::Or => (r is Ok <==> args@[0]@.len() == args@[1]@.len()) && (r
                    matches Ok(out) ==> out@.len() == args@[0]@.len() && forall|k: int|
                    0 <= k < out@.len() ==> out@[k] == (args@[0]@[k] || args@[1]@[k])) && (r is Err
                    ==> r == Err::<Vec<bool>, ArrayError>(ArrayError::LengthMismatch)),
            },
    {
        match op {
            LogicOperator::Not => Ok(Self::data_array_negation(&args[0])),
            LogicOperator::And => {
                if args[0].len() != args[1].len() {
                    Err(ArrayError::LengthMismatch)
                } else {
                    Ok(Self::data_array_logic_binary(true, &args[0], &args[1]))
                }
            },
            LogicOperator::Or => {
                if args[0].len() != args[1].len() {
                    Err(ArrayError::LengthMismatch)
                } else {
                    Ok(Self::data_array_logic_binary(false, &args[0], &args[1]))
                }
            },
        }
    }
}

} // verus!
