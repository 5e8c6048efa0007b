//! Reducing an expression tree to one fraction.

use vstd::prelude::*;
use crate::error::{Error, ErrorView};
use crate::expression::Expression;
use crate::fraction::{Fraction, Ratio};

verus! {

/// The value of an expression. The operands of a node are evaluated first,
/// the left one before the right one, and the first failure is the result.
pub open spec fn value_of(tree: Expression) -> Result<Ratio, ErrorView>
    decreases tree,
{
    match tree {
        Expression::Sum { left, right } => match value_of(*left) {
            Err(error) => Err(error),
            Ok(left_value) => match value_of(*right) {
                Err(error) => Err(error),
                Ok(right_value) => left_value.checked_sum(right_value),
            },
        },
        Expression::Product { left, right } => match value_of(*left) {
            Err(error) => Err(error),
            Ok(left_value) => match value_of(*right) {
                Err(error) => Err(error),
                Ok(right_value) => left_value.checked_product(right_value),
            },
        },
        Expression::Division { left, right } => match value_of(*left) {
            Err(error) => Err(error),
            Ok(left_value) => match value_of(*right) {
                Err(error) => Err(error),
                Ok(right_value) => left_value.checked_quotient(right_value),
            },
        },
        Expression::Negation(operand) => match value_of(*operand) {
            Err(error) => Err(error),
            Ok(value) => Ok(value.negated()),
        },
        Expression::Number(fraction) => Ok(fraction@),
    }
}

/// The reducer fails only with `DivisionByZero` and `ComputationOverflow`.
pub proof fn lemma_reducer_fails_in_arithmetic(tree: Expression)
    ensures
        match value_of(tree) {
            Ok(_) => true,
            Err(error) => error is DivisionByZero || error is ComputationOverflow,
        },
    decreases tree,
{
    match tree {
        Expression::Sum { left, right } => {
            lemma_reducer_fails_in_arithmetic(*left);
            lemma_reducer_fails_in_arithmetic(*right);
        },
        Expression::Product { left, right } => {
            lemma_reducer_fails_in_arithmetic(*left);
            lemma_reducer_fails_in_arithmetic(*right);
        },
        Expression::Division { left, right } => {
            lemma_reducer_fails_in_arithmetic(*left);
            lemma_reducer_fails_in_arithmetic(*right);
        },
        Expression::Negation(operand) => {
            lemma_reducer_fails_in_arithmetic(*operand);
        },
        Expression::Number(_) => {},
    }
}

/// Evaluates an expression tree. A division by zero and a number that exceeds
/// 64 bits end the evaluation with their error.
pub fn reduce(tree: Expression) -> (result: Result<Fraction, Error>)
    ensures
        match result {
            Ok(fraction) => value_of(tree) == Ok::<Ratio, ErrorView>(fraction@),
            Err(error) => value_of(tree) == Err::<Ratio, ErrorView>(error@),
        },
{
    reduce_expression(Box::new(tree))
}

fn reduce_expression(expression: Box<Expression>) -> (result: Result<Fraction, Error>)
    ensures
        match result {
            Ok(fraction) => value_of(*expression) == Ok::<Ratio, ErrorView>(fraction@),
            Err(error) => value_of(*expression) == Err::<Ratio, ErrorView>(error@),
        },
    decreases expression,
{
    match *expression {
        Expression::Sum { left, right } => {
            let left_result = match reduce_expression(left) {
                Ok(fraction) => fraction,
                Err(error) => return Err(error),
            };
            let right_result = match reduce_expression(right) {
                Ok(fraction) => fraction,
                Err(error) => return Err(error),
            };
            left_result.add(right_result)
        },
        Expression::Product { left, right } => {
            let left_result = match reduce_expression(left) {
                Ok(fraction) => fraction,
                Err(error) => return Err(error),
            };
            let right_result = match reduce_expression(right) {
                Ok(fraction) => fraction,
                Err(error) => return Err(error),
            };
            left_result.multiply(right_result)
        },
        Expression::Division { left, right } => {
            let left_result = match reduce_expression(left) {
                Ok(fraction) => fraction,
                Err(error) => return Err(error),
            };
            let right_result = match reduce_expression(right) {
                Ok(fraction) => fraction,
                Err(error) => return Err(error),
            };
            left_result.divide(right_result)
        },
        Expression::Negation(operand) => {
            match reduce_expression(operand) {
                Ok(fraction) => Ok(fraction.negate()),
                Err(error) => Err(error),
            }
        },
        Expression::Number(fraction) => Ok(fraction),
    }
}

} // verus!
