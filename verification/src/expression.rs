//! The tree that a parsed expression forms.

use vstd::prelude::*;
use crate::fraction::Fraction;

verus! {

/// An arithmetic expression. Each node owns its operands. A difference
/// `a - b` is held as the sum of `a` and the negation of `b`.
#[derive(Debug, PartialEq, Eq)]
pub enum Expression {
    Sum { left: Box<Expression>, right: Box<Expression> },
    Product { left: Box<Expression>, right: Box<Expression> },
    Division { left: Box<Expression>, right: Box<Expression> },
    Negation(Box<Expression>),
    Number(Fraction),
}

} // verus!
