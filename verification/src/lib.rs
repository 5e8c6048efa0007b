//! Exact evaluation of arithmetic expressions.
//!
//! Text such as `1 / 3 + 0.25` is split into tokens ([`lexer`]), parsed into
//! an expression tree ([`parser`]) and reduced to a single fraction in lowest
//! terms ([`reducer`]); [`calculator::evaluate`] runs the three in a row, and
//! [`decimal::decimilize`] writes the result in decimal notation with the
//! repeating digits marked.
//!
//! Every stage is a pure function whose result is pinned down by a
//! specification function over sequences and natural numbers, and every
//! failure is reported as an [`error::Error`]. The modules [`algebra`] and
//! [`spacing`] prove what follows from those specifications: the laws of
//! rational arithmetic, and that blanks between tokens do not matter.

pub mod arith;
pub mod sign;
pub mod token_type;
pub mod error;
pub mod fraction;
pub mod text;
pub mod digits;
pub mod token;
pub mod expression;
pub mod lexer;
pub mod parser;
pub mod reducer;
pub mod calculator;
pub mod decimal;
pub mod algebra;
pub mod spacing;
