//! The ways in which an evaluation can fail.

use vstd::prelude::*;
use vstd::string::StringExecFns;
use crate::token_type::TokenType;

verus! {

/// Why an expression could not be evaluated. The first failure met on the way
/// from text to value is the one reported.
#[derive(Debug, Clone, PartialEq, Eq)]
pub enum Error {
    /// The text holds a character that starts no token.
    LexError {
        /// How many characters precede the offending one.
        position: usize,
        /// The offending character; `'\0'` where the text ended too early.
        character: char,
        /// The source line, an arrow under the offending column and a
        /// sentence that names the character.
        diagnostic: String,
    },
    /// A token of one category was needed where another stood.
    SyntaxError { expected: TokenType, found: TokenType },
    /// The right operand of a division evaluated to zero.
    DivisionByZero,
    /// A numerator or denominator left the range of 64-bit unsigned integers
    /// on the way to the result.
    ComputationOverflow,
}

/// The mathematical content of an [`Error`].
pub enum ErrorView {
    LexError { position: nat, character: char, diagnostic: Seq<char> },
    SyntaxError { expected: TokenType, found: TokenType },
    DivisionByZero,
    ComputationOverflow,
}

impl View for Error {
    type V = ErrorView;

    open spec fn view(&self) -> ErrorView {
        match *self {
            Error::LexError { position, character, diagnostic } => ErrorView::LexError {
                position: position as nat,
                character,
                diagnostic: diagnostic@,
            },
            Error::SyntaxError { expected, found } => ErrorView::SyntaxError { expected, found },
            Error::DivisionByZero => ErrorView::DivisionByZero,
            Error::ComputationOverflow => ErrorView::ComputationOverflow,
        }
    }
}

impl ErrorView {
    /// The error in words.
    pub open spec fn message(self) -> Seq<char> {
        match self {
            ErrorView::LexError { diagnostic, .. } => diagnostic,
            ErrorView::SyntaxError { expected, found } => "Expected "@ + expected.name_spec()
                + " but got "@ + found.name_spec(),
            ErrorView::DivisionByZero => "Division by zero"@,
            ErrorView::ComputationOverflow => "Computation overflow"@,
        }
    }
}

impl Error {
    /// The error in words: the pointer diagnostic of a lexical error, the
    /// expected and the found category of a syntax error, or the name of the
    /// arithmetic failure.
    pub fn message(&self) -> (text: String)
        ensures
            text@ == self@.message(),
    {
        match self {
            Error::LexError { diagnostic, .. } => diagnostic.clone(),
            Error::SyntaxError { expected, found } => {
                let mut text = String::from_str("Expected ");
                text.append(expected.name());
                text.append(" but got ");
                text.append(found.name());
                text
            },
            Error::DivisionByZero => String::from_str("Division by zero"),
            Error::ComputationOverflow => String::from_str("Computation overflow"),
        }
    }
}

} // verus!
