//! The lexical units of an expression.

use vstd::prelude::*;
use crate::fraction::Fraction;
use crate::token_type::TokenType;

verus! {

/// One lexical unit: a number with its value, a symbol, or the mark that ends
/// the input.
#[derive(Debug, Clone, Copy, PartialEq, Eq)]
pub enum Token {
    Number(Fraction),
    Symbol(TokenType),
    EndOfFile,
}

impl Token {
    /// The category of the token.
    pub open spec fn type_spec(self) -> TokenType {
        match self {
            Token::Number(_) => TokenType::NUMBER,
            Token::Symbol(token_type) => token_type,
            Token::EndOfFile => TokenType::EOF,
        }
    }

    /// The category of the token.
    pub fn token_type(&self) -> (token_type: TokenType)
        ensures
            token_type == self.type_spec(),
    {
        match self {
            Token::Number(_) => TokenType::NUMBER,
            Token::Symbol(token_type) => *token_type,
            Token::EndOfFile => TokenType::EOF,
        }
    }
}

} // verus!
