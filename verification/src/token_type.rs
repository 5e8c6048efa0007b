//! The categories a token can belong to.

use vstd::prelude::*;

verus! {

/// The category of a token: a number, one of the six symbols, or the end of
/// the input.
#[allow(non_camel_case_types)]
#[derive(Debug, Clone, Copy, PartialEq, Eq, Structural)]
pub enum TokenType {
    NUMBER,
    PLUS,
    MINUS,
    MULTIPLY,
    DIVIDE,
    LPAREN,
    RPAREN,
    EOF,
}

impl TokenType {
    /// The name of the category, as it is written in messages.
    pub open spec fn name_spec(self) -> Seq<char> {
        match self {
            TokenType::NUMBER => "NUMBER"@,
            TokenType::PLUS => "PLUS"@,
            TokenType::MINUS => "MINUS"@,
            TokenType::MULTIPLY => "MULTIPLY"@,
            TokenType::DIVIDE => "DIVIDE"@,
            TokenType::LPAREN => "LPAREN"@,
            TokenType::RPAREN => "RPAREN"@,
            TokenType::EOF => "EOF"@,
        }
    }

    /// The name of the category, as it is written in messages.
    pub fn name(&self) -> (text: &'static str)
        ensures
            text@ == self.name_spec(),
    {
        match self {
            TokenType::NUMBER => "NUMBER",
            TokenType::PLUS => "PLUS",
            TokenType::MINUS => "MINUS",
            TokenType::MULTIPLY => "MULTIPLY",
            TokenType::DIVIDE => "DIVIDE",
            TokenType::LPAREN => "LPAREN",
            TokenType::RPAREN => "RPAREN",
            TokenType::EOF => "EOF",
        }
    }
}

} // verus!
