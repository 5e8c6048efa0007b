//! Building an expression tree from tokens.
//!
//! The grammar, from the loosest binding to the tightest:
//!
//! ```text
//! expression := term EOF
//! term       := factor (('+' | '-') factor)*
//! factor     := unary (('*' | '/') unary)*
//! unary      := ('+' | '-')? primary
//! primary    := NUMBER | '(' term ')'
//! ```
//!
//! Binary operators group to the left. A difference is held as the sum of
//! its left operand and the negation of its right operand.

use vstd::prelude::*;
use crate::error::{Error, ErrorView};
use crate::expression::Expression;
use crate::token::Token;
use crate::token_type::TokenType;

verus! {

/// The token at `position`. Behind the last token the input counts as ended.
pub open spec fn current(tokens: Seq<Token>, position: nat) -> Token {
    if position < tokens.len() {
        tokens[position as int]
    } else {
        Token::EndOfFile
    }
}

/// The category of the token at `position`.
pub open spec fn type_at(tokens: Seq<Token>, position: nat) -> TokenType {
    current(tokens, position).type_spec()
}

/// How many tokens stand at or behind `position`.
pub open spec fn remaining(tokens: Seq<Token>, position: nat) -> nat {
    if position < tokens.len() {
        (tokens.len() - position) as nat
    } else {
        0
    }
}

/// The error for a token at `position` that is not of the category
/// `expected`.
pub open spec fn mismatch(tokens: Seq<Token>, position: nat, expected: TokenType) -> ErrorView {
    ErrorView::SyntaxError { expected, found: type_at(tokens, position) }
}

/// The primary that starts at `position`, and the number of tokens it spans:
/// a number, or a term between parentheses.
pub open spec fn primary_at(tokens: Seq<Token>, position: nat) -> Result<
    (Expression, nat),
    ErrorView,
>
    decreases remaining(tokens, position), 0nat,
{
    if type_at(tokens, position) == TokenType::LPAREN {
        match term_at(tokens, position + 1) {
            Err(error) => Err(error),
            Ok((tree, used)) => if type_at(tokens, position + 1 + used) == TokenType::RPAREN {
                Ok((tree, used + 2))
            } else {
                Err(mismatch(tokens, position + 1 + used, TokenType::RPAREN))
            },
        }
    } else if let Token::Number(fraction) = current(tokens, position) {
        Ok((Expression::Number(fraction), 1))
    } else {
        Err(mismatch(tokens, position, TokenType::NUMBER))
    }
}

/// The unary expression that starts at `position`, and the number of tokens
/// it spans: a primary, behind at most one sign. A minus negates the primary;
/// a plus leaves it as it is.
pub open spec fn unary_at(tokens: Seq<Token>, position: nat) -> Result<
    (Expression, nat),
    ErrorView,
>
    decreases remaining(tokens, position), 1nat,
{
    if type_at(tokens, position) == TokenType::MINUS {
        match primary_at(tokens, position + 1) {
            Err(error) => Err(error),
            Ok((tree, used)) => Ok((Expression::Negation(Box::new(tree)), used + 1)),
        }
    } else if type_at(tokens, position) == TokenType::PLUS {
        match primary_at(tokens, position + 1) {
            Err(error) => Err(error),
            Ok((tree, used)) => Ok((tree, used + 1)),
        }
    } else {
        primary_at(tokens, position)
    }
}

/// What a factor becomes once `left` has been read and `position` is
/// reached: for as long as `*` or `/` stands there, the unary expression
/// behind it is joined to the left. The number counts the tokens from
/// `position` on.
pub open spec fn factor_rest(tokens: Seq<Token>, position: nat, left: Expression) -> Result<
    (Expression, nat),
    ErrorView,
>
    decreases remaining(tokens, position), 2nat,
{
    let operator = type_at(tokens, position);
    if operator == TokenType::MULTIPLY || operator == TokenType::DIVIDE {
        match unary_at(tokens, position + 1) {
            Err(error) => Err(error),
            Ok((right, used)) => {
                let joined = if operator == TokenType::MULTIPLY {
                    Expression::Product { left: Box::new(left), right: Box::new(right) }
                } else {
                    Expression::Division { left: Box::new(left), right: Box::new(right) }
                };
                match factor_rest(tokens, position + 1 + used, joined) {
                    Err(error) => Err(error),
                    Ok((tree, more)) => Ok((tree, 1 + used + more)),
                }
            },
        }
    } else {
        Ok((left, 0))
    }
}

/// The factor that starts at `position`, and the number of tokens it spans:
/// unary expressions joined by `*` and `/`, grouped to the left.
pub open spec fn factor_at(tokens: Seq<Token>, position: nat) -> Result<
    (Expression, nat),
    ErrorView,
>
    decreases remaining(tokens, position), 3nat,
{
    match unary_at(tokens, position) {
        Err(error) => Err(error),
        Ok((left, used)) => match factor_rest(tokens, position + used, left) {
            Err(error) => Err(error),
            Ok((tree, more)) => Ok((tree, used + more)),
        },
    }
}

/// What a term becomes once `left` has been read and `position` is reached:
/// for as long as `+` or `-` stands there, the factor behind it is added to
/// the left, negated where the operator is `-`. The number counts the tokens
/// from `position` on.
pub open spec fn term_rest(tokens: Seq<Token>, position: nat, left: Expression) -> Result<
    (Expression, nat),
    ErrorView,
>
    decreases remaining(tokens, position), 4nat,
{
    let operator = type_at(tokens, position);
    if operator == TokenType::PLUS || operator == TokenType::MINUS {
        match factor_at(tokens, position + 1) {
            Err(error) => Err(error),
            Ok((factor, used)) => {
                let right = if operator == TokenType::MINUS {
                    Expression::Negation(Box::new(factor))
                } else {
                    factor
                };
                let joined = Expression::Sum { left: Box::new(left), right: Box::new(right) };
                match term_rest(tokens, position + 1 + used, joined) {
                    Err(error) => Err(error),
                    Ok((tree, more)) => Ok((tree, 1 + used + more)),
                }
            },
        }
    } else {
        Ok((left, 0))
    }
}

/// The term that starts at `position`, and the number of tokens it spans:
/// factors joined by `+` and `-`, grouped to the left.
pub open spec fn term_at(tokens: Seq<Token>, position: nat) -> Result<
    (Expression, nat),
    ErrorView,
>
    decreases remaining(tokens, position), 5nat,
{
    match factor_at(tokens, position) {
        Err(error) => Err(error),
        Ok((left, used)) => match term_rest(tokens, position + used, left) {
            Err(error) => Err(error),
            Ok((tree, more)) => Ok((tree, used + more)),
        },
    }
}

/// The expression that starts at `position` and runs to the end of the
/// input: a term with `EOF` behind it.
pub open spec fn expression_at(tokens: Seq<Token>, position: nat) -> Result<
    Expression,
    ErrorView,
> {
    match term_at(tokens, position) {
        Err(error) => Err(error),
        Ok((tree, used)) => if type_at(tokens, position + used) == TokenType::EOF {
            Ok(tree)
        } else {
            Err(mismatch(tokens, position + used, TokenType::EOF))
        },
    }
}

/// The tree of a whole token sequence, or the first mismatch between the
/// tokens and the grammar.
pub open spec fn syntax_tree(tokens: Seq<Token>) -> Result<Expression, ErrorView> {
    expression_at(tokens, 0)
}

/// The outcome is a success or a `SyntaxError`.
pub open spec fn fails_in_syntax<T>(outcome: Result<T, ErrorView>) -> bool {
    match outcome {
        Ok(_) => true,
        Err(error) => error is SyntaxError,
    }
}

/// A primary fails only with a `SyntaxError`.
pub proof fn lemma_primary_fails_in_syntax(tokens: Seq<Token>, position: nat)
    ensures
        fails_in_syntax(primary_at(tokens, position)),
    decreases remaining(tokens, position), 0nat,
{
    if type_at(tokens, position) == TokenType::LPAREN {
        lemma_term_fails_in_syntax(tokens, position + 1);
    }
}

/// A unary expression fails only with a `SyntaxError`.
pub proof fn lemma_unary_fails_in_syntax(tokens: Seq<Token>, position: nat)
    ensures
        fails_in_syntax(unary_at(tokens, position)),
    decreases remaining(tokens, position), 1nat,
{
    let sign = type_at(tokens, position);
    if sign == TokenType::MINUS || sign == TokenType::PLUS {
        lemma_primary_fails_in_syntax(tokens, position + 1);
    } else {
        lemma_primary_fails_in_syntax(tokens, position);
    }
}

/// The rest of a factor fails only with a `SyntaxError`.
pub proof fn lemma_factor_rest_fails_in_syntax(tokens: Seq<Token>, position: nat, left: Expression)
    ensures
        fails_in_syntax(factor_rest(tokens, position, left)),
    decreases remaining(tokens, position), 2nat,
{
    let operator = type_at(tokens, position);
    if operator == TokenType::MULTIPLY || operator == TokenType::DIVIDE {
        lemma_unary_fails_in_syntax(tokens, position + 1);
        if let Ok((right, used)) = unary_at(tokens, position + 1) {
            let joined = if operator == TokenType::MULTIPLY {
                Expression::Product { left: Box::new(left), right: Box::new(right) }
            } else {
                Expression::Division { left: Box::new(left), right: Box::new(right) }
            };
            lemma_factor_rest_fails_in_syntax(tokens, position + 1 + used, joined);
        }
    }
}

/// A factor fails only with a `SyntaxError`.
pub proof fn lemma_factor_fails_in_syntax(tokens: Seq<Token>, position: nat)
    ensures
        fails_in_syntax(factor_at(tokens, position)),
    decreases remaining(tokens, position), 3nat,
{
    lemma_unary_fails_in_syntax(tokens, position);
    if let Ok((left, used)) = unary_at(tokens, position) {
        lemma_factor_rest_fails_in_syntax(tokens, position + used, left);
    }
}

/// The rest of a term fails only with a `SyntaxError`.
pub proof fn lemma_term_rest_fails_in_syntax(tokens: Seq<Token>, position: nat, left: Expression)
    ensures
        fails_in_syntax(term_rest(tokens, position, left)),
    decreases remaining(tokens, position), 4nat,
{
    let operator = type_at(tokens, position);
    if operator == TokenType::PLUS || operator == TokenType::MINUS {
        lemma_factor_fails_in_syntax(tokens, position + 1);
        if let Ok((factor, used)) = factor_at(tokens, position + 1) {
            let right = if operator == TokenType::MINUS {
                Expression::Negation(Box::new(factor))
            } else {
                factor
            };
            let joined = Expression::Sum { left: Box::new(left), right: Box::new(right) };
            lemma_term_rest_fails_in_syntax(tokens, position + 1 + used, joined);
        }
    }
}

/// A term fails only with a `SyntaxError`.
pub proof fn lemma_term_fails_in_syntax(tokens: Seq<Token>, position: nat)
    ensures
        fails_in_syntax(term_at(tokens, position)),
    decreases remaining(tokens, position), 5nat,
{
    lemma_factor_fails_in_syntax(tokens, position);
    if let Ok((left, used)) = factor_at(tokens, position) {
        lemma_term_rest_fails_in_syntax(tokens, position + used, left);
    }
}

/// The parser fails only with a `SyntaxError`.
pub proof fn lemma_parser_fails_in_syntax(tokens: Seq<Token>, position: nat)
    ensures
        fails_in_syntax(expression_at(tokens, position)),
        fails_in_syntax(syntax_tree(tokens)),
{
    lemma_term_fails_in_syntax(tokens, position);
    lemma_term_fails_in_syntax(tokens, 0);
}

/// A number with no `*` or `/` behind it is a primary, a unary expression and
/// a factor at once.
pub proof fn lemma_number_operand(tokens: Seq<Token>, position: nat)
    requires
        position < tokens.len(),
        tokens[position as int] is Number,
        type_at(tokens, position + 1) != TokenType::MULTIPLY,
        type_at(tokens, position + 1) != TokenType::DIVIDE,
    ensures
        primary_at(tokens, position) == Ok::<(Expression, nat), ErrorView>(
            (Expression::Number(tokens[position as int]->Number_0), 1),
        ),
        unary_at(tokens, position) == primary_at(tokens, position),
        factor_at(tokens, position) == primary_at(tokens, position),
{
    let tree = Expression::Number(tokens[position as int]->Number_0);
    assert(primary_at(tokens, position) == Ok::<(Expression, nat), ErrorView>((tree, 1)));
    assert(unary_at(tokens, position) == primary_at(tokens, position));
    assert(factor_rest(tokens, position + 1, tree) == Ok::<(Expression, nat), ErrorView>(
        (tree, 0),
    ));
}

/// A number behind a minus sign, with no `*` or `/` behind it, is a unary
/// expression and a factor: the negation of the number.
pub proof fn lemma_negated_number_operand(tokens: Seq<Token>, position: nat)
    requires
        position + 1 < tokens.len(),
        tokens[position as int] == Token::Symbol(TokenType::MINUS),
        tokens[position + 1int] is Number,
        type_at(tokens, position + 2) != TokenType::MULTIPLY,
        type_at(tokens, position + 2) != TokenType::DIVIDE,
    ensures
        unary_at(tokens, position) == Ok::<(Expression, nat), ErrorView>(
            (Expression::Negation(Box::new(Expression::Number(tokens[position + 1int]->Number_0))), 2),
        ),
        factor_at(tokens, position) == unary_at(tokens, position),
{
    let number = Expression::Number(tokens[position + 1int]->Number_0);
    let tree = Expression::Negation(Box::new(number));
    assert(primary_at(tokens, position + 1) == Ok::<(Expression, nat), ErrorView>((number, 1)));
    assert(unary_at(tokens, position) == Ok::<(Expression, nat), ErrorView>((tree, 2)));
    assert(factor_rest(tokens, position + 2, tree) == Ok::<(Expression, nat), ErrorView>(
        (tree, 0),
    ));
}

/// A parser over a token sequence, with one token of lookahead and no way
/// back.
pub struct Parser {
    tokens: Vec<Token>,
    position: usize,
}

impl Parser {
    #[verifier::type_invariant]
    closed spec fn well_formed(self) -> bool {
        self.position <= self.tokens.len()
    }

    /// The tokens that the parser reads.
    pub closed spec fn tokens(self) -> Seq<Token> {
        self.tokens@
    }

    /// How many tokens have been read.
    pub closed spec fn position(self) -> nat {
        self.position as nat
    }

    /// A parser at the first of `tokens`.
    pub fn new(tokens: Vec<Token>) -> (parser: Parser)
        ensures
            parser.tokens() == tokens@,
            parser.position() == 0,
    {
        Parser { tokens, position: 0 }
    }

    /// Parses the tokens into one expression that reaches the end of the
    /// input. The first token that the grammar does not allow ends the parse
    /// with a `SyntaxError`.
    pub fn parse(self) -> (result: Result<Expression, Error>)
        ensures
            match result {
                Ok(tree) => expression_at(self.tokens(), self.position()) == Ok::<
                    Expression,
                    ErrorView,
                >(tree),
                Err(error) => expression_at(self.tokens(), self.position()) == Err::<
                    Expression,
                    ErrorView,
                >(error@),
            },
    {
        let mut parser = self;
        let expression = match parser.parse_expression() {
            Ok(expression) => expression,
            Err(error) => return Err(error),
        };
        match parser.eat(TokenType::EOF) {
            Ok(_) => Ok(expression),
            Err(error) => Err(error),
        }
    }

    /// Parses what stands between parentheses, or the whole input: a term.
    fn parse_expression(&mut self) -> (result: Result<Expression, Error>)
        ensures
            final(self).tokens() == old(self).tokens(),
            match result {
                Ok(tree) => term_at(old(self).tokens(), old(self).position()) == Ok::<
                    (Expression, nat),
                    ErrorView,
                >((tree, (final(self).position() - old(self).position()) as nat))
                    && final(self).position() >= old(self).position(),
                Err(error) => term_at(old(self).tokens(), old(self).position()) == Err::<
                    (Expression, nat),
                    ErrorView,
                >(error@),
            },
        decreases remaining(old(self).tokens(), old(self).position()), 6nat,
    {
        self.parse_term()
    }

    /// Parses factors joined by `+` and `-`.
    fn parse_term(&mut self) -> (result: Result<Expression, Error>)
        ensures
            final(self).tokens() == old(self).tokens(),
            match result {
                Ok(tree) => term_at(old(self).tokens(), old(self).position()) == Ok::<
                    (Expression, nat),
                    ErrorView,
                >((tree, (final(self).position() - old(self).position()) as nat))
                    && final(self).position() >= old(self).position(),
                Err(error) => term_at(old(self).tokens(), old(self).position()) == Err::<
                    (Expression, nat),
                    ErrorView,
                >(error@),
            },
        decreases remaining(old(self).tokens(), old(self).position()), 5nat,
    {
        let ghost tokens = self.tokens();
        let ghost start = self.position();
        let mut expression = match self.parse_factor() {
            Ok(expression) => expression,
            Err(error) => return Err(error),
        };
        while self.check_any(vec![TokenType::PLUS, TokenType::MINUS])
            invariant
                tokens == old(self).tokens(),
                start == old(self).position(),
                self.tokens() == tokens,
                start <= self.position(),
                remaining(tokens, self.position()) <= remaining(tokens, start),
                term_at(tokens, start) == match term_rest(tokens, self.position(), expression) {
                    Ok((tree, more)) => Ok::<(Expression, nat), ErrorView>(
                        (tree, (self.position() - start + more) as nat),
                    ),
                    Err(error) => Err(error),
                },
            decreases remaining(tokens, self.position()),
        {
            let operator = self.current_type();
            self.advance();
            let factor = match self.parse_factor() {
                Ok(factor) => factor,
                Err(error) => return Err(error),
            };
            let right_expression = if operator == TokenType::MINUS {
                Expression::Negation(Box::new(factor))
            } else {
                factor
            };
            expression =
            Expression::Sum { left: Box::new(expression), right: Box::new(right_expression) };
        }
        Ok(expression)
    }

    /// Parses unary expressions joined by `*` and `/`.
    fn parse_factor(&mut self) -> (result: Result<Expression, Error>)
        ensures
            final(self).tokens() == old(self).tokens(),
            match result {
                Ok(tree) => factor_at(old(self).tokens(), old(self).position()) == Ok::<
                    (Expression, nat),
                    ErrorView,
                >((tree, (final(self).position() - old(self).position()) as nat))
                    && final(self).position() >= old(self).position(),
                Err(error) => factor_at(old(self).tokens(), old(self).position()) == Err::<
                    (Expression, nat),
                    ErrorView,
                >(error@),
            },
        decreases remaining(old(self).tokens(), old(self).position()), 3nat,
    {
        let ghost tokens = self.tokens();
        let ghost start = self.position();
        let mut expression = match self.parse_unary() {
            Ok(expression) => expression,
            Err(error) => return Err(error),
        };
        while self.check_any(vec![TokenType::MULTIPLY, TokenType::DIVIDE])
            invariant
                tokens == old(self).tokens(),
                start == old(self).position(),
                self.tokens() == tokens,
                start <= self.position(),
                remaining(tokens, self.position()) <= remaining(tokens, start),
                factor_at(tokens, start) == match factor_rest(
                    tokens,
                    self.position(),
                    expression,
                ) {
                    Ok((tree, more)) => Ok::<(Expression, nat), ErrorView>(
                        (tree, (self.position() - start + more) as nat),
                    ),
                    Err(error) => Err(error),
                },
            decreases remaining(tokens, self.position()),
        {
            let operator = self.current_type();
            self.advance();
            let right_expression = match self.parse_unary() {
                Ok(unary) => unary,
                Err(error) => return Err(error),
            };
            if operator == TokenType::MULTIPLY {
                expression =
                Expression::Product {
                    left: Box::new(expression),
                    right: Box::new(right_expression),
                };
            } else {
                expression =
                Expression::Division {
                    left: Box::new(expression),
                    right: Box::new(right_expression),
                };
            }
        }
        Ok(expression)
    }

    /// Parses a primary behind at most one sign.
    fn parse_unary(&mut self) -> (result: Result<Expression, Error>)
        ensures
            final(self).tokens() == old(self).tokens(),
            match result {
                Ok(tree) => unary_at(old(self).tokens(), old(self).position()) == Ok::<
                    (Expression, nat),
                    ErrorView,
                >((tree, (final(self).position() - old(self).position()) as nat))
                    && final(self).position() >= old(self).position(),
                Err(error) => unary_at(old(self).tokens(), old(self).position()) == Err::<
                    (Expression, nat),
                    ErrorView,
                >(error@),
            },
        decreases remaining(old(self).tokens(), old(self).position()), 1nat,
    {
        if self.check_any(vec![TokenType::PLUS, TokenType::MINUS]) {
            let operator = self.current_type();
            self.advance();
            if operator == TokenType::MINUS {
                return match self.parse_primary() {
                    Ok(primary) => Ok(Expression::Negation(Box::new(primary))),
                    Err(error) => Err(error),
                };
            }
        }
        self.parse_primary()
    }

    /// Parses a number, or a term between parentheses.
    fn parse_primary(&mut self) -> (result: Result<Expression, Error>)
        ensures
            final(self).tokens() == old(self).tokens(),
            match result {
                Ok(tree) => primary_at(old(self).tokens(), old(self).position()) == Ok::<
                    (Expression, nat),
                    ErrorView,
                >((tree, (final(self).position() - old(self).position()) as nat))
                    && final(self).position() >= old(self).position(),
                Err(error) => primary_at(old(self).tokens(), old(self).position()) == Err::<
                    (Expression, nat),
                    ErrorView,
                >(error@),
            },
        decreases remaining(old(self).tokens(), old(self).position()), 0nat,
    {
        if self.check(TokenType::LPAREN) {
            self.advance();
            let expression = match self.parse_expression() {
                Ok(expression) => expression,
                Err(error) => return Err(error),
            };
            match self.eat(TokenType::RPAREN) {
                Ok(_) => Ok(expression),
                Err(error) => Err(error),
            }
        } else {
            match self.eat(TokenType::NUMBER) {
                Ok(Token::Number(fraction)) => Ok(Expression::Number(fraction)),
                Ok(_) => Err(
                    Error::SyntaxError { expected: TokenType::NUMBER, found: TokenType::NUMBER },
                ),
                Err(error) => Err(error),
            }
        }
    }

    /// Hands back the current token where it is of the category
    /// `token_type`, and reports a `SyntaxError` where it is not. Either way
    /// the parser moves to the next token.
    fn eat(&mut self, token_type: TokenType) -> (result: Result<Token, Error>)
        ensures
            final(self).tokens() == old(self).tokens(),
            final(self).position() == if old(self).position() < old(self).tokens().len() {
                old(self).position() + 1
            } else {
                old(self).position()
            },
            match result {
                Ok(token) => type_at(old(self).tokens(), old(self).position()) == token_type
                    && token == current(old(self).tokens(), old(self).position()),
                Err(error) => type_at(old(self).tokens(), old(self).position()) != token_type
                    && error@ == mismatch(old(self).tokens(), old(self).position(), token_type),
            },
    {
        let result = if self.check(token_type) {
            Ok(self.current_token())
        } else {
            Err(Error::SyntaxError { expected: token_type, found: self.current_type() })
        };
        self.advance();
        result
    }

    /// Whether the current token is of one of the categories `token_types`.
    fn check_any(&self, token_types: Vec<TokenType>) -> (found: bool)
        ensures
            found == token_types@.contains(type_at(self.tokens(), self.position())),
    {
        let mut index: usize = 0;
        while index < token_types.len()
            invariant
                index <= token_types.len(),
                forall|i: int|
                    0 <= i < index ==> token_types@[i] != type_at(self.tokens(), self.position()),
            decreases token_types.len() - index,
        {
            if self.check(token_types[index]) {
                return true;
            }
            index += 1;
        }
        false
    }

    /// Whether the current token is of the category `token_type`.
    fn check(&self, token_type: TokenType) -> (found: bool)
        ensures
            found == (type_at(self.tokens(), self.position()) == token_type),
    {
        self.current_type() == token_type
    }

    /// The current token; `EndOfFile` behind the last one.
    fn current_token(&self) -> (token: Token)
        ensures
            token == current(self.tokens(), self.position()),
    {
        proof {
            use_type_invariant(self);
        }
        if self.position < self.tokens.len() {
            self.tokens[self.position]
        } else {
            Token::EndOfFile
        }
    }

    /// The category of the current token.
    fn current_type(&self) -> (token_type: TokenType)
        ensures
            token_type == type_at(self.tokens(), self.position()),
    {
        self.current_token().token_type()
    }

    /// Moves to the next token, unless the last one has been passed.
    fn advance(&mut self)
        ensures
            final(self).tokens() == old(self).tokens(),
            final(self).position() == if old(self).position() < old(self).tokens().len() {
                old(self).position() + 1
            } else {
                old(self).position()
            },
    {
        proof {
            use_type_invariant(&*self);
        }
        if self.position < self.tokens.len() {
            self.position += 1;
        }
    }
}

} // verus!
