//! From source text to value.

use vstd::prelude::*;
use crate::arith::gcd;
use crate::digits::{decimal_text, lemma_decimal_text};
use crate::error::{Error, ErrorView};
use crate::expression::Expression;
use crate::fraction::{Fraction, Ratio};
use crate::lexer::{
    is_literal, lemma_digits_end_of_digits, lemma_literal_in_context, lemma_literal_value,
    lemma_tokens_at_end, lemma_tokens_behind_blank, lemma_tokens_behind_literal,
    lemma_tokens_behind_symbol, literal_value, number_at, token_at, tokens_from, tokens_of, Lexer,
};
use crate::parser::{
    factor_at, factor_rest, lemma_negated_number_operand, lemma_number_operand, primary_at,
    syntax_tree, term_at, term_rest, unary_at, Parser,
};
use crate::reducer::{reduce, value_of};
use crate::sign::Sign;
use crate::token::Token;
use crate::token_type::TokenType;

verus! {

/// The value of a source text: the value of the tree of its tokens, or the
/// first error on the way there.
pub open spec fn evaluation(source: Seq<char>) -> Result<Ratio, ErrorView> {
    match tokens_of(source) {
        Err(error) => Err(error),
        Ok(tokens) => match syntax_tree(tokens) {
            Err(error) => Err(error),
            Ok(tree) => value_of(tree),
        },
    }
}

/// Evaluates an arithmetic expression given as text to a fraction in lowest
/// terms.
pub fn evaluate(expression: String) -> (result: Result<Fraction, Error>)
    ensures
        match result {
            Ok(fraction) => evaluation(expression@) == Ok::<Ratio, ErrorView>(fraction@),
            Err(error) => evaluation(expression@) == Err::<Ratio, ErrorView>(error@),
        },
{
    let tokens = match Lexer::new(expression).lex() {
        Ok(tokens) => tokens,
        Err(error) => return Err(error),
    };
    let expression_tree = match Parser::new(tokens).parse() {
        Ok(tree) => tree,
        Err(error) => return Err(error),
    };
    reduce(expression_tree)
}

/// An integer in decimal notation, behind a minus sign where it is below
/// zero.
pub open spec fn integer_text(n: int) -> Seq<char> {
    if n < 0 {
        seq!['-'] + decimal_text((-n) as nat)
    } else {
        decimal_text(n as nat)
    }
}

/// The digits of a number that fits in 64 bits are a literal with the value
/// of that number over 1.
pub proof fn lemma_digits_are_literal(n: nat)
    requires
        n <= u64::MAX,
    ensures
        is_literal(decimal_text(n)),
        literal_value(decimal_text(n)) == Ok::<Ratio, ErrorView>(
            Ratio { sign: Sign::Positive, numerator: n, denominator: 1 },
        ),
{
    let text = decimal_text(n);
    lemma_decimal_text(n);
    lemma_digits_end_of_digits(text, 0);
    assert(text.subrange(0, text.len() as int) =~= text);
    assert(gcd(n, 1) == 1) by {
        assert(n % 1 == 0);
        assert(gcd(1, 0) == 1);
    }
    assert(is_literal(text));
    assert(number_at(text, 0) == Ok::<(Ratio, int), ErrorView>(
        (Ratio { sign: Sign::Positive, numerator: n, denominator: 1 }, text.len() as int),
    ));
}

/// An integer written in decimal notation evaluates to itself over 1, under
/// its own sign.
pub proof fn lemma_integer_evaluates(n: int)
    requires
        -(u64::MAX as int) <= n <= u64::MAX,
    ensures
        evaluation(integer_text(n)) == Ok::<Ratio, ErrorView>(
            Ratio {
                sign: if n < 0 {
                    Sign::Negative
                } else {
                    Sign::Positive
                },
                numerator: if n < 0 {
                    (-n) as nat
                } else {
                    n as nat
                },
                denominator: 1,
            },
        ),
{
    broadcast use Fraction::lemma_view_from_ratio;

    let magnitude = if n < 0 {
        (-n) as nat
    } else {
        n as nat
    };
    let digits = decimal_text(magnitude);
    let source = integer_text(n);
    let ratio = Ratio { sign: Sign::Positive, numerator: magnitude, denominator: 1 };
    let number = Token::Number(Fraction::from_ratio(ratio));
    let leaf = Expression::Number(Fraction::from_ratio(ratio));
    lemma_digits_are_literal(magnitude);
    lemma_decimal_text(magnitude);
    let end = source.len() as int;
    assert(tokens_from(source, end) == Ok::<Seq<Token>, ErrorView>(seq![Token::EndOfFile]));
    if n < 0 {
        assert(source.subrange(1, end) =~= digits);
        lemma_literal_in_context(source, 1, digits);
        assert(tokens_from(source, 1) == Ok::<Seq<Token>, ErrorView>(
            seq![number] + seq![Token::EndOfFile],
        ));
        assert(source[0] == '-');
        assert(token_at(source, 0) == Ok::<(Option<Token>, int), ErrorView>(
            (Some(Token::Symbol(TokenType::MINUS)), 1),
        ));
        let tokens = seq![Token::Symbol(TokenType::MINUS)] + (seq![number] + seq![
            Token::EndOfFile,
        ]);
        assert(tokens_of(source) == Ok::<Seq<Token>, ErrorView>(tokens));
        lemma_negated_number_operand(tokens, 0);
        let tree = Expression::Negation(Box::new(leaf));
        assert(term_rest(tokens, 2, tree) == Ok::<(Expression, nat), ErrorView>((tree, 0)));
        assert(term_at(tokens, 0) == Ok::<(Expression, nat), ErrorView>((tree, 2)));
        assert(syntax_tree(tokens) == Ok::<Expression, ErrorView>(tree));
        assert(value_of(leaf) == Ok::<Ratio, ErrorView>(ratio));
        assert(value_of(tree) == Ok::<Ratio, ErrorView>(ratio.negated()));
    } else {
        assert(source.subrange(0, end) =~= digits);
        lemma_literal_in_context(source, 0, digits);
        let tokens = seq![number] + seq![Token::EndOfFile];
        assert(tokens_of(source) == Ok::<Seq<Token>, ErrorView>(tokens));
        lemma_number_operand(tokens, 0);
        assert(term_rest(tokens, 1, leaf) == Ok::<(Expression, nat), ErrorView>((leaf, 0)));
        assert(term_at(tokens, 0) == Ok::<(Expression, nat), ErrorView>((leaf, 1)));
        assert(syntax_tree(tokens) == Ok::<Expression, ErrorView>(leaf));
        assert(value_of(leaf) == Ok::<Ratio, ErrorView>(ratio));
    }
}

/// The difference of two literals, written with a blank on either side of the
/// minus sign.
pub open spec fn difference_text(a: Seq<char>, b: Seq<char>) -> Seq<char> {
    a + seq![' ', '-', ' '] + b
}

/// The sum of a literal and the negation of another, the negation written
/// between parentheses.
pub open spec fn negated_sum_text(a: Seq<char>, b: Seq<char>) -> Seq<char> {
    a + seq![' ', '+', ' ', '(', '-'] + b + seq![')']
}

/// What both notations of a difference evaluate to: the sum of the first
/// value and the negated second value.
pub open spec fn difference_value(a: Seq<char>, b: Seq<char>) -> Result<Ratio, ErrorView> {
    match literal_value(a) {
        Err(error) => Err(error),
        Ok(left) => match literal_value(b) {
            Err(error) => Err(error),
            Ok(right) => left.checked_sum(right.negated()),
        },
    }
}

/// Subtracting a literal is adding its negation: `a - b` and `a + (-b)`
/// evaluate to the same result.
pub proof fn lemma_difference_is_negated_sum(a: Seq<char>, b: Seq<char>)
    requires
        is_literal(a),
        is_literal(b),
    ensures
        evaluation(difference_text(a, b)) == difference_value(a, b),
        evaluation(negated_sum_text(a, b)) == difference_value(a, b),
        evaluation(difference_text(a, b)) == evaluation(negated_sum_text(a, b)),
{
    lemma_difference_tokens(a, b);
    lemma_negated_sum_tokens(a, b);
    lemma_literal_value(a);
    lemma_literal_value(b);
    if let Ok(left) = literal_value(a) {
        if let Ok(right) = literal_value(b) {
            lemma_difference_tree(Fraction::from_ratio(left), Fraction::from_ratio(right));
            lemma_negated_sum_tree(Fraction::from_ratio(left), Fraction::from_ratio(right));
            lemma_difference_tree_value(left, right);
        }
    }
}

/// Where the two notations of a difference stand in their texts.
proof fn lemma_difference_texts(a: Seq<char>, b: Seq<char>)
    ensures
        ({
            let first = a.len() as int;
            let text = difference_text(a, b);
            &&& text.len() == first + 3 + b.len()
            &&& text.subrange(0, first) == a
            &&& text.subrange(first + 3, first + 3 + b.len()) == b
            &&& text[first] == ' '
            &&& text[first + 1] == '-'
            &&& text[first + 2] == ' '
        }),
        ({
            let first = a.len() as int;
            let text = negated_sum_text(a, b);
            &&& text.len() == first + 5 + b.len() + 1
            &&& text.subrange(0, first) == a
            &&& text.subrange(first + 5, first + 5 + b.len()) == b
            &&& text[first] == ' '
            &&& text[first + 1] == '+'
            &&& text[first + 2] == ' '
            &&& text[first + 3] == '('
            &&& text[first + 4] == '-'
            &&& text[first + 5 + b.len()] == ')'
        }),
{
    let first = a.len() as int;
    let difference = difference_text(a, b);
    assert(difference.subrange(0, first) =~= a);
    assert(difference.subrange(first + 3, first + 3 + b.len()) =~= b);
    let sum = negated_sum_text(a, b);
    assert(sum.subrange(0, first) =~= a);
    assert(sum.subrange(first + 5, first + 5 + b.len()) =~= b);
}

/// The tokens of a literal that ends the source.
proof fn lemma_tokens_of_last_literal(source: Seq<char>, start: int, text: Seq<char>)
    requires
        is_literal(text),
        0 <= start,
        start + text.len() == source.len(),
        source.subrange(start, start + text.len()) == text,
    ensures
        tokens_from(source, start) == match literal_value(text) {
            Err(error) => Err::<Seq<Token>, ErrorView>(error),
            Ok(value) => Ok(seq![Token::Number(Fraction::from_ratio(value)), Token::EndOfFile]),
        },
{
    lemma_tokens_at_end(source);
    lemma_tokens_behind_literal(source, start, text);
    if let Ok(value) = literal_value(text) {
        let number = Token::Number(Fraction::from_ratio(value));
        assert(seq![number] + seq![Token::EndOfFile] =~= seq![number, Token::EndOfFile]);
    }
}

/// The tokens of a literal with a closing parenthesis behind it that ends the
/// source.
proof fn lemma_tokens_of_closed_literal(source: Seq<char>, start: int, text: Seq<char>)
    requires
        is_literal(text),
        0 <= start,
        start + text.len() + 1 == source.len(),
        source.subrange(start, start + text.len()) == text,
        source[start + text.len()] == ')',
    ensures
        tokens_from(source, start) == match literal_value(text) {
            Err(error) => Err::<Seq<Token>, ErrorView>(error),
            Ok(value) => Ok(
                seq![
                    Token::Number(Fraction::from_ratio(value)),
                    Token::Symbol(TokenType::RPAREN),
                    Token::EndOfFile,
                ],
            ),
        },
{
    let close = start + text.len();
    lemma_tokens_at_end(source);
    lemma_tokens_behind_symbol(source, close);
    lemma_tokens_behind_literal(source, start, text);
    if let Ok(value) = literal_value(text) {
        let number = Token::Number(Fraction::from_ratio(value));
        let close = Token::Symbol(TokenType::RPAREN);
        assert(seq![number] + (seq![close] + seq![Token::EndOfFile]) =~= seq![
            number,
            close,
            Token::EndOfFile,
        ]);
    }
}

/// The tokens of ` - ` and what follows it.
proof fn lemma_tokens_from_minus(source: Seq<char>, start: int)
    requires
        0 <= start,
        start + 3 <= source.len(),
        source[start] == ' ',
        source[start + 1] == '-',
        source[start + 2] == ' ',
    ensures
        tokens_from(source, start) == match tokens_from(source, start + 3) {
            Err(error) => Err::<Seq<Token>, ErrorView>(error),
            Ok(rest) => Ok(seq![Token::Symbol(TokenType::MINUS)] + rest),
        },
{
    lemma_tokens_behind_blank(source, start + 2);
    lemma_tokens_behind_symbol(source, start + 1);
    lemma_tokens_behind_blank(source, start);
}

/// The tokens of ` + (-` and what follows it.
proof fn lemma_tokens_from_plus(source: Seq<char>, start: int)
    requires
        0 <= start,
        start + 5 <= source.len(),
        source[start] == ' ',
        source[start + 1] == '+',
        source[start + 2] == ' ',
        source[start + 3] == '(',
        source[start + 4] == '-',
    ensures
        tokens_from(source, start) == match tokens_from(source, start + 5) {
            Err(error) => Err::<Seq<Token>, ErrorView>(error),
            Ok(rest) => Ok(
                seq![
                    Token::Symbol(TokenType::PLUS),
                    Token::Symbol(TokenType::LPAREN),
                    Token::Symbol(TokenType::MINUS),
                ] + rest,
            ),
        },
{
    lemma_tokens_behind_symbol(source, start + 4);
    lemma_tokens_behind_symbol(source, start + 3);
    lemma_tokens_behind_blank(source, start + 2);
    lemma_tokens_behind_symbol(source, start + 1);
    lemma_tokens_behind_blank(source, start);
    if let Ok(rest) = tokens_from(source, start + 5) {
        let plus = Token::Symbol(TokenType::PLUS);
        let minus = Token::Symbol(TokenType::MINUS);
        let open = Token::Symbol(TokenType::LPAREN);
        assert(seq![plus] + (seq![open] + (seq![minus] + rest)) =~= seq![plus, open, minus]
            + rest);
    }
}

/// The tokens of a difference of two literals.
proof fn lemma_difference_tokens(a: Seq<char>, b: Seq<char>)
    requires
        is_literal(a),
        is_literal(b),
    ensures
        tokens_of(difference_text(a, b)) == match literal_value(a) {
            Err(error) => Err::<Seq<Token>, ErrorView>(error),
            Ok(left) => match literal_value(b) {
                Err(error) => Err(error),
                Ok(right) => Ok(
                    seq![
                        Token::Number(Fraction::from_ratio(left)),
                        Token::Symbol(TokenType::MINUS),
                        Token::Number(Fraction::from_ratio(right)),
                        Token::EndOfFile,
                    ],
                ),
            },
        },
{
    let source = difference_text(a, b);
    let first = a.len() as int;
    lemma_difference_texts(a, b);
    lemma_tokens_of_last_literal(source, first + 3, b);
    lemma_tokens_from_minus(source, first);
    lemma_tokens_behind_literal(source, 0, a);
    if let Ok(left) = literal_value(a) {
        if let Ok(right) = literal_value(b) {
            let left_token = Token::Number(Fraction::from_ratio(left));
            let right_token = Token::Number(Fraction::from_ratio(right));
            let minus = Token::Symbol(TokenType::MINUS);
            assert(seq![left_token] + (seq![minus] + seq![right_token, Token::EndOfFile])
                =~= seq![left_token, minus, right_token, Token::EndOfFile]);
        }
    }
}

/// The tokens of a sum of a literal and a negated literal.
proof fn lemma_negated_sum_tokens(a: Seq<char>, b: Seq<char>)
    requires
        is_literal(a),
        is_literal(b),
    ensures
        tokens_of(negated_sum_text(a, b)) == match literal_value(a) {
            Err(error) => Err::<Seq<Token>, ErrorView>(error),
            Ok(left) => match literal_value(b) {
                Err(error) => Err(error),
                Ok(right) => Ok(
                    seq![
                        Token::Number(Fraction::from_ratio(left)),
                        Token::Symbol(TokenType::PLUS),
                        Token::Symbol(TokenType::LPAREN),
                        Token::Symbol(TokenType::MINUS),
                        Token::Number(Fraction::from_ratio(right)),
                        Token::Symbol(TokenType::RPAREN),
                        Token::EndOfFile,
                    ],
                ),
            },
        },
{
    let source = negated_sum_text(a, b);
    let first = a.len() as int;
    lemma_difference_texts(a, b);
    lemma_tokens_of_closed_literal(source, first + 5, b);
    lemma_tokens_from_plus(source, first);
    lemma_tokens_behind_literal(source, 0, a);
    if let Ok(left) = literal_value(a) {
        if let Ok(right) = literal_value(b) {
            let left_token = Token::Number(Fraction::from_ratio(left));
            let right_token = Token::Number(Fraction::from_ratio(right));
            let plus = Token::Symbol(TokenType::PLUS);
            let minus = Token::Symbol(TokenType::MINUS);
            let open = Token::Symbol(TokenType::LPAREN);
            let close = Token::Symbol(TokenType::RPAREN);
            assert(seq![left_token] + (seq![plus, open, minus] + seq![
                right_token,
                close,
                Token::EndOfFile,
            ]) =~= seq![left_token, plus, open, minus, right_token, close, Token::EndOfFile]);
        }
    }
}

/// The tree of `a - b`.
proof fn lemma_difference_tree(left: Fraction, right: Fraction)
    ensures
        syntax_tree(
            seq![
                Token::Number(left),
                Token::Symbol(TokenType::MINUS),
                Token::Number(right),
                Token::EndOfFile,
            ],
        ) == Ok::<Expression, ErrorView>(
            Expression::Sum {
                left: Box::new(Expression::Number(left)),
                right: Box::new(Expression::Negation(Box::new(Expression::Number(right)))),
            },
        ),
{
    let tokens = seq![
        Token::Number(left),
        Token::Symbol(TokenType::MINUS),
        Token::Number(right),
        Token::EndOfFile,
    ];
    let left_leaf = Expression::Number(left);
    let negation = Expression::Negation(Box::new(Expression::Number(right)));
    let tree = Expression::Sum { left: Box::new(left_leaf), right: Box::new(negation) };
    lemma_number_operand(tokens, 0);
    lemma_number_operand(tokens, 2);
    assert(term_rest(tokens, 3, tree) == Ok::<(Expression, nat), ErrorView>((tree, 0)));
    assert(term_rest(tokens, 1, left_leaf) == Ok::<(Expression, nat), ErrorView>((tree, 2)));
    assert(term_at(tokens, 0) == Ok::<(Expression, nat), ErrorView>((tree, 3)));
}

/// The tree of `a + (-b)`.
proof fn lemma_negated_sum_tree(left: Fraction, right: Fraction)
    ensures
        syntax_tree(
            seq![
                Token::Number(left),
                Token::Symbol(TokenType::PLUS),
                Token::Symbol(TokenType::LPAREN),
                Token::Symbol(TokenType::MINUS),
                Token::Number(right),
                Token::Symbol(TokenType::RPAREN),
                Token::EndOfFile,
            ],
        ) == Ok::<Expression, ErrorView>(
            Expression::Sum {
                left: Box::new(Expression::Number(left)),
                right: Box::new(Expression::Negation(Box::new(Expression::Number(right)))),
            },
        ),
{
    let tokens = seq![
        Token::Number(left),
        Token::Symbol(TokenType::PLUS),
        Token::Symbol(TokenType::LPAREN),
        Token::Symbol(TokenType::MINUS),
        Token::Number(right),
        Token::Symbol(TokenType::RPAREN),
        Token::EndOfFile,
    ];
    let left_leaf = Expression::Number(left);
    let negation = Expression::Negation(Box::new(Expression::Number(right)));
    let tree = Expression::Sum { left: Box::new(left_leaf), right: Box::new(negation) };
    lemma_number_operand(tokens, 0);
    lemma_negated_number_operand(tokens, 3);
    assert(term_rest(tokens, 5, negation) == Ok::<(Expression, nat), ErrorView>((negation, 0)));
    assert(term_at(tokens, 3) == Ok::<(Expression, nat), ErrorView>((negation, 2)));
    assert(primary_at(tokens, 2) == Ok::<(Expression, nat), ErrorView>((negation, 4)));
    assert(unary_at(tokens, 2) == primary_at(tokens, 2));
    assert(factor_rest(tokens, 6, negation) == Ok::<(Expression, nat), ErrorView>((negation, 0)));
    assert(factor_at(tokens, 2) == Ok::<(Expression, nat), ErrorView>((negation, 4)));
    assert(term_rest(tokens, 6, tree) == Ok::<(Expression, nat), ErrorView>((tree, 0)));
    assert(term_rest(tokens, 1, left_leaf) == Ok::<(Expression, nat), ErrorView>((tree, 5)));
    assert(term_at(tokens, 0) == Ok::<(Expression, nat), ErrorView>((tree, 6)));
}

/// The value of the tree of a difference.
proof fn lemma_difference_tree_value(left: Ratio, right: Ratio)
    requires
        left.fits(),
        right.fits(),
    ensures
        value_of(
            Expression::Sum {
                left: Box::new(Expression::Number(Fraction::from_ratio(left))),
                right: Box::new(
                    Expression::Negation(
                        Box::new(Expression::Number(Fraction::from_ratio(right))),
                    ),
                ),
            },
        ) == left.checked_sum(right.negated()),
{
    broadcast use Fraction::lemma_view_from_ratio;

    let left_leaf = Expression::Number(Fraction::from_ratio(left));
    let right_leaf = Expression::Number(Fraction::from_ratio(right));
    let negation = Expression::Negation(Box::new(right_leaf));
    assert(value_of(left_leaf) == Ok::<Ratio, ErrorView>(left));
    assert(value_of(right_leaf) == Ok::<Ratio, ErrorView>(right));
    assert(value_of(negation) == Ok::<Ratio, ErrorView>(right.negated()));
}

} // verus!
