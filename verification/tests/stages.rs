use fraction_calc::decimal::decimilize;
use fraction_calc::digits::{is_decimal_digit, push_decimal, ten_to_the};
use fraction_calc::error::Error;
use fraction_calc::expression::Expression;
use fraction_calc::fraction::Fraction;
use fraction_calc::lexer::Lexer;
use fraction_calc::parser::Parser;
use fraction_calc::reducer::reduce;
use fraction_calc::sign::Sign;
use fraction_calc::text::characters;
use fraction_calc::token::Token;
use fraction_calc::token_type::TokenType;

fn number(numerator: u64, denumerator: u64) -> Fraction {
    Fraction::new(numerator, denumerator, Sign::Positive)
}

fn leaf(numerator: u64) -> Box<Expression> {
    Box::new(Expression::Number(number(numerator, 1)))
}

fn lex(text: &str) -> Result<Vec<Token>, Error> {
    Lexer::new(text.to_string()).lex()
}

#[test]
fn lexer_yields_tokens_and_end_of_file() {
    assert_eq!(
        lex("1 + 2.5"),
        Ok(vec![
            Token::Number(number(1, 1)),
            Token::Symbol(TokenType::PLUS),
            Token::Number(number(5, 2)),
            Token::EndOfFile,
        ])
    );
    assert_eq!(lex(""), Ok(vec![Token::EndOfFile]));
    assert_eq!(lex(" \t\n"), Ok(vec![Token::EndOfFile]));
}

#[test]
fn lexer_maps_each_symbol() {
    assert_eq!(
        lex("+-*/()"),
        Ok(vec![
            Token::Symbol(TokenType::PLUS),
            Token::Symbol(TokenType::MINUS),
            Token::Symbol(TokenType::MULTIPLY),
            Token::Symbol(TokenType::DIVIDE),
            Token::Symbol(TokenType::LPAREN),
            Token::Symbol(TokenType::RPAREN),
            Token::EndOfFile,
        ])
    );
}

#[test]
fn lexer_takes_the_longest_number() {
    assert_eq!(lex("12.50"), Ok(vec![Token::Number(number(25, 2)), Token::EndOfFile]));
    assert_eq!(
        lex("1.5.25"),
        Ok(vec![Token::Number(number(3, 2)), Token::Number(number(1, 4)), Token::EndOfFile])
    );
    assert_eq!(
        lex("3.14-2"),
        Ok(vec![
            Token::Number(number(157, 50)),
            Token::Symbol(TokenType::MINUS),
            Token::Number(number(2, 1)),
            Token::EndOfFile,
        ])
    );
}

#[test]
fn lexer_skips_unicode_white_space_only() {
    assert_eq!(
        lex("1\u{2003}2"),
        Ok(vec![Token::Number(number(1, 1)), Token::Number(number(2, 1)), Token::EndOfFile])
    );
    match lex("1\u{200b}2") {
        Err(Error::LexError { position, character, .. }) => {
            assert_eq!(position, 1);
            assert_eq!(character, '\u{200b}');
        }
        other => panic!("expected a lex error, got {:?}", other),
    }
    assert!(matches!(lex("x"), Err(Error::LexError { position: 0, character: 'x', .. })));
}

#[test]
fn lexer_counts_characters_not_bytes() {
    match lex("1 + é2 ?") {
        Err(Error::LexError { position, character, diagnostic }) => {
            assert_eq!(position, 4);
            assert_eq!(character, 'é');
            assert_eq!(diagnostic, "| 1 + é2 ?\n| ----^\n|\n| Unexpected character: 'é'");
        }
        other => panic!("expected a lex error, got {:?}", other),
    }
}

#[test]
fn tokens_know_their_type() {
    assert_eq!(Token::Number(number(1, 2)).token_type(), TokenType::NUMBER);
    assert_eq!(Token::Symbol(TokenType::DIVIDE).token_type(), TokenType::DIVIDE);
    assert_eq!(Token::Symbol(TokenType::LPAREN).token_type(), TokenType::LPAREN);
    assert_eq!(Token::EndOfFile.token_type(), TokenType::EOF);
}

#[test]
fn token_types_have_names() {
    assert_eq!(TokenType::NUMBER.name(), "NUMBER");
    assert_eq!(TokenType::PLUS.name(), "PLUS");
    assert_eq!(TokenType::MINUS.name(), "MINUS");
    assert_eq!(TokenType::MULTIPLY.name(), "MULTIPLY");
    assert_eq!(TokenType::DIVIDE.name(), "DIVIDE");
    assert_eq!(TokenType::LPAREN.name(), "LPAREN");
    assert_eq!(TokenType::RPAREN.name(), "RPAREN");
    assert_eq!(TokenType::EOF.name(), "EOF");
}

#[test]
fn parser_holds_a_difference_as_a_sum_with_a_negation() {
    let tokens = vec![
        Token::Number(number(5, 1)),
        Token::Symbol(TokenType::MINUS),
        Token::Number(number(3, 1)),
        Token::EndOfFile,
    ];
    assert_eq!(
        Parser::new(tokens).parse(),
        Ok(Expression::Sum { left: leaf(5), right: Box::new(Expression::Negation(leaf(3))) })
    );
}

#[test]
fn parser_groups_to_the_left_and_by_precedence() {
    let tokens = lex("1 + 2 * 3 / 4 + 5").unwrap();
    let product = Expression::Product { left: leaf(2), right: leaf(3) };
    let division = Expression::Division { left: Box::new(product), right: leaf(4) };
    let inner = Expression::Sum { left: leaf(1), right: Box::new(division) };
    assert_eq!(
        Parser::new(tokens).parse(),
        Ok(Expression::Sum { left: Box::new(inner), right: leaf(5) })
    );
}

#[test]
fn parser_reads_parentheses_and_signs() {
    let tokens = lex("-(1 + 2) * +3").unwrap();
    let sum = Expression::Sum { left: leaf(1), right: leaf(2) };
    assert_eq!(
        Parser::new(tokens).parse(),
        Ok(Expression::Product {
            left: Box::new(Expression::Negation(Box::new(sum))),
            right: leaf(3),
        })
    );
}

#[test]
fn parser_treats_the_end_of_the_tokens_as_end_of_file() {
    assert_eq!(
        Parser::new(vec![Token::Number(number(5, 1))]).parse(),
        Ok(Expression::Number(number(5, 1)))
    );
    assert_eq!(
        Parser::new(vec![]).parse(),
        Err(Error::SyntaxError { expected: TokenType::NUMBER, found: TokenType::EOF })
    );
    assert_eq!(
        Parser::new(vec![Token::Number(number(5, 1)), Token::Symbol(TokenType::PLUS)]).parse(),
        Err(Error::SyntaxError { expected: TokenType::NUMBER, found: TokenType::EOF })
    );
}

#[test]
fn parser_stops_at_the_first_end_of_file() {
    let tokens = vec![
        Token::Number(number(5, 1)),
        Token::EndOfFile,
        Token::Symbol(TokenType::PLUS),
    ];
    assert_eq!(Parser::new(tokens).parse(), Ok(Expression::Number(number(5, 1))));
}

#[test]
fn parser_wants_a_value_in_a_number() {
    assert_eq!(
        Parser::new(vec![Token::Symbol(TokenType::NUMBER), Token::EndOfFile]).parse(),
        Err(Error::SyntaxError { expected: TokenType::NUMBER, found: TokenType::NUMBER })
    );
}

#[test]
fn parser_reports_what_it_expected() {
    let parse = |text: &str| Parser::new(lex(text).unwrap()).parse();
    assert_eq!(
        parse("(1 + 2 3"),
        Err(Error::SyntaxError { expected: TokenType::RPAREN, found: TokenType::NUMBER })
    );
    assert_eq!(
        parse("1 + * 2"),
        Err(Error::SyntaxError { expected: TokenType::NUMBER, found: TokenType::MULTIPLY })
    );
    assert_eq!(
        parse("1 2"),
        Err(Error::SyntaxError { expected: TokenType::EOF, found: TokenType::NUMBER })
    );
}

#[test]
fn reducer_evaluates_each_node() {
    let sum = Expression::Sum { left: leaf(1), right: leaf(2) };
    assert_eq!(reduce(sum), Ok(number(3, 1)));
    let product = Expression::Product { left: leaf(4), right: leaf(6) };
    assert_eq!(reduce(product), Ok(number(24, 1)));
    let division = Expression::Division { left: leaf(4), right: leaf(6) };
    assert_eq!(reduce(division), Ok(number(2, 3)));
    let negation = Expression::Negation(leaf(4));
    assert_eq!(reduce(negation), Ok(Fraction::new(4, 1, Sign::Negative)));
    assert_eq!(reduce(Expression::Number(number(9, 4))), Ok(number(9, 4)));
}

#[test]
fn reducer_reports_division_by_zero_and_overflow() {
    let zero = Expression::Sum { left: leaf(1), right: Box::new(Expression::Negation(leaf(1))) };
    let division = Expression::Division { left: leaf(4), right: Box::new(zero) };
    assert_eq!(reduce(division), Err(Error::DivisionByZero));
    let product = Expression::Product { left: leaf(1 << 32), right: leaf(1 << 32) };
    assert_eq!(reduce(product), Err(Error::ComputationOverflow));
}

#[test]
fn reducer_evaluates_the_left_operand_first() {
    let overflow = Expression::Product { left: leaf(1 << 32), right: leaf(1 << 32) };
    let by_zero = Expression::Division { left: leaf(1), right: leaf(0) };
    let tree = Expression::Sum { left: Box::new(by_zero), right: Box::new(overflow) };
    assert_eq!(reduce(tree), Err(Error::DivisionByZero));
    let overflow = Expression::Product { left: leaf(1 << 32), right: leaf(1 << 32) };
    let by_zero = Expression::Division { left: leaf(1), right: leaf(0) };
    let tree = Expression::Sum { left: Box::new(overflow), right: Box::new(by_zero) };
    assert_eq!(reduce(tree), Err(Error::ComputationOverflow));
}

#[test]
fn decimilize_writes_integers_without_a_point() {
    assert_eq!(decimilize(&number(5, 1)), "5");
    assert_eq!(decimilize(&number(0, 1)), "0");
    assert_eq!(decimilize(&Fraction::new(12, 1, Sign::Negative)), "-12");
    assert_eq!(decimilize(&Fraction::new(0, 1, Sign::Negative)), "-0");
    assert_eq!(decimilize(&number(u64::MAX, 1)), "18446744073709551615");
}

#[test]
fn decimilize_writes_terminating_decimals() {
    assert_eq!(decimilize(&number(1, 4)), "0.25");
    assert_eq!(decimilize(&number(7, 2)), "3.5");
    assert_eq!(decimilize(&Fraction::new(1, 2, Sign::Negative)), "-0.5");
    assert_eq!(decimilize(&number(123456789, 1000)), "123456.789");
    assert_eq!(decimilize(&number(1, 1000)), "0.001");
}

#[test]
fn decimilize_marks_the_repeating_digits() {
    assert_eq!(decimilize(&number(1, 3)), "0.(3)");
    assert_eq!(decimilize(&number(1, 6)), "0.1(6)");
    assert_eq!(decimilize(&number(22, 7)), "3.(142857)");
    assert_eq!(decimilize(&number(1, 12)), "0.08(3)");
    assert_eq!(decimilize(&number(1, 81)), "0.(012345679)");
    assert_eq!(decimilize(&Fraction::new(5, 6, Sign::Negative)), "-0.8(3)");
    assert_eq!(
        decimilize(&number(1, 97)),
        "0.(010309278350515463917525773195876288659793814432989690721649484536082474226804123711340206185567)"
    );
}

#[test]
fn decimilize_divides_by_large_denominators() {
    assert_eq!(
        decimilize(&number(1, 1 << 63)),
        "0.000000000000000000108420217248550443400745280086994171142578125"
    );
}

#[test]
fn decimal_digits_are_recognised() {
    for digit in '0'..='9' {
        assert!(is_decimal_digit(digit));
    }
    assert!(!is_decimal_digit('/'));
    assert!(!is_decimal_digit(':'));
    assert!(!is_decimal_digit('a'));
    assert!(!is_decimal_digit('٣'));
}

#[test]
fn ten_to_the_computes_powers_or_overflows() {
    assert_eq!(ten_to_the(0), Some(1));
    assert_eq!(ten_to_the(1), Some(10));
    assert_eq!(ten_to_the(19), Some(10000000000000000000));
    assert_eq!(ten_to_the(20), None);
    assert_eq!(ten_to_the(1000), None);
}

#[test]
fn push_decimal_appends_the_digits() {
    let mut text = String::from("n=");
    push_decimal(&mut text, 0);
    push_decimal(&mut text, 907);
    push_decimal(&mut text, u64::MAX);
    assert_eq!(text, "n=090718446744073709551615");
}

#[test]
fn characters_are_taken_in_order() {
    assert_eq!(characters("a é3"), vec!['a', ' ', 'é', '3']);
    assert_eq!(characters(""), Vec::<char>::new());
}
