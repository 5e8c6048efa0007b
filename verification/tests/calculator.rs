use fraction_calc::calculator::evaluate;
use fraction_calc::decimal::decimilize;
use fraction_calc::error::Error;
use fraction_calc::fraction::Fraction;
use fraction_calc::sign::Sign;
use fraction_calc::token_type::TokenType;

fn value(text: &str) -> Result<Fraction, Error> {
    evaluate(text.to_string())
}

fn positive(numerator: u64, denumerator: u64) -> Result<Fraction, Error> {
    Ok(Fraction::new(numerator, denumerator, Sign::Positive))
}

fn negative(numerator: u64, denumerator: u64) -> Result<Fraction, Error> {
    Ok(Fraction::new(numerator, denumerator, Sign::Negative))
}

fn syntax_error(expected: TokenType, found: TokenType) -> Result<Fraction, Error> {
    Err(Error::SyntaxError { expected, found })
}

#[test]
fn integers_evaluate_to_themselves() {
    assert_eq!(value("42"), positive(42, 1));
    assert_eq!(value("0"), positive(0, 1));
    assert_eq!(value("-7"), negative(7, 1));
    assert_eq!(value("18446744073709551615"), positive(u64::MAX, 1));
    assert_eq!(value("-18446744073709551615"), negative(u64::MAX, 1));
    assert_eq!(value("007"), positive(7, 1));
}

#[test]
fn integer_result_has_numerator_denominator_and_sign() {
    let result = value("-12").unwrap();
    assert_eq!(result.numerator(), 12);
    assert_eq!(result.denumerator(), 1);
    assert_eq!(result.sign(), Sign::Negative);
}

#[test]
fn subtraction_is_addition_of_the_negation() {
    assert_eq!(value("5 - 3"), value("5 + (-3)"));
    assert_eq!(value("5 - 3"), positive(2, 1));
    assert_eq!(value("1.5 - 2.25"), value("1.5 + (-2.25)"));
    assert_eq!(value("1.5 - 2.25"), negative(3, 4));
    assert_eq!(value(".5 - 18446744073709551616"), value(".5 + (-18446744073709551616)"));
    assert_eq!(value(".5 - 18446744073709551616"), Err(Error::ComputationOverflow));
}

#[test]
fn parentheses_change_grouping() {
    assert_eq!(value("2 * (3 + 4)"), positive(14, 1));
    assert_eq!(value("2 * 3 + 4"), positive(10, 1));
}

#[test]
fn quotients_decimalize() {
    assert_eq!(decimilize(&value("1 / 3").unwrap()), "0.(3)");
    assert_eq!(decimilize(&value("1 / 4").unwrap()), "0.25");
}

#[test]
fn division_by_zero_is_reported() {
    assert_eq!(value("5 / 0"), Err(Error::DivisionByZero));
    assert_eq!(value("5 / (1 - 1)"), Err(Error::DivisionByZero));
    assert_eq!(value("0 / 5"), positive(0, 1));
}

#[test]
fn missing_operand_is_a_syntax_error() {
    assert_eq!(value("2 +"), syntax_error(TokenType::NUMBER, TokenType::EOF));
}

#[test]
fn unclosed_parenthesis_expects_rparen_and_finds_eof() {
    assert_eq!(value("(2 + 3"), syntax_error(TokenType::RPAREN, TokenType::EOF));
}

#[test]
fn stray_character_is_a_lex_error() {
    match value("2 $ 3") {
        Err(Error::LexError { position, character, diagnostic }) => {
            assert_eq!(position, 2);
            assert_eq!(character, '$');
            assert_eq!(diagnostic, "| 2 $ 3\n| --^\n|\n| Unexpected character: '$'");
        }
        other => panic!("expected a lex error, got {:?}", other),
    }
}

#[test]
fn whitespace_does_not_matter() {
    assert_eq!(value("1+2"), value(" 1 + 2 "));
    assert_eq!(value("1+2"), positive(3, 1));
    assert_eq!(value("\t( 1\u{a0}+ 2 )\n*\r3"), positive(9, 1));
}

#[test]
fn whitespace_inside_a_number_splits_it() {
    assert_eq!(value("1 2"), syntax_error(TokenType::EOF, TokenType::NUMBER));
}

#[test]
fn decimal_literals_are_exact() {
    assert_eq!(value("1.5"), positive(3, 2));
    assert_eq!(value(".5"), positive(1, 2));
    assert_eq!(value("0.25 + 0.75"), positive(1, 1));
    assert_eq!(value("0.1 + 0.2"), positive(3, 10));
    assert_eq!(value("3.000"), positive(3, 1));
    assert_eq!(value("123456.789"), positive(123456789, 1000));
}

#[test]
fn point_without_digits_is_a_lex_error() {
    match value("1.") {
        Err(Error::LexError { position, character, diagnostic }) => {
            assert_eq!(position, 2);
            assert_eq!(character, '\0');
            assert_eq!(diagnostic, "| 1.\n| --^\n|\n| Unexpected character: '\0'");
        }
        other => panic!("expected a lex error, got {:?}", other),
    }
    match value("1.+2") {
        Err(Error::LexError { position, character, .. }) => {
            assert_eq!(position, 2);
            assert_eq!(character, '+');
        }
        other => panic!("expected a lex error, got {:?}", other),
    }
    match value(".") {
        Err(Error::LexError { position, character, .. }) => {
            assert_eq!(position, 1);
            assert_eq!(character, '\0');
        }
        other => panic!("expected a lex error, got {:?}", other),
    }
}

#[test]
fn literals_beyond_64_bits_overflow() {
    assert_eq!(value("18446744073709551616"), Err(Error::ComputationOverflow));
    assert_eq!(value("0.00000000000000000001"), Err(Error::ComputationOverflow));
    assert_eq!(value("0.1234567890123456789"), positive(1234567890123456789, 10000000000000000000));
    assert_eq!(value("18446744073709551615.5"), Err(Error::ComputationOverflow));
}

#[test]
fn products_beyond_64_bits_overflow() {
    assert_eq!(value("4294967296 * 4294967296"), Err(Error::ComputationOverflow));
    assert_eq!(value("4294967296 * 4294967295"), positive(18446744069414584320, 1));
    assert_eq!(value("18446744073709551615 + 1"), Err(Error::ComputationOverflow));
    assert_eq!(value("1 / 4294967296 / 4294967296"), Err(Error::ComputationOverflow));
}

#[test]
fn binary_operators_group_to_the_left() {
    assert_eq!(value("8 / 4 / 2"), positive(1, 1));
    assert_eq!(value("10 - 4 - 3"), positive(3, 1));
    assert_eq!(value("2 - 3 + 4"), positive(3, 1));
    assert_eq!(value("12 / 3 * 2"), positive(8, 1));
}

#[test]
fn multiplication_binds_tighter_than_addition() {
    assert_eq!(value("2 + 3 * 4"), positive(14, 1));
    assert_eq!(value("2 * 3 + 4 * 5"), positive(26, 1));
    assert_eq!(value("1 - 6 / 4"), negative(1, 2));
}

#[test]
fn unary_sign_binds_one_primary() {
    assert_eq!(value("+2"), positive(2, 1));
    assert_eq!(value("-(2 + 3)"), negative(5, 1));
    assert_eq!(value("2 * -3"), negative(6, 1));
    assert_eq!(value("-2 * -3"), positive(6, 1));
    assert_eq!(value("2 - -3"), positive(5, 1));
    assert_eq!(value("--2"), syntax_error(TokenType::NUMBER, TokenType::MINUS));
    assert_eq!(value("+-2"), syntax_error(TokenType::NUMBER, TokenType::MINUS));
}

#[test]
fn trailing_tokens_are_a_syntax_error() {
    assert_eq!(value("2 3"), syntax_error(TokenType::EOF, TokenType::NUMBER));
    assert_eq!(value("2)"), syntax_error(TokenType::EOF, TokenType::RPAREN));
    assert_eq!(value("(2)(3)"), syntax_error(TokenType::EOF, TokenType::LPAREN));
}

#[test]
fn empty_input_is_a_syntax_error() {
    assert_eq!(value(""), syntax_error(TokenType::NUMBER, TokenType::EOF));
    assert_eq!(value("   "), syntax_error(TokenType::NUMBER, TokenType::EOF));
    assert_eq!(value("()"), syntax_error(TokenType::NUMBER, TokenType::RPAREN));
    assert_eq!(value("2 * / 3"), syntax_error(TokenType::NUMBER, TokenType::DIVIDE));
}

#[test]
fn first_error_wins() {
    assert_eq!(value("1 / 0 + 18446744073709551616"), Err(Error::ComputationOverflow));
    assert_eq!(value("(1 / 0"), syntax_error(TokenType::RPAREN, TokenType::EOF));
    assert_eq!(value("1 / 0 + 4294967296 * 4294967296"), Err(Error::DivisionByZero));
    assert_eq!(value("4294967296 * 4294967296 + 1 / 0"), Err(Error::ComputationOverflow));
    assert!(matches!(value("(2 + $"), Err(Error::LexError { .. })));
}

#[test]
fn sign_of_zero_follows_the_operands() {
    assert_eq!(value("1 - 1"), positive(0, 1));
    assert_eq!(value("-1 + 1"), positive(0, 1));
    assert_eq!(value("-0"), negative(0, 1));
    assert_eq!(value("-0 + -0"), negative(0, 1));
    assert_eq!(value("-0 + 0"), positive(0, 1));
    assert_eq!(value("0 * -1"), negative(0, 1));
}

#[test]
fn error_messages_name_the_failure() {
    assert_eq!(value("2 +").unwrap_err().message(), "Expected NUMBER but got EOF");
    assert_eq!(value("(2 + 3").unwrap_err().message(), "Expected RPAREN but got EOF");
    assert_eq!(
        value("  2 # 3").unwrap_err().message(),
        "|   2 # 3\n| ----^\n|\n| Unexpected character: '#'"
    );
    assert_eq!(value("5 / 0").unwrap_err().message(), "Division by zero");
    assert_eq!(value("18446744073709551616").unwrap_err().message(), "Computation overflow");
}
