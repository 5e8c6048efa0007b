//! Splitting source text into tokens.

use vstd::prelude::*;
use vstd::string::StringExecFns;
use crate::algebra::lemma_lowest_terms;
use crate::digits::{
    all_digits, decimal_value, is_decimal_digit, is_digit, lemma_power_of_ten_positive,
    parse_decimal, power_of_ten, ten_to_the,
};
use crate::error::{Error, ErrorView};
use crate::fraction::{Fraction, Ratio};
use crate::sign::Sign;
use crate::text::characters;
use crate::token::Token;
use crate::token_type::TokenType;

verus! {

/// Whether `c` has the Unicode property `White_Space`, as
/// `char::is_whitespace` reports it.
pub uninterp spec fn unicode_white_space(c: char) -> bool;

/// `char::is_whitespace` tells whether a character has the Unicode property
/// `White_Space`. Which characters have it is left to the name above.
pub assume_specification[ char::is_whitespace ](c: char) -> (b: bool)
    ensures
        b == unicode_white_space(c),
;

/// A character that separates tokens and belongs to none: a space, or any
/// other character with the Unicode property `White_Space`.
pub open spec fn is_blank(c: char) -> bool {
    c == ' ' || unicode_white_space(c)
}

/// The symbol that a character stands for, if it stands for one.
pub open spec fn symbol_of(c: char) -> Option<TokenType> {
    if c == '+' {
        Some(TokenType::PLUS)
    } else if c == '-' {
        Some(TokenType::MINUS)
    } else if c == '*' {
        Some(TokenType::MULTIPLY)
    } else if c == '/' {
        Some(TokenType::DIVIDE)
    } else if c == '(' {
        Some(TokenType::LPAREN)
    } else if c == ')' {
        Some(TokenType::RPAREN)
    } else {
        None
    }
}

/// The first position at or after `start` that holds no digit.
pub open spec fn digits_end(source: Seq<char>, start: int) -> int
    decreases source.len() - start,
{
    if 0 <= start < source.len() && is_digit(source[start]) {
        digits_end(source, start + 1)
    } else {
        start
    }
}

/// The three-line report on a character that starts no token: the source, an
/// arrow of one dash for each character before `position`, and a sentence
/// that names the character.
pub open spec fn pointer_diagnostic(source: Seq<char>, position: nat, character: char) -> Seq<
    char,
> {
    "| "@ + source + "\n| "@ + Seq::new(position, |i: int| '-') + seq!['^']
        + "\n|\n| Unexpected character: '"@ + seq![character] + seq!['\'']
}

/// The error for the character at `position`, or for the end of the source
/// where `position` lies behind it.
pub open spec fn unexpected_character(source: Seq<char>, position: int) -> ErrorView {
    let character = if 0 <= position < source.len() {
        source[position]
    } else {
        '\0'
    };
    ErrorView::LexError {
        position: position as nat,
        character,
        diagnostic: pointer_diagnostic(source, position as nat, character),
    }
}

/// The fractional part whose point stands at `point`: the digits behind the
/// point, read as a number over ten to the power of their count. It is given
/// with the position behind its last digit. A point with no digit behind it
/// is an error at the position behind the point.
pub open spec fn decimal_at(source: Seq<char>, point: int) -> Result<(Ratio, int), ErrorView> {
    let end = digits_end(source, point + 1);
    let digits = source.subrange(point + 1, end);
    if digits.len() == 0 {
        Err(unexpected_character(source, end))
    } else if power_of_ten(digits.len()) > u64::MAX || decimal_value(digits) > u64::MAX {
        Err(ErrorView::ComputationOverflow)
    } else {
        Ok(
            (
                Ratio::lowest_terms(
                    decimal_value(digits),
                    power_of_ten(digits.len()),
                    Sign::Positive,
                ),
                end,
            ),
        )
    }
}

/// The number whose first digit stands at `start`: a run of digits, and the
/// fractional part behind it where a point follows the run. It is given with
/// the position behind its last character.
pub open spec fn number_at(source: Seq<char>, start: int) -> Result<(Ratio, int), ErrorView> {
    let end = digits_end(source, start);
    let integer = decimal_value(source.subrange(start, end));
    let whole = Ratio::lowest_terms(integer, 1, Sign::Positive);
    if integer > u64::MAX {
        Err(ErrorView::ComputationOverflow)
    } else if 0 <= end < source.len() && source[end] == '.' {
        match decimal_at(source, end) {
            Err(error) => Err(error),
            Ok((decimal, end)) => match whole.checked_sum(decimal) {
                Err(error) => Err(error),
                Ok(number) => Ok((number, end)),
            },
        }
    } else {
        Ok((whole, end))
    }
}

/// What the scanner reads at `start`, a position inside the source: a token,
/// or nothing where a blank stands there, and the position behind what was
/// read. A number is preferred to a lone point, a point to a symbol, a symbol
/// to a blank; any other character is an error.
pub open spec fn token_at(source: Seq<char>, start: int) -> Result<(Option<Token>, int), ErrorView> {
    let c = source[start];
    if is_digit(c) {
        match number_at(source, start) {
            Err(error) => Err(error),
            Ok((value, end)) => Ok((Some(Token::Number(Fraction::from_ratio(value))), end)),
        }
    } else if c == '.' {
        match decimal_at(source, start) {
            Err(error) => Err(error),
            Ok((value, end)) => Ok((Some(Token::Number(Fraction::from_ratio(value))), end)),
        }
    } else if let Some(symbol) = symbol_of(c) {
        Ok((Some(Token::Symbol(symbol)), start + 1))
    } else if is_blank(c) {
        Ok((None, start + 1))
    } else {
        Err(unexpected_character(source, start))
    }
}

/// The tokens of the source from `start` on, closed by `EndOfFile`, or the
/// first error that the scanner meets.
pub open spec fn tokens_from(source: Seq<char>, start: int) -> Result<Seq<Token>, ErrorView>
    decreases source.len() - start,
{
    if start < 0 || start >= source.len() {
        Ok(seq![Token::EndOfFile])
    } else {
        match token_at(source, start) {
            Err(error) => Err(error),
            Ok((token, end)) => {
                proof {
                    lemma_token_at_advances(source, start);
                }
                match tokens_from(source, end) {
                    Err(error) => Err(error),
                    Ok(rest) => match token {
                        Some(token) => Ok(seq![token] + rest),
                        None => Ok(rest),
                    },
                }
            },
        }
    }
}

/// The tokens of a source text, closed by `EndOfFile`, or the first error
/// that the scanner meets.
pub open spec fn tokens_of(source: Seq<char>) -> Result<Seq<Token>, ErrorView> {
    tokens_from(source, 0)
}

/// A run of digits lies inside the source and holds digits only; what follows
/// it is no digit.
pub proof fn lemma_digits_end(source: Seq<char>, start: int)
    requires
        0 <= start <= source.len(),
    ensures
        start <= digits_end(source, start) <= source.len(),
        all_digits(source.subrange(start, digits_end(source, start))),
        digits_end(source, start) < source.len() ==> !is_digit(
            source[digits_end(source, start)],
        ),
        forall|i: int|
            start <= i <= digits_end(source, start) ==> digits_end(source, i) == digits_end(
                source,
                start,
            ),
    decreases source.len() - start,
{
    if start < source.len() && is_digit(source[start]) {
        lemma_digits_end(source, start + 1);
        let end = digits_end(source, start);
        assert forall|i: int| 0 <= i < end - start implies is_digit(
            #[trigger] source.subrange(start, end)[i],
        ) by {
            if i > 0 {
                assert(source.subrange(start, end)[i] == source.subrange(start + 1, end)[i - 1]);
            }
        }
    }
}

/// Every successful step of the scanner moves forward, and stays inside the
/// source.
pub proof fn lemma_token_at_advances(source: Seq<char>, start: int)
    requires
        0 <= start < source.len(),
    ensures
        match token_at(source, start) {
            Ok((_, end)) => start < end <= source.len(),
            Err(_) => true,
        },
{
    let c = source[start];
    if is_digit(c) {
        lemma_digits_end(source, start);
        let end = digits_end(source, start);
        if end < source.len() {
            lemma_digits_end(source, end + 1);
        }
    } else if c == '.' {
        lemma_digits_end(source, start + 1);
    }
}

/// `text` is a number in the form the scanner reads: digits alone, or digits
/// (there may be none) with a point and at least one digit behind it.
pub open spec fn is_literal(text: Seq<char>) -> bool {
    let whole = digits_end(text, 0);
    if whole == text.len() {
        text.len() > 0
    } else {
        text[whole] == '.' && whole + 1 < text.len() && digits_end(text, whole + 1) == text.len()
    }
}

/// The value of a literal that stands alone.
pub open spec fn literal_value(text: Seq<char>) -> Result<Ratio, ErrorView> {
    let scanned = if is_digit(text[0]) {
        number_at(text, 0)
    } else {
        decimal_at(text, 0)
    };
    match scanned {
        Err(error) => Err(error),
        Ok((value, _)) => Ok(value),
    }
}

/// `text` stands in `source` at `start`, and no digit follows it there.
pub open spec fn stands_at(source: Seq<char>, start: int, text: Seq<char>) -> bool {
    &&& 0 <= start
    &&& start + text.len() <= source.len()
    &&& source.subrange(start, start + text.len()) == text
    &&& start + text.len() < source.len() ==> !is_digit(source[start + text.len()])
}

/// A run of digits inside a text ends at the same place wherever the text
/// stands.
pub proof fn lemma_digits_end_in_context(
    source: Seq<char>,
    start: int,
    text: Seq<char>,
    offset: int,
)
    requires
        stands_at(source, start, text),
        0 <= offset <= text.len(),
    ensures
        digits_end(source, start + offset) == start + digits_end(text, offset),
        offset <= digits_end(text, offset) <= text.len(),
        source.subrange(start + offset, start + digits_end(text, offset)) == text.subrange(
            offset,
            digits_end(text, offset),
        ),
    decreases text.len() - offset,
{
    lemma_digits_end(text, offset);
    if offset < text.len() {
        assert(source[start + offset] == source.subrange(start, start + text.len())[offset]);
        if is_digit(text[offset]) {
            lemma_digits_end_in_context(source, start, text, offset + 1);
        }
    }
    let end = digits_end(text, offset);
    assert(source.subrange(start + offset, start + end) =~= text.subrange(offset, end)) by {
        assert forall|i: int| 0 <= i < end - offset implies source.subrange(
            start + offset,
            start + end,
        )[i] == text.subrange(offset, end)[i] by {
            assert(source[start + offset + i] == source.subrange(start, start + text.len())[offset
                + i]);
        }
    }
}

/// A literal is read as the same number wherever it stands, provided that
/// neither a digit nor a point follows it. It fails only by exceeding 64
/// bits.
pub proof fn lemma_literal_in_context(source: Seq<char>, start: int, text: Seq<char>)
    requires
        is_literal(text),
        stands_at(source, start, text),
        start + text.len() < source.len() ==> source[start + text.len()] != '.',
    ensures
        token_at(source, start) == match literal_value(text) {
            Ok(value) => Ok::<(Option<Token>, int), ErrorView>(
                (Some(Token::Number(Fraction::from_ratio(value))), start + text.len()),
            ),
            Err(error) => Err(error),
        },
        literal_value(text) is Err ==> literal_value(text) == Err::<Ratio, ErrorView>(
            ErrorView::ComputationOverflow,
        ),
{
    let length = text.len() as int;
    let whole = digits_end(text, 0);
    lemma_digits_end(text, 0);
    lemma_digits_end_in_context(source, start, text, 0);
    assert(source[start] == source.subrange(start, start + length)[0]);
    assert(text.subrange(0, length) =~= text);
    if whole < length {
        assert(source[start + whole] == source.subrange(start, start + length)[whole]);
        lemma_digits_end(text, whole + 1);
        lemma_digits_end_in_context(source, start, text, whole + 1);
        assert(decimal_at(source, start + whole) == match decimal_at(text, whole) {
            Ok((value, end)) => Ok::<(Ratio, int), ErrorView>((value, start + length)),
            Err(error) => Err(error),
        });
    }
    if is_digit(text[0]) {
        assert(number_at(source, start) == match number_at(text, 0) {
            Ok((value, end)) => Ok::<(Ratio, int), ErrorView>((value, start + length)),
            Err(error) => Err(error),
        });
    } else {
        assert(whole == 0);
    }
}

/// A text of digits alone is one run of digits.
pub proof fn lemma_digits_end_of_digits(text: Seq<char>, offset: int)
    requires
        all_digits(text),
        0 <= offset <= text.len(),
    ensures
        digits_end(text, offset) == text.len(),
    decreases text.len() - offset,
{
    if offset < text.len() {
        lemma_digits_end_of_digits(text, offset + 1);
    }
}

/// A number that the scanner reads is in lowest terms and fits in 64 bits.
pub proof fn lemma_scanned_number(source: Seq<char>, start: int)
    ensures
        match decimal_at(source, start) {
            Ok((value, _)) => value.reduced() && value.fits() && value.sign == Sign::Positive,
            Err(_) => true,
        },
        match number_at(source, start) {
            Ok((value, _)) => value.reduced() && value.fits() && value.sign == Sign::Positive,
            Err(_) => true,
        },
{
    if let Ok((value, _)) = decimal_at(source, start) {
        let digits = source.subrange(start + 1, digits_end(source, start + 1));
        lemma_power_of_ten_positive(digits.len());
        lemma_lowest_terms(decimal_value(digits), power_of_ten(digits.len()), Sign::Positive);
    }
    if let Ok((value, _)) = number_at(source, start) {
        let end = digits_end(source, start);
        let integer = decimal_value(source.subrange(start, end));
        let whole = Ratio::lowest_terms(integer, 1, Sign::Positive);
        lemma_lowest_terms(integer, 1, Sign::Positive);
        if 0 <= end < source.len() && source[end] == '.' {
            let digits = source.subrange(end + 1, digits_end(source, end + 1));
            lemma_power_of_ten_positive(digits.len());
            lemma_lowest_terms(decimal_value(digits), power_of_ten(digits.len()), Sign::Positive);
            let decimal = decimal_at(source, end)->Ok_0.0;
            let left = whole.numerator * decimal.denominator;
            let right = decimal.numerator * whole.denominator;
            let denominator = whole.denominator * decimal.denominator;
            assert(denominator > 0) by (nonlinear_arith)
                requires
                    denominator == whole.denominator * decimal.denominator,
                    whole.denominator > 0,
                    decimal.denominator > 0,
            ;
            lemma_lowest_terms(left + right, denominator, Sign::Positive);
        }
    }
}

/// The value of a literal is in lowest terms and fits in 64 bits.
pub proof fn lemma_literal_value(text: Seq<char>)
    ensures
        match literal_value(text) {
            Ok(value) => value.reduced() && value.fits() && value.sign == Sign::Positive,
            Err(_) => true,
        },
{
    lemma_scanned_number(text, 0);
}

/// Behind the last character the scanner yields `EndOfFile` and stops.
pub proof fn lemma_tokens_at_end(source: Seq<char>)
    ensures
        tokens_from(source, source.len() as int) == Ok::<Seq<Token>, ErrorView>(
            seq![Token::EndOfFile],
        ),
{
}

/// A blank yields no token.
pub proof fn lemma_tokens_behind_blank(source: Seq<char>, start: int)
    requires
        0 <= start < source.len(),
        source[start] == ' ',
    ensures
        tokens_from(source, start) == tokens_from(source, start + 1),
{
    assert(token_at(source, start) == Ok::<(Option<Token>, int), ErrorView>((None, start + 1)));
}

/// A character that stands for a symbol yields that symbol.
pub proof fn lemma_tokens_behind_symbol(source: Seq<char>, start: int)
    requires
        0 <= start < source.len(),
        symbol_of(source[start]) is Some,
    ensures
        tokens_from(source, start) == match tokens_from(source, start + 1) {
            Ok(rest) => Ok::<Seq<Token>, ErrorView>(
                seq![Token::Symbol(symbol_of(source[start])->Some_0)] + rest,
            ),
            Err(error) => Err(error),
        },
{
    assert(token_at(source, start) == Ok::<(Option<Token>, int), ErrorView>(
        (Some(Token::Symbol(symbol_of(source[start])->Some_0)), start + 1),
    ));
}

/// A literal yields a number with its value, unless that exceeds 64 bits.
pub proof fn lemma_tokens_behind_literal(source: Seq<char>, start: int, text: Seq<char>)
    requires
        is_literal(text),
        stands_at(source, start, text),
        start + text.len() < source.len() ==> source[start + text.len()] != '.',
    ensures
        tokens_from(source, start) == match literal_value(text) {
            Err(error) => Err::<Seq<Token>, ErrorView>(error),
            Ok(value) => match tokens_from(source, start + text.len()) {
                Ok(rest) => Ok(seq![Token::Number(Fraction::from_ratio(value))] + rest),
                Err(error) => Err(error),
            },
        },
{
    lemma_literal_in_context(source, start, text);
    lemma_digits_end(text, 0);
}

/// The scanner fails only with a `LexError` or a `ComputationOverflow`.
pub proof fn lemma_scanner_fails_in_lexing(source: Seq<char>, start: int)
    ensures
        match tokens_from(source, start) {
            Ok(_) => true,
            Err(error) => error is LexError || error is ComputationOverflow,
        },
    decreases source.len() - start,
{
    if 0 <= start < source.len() {
        lemma_token_at_advances(source, start);
        if let Ok((_, end)) = token_at(source, start) {
            lemma_scanner_fails_in_lexing(source, end);
        }
    }
}

/// A scanner over a source text. It reads the text once, from left to right,
/// one character ahead.
pub struct Lexer {
    source_string: String,
    source: Vec<char>,
    index: usize,
}

impl Lexer {
    #[verifier::type_invariant]
    closed spec fn well_formed(self) -> bool {
        self.source@ == self.source_string@ && self.index <= self.source.len()
    }

    /// The source text.
    pub closed spec fn text(self) -> Seq<char> {
        self.source@
    }

    /// How many characters have been read.
    pub closed spec fn position(self) -> int {
        self.index as int
    }

    /// A scanner at the start of `source_string`.
    pub fn new(source_string: String) -> (lexer: Lexer)
        ensures
            lexer.text() == source_string@,
            lexer.position() == 0,
    {
        let source = characters(source_string.as_str());
        Lexer { source_string, source, index: 0 }
    }

    /// Reads the rest of the source into tokens and closes them with
    /// `EndOfFile`. The first character that starts no token, or the first
    /// number that exceeds 64 bits, ends the scan with its error.
    pub fn lex(self) -> (result: Result<Vec<Token>, Error>)
        ensures
            match result {
                Ok(tokens) => tokens_from(self.text(), self.position()) == Ok::<
                    Seq<Token>,
                    ErrorView,
                >(tokens@),
                Err(error) => tokens_from(self.text(), self.position()) == Err::<
                    Seq<Token>,
                    ErrorView,
                >(error@),
            },
    {
        let mut lexer = self;
        let mut tokens: Vec<Token> = Vec::new();
        let ghost source = lexer.text();
        let ghost start = lexer.position();
        proof {
            use_type_invariant(&lexer);
        }
        while !lexer.is_at_end()
            invariant
                source == self.text(),
                start == self.position(),
                lexer.text() == source,
                0 <= start <= lexer.position() <= source.len(),
                tokens_from(source, start) == match tokens_from(source, lexer.position()) {
                    Ok(rest) => Ok::<Seq<Token>, ErrorView>(tokens@ + rest),
                    Err(error) => Err(error),
                },
            decreases source.len() - lexer.position(),
        {
            let ghost before = tokens@;
            match lexer.lex_token() {
                Ok(Some(token)) => {
                    tokens.push(token);
                    proof {
                        let rest = tokens_from(source, lexer.position());
                        if let Ok(rest) = rest {
                            assert(before + (seq![token] + rest) =~= before.push(token) + rest);
                        }
                    }
                },
                Err(error) => {
                    return Err(error);
                },
                Ok(None) => {},
            }
        }
        let ghost before = tokens@;
        tokens.push(Token::EndOfFile);
        assert(tokens@ =~= before + seq![Token::EndOfFile]);
        Ok(tokens)
    }

    /// Reads one token, or one blank. The scanner must not be at the end.
    fn lex_token(&mut self) -> (result: Result<Option<Token>, Error>)
        requires
            0 <= old(self).position() < old(self).text().len(),
        ensures
            final(self).text() == old(self).text(),
            match result {
                Ok(token) => token_at(old(self).text(), old(self).position()) == Ok::<
                    (Option<Token>, int),
                    ErrorView,
                >((token, final(self).position())),
                Err(error) => token_at(old(self).text(), old(self).position()) == Err::<
                    (Option<Token>, int),
                    ErrorView,
                >(error@),
            },
            old(self).position() <= final(self).position() <= final(self).text().len(),
            result is Ok ==> old(self).position() < final(self).position(),
    {
        broadcast use Fraction::lemma_from_ratio;

        proof {
            lemma_token_at_advances(self.text(), self.position());
        }
        if self.check_digit() {
            match self.lex_number() {
                Ok(number) => Ok(Some(Token::Number(number))),
                Err(error) => Err(error),
            }
        } else if self.check('.') {
            match self.lex_decimal() {
                Ok(decimal) => Ok(Some(Token::Number(decimal))),
                Err(error) => Err(error),
            }
        } else if self.eat('+') {
            Ok(Some(Token::Symbol(TokenType::PLUS)))
        } else if self.eat('-') {
            Ok(Some(Token::Symbol(TokenType::MINUS)))
        } else if self.eat('*') {
            Ok(Some(Token::Symbol(TokenType::MULTIPLY)))
        } else if self.eat('/') {
            Ok(Some(Token::Symbol(TokenType::DIVIDE)))
        } else if self.eat('(') {
            Ok(Some(Token::Symbol(TokenType::LPAREN)))
        } else if self.eat(')') {
            Ok(Some(Token::Symbol(TokenType::RPAREN)))
        } else if self.check_blank() {
            self.advance();
            Ok(None)
        } else {
            Err(self.unexpected())
        }
    }

    /// Reads a number that starts with a digit.
    fn lex_number(&mut self) -> (result: Result<Fraction, Error>)
        requires
            0 <= old(self).position() <= old(self).text().len(),
        ensures
            final(self).text() == old(self).text(),
            old(self).position() <= final(self).position() <= final(self).text().len(),
            match result {
                Ok(fraction) => number_at(old(self).text(), old(self).position()) == Ok::<
                    (Ratio, int),
                    ErrorView,
                >((fraction@, final(self).position())),
                Err(error) => number_at(old(self).text(), old(self).position()) == Err::<
                    (Ratio, int),
                    ErrorView,
                >(error@),
            },
    {
        let digits = self.record_digits();
        let integer = match parse_decimal(&digits) {
            Some(value) => Fraction::new(value, 1, Sign::Positive),
            None => return Err(Error::ComputationOverflow),
        };
        if self.check('.') {
            match self.lex_decimal() {
                Ok(decimal) => integer.add(decimal),
                Err(error) => Err(error),
            }
        } else {
            Ok(integer)
        }
    }

    /// Reads a fractional part: a point, and the digits behind it.
    fn lex_decimal(&mut self) -> (result: Result<Fraction, Error>)
        requires
            0 <= old(self).position() < old(self).text().len(),
            old(self).text()[old(self).position()] == '.',
        ensures
            final(self).text() == old(self).text(),
            old(self).position() < final(self).position() <= final(self).text().len(),
            match result {
                Ok(fraction) => decimal_at(old(self).text(), old(self).position()) == Ok::<
                    (Ratio, int),
                    ErrorView,
                >((fraction@, final(self).position())),
                Err(error) => decimal_at(old(self).text(), old(self).position()) == Err::<
                    (Ratio, int),
                    ErrorView,
                >(error@),
            },
    {
        self.eat('.');
        let digits = self.record_digits();
        if digits.len() == 0 {
            return Err(self.unexpected());
        }
        let denumerator = match ten_to_the(digits.len()) {
            Some(power) => power,
            None => return Err(Error::ComputationOverflow),
        };
        let numerator = match parse_decimal(&digits) {
            Some(value) => value,
            None => return Err(Error::ComputationOverflow),
        };
        proof {
            lemma_power_of_ten_positive(digits.len() as nat);
        }
        Ok(Fraction::new(numerator, denumerator, Sign::Positive))
    }

    /// Reads digits for as long as digits follow, and hands them back.
    fn record_digits(&mut self) -> (recording: Vec<char>)
        requires
            0 <= old(self).position() <= old(self).text().len(),
        ensures
            final(self).text() == old(self).text(),
            final(self).position() == digits_end(old(self).text(), old(self).position()),
            recording@ == old(self).text().subrange(
                old(self).position(),
                final(self).position(),
            ),
            all_digits(recording@),
            old(self).position() <= final(self).position() <= final(self).text().len(),
    {
        let mut recording: Vec<char> = Vec::new();
        let ghost source = self.text();
        let ghost start = self.position();
        proof {
            lemma_digits_end(source, start);
        }
        while self.check_digit()
            invariant
                self.text() == source,
                0 <= start <= self.position() <= digits_end(source, start) <= source.len(),
                recording@ == source.subrange(start, self.position()),
                all_digits(source.subrange(start, digits_end(source, start))),
                forall|i: int|
                    start <= i <= digits_end(source, start) ==> digits_end(source, i)
                        == digits_end(source, start),
            decreases source.len() - self.position(),
        {
            let ghost position = self.position();
            let c = self.source[self.index];
            recording.push(c);
            self.advance();
            proof {
                assert(digits_end(source, position) == digits_end(source, start));
                lemma_digits_end(source, position + 1);
                assert(source.subrange(start, position).push(source[position])
                    =~= source.subrange(start, position + 1));
            }
        }
        proof {
            let position = self.position();
            assert(digits_end(source, position) == digits_end(source, start));
            assert forall|i: int| 0 <= i < recording@.len() implies is_digit(
                #[trigger] recording@[i],
            ) by {
                assert(recording@[i] == source.subrange(start, digits_end(source, start))[i]);
            }
        }
        recording
    }

    /// Moves past `character` where it is the next one.
    fn eat(&mut self, character: char) -> (eaten: bool)
        ensures
            final(self).text() == old(self).text(),
            eaten == (0 <= old(self).position() < old(self).text().len() && old(self).text()[old(
                self,
            ).position()] == character),
            final(self).position() == if eaten {
                old(self).position() + 1
            } else {
                old(self).position()
            },
    {
        if self.check(character) {
            self.advance();
            true
        } else {
            false
        }
    }

    /// Whether `character` is the next one.
    fn check(&self, character: char) -> (found: bool)
        ensures
            found == (0 <= self.position() < self.text().len() && self.text()[self.position()]
                == character),
    {
        proof {
            use_type_invariant(self);
        }
        self.index < self.source.len() && self.source[self.index] == character
    }

    /// Whether a digit is the next character.
    fn check_digit(&self) -> (found: bool)
        ensures
            found == (0 <= self.position() < self.text().len() && is_digit(
                self.text()[self.position()],
            )),
    {
        proof {
            use_type_invariant(self);
        }
        self.index < self.source.len() && is_decimal_digit(self.source[self.index])
    }

    /// Whether a blank is the next character.
    fn check_blank(&self) -> (found: bool)
        ensures
            found == (0 <= self.position() < self.text().len() && is_blank(
                self.text()[self.position()],
            )),
    {
        proof {
            use_type_invariant(self);
        }
        self.index < self.source.len() && (self.source[self.index] == ' '
            || self.source[self.index].is_whitespace())
    }

    /// Moves to the next character.
    fn advance(&mut self)
        requires
            old(self).position() < old(self).text().len(),
        ensures
            final(self).text() == old(self).text(),
            final(self).position() == old(self).position() + 1,
    {
        proof {
            use_type_invariant(&*self);
        }
        self.index += 1;
    }

    /// Whether every character has been read.
    fn is_at_end(&self) -> (at_end: bool)
        ensures
            at_end == (self.position() >= self.text().len()),
            0 <= self.position() <= self.text().len(),
    {
        proof {
            use_type_invariant(self);
        }
        self.index >= self.source.len()
    }

    /// The error for the next character, or for the end of the source where
    /// none is left.
    fn unexpected(&self) -> (error: Error)
        ensures
            error@ == unexpected_character(self.text(), self.position()),
    {
        proof {
            use_type_invariant(self);
        }
        let character = if self.index < self.source.len() {
            self.source[self.index]
        } else {
            '\0'
        };
        Error::LexError {
            position: self.index,
            character,
            diagnostic: self.create_error_message(character),
        }
    }

    /// Writes the three-line report that points at the next character.
    fn create_error_message(&self, c: char) -> (message: String)
        ensures
            message@ == pointer_diagnostic(self.text(), self.position() as nat, c),
    {
        proof {
            use_type_invariant(self);
        }
        let mut message = String::new();
        message.append("| ");
        message.append(self.source_string.as_str());
        message.append("\n| ");
        let ghost head = message@;
        let mut dashes: usize = 0;
        while dashes < self.index
            invariant
                dashes <= self.index,
                message@ == head + Seq::new(dashes as nat, |i: int| '-'),
            decreases self.index - dashes,
        {
            message.push('-');
            dashes += 1;
            assert(message@ =~= head + Seq::new(dashes as nat, |i: int| '-'));
        }
        message.push('^');
        message.append("\n|\n| Unexpected character: '");
        message.push(c);
        message.push('\'');
        assert(message@ =~= pointer_diagnostic(self.text(), self.position() as nat, c));
        message
    }
}

} // verus!
