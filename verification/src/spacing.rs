//! Blanks between tokens leave the tokens as they are.

use vstd::prelude::*;
use crate::calculator::evaluation;
use crate::digits::is_digit;
use crate::error::ErrorView;
use crate::fraction::Ratio;
use crate::lexer::{
    decimal_at, digits_end, is_blank, lemma_digits_end, lemma_token_at_advances, number_at,
    symbol_of, token_at, tokens_from, tokens_of, unexpected_character,
};
use crate::parser::{lemma_parser_fails_in_syntax, syntax_tree};
use crate::reducer::lemma_reducer_fails_in_arithmetic;
use crate::token::Token;

verus! {

/// A character that the scanner can only skip: a blank that is neither a
/// digit nor a point nor a symbol. The space is one.
pub open spec fn is_separator(c: char) -> bool {
    is_blank(c) && !is_digit(c) && c != '.' && symbol_of(c) is None
}

/// The scanner, set out at `start`, comes to a halt between two tokens at
/// `position`.
pub open spec fn scan_reaches(source: Seq<char>, start: int, position: int) -> bool
    decreases source.len() - start,
{
    if start == position {
        true
    } else if start < 0 || start >= source.len() || start > position {
        false
    } else {
        match token_at(source, start) {
            Err(_) => false,
            Ok((_, end)) => {
                proof {
                    lemma_token_at_advances(source, start);
                }
                scan_reaches(source, end, position)
            },
        }
    }
}

/// `longer` is `shorter` with one separator put in at `place`.
pub open spec fn separator_inserted(shorter: Seq<char>, longer: Seq<char>, place: int) -> bool {
    &&& 0 <= place <= shorter.len()
    &&& longer.len() == shorter.len() + 1
    &&& is_separator(longer[place])
    &&& forall|i: int| 0 <= i < place ==> longer[i] == shorter[i]
    &&& forall|i: int| place <= i < shorter.len() ==> longer[i + 1] == shorter[i]
}

/// `after` is the outcome `before` of a scan, as it comes out once a
/// separator has been put into the source `longer`: the same tokens, the same
/// overflow, or the same unexpected character one position further on.
pub open spec fn same_outcome<T>(
    longer: Seq<char>,
    before: Result<T, ErrorView>,
    after: Result<T, ErrorView>,
) -> bool {
    match before {
        Ok(tokens) => after == Ok::<T, ErrorView>(tokens),
        Err(ErrorView::LexError { position, .. }) => after == Err::<T, ErrorView>(
            unexpected_character(longer, position as int + 1),
        ),
        Err(error) => after == Err::<T, ErrorView>(error),
    }
}

/// The scanner reaches only positions at or behind the one it set out at.
pub proof fn lemma_scan_reaches_forward(source: Seq<char>, start: int, position: int)
    requires
        scan_reaches(source, start, position),
    ensures
        start <= position,
    decreases source.len() - start,
{
    if start != position {
        lemma_token_at_advances(source, start);
        let end = token_at(source, start)->Ok_0.1;
        lemma_scan_reaches_forward(source, end, position);
    }
}

/// A run of digits that ends at or before the separator is the same run in
/// both sources.
proof fn lemma_digits_before(shorter: Seq<char>, longer: Seq<char>, place: int, start: int)
    requires
        separator_inserted(shorter, longer, place),
        0 <= start <= place,
        digits_end(shorter, start) <= place,
    ensures
        digits_end(longer, start) == digits_end(shorter, start),
        longer.subrange(start, digits_end(shorter, start)) == shorter.subrange(
            start,
            digits_end(shorter, start),
        ),
    decreases place - start,
{
    let end = digits_end(shorter, start);
    lemma_digits_end(shorter, start);
    if start < place && is_digit(shorter[start]) {
        lemma_digits_before(shorter, longer, place, start + 1);
    }
    assert(longer.subrange(start, end) =~= shorter.subrange(start, end));
}

/// A run of digits behind the separator is the same run, one position
/// further on.
proof fn lemma_digits_behind(shorter: Seq<char>, longer: Seq<char>, place: int, start: int)
    requires
        separator_inserted(shorter, longer, place),
        place <= start <= shorter.len(),
    ensures
        digits_end(longer, start + 1) == digits_end(shorter, start) + 1,
        longer.subrange(start + 1, digits_end(shorter, start) + 1) == shorter.subrange(
            start,
            digits_end(shorter, start),
        ),
    decreases shorter.len() - start,
{
    let end = digits_end(shorter, start);
    lemma_digits_end(shorter, start);
    if start < shorter.len() && is_digit(shorter[start]) {
        lemma_digits_behind(shorter, longer, place, start + 1);
    }
    assert(longer.subrange(start + 1, end + 1) =~= shorter.subrange(start, end));
}

/// A token that ends at or before the separator is the same token in both
/// sources.
proof fn lemma_token_before(shorter: Seq<char>, longer: Seq<char>, place: int, start: int)
    requires
        separator_inserted(shorter, longer, place),
        0 <= start < place,
        token_at(shorter, start) is Ok,
        token_at(shorter, start)->Ok_0.1 <= place,
    ensures
        token_at(longer, start) == token_at(shorter, start),
{
    let c = shorter[start];
    assert(longer[start] == c);
    if is_digit(c) {
        let whole = digits_end(shorter, start);
        lemma_digits_end(shorter, start);
        if whole < shorter.len() && shorter[whole] == '.' {
            lemma_digits_end(shorter, whole + 1);
            lemma_digits_before(shorter, longer, place, whole + 1);
            assert(decimal_at(longer, whole) == decimal_at(shorter, whole));
        }
        lemma_digits_before(shorter, longer, place, start);
        assert(number_at(longer, start) == number_at(shorter, start));
    } else if c == '.' {
        lemma_digits_end(shorter, start + 1);
        lemma_digits_before(shorter, longer, place, start + 1);
        assert(decimal_at(longer, start) == decimal_at(shorter, start));
    }
}

/// A fractional part behind the separator comes out the same, one position
/// further on.
proof fn lemma_decimal_behind(shorter: Seq<char>, longer: Seq<char>, place: int, point: int)
    requires
        separator_inserted(shorter, longer, place),
        place <= point < shorter.len(),
    ensures
        match decimal_at(shorter, point) {
            Ok((value, end)) => decimal_at(longer, point + 1) == Ok::<(Ratio, int), ErrorView>(
                (value, end + 1),
            ),
            Err(ErrorView::LexError { position, .. }) => decimal_at(longer, point + 1) == Err::<
                (Ratio, int),
                ErrorView,
            >(unexpected_character(longer, position as int + 1)),
            Err(error) => decimal_at(longer, point + 1) == Err::<(Ratio, int), ErrorView>(error),
        },
{
    lemma_digits_end(shorter, point + 1);
    lemma_digits_behind(shorter, longer, place, point + 1);
}

/// A number behind the separator comes out the same, one position further
/// on.
proof fn lemma_number_behind(shorter: Seq<char>, longer: Seq<char>, place: int, start: int)
    requires
        separator_inserted(shorter, longer, place),
        place <= start < shorter.len(),
    ensures
        match number_at(shorter, start) {
            Ok((value, end)) => number_at(longer, start + 1) == Ok::<(Ratio, int), ErrorView>(
                (value, end + 1),
            ),
            Err(ErrorView::LexError { position, .. }) => number_at(longer, start + 1) == Err::<
                (Ratio, int),
                ErrorView,
            >(unexpected_character(longer, position as int + 1)),
            Err(error) => number_at(longer, start + 1) == Err::<(Ratio, int), ErrorView>(error),
        },
{
    let whole = digits_end(shorter, start);
    lemma_digits_end(shorter, start);
    lemma_digits_behind(shorter, longer, place, start);
    if whole < shorter.len() {
        assert(longer[whole + 1] == shorter[whole]);
        if shorter[whole] == '.' {
            lemma_decimal_behind(shorter, longer, place, whole);
        }
    }
}

/// A step of the scanner behind the separator comes out the same, one
/// position further on.
proof fn lemma_token_behind(shorter: Seq<char>, longer: Seq<char>, place: int, start: int)
    requires
        separator_inserted(shorter, longer, place),
        place <= start < shorter.len(),
    ensures
        match token_at(shorter, start) {
            Ok((token, end)) => token_at(longer, start + 1) == Ok::<
                (Option<Token>, int),
                ErrorView,
            >((token, end + 1)),
            Err(ErrorView::LexError { position, .. }) => token_at(longer, start + 1) == Err::<
                (Option<Token>, int),
                ErrorView,
            >(unexpected_character(longer, position as int + 1)),
            Err(error) => token_at(longer, start + 1) == Err::<(Option<Token>, int), ErrorView>(
                error,
            ),
        },
{
    let c = shorter[start];
    assert(longer[start + 1] == c);
    if is_digit(c) {
        lemma_number_behind(shorter, longer, place, start);
    } else if c == '.' {
        lemma_decimal_behind(shorter, longer, place, start);
    }
}

/// The scan of what stands behind the separator comes out the same.
proof fn lemma_tokens_behind(shorter: Seq<char>, longer: Seq<char>, place: int, start: int)
    requires
        separator_inserted(shorter, longer, place),
        place <= start <= shorter.len(),
    ensures
        same_outcome(longer, tokens_from(shorter, start), tokens_from(longer, start + 1)),
    decreases shorter.len() - start,
{
    if start < shorter.len() {
        lemma_token_behind(shorter, longer, place, start);
        lemma_token_at_advances(shorter, start);
        if let Ok((_, end)) = token_at(shorter, start) {
            lemma_tokens_behind(shorter, longer, place, end);
        }
    }
}

/// The scan from a position before the separator comes out the same, where
/// the scanner comes to a halt at the place of the separator.
proof fn lemma_tokens_before(shorter: Seq<char>, longer: Seq<char>, place: int, start: int)
    requires
        separator_inserted(shorter, longer, place),
        0 <= start <= place,
        scan_reaches(shorter, start, place),
    ensures
        same_outcome(longer, tokens_from(shorter, start), tokens_from(longer, start)),
    decreases shorter.len() - start,
{
    if start == place {
        lemma_tokens_behind(shorter, longer, place, place);
        assert(token_at(longer, place) == Ok::<(Option<Token>, int), ErrorView>(
            (None, place + 1),
        ));
    } else {
        lemma_token_at_advances(shorter, start);
        let end = token_at(shorter, start)->Ok_0.1;
        lemma_scan_reaches_forward(shorter, end, place);
        lemma_token_before(shorter, longer, place, start);
        lemma_tokens_before(shorter, longer, place, end);
    }
}

/// A separator between two tokens changes nothing: the source with the
/// separator has the tokens of the source without it. Where the scan fails,
/// it fails in the same way, an unexpected character being found one position
/// further on.
pub proof fn lemma_separator_between_tokens(before: Seq<char>, behind: Seq<char>, separator: char)
    requires
        is_separator(separator),
        scan_reaches(before + behind, 0, before.len() as int),
    ensures
        same_outcome(
            before + seq![separator] + behind,
            tokens_of(before + behind),
            tokens_of(before + seq![separator] + behind),
        ),
        same_outcome(
            before + seq![separator] + behind,
            evaluation(before + behind),
            evaluation(before + seq![separator] + behind),
        ),
{
    let shorter = before + behind;
    let longer = before + seq![separator] + behind;
    assert(separator_inserted(shorter, longer, before.len() as int));
    lemma_tokens_before(shorter, longer, before.len() as int, 0);
    if let Ok(tokens) = tokens_of(shorter) {
        lemma_parser_fails_in_syntax(tokens, 0);
        if let Ok(tree) = syntax_tree(tokens) {
            lemma_reducer_fails_in_arithmetic(tree);
        }
    }
}

} // verus!
