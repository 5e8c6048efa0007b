//! Decimal digits, and the numbers that strings of them denote.

use vstd::prelude::*;

verus! {

/// `c` is one of the ten decimal digits.
pub open spec fn is_digit(c: char) -> bool {
    '0' <= c <= '9'
}

/// The number that a decimal digit stands for.
pub open spec fn digit_value(c: char) -> nat {
    (c as u32 - '0' as u32) as nat
}

/// The decimal digit that stands for a number below ten.
pub open spec fn digit_char(d: nat) -> char {
    (d + '0' as u32) as char
}

/// Whether `c` is a decimal digit.
pub fn is_decimal_digit(c: char) -> (b: bool)
    ensures
        b == is_digit(c),
{
    '0' <= c && c <= '9'
}

/// The number that the decimal digit `c` stands for.
pub(crate) fn digit_to_number(c: char) -> (d: u64)
    requires
        is_digit(c),
    ensures
        d == digit_value(c),
        d < 10,
{
    (c as u32 - '0' as u32) as u64
}

/// The decimal digit that stands for `d`.
pub(crate) fn digit_from_number(d: u64) -> (c: char)
    requires
        d < 10,
    ensures
        c == digit_char(d as nat),
        is_digit(c),
        digit_value(c) == d,
{
    (d as u8 + 48u8) as char
}

/// Every character of `text` is a decimal digit.
pub open spec fn all_digits(text: Seq<char>) -> bool {
    forall|i: int| 0 <= i < text.len() ==> is_digit(#[trigger] text[i])
}

/// The number that a string of decimal digits denotes, the last digit
/// counting least. The empty string denotes zero.
pub open spec fn decimal_value(text: Seq<char>) -> nat
    decreases text.len(),
{
    if text.len() == 0 {
        0
    } else {
        10 * decimal_value(text.drop_last()) + digit_value(text.last())
    }
}

/// The decimal digits of `n`, without leading zeros; zero is written `0`.
pub open spec fn decimal_text(n: nat) -> Seq<char>
    decreases n,
{
    if n < 10 {
        seq![digit_char(n)]
    } else {
        decimal_text(n / 10).push(digit_char(n % 10))
    }
}

/// Ten to the power `exponent`.
pub open spec fn power_of_ten(exponent: nat) -> nat
    decreases exponent,
{
    if exponent == 0 {
        1
    } else {
        10 * power_of_ten((exponent - 1) as nat)
    }
}

/// A string of digits denotes at least what any of its prefixes denotes.
pub proof fn lemma_decimal_value_prefix(text: Seq<char>, length: int)
    requires
        0 <= length <= text.len(),
    ensures
        decimal_value(text.take(length)) <= decimal_value(text),
    decreases text.len(),
{
    if length == text.len() {
        assert(text.take(length) =~= text);
    } else {
        assert(text.drop_last().take(length) =~= text.take(length));
        lemma_decimal_value_prefix(text.drop_last(), length);
    }
}

/// Reading the digits of a number gives the number back.
pub proof fn lemma_decimal_text(n: nat)
    ensures
        decimal_text(n).len() > 0,
        all_digits(decimal_text(n)),
        decimal_value(decimal_text(n)) == n,
    decreases n,
{
    if n < 10 {
        let text = decimal_text(n);
        assert(text.drop_last() =~= Seq::<char>::empty());
        assert(decimal_value(text.drop_last()) == 0);
    } else {
        lemma_decimal_text(n / 10);
        let text = decimal_text(n);
        let front = decimal_text(n / 10);
        assert(text.drop_last() =~= front);
        assert(text.last() == digit_char(n % 10));
        assert forall|i: int| 0 <= i < text.len() implies is_digit(#[trigger] text[i]) by {
            if i < front.len() {
                assert(text[i] == front[i]);
            }
        }
    }
}

/// Ten to any power is positive.
pub proof fn lemma_power_of_ten_positive(exponent: nat)
    ensures
        power_of_ten(exponent) > 0,
    decreases exponent,
{
    if exponent > 0 {
        lemma_power_of_ten_positive((exponent - 1) as nat);
    }
}

/// Ten to a larger power is at least ten to a smaller one.
pub proof fn lemma_power_of_ten_monotonic(smaller: nat, larger: nat)
    requires
        smaller <= larger,
    ensures
        power_of_ten(smaller) <= power_of_ten(larger),
    decreases larger,
{
    if smaller < larger {
        lemma_power_of_ten_monotonic(smaller, (larger - 1) as nat);
    }
}

/// Reads a string of decimal digits as a number. The result is `None` where
/// the number exceeds 64 bits.
pub(crate) fn parse_decimal(text: &Vec<char>) -> (value: Option<u64>)
    requires
        all_digits(text@),
    ensures
        match value {
            Some(number) => number == decimal_value(text@),
            None => decimal_value(text@) > u64::MAX,
        },
{
    let mut number: u64 = 0;
    let mut index: usize = 0;
    while index < text.len()
        invariant
            index <= text.len(),
            all_digits(text@),
            number == decimal_value(text@.take(index as int)),
        decreases text.len() - index,
    {
        let digit = digit_to_number(text[index]);
        proof {
            let longer = text@.take(index + 1);
            assert(longer.drop_last() =~= text@.take(index as int));
            assert(longer.last() == text@[index as int]);
            lemma_decimal_value_prefix(text@, index + 1);
        }
        let shifted = match number.checked_mul(10) {
            Some(product) => product,
            None => return None,
        };
        number = match shifted.checked_add(digit) {
            Some(sum) => sum,
            None => return None,
        };
        index += 1;
    }
    assert(text@.take(index as int) =~= text@);
    Some(number)
}

/// Computes ten to the power `exponent`. The result is `None` where the power
/// exceeds 64 bits.
pub fn ten_to_the(exponent: usize) -> (power: Option<u64>)
    ensures
        match power {
            Some(number) => number == power_of_ten(exponent as nat),
            None => power_of_ten(exponent as nat) > u64::MAX,
        },
{
    let mut number: u64 = 1;
    let mut index: usize = 0;
    while index < exponent
        invariant
            index <= exponent,
            number == power_of_ten(index as nat),
        decreases exponent - index,
    {
        proof {
            lemma_power_of_ten_monotonic((index + 1) as nat, exponent as nat);
        }
        number = match number.checked_mul(10) {
            Some(product) => product,
            None => return None,
        };
        index += 1;
    }
    Some(number)
}

/// Appends the decimal digits of `number` to `text`.
pub fn push_decimal(text: &mut String, number: u64)
    ensures
        final(text)@ == old(text)@ + decimal_text(number as nat),
    decreases number,
{
    if number >= 10 {
        push_decimal(text, number / 10);
    }
    text.push(digit_from_number(number % 10));
    proof {
        let before = old(text)@;
        if number >= 10 {
            assert((before + decimal_text(number as nat / 10)).push(digit_char(number as nat % 10))
                =~= before + decimal_text(number as nat));
        } else {
            assert(before.push(digit_char(number as nat)) =~= before + decimal_text(
                number as nat,
            ));
        }
    }
}

} // verus!
