//! Decimal notation for fractions, with the repeating digits marked.

use std::collections::HashMap;
use vstd::prelude::*;
use vstd::set_lib::{lemma_int_range, lemma_len_subset, set_int_range};
use vstd::std_specs::hash::group_hash_axioms;
use crate::digits::{decimal_text, digit_char, digit_from_number, push_decimal};
use crate::fraction::{Fraction, Ratio};
use crate::sign::Sign;
use crate::text::push_characters;

verus! {

/// What long division by `denominator` carries over once `count` digits
/// behind the point have been written, where `first` was carried over before
/// the first of them.
pub open spec fn remainder_after(first: nat, denominator: nat, count: nat) -> nat
    decreases count,
{
    if count == 0 {
        first
    } else {
        (remainder_after(first, denominator, (count - 1) as nat) * 10) % denominator
    }
}

/// The digit behind the point that has `index` digits before it.
pub open spec fn digit_at(first: nat, denominator: nat, index: nat) -> nat {
    (remainder_after(first, denominator, index) * 10) / denominator
}

/// Long division is over once `index` digits have been written: nothing is
/// carried over, or what is carried over was carried over before.
pub open spec fn stops_at(first: nat, denominator: nat, index: nat) -> bool {
    ||| remainder_after(first, denominator, index) == 0
    ||| exists|earlier: nat|
        earlier < index && #[trigger] remainder_after(first, denominator, earlier)
            == remainder_after(first, denominator, index)
}

/// `count` is the first number of digits at which long division is over.
pub open spec fn is_digit_count(first: nat, denominator: nat, count: nat) -> bool {
    &&& stops_at(first, denominator, count)
    &&& forall|index: nat| index < count ==> !#[trigger] stops_at(first, denominator, index)
}

/// The number of digits behind the point: as many as long division writes
/// until nothing is carried over, or until it carries over what it carried
/// over before.
pub open spec fn digit_count(first: nat, denominator: nat) -> nat {
    choose|count: nat| is_digit_count(first, denominator, count)
}

/// The number of digits that stand before the repeating ones.
pub open spec fn cycle_start(first: nat, denominator: nat) -> nat {
    let count = digit_count(first, denominator);
    choose|earlier: nat|
        earlier < count && #[trigger] remainder_after(first, denominator, earlier)
            == remainder_after(first, denominator, count)
}

/// The digits behind the point. Where they repeat without end, the repeating
/// ones are written once, between parentheses.
pub open spec fn fractional_digits(first: nat, denominator: nat) -> Seq<char> {
    let count = digit_count(first, denominator);
    let digits = Seq::new(count, |index: int| digit_char(digit_at(first, denominator, index as nat)));
    if remainder_after(first, denominator, count) == 0 {
        digits
    } else {
        let start = cycle_start(first, denominator) as int;
        digits.subrange(0, start) + seq!['('] + digits.subrange(start, count as int) + seq![')']
    }
}

/// The ratio in decimal notation: a minus sign where it is negative, the
/// whole part, and behind a point the digits of the rest. A ratio over 1 is
/// written without a point.
pub open spec fn decimal_expansion(ratio: Ratio) -> Seq<char> {
    let sign = if ratio.sign == Sign::Negative {
        seq!['-']
    } else {
        Seq::<char>::empty()
    };
    if ratio.denominator == 1 {
        sign + decimal_text(ratio.numerator)
    } else {
        sign + decimal_text(ratio.numerator / ratio.denominator) + seq!['.'] + fractional_digits(
            ratio.numerator % ratio.denominator,
            ratio.denominator,
        )
    }
}

/// There is one first number of digits at which long division is over.
pub proof fn lemma_digit_count_unique(first: nat, denominator: nat, count: nat)
    requires
        is_digit_count(first, denominator, count),
    ensures
        digit_count(first, denominator) == count,
{
    let chosen = digit_count(first, denominator);
    assert(is_digit_count(first, denominator, chosen));
    if chosen < count {
        assert(!stops_at(first, denominator, chosen));
    } else if count < chosen {
        assert(!stops_at(first, denominator, count));
    }
}

/// Writes a fraction in decimal notation. Digits that repeat without end are
/// written once, between parentheses.
pub fn decimilize(fraction: &Fraction) -> (decimal: String)
    ensures
        decimal@ == decimal_expansion(fraction@),
{
    broadcast use group_hash_axioms;

    let mut decimal = String::new();
    if fraction.sign() == Sign::Negative {
        decimal.push('-');
    }
    let numerator = fraction.numerator();
    let denumerator = fraction.denumerator();
    if denumerator == 1 {
        push_decimal(&mut decimal, numerator);
        assert(decimal@ =~= decimal_expansion(fraction@));
        return decimal;
    }
    push_decimal(&mut decimal, numerator / denumerator);
    decimal.push('.');
    let ghost head = decimal@;
    let ghost first = (numerator % denumerator) as nat;
    let ghost divisor = denumerator as nat;

    let mut remainder = numerator % denumerator;
    let mut rem_positions: HashMap<u64, usize> = HashMap::new();
    let mut digits: Vec<char> = Vec::new();
    let mut cycle: Option<usize> = None;
    let ghost mut seen: Set<int> = Set::empty();
    proof {
        lemma_int_range(1, divisor as int);
    }
    while remainder != 0 && cycle.is_none()
        invariant
            divisor == denumerator,
            divisor > 1,
            first < divisor,
            remainder == remainder_after(first, divisor, digits.len() as nat),
            remainder < divisor,
            digits.len() < divisor,
            forall|index: int|
                0 <= index < digits.len() ==> #[trigger] digits@[index] == digit_char(
                    digit_at(first, divisor, index as nat),
                ),
            forall|index: nat|
                index < digits.len() ==> {
                    let carried = #[trigger] remainder_after(first, divisor, index);
                    &&& carried != 0
                    &&& carried <= u64::MAX
                    &&& rem_positions@.contains_key(carried as u64)
                    &&& rem_positions@[carried as u64] == index
                },
            forall|key: u64| #[trigger]
                rem_positions@.contains_key(key) ==> {
                    &&& rem_positions@[key] < digits.len()
                    &&& remainder_after(first, divisor, rem_positions@[key] as nat) == key
                    &&& seen.contains(key as int)
                },
            forall|index: nat|
                index < digits.len() ==> !#[trigger] stops_at(first, divisor, index),
            seen.subset_of(set_int_range(1, divisor as int)),
            set_int_range(1, divisor as int).finite(),
            set_int_range(1, divisor as int).len() == divisor - 1,
            seen.finite(),
            seen.len() == digits.len(),
            forall|value: int|
                seen.contains(value) ==> 0 <= value <= u64::MAX && rem_positions@.contains_key(
                    value as u64,
                ),
            match cycle {
                Some(start) => start < digits.len() && remainder_after(first, divisor, start as nat)
                    == remainder,
                None => true,
            },
        decreases
                divisor - digits.len() + if cycle.is_none() {
                    1int
                } else {
                    0int
                },
    {
        let ghost count = digits.len() as nat;
        match rem_positions.get(&remainder) {
            Some(position) => {
                cycle = Some(*position);
            },
            None => {
                proof {
                    assert(!stops_at(first, divisor, count)) by {
                        if stops_at(first, divisor, count) {
                            let earlier = choose|earlier: nat|
                                earlier < count && #[trigger] remainder_after(
                                    first,
                                    divisor,
                                    earlier,
                                ) == remainder_after(first, divisor, count);
                            assert(rem_positions@.contains_key(
                                remainder_after(first, divisor, earlier) as u64,
                            ));
                        }
                    }
                    assert(!seen.contains(remainder as int));
                    lemma_len_subset(seen.insert(remainder as int), set_int_range(1, divisor as int));
                    seen = seen.insert(remainder as int);
                }
                rem_positions.insert(remainder, digits.len());
                let scaled: u128 = remainder as u128 * 10;
                let quotient: u128 = scaled / (denumerator as u128);
                assert(quotient < 10) by (nonlinear_arith)
                    requires
                        quotient == (remainder * 10) / (denumerator as int),
                        remainder < denumerator,
                        denumerator > 0,
                ;
                digits.push(digit_from_number(quotient as u64));
                remainder = (scaled % (denumerator as u128)) as u64;
                proof {
                    assert(remainder_after(first, divisor, count + 1) == (remainder_after(
                        first,
                        divisor,
                        count,
                    ) * 10) % divisor);
                    assert forall|index: nat| index < digits.len() implies !#[trigger] stops_at(
                        first,
                        divisor,
                        index,
                    ) by {}
                }
            },
        }
    }
    let ghost count = digits.len() as nat;
    proof {
        if remainder != 0 {
            let start = cycle->Some_0 as nat;
            assert(start < count && remainder_after(first, divisor, start) == remainder_after(
                first,
                divisor,
                count,
            ));
        }
        assert(is_digit_count(first, divisor, count));
        lemma_digit_count_unique(first, divisor, count);
        assert(digits@ =~= Seq::new(
            count,
            |index: int| digit_char(digit_at(first, divisor, index as nat)),
        ));
    }
    if remainder == 0 {
        push_characters(&mut decimal, &digits, 0, digits.len());
        assert(digits@.subrange(0, digits.len() as int) =~= digits@);
    } else {
        let start = match cycle {
            Some(start) => start,
            None => 0,
        };
        proof {
            let chosen = cycle_start(first, divisor);
            assert(chosen < count && remainder_after(first, divisor, chosen) == remainder_after(
                first,
                divisor,
                count,
            ));
            assert(rem_positions@[remainder_after(first, divisor, chosen) as u64] == chosen);
            assert(rem_positions@[remainder_after(first, divisor, start as nat) as u64] == start);
            assert(chosen == start);
        }
        push_characters(&mut decimal, &digits, 0, start);
        decimal.push('(');
        push_characters(&mut decimal, &digits, start, digits.len());
        decimal.push(')');
        assert(decimal@ =~= head + (digits@.subrange(0, start as int) + seq!['(']
            + digits@.subrange(start as int, digits.len() as int) + seq![')']));
    }
    assert(decimal@ =~= decimal_expansion(fraction@));
    decimal
}

} // verus!
