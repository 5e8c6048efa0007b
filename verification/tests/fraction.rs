use fraction_calc::error::Error;
use fraction_calc::fraction::Fraction;
use fraction_calc::sign::Sign;

fn parts(fraction: &Fraction) -> (Sign, u64, u64) {
    (fraction.sign(), fraction.numerator(), fraction.denumerator())
}

#[test]
fn new_brings_to_lowest_terms() {
    assert_eq!(parts(&Fraction::new(6, 8, Sign::Positive)), (Sign::Positive, 3, 4));
    assert_eq!(parts(&Fraction::new(2024, 748, Sign::Negative)), (Sign::Negative, 46, 17));
    assert_eq!(parts(&Fraction::new(7, 1, Sign::Positive)), (Sign::Positive, 7, 1));
    assert_eq!(parts(&Fraction::new(5, 5, Sign::Positive)), (Sign::Positive, 1, 1));
    assert_eq!(
        parts(&Fraction::new(u64::MAX, u64::MAX - 1, Sign::Positive)),
        (Sign::Positive, u64::MAX, u64::MAX - 1)
    );
}

#[test]
fn zero_is_reduced_to_zero_over_one() {
    assert_eq!(parts(&Fraction::new(0, 5, Sign::Positive)), (Sign::Positive, 0, 1));
    assert_eq!(parts(&Fraction::new(0, 5, Sign::Negative)), (Sign::Negative, 0, 1));
}

#[test]
fn multiples_reduce_to_the_same_fraction() {
    let lowest = Fraction::new(3, 7, Sign::Negative);
    for k in 1..200u64 {
        assert_eq!(Fraction::new(k * 3, k * 7, Sign::Negative), lowest);
    }
    assert_eq!(parts(&lowest), (Sign::Negative, 3, 7));
    assert_eq!(
        Fraction::new(3 * 1_000_000_007, 7 * 1_000_000_007, Sign::Positive),
        Fraction::new(3, 7, Sign::Positive)
    );
}

#[test]
fn negate_flips_the_sign_only() {
    let fraction = Fraction::new(3, 4, Sign::Positive);
    assert_eq!(parts(&fraction.negate()), (Sign::Negative, 3, 4));
    assert_eq!(fraction.negate().negate(), fraction);
    assert_eq!(parts(&Fraction::new(0, 1, Sign::Positive).negate()), (Sign::Negative, 0, 1));
}

#[test]
fn add_under_equal_signs() {
    let a = Fraction::new(1, 2, Sign::Positive);
    let b = Fraction::new(1, 3, Sign::Positive);
    assert_eq!(a.add(b), Ok(Fraction::new(5, 6, Sign::Positive)));
    let c = Fraction::new(1, 6, Sign::Negative);
    let d = Fraction::new(1, 3, Sign::Negative);
    assert_eq!(c.add(d), Ok(Fraction::new(1, 2, Sign::Negative)));
}

#[test]
fn add_under_differing_signs_takes_the_sign_of_the_larger() {
    let a = Fraction::new(1, 2, Sign::Positive);
    let b = Fraction::new(3, 4, Sign::Negative);
    assert_eq!(a.add(b), Ok(Fraction::new(1, 4, Sign::Negative)));
    assert_eq!(b.add(a), Ok(Fraction::new(1, 4, Sign::Negative)));
    let c = Fraction::new(5, 4, Sign::Positive);
    assert_eq!(c.add(b), Ok(Fraction::new(1, 2, Sign::Positive)));
}

#[test]
fn opposite_operands_add_to_positive_zero() {
    let a = Fraction::new(3, 4, Sign::Positive);
    let b = Fraction::new(3, 4, Sign::Negative);
    assert_eq!(a.add(b).map(|sum| parts(&sum)), Ok((Sign::Positive, 0, 1)));
    assert_eq!(b.add(a).map(|sum| parts(&sum)), Ok((Sign::Positive, 0, 1)));
}

#[test]
fn multiply_multiplies_parts_and_signs() {
    let a = Fraction::new(2, 3, Sign::Negative);
    let b = Fraction::new(9, 4, Sign::Positive);
    assert_eq!(a.multiply(b), Ok(Fraction::new(3, 2, Sign::Negative)));
    assert_eq!(a.multiply(a), Ok(Fraction::new(4, 9, Sign::Positive)));
    assert_eq!(b.multiply(b), Ok(Fraction::new(81, 16, Sign::Positive)));
}

#[test]
fn divide_multiplies_crosswise() {
    let a = Fraction::new(2, 3, Sign::Negative);
    let b = Fraction::new(4, 9, Sign::Negative);
    assert_eq!(a.divide(b), Ok(Fraction::new(3, 2, Sign::Positive)));
    assert_eq!(b.divide(a), Ok(Fraction::new(2, 3, Sign::Positive)));
}

#[test]
fn divide_by_zero_fails() {
    let a = Fraction::new(2, 3, Sign::Positive);
    assert_eq!(a.divide(Fraction::new(0, 1, Sign::Positive)), Err(Error::DivisionByZero));
    assert_eq!(a.divide(Fraction::new(0, 9, Sign::Negative)), Err(Error::DivisionByZero));
}

#[test]
fn intermediate_products_overflow() {
    let big = Fraction::new(u64::MAX, 1, Sign::Positive);
    let one = Fraction::new(1, 1, Sign::Positive);
    let half = Fraction::new(1, 2, Sign::Positive);
    assert_eq!(big.add(one), Err(Error::ComputationOverflow));
    assert_eq!(big.add(one.negate()), Ok(Fraction::new(u64::MAX - 1, 1, Sign::Positive)));
    assert_eq!(big.add(half), Err(Error::ComputationOverflow));
    assert_eq!(big.multiply(Fraction::new(2, 1, Sign::Positive)), Err(Error::ComputationOverflow));
    assert_eq!(big.divide(half), Err(Error::ComputationOverflow));
    assert_eq!(half.divide(big), Err(Error::ComputationOverflow));
    // the product 2^32 / 3 * 3 / 2^32 is 1, but its numerator passes 2^64 before it is reduced
    let a = Fraction::new(1 << 33, 3, Sign::Positive);
    let b = Fraction::new(1 << 33, 5, Sign::Positive);
    assert_eq!(a.multiply(b), Err(Error::ComputationOverflow));
}

#[test]
fn addition_and_multiplication_commute() {
    let values = [
        Fraction::new(1, 2, Sign::Positive),
        Fraction::new(3, 4, Sign::Negative),
        Fraction::new(0, 1, Sign::Negative),
        Fraction::new(0, 1, Sign::Positive),
        Fraction::new(7, 5, Sign::Positive),
        Fraction::new(3, 4, Sign::Positive),
    ];
    for a in values {
        for b in values {
            assert_eq!(a.add(b), b.add(a));
            assert_eq!(a.multiply(b), b.multiply(a));
        }
    }
}

#[test]
fn addition_and_multiplication_associate() {
    let values = [
        Fraction::new(1, 2, Sign::Positive),
        Fraction::new(3, 4, Sign::Negative),
        Fraction::new(0, 1, Sign::Negative),
        Fraction::new(5, 6, Sign::Positive),
        Fraction::new(1, 2, Sign::Negative),
    ];
    for a in values {
        for b in values {
            for c in values {
                let left = a.add(b).unwrap().add(c);
                let right = a.add(b.add(c).unwrap());
                assert_eq!(left, right);
                let left = a.multiply(b).unwrap().multiply(c);
                let right = a.multiply(b.multiply(c).unwrap());
                assert_eq!(left, right);
            }
        }
    }
    let a = Fraction::new(1, 2, Sign::Positive);
    let b = Fraction::new(1, 3, Sign::Positive);
    let c = Fraction::new(1, 6, Sign::Positive);
    assert_eq!(a.add(b).unwrap().add(c), Ok(Fraction::new(1, 1, Sign::Positive)));
}

#[test]
fn dividing_and_multiplying_back_recovers_the_dividend() {
    let values = [
        Fraction::new(1, 2, Sign::Positive),
        Fraction::new(3, 4, Sign::Negative),
        Fraction::new(0, 1, Sign::Negative),
        Fraction::new(0, 1, Sign::Positive),
        Fraction::new(22, 7, Sign::Positive),
    ];
    let divisors = [
        Fraction::new(5, 9, Sign::Positive),
        Fraction::new(2, 3, Sign::Negative),
        Fraction::new(1, 1, Sign::Negative),
    ];
    for a in values {
        for b in divisors {
            assert_eq!(a.divide(b).unwrap().multiply(b), Ok(a));
        }
    }
}

#[test]
fn division_commutes_only_between_equal_magnitudes() {
    let a = Fraction::new(2, 3, Sign::Positive);
    let b = Fraction::new(2, 3, Sign::Negative);
    let c = Fraction::new(3, 2, Sign::Positive);
    assert_eq!(a.divide(b), b.divide(a));
    assert_eq!(a.divide(b), Ok(Fraction::new(1, 1, Sign::Negative)));
    assert_ne!(a.divide(c), c.divide(a));
}

#[test]
fn division_associates_only_for_zero_or_unit() {
    let a = Fraction::new(2, 3, Sign::Positive);
    let b = Fraction::new(5, 7, Sign::Negative);
    let one = Fraction::new(1, 1, Sign::Negative);
    let two = Fraction::new(2, 1, Sign::Positive);
    let zero = Fraction::new(0, 1, Sign::Positive);
    assert_eq!(a.divide(b).unwrap().divide(one), a.divide(b.divide(one).unwrap()));
    assert_eq!(zero.divide(b).unwrap().divide(two), zero.divide(b.divide(two).unwrap()));
    assert_ne!(a.divide(b).unwrap().divide(two), a.divide(b.divide(two).unwrap()));
}

#[test]
fn to_string_shows_sign_numerator_and_denominator() {
    assert_eq!(Fraction::new(6, 8, Sign::Positive).to_string(), "3/4");
    assert_eq!(Fraction::new(6, 8, Sign::Negative).to_string(), "-3/4");
    assert_eq!(Fraction::new(10, 1, Sign::Positive).to_string(), "10/1");
    assert_eq!(Fraction::new(0, 3, Sign::Negative).to_string(), "-0/1");
    assert_eq!(
        Fraction::new(u64::MAX, 1, Sign::Positive).to_string(),
        "18446744073709551615/1"
    );
}

#[test]
fn signs_multiply() {
    assert_eq!(Sign::Positive * Sign::Positive, Sign::Positive);
    assert_eq!(Sign::Positive * Sign::Negative, Sign::Negative);
    assert_eq!(Sign::Negative * Sign::Positive, Sign::Negative);
    assert_eq!(Sign::Negative * Sign::Negative, Sign::Positive);
}

#[test]
fn signs_flip_and_print() {
    assert_eq!(Sign::Positive.flip(), Sign::Negative);
    assert_eq!(Sign::Negative.flip(), Sign::Positive);
    assert_eq!(Sign::Positive.to_string(), "+");
    assert_eq!(Sign::Negative.to_string(), "-");
}
