//! Exact rational numbers in lowest terms.

use vstd::prelude::*;
use crate::arith::{
    coprime, gcd, is_greatest_common_divisor, lemma_gcd_quotients_coprime, lemma_gcd_unique,
};
use crate::digits::{decimal_text, push_decimal};
use crate::error::{Error, ErrorView};
use crate::sign::Sign;

verus! {

/// The value of a [`Fraction`]: a sign, and a magnitude given by two natural
/// numbers of any size.
pub struct Ratio {
    pub sign: Sign,
    pub numerator: nat,
    pub denominator: nat,
}

impl Ratio {
    /// The ratio is in lowest terms over a positive denominator.
    pub open spec fn reduced(self) -> bool {
        self.denominator > 0 && coprime(self.numerator, self.denominator)
    }

    /// Both parts can be held in 64 bits.
    pub open spec fn fits(self) -> bool {
        self.numerator <= u64::MAX && self.denominator <= u64::MAX
    }

    /// The ratio `numerator / denominator` with both parts divided by their
    /// greatest common divisor.
    pub open spec fn lowest_terms(numerator: nat, denominator: nat, sign: Sign) -> Ratio {
        Ratio {
            sign,
            numerator: numerator / gcd(numerator, denominator),
            denominator: denominator / gcd(numerator, denominator),
        }
    }

    /// The same magnitude under the opposite sign.
    pub open spec fn negated(self) -> Ratio {
        Ratio { sign: self.sign.flipped(), ..self }
    }

    /// The sum, in lowest terms. Both operands are brought over the product of
    /// the denominators. Under equal signs the numerators add up and the sign
    /// stays; under differing signs the smaller numerator is taken from the
    /// larger, whose sign wins. Opposite operands of equal magnitude give a
    /// positive zero.
    pub open spec fn sum(self, rhs: Ratio) -> Ratio {
        let left = self.numerator * rhs.denominator;
        let right = rhs.numerator * self.denominator;
        let denominator = self.denominator * rhs.denominator;
        if self.sign == rhs.sign {
            Ratio::lowest_terms(left + right, denominator, self.sign)
        } else if left > right {
            Ratio::lowest_terms((left - right) as nat, denominator, self.sign)
        } else if right > left {
            Ratio::lowest_terms((right - left) as nat, denominator, rhs.sign)
        } else {
            Ratio::lowest_terms(0, denominator, Sign::Positive)
        }
    }

    /// The product, in lowest terms.
    pub open spec fn product(self, rhs: Ratio) -> Ratio {
        Ratio::lowest_terms(
            self.numerator * rhs.numerator,
            self.denominator * rhs.denominator,
            self.sign.times(rhs.sign),
        )
    }

    /// The quotient, in lowest terms. It has a meaning only where `rhs` is not
    /// zero.
    pub open spec fn quotient(self, rhs: Ratio) -> Ratio {
        Ratio::lowest_terms(
            self.numerator * rhs.denominator,
            self.denominator * rhs.numerator,
            self.sign.times(rhs.sign),
        )
    }

    /// Some number that arises on the way to `self.sum(rhs)` exceeds 64 bits.
    pub open spec fn sum_overflows(self, rhs: Ratio) -> bool {
        ||| self.numerator * rhs.denominator > u64::MAX
        ||| rhs.numerator * self.denominator > u64::MAX
        ||| self.denominator * rhs.denominator > u64::MAX
        ||| (self.sign == rhs.sign && self.numerator * rhs.denominator + rhs.numerator
            * self.denominator > u64::MAX)
    }

    /// Some number that arises on the way to `self.product(rhs)` exceeds 64
    /// bits.
    pub open spec fn product_overflows(self, rhs: Ratio) -> bool {
        ||| self.numerator * rhs.numerator > u64::MAX
        ||| self.denominator * rhs.denominator > u64::MAX
    }

    /// Some number that arises on the way to `self.quotient(rhs)` exceeds 64
    /// bits.
    pub open spec fn quotient_overflows(self, rhs: Ratio) -> bool {
        ||| self.numerator * rhs.denominator > u64::MAX
        ||| self.denominator * rhs.numerator > u64::MAX
    }

    /// The sum, or `ComputationOverflow` where a number on the way to it
    /// exceeds 64 bits.
    pub open spec fn checked_sum(self, rhs: Ratio) -> Result<Ratio, ErrorView> {
        if self.sum_overflows(rhs) {
            Err(ErrorView::ComputationOverflow)
        } else {
            Ok(self.sum(rhs))
        }
    }

    /// The product, or `ComputationOverflow` where a number on the way to it
    /// exceeds 64 bits.
    pub open spec fn checked_product(self, rhs: Ratio) -> Result<Ratio, ErrorView> {
        if self.product_overflows(rhs) {
            Err(ErrorView::ComputationOverflow)
        } else {
            Ok(self.product(rhs))
        }
    }

    /// The quotient; `DivisionByZero` where `rhs` is zero, and
    /// `ComputationOverflow` where a number on the way to the quotient exceeds
    /// 64 bits.
    pub open spec fn checked_quotient(self, rhs: Ratio) -> Result<Ratio, ErrorView> {
        if rhs.numerator == 0 {
            Err(ErrorView::DivisionByZero)
        } else if self.quotient_overflows(rhs) {
            Err(ErrorView::ComputationOverflow)
        } else {
            Ok(self.quotient(rhs))
        }
    }

    /// The ratio written as numerator, stroke and denominator, behind a minus
    /// sign where it is negative.
    pub open spec fn text(self) -> Seq<char> {
        let sign = if self.sign == Sign::Negative {
            seq!['-']
        } else {
            Seq::<char>::empty()
        };
        sign + decimal_text(self.numerator) + seq!['/'] + decimal_text(self.denominator)
    }
}

/// An exact rational number: an unsigned numerator over an unsigned
/// denominator, with the sign kept apart. A fraction is in lowest terms from
/// the moment it is built, and its denominator is never zero.
#[derive(Debug, Clone, Copy, PartialEq, Eq)]
pub struct Fraction {
    sign: Sign,
    numerator: u64,
    denumerator: u64,
}

impl View for Fraction {
    type V = Ratio;

    closed spec fn view(&self) -> Ratio {
        Ratio {
            sign: self.sign,
            numerator: self.numerator as nat,
            denominator: self.denumerator as nat,
        }
    }
}

/// Calls `gcd::Gcd::gcd` on two 64-bit numbers. The crate documents the result
/// as the greatest common divisor of the two, and as 0 for two zeros; the
/// contract states that and no more.
#[verifier::external_body]
fn greatest_common_divisor(a: u64, b: u64) -> (g: u64)
    ensures
        is_greatest_common_divisor(a as nat, b as nat, g as nat),
{
    gcd::Gcd::gcd(a, b)
}

impl Fraction {
    /// Every fraction is in lowest terms over a positive denominator.
    #[verifier::type_invariant]
    pub open spec fn well_formed(self) -> bool {
        self@.reduced()
    }

    /// The fraction whose value is `ratio`, where `ratio` fits.
    pub closed spec fn from_ratio(ratio: Ratio) -> Fraction {
        Fraction {
            sign: ratio.sign,
            numerator: ratio.numerator as u64,
            denumerator: ratio.denominator as u64,
        }
    }

    /// A fraction is known by its value.
    pub broadcast proof fn lemma_from_ratio(self)
        ensures
            #[trigger] Fraction::from_ratio(self@) == self,
            self@.fits(),
    {
    }

    /// Every ratio that fits is the value of a fraction.
    pub broadcast proof fn lemma_view_from_ratio(ratio: Ratio)
        requires
            ratio.fits(),
        ensures
            #[trigger] Fraction::from_ratio(ratio)@ == ratio,
    {
    }

    /// Divides both numbers by their greatest common divisor.
    fn reduce(numerator: u64, denumerator: u64) -> (parts: (u64, u64))
        requires
            denumerator != 0,
        ensures
            parts.0 == numerator as nat / gcd(numerator as nat, denumerator as nat),
            parts.1 == denumerator as nat / gcd(numerator as nat, denumerator as nat),
            parts.1 > 0,
            coprime(parts.0 as nat, parts.1 as nat),
    {
        let divisor = greatest_common_divisor(numerator, denumerator);
        proof {
            lemma_gcd_unique(numerator as nat, denumerator as nat, divisor as nat);
            lemma_gcd_quotients_coprime(numerator as nat, denumerator as nat);
            let g = divisor as nat;
            let q = denumerator as nat / g;
            assert(q > 0) by (nonlinear_arith)
                requires
                    denumerator as nat == g * q,
                    denumerator > 0,
            ;
        }
        (numerator / divisor, denumerator / divisor)
    }

    /// Builds the fraction `numerator / denumerator` under `sign`, brought to
    /// lowest terms.
    pub fn new(numerator: u64, denumerator: u64, sign: Sign) -> (fraction: Fraction)
        requires
            denumerator != 0,
        ensures
            fraction@ == Ratio::lowest_terms(numerator as nat, denumerator as nat, sign),
            fraction@.reduced(),
    {
        let (numerator, denumerator) = Fraction::reduce(numerator, denumerator);
        Fraction { sign, numerator, denumerator }
    }

    /// The same magnitude under the opposite sign.
    pub fn negate(self) -> (fraction: Fraction)
        ensures
            fraction@ == self@.negated(),
    {
        proof {
            use_type_invariant(&self);
        }
        Fraction { sign: self.sign.flip(), numerator: self.numerator, denumerator: self.denumerator }
    }

    /// The sign of the fraction.
    #[inline]
    pub fn sign(&self) -> (sign: Sign)
        ensures
            sign == self@.sign,
    {
        self.sign
    }

    /// The numerator of the fraction in lowest terms.
    #[inline]
    pub fn numerator(&self) -> (numerator: u64)
        ensures
            numerator == self@.numerator,
    {
        self.numerator
    }

    /// The denominator of the fraction in lowest terms.
    #[inline]
    pub fn denumerator(&self) -> (denumerator: u64)
        ensures
            denumerator == self@.denominator,
            denumerator > 0,
    {
        proof {
            use_type_invariant(self);
        }
        self.denumerator
    }

    /// Writes the fraction as `numerator/denumerator`, behind a minus sign
    /// where it is negative.
    pub fn to_string(&self) -> (text: String)
        ensures
            text@ == self@.text(),
    {
        let mut text = String::new();
        if self.sign == Sign::Negative {
            text.push('-');
        }
        push_decimal(&mut text, self.numerator);
        text.push('/');
        push_decimal(&mut text, self.denumerator);
        assert(text@ =~= self@.text());
        text
    }

    /// Adds two fractions, or reports that a cross product, the sum of the
    /// numerators or the common denominator exceeds 64 bits.
    pub fn add(self, rhs: Fraction) -> (result: Result<Fraction, Error>)
        ensures
            match result {
                Ok(fraction) => self@.checked_sum(rhs@) == Ok::<Ratio, ErrorView>(fraction@),
                Err(error) => self@.checked_sum(rhs@) == Err::<Ratio, ErrorView>(error@),
            },
    {
        proof {
            use_type_invariant(&self);
            use_type_invariant(&rhs);
        }
        let left = match self.numerator.checked_mul(rhs.denumerator) {
            Some(product) => product,
            None => return Err(Error::ComputationOverflow),
        };
        let right = match rhs.numerator.checked_mul(self.denumerator) {
            Some(product) => product,
            None => return Err(Error::ComputationOverflow),
        };
        let denumerator = match self.denumerator.checked_mul(rhs.denumerator) {
            Some(product) => product,
            None => return Err(Error::ComputationOverflow),
        };
        assert(denumerator != 0) by (nonlinear_arith)
            requires
                denumerator == self.denumerator * rhs.denumerator,
                self.denumerator > 0,
                rhs.denumerator > 0,
        ;
        if self.sign == rhs.sign {
            match left.checked_add(right) {
                Some(numerator) => Ok(Fraction::new(numerator, denumerator, self.sign)),
                None => Err(Error::ComputationOverflow),
            }
        } else if left > right {
            Ok(Fraction::new(left - right, denumerator, self.sign))
        } else if right > left {
            Ok(Fraction::new(right - left, denumerator, rhs.sign))
        } else {
            Ok(Fraction::new(0, denumerator, Sign::Positive))
        }
    }

    /// Multiplies two fractions, or reports that the product of the numerators
    /// or of the denominators exceeds 64 bits.
    pub fn multiply(self, rhs: Fraction) -> (result: Result<Fraction, Error>)
        ensures
            match result {
                Ok(fraction) => self@.checked_product(rhs@) == Ok::<Ratio, ErrorView>(fraction@),
                Err(error) => self@.checked_product(rhs@) == Err::<Ratio, ErrorView>(error@),
            },
    {
        proof {
            use_type_invariant(&self);
            use_type_invariant(&rhs);
        }
        let numerator = match self.numerator.checked_mul(rhs.numerator) {
            Some(product) => product,
            None => return Err(Error::ComputationOverflow),
        };
        let denumerator = match self.denumerator.checked_mul(rhs.denumerator) {
            Some(product) => product,
            None => return Err(Error::ComputationOverflow),
        };
        assert(denumerator != 0) by (nonlinear_arith)
            requires
                denumerator == self.denumerator * rhs.denumerator,
                self.denumerator > 0,
                rhs.denumerator > 0,
        ;
        Ok(Fraction::new(numerator, denumerator, self.sign * rhs.sign))
    }

    /// Divides one fraction by another. A zero divisor is reported as
    /// `DivisionByZero`; a cross product that exceeds 64 bits as
    /// `ComputationOverflow`.
    pub fn divide(self, rhs: Fraction) -> (result: Result<Fraction, Error>)
        ensures
            match result {
                Ok(fraction) => self@.checked_quotient(rhs@) == Ok::<Ratio, ErrorView>(fraction@),
                Err(error) => self@.checked_quotient(rhs@) == Err::<Ratio, ErrorView>(error@),
            },
    {
        proof {
            use_type_invariant(&self);
            use_type_invariant(&rhs);
        }
        if rhs.numerator == 0 {
            return Err(Error::DivisionByZero);
        }
        let numerator = match self.numerator.checked_mul(rhs.denumerator) {
            Some(product) => product,
            None => return Err(Error::ComputationOverflow),
        };
        let denumerator = match self.denumerator.checked_mul(rhs.numerator) {
            Some(product) => product,
            None => return Err(Error::ComputationOverflow),
        };
        assert(denumerator != 0) by (nonlinear_arith)
            requires
                denumerator == self.denumerator * rhs.numerator,
                self.denumerator > 0,
                rhs.numerator > 0,
        ;
        Ok(Fraction::new(numerator, denumerator, self.sign * rhs.sign))
    }
}

} // verus!
