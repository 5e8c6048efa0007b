//! The polarity of a fraction.

use vstd::prelude::*;
use vstd::std_specs::ops::MulSpecImpl;

verus! {

/// Whether a value lies above or below zero. Magnitudes are kept unsigned,
/// and the sign is carried beside them.
#[derive(Debug, Clone, Copy, PartialEq, Eq, Structural)]
pub enum Sign {
    Positive,
    Negative,
}

impl Sign {
    /// The sign of a product: equal signs give `Positive`, differing signs
    /// give `Negative`.
    pub open spec fn times(self, rhs: Sign) -> Sign {
        if self == rhs {
            Sign::Positive
        } else {
            Sign::Negative
        }
    }

    /// The opposite sign.
    pub open spec fn flipped(self) -> Sign {
        match self {
            Sign::Positive => Sign::Negative,
            Sign::Negative => Sign::Positive,
        }
    }

    /// What is written in front of a magnitude: `+` or `-`.
    pub open spec fn symbol(self) -> Seq<char> {
        match self {
            Sign::Positive => seq!['+'],
            Sign::Negative => seq!['-'],
        }
    }

    /// The opposite sign.
    pub fn flip(self) -> (r: Sign)
        ensures
            r == self.flipped(),
    {
        match self {
            Sign::Positive => Sign::Negative,
            Sign::Negative => Sign::Positive,
        }
    }

    /// Renders the sign as `+` or `-`.
    pub fn to_string(&self) -> (text: String)
        ensures
            text@ == self.symbol(),
    {
        let text = match self {
            Sign::Positive => "+",
            Sign::Negative => "-",
        };
        proof {
            reveal_strlit("+");
            reveal_strlit("-");
            assert("+"@ =~= seq!['+']);
            assert("-"@ =~= seq!['-']);
        }
        text.to_owned()
    }
}

impl core::ops::Mul for Sign {
    type Output = Sign;

    fn mul(self, rhs: Sign) -> (r: Sign) {
        if self == rhs {
            Sign::Positive
        } else {
            Sign::Negative
        }
    }
}

impl MulSpecImpl for Sign {
    open spec fn obeys_mul_spec() -> bool {
        true
    }

    open spec fn mul_req(self, rhs: Sign) -> bool {
        true
    }

    open spec fn mul_spec(self, rhs: Sign) -> Sign {
        self.times(rhs)
    }
}

/// Multiplication of signs is commutative and associative, `Positive` is its
/// unit, and every sign is its own inverse.
pub proof fn lemma_sign_times(a: Sign, b: Sign, c: Sign)
    ensures
        a.times(b) == b.times(a),
        a.times(b).times(c) == a.times(b.times(c)),
        a.times(Sign::Positive) == a,
        a.times(a) == Sign::Positive,
{
}

} // verus!
