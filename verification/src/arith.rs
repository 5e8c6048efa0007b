//! Divisibility and greatest common divisors over the natural numbers.

use vstd::prelude::*;
use vstd::arithmetic::div_mod::{
    lemma_fundamental_div_mod, lemma_mod_multiples_basic, lemma_truncate_middle,
};

verus! {

/// The greatest common divisor of `a` and `b`, with `gcd(0, 0) == 0`.
pub open spec fn gcd(a: nat, b: nat) -> nat
    decreases b,
{
    if b == 0 {
        a
    } else {
        gcd(b, a % b)
    }
}

/// `g` is the greatest common divisor of `a` and `b`: it divides both, and no
/// common divisor exceeds it. Zero and zero have none; `g` is then zero.
pub open spec fn is_greatest_common_divisor(a: nat, b: nat, g: nat) -> bool {
    if a == 0 && b == 0 {
        g == 0
    } else {
        &&& g > 0
        &&& a % g == 0
        &&& b % g == 0
        &&& forall|d: nat| d > 0 && #[trigger] (a % d) == 0 && b % d == 0 ==> d <= g
    }
}

/// Two numbers are coprime when 1 is their only common divisor.
pub open spec fn coprime(a: nat, b: nat) -> bool {
    gcd(a, b) == 1
}

/// What leaves no remainder is the divisor times the quotient.
pub proof fn lemma_multiple_iff(n: nat, d: nat)
    requires
        d > 0,
    ensures
        n % d == 0 <==> n == d * (n / d),
{
    lemma_fundamental_div_mod(n as int, d as int);
}

/// A multiple of `d` leaves no remainder.
pub proof fn lemma_multiple_divisible(d: nat, k: nat)
    requires
        d > 0,
    ensures
        (d * k) % d == 0,
{
    lemma_mod_multiples_basic(k as int, d as int);
    assert(d * k == k * d) by (nonlinear_arith);
}

/// A divisor of two numbers divides every combination `x * q + y` of them.
pub proof fn lemma_divides_combination(x: nat, y: nat, q: nat, d: nat)
    requires
        d > 0,
        x % d == 0,
        y % d == 0,
    ensures
        (x * q + y) % d == 0,
{
    lemma_multiple_iff(x, d);
    lemma_multiple_iff(y, d);
    let k = (x / d) * q + y / d;
    assert(x * q + y == d * k) by (nonlinear_arith)
        requires
            x == d * (x / d),
            y == d * (y / d),
            k == (x / d) * q + y / d,
    ;
    lemma_multiple_divisible(d, k);
}

/// A divisor of `x * q + y` and of `x` divides `y`.
pub proof fn lemma_divides_difference(x: nat, y: nat, q: nat, d: nat)
    requires
        d > 0,
        x % d == 0,
        (x * q + y) % d == 0,
    ensures
        y % d == 0,
{
    let s = x * q + y;
    lemma_multiple_iff(x, d);
    lemma_multiple_iff(s, d);
    let k = s / d - (x / d) * q;
    assert(y == d * k) by (nonlinear_arith)
        requires
            x == d * (x / d),
            s == d * (s / d),
            s == x * q + y,
            k == s / d - (x / d) * q,
    ;
    assert(k >= 0) by (nonlinear_arith)
        requires
            y == d * k,
            d > 0,
            y >= 0,
    ;
    lemma_multiple_divisible(d, k as nat);
}

/// The greatest common divisor divides both of its arguments, and is positive
/// unless both are zero.
pub proof fn lemma_gcd_divides(a: nat, b: nat)
    ensures
        a > 0 || b > 0 ==> gcd(a, b) > 0,
        gcd(a, b) > 0 ==> a % gcd(a, b) == 0 && b % gcd(a, b) == 0,
    decreases b,
{
    if b == 0 {
        if a > 0 {
            lemma_multiple_divisible(a, 1);
            lemma_multiple_divisible(a, 0);
        }
    } else {
        let g = gcd(b, a % b);
        lemma_gcd_divides(b, a % b);
        lemma_fundamental_div_mod(a as int, b as int);
        assert(a == b * (a / b) + a % b);
        lemma_divides_combination(b, a % b, a / b, g);
    }
}

/// Every common divisor of `a` and `b` divides their greatest common divisor.
pub proof fn lemma_gcd_greatest(a: nat, b: nat, d: nat)
    requires
        d > 0,
        a % d == 0,
        b % d == 0,
    ensures
        gcd(a, b) % d == 0,
        a > 0 || b > 0 ==> d <= gcd(a, b),
    decreases b,
{
    if b != 0 {
        lemma_fundamental_div_mod(a as int, b as int);
        assert(a == b * (a / b) + a % b);
        lemma_divides_difference(b, a % b, a / b, d);
        lemma_gcd_greatest(b, a % b, d);
    }
    if a > 0 || b > 0 {
        lemma_gcd_divides(a, b);
        let g = gcd(a, b);
        lemma_multiple_iff(g, d);
        assert(d <= g) by (nonlinear_arith)
            requires
                g == d * (g / d),
                g > 0,
                d > 0,
        ;
    }
}

/// The recurrence computes the greatest common divisor, and nothing else is one.
pub proof fn lemma_gcd_unique(a: nat, b: nat, g: nat)
    ensures
        is_greatest_common_divisor(a, b, g) <==> g == gcd(a, b),
{
    let e = gcd(a, b);
    lemma_gcd_divides(a, b);
    if a > 0 || b > 0 {
        assert forall|d: nat| d > 0 && #[trigger] (a % d) == 0 && b % d == 0 implies d <= e by {
            lemma_gcd_greatest(a, b, d);
        }
        assert(is_greatest_common_divisor(a, b, e));
        if is_greatest_common_divisor(a, b, g) {
            lemma_gcd_greatest(a, b, g);
            assert(a % e == 0);
        }
    }
}

/// The greatest common divisor does not depend on the order of its arguments.
pub proof fn lemma_gcd_symmetric(a: nat, b: nat)
    ensures
        gcd(a, b) == gcd(b, a),
{
    lemma_gcd_unique(a, b, gcd(a, b));
    let g = gcd(a, b);
    if a > 0 || b > 0 {
        assert forall|d: nat| d > 0 && #[trigger] (b % d) == 0 && a % d == 0 implies d <= g by {
            assert(a % d == 0);
        }
    }
    assert(is_greatest_common_divisor(b, a, g));
    lemma_gcd_unique(b, a, g);
}

/// A common factor can be taken out of a greatest common divisor.
pub proof fn lemma_gcd_scale(a: nat, b: nat, k: nat)
    requires
        k > 0,
    ensures
        gcd(k * a, k * b) == k * gcd(a, b),
    decreases b,
{
    if b == 0 {
        assert(k * b == 0) by (nonlinear_arith)
            requires
                b == 0,
        ;
    } else {
        lemma_truncate_middle(a as int, k as int, b as int);
        assert(k * b > 0);
        assert((k * a) % (k * b) == k * (a % b));
        lemma_gcd_scale(b, a % b, k);
    }
}

/// Dividing two numbers by their greatest common divisor leaves them coprime.
pub proof fn lemma_gcd_quotients_coprime(a: nat, b: nat)
    requires
        a > 0 || b > 0,
    ensures
        gcd(a, b) > 0,
        a == gcd(a, b) * (a / gcd(a, b)),
        b == gcd(a, b) * (b / gcd(a, b)),
        coprime(a / gcd(a, b), b / gcd(a, b)),
{
    let g = gcd(a, b);
    lemma_gcd_divides(a, b);
    lemma_multiple_iff(a, g);
    lemma_multiple_iff(b, g);
    lemma_gcd_scale(a / g, b / g, g);
    let h = gcd(a / g, b / g);
    assert(h == 1) by (nonlinear_arith)
        requires
            g == g * h,
            g > 0,
    ;
}

/// If `a` is coprime to `b` and divides `b * c`, then `a` divides `c`.
pub proof fn lemma_coprime_divides(a: nat, b: nat, c: nat)
    requires
        a > 0,
        coprime(a, b),
        (b * c) % a == 0,
    ensures
        c % a == 0,
{
    if c == 0 {
        lemma_multiple_divisible(a, 0);
    } else {
        lemma_gcd_scale(a, b, c);
        assert(c * gcd(a, b) == c) by (nonlinear_arith)
            requires
                gcd(a, b) == 1,
        ;
        assert(c * b == b * c) by (nonlinear_arith);
        lemma_multiple_divisible(a, c);
        assert(c * a == a * c) by (nonlinear_arith);
        lemma_gcd_greatest(c * a, c * b, a);
    }
}

/// A fraction has only one representation in lowest terms: two coprime pairs
/// with positive second parts that cross-multiply to the same number are equal.
pub proof fn lemma_lowest_terms_unique(p: nat, q: nat, r: nat, s: nat)
    requires
        q > 0,
        s > 0,
        coprime(p, q),
        coprime(r, s),
        p * s == r * q,
    ensures
        p == r,
        q == s,
{
    lemma_gcd_symmetric(p, q);
    lemma_gcd_symmetric(r, s);
    // q divides p * s, and is coprime to p
    lemma_multiple_divisible(q, r);
    assert(r * q == q * r) by (nonlinear_arith);
    lemma_coprime_divides(q, p, s);
    // s divides r * q, and is coprime to r
    lemma_multiple_divisible(s, p);
    assert(p * s == s * p) by (nonlinear_arith);
    lemma_coprime_divides(s, r, q);
    lemma_multiple_iff(s, q);
    lemma_multiple_iff(q, s);
    assert(q == s) by (nonlinear_arith)
        requires
            s == q * (s / q),
            q == s * (q / s),
            q > 0,
            s > 0,
    ;
    assert(p == r) by (nonlinear_arith)
        requires
            p * s == r * q,
            q == s,
            s > 0,
    ;
}

} // verus!
