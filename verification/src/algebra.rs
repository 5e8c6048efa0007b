//! The arithmetic of ratios in lowest terms obeys the laws of the rational
//! numbers.

use vstd::prelude::*;
use crate::arith::{coprime, gcd, lemma_gcd_quotients_coprime, lemma_lowest_terms_unique};
use crate::fraction::Ratio;
use crate::sign::Sign;

verus! {

/// The numerator of a ratio, counted below zero where the ratio is negative.
pub open spec fn signed_numerator(ratio: Ratio) -> int {
    if ratio.sign == Sign::Negative {
        -(ratio.numerator as int)
    } else {
        ratio.numerator as int
    }
}

/// A zero that carries the negative sign.
pub open spec fn is_negative_zero(ratio: Ratio) -> bool {
    ratio.sign == Sign::Negative && ratio.numerator == 0
}

/// A positive factor can be cancelled from both sides of an equation.
pub proof fn lemma_cancel(x: int, y: int, factor: int)
    requires
        factor > 0,
        x * factor == y * factor,
    ensures
        x == y,
{
    assert(x == y) by (nonlinear_arith)
        requires
            factor > 0,
            x * factor == y * factor,
    ;
}

/// Bringing `numerator / denominator` to lowest terms keeps its value and
/// leaves a reduced ratio, which is zero only where the numerator is.
pub proof fn lemma_lowest_terms(numerator: nat, denominator: nat, sign: Sign)
    requires
        denominator > 0,
    ensures
        Ratio::lowest_terms(numerator, denominator, sign).reduced(),
        Ratio::lowest_terms(numerator, denominator, sign).sign == sign,
        Ratio::lowest_terms(numerator, denominator, sign).numerator * denominator == numerator
            * Ratio::lowest_terms(numerator, denominator, sign).denominator,
        Ratio::lowest_terms(numerator, denominator, sign).numerator == 0 <==> numerator == 0,
        Ratio::lowest_terms(numerator, denominator, sign).numerator <= numerator,
        Ratio::lowest_terms(numerator, denominator, sign).denominator <= denominator,
{
    lemma_gcd_quotients_coprime(numerator, denominator);
    let g = gcd(numerator, denominator);
    let n = numerator / g;
    let d = denominator / g;
    assert(n <= numerator && d <= denominator) by (nonlinear_arith)
        requires
            numerator == g * n,
            denominator == g * d,
            g > 0,
    ;
    assert(d > 0) by (nonlinear_arith)
        requires
            denominator == g * d,
            denominator > 0,
    ;
    assert(n * denominator == numerator * d) by (nonlinear_arith)
        requires
            numerator == g * n,
            denominator == g * d,
    ;
    assert(n == 0 <==> numerator == 0) by (nonlinear_arith)
        requires
            numerator == g * n,
            g > 0,
    ;
}

/// A reduced ratio is its own lowest terms.
pub proof fn lemma_lowest_terms_of_reduced(ratio: Ratio)
    requires
        ratio.reduced(),
    ensures
        Ratio::lowest_terms(ratio.numerator, ratio.denominator, ratio.sign) == ratio,
{
    assert(ratio.numerator / 1 == ratio.numerator);
    assert(ratio.denominator / 1 == ratio.denominator);
}

/// Two quotients of the same value have the same lowest terms.
pub proof fn lemma_lowest_terms_equal(n1: nat, d1: nat, n2: nat, d2: nat, sign: Sign)
    requires
        d1 > 0,
        d2 > 0,
        n1 * d2 == n2 * d1,
    ensures
        Ratio::lowest_terms(n1, d1, sign) == Ratio::lowest_terms(n2, d2, sign),
{
    let r1 = Ratio::lowest_terms(n1, d1, sign);
    let r2 = Ratio::lowest_terms(n2, d2, sign);
    lemma_lowest_terms(n1, d1, sign);
    lemma_lowest_terms(n2, d2, sign);
    let (p, q, r, s) = (r1.numerator as int, r1.denominator as int, r2.numerator as int, r2.denominator as int);
    assert((p * s) * (d1 * d2) == (r * q) * (d1 * d2)) by (nonlinear_arith)
        requires
            p * d1 == n1 * q,
            r * d2 == n2 * s,
            n1 * d2 == n2 * d1,
    ;
    assert(d1 * d2 > 0) by (nonlinear_arith)
        requires
            d1 > 0,
            d2 > 0,
    ;
    lemma_cancel(p * s, r * q, (d1 * d2) as int);
    lemma_lowest_terms_unique(r1.numerator, r1.denominator, r2.numerator, r2.denominator);
}

/// Multiplying numerator and denominator of a fraction in lowest terms by the
/// same positive number, and reducing again, gives the fraction back.
pub proof fn lemma_lowest_terms_of_multiple(p: nat, q: nat, k: nat, sign: Sign)
    requires
        q > 0,
        coprime(p, q),
        k >= 1,
    ensures
        Ratio::lowest_terms(k * p, k * q, sign) == (Ratio { sign, numerator: p, denominator: q }),
{
    let ratio = Ratio { sign, numerator: p, denominator: q };
    lemma_lowest_terms_of_reduced(ratio);
    assert(k * q > 0) by (nonlinear_arith)
        requires
            k >= 1,
            q > 0,
    ;
    assert((k * p) * q == p * (k * q)) by (nonlinear_arith);
    lemma_lowest_terms_equal(k * p, k * q, p, q, sign);
}

/// Multiplication of ratios is commutative.
pub proof fn lemma_product_commutative(a: Ratio, b: Ratio)
    ensures
        a.product(b) == b.product(a),
{
    assert(a.numerator * b.numerator == b.numerator * a.numerator) by (nonlinear_arith);
    assert(a.denominator * b.denominator == b.denominator * a.denominator) by (nonlinear_arith);
}

/// Multiplication of reduced ratios is associative.
pub proof fn lemma_product_associative(a: Ratio, b: Ratio, c: Ratio)
    requires
        a.reduced(),
        b.reduced(),
        c.reduced(),
    ensures
        a.product(b).product(c) == a.product(b.product(c)),
{
    let ab = a.product(b);
    let bc = b.product(c);
    let (an, ad) = (a.numerator as int, a.denominator as int);
    let (bn, bd) = (b.numerator as int, b.denominator as int);
    let (cn, cd) = (c.numerator as int, c.denominator as int);
    assert(ad * bd > 0 && bd * cd > 0) by (nonlinear_arith)
        requires
            ad > 0,
            bd > 0,
            cd > 0,
    ;
    lemma_lowest_terms(a.numerator * b.numerator, a.denominator * b.denominator, ab.sign);
    lemma_lowest_terms(b.numerator * c.numerator, b.denominator * c.denominator, bc.sign);
    let (x, y) = (ab.numerator as int, ab.denominator as int);
    let (u, v) = (bc.numerator as int, bc.denominator as int);
    assert(y * cd > 0 && ad * v > 0) by (nonlinear_arith)
        requires
            y > 0,
            cd > 0,
            ad > 0,
            v > 0,
    ;
    assert(((x * cn) * (ad * v)) * bd == ((an * u) * (y * cd)) * bd) by {
        assert(((x * cn) * (ad * v)) * bd == (x * (ad * bd)) * (cn * v)) by (nonlinear_arith);
        assert((x * (ad * bd)) * (cn * v) == ((an * bn) * y) * (cn * v));
        assert(((an * bn) * y) * (cn * v) == (an * y) * ((bn * cn) * v)) by (nonlinear_arith);
        assert((an * y) * ((bn * cn) * v) == (an * y) * (u * (bd * cd)));
        assert((an * y) * (u * (bd * cd)) == ((an * u) * (y * cd)) * bd) by (nonlinear_arith);
    }
    lemma_cancel((x * cn) * (ad * v), (an * u) * (y * cd), bd);
    let sign = a.sign.times(b.sign).times(c.sign);
    assert(sign == a.sign.times(b.sign.times(c.sign)));
    lemma_lowest_terms_equal(
        ab.numerator * c.numerator,
        ab.denominator * c.denominator,
        a.numerator * bc.numerator,
        a.denominator * bc.denominator,
        sign,
    );
}

/// Dividing by a ratio and multiplying by it again gives the dividend back.
pub proof fn lemma_quotient_product(a: Ratio, b: Ratio)
    requires
        a.reduced(),
        b.reduced(),
        b.numerator != 0,
    ensures
        a.quotient(b).product(b) == a,
{
    let q = a.quotient(b);
    let (an, ad) = (a.numerator as int, a.denominator as int);
    let (bn, bd) = (b.numerator as int, b.denominator as int);
    assert(ad * bn > 0) by (nonlinear_arith)
        requires
            ad > 0,
            bn > 0,
    ;
    lemma_lowest_terms(a.numerator * b.denominator, a.denominator * b.numerator, q.sign);
    let (x, y) = (q.numerator as int, q.denominator as int);
    assert(y * bd > 0) by (nonlinear_arith)
        requires
            y > 0,
            bd > 0,
    ;
    assert(((x * bn) * ad) * bd == (an * (y * bd)) * bd) by (nonlinear_arith)
        requires
            x * (ad * bn) == (an * bd) * y,
    ;
    lemma_cancel((x * bn) * ad, an * (y * bd), bd);
    let sign = a.sign.times(b.sign).times(b.sign);
    assert(sign == a.sign);
    lemma_lowest_terms_equal(
        q.numerator * b.numerator,
        q.denominator * b.denominator,
        a.numerator,
        a.denominator,
        sign,
    );
    lemma_lowest_terms_of_reduced(a);
}

/// Two quotients have the same lowest terms exactly where they have the
/// same value.
pub proof fn lemma_lowest_terms_equal_iff(n1: nat, d1: nat, n2: nat, d2: nat, sign: Sign)
    requires
        d1 > 0,
        d2 > 0,
    ensures
        Ratio::lowest_terms(n1, d1, sign) == Ratio::lowest_terms(n2, d2, sign) <==> n1 * d2 == n2
            * d1,
{
    if n1 * d2 == n2 * d1 {
        lemma_lowest_terms_equal(n1, d1, n2, d2, sign);
    }
    if Ratio::lowest_terms(n1, d1, sign) == Ratio::lowest_terms(n2, d2, sign) {
        let r = Ratio::lowest_terms(n1, d1, sign);
        lemma_lowest_terms(n1, d1, sign);
        lemma_lowest_terms(n2, d2, sign);
        let (n, d) = (r.numerator as int, r.denominator as int);
        assert((n1 * d2) * d == (n2 * d1) * d) by {
            assert((n1 * d2) * d == (n1 * d) * d2) by (nonlinear_arith);
            assert((n1 * d) * d2 == (n * d1) * d2);
            assert((n * d1) * d2 == (n * d2) * d1) by (nonlinear_arith);
            assert((n * d2) * d1 == (n2 * d) * d1);
            assert((n2 * d) * d1 == (n2 * d1) * d) by (nonlinear_arith);
        }
        lemma_cancel((n1 * d2) as int, (n2 * d1) as int, d);
    }
}

/// Division of ratios is not commutative: the two quotients of two ratios
/// other than zero agree exactly where the ratios have the same magnitude.
pub proof fn lemma_quotient_commutative(a: Ratio, b: Ratio)
    requires
        a.reduced(),
        b.reduced(),
        a.numerator != 0,
        b.numerator != 0,
    ensures
        a.quotient(b) == b.quotient(a) <==> a.numerator == b.numerator && a.denominator
            == b.denominator,
{
    let x = a.numerator * b.denominator;
    let y = a.denominator * b.numerator;
    let sign = a.sign.times(b.sign);
    assert(sign == b.sign.times(a.sign));
    assert(b.numerator * a.denominator == y) by (nonlinear_arith)
        requires
            y == a.denominator * b.numerator,
    ;
    assert(b.denominator * a.numerator == x) by (nonlinear_arith)
        requires
            x == a.numerator * b.denominator,
    ;
    assert(x > 0 && y > 0) by (nonlinear_arith)
        requires
            x == a.numerator * b.denominator,
            y == a.denominator * b.numerator,
            a.numerator > 0,
            b.numerator > 0,
            a.denominator > 0,
            b.denominator > 0,
    ;
    lemma_lowest_terms_equal_iff(x, y, y, x, sign);
    assert(x * x == y * y <==> x == y) by (nonlinear_arith)
        requires
            x > 0,
            y > 0,
    ;
    if x == y {
        lemma_lowest_terms_unique(a.numerator, a.denominator, b.numerator, b.denominator);
    }
}

/// Division of ratios is not associative: the two groupings of `a / b / c`
/// agree exactly where `a` is zero or the magnitude of `c` is one.
pub proof fn lemma_quotient_associative(a: Ratio, b: Ratio, c: Ratio)
    requires
        a.reduced(),
        b.reduced(),
        c.reduced(),
        b.numerator != 0,
        c.numerator != 0,
    ensures
        a.quotient(b).quotient(c) == a.quotient(b.quotient(c)) <==> a.numerator == 0 || (
        c.numerator == 1 && c.denominator == 1),
{
    let (an, ad) = (a.numerator, a.denominator);
    let (bn, bd) = (b.numerator, b.denominator);
    let (cn, cd) = (c.numerator, c.denominator);
    let q = a.quotient(b);
    let t = b.quotient(c);
    let sign = a.sign.times(b.sign).times(c.sign);
    assert(sign == a.sign.times(b.sign.times(c.sign)));
    assert(ad * bn > 0 && bd * cn > 0) by (nonlinear_arith)
        requires
            ad > 0,
            bn > 0,
            bd > 0,
            cn > 0,
    ;
    lemma_lowest_terms(an * bd, ad * bn, q.sign);
    lemma_lowest_terms(bn * cd, bd * cn, t.sign);
    assert(bn * cd > 0) by (nonlinear_arith)
        requires
            bn > 0,
            cd > 0,
    ;
    let (qn, qd) = (q.numerator, q.denominator);
    let (tn, td) = (t.numerator, t.denominator);
    // the value of either grouping over the three operands
    let k = (ad * bn) * bd;
    let left_n = (an * bd) * cd;
    let left_d = (ad * bn) * cn;
    let right_n = (an * bd) * cn;
    let right_d = (ad * bn) * cd;
    assert(k > 0 && left_d > 0 && right_d > 0 && qd * cn > 0 && ad * tn > 0) by (nonlinear_arith)
        requires
            k == (ad * bn) * bd,
            left_d == (ad * bn) * cn,
            right_d == (ad * bn) * cd,
            ad * bn > 0,
            bd > 0,
            cn > 0,
            cd > 0,
            qd > 0,
            ad > 0,
            tn > 0,
    ;
    assert((qn * cd) * left_d == left_n * (qd * cn)) by {
        assert((qn * cd) * ((ad * bn) * cn) == (qn * (ad * bn)) * (cd * cn)) by (nonlinear_arith);
        assert((qn * (ad * bn)) * (cd * cn) == ((an * bd) * qd) * (cd * cn));
        assert(((an * bd) * qd) * (cd * cn) == ((an * bd) * cd) * (qd * cn)) by (nonlinear_arith);
    }
    lemma_lowest_terms_equal(qn * cd, qd * cn, left_n, left_d, sign);
    assert((an * td) * right_d == right_n * (ad * tn)) by {
        assert((an * td) * ((ad * bn) * cd) == ((bn * cd) * td) * (an * ad)) by (nonlinear_arith);
        assert(((bn * cd) * td) * (an * ad) == (tn * (bd * cn)) * (an * ad));
        assert((tn * (bd * cn)) * (an * ad) == ((an * bd) * cn) * (ad * tn)) by (nonlinear_arith);
    }
    lemma_lowest_terms_equal(an * td, ad * tn, right_n, right_d, sign);
    lemma_lowest_terms_equal_iff(left_n, left_d, right_n, right_d, sign);
    // the two values agree where `a` is zero or `c * c` is one
    let m = an * k;
    assert(left_n * right_d == (m * cd) * cd) by (nonlinear_arith)
        requires
            left_n == (an * bd) * cd,
            right_d == (ad * bn) * cd,
            m == an * ((ad * bn) * bd),
    ;
    assert(right_n * left_d == (m * cn) * cn) by (nonlinear_arith)
        requires
            right_n == (an * bd) * cn,
            left_d == (ad * bn) * cn,
            m == an * ((ad * bn) * bd),
    ;
    assert(m == 0 <==> an == 0) by (nonlinear_arith)
        requires
            m == an * k,
            k > 0,
    ;
    assert((m * cd) * cd == (m * cn) * cn <==> m == 0 || cn == cd) by (nonlinear_arith)
        requires
            cn > 0,
            cd > 0,
            m >= 0,
    ;
    if cn == cd {
        assert(gcd(cn, cn) == cn) by {
            assert(cn % cn == 0) by (nonlinear_arith)
                requires
                    cn > 0,
            ;
            assert(gcd(cn, 0) == cn);
        }
    }
}

/// Addition of ratios is commutative.
pub proof fn lemma_sum_commutative(a: Ratio, b: Ratio)
    ensures
        a.sum(b) == b.sum(a),
{
    assert(a.denominator * b.denominator == b.denominator * a.denominator) by (nonlinear_arith);
}

/// The sum of two reduced ratios is reduced and has the value of
/// `a / b + c / d = (a * d + c * b) / (b * d)`. It is a negative zero only
/// where both operands are.
pub proof fn lemma_sum_value(a: Ratio, b: Ratio)
    requires
        a.reduced(),
        b.reduced(),
    ensures
        a.sum(b).reduced(),
        signed_numerator(a.sum(b)) * (a.denominator * b.denominator) == (signed_numerator(a)
            * b.denominator + signed_numerator(b) * a.denominator) * a.sum(b).denominator,
        is_negative_zero(a.sum(b)) <==> is_negative_zero(a) && is_negative_zero(b),
{
    let left = a.numerator * b.denominator;
    let right = b.numerator * a.denominator;
    let denominator = a.denominator * b.denominator;
    let sum = a.sum(b);
    assert(denominator > 0) by (nonlinear_arith)
        requires
            denominator == a.denominator * b.denominator,
            a.denominator > 0,
            b.denominator > 0,
    ;
    assert(left == 0 <==> a.numerator == 0) by (nonlinear_arith)
        requires
            left == a.numerator * b.denominator,
            b.denominator > 0,
    ;
    assert(right == 0 <==> b.numerator == 0) by (nonlinear_arith)
        requires
            right == b.numerator * a.denominator,
            a.denominator > 0,
    ;
    let magnitude: nat = if a.sign == b.sign {
        left + right
    } else if left > right {
        (left - right) as nat
    } else {
        (right - left) as nat
    };
    lemma_lowest_terms(magnitude, denominator, sum.sign);
    assert(sum == Ratio::lowest_terms(magnitude, denominator, sum.sign));
    let n = sum.numerator as int;
    let d = sum.denominator as int;
    let total = signed_numerator(a) * b.denominator + signed_numerator(b) * a.denominator;
    assert((-(a.numerator as int)) * b.denominator == -(left as int)) by (nonlinear_arith)
        requires
            left == a.numerator * b.denominator,
    ;
    assert((-(b.numerator as int)) * a.denominator == -(right as int)) by (nonlinear_arith)
        requires
            right == b.numerator * a.denominator,
    ;
    if signed_numerator(sum) == n {
        assert(total == magnitude);
    } else {
        assert(total == -(magnitude as int));
        assert((-n) * denominator == (-(magnitude as int)) * d) by (nonlinear_arith)
            requires
                n * denominator == magnitude * d,
        ;
    }
}

/// A reduced ratio is known by its value and by whether it is a negative
/// zero.
pub proof fn lemma_ratio_determined(x: Ratio, y: Ratio)
    requires
        x.reduced(),
        y.reduced(),
        signed_numerator(x) * y.denominator == signed_numerator(y) * x.denominator,
        is_negative_zero(x) <==> is_negative_zero(y),
    ensures
        x == y,
{
    let (sx, sy) = (signed_numerator(x), signed_numerator(y));
    let (xd, yd) = (x.denominator as int, y.denominator as int);
    assert(sx > 0 <==> sy > 0) by (nonlinear_arith)
        requires
            sx * yd == sy * xd,
            xd > 0,
            yd > 0,
    ;
    assert(sx < 0 <==> sy < 0) by (nonlinear_arith)
        requires
            sx * yd == sy * xd,
            xd > 0,
            yd > 0,
    ;
    assert(x.sign == y.sign);
    assert(x.numerator * y.denominator == y.numerator * x.denominator) by (nonlinear_arith)
        requires
            sx * yd == sy * xd,
            sx == x.numerator && sy == y.numerator || sx == -x.numerator && sy == -y.numerator,
            xd == x.denominator,
            yd == y.denominator,
    ;
    lemma_lowest_terms_unique(x.numerator, x.denominator, y.numerator, y.denominator);
}

/// A factor common to both summands can be moved to the end of a product.
proof fn lemma_regroup(p: int, q: int, i: int, zd: int, z: int, w: int, o: int)
    ensures
        (((p + q) * i) * zd + (z * i) * w) * o == ((p * zd + q * zd + z * w) * o) * i,
{
    let u = (p + q) * zd;
    let v = z * w;
    lemma_swap_factors(p + q, i, zd);
    lemma_swap_factors(z, i, w);
    lemma_common_factor(u, v, i);
    lemma_swap_factors(u + v, i, o);
    lemma_common_factor(p, q, zd);
}

/// The last two factors of a product of three can change places.
proof fn lemma_swap_factors(a: int, b: int, c: int)
    by (nonlinear_arith)
    ensures
        (a * b) * c == (a * c) * b,
{
}

/// A factor common to two summands can be taken out.
proof fn lemma_common_factor(a: int, b: int, c: int)
    by (nonlinear_arith)
    ensures
        a * c + b * c == (a + b) * c,
{
}

/// The value of a sum of three: where `inner` has the value of
/// `x / xd + y / yd` and `outer` that of `inner + z / zd`, `outer` has the
/// value of the three brought over the product of their denominators.
proof fn lemma_nested_sum_value(
    inner: int,
    inner_d: int,
    outer: int,
    outer_d: int,
    x: int,
    xd: int,
    y: int,
    yd: int,
    z: int,
    zd: int,
)
    requires
        inner_d > 0,
        inner * (xd * yd) == (x * yd + y * xd) * inner_d,
        outer * (inner_d * zd) == (inner * zd + z * inner_d) * outer_d,
    ensures
        outer * ((xd * yd) * zd) == ((x * yd) * zd + (y * xd) * zd + (z * xd) * yd) * outer_d,
{
    let target = ((x * yd) * zd + (y * xd) * zd + (z * xd) * yd) * outer_d;
    assert((outer * ((xd * yd) * zd)) * inner_d == target * inner_d) by {
        assert((outer * ((xd * yd) * zd)) * inner_d == (outer * (inner_d * zd)) * (xd * yd))
            by (nonlinear_arith);
        assert((outer * (inner_d * zd)) * (xd * yd) == ((inner * zd + z * inner_d) * outer_d) * (xd
            * yd));
        assert(((inner * zd + z * inner_d) * outer_d) * (xd * yd) == ((inner * (xd * yd)) * zd + (z
            * inner_d) * (xd * yd)) * outer_d) by (nonlinear_arith);
        assert(((inner * (xd * yd)) * zd + (z * inner_d) * (xd * yd)) * outer_d == (((x * yd + y
            * xd) * inner_d) * zd + (z * inner_d) * (xd * yd)) * outer_d);
        lemma_regroup(x * yd, y * xd, inner_d, zd, z, xd * yd, outer_d);
        assert((z * xd) * yd == z * (xd * yd)) by (nonlinear_arith);
    }
    lemma_cancel(outer * ((xd * yd) * zd), target, inner_d);
}

/// Addition of reduced ratios is associative.
pub proof fn lemma_sum_associative(a: Ratio, b: Ratio, c: Ratio)
    requires
        a.reduced(),
        b.reduced(),
        c.reduced(),
    ensures
        a.sum(b).sum(c) == a.sum(b.sum(c)),
{
    let ab = a.sum(b);
    let bc = b.sum(c);
    let l = ab.sum(c);
    let r = a.sum(bc);
    lemma_sum_value(a, b);
    lemma_sum_value(b, c);
    lemma_sum_value(ab, c);
    lemma_sum_commutative(a, bc);
    lemma_sum_value(bc, a);
    let (sa, sb, sc) = (signed_numerator(a), signed_numerator(b), signed_numerator(c));
    let (ad, bd, cd) = (a.denominator as int, b.denominator as int, c.denominator as int);
    let (sl, sr) = (signed_numerator(l), signed_numerator(r));
    let (ld, rd) = (l.denominator as int, r.denominator as int);
    lemma_nested_sum_value(
        signed_numerator(ab),
        ab.denominator as int,
        sl,
        ld,
        sa,
        ad,
        sb,
        bd,
        sc,
        cd,
    );
    lemma_nested_sum_value(
        signed_numerator(bc),
        bc.denominator as int,
        sr,
        rd,
        sb,
        bd,
        sc,
        cd,
        sa,
        ad,
    );
    let all = (ad * bd) * cd;
    let total = (sa * bd) * cd + (sb * ad) * cd + (sc * ad) * bd;
    assert((bd * cd) * ad == all) by (nonlinear_arith)
        requires
            all == (ad * bd) * cd,
    ;
    assert((sb * cd) * ad + (sc * bd) * ad + (sa * bd) * cd == total) by (nonlinear_arith)
        requires
            total == (sa * bd) * cd + (sb * ad) * cd + (sc * ad) * bd,
    ;
    assert(sl * all == total * ld);
    assert(sr * all == total * rd);
    assert(all > 0) by (nonlinear_arith)
        requires
            all == (ad * bd) * cd,
            ad > 0,
            bd > 0,
            cd > 0,
    ;
    assert((sl * rd) * all == (sr * ld) * all) by {
        assert((sl * rd) * all == (sl * all) * rd) by (nonlinear_arith);
        assert((sl * all) * rd == (total * ld) * rd);
        assert((total * ld) * rd == (total * rd) * ld) by (nonlinear_arith);
        assert((total * rd) * ld == (sr * all) * ld);
        assert((sr * all) * ld == (sr * ld) * all) by (nonlinear_arith);
    }
    lemma_cancel(sl * rd, sr * ld, all);
    lemma_ratio_determined(l, r);
}

} // verus!
