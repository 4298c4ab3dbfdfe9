//! Products and quotients of real numbers, kept behind two names so that
//! proofs meet nonlinear arithmetic only in the small lemmas of this module.

use vstd::prelude::*;

verus! {

/// The product `a · b`.
#[verifier::opaque]
pub open spec fn times(a: real, b: real) -> real {
    a * b
}

/// The quotient `a / b`.
#[verifier::opaque]
pub open spec fn over(a: real, b: real) -> real {
    a / b
}

/// The absolute value of a real number.
pub open spec fn abs_real(x: real) -> real {
    if x < 0 as real {
        -x
    } else {
        x
    }
}

/// The largest integer at or below the number.
#[verifier::opaque]
pub open spec fn whole_part(x: real) -> int {
    x.floor()
}

/// The number is an integer.
pub open spec fn is_whole(x: real) -> bool {
    whole_part(x) as real == x
}

/// An integer is whole.
pub proof fn lemma_whole(m: int)
    ensures
        is_whole(m as real),
        whole_part(m as real) == m,
{
    reveal(whole_part);
}

/// A product with a zero factor is zero.
pub proof fn lemma_times_zero(a: real, b: real)
    requires
        a == 0 as real || b == 0 as real,
    ensures
        times(a, b) == 0 as real,
{
    reveal(times);
    assert(a * b == 0 as real) by (nonlinear_arith)
        requires
            a == 0 as real || b == 0 as real,
    ;
}

/// One is neutral.
pub proof fn lemma_times_one(a: real)
    ensures
        times(a, 1 as real) == a,
        times(1 as real, a) == a,
{
    reveal(times);
    assert(a * (1 as real) == a && (1 as real) * a == a) by (nonlinear_arith);
}

/// A product with the factor minus one is the negation.
pub proof fn lemma_times_minus_one(a: real)
    ensures
        times(a, -1 as real) == -a,
{
    reveal(times);
    assert(a * (-1 as real) == -a) by (nonlinear_arith);
}

/// A product with an integer literal as a factor.
pub proof fn lemma_times_two(a: real)
    ensures
        times(a, 2 as real) == a + a,
{
    reveal(times);
    assert(a * (2 as real) == a + a) by (nonlinear_arith);
}

/// The product commutes.
pub proof fn lemma_times_commutes(a: real, b: real)
    ensures
        times(a, b) == times(b, a),
{
    reveal(times);
    assert(a * b == b * a) by (nonlinear_arith);
}

/// The product associates.
pub proof fn lemma_times_associates(a: real, b: real, c: real)
    ensures
        times(times(a, b), c) == times(a, times(b, c)),
{
    reveal(times);
    assert((a * b) * c == a * (b * c)) by (nonlinear_arith);
}

/// The product distributes over sums and differences.
pub proof fn lemma_times_distributes(a: real, b: real, c: real)
    ensures
        times(a, b + c) == times(a, b) + times(a, c),
        times(a, b - c) == times(a, b) - times(a, c),
        times(b + c, a) == times(b, a) + times(c, a),
        times(b - c, a) == times(b, a) - times(c, a),
{
    reveal(times);
    assert(a * (b + c) == a * b + a * c && a * (b - c) == a * b - a * c && (b + c) * a == b * a + c
        * a && (b - c) * a == b * a - c * a) by (nonlinear_arith);
}

/// A product with a negated factor is the negated product.
pub proof fn lemma_times_negates(a: real, b: real)
    ensures
        times(a, -b) == -times(a, b),
        times(-a, b) == -times(a, b),
{
    reveal(times);
    assert(a * (-b) == -(a * b) && (-a) * b == -(a * b)) by (nonlinear_arith);
}

/// A quotient by one is the dividend.
pub proof fn lemma_over_one(a: real)
    ensures
        over(a, 1 as real) == a,
{
    reveal(over);
    assert(a / (1 as real) == a) by (nonlinear_arith);
}

/// A quotient by two is the half.
pub proof fn lemma_over_two(a: real)
    ensures
        over(a, 2 as real) + over(a, 2 as real) == a,
        over(a, 2 as real) == a / (2 as real),
{
    reveal(over);
}

/// A quotient is zero exactly when the dividend is; a number over itself is
/// one.
pub proof fn lemma_over_basics(a: real, p: real)
    requires
        p != 0 as real,
    ensures
        (over(a, p) == 0 as real) == (a == 0 as real),
        over(p, p) == 1 as real,
{
    reveal(over);
    assert(((a / p == 0 as real) == (a == 0 as real)) && p / p == 1 as real) by (nonlinear_arith)
        requires
            p != 0 as real,
    ;
}

/// The quotient distributes over sums and differences of dividends.
pub proof fn lemma_over_distributes(a: real, b: real, p: real)
    requires
        p != 0 as real,
    ensures
        over(a + b, p) == over(a, p) + over(b, p),
        over(a - b, p) == over(a, p) - over(b, p),
{
    reveal(over);
    assert((a + b) / p == a / p + b / p && (a - b) / p == a / p - b / p) by (nonlinear_arith)
        requires
            p != 0 as real,
    ;
}

/// A quotient times a factor is the quotient of the product.
pub proof fn lemma_over_times(a: real, p: real, x: real)
    requires
        p != 0 as real,
    ensures
        times(over(a, p), x) == over(times(a, x), p),
{
    reveal(over);
    reveal(times);
    assert((a / p) * x == (a * x) / p) by (nonlinear_arith)
        requires
            p != 0 as real,
    ;
}

/// A product with the reciprocal is the quotient.
pub proof fn lemma_times_reciprocal(a: real, p: real)
    requires
        p != 0 as real,
    ensures
        times(a, over(1 as real, p)) == over(a, p),
{
    reveal(over);
    reveal(times);
    assert(a * ((1 as real) / p) == a / p) by (nonlinear_arith)
        requires
            p != 0 as real,
    ;
}

} // verus!
