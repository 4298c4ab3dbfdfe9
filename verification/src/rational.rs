//! Exact rational numbers in lowest terms.
//!
//! A [`Rational`] keeps a numerator and a positive denominator without a
//! common factor. The arithmetic itself is done by `num`'s `Ratio<i32>`; the
//! calls are the private `call_*` functions below, whose contracts are
//! believed rather than proved. Every other function in this module is
//! verified against those contracts.

use num::rational::Ratio;
use num::traits::{CheckedAdd, CheckedDiv, CheckedMul, CheckedSub, Signed};
use vstd::arithmetic::div_mod::{lemma_fundamental_div_mod, lemma_mod_multiples_basic};
use crate::reals::{abs_real, over, times};
use crate::text::ratio_text;
use vstd::prelude::*;

verus! {

/// Two integers are coprime when no integer above one divides both.
pub open spec fn coprime(a: int, b: int) -> bool {
    forall|k: int| k > 1 ==> !(#[trigger] (a % k) == 0 && b % k == 0)
}

/// `n / d` is a fraction in lowest terms with a positive denominator.
pub open spec fn is_reduced(n: int, d: int) -> bool {
    d > 0 && coprime(n, d)
}

/// `n / d` equals `an / ad + bn / bd`, stated without division.
pub open spec fn is_sum(an: int, ad: int, bn: int, bd: int, n: int, d: int) -> bool {
    n * (ad * bd) == d * (an * bd + bn * ad)
}

/// `n / d` equals `an / ad - bn / bd`, stated without division.
pub open spec fn is_difference(an: int, ad: int, bn: int, bd: int, n: int, d: int) -> bool {
    n * (ad * bd) == d * (an * bd - bn * ad)
}

/// `n / d` equals `(an / ad) * (bn / bd)`, stated without division.
pub open spec fn is_product(an: int, ad: int, bn: int, bd: int, n: int, d: int) -> bool {
    n * (ad * bd) == d * (an * bn)
}

/// `n / d` equals `(an / ad) / (bn / bd)`, stated without division.
pub open spec fn is_quotient(an: int, ad: int, bn: int, bd: int, n: int, d: int) -> bool {
    bn != 0 && n * (ad * bn) == d * (an * bd)
}

/// What `num` returns for the checked sum of `an/ad` and `bn/bd`.
pub uninterp spec fn ratio_checked_add(an: i32, ad: i32, bn: i32, bd: i32) -> Option<(i32, i32)>;

/// What `num` returns for the checked difference of `an/ad` and `bn/bd`.
pub uninterp spec fn ratio_checked_sub(an: i32, ad: i32, bn: i32, bd: i32) -> Option<(i32, i32)>;

/// What `num` returns for the checked product of `an/ad` and `bn/bd`.
pub uninterp spec fn ratio_checked_mul(an: i32, ad: i32, bn: i32, bd: i32) -> Option<(i32, i32)>;

/// What `num` returns for the checked quotient of `an/ad` by `bn/bd`.
pub uninterp spec fn ratio_checked_div(an: i32, ad: i32, bn: i32, bd: i32) -> Option<(i32, i32)>;

/// Calls `Ratio::<i32>::new`, which reduces `n / d` to lowest terms.
///
/// Claimed of it: the result has the same value as `n / d`, a positive
/// denominator, no common factor, and a numerator above `i32::MIN`. The
/// excluded inputs are those on which the reduction divides by zero or
/// negates `i32::MIN`.
#[verifier::external_body]
fn call_new(n: i32, d: i32) -> (r: (i32, i32))
    requires
        d != 0,
        n > i32::MIN,
        d > i32::MIN,
    ensures
        is_reduced(r.0 as int, r.1 as int),
        r.0 * d == n * r.1,
        r.0 > i32::MIN,
{
    let q = Ratio::new(n, d);
    (*q.numer(), *q.denom())
}

/// Calls `CheckedAdd::checked_add` of `Ratio<i32>`.
///
/// Claimed of it: the result is a function of the four integers alone, and
/// when present it is the exact sum in lowest terms. The operands admitted
/// have positive denominators and numerators above `i32::MIN`, so that no
/// step inside `num` negates `i32::MIN`.
#[verifier::external_body]
fn call_checked_add(an: i32, ad: i32, bn: i32, bd: i32) -> (r: Option<(i32, i32)>)
    requires
        ad > 0,
        bd > 0,
        an > i32::MIN,
        bn > i32::MIN,
    ensures
        r == ratio_checked_add(an, ad, bn, bd),
        r matches Some(p) ==> is_reduced(p.0 as int, p.1 as int) && is_sum(
            an as int,
            ad as int,
            bn as int,
            bd as int,
            p.0 as int,
            p.1 as int,
        ),
{
    let q = Ratio::new_raw(an, ad).checked_add(&Ratio::new_raw(bn, bd))?;
    Some((*q.numer(), *q.denom()))
}

/// Calls `CheckedSub::checked_sub` of `Ratio<i32>`.
///
/// Claimed of it: the result is a function of the four integers alone, and
/// when present it is the exact difference in lowest terms. The operands
/// admitted are those of [`call_checked_add`].
#[verifier::external_body]
fn call_checked_sub(an: i32, ad: i32, bn: i32, bd: i32) -> (r: Option<(i32, i32)>)
    requires
        ad > 0,
        bd > 0,
        an > i32::MIN,
        bn > i32::MIN,
    ensures
        r == ratio_checked_sub(an, ad, bn, bd),
        r matches Some(p) ==> is_reduced(p.0 as int, p.1 as int) && is_difference(
            an as int,
            ad as int,
            bn as int,
            bd as int,
            p.0 as int,
            p.1 as int,
        ),
{
    let q = Ratio::new_raw(an, ad).checked_sub(&Ratio::new_raw(bn, bd))?;
    Some((*q.numer(), *q.denom()))
}

/// Calls `CheckedMul::checked_mul` of `Ratio<i32>`.
///
/// Claimed of it: the result is a function of the four integers alone, and
/// when present it is the exact product in lowest terms. The operands
/// admitted are those of [`call_checked_add`].
#[verifier::external_body]
fn call_checked_mul(an: i32, ad: i32, bn: i32, bd: i32) -> (r: Option<(i32, i32)>)
    requires
        ad > 0,
        bd > 0,
        an > i32::MIN,
        bn > i32::MIN,
    ensures
        r == ratio_checked_mul(an, ad, bn, bd),
        r matches Some(p) ==> is_reduced(p.0 as int, p.1 as int) && is_product(
            an as int,
            ad as int,
            bn as int,
            bd as int,
            p.0 as int,
            p.1 as int,
        ),
{
    let q = Ratio::new_raw(an, ad).checked_mul(&Ratio::new_raw(bn, bd))?;
    Some((*q.numer(), *q.denom()))
}

/// Calls `CheckedDiv::checked_div` of `Ratio<i32>`.
///
/// Claimed of it: the result is a function of the four integers alone; it is
/// absent when the divisor is zero, and when present it is the exact quotient
/// in lowest terms. The operands admitted are those of
/// [`call_checked_add`].
#[verifier::external_body]
fn call_checked_div(an: i32, ad: i32, bn: i32, bd: i32) -> (r: Option<(i32, i32)>)
    requires
        ad > 0,
        bd > 0,
        an > i32::MIN,
        bn > i32::MIN,
    ensures
        r == ratio_checked_div(an, ad, bn, bd),
        r matches Some(p) ==> is_reduced(p.0 as int, p.1 as int) && is_quotient(
            an as int,
            ad as int,
            bn as int,
            bd as int,
            p.0 as int,
            p.1 as int,
        ),
{
    let q = Ratio::new_raw(an, ad).checked_div(&Ratio::new_raw(bn, bd))?;
    Some((*q.numer(), *q.denom()))
}

/// Calls `Neg::neg` of `Ratio<i32>`, which negates the numerator; a
/// numerator of `i32::MIN` has no negation and is not admitted.
#[verifier::external_body]
fn call_neg(n: i32, d: i32) -> (r: (i32, i32))
    requires
        n > i32::MIN,
    ensures
        r.0 == -n,
        r.1 == d,
{
    let q = -Ratio::new_raw(n, d);
    (*q.numer(), *q.denom())
}

/// Calls `Signed::abs` of `Ratio<i32>`, which negates a negative value and
/// returns any other as it is. With a positive denominator the value is
/// negative exactly when the numerator is.
#[verifier::external_body]
fn call_abs(n: i32, d: i32) -> (r: (i32, i32))
    requires
        n > i32::MIN,
        d > 0,
    ensures
        r.0 == if n < 0 { -n } else { n as int },
        r.1 == d,
{
    let q = Ratio::new_raw(n, d).abs();
    (*q.numer(), *q.denom())
}

/// Calls `PartialEq::eq` of `Ratio<i32>`, which compares the two values as
/// numbers; for positive denominators that is the comparison of the cross
/// products.
#[verifier::external_body]
fn call_eq(an: i32, ad: i32, bn: i32, bd: i32) -> (r: bool)
    requires
        ad > 0,
        bd > 0,
    ensures
        r == (an * bd == bn * ad),
{
    Ratio::new_raw(an, ad) == Ratio::new_raw(bn, bd)
}

/// Calls `PartialOrd::lt` of `Ratio<i32>`, which orders the two values as
/// numbers; for positive denominators that is the order of the cross
/// products.
#[verifier::external_body]
fn call_lt(an: i32, ad: i32, bn: i32, bd: i32) -> (r: bool)
    requires
        ad > 0,
        bd > 0,
    ensures
        r == (an * bd < bn * ad),
{
    Ratio::new_raw(an, ad) < Ratio::new_raw(bn, bd)
}

/// Calls `Display` of `Ratio<i32>` through `format!`.
///
/// Claimed of it: for a positive denominator the text is the numerator in
/// decimal notation, followed by `/` and the denominator unless that is one.
#[verifier::external_body]
fn call_to_string(n: i32, d: i32) -> (r: String)
    requires
        d > 0,
    ensures
        r@ == ratio_text(n as int, d as int),
{
    format!("{}", Ratio::new_raw(n, d))
}

/// A rational number `numer / denom` in lowest terms, with a positive
/// denominator and a numerator whose magnitude is at most `i32::MAX`.
#[derive(Clone, Copy, Debug, PartialEq, Eq)]
pub struct Rational {
    numer: i32,
    denom: i32,
}

impl Rational {
    /// The invariant of every value of the type.
    #[verifier::type_invariant]
    pub open spec fn wf(self) -> bool {
        &&& i32::MIN < self.spec_numer() <= i32::MAX
        &&& self.spec_denom() <= i32::MAX
        &&& is_reduced(self.spec_numer(), self.spec_denom())
    }

    /// The numerator.
    pub closed spec fn spec_numer(self) -> int {
        self.numer as int
    }

    /// The denominator.
    pub closed spec fn spec_denom(self) -> int {
        self.denom as int
    }

    /// The number that the value stands for: the numerator over the
    /// denominator.
    pub closed spec fn value(self) -> real {
        over(self.numer as real, self.denom as real)
    }

    /// The fraction `numer / denom` in lowest terms.
    pub closed spec fn spec_new(numer: i32, denom: i32) -> Rational {
        choose|r: Rational| r.wf() && r.value() == over(numer as real, denom as real)
    }

    /// The rational that stands for the integer `t`.
    pub closed spec fn spec_from_integer(t: i32) -> Rational {
        Rational { numer: t, denom: 1 }
    }

    /// The negated value.
    pub closed spec fn spec_neg(self) -> Rational {
        Rational { numer: (-self.numer) as i32, denom: self.denom }
    }

    /// The absolute value.
    pub closed spec fn spec_abs(self) -> Rational {
        if self.numer < 0 {
            self.spec_neg()
        } else {
            self
        }
    }

    /// The checked sum: the exact sum in lowest terms where `num` produces
    /// one whose numerator is above `i32::MIN`, and `None` otherwise.
    pub closed spec fn spec_checked_add(self, rhs: Rational) -> Option<Rational> {
        match ratio_checked_add(self.numer, self.denom, rhs.numer, rhs.denom) {
            Some(p) => if p.0 > i32::MIN && is_reduced(p.0 as int, p.1 as int) && is_sum(
                self.numer as int,
                self.denom as int,
                rhs.numer as int,
                rhs.denom as int,
                p.0 as int,
                p.1 as int,
            ) {
                Some(Rational { numer: p.0, denom: p.1 })
            } else {
                None
            },
            None => None,
        }
    }

    /// The checked difference, as [`Rational::spec_checked_add`] for the sum.
    pub closed spec fn spec_checked_sub(self, rhs: Rational) -> Option<Rational> {
        match ratio_checked_sub(self.numer, self.denom, rhs.numer, rhs.denom) {
            Some(p) => if p.0 > i32::MIN && is_reduced(p.0 as int, p.1 as int) && is_difference(
                self.numer as int,
                self.denom as int,
                rhs.numer as int,
                rhs.denom as int,
                p.0 as int,
                p.1 as int,
            ) {
                Some(Rational { numer: p.0, denom: p.1 })
            } else {
                None
            },
            None => None,
        }
    }

    /// The checked product, as [`Rational::spec_checked_add`] for the sum.
    pub closed spec fn spec_checked_mul(self, rhs: Rational) -> Option<Rational> {
        match ratio_checked_mul(self.numer, self.denom, rhs.numer, rhs.denom) {
            Some(p) => if p.0 > i32::MIN && is_reduced(p.0 as int, p.1 as int) && is_product(
                self.numer as int,
                self.denom as int,
                rhs.numer as int,
                rhs.denom as int,
                p.0 as int,
                p.1 as int,
            ) {
                Some(Rational { numer: p.0, denom: p.1 })
            } else {
                None
            },
            None => None,
        }
    }

    /// The checked quotient, as [`Rational::spec_checked_add`] for the sum;
    /// `None` for a zero divisor.
    pub closed spec fn spec_checked_div(self, rhs: Rational) -> Option<Rational> {
        match ratio_checked_div(self.numer, self.denom, rhs.numer, rhs.denom) {
            Some(p) => if p.0 > i32::MIN && is_reduced(p.0 as int, p.1 as int) && is_quotient(
                self.numer as int,
                self.denom as int,
                rhs.numer as int,
                rhs.denom as int,
                p.0 as int,
                p.1 as int,
            ) {
                Some(Rational { numer: p.0, denom: p.1 })
            } else {
                None
            },
            None => None,
        }
    }

    /// Builds `numer / denom` in lowest terms.
    pub fn new(numer: i32, denom: i32) -> (r: Rational)
        requires
            denom != 0,
            numer > i32::MIN,
            denom > i32::MIN,
        ensures
            r == Rational::spec_new(numer, denom),
            r.wf(),
            r.value() == over(numer as real, denom as real),
    {
        let p = call_new(numer, denom);
        let r = Rational { numer: p.0, denom: p.1 };
        proof {
            lemma_same_fraction(p.0 as int, p.1 as int, numer as int, denom as int);
            r.lemma_value_injective(Rational::spec_new(numer, denom));
        }
        r
    }

    /// The rational that stands for the integer `t`.
    pub fn from_integer(t: i32) -> (r: Rational)
        requires
            t > i32::MIN,
        ensures
            r == Rational::spec_from_integer(t),
            r.wf(),
            r.spec_numer() == t,
            r.spec_denom() == 1,
            r.value() == t as real,
    {
        proof {
            lemma_coprime_one(t as int);
            lemma_unit_fraction(t as int);
        }
        Rational { numer: t, denom: 1 }
    }

    /// Zero.
    pub fn zero() -> (r: Rational)
        ensures
            r == Rational::spec_from_integer(0),
            r.wf(),
            r.value() == 0 as real,
    {
        Rational::from_integer(0)
    }

    /// One.
    pub fn one() -> (r: Rational)
        ensures
            r == Rational::spec_from_integer(1),
            r.wf(),
            r.value() == 1 as real,
    {
        Rational::from_integer(1)
    }

    /// The numerator.
    pub fn numer(&self) -> (n: i32)
        ensures
            n == self.spec_numer(),
    {
        self.numer
    }

    /// The denominator.
    pub fn denom(&self) -> (d: i32)
        ensures
            d == self.spec_denom(),
            d > 0,
    {
        proof {
            use_type_invariant(self);
        }
        self.denom
    }

    /// Whether the value is zero.
    pub fn is_zero(&self) -> (b: bool)
        ensures
            b == (self.value() == 0 as real),
            b == (self.spec_numer() == 0),
    {
        proof {
            use_type_invariant(self);
            lemma_zero_fraction(self.numer as int, self.denom as int);
        }
        self.numer == 0
    }

    /// Whether the value is one.
    pub fn is_one(&self) -> (b: bool)
        ensures
            b == (self.value() == 1 as real),
    {
        proof {
            use_type_invariant(self);
            lemma_one_fraction(self.numer as int, self.denom as int);
        }
        self.numer == self.denom
    }

    /// Whether the value is an integer: in lowest terms, whether the
    /// denominator is one.
    pub fn is_integer(&self) -> (b: bool)
        ensures
            b == (self.spec_denom() == 1),
    {
        self.denom == 1
    }

    /// The negated value.
    pub fn neg(&self) -> (r: Rational)
        ensures
            r == self.spec_neg(),
            r.wf(),
            r.value() == -self.value(),
    {
        proof {
            use_type_invariant(self);
            self.lemma_neg();
        }
        let p = call_neg(self.numer, self.denom);
        Rational { numer: p.0, denom: p.1 }
    }

    /// The absolute value.
    pub fn abs(&self) -> (r: Rational)
        ensures
            r == self.spec_abs(),
            r.wf(),
            r.value() == abs_real(self.value()),
    {
        proof {
            use_type_invariant(self);
            self.lemma_abs();
        }
        let p = call_abs(self.numer, self.denom);
        Rational { numer: p.0, denom: p.1 }
    }

    /// Whether the two values are the same number.
    pub fn equals(&self, rhs: &Rational) -> (b: bool)
        ensures
            b == (self.value() == rhs.value()),
    {
        proof {
            use_type_invariant(self);
            use_type_invariant(rhs);
            lemma_fraction_order(
                self.numer as int,
                self.denom as int,
                rhs.numer as int,
                rhs.denom as int,
            );
        }
        call_eq(self.numer, self.denom, rhs.numer, rhs.denom)
    }

    /// Whether the value is below that of `rhs`.
    pub fn less_than(&self, rhs: &Rational) -> (b: bool)
        ensures
            b == (self.value() < rhs.value()),
    {
        proof {
            use_type_invariant(self);
            use_type_invariant(rhs);
            lemma_fraction_order(
                self.numer as int,
                self.denom as int,
                rhs.numer as int,
                rhs.denom as int,
            );
        }
        call_lt(self.numer, self.denom, rhs.numer, rhs.denom)
    }

    /// The text form: the numerator, and after a `/` the denominator unless
    /// it is one.
    pub fn to_text(&self) -> (r: String)
        ensures
            r@ == ratio_text(self.spec_numer(), self.spec_denom()),
    {
        proof {
            use_type_invariant(self);
        }
        call_to_string(self.numer, self.denom)
    }

    /// The sum, or `None` where the arithmetic leaves the range of the type.
    pub fn checked_add(&self, rhs: &Rational) -> (r: Option<Rational>)
        ensures
            r == self.spec_checked_add(*rhs),
            r matches Some(s) ==> s.wf() && s.value() == self.value() + rhs.value(),
    {
        proof {
            use_type_invariant(self);
            use_type_invariant(rhs);
            self.lemma_checked_add(*rhs);
        }
        match call_checked_add(self.numer, self.denom, rhs.numer, rhs.denom) {
            Some(p) => if p.0 > i32::MIN {
                Some(Rational { numer: p.0, denom: p.1 })
            } else {
                None
            },
            None => None,
        }
    }

    /// The difference, or `None` where the arithmetic leaves the range of
    /// the type.
    pub fn checked_sub(&self, rhs: &Rational) -> (r: Option<Rational>)
        ensures
            r == self.spec_checked_sub(*rhs),
            r matches Some(s) ==> s.wf() && s.value() == self.value() - rhs.value(),
    {
        proof {
            use_type_invariant(self);
            use_type_invariant(rhs);
            self.lemma_checked_sub(*rhs);
        }
        match call_checked_sub(self.numer, self.denom, rhs.numer, rhs.denom) {
            Some(p) => if p.0 > i32::MIN {
                Some(Rational { numer: p.0, denom: p.1 })
            } else {
                None
            },
            None => None,
        }
    }

    /// The product, or `None` where the arithmetic leaves the range of the
    /// type.
    pub fn checked_mul(&self, rhs: &Rational) -> (r: Option<Rational>)
        ensures
            r == self.spec_checked_mul(*rhs),
            r matches Some(s) ==> s.wf() && s.value() == times(self.value(), rhs.value()),
    {
        proof {
            use_type_invariant(self);
            use_type_invariant(rhs);
            self.lemma_checked_mul(*rhs);
        }
        match call_checked_mul(self.numer, self.denom, rhs.numer, rhs.denom) {
            Some(p) => if p.0 > i32::MIN {
                Some(Rational { numer: p.0, denom: p.1 })
            } else {
                None
            },
            None => None,
        }
    }

    /// The quotient, or `None` where the divisor is zero or the arithmetic
    /// leaves the range of the type.
    pub fn checked_div(&self, rhs: &Rational) -> (r: Option<Rational>)
        ensures
            r == self.spec_checked_div(*rhs),
            r matches Some(s) ==> s.wf() && rhs.value() != 0 as real && s.value() == over(
                self.value(),
                rhs.value(),
            ),
    {
        proof {
            use_type_invariant(self);
            use_type_invariant(rhs);
            self.lemma_checked_div(*rhs);
        }
        match call_checked_div(self.numer, self.denom, rhs.numer, rhs.denom) {
            Some(p) => if p.0 > i32::MIN {
                Some(Rational { numer: p.0, denom: p.1 })
            } else {
                None
            },
            None => None,
        }
    }

    /// An integer has itself as its value and is in lowest terms.
    pub proof fn lemma_from_integer(t: i32)
        requires
            t > i32::MIN,
        ensures
            Rational::spec_from_integer(t).wf(),
            Rational::spec_from_integer(t).spec_numer() == t,
            Rational::spec_from_integer(t).spec_denom() == 1,
            Rational::spec_from_integer(t).value() == t as real,
    {
        lemma_coprime_one(t as int);
        lemma_unit_fraction(t as int);
    }

    /// With the denominator one, a value is the rational of its numerator.
    pub proof fn lemma_integer_form(self)
        requires
            self.wf(),
            self.spec_denom() == 1,
        ensures
            self == Rational::spec_from_integer(self.spec_numer() as i32),
    {
    }

    /// A value is zero exactly when its numerator is, and with the
    /// denominator one it is its numerator.
    pub proof fn lemma_value(self)
        requires
            self.wf(),
        ensures
            (self.value() == 0 as real) == (self.spec_numer() == 0),
            self.spec_denom() == 1 ==> self.value() == self.spec_numer() as real,
    {
        lemma_zero_fraction(self.numer as int, self.denom as int);
        lemma_unit_fraction(self.numer as int);
    }

    /// A value in lowest terms that is an integer has the denominator one.
    pub proof fn lemma_integer_value(self, m: int)
        requires
            self.wf(),
            self.value() == m as real,
        ensures
            self.spec_denom() == 1,
            self.spec_numer() == m,
    {
        lemma_integer_fraction(self.numer as int, self.denom as int, m);
    }

    /// Two values that stand for the same number are equal: a number has
    /// one representation in lowest terms.
    pub proof fn lemma_value_injective(self, other: Rational)
        requires
            self.wf(),
            other.wf(),
            self.value() == other.value(),
        ensures
            self == other,
    {
        lemma_fraction_order(
            self.numer as int,
            self.denom as int,
            other.numer as int,
            other.denom as int,
        );
        lemma_reduced_unique(
            self.numer as int,
            self.denom as int,
            other.numer as int,
            other.denom as int,
        );
    }

    /// Negation keeps the invariant and negates the value.
    pub proof fn lemma_neg(self)
        requires
            self.wf(),
        ensures
            self.spec_neg().wf(),
            self.spec_neg().spec_numer() == -self.spec_numer(),
            self.spec_neg().spec_denom() == self.spec_denom(),
            self.spec_neg().value() == -self.value(),
    {
        lemma_coprime_neg(self.numer as int, self.denom as int);
        lemma_neg_fraction(self.numer as int, self.denom as int);
    }

    /// The absolute value keeps the invariant and is the absolute value of
    /// the number.
    pub proof fn lemma_abs(self)
        requires
            self.wf(),
        ensures
            self.spec_abs().wf(),
            self.spec_abs().spec_numer() == if self.spec_numer() < 0 {
                -self.spec_numer()
            } else {
                self.spec_numer()
            },
            self.spec_abs().spec_denom() == self.spec_denom(),
            self.spec_abs().value() == abs_real(self.value()),
    {
        self.lemma_neg();
        lemma_sign_fraction(self.numer as int, self.denom as int);
    }

    /// A checked sum that is present is the sum.
    pub proof fn lemma_checked_add(self, rhs: Rational)
        requires
            self.wf(),
            rhs.wf(),
        ensures
            self.spec_checked_add(rhs) matches Some(s) ==> s.wf() && s.value() == self.value()
                + rhs.value(),
    {
        if let Some(s) = self.spec_checked_add(rhs) {
            lemma_sum_fraction(
                self.numer as int,
                self.denom as int,
                rhs.numer as int,
                rhs.denom as int,
                s.numer as int,
                s.denom as int,
            );
        }
    }

    /// A checked difference that is present is the difference.
    pub proof fn lemma_checked_sub(self, rhs: Rational)
        requires
            self.wf(),
            rhs.wf(),
        ensures
            self.spec_checked_sub(rhs) matches Some(s) ==> s.wf() && s.value() == self.value()
                - rhs.value(),
    {
        if let Some(s) = self.spec_checked_sub(rhs) {
            lemma_difference_fraction(
                self.numer as int,
                self.denom as int,
                rhs.numer as int,
                rhs.denom as int,
                s.numer as int,
                s.denom as int,
            );
        }
    }

    /// A checked product that is present is the product.
    pub proof fn lemma_checked_mul(self, rhs: Rational)
        requires
            self.wf(),
            rhs.wf(),
        ensures
            self.spec_checked_mul(rhs) matches Some(s) ==> s.wf() && s.value() == times(
                self.value(),
                rhs.value(),
            ),
    {
        if let Some(s) = self.spec_checked_mul(rhs) {
            lemma_product_fraction(
                self.numer as int,
                self.denom as int,
                rhs.numer as int,
                rhs.denom as int,
                s.numer as int,
                s.denom as int,
            );
        }
    }

    /// A checked quotient that is present is the quotient, and its divisor
    /// is not zero.
    pub proof fn lemma_checked_div(self, rhs: Rational)
        requires
            self.wf(),
            rhs.wf(),
        ensures
            self.spec_checked_div(rhs) matches Some(s) ==> s.wf() && rhs.value() != 0 as real
                && s.value() == over(self.value(), rhs.value()),
    {
        if let Some(s) = self.spec_checked_div(rhs) {
            lemma_quotient_fraction(
                self.numer as int,
                self.denom as int,
                rhs.numer as int,
                rhs.denom as int,
                s.numer as int,
                s.denom as int,
            );
        }
    }
}

/// Bézout's identity: some positive common divisor of `a` and `b` is an
/// integer combination of them.
proof fn lemma_bezout(a: nat, b: nat) -> (r: (int, int, int))
    requires
        a > 0 || b > 0,
    ensures
        r.0 > 0,
        a as int % r.0 == 0,
        b as int % r.0 == 0,
        a * r.1 + b * r.2 == r.0,
    decreases b,
{
    if b == 0 {
        lemma_mod_multiples_basic(1, a as int);
        lemma_mod_multiples_basic(0, a as int);
        (a as int, 1, 0)
    } else {
        let q = a as int / b as int;
        let m = a as int % b as int;
        lemma_fundamental_div_mod(a as int, b as int);
        assert(0 <= m < b) by (nonlinear_arith)
            requires
                m == a as int % b as int,
                b > 0,
        ;
        let (g, x, y) = lemma_bezout(b, m as nat);
        lemma_fundamental_div_mod(b as int, g);
        lemma_fundamental_div_mod(m, g);
        let k1 = b as int / g;
        let k2 = m / g;
        assert(a as int == (q * k1 + k2) * g) by (nonlinear_arith)
            requires
                a as int == b as int * q + m,
                b as int == g * k1,
                m == g * k2,
        ;
        lemma_mod_multiples_basic(q * k1 + k2, g);
        assert(a * y + b * (x - q * y) == g) by (nonlinear_arith)
            requires
                a as int == b as int * q + m,
                b * x + m * y == g,
        ;
        (g, y, x - q * y)
    }
}

/// With `n / d` in lowest terms, `d` divides `e` whenever `n * e` is a
/// multiple of `d`.
proof fn lemma_denominator_divides(n: int, d: int, m: int, e: int) -> (k: int)
    requires
        is_reduced(n, d),
        n * e == m * d,
    ensures
        e == d * k,
{
    let a: nat = if n < 0 {
        (-n) as nat
    } else {
        n as nat
    };
    let (g, x, y) = lemma_bezout(a, d as nat);
    if n < 0 {
        lemma_coprime_neg(n, d);
    }
    assert(a as int % g == 0 && d % g == 0);
    assert(n % g == 0) by {
        if n < 0 {
            lemma_fundamental_div_mod(-n, g);
            let q = (-n) / g;
            assert(n == (-q) * g) by (nonlinear_arith)
                requires
                    -n == g * q,
            ;
            lemma_mod_multiples_basic(-q, g);
        }
    }
    assert(g == 1);
    let sx = if n < 0 {
        -x
    } else {
        x
    };
    assert(n * sx + d * y == 1) by (nonlinear_arith)
        requires
            a * x + d * y == 1,
            a as int == (if n < 0 {
                -n
            } else {
                n
            }),
            sx == (if n < 0 {
                -x
            } else {
                x
            }),
    ;
    let k = m * sx + e * y;
    assert(e == d * k) by (nonlinear_arith)
        requires
            n * sx + d * y == 1,
            n * e == m * d,
            k == m * sx + e * y,
    ;
    k
}

/// Two fractions in lowest terms with the same value are the same fraction.
proof fn lemma_reduced_unique(n: int, d: int, m: int, e: int)
    requires
        is_reduced(n, d),
        is_reduced(m, e),
        n * e == m * d,
    ensures
        n == m,
        d == e,
{
    let k1 = lemma_denominator_divides(n, d, m, e);
    let k2 = lemma_denominator_divides(m, e, n, d);
    assert(d == e) by (nonlinear_arith)
        requires
            d > 0,
            e > 0,
            e == d * k1,
            d == e * k2,
    ;
    assert(n == m) by (nonlinear_arith)
        requires
            d > 0,
            d == e,
            n * e == m * d,
    ;
}

/// Every integer is coprime to one.
proof fn lemma_coprime_one(n: int)
    ensures
        coprime(n, 1),
{
    assert forall|k: int| k > 1 implies !(#[trigger] (n % k) == 0 && 1int % k == 0) by {
        assert(1int % k == 1) by (nonlinear_arith)
            requires
                k > 1,
        ;
    }
}

/// Negation keeps coprimality.
proof fn lemma_coprime_neg(n: int, d: int)
    requires
        coprime(n, d),
    ensures
        coprime(-n, d),
{
    assert forall|k: int| k > 1 implies !(#[trigger] ((-n) % k) == 0 && d % k == 0) by {
        if (-n) % k == 0 {
            lemma_fundamental_div_mod(-n, k);
            let q = (-n) / k;
            assert(n == (-q) * k) by (nonlinear_arith)
                requires
                    -n == k * q,
            ;
            lemma_mod_multiples_basic(-q, k);
            assert(n % k == 0);
        }
    }
}

/// Cross-multiplied fractions are the same number.
proof fn lemma_same_fraction(n: int, d: int, m: int, e: int)
    requires
        d > 0,
        e != 0,
        n * e == m * d,
    ensures
        over(n as real, d as real) == over(m as real, e as real),
{
    reveal(over);
    assert(n as real / d as real == m as real / e as real) by (nonlinear_arith)
        requires
            d > 0,
            e != 0,
            n * e == m * d,
    ;
}

/// A fraction is zero exactly when its numerator is.
proof fn lemma_zero_fraction(n: int, d: int)
    requires
        d > 0,
    ensures
        (over(n as real, d as real) == 0 as real) == (n == 0),
{
    reveal(over);
    assert((n as real / d as real == 0 as real) == (n == 0)) by (nonlinear_arith)
        requires
            d > 0,
    ;
}

/// A fraction is one exactly when numerator and denominator agree.
proof fn lemma_one_fraction(n: int, d: int)
    requires
        d > 0,
    ensures
        (over(n as real, d as real) == 1 as real) == (n == d),
{
    reveal(over);
    assert((n as real / d as real == 1 as real) == (n == d)) by (nonlinear_arith)
        requires
            d > 0,
    ;
}

/// A fraction with the denominator one is its numerator.
proof fn lemma_unit_fraction(n: int)
    ensures
        over(n as real, 1 as real) == n as real,
{
    reveal(over);
    assert(n as real / 1 as real == n as real) by (nonlinear_arith);
}

/// A fraction in lowest terms that is an integer has the denominator one.
proof fn lemma_integer_fraction(n: int, d: int, m: int)
    requires
        is_reduced(n, d),
        over(n as real, d as real) == m as real,
    ensures
        d == 1,
        n == m,
{
    reveal(over);
    assert(n == m * d) by (nonlinear_arith)
        requires
            d > 0,
            n as real / d as real == m as real,
    ;
    lemma_mod_multiples_basic(m, d);
    lemma_mod_multiples_basic(1, d);
    assert(n % d == 0);
    assert(d % d == 0);
}

/// Negating the numerator negates the fraction.
proof fn lemma_neg_fraction(n: int, d: int)
    requires
        d > 0,
    ensures
        over((-n) as real, d as real) == -over(n as real, d as real),
{
    reveal(over);
    assert((-n) as real / d as real == -(n as real / d as real)) by (nonlinear_arith)
        requires
            d > 0,
    ;
}

/// A fraction with a positive denominator has the sign of its numerator.
proof fn lemma_sign_fraction(n: int, d: int)
    requires
        d > 0,
    ensures
        (over(n as real, d as real) < (0 as real)) == (n < 0),
{
    reveal(over);
    assert(((n as real / d as real) < (0 as real)) == (n < 0)) by (nonlinear_arith)
        requires
            d > 0,
    ;
}

/// Fractions with positive denominators compare as their cross products.
proof fn lemma_fraction_order(an: int, ad: int, bn: int, bd: int)
    requires
        ad > 0,
        bd > 0,
    ensures
        (an * bd == bn * ad) == (over(an as real, ad as real) == over(bn as real, bd as real)),
        (an * bd < bn * ad) == (over(an as real, ad as real) < over(bn as real, bd as real)),
{
    reveal(over);
    assert((an * bd == bn * ad) == (an as real / ad as real == bn as real / bd as real))
        by (nonlinear_arith)
        requires
            ad > 0,
            bd > 0,
    ;
    assert((an * bd < bn * ad) == ((an as real / ad as real) < (bn as real / bd as real)))
        by (nonlinear_arith)
        requires
            ad > 0,
            bd > 0,
    ;
}

/// A fraction that is a sum by cross products is the sum.
proof fn lemma_sum_fraction(an: int, ad: int, bn: int, bd: int, n: int, d: int)
    requires
        ad > 0,
        bd > 0,
        d > 0,
        is_sum(an, ad, bn, bd, n, d),
    ensures
        over(n as real, d as real) == over(an as real, ad as real) + over(bn as real, bd as real),
{
    reveal(over);
    assert(n as real / d as real == an as real / ad as real + bn as real / bd as real)
        by (nonlinear_arith)
        requires
            ad > 0,
            bd > 0,
            d > 0,
            n * (ad * bd) == d * (an * bd + bn * ad),
    ;
}

/// A fraction that is a difference by cross products is the difference.
proof fn lemma_difference_fraction(an: int, ad: int, bn: int, bd: int, n: int, d: int)
    requires
        ad > 0,
        bd > 0,
        d > 0,
        is_difference(an, ad, bn, bd, n, d),
    ensures
        over(n as real, d as real) == over(an as real, ad as real) - over(bn as real, bd as real),
{
    reveal(over);
    assert(n as real / d as real == an as real / ad as real - bn as real / bd as real)
        by (nonlinear_arith)
        requires
            ad > 0,
            bd > 0,
            d > 0,
            n * (ad * bd) == d * (an * bd - bn * ad),
    ;
}

/// A fraction that is a product by cross products is the product.
proof fn lemma_product_fraction(an: int, ad: int, bn: int, bd: int, n: int, d: int)
    requires
        ad > 0,
        bd > 0,
        d > 0,
        is_product(an, ad, bn, bd, n, d),
    ensures
        over(n as real, d as real) == times(
            over(an as real, ad as real),
            over(bn as real, bd as real),
        ),
{
    reveal(over);
    reveal(times);
    assert(n as real / d as real == (an as real / ad as real) * (bn as real / bd as real))
        by (nonlinear_arith)
        requires
            ad > 0,
            bd > 0,
            d > 0,
            n * (ad * bd) == d * (an * bn),
    ;
}

/// A fraction that is a quotient by cross products is the quotient, and the
/// divisor is not zero.
proof fn lemma_quotient_fraction(an: int, ad: int, bn: int, bd: int, n: int, d: int)
    requires
        ad > 0,
        bd > 0,
        d > 0,
        is_quotient(an, ad, bn, bd, n, d),
    ensures
        over(bn as real, bd as real) != 0 as real,
        over(n as real, d as real) == over(
            over(an as real, ad as real),
            over(bn as real, bd as real),
        ),
{
    reveal(over);
    assert(bn as real / bd as real != 0 as real) by (nonlinear_arith)
        requires
            bd > 0,
            bn != 0,
    ;
    assert(n as real / d as real == (an as real / ad as real) / (bn as real / bd as real))
        by (nonlinear_arith)
        requires
            ad > 0,
            bd > 0,
            d > 0,
            bn != 0,
            n * (ad * bn) == d * (an * bd),
    ;
}

} // verus!
