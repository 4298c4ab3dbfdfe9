//! Laws of the algebra of dimensions, proved of the specification functions
//! in which the contracts of [`crate::dimensional`] are stated.

use crate::dimensional::{
    all_integers, all_zero, literal, same_values, Dimension, DimensionError, DimensionTrait,
};
use crate::rational::Rational;
use crate::reals::{
    is_whole, lemma_times_associates, lemma_times_minus_one, lemma_whole, times, whole_part,
};
use vstd::prelude::*;

verus! {

/// The product node of two dimensions, as [`Dimension::multiply`] builds it.
pub open spec fn product(a: Dimension, b: Dimension) -> Dimension {
    Dimension::Product { left: Box::new(a), right: Box::new(b) }
}

/// A dimension has seven exponents.
pub proof fn lemma_seven_exponents(d: Dimension)
    ensures
        d.flatten() matches Some(v) ==> v.len() == 7,
    decreases d,
{
    match d {
        Dimension::Product { left, right } => {
            lemma_seven_exponents(*left);
            lemma_seven_exponents(*right);
        },
        Dimension::Division { left, right } => {
            lemma_seven_exponents(*left);
            lemma_seven_exponents(*right);
        },
        Dimension::PowerI { original, power } => {
            lemma_seven_exponents(*original);
        },
        Dimension::PowerR { original, power } => {
            lemma_seven_exponents(*original);
        },
        _ => {},
    }
}

/// Two dimensions with the same mathematical exponents flatten to the same
/// seven rationals, where both fit the rational type.
pub proof fn lemma_flatten_by_exponents(x: Dimension, y: Dimension)
    requires
        x.wf(),
        y.wf(),
        forall|i: int| 0 <= i < 7 ==> x.exponent(i) == y.exponent(i),
        x.flatten() is Some,
        y.flatten() is Some,
    ensures
        x.flatten() == y.flatten(),
{
    x.lemma_flatten();
    y.lemma_flatten();
    let u = x.flatten().unwrap();
    let v = y.flatten().unwrap();
    assert forall|i: int| 0 <= i < 7 implies u[i] == v[i] by {
        u[i].lemma_value_injective(v[i]);
    }
    assert(u =~= v);
}

/// Products flatten alike whatever the grouping and the order of their
/// factors: `(a·b)·c`, `a·(b·c)` and `b·(a·c)` have the same exponents, and
/// the same seven rationals wherever two of them fit the rational type.
pub proof fn lemma_product_regrouping(a: Dimension, b: Dimension, c: Dimension)
    requires
        a.wf(),
        b.wf(),
        c.wf(),
    ensures
        forall|i: int|
            0 <= i < 7 ==> product(product(a, b), c).exponent(i) == product(
                a,
                product(b, c),
            ).exponent(i),
        forall|i: int|
            0 <= i < 7 ==> product(product(a, b), c).exponent(i) == product(
                b,
                product(a, c),
            ).exponent(i),
        product(product(a, b), c).flatten() is Some && product(a, product(b, c)).flatten() is Some
            ==> product(product(a, b), c).flatten() == product(a, product(b, c)).flatten(),
        product(product(a, b), c).flatten() is Some && product(b, product(a, c)).flatten() is Some
            ==> product(product(a, b), c).flatten() == product(b, product(a, c)).flatten(),
{
    reveal_with_fuel(Dimension::exponent, 3);
    reveal_with_fuel(Dimension::wf, 3);
    let x = product(product(a, b), c);
    let y = product(a, product(b, c));
    let z = product(b, product(a, c));
    if x.flatten() is Some && y.flatten() is Some {
        lemma_flatten_by_exponents(x, y);
    }
    if x.flatten() is Some && z.flatten() is Some {
        lemma_flatten_by_exponents(x, z);
    }
}

/// A dimension times its reciprocal is dimensionless: every exponent of
/// `d · d⁻¹` is zero, and flattening it gives zeros.
pub proof fn lemma_reciprocal_cancels(d: Dimension)
    requires
        d.wf(),
    ensures
        d.spec_powi(-1i32) matches Ok(r) ==> (forall|i: int|
            0 <= i < 7 ==> product(d, r).exponent(i) == 0 as real) && (product(
            d,
            r,
        ).flatten() matches Some(v) ==> all_zero(v)) && product(d, r).spec_is_zero() != Ok::<
            bool,
            DimensionError,
        >(false),
{
    reveal_with_fuel(Dimension::exponent, 3);
    reveal_with_fuel(Dimension::wf, 3);
    if let Ok(r) = d.spec_powi(-1i32) {
        let v = d.flatten().unwrap();
        d.lemma_flatten();
        crate::dimensional::lemma_literal(v);
        Rational::lemma_from_integer(-1i32);
        assert forall|i: int| 0 <= i < 7 implies product(d, r).exponent(i) == 0 as real by {
            let e = d.exponent(i);
            assert(r.exponent(i) == times(
                literal(v).exponent(i),
                Rational::spec_from_integer(-1i32).value(),
            ));
            lemma_times_minus_one(e);
        }
        assert(r.wf());
        product(d, r).lemma_flatten();
        lemma_seven_exponents(product(d, r));
    }
}

/// A power of a power is the power of the product of the exponents:
/// `(d^r)^s` and `d^(r·s)` have the same exponents and flatten to the same
/// seven rationals. The law holds where `d^r` has integer exponents, since
/// only then can it be raised to a power again.
pub proof fn lemma_power_of_power(d: Dimension, r: Rational, s: Rational)
    requires
        d.wf(),
        r.wf(),
        s.wf(),
        r.spec_checked_mul(s) is Some,
        d.spec_pow(r) is Ok,
        d.spec_pow(r)->Ok_0.spec_pow(s) is Ok,
    ensures
        d.spec_pow(r.spec_checked_mul(s).unwrap()) is Ok,
        forall|i: int|
            0 <= i < 7 ==> d.spec_pow(r)->Ok_0.spec_pow(s)->Ok_0.exponent(i) == d.spec_pow(
                r.spec_checked_mul(s).unwrap(),
            )->Ok_0.exponent(i),
        d.spec_pow(r)->Ok_0.spec_pow(s)->Ok_0.flatten() is Some && d.spec_pow(
            r.spec_checked_mul(s).unwrap(),
        )->Ok_0.flatten() is Some ==> d.spec_pow(r)->Ok_0.spec_pow(s)->Ok_0.flatten() == d.spec_pow(
            r.spec_checked_mul(s).unwrap(),
        )->Ok_0.flatten(),
{
    reveal_with_fuel(Dimension::exponent, 3);
    reveal_with_fuel(Dimension::wf, 3);
    let rs = r.spec_checked_mul(s).unwrap();
    r.lemma_checked_mul(s);
    let p = d.spec_pow(r)->Ok_0;
    let q = p.spec_pow(s)->Ok_0;
    let t = d.spec_pow(rs)->Ok_0;
    let dv = d.flatten().unwrap();
    d.lemma_flatten();
    crate::dimensional::lemma_literal(dv);
    assert(p.wf());
    let pv = p.flatten().unwrap();
    p.lemma_flatten();
    crate::dimensional::lemma_literal(pv);
    assert(q.wf());
    assert(t.wf());
    assert forall|i: int| 0 <= i < 7 implies q.exponent(i) == t.exponent(i) by {
        let e = literal(dv).exponent(i);
        assert(p.exponent(i) == times(e, r.value()));
        assert(q.exponent(i) == times(literal(pv).exponent(i), s.value()));
        assert(literal(pv).exponent(i) == pv[i].value());
        assert(t.exponent(i) == times(e, rs.value()));
        lemma_times_associates(e, r.value(), s.value());
    }
    if q.flatten() is Some && t.flatten() is Some {
        lemma_flatten_by_exponents(q, t);
    }
}

/// The standard form of a dimension is an equal dimension: it flattens to
/// the same seven rationals, is its own standard form, and exists exactly
/// where all seven are integers. A literal of integer exponents is its own
/// standard form.
pub proof fn lemma_standard_form_round_trip(d: Dimension)
    requires
        d.wf(),
    ensures
        d.spec_standard_form() matches Ok(c) ==> c.flatten() == d.flatten() && c.spec_equals(d)
            == Ok::<bool, DimensionError>(true) && c.spec_standard_form() == Ok::<
            Dimension,
            DimensionError,
        >(c),
        d.flatten() matches Some(v) ==> (d.spec_standard_form() is Ok <==> all_integers(v)),
        d.flatten() matches Some(v) ==> (!all_integers(v) ==> d.spec_standard_form() == Err::<
            Dimension,
            DimensionError,
        >(DimensionError::NotInStandardForm)),
        d is PowerLaw && d.flatten() is Some ==> d.spec_standard_form() == Ok::<
            Dimension,
            DimensionError,
        >(d),
{
    d.lemma_flatten();
    if let Some(v) = d.flatten() {
        if all_integers(v) {
            crate::dimensional::lemma_literal(v);
            let c = literal(v);
            assert(same_values(v, v));
            if let Dimension::PowerLaw(a0, a1, a2, a3, a4, a5, a6) = d {
                let ints = seq![a0, a1, a2, a3, a4, a5, a6];
                assert forall|i: int| 0 <= i < 7 implies (#[trigger] v[i]).spec_numer()
                    == ints[i] by {
                    Rational::lemma_from_integer(ints[i]);
                }
                assert(v[0].spec_numer() == a0);
                assert(v[1].spec_numer() == a1);
                assert(v[2].spec_numer() == a2);
                assert(v[3].spec_numer() == a3);
                assert(v[4].spec_numer() == a4);
                assert(v[5].spec_numer() == a5);
                assert(v[6].spec_numer() == a6);
            }
        } else {
            if let Dimension::PowerLaw(a0, a1, a2, a3, a4, a5, a6) = d {
                let ints = seq![a0, a1, a2, a3, a4, a5, a6];
                assert forall|i: int| 0 <= i < 7 implies (#[trigger] v[i]).spec_denom() == 1 by {
                    Rational::lemma_from_integer(ints[i]);
                }
            }
        }
    }
}

/// A dimension has a standard form exactly when its seven exponents are
/// integers, and else is not in standard form; this for the dimensions whose
/// exponents fit the rational type.
pub proof fn lemma_standard_form_exists(d: Dimension)
    requires
        d.wf(),
        d.flatten() is Some,
    ensures
        d.spec_standard_form() is Ok <==> forall|i: int| 0 <= i < 7 ==> is_whole(d.exponent(i)),
        d.spec_standard_form() is Err ==> d.spec_standard_form()->Err_0
            == DimensionError::NotInStandardForm,
{
    d.lemma_flatten();
    let v = d.flatten().unwrap();
    if all_integers(v) {
        assert forall|i: int| 0 <= i < 7 implies is_whole(d.exponent(i)) by {
            v[i].lemma_value();
            lemma_whole(v[i].spec_numer());
        }
    } else {
        let k = choose|k: int| 0 <= k < v.len() && (#[trigger] v[k]).spec_denom() != 1;
        if is_whole(d.exponent(k)) {
            v[k].lemma_integer_value(whole_part(d.exponent(k)));
        }
    }
}

/// Equality of dimensions is reflexive.
pub proof fn lemma_equals_reflexive(a: Dimension)
    ensures
        a.flatten() is Some ==> a.spec_equals(a) == Ok::<bool, DimensionError>(true),
        a.flatten() is None ==> a.spec_equals(a) == Err::<bool, DimensionError>(
            DimensionError::Overflow,
        ),
{
}

/// Equality of dimensions is symmetric.
pub proof fn lemma_equals_symmetric(a: Dimension, b: Dimension)
    ensures
        a.spec_equals(b) == b.spec_equals(a),
{
    lemma_seven_exponents(a);
    lemma_seven_exponents(b);
    if let (Some(u), Some(v)) = (a.flatten(), b.flatten()) {
        if same_values(u, v) {
            assert forall|j: int| 0 <= j < v.len() implies (#[trigger] v[j]).value()
                == u[j].value() by {
                assert(u[j].value() == v[j].value());
            }
        }
        if same_values(v, u) {
            assert forall|j: int| 0 <= j < u.len() implies (#[trigger] u[j]).value()
                == v[j].value() by {
                assert(v[j].value() == u[j].value());
            }
        }
    }
}

/// Equality of dimensions is transitive.
pub proof fn lemma_equals_transitive(a: Dimension, b: Dimension, c: Dimension)
    requires
        a.spec_equals(b) == Ok::<bool, DimensionError>(true),
        b.spec_equals(c) == Ok::<bool, DimensionError>(true),
    ensures
        a.spec_equals(c) == Ok::<bool, DimensionError>(true),
{
    lemma_seven_exponents(a);
    lemma_seven_exponents(b);
    lemma_seven_exponents(c);
    let u = a.flatten().unwrap();
    let v = b.flatten().unwrap();
    let w = c.flatten().unwrap();
    assert forall|j: int| 0 <= j < u.len() implies (#[trigger] u[j]).value() == w[j].value() by {
        assert(u[j].value() == v[j].value());
        assert(v[j].value() == w[j].value());
    }
}

/// Equality of dimensions looks at the exponents alone, not at the shape of
/// the trees: two dimensions are equal exactly when their mathematical
/// exponents agree, and exactly when they flatten to the same seven
/// rationals.
pub proof fn lemma_equals_by_exponents(a: Dimension, b: Dimension)
    requires
        a.wf(),
        b.wf(),
    ensures
        a.spec_equals(b) matches Ok(e) ==> e == (forall|i: int|
            0 <= i < 7 ==> a.exponent(i) == b.exponent(i)),
        a.spec_equals(b) matches Ok(e) ==> e == (a.flatten() == b.flatten()),
{
    a.lemma_flatten();
    b.lemma_flatten();
    if let (Some(u), Some(v)) = (a.flatten(), b.flatten()) {
        if same_values(u, v) {
            assert forall|i: int| 0 <= i < 7 implies a.exponent(i) == b.exponent(i) by {
                assert(u[i].value() == v[i].value());
            }
            lemma_flatten_by_exponents(a, b);
        } else {
            let k = choose|k: int| 0 <= k < u.len() && (#[trigger] u[k]).value() != v[k].value();
            assert(a.exponent(k) != b.exponent(k));
            assert(u[k] != v[k]);
        }
    }
}

} // verus!
