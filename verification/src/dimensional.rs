//! Physical dimensions as expression trees over the seven SI base
//! dimensions, with exact rational exponents.

use crate::echelon::{row_wf, scale_row};
use crate::rational::Rational;
use crate::reals::{
    lemma_over_two, lemma_times_minus_one, lemma_times_reciprocal, lemma_times_two, over, times,
};
use crate::text::{integer_text, push_char, ratio_text};
use vstd::string::StringExecFns;
use vstd::prelude::*;

verus! {

/// The labels of the base dimensions, in the order of the exponents: length,
/// mass, time, electric current, temperature, amount of substance, luminous
/// intensity.
pub const DIMENSIONAL_LABELS: [char; 7] = ['L', 'M', 'T', 'I', 'Θ', 'N', 'J'];

/// A dimension: a product of powers of the seven base dimensions, kept as the
/// expression that built it.
#[derive(Debug)]
#[allow(inconsistent_fields)]
pub enum Dimension {
    /// Integer exponents of the base dimensions.
    PowerLaw(i32, i32, i32, i32, i32, i32, i32),
    /// Integer exponents of the base dimensions, as an array.
    PowerLawIA([i32; 7]),
    /// Rational exponents of the base dimensions.
    PowerLawR(Rational, Rational, Rational, Rational, Rational, Rational, Rational),
    /// Rational exponents of the base dimensions, as an array.
    PowerLawRA([Rational; 7]),
    /// The product of two dimensions: exponents add.
    Product { left: Box<Dimension>, right: Box<Dimension> },
    /// The quotient of two dimensions: exponents subtract.
    Division { left: Box<Dimension>, right: Box<Dimension> },
    /// An integer power of a dimension: exponents are multiplied by it.
    PowerI { original: Box<Dimension>, power: i32 },
    /// A rational power of a dimension: exponents are multiplied by it.
    PowerR { original: Box<Dimension>, power: Rational },
}

/// Why an operation on dimensions was refused.
#[derive(Clone, Debug)]
pub enum DimensionError {
    /// The two operands of an addition or subtraction differ in dimension.
    DimensionMismatch { left: Dimension, right: Dimension },
    /// Some exponent of the dimension is not an integer.
    NotInStandardForm,
    /// The index does not name one of the seven base dimensions.
    IndexOutOfRange { index: usize },
    /// An exponent does not fit the rational type.
    Overflow,
}

/// The rationals that stand for the integers of `s`, where each is above
/// `i32::MIN`.
pub open spec fn integer_row(s: Seq<i32>) -> Option<Seq<Rational>> {
    if forall|j: int| 0 <= j < s.len() ==> (#[trigger] s[j]) > i32::MIN {
        Some(Seq::new(s.len(), |j: int| Rational::spec_from_integer(s[j])))
    } else {
        None
    }
}

/// The entrywise sum of two rows.
pub open spec fn add_rows(l: Seq<Rational>, r: Seq<Rational>) -> Option<Seq<Rational>> {
    if forall|j: int| 0 <= j < l.len() ==> (#[trigger] l[j]).spec_checked_add(r[j]) is Some {
        Some(Seq::new(l.len(), |j: int| l[j].spec_checked_add(r[j]).unwrap()))
    } else {
        None
    }
}

/// The entrywise difference of two rows.
pub open spec fn sub_rows(l: Seq<Rational>, r: Seq<Rational>) -> Option<Seq<Rational>> {
    if forall|j: int| 0 <= j < l.len() ==> (#[trigger] l[j]).spec_checked_sub(r[j]) is Some {
        Some(Seq::new(l.len(), |j: int| l[j].spec_checked_sub(r[j]).unwrap()))
    } else {
        None
    }
}

/// Every entry of the row is an integer.
pub open spec fn all_integers(v: Seq<Rational>) -> bool {
    forall|j: int| 0 <= j < v.len() ==> (#[trigger] v[j]).spec_denom() == 1
}

/// Every entry of the row is zero.
pub open spec fn all_zero(v: Seq<Rational>) -> bool {
    forall|j: int| 0 <= j < v.len() ==> (#[trigger] v[j]).value() == 0 as real
}

/// The two rows hold the same numbers.
pub open spec fn same_values(a: Seq<Rational>, b: Seq<Rational>) -> bool {
    forall|j: int| 0 <= j < a.len() ==> (#[trigger] a[j]).value() == b[j].value()
}

/// The text of one base dimension with exponent `e`: nothing for zero, the
/// label alone for one, else the label, `^` and the exponent.
pub open spec fn term_text(e: Rational, label: char) -> Seq<char> {
    if e.value() == 0 as real {
        Seq::empty()
    } else if e.value() == 1 as real {
        seq![label]
    } else {
        seq![label, '^'] + ratio_text(e.spec_numer(), e.spec_denom())
    }
}

/// The texts of the first `n` base dimensions, one after the other.
pub open spec fn terms_text(v: Seq<Rational>, n: nat) -> Seq<char>
    decreases n,
{
    if n == 0 {
        Seq::empty()
    } else {
        terms_text(v, (n - 1) as nat) + term_text(v[n - 1], DIMENSIONAL_LABELS@[n - 1])
    }
}

/// The text of a dimension with the exponents `v`; `-` where all are zero.
pub open spec fn dimension_text(v: Seq<Rational>) -> Seq<char> {
    if terms_text(v, 7).len() == 0 {
        seq!['-']
    } else {
        terms_text(v, 7)
    }
}

/// The rationals of seven integers, or `None` where one is `i32::MIN`.
fn integer_row_exec(a: &[i32; 7]) -> (r: Option<[Rational; 7]>)
    ensures
        r matches Some(v) ==> integer_row(a@) == Some(v@) && row_wf(v@),
        r is None ==> integer_row(a@) is None,
{
    let zero = Rational::zero();
    let mut out: [Rational; 7] = [zero, zero, zero, zero, zero, zero, zero];
    let mut j: usize = 0;
    while j < 7
        invariant
            j <= 7,
            row_wf(out@),
            forall|k: int| 0 <= k < j ==> (#[trigger] a@[k]) > i32::MIN,
            forall|k: int| 0 <= k < j ==> (#[trigger] out@[k]) == Rational::spec_from_integer(a@[k]),
        decreases 7 - j,
    {
        if a[j] > i32::MIN {
            out[j] = Rational::from_integer(a[j]);
        } else {
            return None;
        }
        j += 1;
    }
    assert(out@ =~= integer_row(a@).unwrap());
    Some(out)
}

/// The entrywise sum of two rows of exponents.
fn add_rows_exec(l: &[Rational; 7], r: &[Rational; 7]) -> (s: Option<[Rational; 7]>)
    ensures
        s matches Some(v) ==> add_rows(l@, r@) == Some(v@) && row_wf(v@),
        s is None ==> add_rows(l@, r@) is None,
{
    let zero = Rational::zero();
    let mut out: [Rational; 7] = [zero, zero, zero, zero, zero, zero, zero];
    let mut j: usize = 0;
    while j < 7
        invariant
            j <= 7,
            row_wf(out@),
            forall|k: int| 0 <= k < j ==> (#[trigger] l@[k]).spec_checked_add(r@[k]) == Some(out@[k]),
        decreases 7 - j,
    {
        match l[j].checked_add(&r[j]) {
            Some(x) => {
                out[j] = x;
            },
            None => {
                assert(l@[j as int].spec_checked_add(r@[j as int]) is None);
                return None;
            },
        }
        j += 1;
    }
    assert(out@ =~= add_rows(l@, r@).unwrap());
    Some(out)
}

/// The entrywise difference of two rows of exponents.
fn sub_rows_exec(l: &[Rational; 7], r: &[Rational; 7]) -> (s: Option<[Rational; 7]>)
    ensures
        s matches Some(v) ==> sub_rows(l@, r@) == Some(v@) && row_wf(v@),
        s is None ==> sub_rows(l@, r@) is None,
{
    let zero = Rational::zero();
    let mut out: [Rational; 7] = [zero, zero, zero, zero, zero, zero, zero];
    let mut j: usize = 0;
    while j < 7
        invariant
            j <= 7,
            row_wf(out@),
            forall|k: int| 0 <= k < j ==> (#[trigger] l@[k]).spec_checked_sub(r@[k]) == Some(out@[k]),
        decreases 7 - j,
    {
        match l[j].checked_sub(&r[j]) {
            Some(x) => {
                out[j] = x;
            },
            None => {
                assert(l@[j as int].spec_checked_sub(r@[j as int]) is None);
                return None;
            },
        }
        j += 1;
    }
    assert(out@ =~= sub_rows(l@, r@).unwrap());
    Some(out)
}

/// The row of exponents with every entry multiplied by `s`.
fn scale_exponents_exec(l: &[Rational; 7], s: &Rational) -> (r: Option<[Rational; 7]>)
    ensures
        r matches Some(v) ==> scale_row(l@, *s) == Some(v@) && row_wf(v@),
        r is None ==> scale_row(l@, *s) is None,
{
    let zero = Rational::zero();
    let mut out: [Rational; 7] = [zero, zero, zero, zero, zero, zero, zero];
    let mut j: usize = 0;
    while j < 7
        invariant
            j <= 7,
            row_wf(out@),
            forall|k: int| 0 <= k < j ==> (#[trigger] l@[k]).spec_checked_mul(*s) == Some(out@[k]),
        decreases 7 - j,
    {
        match l[j].checked_mul(s) {
            Some(x) => {
                out[j] = x;
            },
            None => {
                assert(l@[j as int].spec_checked_mul(*s) is None);
                return None;
            },
        }
        j += 1;
    }
    assert(out@ =~= scale_row(l@, *s).unwrap());
    Some(out)
}

/// A copy of the array, with the invariant of each entry made known.
fn checked_copy(a: &[Rational; 7]) -> (r: [Rational; 7])
    ensures
        r@ == a@,
        row_wf(r@),
{
    let zero = Rational::zero();
    let mut out: [Rational; 7] = [zero, zero, zero, zero, zero, zero, zero];
    let mut j: usize = 0;
    while j < 7
        invariant
            j <= 7,
            row_wf(out@),
            forall|k: int| 0 <= k < j ==> (#[trigger] out@[k]) == a@[k],
        decreases 7 - j,
    {
        let x = a[j];
        proof {
            use_type_invariant(&x);
        }
        out[j] = x;
        j += 1;
    }
    assert(out@ =~= a@);
    out
}

impl Clone for Dimension {
    /// A copy of the tree.
    fn clone(&self) -> (r: Dimension)
        ensures
            r == *self,
        decreases self,
    {
        match self {
            Dimension::PowerLaw(a, b, c, d, e, f, g) => Dimension::PowerLaw(*a, *b, *c, *d, *e, *f, *g),
            Dimension::PowerLawIA(a) => Dimension::PowerLawIA(*a),
            Dimension::PowerLawR(a, b, c, d, e, f, g) => Dimension::PowerLawR(
                *a,
                *b,
                *c,
                *d,
                *e,
                *f,
                *g,
            ),
            Dimension::PowerLawRA(a) => Dimension::PowerLawRA(*a),
            Dimension::Product { left, right } => Dimension::Product {
                left: Box::new((**left).clone()),
                right: Box::new((**right).clone()),
            },
            Dimension::Division { left, right } => Dimension::Division {
                left: Box::new((**left).clone()),
                right: Box::new((**right).clone()),
            },
            Dimension::PowerI { original, power } => Dimension::PowerI {
                original: Box::new((**original).clone()),
                power: *power,
            },
            Dimension::PowerR { original, power } => Dimension::PowerR {
                original: Box::new((**original).clone()),
                power: *power,
            },
        }
    }
}

impl Dimension {
    /// Every rational in the tree satisfies the invariant of its type.
    pub open spec fn wf(self) -> bool
        decreases self,
    {
        match self {
            Dimension::PowerLaw(..) => true,
            Dimension::PowerLawIA(_) => true,
            Dimension::PowerLawR(a, b, c, d, e, f, g) => row_wf(seq![a, b, c, d, e, f, g]),
            Dimension::PowerLawRA(a) => row_wf(a@),
            Dimension::Product { left, right } => left.wf() && right.wf(),
            Dimension::Division { left, right } => left.wf() && right.wf(),
            Dimension::PowerI { original, power } => original.wf(),
            Dimension::PowerR { original, power } => original.wf() && power.wf(),
        }
    }

    /// The exponent of base dimension `i` as a number: the mathematical
    /// meaning of the tree.
    pub open spec fn exponent(self, i: int) -> real
        decreases self,
    {
        match self {
            Dimension::PowerLaw(a, b, c, d, e, f, g) => seq![a, b, c, d, e, f, g][i] as real,
            Dimension::PowerLawIA(a) => a@[i] as real,
            Dimension::PowerLawR(a, b, c, d, e, f, g) => seq![a, b, c, d, e, f, g][i].value(),
            Dimension::PowerLawRA(a) => a@[i].value(),
            Dimension::Product { left, right } => left.exponent(i) + right.exponent(i),
            Dimension::Division { left, right } => left.exponent(i) - right.exponent(i),
            Dimension::PowerI { original, power } => times(original.exponent(i), power as real),
            Dimension::PowerR { original, power } => times(original.exponent(i), power.value()),
        }
    }

    /// The seven exponents as rationals in lowest terms, or `None` where one
    /// of them, or a value on the way to it, does not fit the rational type.
    pub open spec fn flatten(self) -> Option<Seq<Rational>>
        decreases self,
    {
        match self {
            Dimension::PowerLaw(a, b, c, d, e, f, g) => integer_row(seq![a, b, c, d, e, f, g]),
            Dimension::PowerLawIA(a) => integer_row(a@),
            Dimension::PowerLawR(a, b, c, d, e, f, g) => Some(seq![a, b, c, d, e, f, g]),
            Dimension::PowerLawRA(a) => Some(a@),
            Dimension::Product { left, right } => match (left.flatten(), right.flatten()) {
                (Some(l), Some(r)) => add_rows(l, r),
                _ => None,
            },
            Dimension::Division { left, right } => match (left.flatten(), right.flatten()) {
                (Some(l), Some(r)) => sub_rows(l, r),
                _ => None,
            },
            Dimension::PowerI { original, power } => match original.flatten() {
                Some(l) => if power > i32::MIN {
                    scale_row(l, Rational::spec_from_integer(power))
                } else {
                    None
                },
                None => None,
            },
            Dimension::PowerR { original, power } => match original.flatten() {
                Some(l) => scale_row(l, power),
                None => None,
            },
        }
    }

    /// The seven exponents of the dimension, in lowest terms.
    ///
    /// Fails with `Overflow` exactly where [`Dimension::flatten`] is `None`.
    pub fn get_exponents(&self) -> (r: Result<[Rational; 7], DimensionError>)
        ensures
            match self.flatten() {
                Some(v) => r is Ok && r->Ok_0@ == v,
                None => r is Err && r->Err_0 == DimensionError::Overflow,
            },
            r matches Ok(v) ==> row_wf(v@) && forall|i: int|
                0 <= i < 7 ==> (#[trigger] v@[i]).value() == self.exponent(i),
        decreases self,
    {
        match self {
            Dimension::PowerLaw(a, b, c, d, e, f, g) => {
                let ints: [i32; 7] = [*a, *b, *c, *d, *e, *f, *g];
                assert(ints@ =~= seq![*a, *b, *c, *d, *e, *f, *g]);
                match integer_row_exec(&ints) {
                    Some(v) => {
                        proof {
                            assert forall|i: int| 0 <= i < 7 implies (#[trigger] v@[i]).value()
                                == self.exponent(i) by {
                                Rational::lemma_from_integer(ints@[i]);
                            }
                        }
                        Ok(v)
                    },
                    None => Err(DimensionError::Overflow),
                }
            },
            Dimension::PowerLawIA(ints) => {
                match integer_row_exec(ints) {
                    Some(v) => {
                        proof {
                            assert forall|i: int| 0 <= i < 7 implies (#[trigger] v@[i]).value()
                                == self.exponent(i) by {
                                Rational::lemma_from_integer(ints@[i]);
                            }
                        }
                        Ok(v)
                    },
                    None => Err(DimensionError::Overflow),
                }
            },
            Dimension::PowerLawR(a, b, c, d, e, f, g) => {
                let v: [Rational; 7] = [*a, *b, *c, *d, *e, *f, *g];
                assert(v@ =~= seq![*a, *b, *c, *d, *e, *f, *g]);
                Ok(checked_copy(&v))
            },
            Dimension::PowerLawRA(v) => Ok(checked_copy(v)),
            Dimension::Product { left, right } => {
                let l = match left.get_exponents() {
                    Ok(l) => l,
                    Err(_) => {
                        return Err(DimensionError::Overflow);
                    },
                };
                let r = match right.get_exponents() {
                    Ok(r) => r,
                    Err(_) => {
                        return Err(DimensionError::Overflow);
                    },
                };
                match add_rows_exec(&l, &r) {
                    Some(v) => {
                        proof {
                            assert forall|i: int| 0 <= i < 7 implies (#[trigger] v@[i]).value()
                                == self.exponent(i) by {
                                l@[i].lemma_checked_add(r@[i]);
                            }
                        }
                        Ok(v)
                    },
                    None => Err(DimensionError::Overflow),
                }
            },
            Dimension::Division { left, right } => {
                let l = match left.get_exponents() {
                    Ok(l) => l,
                    Err(_) => {
                        return Err(DimensionError::Overflow);
                    },
                };
                let r = match right.get_exponents() {
                    Ok(r) => r,
                    Err(_) => {
                        return Err(DimensionError::Overflow);
                    },
                };
                match sub_rows_exec(&l, &r) {
                    Some(v) => {
                        proof {
                            assert forall|i: int| 0 <= i < 7 implies (#[trigger] v@[i]).value()
                                == self.exponent(i) by {
                                l@[i].lemma_checked_sub(r@[i]);
                            }
                        }
                        Ok(v)
                    },
                    None => Err(DimensionError::Overflow),
                }
            },
            Dimension::PowerI { original, power } => {
                let l = match original.get_exponents() {
                    Ok(l) => l,
                    Err(_) => {
                        return Err(DimensionError::Overflow);
                    },
                };
                if *power == i32::MIN {
                    return Err(DimensionError::Overflow);
                }
                let s = Rational::from_integer(*power);
                match scale_exponents_exec(&l, &s) {
                    Some(v) => {
                        proof {
                            assert forall|i: int| 0 <= i < 7 implies (#[trigger] v@[i]).value()
                                == self.exponent(i) by {
                                l@[i].lemma_checked_mul(s);
                            }
                        }
                        Ok(v)
                    },
                    None => Err(DimensionError::Overflow),
                }
            },
            Dimension::PowerR { original, power } => {
                let l = match original.get_exponents() {
                    Ok(l) => l,
                    Err(_) => {
                        return Err(DimensionError::Overflow);
                    },
                };
                proof {
                    use_type_invariant(power);
                }
                match scale_exponents_exec(&l, power) {
                    Some(v) => {
                        proof {
                            assert forall|i: int| 0 <= i < 7 implies (#[trigger] v@[i]).value()
                                == self.exponent(i) by {
                                l@[i].lemma_checked_mul(*power);
                            }
                        }
                        Ok(v)
                    },
                    None => Err(DimensionError::Overflow),
                }
            },
        }
    }

    /// What [`Dimension::equals`] returns.
    pub open spec fn spec_equals(self, other: Dimension) -> Result<bool, DimensionError> {
        match (self.flatten(), other.flatten()) {
            (Some(a), Some(b)) => Ok(same_values(a, b)),
            _ => Err(DimensionError::Overflow),
        }
    }

    /// Whether the two dimensions have the same seven exponents, whatever
    /// the shapes of their trees.
    pub fn equals(&self, other: &Dimension) -> (r: Result<bool, DimensionError>)
        ensures
            r == self.spec_equals(*other),
            r matches Ok(b) ==> b == (forall|i: int|
                0 <= i < 7 ==> self.exponent(i) == other.exponent(i)),
    {
        let a = match self.get_exponents() {
            Ok(a) => a,
            Err(_) => {
                return Err(DimensionError::Overflow);
            },
        };
        let b = match other.get_exponents() {
            Ok(b) => b,
            Err(_) => {
                return Err(DimensionError::Overflow);
            },
        };
        let mut same = true;
        let mut j: usize = 0;
        while j < 7
            invariant
                j <= 7,
                same == (forall|k: int| 0 <= k < j ==> (#[trigger] a@[k]).value() == b@[k].value()),
            decreases 7 - j,
        {
            if !a[j].equals(&b[j]) {
                same = false;
            }
            j += 1;
        }
        proof {
            if same {
                assert forall|i: int| 0 <= i < 7 implies self.exponent(i) == other.exponent(i) by {
                    assert(a@[i].value() == b@[i].value());
                }
            } else {
                let k = choose|k: int| 0 <= k < 7 && (#[trigger] a@[k]).value() != b@[k].value();
                assert(self.exponent(k) != other.exponent(k));
            }
        }
        Ok(same)
    }

    /// What [`Dimension::is_zero`] returns.
    pub open spec fn spec_is_zero(self) -> Result<bool, DimensionError> {
        match self.flatten() {
            Some(v) => Ok(all_zero(v)),
            None => Err(DimensionError::Overflow),
        }
    }

    /// Whether all seven exponents are zero.
    pub fn is_zero(&self) -> (r: Result<bool, DimensionError>)
        ensures
            r == self.spec_is_zero(),
            r matches Ok(b) ==> b == (forall|i: int| 0 <= i < 7 ==> self.exponent(i) == 0 as real),
    {
        let a = match self.get_exponents() {
            Ok(a) => a,
            Err(_) => {
                return Err(DimensionError::Overflow);
            },
        };
        let mut zero = true;
        let mut j: usize = 0;
        while j < 7
            invariant
                j <= 7,
                zero == (forall|k: int| 0 <= k < j ==> (#[trigger] a@[k]).value() == 0 as real),
            decreases 7 - j,
        {
            if !a[j].is_zero() {
                zero = false;
            }
            j += 1;
        }
        proof {
            if zero {
                assert forall|i: int| 0 <= i < 7 implies self.exponent(i) == 0 as real by {
                    assert(a@[i].value() == 0 as real);
                }
            } else {
                let k = choose|k: int| 0 <= k < 7 && (#[trigger] a@[k]).value() != 0 as real;
                assert(self.exponent(k) != 0 as real);
            }
        }
        Ok(zero)
    }

    /// Whether the dimension is that of a pure number: all seven exponents
    /// are zero.
    pub fn is_dimensionless(&self) -> (r: Result<bool, DimensionError>)
        ensures
            r == self.spec_is_zero(),
            r matches Ok(b) ==> b == (forall|i: int| 0 <= i < 7 ==> self.exponent(i) == 0 as real),
    {
        self.is_zero()
    }

    /// What [`Dimension::get_exponent`] returns.
    pub open spec fn spec_get_exponent(self, index: usize) -> Result<Rational, DimensionError> {
        if index >= 7 {
            Err(DimensionError::IndexOutOfRange { index })
        } else {
            match self.flatten() {
                Some(v) => Ok(v[index as int]),
                None => Err(DimensionError::Overflow),
            }
        }
    }

    /// The exponent of base dimension `index`.
    pub fn get_exponent(&self, index: usize) -> (r: Result<Rational, DimensionError>)
        ensures
            r == self.spec_get_exponent(index),
            r matches Ok(e) ==> e.wf() && e.value() == self.exponent(index as int),
    {
        if index >= 7 {
            return Err(DimensionError::IndexOutOfRange { index });
        }
        match self.get_exponents() {
            Ok(v) => Ok(v[index]),
            Err(_) => Err(DimensionError::Overflow),
        }
    }

    /// The dimension with the exponent of base dimension `index` replaced:
    /// the rational exponents of `self` with `exponent` at `index`.
    pub fn with_exponent(self, index: usize, exponent: Rational) -> (r: Result<
        Dimension,
        DimensionError,
    >)
        ensures
            index >= 7 ==> r is Err && r->Err_0 == (DimensionError::IndexOutOfRange { index }),
            index < 7 && self.flatten() is None ==> r is Err && r->Err_0 == DimensionError::Overflow,
            index < 7 && self.flatten() is Some ==> r is Ok && r->Ok_0 is PowerLawRA
                && r->Ok_0->PowerLawRA_0@ == self.flatten().unwrap().update(index as int, exponent),
            r matches Ok(d) ==> d.wf() && forall|i: int|
                0 <= i < 7 ==> d.exponent(i) == (if i == index {
                    exponent.value()
                } else {
                    self.exponent(i)
                }),
    {
        if index >= 7 {
            return Err(DimensionError::IndexOutOfRange { index });
        }
        match self.get_exponents() {
            Ok(v) => {
                let mut w = v;
                proof {
                    use_type_invariant(&exponent);
                }
                w[index] = exponent;
                Ok(Dimension::PowerLawRA(w))
            },
            Err(_) => Err(DimensionError::Overflow),
        }
    }

    /// What [`Dimension::pow`] returns.
    pub open spec fn spec_pow(self, power: Rational) -> Result<Dimension, DimensionError> {
        match self.spec_standard_form() {
            Ok(c) => Ok(Dimension::PowerR { original: Box::new(c), power }),
            Err(e) => Err(e),
        }
    }

    /// The dimension raised to a rational power: a power node over the
    /// standard form of `self`, which must exist.
    pub fn pow(self, power: Rational) -> (r: Result<Dimension, DimensionError>)
        ensures
            r == self.spec_pow(power),
            r matches Ok(d) ==> d.wf() && forall|i: int|
                0 <= i < 7 ==> d.exponent(i) == times(self.exponent(i), power.value()),
    {
        proof {
            use_type_invariant(&power);
        }
        match self.standard_form() {
            Ok(c) => Ok(Dimension::PowerR { original: Box::new(c), power }),
            Err(e) => Err(e),
        }
    }

    /// What [`Dimension::powi`] returns.
    pub open spec fn spec_powi(self, power: i32) -> Result<Dimension, DimensionError> {
        if power > i32::MIN {
            self.spec_pow(Rational::spec_from_integer(power))
        } else {
            Err(DimensionError::Overflow)
        }
    }

    /// The dimension raised to an integer power.
    pub fn powi(self, power: i32) -> (r: Result<Dimension, DimensionError>)
        ensures
            r == self.spec_powi(power),
            r matches Ok(d) ==> d.wf() && forall|i: int|
                0 <= i < 7 ==> d.exponent(i) == times(self.exponent(i), power as real),
    {
        if power == i32::MIN {
            return Err(DimensionError::Overflow);
        }
        self.pow(Rational::from_integer(power))
    }

    /// The reciprocal: the power `-1`.
    pub fn reciprocal(self) -> (r: Result<Dimension, DimensionError>)
        ensures
            r == self.spec_powi(-1i32),
            r matches Ok(d) ==> d.wf() && forall|i: int|
                0 <= i < 7 ==> d.exponent(i) == -self.exponent(i),
    {
        let ghost me = self;
        let r = self.pow(Rational::from_integer(-1));
        proof {
            if r is Ok {
                let d = r->Ok_0;
                assert forall|i: int| 0 <= i < 7 implies d.exponent(i) == -me.exponent(i) by {
                    lemma_times_minus_one(me.exponent(i));
                }
            }
        }
        r
    }

    /// The square: the power `2`.
    pub fn square(self) -> (r: Result<Dimension, DimensionError>)
        ensures
            r == self.spec_powi(2i32),
            r matches Ok(d) ==> d.wf() && forall|i: int|
                0 <= i < 7 ==> d.exponent(i) == self.exponent(i) + self.exponent(i),
    {
        let ghost me = self;
        let r = self.pow(Rational::from_integer(2));
        proof {
            if r is Ok {
                let d = r->Ok_0;
                assert forall|i: int| 0 <= i < 7 implies d.exponent(i) == me.exponent(i)
                    + me.exponent(i) by {
                    lemma_times_two(me.exponent(i));
                }
            }
        }
        r
    }

    /// The square root: the power `1/2`.
    pub fn sqrt(self) -> (r: Result<Dimension, DimensionError>)
        ensures
            r == self.spec_pow(Rational::spec_new(1, 2)),
            r matches Ok(d) ==> d.wf() && forall|i: int|
                0 <= i < 7 ==> d.exponent(i) == self.exponent(i) / (2 as real),
    {
        let ghost me = self;
        let half = Rational::new(1, 2);
        let r = self.pow(half);
        proof {
            if r is Ok {
                let d = r->Ok_0;
                assert forall|i: int| 0 <= i < 7 implies d.exponent(i) == me.exponent(i) / (
                2 as real) by {
                    lemma_times_reciprocal(me.exponent(i), 2 as real);
                    lemma_over_two(me.exponent(i));
                }
            }
        }
        r
    }

    /// The product of two dimensions.
    pub fn multiply(self, rhs: Dimension) -> (r: Dimension)
        ensures
            r == (Dimension::Product { left: Box::new(self), right: Box::new(rhs) }),
    {
        Dimension::Product { left: Box::new(self), right: Box::new(rhs) }
    }

    /// The quotient of two dimensions.
    pub fn divide(self, rhs: Dimension) -> (r: Dimension)
        ensures
            r == (Dimension::Division { left: Box::new(self), right: Box::new(rhs) }),
    {
        Dimension::Division { left: Box::new(self), right: Box::new(rhs) }
    }

    /// What [`Dimension::add`] and [`Dimension::subtract`] return.
    pub open spec fn spec_add(self, rhs: Dimension) -> Result<Dimension, DimensionError> {
        match self.spec_equals(rhs) {
            Ok(same) => if same {
                self.spec_standard_form()
            } else {
                Err(DimensionError::DimensionMismatch { left: self, right: rhs })
            },
            Err(e) => Err(e),
        }
    }

    /// The dimension of a sum: that of either operand in standard form,
    /// where the two are equal; else the mismatch with both operands.
    pub fn add(self, rhs: Dimension) -> (r: Result<Dimension, DimensionError>)
        ensures
            r == self.spec_add(rhs),
            r matches Ok(d) ==> d is PowerLaw && forall|i: int|
                0 <= i < 7 ==> d.exponent(i) == self.exponent(i) && d.exponent(i) == rhs.exponent(
                    i,
                ),
    {
        match self.equals(&rhs) {
            Ok(same) => if same {
                self.standard_form()
            } else {
                Err(DimensionError::DimensionMismatch { left: self, right: rhs })
            },
            Err(e) => Err(e),
        }
    }

    /// The dimension of a difference: as for a sum.
    pub fn subtract(self, rhs: Dimension) -> (r: Result<Dimension, DimensionError>)
        ensures
            r == self.spec_add(rhs),
            r matches Ok(d) ==> d is PowerLaw && forall|i: int|
                0 <= i < 7 ==> d.exponent(i) == self.exponent(i) && d.exponent(i) == rhs.exponent(
                    i,
                ),
    {
        match self.equals(&rhs) {
            Ok(same) => if same {
                self.standard_form()
            } else {
                Err(DimensionError::DimensionMismatch { left: self, right: rhs })
            },
            Err(e) => Err(e),
        }
    }

    /// The text form: for each base dimension with a nonzero exponent its
    /// label, followed by `^` and the exponent unless that is one; `-` for a
    /// dimensionless quantity.
    pub fn to_dimension_string(&self) -> (r: Result<String, DimensionError>)
        ensures
            match self.flatten() {
                Some(v) => r is Ok && r->Ok_0@ == dimension_text(v),
                None => r is Err && r->Err_0 == DimensionError::Overflow,
            },
    {
        let v = match self.get_exponents() {
            Ok(v) => v,
            Err(_) => {
                return Err(DimensionError::Overflow);
            },
        };
        let mut out = String::new();
        let mut any = false;
        let mut j: usize = 0;
        while j < 7
            invariant
                j <= 7,
                out@ == terms_text(v@, j as nat),
                any == (out@.len() > 0),
            decreases 7 - j,
        {
            let ghost before = out@;
            let e = v[j];
            if !e.is_zero() {
                push_char(&mut out, DIMENSIONAL_LABELS[j]);
                any = true;
                if !e.is_one() {
                    push_char(&mut out, '^');
                    let numerator = integer_text(e.numer());
                    out.append(numerator.as_str());
                    if !e.is_integer() {
                        push_char(&mut out, '/');
                        let denominator = integer_text(e.denom());
                        out.append(denominator.as_str());
                    }
                }
            }
            assert(out@ =~= before + term_text(v@[j as int], DIMENSIONAL_LABELS@[j as int]));
            j += 1;
        }
        if !any {
            push_char(&mut out, '-');
            assert(out@ =~= seq!['-']);
        }
        Ok(out)
    }

    /// Where the exponents fit the rational type there are seven of them,
    /// each well formed and each the mathematical exponent.
    pub proof fn lemma_flatten(self)
        requires
            self.wf(),
        ensures
            self.flatten() matches Some(v) ==> v.len() == 7 && row_wf(v) && forall|i: int|
                0 <= i < 7 ==> (#[trigger] v[i]).value() == self.exponent(i),
        decreases self,
    {
        match self {
            Dimension::PowerLaw(a, b, c, d, e, f, g) => {
                let ints = seq![a, b, c, d, e, f, g];
                if let Some(v) = self.flatten() {
                    assert forall|i: int| 0 <= i < 7 implies (#[trigger] v[i]).wf() && v[i].value()
                        == self.exponent(i) by {
                        Rational::lemma_from_integer(ints[i]);
                    }
                }
            },
            Dimension::PowerLawIA(a) => {
                if let Some(v) = self.flatten() {
                    assert forall|i: int| 0 <= i < 7 implies (#[trigger] v[i]).wf() && v[i].value()
                        == self.exponent(i) by {
                        Rational::lemma_from_integer(a@[i]);
                    }
                }
            },
            Dimension::PowerLawR(a, b, c, d, e, f, g) => {},
            Dimension::PowerLawRA(a) => {},
            Dimension::Product { left, right } => {
                left.lemma_flatten();
                right.lemma_flatten();
                if let Some(v) = self.flatten() {
                    let l = left.flatten().unwrap();
                    let r = right.flatten().unwrap();
                    assert forall|i: int| 0 <= i < 7 implies (#[trigger] v[i]).wf() && v[i].value()
                        == self.exponent(i) by {
                        l[i].lemma_checked_add(r[i]);
                    }
                }
            },
            Dimension::Division { left, right } => {
                left.lemma_flatten();
                right.lemma_flatten();
                if let Some(v) = self.flatten() {
                    let l = left.flatten().unwrap();
                    let r = right.flatten().unwrap();
                    assert forall|i: int| 0 <= i < 7 implies (#[trigger] v[i]).wf() && v[i].value()
                        == self.exponent(i) by {
                        l[i].lemma_checked_sub(r[i]);
                    }
                }
            },
            Dimension::PowerI { original, power } => {
                original.lemma_flatten();
                if let Some(v) = self.flatten() {
                    let l = original.flatten().unwrap();
                    Rational::lemma_from_integer(power);
                    assert forall|i: int| 0 <= i < 7 implies (#[trigger] v[i]).wf() && v[i].value()
                        == self.exponent(i) by {
                        l[i].lemma_checked_mul(Rational::spec_from_integer(power));
                    }
                }
            },
            Dimension::PowerR { original, power } => {
                original.lemma_flatten();
                if let Some(v) = self.flatten() {
                    let l = original.flatten().unwrap();
                    assert forall|i: int| 0 <= i < 7 implies (#[trigger] v[i]).wf() && v[i].value()
                        == self.exponent(i) by {
                        l[i].lemma_checked_mul(power);
                    }
                }
            },
        }
    }
}

/// The literal of integer exponents whose exponents are the numerators of
/// `v`.
pub open spec fn literal(v: Seq<Rational>) -> Dimension {
    Dimension::PowerLaw(
        v[0].spec_numer() as i32,
        v[1].spec_numer() as i32,
        v[2].spec_numer() as i32,
        v[3].spec_numer() as i32,
        v[4].spec_numer() as i32,
        v[5].spec_numer() as i32,
        v[6].spec_numer() as i32,
    )
}

/// The literal of seven integer exponents has exactly those exponents.
pub proof fn lemma_literal(v: Seq<Rational>)
    requires
        v.len() == 7,
        row_wf(v),
        all_integers(v),
    ensures
        literal(v).flatten() == Some(v),
        forall|i: int| 0 <= i < 7 ==> literal(v).exponent(i) == (#[trigger] v[i]).value(),
{
    let ints = seq![
        v[0].spec_numer() as i32,
        v[1].spec_numer() as i32,
        v[2].spec_numer() as i32,
        v[3].spec_numer() as i32,
        v[4].spec_numer() as i32,
        v[5].spec_numer() as i32,
        v[6].spec_numer() as i32,
    ];
    assert forall|i: int| 0 <= i < 7 implies (#[trigger] ints[i]) > i32::MIN && v[i]
        == Rational::spec_from_integer(ints[i]) && literal(v).exponent(i) == v[i].value() by {
        v[i].lemma_integer_form();
        v[i].lemma_value();
    }
    assert(integer_row(ints).unwrap() =~= v);
}

/// The standard form of a dimension.
pub trait DimensionTrait {
    /// What [`DimensionTrait::standard_form`] returns.
    spec fn spec_standard_form(&self) -> Result<Dimension, DimensionError>;

    /// The dimension as one literal of integer exponents.
    fn standard_form(&self) -> (r: Result<Dimension, DimensionError>)
        ensures
            r == self.spec_standard_form(),
    ;
}

impl DimensionTrait for Dimension {
    /// The literal of the seven integer exponents; `Overflow` where the
    /// exponents do not fit, `NotInStandardForm` where one is no integer.
    open spec fn spec_standard_form(&self) -> Result<Dimension, DimensionError> {
        match self.flatten() {
            Some(v) => if all_integers(v) {
                Ok(literal(v))
            } else {
                Err(DimensionError::NotInStandardForm)
            },
            None => Err(DimensionError::Overflow),
        }
    }

    fn standard_form(&self) -> (r: Result<Dimension, DimensionError>)
        ensures
            r matches Ok(c) ==> c is PowerLaw && c.wf() && c.flatten() == self.flatten()
                && forall|i: int| 0 <= i < 7 ==> c.exponent(i) == self.exponent(i),
    {
        let v = match self.get_exponents() {
            Ok(v) => v,
            Err(_) => {
                return Err(DimensionError::Overflow);
            },
        };
        let mut j: usize = 0;
        while j < 7
            invariant
                j <= 7,
                self.flatten() == Some(v@),
                forall|k: int| 0 <= k < j ==> (#[trigger] v@[k]).spec_denom() == 1,
            decreases 7 - j,
        {
            if !v[j].is_integer() {
                assert(v@[j as int].spec_denom() != 1);
                return Err(DimensionError::NotInStandardForm);
            }
            j += 1;
        }
        proof {
            lemma_literal(v@);
        }
        Ok(
            Dimension::PowerLaw(
                v[0].numer(),
                v[1].numer(),
                v[2].numer(),
                v[3].numer(),
                v[4].numer(),
                v[5].numer(),
                v[6].numer(),
            ),
        )
    }
}

} // verus!
