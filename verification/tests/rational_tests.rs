use metrology4rs::rational::Rational;

#[test]
fn new_reduces_to_lowest_terms() {
    let r = Rational::new(2, 4);
    assert_eq!(r.numer(), 1);
    assert_eq!(r.denom(), 2);
    let s = Rational::new(3, -6);
    assert_eq!(s.numer(), -1);
    assert_eq!(s.denom(), 2);
    let z = Rational::new(0, -5);
    assert_eq!(z.numer(), 0);
    assert_eq!(z.denom(), 1);
    assert_eq!(Rational::new(-7, -7), Rational::one());
    assert_eq!(Rational::new(10, 4), Rational::new(5, 2));
}

#[test]
fn integers_have_denominator_one() {
    let r = Rational::from_integer(-12);
    assert_eq!(r.numer(), -12);
    assert_eq!(r.denom(), 1);
    assert!(r.is_integer());
    assert!(!Rational::new(1, 2).is_integer());
    assert!(Rational::zero().is_zero());
    assert!(!Rational::one().is_zero());
    assert!(Rational::one().is_one());
    assert!(!Rational::new(2, 3).is_one());
    assert_eq!(Rational::zero(), Rational::from_integer(0));
}

#[test]
fn checked_sum() {
    let a = Rational::new(1, 2);
    let b = Rational::new(1, 3);
    assert_eq!(a.checked_add(&b), Some(Rational::new(5, 6)));
    assert_eq!(a.checked_add(&a), Some(Rational::one()));
    assert_eq!(
        Rational::from_integer(i32::MAX).checked_add(&Rational::one()),
        None
    );
    assert_eq!(
        Rational::from_integer(-i32::MAX).checked_add(&Rational::from_integer(-1)),
        None
    );
    assert_eq!(
        Rational::new(1, 65536).checked_add(&Rational::new(1, 65537)),
        None
    );
}

#[test]
fn checked_difference() {
    let a = Rational::new(1, 2);
    let b = Rational::new(1, 3);
    assert_eq!(a.checked_sub(&b), Some(Rational::new(1, 6)));
    assert_eq!(b.checked_sub(&a), Some(Rational::new(-1, 6)));
    assert_eq!(a.checked_sub(&a), Some(Rational::zero()));
    assert_eq!(
        Rational::from_integer(-i32::MAX).checked_sub(&Rational::from_integer(2)),
        None
    );
}

#[test]
fn checked_product() {
    let a = Rational::new(2, 3);
    let b = Rational::new(-3, 4);
    assert_eq!(a.checked_mul(&b), Some(Rational::new(-1, 2)));
    assert_eq!(a.checked_mul(&Rational::zero()), Some(Rational::zero()));
    assert_eq!(
        Rational::from_integer(65536).checked_mul(&Rational::from_integer(65536)),
        None
    );
    assert_eq!(
        Rational::from_integer(-65536).checked_mul(&Rational::from_integer(32768)),
        None
    );
}

#[test]
fn checked_quotient() {
    let a = Rational::new(2, 3);
    let b = Rational::new(-3, 4);
    assert_eq!(a.checked_div(&b), Some(Rational::new(-8, 9)));
    assert_eq!(Rational::one().checked_div(&Rational::from_integer(-2)), Some(Rational::new(-1, 2)));
    assert_eq!(a.checked_div(&Rational::zero()), None);
    assert_eq!(
        Rational::from_integer(65536).checked_div(&Rational::new(1, 65536)),
        None
    );
}

#[test]
fn negation_and_absolute_value() {
    let a = Rational::new(-2, 3);
    assert_eq!(a.neg(), Rational::new(2, 3));
    assert_eq!(a.neg().neg(), a);
    assert_eq!(a.abs(), Rational::new(2, 3));
    assert_eq!(Rational::new(2, 3).abs(), Rational::new(2, 3));
    assert_eq!(Rational::zero().neg(), Rational::zero());
    assert_eq!(Rational::from_integer(i32::MAX).neg().numer(), -i32::MAX);
}

#[test]
fn comparison_by_value() {
    let a = Rational::new(1, 3);
    let b = Rational::new(1, 2);
    assert!(a.less_than(&b));
    assert!(!b.less_than(&a));
    assert!(!a.less_than(&a));
    assert!(Rational::new(-1, 2).less_than(&Rational::new(-1, 3)));
    assert!(a.equals(&Rational::new(2, 6)));
    assert!(!a.equals(&b));
    assert!(Rational::new(i32::MAX, 2).less_than(&Rational::from_integer(i32::MAX)));
}

#[test]
fn text_of_rationals() {
    assert_eq!(Rational::new(1, 2).to_text(), "1/2");
    assert_eq!(Rational::new(-3, 4).to_text(), "-3/4");
    assert_eq!(Rational::from_integer(200).to_text(), "200");
    assert_eq!(Rational::from_integer(-7).to_text(), "-7");
    assert_eq!(Rational::zero().to_text(), "0");
    assert_eq!(Rational::new(-i32::MAX, i32::MAX - 1).to_text(), "-2147483647/2147483646");
}
