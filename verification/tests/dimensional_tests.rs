use metrology4rs::constants::{
    acceleration, amount_of_substance, area, dimensionless, electric_current, energy, force,
    length, luminous_intensity, mass, power, pressure, temperature, time, velocity, volume,
};
use metrology4rs::dimensional::{Dimension, DimensionError, DimensionTrait};
use metrology4rs::rational::Rational;

fn whole(n: i32) -> Rational {
    Rational::from_integer(n)
}

fn text(d: Dimension) -> String {
    d.to_dimension_string().unwrap()
}

// =============================================
// Basic Dimension Construction Tests
// =============================================

#[test]
fn test_basic_dimension_construction() {
    // Test PowerLaw construction
    let d = Dimension::PowerLaw(1, 2, 3, 4, 5, 6, 7);
    match d {
        Dimension::PowerLaw(a, b, c, d, e, f, g) => {
            assert_eq!(a, 1);
            assert_eq!(b, 2);
            assert_eq!(c, 3);
            assert_eq!(d, 4);
            assert_eq!(e, 5);
            assert_eq!(f, 6);
            assert_eq!(g, 7);
        }
        _ => panic!("Invalid dimension"),
    }

    // Test PowerLawIA construction
    let d = Dimension::PowerLawIA([1, 2, 3, 4, 5, 6, 7]);
    match d {
        Dimension::PowerLawIA(a) => {
            assert_eq!(a, [1, 2, 3, 4, 5, 6, 7]);
        }
        _ => panic!("Invalid dimension"),
    }

    // Test PowerLawR construction
    let d = Dimension::PowerLawR(whole(1), whole(2), whole(3), whole(4), whole(5), whole(6), whole(7));
    match d {
        Dimension::PowerLawR(a, _b, _c, _d, _e, _f, _g) => {
            assert_eq!(a, whole(1));
        }
        _ => panic!("Invalid dimension"),
    }
}

// =============================================
// Dimension Display and Formatting Tests
// =============================================

#[test]
fn test_dimension_display() {
    // Test basic dimensions
    assert_eq!(text(length()), "L");
    assert_eq!(text(mass()), "M");
    assert_eq!(text(time()), "T");
    assert_eq!(text(electric_current()), "I");
    assert_eq!(text(temperature()), "Θ");
    assert_eq!(text(amount_of_substance()), "N");
    assert_eq!(text(luminous_intensity()), "J");

    // Test derived dimensions
    assert_eq!(text(area()), "L^2");
    assert_eq!(text(volume()), "L^3");
    assert_eq!(text(velocity()), "LT^-1");
    assert_eq!(text(acceleration()), "LT^-2");
    assert_eq!(text(force()), "LMT^-2");
    assert_eq!(text(energy()), "L^2MT^-2");
    assert_eq!(text(power()), "L^2MT^-3");
}

// =============================================
// Dimension Operations Tests
// =============================================

#[test]
fn test_dimension_operations() {
    // Test multiplication
    let product = mass().multiply(acceleration());
    assert!(product.equals(&force()).unwrap());

    // Test division
    let quotient = force().divide(area());
    assert!(quotient.equals(&pressure()).unwrap());

    // Test power operations
    let length_squared = length().powi(2).unwrap();
    assert_eq!(length_squared.get_exponent(0).unwrap(), whole(2));

    let length_sqrt = length().sqrt().unwrap();
    assert_eq!(length_sqrt.get_exponent(0).unwrap(), Rational::new(1, 2));

    // Test reciprocal
    let force_reciprocal = force().reciprocal().unwrap();
    assert_eq!(force_reciprocal.get_exponent(0).unwrap(), whole(-1));
    assert_eq!(force_reciprocal.get_exponent(1).unwrap(), whole(-1));
    assert_eq!(force_reciprocal.get_exponent(2).unwrap(), whole(2));
}

// =============================================
// Dimension Comparison Tests
// =============================================

#[test]
fn test_dimension_comparison() {
    let dim1 = Dimension::PowerLaw(1, 2, 3, 4, 5, 6, 7);
    let dim2 = Dimension::PowerLaw(1, 2, 3, 4, 5, 6, 7);
    let dim3 = Dimension::PowerLaw(1, 2, 3, 4, 5, 6, 8);
    let at = |d: &Dimension, i: usize| d.get_exponent(i).unwrap();

    // Test equality
    assert!(at(&dim1, 0) == at(&dim2, 0));
    assert!(at(&dim1, 1) == at(&dim2, 1));
    assert!(at(&dim1, 2) == at(&dim2, 2));
    assert!(at(&dim1, 3) == at(&dim2, 3));
    assert!(at(&dim1, 4) == at(&dim2, 4));
    assert!(at(&dim1, 5) == at(&dim2, 5));
    assert!(at(&dim1, 6) == at(&dim2, 6));

    // Test inequality
    assert!(
        at(&dim1, 0) != at(&dim3, 0)
            || at(&dim1, 1) != at(&dim3, 1)
            || at(&dim1, 2) != at(&dim3, 2)
            || at(&dim1, 3) != at(&dim3, 3)
            || at(&dim1, 4) != at(&dim3, 4)
            || at(&dim1, 5) != at(&dim3, 5)
            || at(&dim1, 6) != at(&dim3, 6)
    );
}

// =============================================
// Special Cases Tests
// =============================================

#[test]
fn test_special_cases() {
    // Test dimensionless
    assert!(dimensionless().is_dimensionless().unwrap());
    assert!(dimensionless().is_zero().unwrap());

    // Test zero dimension
    let d = Dimension::PowerLaw(0, 0, 0, 0, 0, 0, 0);
    assert_eq!(d.to_dimension_string().unwrap(), "-");
    assert_eq!(d.get_exponent(0).unwrap(), whole(0));
    assert_eq!(d.get_exponent(1).unwrap(), whole(0));
    assert_eq!(d.get_exponent(2).unwrap(), whole(0));

    // Test negative exponents
    let d = Dimension::PowerLaw(-1, -2, -3, -4, -5, -6, -7);
    assert_eq!(d.to_dimension_string().unwrap(), "L^-1M^-2T^-3I^-4Θ^-5N^-6J^-7");
    assert_eq!(d.get_exponent(0).unwrap(), whole(-1));
    assert_eq!(d.get_exponent(1).unwrap(), whole(-2));
    assert_eq!(d.get_exponent(2).unwrap(), whole(-3));
}

// =============================================
// Error Cases Tests
// =============================================

#[test]
#[should_panic(expected = "DimensionMismatch")]
fn test_add_different_dimensions() {
    let _ = length().add(mass()).unwrap();
}

#[test]
#[should_panic(expected = "DimensionMismatch")]
fn test_sub_different_dimensions() {
    let _ = length().subtract(mass()).unwrap();
}

#[test]
#[should_panic(expected = "NotInStandardForm")]
fn test_standard_form_panic() {
    let d = Dimension::PowerR {
        original: Box::new(length()),
        power: Rational::new(1, 2),
    };
    d.standard_form().unwrap();
}

// =============================================
// Index Access Tests
// =============================================

#[test]
fn test_dimension_index_access() {
    // Test basic dimension indices
    assert_eq!(length().get_exponent(0).unwrap(), whole(1));
    assert_eq!(length().get_exponent(1).unwrap(), whole(0));
    assert_eq!(length().get_exponent(2).unwrap(), whole(0));

    assert_eq!(mass().get_exponent(0).unwrap(), whole(0));
    assert_eq!(mass().get_exponent(1).unwrap(), whole(1));
    assert_eq!(mass().get_exponent(2).unwrap(), whole(0));

    assert_eq!(time().get_exponent(0).unwrap(), whole(0));
    assert_eq!(time().get_exponent(1).unwrap(), whole(0));
    assert_eq!(time().get_exponent(2).unwrap(), whole(1));
}

#[test]
#[should_panic(expected = "IndexOutOfRange")]
fn test_index_out_of_scope() {
    _ = length().get_exponent(7).unwrap();
}

// =============================================
// Exponent Manipulation Tests
// =============================================

#[test]
fn test_exponent_manipulation() {
    // Test setting exponents
    let d = length().with_exponent(0, whole(2)).unwrap();
    assert_eq!(d.get_exponent(0).unwrap(), whole(2));
    assert_eq!(d.get_exponent(1).unwrap(), whole(0));

    // Test rational exponents
    let d = length().with_exponent(0, Rational::new(1, 2)).unwrap();
    assert_eq!(d.get_exponent(0).unwrap(), Rational::new(1, 2));
}

// =============================================
// Errors as values
// =============================================

#[test]
fn add_of_equal_dimensions_gives_the_standard_form() {
    let sum = mass().multiply(acceleration()).add(force()).unwrap();
    assert!(matches!(sum, Dimension::PowerLaw(1, 1, -2, 0, 0, 0, 0)));
    let difference = force().subtract(mass().multiply(acceleration())).unwrap();
    assert!(matches!(difference, Dimension::PowerLaw(1, 1, -2, 0, 0, 0, 0)));
}

#[test]
fn add_of_different_dimensions_names_both_operands() {
    match length().add(mass()) {
        Err(DimensionError::DimensionMismatch { left, right }) => {
            assert!(matches!(left, Dimension::PowerLaw(1, 0, 0, 0, 0, 0, 0)));
            assert!(matches!(right, Dimension::PowerLaw(0, 1, 0, 0, 0, 0, 0)));
        }
        other => panic!("expected a mismatch, got {:?}", other),
    }
    assert!(matches!(
        length().subtract(time()),
        Err(DimensionError::DimensionMismatch { .. })
    ));
}

#[test]
fn fractional_exponents_have_no_standard_form() {
    let root = length().sqrt().unwrap();
    assert!(matches!(root.standard_form(), Err(DimensionError::NotInStandardForm)));
    assert!(matches!(root.pow(whole(2)), Err(DimensionError::NotInStandardForm)));
    let area_root = area().sqrt().unwrap();
    assert!(matches!(area_root.standard_form(), Ok(Dimension::PowerLaw(1, 0, 0, 0, 0, 0, 0))));
}

#[test]
fn index_seven_is_out_of_range() {
    assert!(matches!(
        length().get_exponent(7),
        Err(DimensionError::IndexOutOfRange { index: 7 })
    ));
    assert!(matches!(
        length().with_exponent(9, whole(1)),
        Err(DimensionError::IndexOutOfRange { index: 9 })
    ));
    assert_eq!(length().get_exponent(6).unwrap(), whole(0));
}

#[test]
fn exponents_beyond_the_range_are_an_overflow() {
    let big = Dimension::PowerLaw(i32::MAX, 0, 0, 0, 0, 0, 0);
    let sum = big.clone().multiply(length());
    assert!(matches!(sum.get_exponents(), Err(DimensionError::Overflow)));
    assert!(matches!(sum.equals(&length()), Err(DimensionError::Overflow)));
    assert!(matches!(sum.is_zero(), Err(DimensionError::Overflow)));
    assert!(matches!(sum.to_dimension_string(), Err(DimensionError::Overflow)));
    assert!(matches!(sum.standard_form(), Err(DimensionError::Overflow)));
    let least = Dimension::PowerLaw(i32::MIN, 0, 0, 0, 0, 0, 0);
    assert!(matches!(least.get_exponents(), Err(DimensionError::Overflow)));
    assert!(matches!(length().powi(i32::MIN), Err(DimensionError::Overflow)));
    let difference = big.divide(Dimension::PowerLaw(-1, 0, 0, 0, 0, 0, 0));
    assert!(matches!(difference.get_exponents(), Err(DimensionError::Overflow)));
    let power = Dimension::PowerI {
        original: Box::new(Dimension::PowerLaw(65536, 0, 0, 0, 0, 0, 0)),
        power: 65536,
    };
    assert!(matches!(power.get_exponents(), Err(DimensionError::Overflow)));
}

// =============================================
// The algebra of exponents
// =============================================

fn exponents(d: &Dimension) -> Vec<Rational> {
    d.get_exponents().unwrap().to_vec()
}

#[test]
fn products_flatten_alike_whatever_their_grouping() {
    let a = force();
    let b = Dimension::PowerLawR(
        Rational::new(1, 2),
        whole(0),
        Rational::new(-3, 4),
        whole(0),
        whole(2),
        whole(0),
        whole(0),
    );
    let c = velocity().powi(-2).unwrap();
    let left = a.clone().multiply(b.clone()).multiply(c.clone());
    let right = a.clone().multiply(b.clone().multiply(c.clone()));
    let swapped = b.multiply(a.multiply(c));
    assert_eq!(exponents(&left), exponents(&right));
    assert_eq!(exponents(&left), exponents(&swapped));
    assert_eq!(
        exponents(&left),
        vec![
            Rational::new(-1, 2),
            whole(1),
            Rational::new(-3, 4),
            whole(0),
            whole(2),
            whole(0),
            whole(0)
        ]
    );
}

#[test]
fn a_dimension_times_its_reciprocal_is_dimensionless() {
    for d in [force(), power(), pressure(), dimensionless(), Dimension::PowerLawIA([3, -1, 4, -1, 5, -9, 2])] {
        let one = d.clone().multiply(d.reciprocal().unwrap());
        assert!(one.is_dimensionless().unwrap());
        assert_eq!(exponents(&one), vec![whole(0); 7]);
        assert_eq!(one.to_dimension_string().unwrap(), "-");
    }
}

#[test]
fn a_power_of_a_power_is_the_power_of_the_product() {
    let r = Rational::new(3, 2);
    let s = whole(4);
    let rs = r.checked_mul(&s).unwrap();
    let twice = area().pow(r).unwrap().pow(s).unwrap();
    let once = area().pow(rs).unwrap();
    assert_eq!(exponents(&twice), exponents(&once));
    assert_eq!(exponents(&once)[0], whole(12));
    assert!(twice.equals(&once).unwrap());
}

#[test]
fn standard_form_round_trip() {
    let d = Dimension::PowerLaw(1, -2, 3, -4, 5, -6, 7);
    let c = d.standard_form().unwrap();
    assert!(matches!(c, Dimension::PowerLaw(1, -2, 3, -4, 5, -6, 7)));
    assert!(c.equals(&d).unwrap());
    let e = Dimension::PowerLawIA([1, -2, 3, -4, 5, -6, 7]);
    assert!(matches!(e.standard_form(), Ok(Dimension::PowerLaw(1, -2, 3, -4, 5, -6, 7))));
    let f = Dimension::PowerLawRA([
        Rational::new(1, 2),
        whole(0),
        whole(0),
        whole(0),
        whole(0),
        whole(0),
        whole(0),
    ]);
    assert!(matches!(f.standard_form(), Err(DimensionError::NotInStandardForm)));
    let g = f.clone().multiply(f);
    assert!(matches!(g.standard_form(), Ok(Dimension::PowerLaw(1, 0, 0, 0, 0, 0, 0))));
}

#[test]
fn equality_ignores_the_shape_of_the_tree() {
    let literal = Dimension::PowerLaw(1, 1, 0, 0, 0, 0, 0);
    let product = Dimension::Product {
        left: Box::new(Dimension::PowerLaw(1, 0, 0, 0, 0, 0, 0)),
        right: Box::new(Dimension::PowerLaw(0, 1, 0, 0, 0, 0, 0)),
    };
    let quotient = force().divide(acceleration()).multiply(length());
    // reflexive
    assert!(literal.equals(&literal).unwrap());
    assert!(product.equals(&product).unwrap());
    // symmetric
    assert!(literal.equals(&product).unwrap());
    assert!(product.equals(&literal).unwrap());
    // transitive
    assert!(product.equals(&quotient).unwrap());
    assert!(literal.equals(&quotient).unwrap());
    // and it tells different dimensions apart
    assert!(!literal.equals(&force()).unwrap());
    assert!(!force().equals(&literal).unwrap());
}

#[test]
fn display_of_literals() {
    let d = Dimension::PowerLaw(1, 2, 3, 4, 5, 6, 7);
    assert_eq!(d.to_dimension_string().unwrap(), "LM^2T^3I^4Θ^5N^6J^7");
    let z = Dimension::PowerLaw(0, 0, 0, 0, 0, 0, 0);
    assert_eq!(z.to_dimension_string().unwrap(), "-");
    let r = length().sqrt().unwrap().divide(time().powi(3).unwrap().sqrt().unwrap());
    assert_eq!(r.to_dimension_string().unwrap(), "L^1/2T^-3/2");
    let big = Dimension::PowerLaw(i32::MAX, -i32::MAX, 1000000, 10, 0, -10, 109);
    assert_eq!(
        big.to_dimension_string().unwrap(),
        "L^2147483647M^-2147483647T^1000000I^10N^-10J^109"
    );
}

#[test]
fn with_exponent_keeps_the_other_exponents() {
    let d = force().with_exponent(2, Rational::new(5, 3)).unwrap();
    assert!(matches!(d, Dimension::PowerLawRA(_)));
    assert_eq!(
        exponents(&d),
        vec![whole(1), whole(1), Rational::new(5, 3), whole(0), whole(0), whole(0), whole(0)]
    );
    assert!(!d.is_zero().unwrap());
}

#[test]
fn clone_copies_the_tree() {
    let d = force().divide(area()).powi(3).unwrap();
    let e = d.clone();
    assert_eq!(exponents(&d), exponents(&e));
    assert_eq!(exponents(&e)[0], whole(-3));
}
