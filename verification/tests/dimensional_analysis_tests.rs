use metrology4rs::constants::{
    acceleration, dimensionless, energy, force, frequency, length, mass, time, velocity,
};
use metrology4rs::dimensional::{Dimension, DimensionError};
use metrology4rs::dimensional_analysis::{DimensionalAnalysis, DimensionalAnalysisSolution};
use metrology4rs::matrix::Matrix;
use metrology4rs::rational::Rational;

fn whole(n: i32) -> Rational {
    Rational::from_integer(n)
}

#[test]
fn test_solve_unique_solution() {
    println!("Testing unique solution case:");
    println!("Target: FREQUENCY");
    println!("Dimensions: [LENGTH, MASS, ACCELERATION]");
    let sys = DimensionalAnalysis {
        target: frequency(),
        dependencies: vec![length(), mass(), acceleration()],
    };
    let result = sys.solve().unwrap();
    println!("Result: {}", result.to_text());
    match result {
        DimensionalAnalysisSolution::UniqueSolution(coefs) => {
            assert_eq!(
                coefs.col(0).unwrap(),
                [Rational::new(-1, 2), whole(0), Rational::new(1, 2)]
            );
        }
        _ => panic!("Expected unique solution"),
    }
}

#[test]
fn test_solve_dimensional_analysis_case_1() {
    // Test case 1: Frequency = Length^(-1/2) * Mass^1 * Acceleration^(1/2)
    let sys = DimensionalAnalysis {
        target: frequency(),
        dependencies: vec![length(), mass(), acceleration()],
    };
    let result = sys.solve().unwrap();

    match result {
        DimensionalAnalysisSolution::UniqueSolution(solution) => {
            let expected =
                Matrix::from_col(vec![Rational::new(-1, 2), whole(0), Rational::new(1, 2)]);
            assert_eq!(solution, expected, "Expected unique solution");
        }
        _ => panic!("Expected unique solution"),
    }
}

#[test]
fn test_solve_dimensional_analysis_case_2() {
    // Test case 2: No solution
    let sys = DimensionalAnalysis {
        target: force(),
        dependencies: vec![length(), time()],
    };
    let result = sys.solve().unwrap();

    match result {
        DimensionalAnalysisSolution::NoSolution => (),
        _ => panic!("Expected no solution"),
    }
}

#[test]
fn test_solve_dimensional_analysis_case_3() {
    // Test case 3: Multiple solutions
    let sys = DimensionalAnalysis {
        target: dimensionless(),
        dependencies: vec![
            mass(),
            acceleration(),
            force().multiply(velocity().powi(-2).unwrap()),
            velocity(),
        ],
    };
    println!("{}", sys.to_text().unwrap());
    let result = sys.solve().unwrap();

    match result {
        DimensionalAnalysisSolution::MultipleSolutions { rank, n, reduced_a, reduced_b } => {
            assert_eq!(rank, 3, "Expected rank 0");
            assert_eq!(n, 4, "Expected 3 variables");
            println!("A=\n{}", reduced_a.to_text());
            println!("b=\n{}", reduced_b.to_text());
        }
        _ => panic!("Expected multiple solutions"),
    }
}

#[test]
fn test_solve_dimensional_analysis_case_4() {
    // Test case 3: Multiple solutions
    let sys = DimensionalAnalysis {
        target: length(),
        dependencies: vec![
            mass(),
            acceleration(),
            force().multiply(velocity().powi(-2).unwrap()),
            velocity(),
        ],
    };
    println!("{}", sys.to_text().unwrap());

    let result = sys.solve().unwrap();

    match result {
        DimensionalAnalysisSolution::MultipleSolutions { rank, n, reduced_a, reduced_b } => {
            assert_eq!(rank, 3, "Expected rank 0");
            assert_eq!(n, 4, "Expected 3 variables");
            println!("A=\n{}", reduced_a.to_text());
            println!("b=\n{}", reduced_b.to_text());
        }
        _ => panic!("Expected multiple solutions"),
    }
}

// =============================================
// The system and its outcomes
// =============================================

#[test]
fn augmented_system_keeps_the_active_base_dimensions() {
    let sys = DimensionalAnalysis {
        target: frequency(),
        dependencies: vec![length(), mass(), acceleration()],
    };
    let ab = sys.augmented_matrix().unwrap();
    assert_eq!(ab.dimensions(), (3, 4));
    assert_eq!(ab.to_text(), "[[1,0,1,0],\n [0,1,0,0],\n [0,0,-2,-1]]");

    let none = DimensionalAnalysis {
        target: dimensionless(),
        dependencies: vec![dimensionless(), dimensionless()],
    };
    assert_eq!(none.augmented_matrix().unwrap().dimensions(), (0, 3));
    assert_eq!(none.augmented_matrix().unwrap().to_text(), "[]");
}

#[test]
fn multiple_solutions_report_the_reduced_system() {
    let sys = DimensionalAnalysis {
        target: length(),
        dependencies: vec![
            mass(),
            acceleration(),
            force().multiply(velocity().powi(-2).unwrap()),
            velocity(),
        ],
    };
    match sys.solve().unwrap() {
        DimensionalAnalysisSolution::MultipleSolutions { rank, n, reduced_a, reduced_b } => {
            assert_eq!((rank, n), (3, 4));
            assert_eq!(reduced_a.dimensions(), (3, 4));
            assert_eq!(reduced_b.dimensions(), (3, 1));
            assert_eq!(
                reduced_a.to_text(),
                "[[1,0,0,1/2],\n [0,1,0,1/2],\n [0,0,1,-1/2]]"
            );
            assert_eq!(reduced_b.to_text(), "[[1],\n [0],\n [-1]]");
        }
        other => panic!("expected multiple solutions, got {:?}", other),
    }
}

#[test]
fn without_an_active_base_dimension_all_exponents_are_zero() {
    let sys = DimensionalAnalysis {
        target: dimensionless(),
        dependencies: vec![dimensionless(), force().divide(mass().multiply(acceleration()))],
    };
    match sys.solve().unwrap() {
        DimensionalAnalysisSolution::UniqueSolution(x) => {
            assert_eq!(x, Matrix::from_col(vec![whole(0), whole(0)]));
        }
        other => panic!("expected the zero solution, got {:?}", other),
    }
    let empty = DimensionalAnalysis { target: dimensionless(), dependencies: Vec::new() };
    match empty.solve().unwrap() {
        DimensionalAnalysisSolution::UniqueSolution(x) => assert_eq!(x.dimensions(), (0, 0)),
        other => panic!("expected the empty solution, got {:?}", other),
    }
}

#[test]
fn a_target_without_dependencies_has_no_solution() {
    let sys = DimensionalAnalysis { target: force(), dependencies: Vec::new() };
    assert!(matches!(sys.solve(), Ok(DimensionalAnalysisSolution::NoSolution)));
}

#[test]
fn redundant_equations_are_not_inconsistent() {
    // L and T give the same equation twice over: v = (L/T)^1.
    let sys = DimensionalAnalysis {
        target: velocity(),
        dependencies: vec![velocity()],
    };
    match sys.solve().unwrap() {
        DimensionalAnalysisSolution::UniqueSolution(x) => {
            assert_eq!(x, Matrix::from_col(vec![whole(1)]));
        }
        other => panic!("expected a unique solution, got {:?}", other),
    }
    // E = m^1 v^2, with the three equations of L, M and T for two unknowns.
    let sys = DimensionalAnalysis {
        target: energy(),
        dependencies: vec![mass(), velocity()],
    };
    match sys.solve().unwrap() {
        DimensionalAnalysisSolution::UniqueSolution(x) => {
            assert_eq!(x, Matrix::from_col(vec![whole(1), whole(2)]));
        }
        other => panic!("expected a unique solution, got {:?}", other),
    }
    // The same with a target that the two cannot give.
    let sys = DimensionalAnalysis {
        target: force(),
        dependencies: vec![mass(), velocity()],
    };
    assert!(matches!(sys.solve(), Ok(DimensionalAnalysisSolution::NoSolution)));
}

#[test]
fn the_unique_solution_reproduces_the_target() {
    let deps = vec![length(), mass(), acceleration()];
    let sys = DimensionalAnalysis { target: frequency(), dependencies: deps.clone() };
    let x = match sys.solve().unwrap() {
        DimensionalAnalysisSolution::UniqueSolution(x) => x.col(0).unwrap(),
        other => panic!("expected a unique solution, got {:?}", other),
    };
    let mut product = dimensionless();
    for (d, e) in deps.into_iter().zip(x) {
        product = product.multiply(Dimension::PowerR { original: Box::new(d), power: e });
    }
    assert!(product.equals(&frequency()).unwrap());
}

#[test]
fn an_exponent_out_of_range_is_an_error_not_an_outcome() {
    let sys = DimensionalAnalysis {
        target: Dimension::PowerLaw(i32::MIN, 0, 0, 0, 0, 0, 0),
        dependencies: vec![length()],
    };
    assert!(matches!(sys.solve(), Err(DimensionError::Overflow)));
    assert!(matches!(sys.augmented_matrix(), Err(DimensionError::Overflow)));
    let sys = DimensionalAnalysis {
        target: length(),
        dependencies: vec![Dimension::PowerLaw(i32::MAX, 0, 0, 0, 0, 0, 0).multiply(length())],
    };
    assert!(matches!(sys.solve(), Err(DimensionError::Overflow)));
    let sys = DimensionalAnalysis {
        target: Dimension::PowerLaw(65521, 65519, 0, 0, 0, 0, 0),
        dependencies: vec![
            Dimension::PowerLaw(65537, 65539, 0, 0, 0, 0, 0),
            Dimension::PowerLaw(65543, 65551, 0, 0, 0, 0, 0),
        ],
    };
    assert!(matches!(sys.solve(), Err(DimensionError::Overflow)));
}

#[test]
fn text_of_problems_and_outcomes() {
    let sys = DimensionalAnalysis {
        target: frequency(),
        dependencies: vec![length(), mass(), acceleration()],
    };
    assert_eq!(sys.to_text().unwrap(), "Ab=\n[[1,0,1,0],\n [0,1,0,0],\n [0,0,-2,-1]]");
    assert_eq!(
        sys.solve().unwrap().to_text(),
        "Unique solution:\n[[-1/2],\n [0],\n [1/2]]"
    );

    let sys = DimensionalAnalysis { target: force(), dependencies: vec![length(), time()] };
    assert_eq!(sys.solve().unwrap().to_text(), "No feasible solution.");

    let sys = DimensionalAnalysis {
        target: length(),
        dependencies: vec![
            mass(),
            acceleration(),
            force().multiply(velocity().powi(-2).unwrap()),
            velocity(),
        ],
    };
    assert_eq!(
        sys.solve().unwrap().to_text(),
        "Multiple solutions (rank = 3, variables = 4)\nReduced row echelon form:\nA:\n\
         [[1,0,0,1/2],\n [0,1,0,1/2],\n [0,0,1,-1/2]]\nb:\n[[1],\n [0],\n [-1]]"
    );

    let none = DimensionalAnalysis { target: dimensionless(), dependencies: vec![dimensionless()] };
    assert_eq!(none.to_text().unwrap(), "Ab=\n[]");
    assert_eq!(none.solve().unwrap().to_text(), "Unique solution:\n[[0]]");
    let overflow = DimensionalAnalysis {
        target: Dimension::PowerLaw(i32::MIN, 0, 0, 0, 0, 0, 0),
        dependencies: Vec::new(),
    };
    assert!(matches!(overflow.to_text(), Err(DimensionError::Overflow)));
}

/// Small integers from a fixed sequence, in `-2..=2`.
fn sequence(seed: &mut u32) -> i32 {
    *seed = seed.wrapping_mul(1664525).wrapping_add(1013904223);
    ((*seed >> 16) % 5) as i32 - 2
}

#[test]
fn outcomes_agree_with_the_dimensions() {
    let mut seed = 7;
    let mut seen = [0, 0, 0];
    for round in 0..300 {
        let n = 1 + round % 4;
        let mut literal = |seed: &mut u32| {
            Dimension::PowerLaw(sequence(seed), sequence(seed), sequence(seed), 0, 0, 0, 0)
        };
        let deps: Vec<Dimension> = (0..n).map(|_| literal(&mut seed)).collect();
        let target = literal(&mut seed);
        let sys = DimensionalAnalysis { target: target.clone(), dependencies: deps.clone() };
        match sys.solve().unwrap() {
            DimensionalAnalysisSolution::NoSolution => seen[0] += 1,
            DimensionalAnalysisSolution::UniqueSolution(x) => {
                seen[1] += 1;
                let x = x.col(0).unwrap();
                let x = if x.is_empty() { vec![whole(0); n] } else { x };
                let mut product = dimensionless();
                for (d, e) in deps.into_iter().zip(x) {
                    product = product.multiply(Dimension::PowerR { original: Box::new(d), power: e });
                }
                assert!(product.equals(&target).unwrap());
            }
            DimensionalAnalysisSolution::MultipleSolutions { rank, n: unknowns, reduced_a, reduced_b } => {
                seen[2] += 1;
                assert_eq!(unknowns, n);
                assert!(rank < n);
                assert_eq!(reduced_a.dimensions().1, n);
                assert_eq!(reduced_b.dimensions().1, 1);
                assert_eq!(reduced_a.dimensions().0, reduced_b.dimensions().0);
            }
        }
    }
    assert!(seen[0] > 0 && seen[1] > 0 && seen[2] > 0);
}
