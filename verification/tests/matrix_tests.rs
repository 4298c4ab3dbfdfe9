use metrology4rs::matrix::{Matrix, MatrixError};
use metrology4rs::rational::Rational;

fn whole(n: i32) -> Rational {
    Rational::from_integer(n)
}

fn ints(rows: &[&[i32]]) -> Matrix {
    Matrix::from_rows(
        rows.iter()
            .map(|r| r.iter().map(|&n| whole(n)).collect())
            .collect(),
    )
}

fn at(m: &Matrix, i: usize, j: usize) -> Rational {
    m.at(i, j).unwrap()
}

#[test]
fn test_matrix_creation() {
    let mat: Matrix = Matrix::new(2, 3);
    assert_eq!(mat.dimensions(), (2, 3));
    assert_eq!(at(&mat, 0, 0), whole(0));

    // Test empty matrix
    let empty_mat: Matrix = Matrix::new(0, 0);
    assert_eq!(empty_mat.dimensions(), (0, 0));
}

#[test]
fn test_matrix_from_rows() {
    let rows = vec![vec![whole(1), whole(2)], vec![whole(3), whole(4)]];
    let mat = Matrix::from_rows(rows);
    assert_eq!(mat.dimensions(), (2, 2));
    assert_eq!(at(&mat, 0, 0), whole(1));
    assert_eq!(at(&mat, 0, 1), whole(2));
    assert_eq!(at(&mat, 1, 0), whole(3));
    assert_eq!(at(&mat, 1, 1), whole(4));

    // Test empty matrix
    let empty_mat: Matrix = Matrix::from_rows(Vec::new());
    assert_eq!(empty_mat.dimensions(), (0, 0));
}

#[test]
fn test_row_operations() {
    let mut mat = Matrix::from_rows(vec![vec![whole(1), whole(2)], vec![whole(3), whole(4)]]);

    // Test row swap
    mat.swap_rows(0, 1).unwrap();
    assert_eq!(at(&mat, 0, 0), whole(3));
    assert_eq!(at(&mat, 0, 1), whole(4));
    assert_eq!(at(&mat, 1, 0), whole(1));
    assert_eq!(at(&mat, 1, 1), whole(2));

    // Test row multiplication
    mat.mul_row(0, whole(2)).unwrap();
    assert_eq!(at(&mat, 0, 0), whole(6));
    assert_eq!(at(&mat, 0, 1), whole(8));

    // Test row addition
    mat.add_mul_row(1, 0, whole(3)).unwrap();
    assert_eq!(at(&mat, 1, 0), whole(19));
    assert_eq!(at(&mat, 1, 1), whole(26));

    // Test row operations with zero scalar
    mat.mul_row(0, whole(0)).unwrap();
    assert_eq!(at(&mat, 0, 0), whole(0));
    assert_eq!(at(&mat, 0, 1), whole(0));
}

#[test]
fn test_matrix_with_f64() {
    // The entries 1.0, 2.0, ... of this scenario, held as exact rationals.
    let mut mat: Matrix = Matrix::new(2, 2);
    mat.set(0, 0, whole(1)).unwrap();
    mat.set(0, 1, whole(2)).unwrap();
    mat.set(1, 0, whole(3)).unwrap();
    mat.set(1, 1, whole(4)).unwrap();

    assert_eq!(mat.dimensions(), (2, 2));
    assert_eq!(at(&mat, 0, 0), whole(1));
    assert_eq!(at(&mat, 0, 1), whole(2));
    assert_eq!(at(&mat, 1, 0), whole(3));
    assert_eq!(at(&mat, 1, 1), whole(4));

    mat.mul_row(0, whole(2)).unwrap();
    assert_eq!(at(&mat, 0, 0), whole(2));
    assert_eq!(at(&mat, 0, 1), whole(4));

    // Test with negative values
    mat.set(0, 0, whole(-1)).unwrap();
    mat.set(0, 1, whole(-2)).unwrap();
    assert_eq!(at(&mat, 0, 0), whole(-1));
    assert_eq!(at(&mat, 0, 1), whole(-2));
}

#[test]
fn test_matrix_with_bigint() {
    // The integer entries of this scenario, held as exact rationals.
    let mut mat: Matrix = Matrix::new(2, 2);
    mat.set(0, 0, whole(1)).unwrap();
    mat.set(0, 1, whole(2)).unwrap();
    mat.set(1, 0, whole(3)).unwrap();
    mat.set(1, 1, whole(4)).unwrap();

    assert_eq!(mat.dimensions(), (2, 2));
    assert_eq!(at(&mat, 0, 0), whole(1));
    assert_eq!(at(&mat, 0, 1), whole(2));
    assert_eq!(at(&mat, 1, 0), whole(3));
    assert_eq!(at(&mat, 1, 1), whole(4));

    mat.mul_row(0, whole(2)).unwrap();
    assert_eq!(at(&mat, 0, 0), whole(2));
    assert_eq!(at(&mat, 0, 1), whole(4));

    // Test with large numbers
    mat.set(0, 0, whole(1000000)).unwrap();
    assert_eq!(at(&mat, 0, 0), whole(1000000));
}

#[test]
fn test_row_and_col_access() {
    let mat = Matrix::from_rows(vec![
        vec![whole(1), whole(2), whole(3)],
        vec![whole(4), whole(5), whole(6)],
    ]);

    // Test row access
    let row0 = mat.row(0).unwrap();
    assert_eq!(row0, vec![whole(1), whole(2), whole(3)]);

    // Test column access
    let col1 = mat.col(1).unwrap();
    assert_eq!(col1, vec![whole(2), whole(5)]);

    // Test with empty matrix
    let empty_mat: Matrix = Matrix::new(0, 0);
    assert!(empty_mat.row(0).unwrap().is_empty());
    assert!(empty_mat.col(0).unwrap().is_empty());
}

#[test]
fn test_row_max_abs() {
    let mat = Matrix::from_rows(vec![
        vec![Rational::new(-1, 2), whole(2)],
        vec![whole(3), Rational::new(-4, 1)],
    ]);

    let (col, val) = mat.row_max_abs(0).unwrap();
    assert_eq!(col, 1);
    assert_eq!(val, whole(2));

    let (col, val) = mat.row_max_abs(1).unwrap();
    assert_eq!(col, 1);
    assert_eq!(val, whole(4));

    // Test with all zeros
    let zero_mat: Matrix = Matrix::new(2, 2);
    let (col, val) = zero_mat.row_max_abs(0).unwrap();
    assert_eq!(col, 0);
    assert_eq!(val, whole(0));
}

#[test]
fn test_column_swap() {
    let mut mat = Matrix::from_rows(vec![vec![whole(1), whole(2)], vec![whole(3), whole(4)]]);

    mat.swap_cols(0, 1).unwrap();
    assert_eq!(at(&mat, 0, 0), whole(2));
    assert_eq!(at(&mat, 0, 1), whole(1));
    assert_eq!(at(&mat, 1, 0), whole(4));
    assert_eq!(at(&mat, 1, 1), whole(3));

    // Test swapping same column
    mat.swap_cols(0, 0).unwrap();
    assert_eq!(at(&mat, 0, 0), whole(2));
    assert_eq!(at(&mat, 1, 0), whole(4));
}

#[test]
fn test_zero_matrix() {
    let mat: Matrix = Matrix::new(3, 3);
    for i in 0..3 {
        for j in 0..3 {
            assert_eq!(at(&mat, i, j), whole(0));
        }
    }

    // Test with different dimensions
    let mat: Matrix = Matrix::new(2, 4);
    for i in 0..2 {
        for j in 0..4 {
            assert_eq!(at(&mat, i, j), whole(0));
        }
    }
}

#[test]
fn test_col_max_abs() {
    // Test with positive and negative values
    let mat = Matrix::from_rows(vec![
        vec![Rational::new(-1, 2), whole(2)],
        vec![whole(3), Rational::new(-4, 1)],
    ]);

    let (row, val) = mat.col_max_abs(0).unwrap();
    assert_eq!(row, 1);
    assert_eq!(val, whole(3));

    let (row, val) = mat.col_max_abs(1).unwrap();
    assert_eq!(row, 1);
    assert_eq!(val, whole(4));

    // Test with all positive values
    let mat = Matrix::from_rows(vec![vec![whole(1), whole(2)], vec![whole(3), whole(4)]]);

    let (row, val) = mat.col_max_abs(0).unwrap();
    assert_eq!(row, 1);
    assert_eq!(val, whole(3));

    let (row, val) = mat.col_max_abs(1).unwrap();
    assert_eq!(row, 1);
    assert_eq!(val, whole(4));

    // Test with a larger matrix
    let mat = Matrix::from_rows(vec![
        vec![Rational::new(-1, 2), whole(2), whole(0)],
        vec![whole(3), Rational::new(-4, 1), whole(5)],
        vec![whole(1), whole(1), whole(6)],
    ]);

    let (row, val) = mat.col_max_abs(0).unwrap();
    assert_eq!(row, 1);
    assert_eq!(val, whole(3));

    let (row, val) = mat.col_max_abs(1).unwrap();
    assert_eq!(row, 1);
    assert_eq!(val, whole(4));

    let (row, val) = mat.col_max_abs(2).unwrap();
    assert_eq!(row, 2);
    assert_eq!(val, whole(6));

    // Test with all zeros
    let zero_mat: Matrix = Matrix::new(2, 2);
    let (row, val) = zero_mat.col_max_abs(0).unwrap();
    assert_eq!(row, 0);
    assert_eq!(val, whole(0));
}

#[test]
fn test_index_operations() {
    let mut mat = Matrix::from_rows(vec![vec![whole(1), whole(2)], vec![whole(3), whole(4)]]);

    // Test read access
    assert_eq!(at(&mat, 0, 0), whole(1));
    assert_eq!(at(&mat, 0, 1), whole(2));
    assert_eq!(at(&mat, 1, 0), whole(3));
    assert_eq!(at(&mat, 1, 1), whole(4));

    // Test write access
    mat.set(0, 0, whole(5)).unwrap();
    assert_eq!(at(&mat, 0, 0), whole(5));

    // Test with a fraction
    let mut mat_half: Matrix = Matrix::new(2, 2);
    mat_half.set(0, 0, Rational::new(3, 2)).unwrap();
    assert_eq!(at(&mat_half, 0, 0), Rational::new(3, 2));
}

#[test]
fn test_row_echelon_form() {
    // Test case 1: Full rank matrix
    let mut mat = ints(&[&[1, 2, 3], &[4, 5, 6], &[7, 8, 9]]);
    println!("Original matrix:");
    println!("{}", mat.to_text());
    let rank = mat.to_row_echelon_form().unwrap();
    println!("Reduced row echelon form:");
    println!("{}", mat.to_text());
    assert_eq!(rank, 2); // This matrix has rank 2
    assert_eq!(at(&mat, 0, 0), whole(1));
    assert_eq!(at(&mat, 1, 0), whole(0));
    assert_eq!(at(&mat, 2, 0), whole(0));
    assert_eq!(at(&mat, 0, 1), whole(0));
    assert_eq!(at(&mat, 1, 1), whole(1));
    assert_eq!(at(&mat, 2, 1), whole(0));

    // Test case 2: Matrix with zero rows
    let mut empty_mat: Matrix = Matrix::new(0, 0);
    let rank = empty_mat.to_row_echelon_form().unwrap();
    assert_eq!(rank, 0);

    // Test case 3: Matrix with all zeros
    let mut zero_mat: Matrix = Matrix::new(3, 3);
    let rank = zero_mat.to_row_echelon_form().unwrap();
    assert_eq!(rank, 0);

    // Test case 4: Matrix with linearly dependent rows
    let mut mat = ints(&[&[1, 2], &[2, 4]]);
    println!("Original matrix:");
    println!("{}", mat.to_text());
    let rank = mat.to_row_echelon_form().unwrap();
    println!("Reduced row echelon form:");
    println!("{}", mat.to_text());
    assert_eq!(rank, 1); // Rows are linearly dependent
    assert_eq!(at(&mat, 0, 0), whole(1));
    assert_eq!(at(&mat, 0, 1), whole(2));
    assert_eq!(at(&mat, 1, 0), whole(0));
    assert_eq!(at(&mat, 1, 1), whole(0));

    // Test case 5: Matrix with negative values
    let mut mat = Matrix::from_rows(vec![
        vec![Rational::new(-1, 1), whole(2)],
        vec![whole(3), Rational::new(-4, 1)],
    ]);
    println!("Original matrix:");
    println!("{}", mat.to_text());
    let rank = mat.to_row_echelon_form().unwrap();
    println!("Reduced row echelon form:");
    println!("{}", mat.to_text());
    assert_eq!(rank, 2); // Full rank
    assert_eq!(at(&mat, 0, 0), whole(1));
    assert_eq!(at(&mat, 1, 0), whole(0));
    assert_eq!(at(&mat, 0, 1), whole(0));
    assert_eq!(at(&mat, 1, 1), whole(1));

    // Test case 6: Matrix that requires both forward and backward elimination
    let mut mat = ints(&[&[1, 2, 3], &[2, 4, 6], &[1, 1, 1]]);
    println!("Original matrix:");
    println!("{}", mat.to_text());
    let rank = mat.to_row_echelon_form().unwrap();
    println!("Reduced row echelon form:");
    println!("{}", mat.to_text());
    assert_eq!(rank, 2); // Rank is 2
    assert_eq!(at(&mat, 0, 0), whole(1));
    assert_eq!(at(&mat, 1, 0), whole(0));
    assert_eq!(at(&mat, 2, 0), whole(0));
    assert_eq!(at(&mat, 0, 1), whole(0));
    assert_eq!(at(&mat, 1, 1), whole(1));
    assert_eq!(at(&mat, 2, 1), whole(0));
}

#[test]
fn test_matrix_display() {
    // Test case 1: Regular matrix
    let mat = ints(&[&[1, 2], &[3, 4]]);
    let expected = "[[1,2],
 [3,4]]";
    assert_eq!(mat.to_text(), expected);

    // Test case 2: Matrix with different width numbers
    let mat = ints(&[&[1, 200], &[30, 4]]);
    let expected = "[[1,200],
 [30,4]]";
    assert_eq!(mat.to_text(), expected);

    // Test case 3: Matrix with fractions
    let mat = Matrix::from_rows(vec![
        vec![Rational::new(1, 2), Rational::new(3, 4)],
        vec![Rational::new(5, 6), Rational::new(7, 8)],
    ]);
    let expected = "[[1/2,3/4],
 [5/6,7/8]]";
    assert_eq!(mat.to_text(), expected);

    // Test case 4: Empty matrix
    let empty_mat: Matrix = Matrix::new(0, 0);
    let expected = "[]";
    assert_eq!(empty_mat.to_text(), expected);

    // Test case 5: Row vector
    let row_vec = ints(&[&[1, 2, 3]]);
    let expected = "[[1,2,3]]";
    assert_eq!(row_vec.to_text(), expected);

    // Test case 6: Column vector
    let col_vec = ints(&[&[1], &[2], &[3]]);
    let expected = "[[1],
 [2],
 [3]]";
    assert_eq!(col_vec.to_text(), expected);

    // Test case 7: Larger matrix
    let mat = ints(&[&[1, 2, 3], &[4, 5, 6], &[7, 8, 9]]);
    let expected = "[[1,2,3],
 [4,5,6],
 [7,8,9]]";
    assert_eq!(mat.to_text(), expected);
}

#[test]
fn test_row_and_column_vectors() {
    // Test row vector (1x3)
    let row_vec = ints(&[&[1, 2, 3]]);
    assert_eq!(row_vec.dimensions(), (1, 3));
    let expected = "[[1,2,3]]";
    assert_eq!(row_vec.to_text(), expected);

    // Test column vector (3x1)
    let col_vec = ints(&[&[1], &[2], &[3]]);
    assert_eq!(col_vec.dimensions(), (3, 1));
    let expected = "[[1],
 [2],
 [3]]";
    assert_eq!(col_vec.to_text(), expected);

    // Test row vector with fractions
    let row_vec = Matrix::from_rows(vec![vec![
        Rational::new(1, 2),
        Rational::new(3, 4),
        Rational::new(5, 6),
    ]]);
    let expected = "[[1/2,3/4,5/6]]";
    assert_eq!(row_vec.to_text(), expected);

    // Test column vector with fractions
    let col_vec = Matrix::from_rows(vec![
        vec![Rational::new(1, 2)],
        vec![Rational::new(3, 4)],
        vec![Rational::new(5, 6)],
    ]);
    let expected = "[[1/2],
 [3/4],
 [5/6]]";
    assert_eq!(col_vec.to_text(), expected);

    // Test row vector with different width numbers
    let row_vec = ints(&[&[1, 200, 30]]);
    let expected = "[[1,200,30]]";
    assert_eq!(row_vec.to_text(), expected);

    // Test column vector with different width numbers
    let col_vec = ints(&[&[1], &[200], &[30]]);
    let expected = "[[1],
 [200],
 [30]]";
    assert_eq!(col_vec.to_text(), expected);
}

// =============================================
// Shapes, bounds and overflow
// =============================================

#[test]
fn constructors_agree() {
    let by_rows = ints(&[&[1, 2, 3], &[4, 5, 6]]);
    let by_cols = Matrix::from_cols(vec![
        vec![whole(1), whole(4)],
        vec![whole(2), whole(5)],
        vec![whole(3), whole(6)],
    ]);
    assert_eq!(by_rows, by_cols);
    assert_eq!(by_cols.dimensions(), (2, 3));
    assert_eq!(at(&by_cols, 1, 2), whole(6));
    assert_eq!(at(&by_cols, 0, 1), whole(2));

    let column = Matrix::from_col(vec![whole(7), whole(8), whole(9)]);
    assert_eq!(column.dimensions(), (3, 1));
    assert_eq!(column, ints(&[&[7], &[8], &[9]]));
    assert_eq!(column.col(0).unwrap(), vec![whole(7), whole(8), whole(9)]);

    let row = Matrix::from_row(vec![whole(7), whole(8), whole(9)]);
    assert_eq!(row.dimensions(), (1, 3));
    assert_eq!(row, ints(&[&[7, 8, 9]]));

    assert_eq!(Matrix::from_col(Vec::new()).dimensions(), (0, 0));
    assert_eq!(Matrix::from_row(Vec::new()).dimensions(), (0, 0));
    assert_eq!(Matrix::from_cols(Vec::new()).dimensions(), (0, 0));
    assert_eq!(Matrix::from_cols(Vec::new()), Matrix::new(0, 0));
}

#[test]
fn from_rows_cuts_longer_rows_to_the_first() {
    let m = Matrix::from_rows(vec![vec![whole(1), whole(2)], vec![whole(3), whole(4), whole(5)]]);
    assert_eq!(m.dimensions(), (2, 2));
    assert_eq!(m.row(1).unwrap(), vec![whole(3), whole(4)]);
    let n = Matrix::from_cols(vec![vec![whole(1), whole(2)], vec![whole(3), whole(4), whole(5)]]);
    assert_eq!(n.dimensions(), (2, 2));
    assert_eq!(n.col(1).unwrap(), vec![whole(3), whole(4)]);
    assert_eq!(n, ints(&[&[1, 3], &[2, 4]]));
}

#[test]
fn indices_outside_the_shape_are_refused() {
    let mut m = ints(&[&[1, 2, 3], &[4, 5, 6]]);
    let before = m.clone();
    assert_eq!(m.at(2, 0), Err(MatrixError::IndexOutOfRange));
    assert_eq!(m.at(0, 3), Err(MatrixError::IndexOutOfRange));
    assert_eq!(m.set(2, 0, whole(1)), Err(MatrixError::IndexOutOfRange));
    assert_eq!(m.set(0, 3, whole(1)), Err(MatrixError::IndexOutOfRange));
    assert_eq!(m.row(2), Err(MatrixError::IndexOutOfRange));
    assert_eq!(m.col(3), Err(MatrixError::IndexOutOfRange));
    assert_eq!(m.swap_rows(0, 2), Err(MatrixError::IndexOutOfRange));
    assert_eq!(m.swap_rows(2, 0), Err(MatrixError::IndexOutOfRange));
    assert_eq!(m.swap_cols(0, 3), Err(MatrixError::IndexOutOfRange));
    assert_eq!(m.mul_row(2, whole(2)), Err(MatrixError::IndexOutOfRange));
    assert_eq!(m.add_mul_row(0, 2, whole(2)), Err(MatrixError::IndexOutOfRange));
    assert_eq!(m.add_mul_row(2, 0, whole(2)), Err(MatrixError::IndexOutOfRange));
    assert_eq!(m.row_max_abs(2), Err(MatrixError::IndexOutOfRange));
    assert_eq!(m.col_max_abs(3), Err(MatrixError::IndexOutOfRange));
    assert_eq!(m, before);
}

#[test]
fn matrices_without_entries_take_every_operation() {
    for (rows, cols) in [(0, 0), (0, 3), (3, 0)] {
        let mut m = Matrix::new(rows, cols);
        assert_eq!(m.dimensions(), (rows, cols));
        assert!(m.row(5).unwrap().is_empty());
        assert!(m.col(5).unwrap().is_empty());
        assert_eq!(m.swap_rows(4, 9), Ok(()));
        assert_eq!(m.swap_cols(4, 9), Ok(()));
        assert_eq!(m.mul_row(4, whole(2)), Ok(()));
        assert_eq!(m.add_mul_row(4, 9, whole(2)), Ok(()));
        assert_eq!(m.row_max_abs(4), Ok((0, whole(0))));
        assert_eq!(m.col_max_abs(4), Ok((0, whole(0))));
        assert_eq!(m.to_row_echelon_form(), Ok(0));
        assert_eq!(m.at(0, 0), Err(MatrixError::IndexOutOfRange));
        assert_eq!(m, Matrix::new(rows, cols));
    }
    assert_eq!(Matrix::new(0, 3).to_text(), "[]");
    assert_eq!(Matrix::new(2, 0).to_text(), "[[],\n []]");
}

#[test]
fn row_operations_compute_exactly() {
    let mut m = Matrix::from_rows(vec![
        vec![Rational::new(1, 2), Rational::new(-2, 3)],
        vec![whole(3), Rational::new(1, 6)],
    ]);
    m.mul_row(0, Rational::new(3, 4)).unwrap();
    assert_eq!(m.row(0).unwrap(), vec![Rational::new(3, 8), Rational::new(-1, 2)]);
    m.add_mul_row(1, 0, Rational::new(-8, 1)).unwrap();
    assert_eq!(m.row(1).unwrap(), vec![whole(0), Rational::new(25, 6)]);
    m.add_mul_row(0, 0, whole(1)).unwrap();
    assert_eq!(m.row(0).unwrap(), vec![Rational::new(3, 4), whole(-1)]);
    m.swap_cols(0, 1).unwrap();
    assert_eq!(m.row(0).unwrap(), vec![whole(-1), Rational::new(3, 4)]);
    assert_eq!(m.col(0).unwrap(), vec![whole(-1), Rational::new(25, 6)]);
}

#[test]
fn overflow_leaves_the_matrix_as_it_was() {
    let big = i32::MAX;
    let mut m = ints(&[&[1, big], &[2, 3]]);
    let before = m.clone();
    assert_eq!(m.mul_row(0, whole(2)), Err(MatrixError::Overflow));
    assert_eq!(m, before);
    assert_eq!(m.add_mul_row(0, 1, whole(1)), Err(MatrixError::Overflow));
    assert_eq!(m, before);
    assert_eq!(m.add_mul_row(1, 0, whole(1)), Err(MatrixError::Overflow));
    assert_eq!(m, before);

    let mut n = Matrix::from_rows(vec![
        vec![Rational::new(1, 65521), Rational::new(1, 65519)],
        vec![Rational::new(1, 65537), Rational::new(1, 65539)],
    ]);
    let before = n.clone();
    assert_eq!(n.to_row_echelon_form(), Err(MatrixError::Overflow));
    assert_eq!(n, before);
}

#[test]
fn pivots_take_the_first_of_equal_magnitudes() {
    let m = ints(&[&[-3, 3, 1], &[3, -3, 2], &[2, 1, -2]]);
    assert_eq!(m.col_max_abs(0), Ok((0, whole(3))));
    assert_eq!(m.col_max_abs(1), Ok((0, whole(3))));
    assert_eq!(m.col_max_abs(2), Ok((1, whole(2))));
    assert_eq!(m.row_max_abs(0), Ok((0, whole(3))));
    assert_eq!(m.row_max_abs(2), Ok((0, whole(2))));
}

#[test]
fn reduction_skips_zero_columns_without_skipping_rows() {
    let mut m = ints(&[&[0, 0, 2, 4], &[0, 0, 1, 3], &[0, 0, 0, 0]]);
    assert_eq!(m.to_row_echelon_form(), Ok(2));
    assert_eq!(m, ints(&[&[0, 0, 1, 0], &[0, 0, 0, 1], &[0, 0, 0, 0]]));

    let mut m = ints(&[&[0, 1], &[0, 0], &[0, 2]]);
    assert_eq!(m.to_row_echelon_form(), Ok(1));
    assert_eq!(m, ints(&[&[0, 1], &[0, 0], &[0, 0]]));

    let mut m = ints(&[&[0, 2, 1], &[0, 0, 3]]);
    assert_eq!(m.to_row_echelon_form(), Ok(2));
    assert_eq!(m, ints(&[&[0, 1, 0], &[0, 0, 1]]));
}

#[test]
fn reduction_gives_exact_fractions() {
    let mut m = ints(&[&[2, 1, 1], &[1, 3, 2]]);
    assert_eq!(m.to_row_echelon_form(), Ok(2));
    assert_eq!(
        m,
        Matrix::from_rows(vec![
            vec![whole(1), whole(0), Rational::new(1, 5)],
            vec![whole(0), whole(1), Rational::new(3, 5)],
        ])
    );
}

#[test]
fn reduction_twice_is_reduction_once() {
    for rows in [
        vec![vec![1, 2, 3], vec![4, 5, 6], vec![7, 8, 9]],
        vec![vec![0, 0, 2, 4], vec![0, 0, 1, 3], vec![0, 0, 0, 0]],
        vec![vec![1, 2], vec![2, 4]],
        vec![vec![3, -1, 4, 1], vec![-5, 9, 2, 6], vec![5, 3, -5, 8]],
        vec![vec![0, 0], vec![0, 0]],
    ] {
        let mut m = Matrix::from_rows(
            rows.iter()
                .map(|r| r.iter().map(|&n| whole(n)).collect())
                .collect(),
        );
        let rank = m.to_row_echelon_form().unwrap();
        let once = m.clone();
        assert_eq!(m.to_row_echelon_form(), Ok(rank));
        assert_eq!(m, once);
    }
}

/// Small integers from a fixed sequence, in `-3..=3`.
fn sequence(seed: &mut u32) -> i32 {
    *seed = seed.wrapping_mul(1664525).wrapping_add(1013904223);
    ((*seed >> 16) % 7) as i32 - 3
}

#[test]
fn reduced_form_has_unit_pivots_alone_in_their_columns() {
    let mut seed = 2024;
    for round in 0..200 {
        let rows = 1 + round % 4;
        let cols = 1 + (round / 4) % 5;
        let mut m = Matrix::from_rows(
            (0..rows)
                .map(|_| (0..cols).map(|_| whole(sequence(&mut seed))).collect())
                .collect(),
        );
        let before = m.clone();
        let rank = m.to_row_echelon_form().unwrap();
        assert!(rank <= rows && rank <= cols);
        let mut last_pivot = None;
        for i in 0..rows {
            let row = m.row(i).unwrap();
            let lead = row.iter().position(|e| !e.is_zero());
            if i < rank {
                let c = lead.expect("a pivot row is not zero");
                assert!(row[c].is_one());
                assert!(last_pivot.map_or(true, |p| p < c));
                last_pivot = Some(c);
                for k in 0..rows {
                    if k != i {
                        assert!(at(&m, k, c).is_zero());
                    }
                }
            } else {
                assert!(lead.is_none());
            }
        }
        // reducing again changes nothing
        let once = m.clone();
        assert_eq!(m.to_row_echelon_form(), Ok(rank));
        assert_eq!(m, once);
        // and the shape is as it was
        assert_eq!(m.dimensions(), before.dimensions());
    }
}

#[test]
fn reduction_keeps_the_solutions_of_a_system() {
    // x = 2, y = -1/3, z = 5 solves the system before and after.
    let x = [whole(2), Rational::new(-1, 3), whole(5)];
    let coefficients = [[3, -6, 1], [1, 3, 0], [-2, 0, 4], [4, -3, 1]];
    let rows: Vec<Vec<Rational>> = coefficients
        .iter()
        .map(|c| {
            let mut row: Vec<Rational> = c.iter().map(|&n| whole(n)).collect();
            let mut rhs = whole(0);
            for j in 0..3 {
                rhs = rhs.checked_add(&row[j].checked_mul(&x[j]).unwrap()).unwrap();
            }
            row.push(rhs);
            row
        })
        .collect();
    let mut m = Matrix::from_rows(rows);
    assert_eq!(m.to_row_echelon_form(), Ok(3));
    for i in 0..4 {
        let row = m.row(i).unwrap();
        let mut lhs = whole(0);
        for j in 0..3 {
            lhs = lhs.checked_add(&row[j].checked_mul(&x[j]).unwrap()).unwrap();
        }
        assert_eq!(lhs, row[3]);
    }
    assert_eq!(m.col(3).unwrap(), vec![x[0], x[1], x[2], whole(0)]);
}
