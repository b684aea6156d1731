use scirust::algorithms::{
    check_product, concat_cols, concat_rows, convert, dot, for_each, inverse, mat_add, mat_mul, mat_mul_blocked,
    mat_sub, mat_x_inplace, product_cell, subdivide, transpose, CUTOFF,
};
use scirust::cholesky::{cholesky_blocked, cholesky_seq_inplace};
use scirust::error::MatrixError;
use scirust::matrix::{BasicMatrix, Create, Matrix};
use scirust::ring::{Real, MAX_ROOT};
use scirust::views::{col, row, SubMatrix, TransposeMatrix};

fn from_rows(rows: &[&[i64]]) -> Matrix<i64> {
    let cols = if rows.is_empty() { 0 } else { rows[0].len() };
    Matrix::create(rows.len(), cols, |i, j| rows[i][j])
}

fn cells<M: BasicMatrix<i64>>(m: &M) -> Vec<Vec<i64>> {
    (0..m.num_rows())
        .map(|i| (0..m.num_cols()).map(|j| m.get(i, j).unwrap()).collect())
        .collect()
}

fn mismatch(lhs: (usize, usize), rhs: (usize, usize)) -> MatrixError {
    MatrixError::DimensionMismatch { lhs_rows: lhs.0, lhs_cols: lhs.1, rhs_rows: rhs.0, rhs_cols: rhs.1 }
}

#[test]
fn dot_is_the_sum_of_products() {
    let a = from_rows(&[&[1, 2, 3]]);
    let b = from_rows(&[&[4], &[5], &[6]]);
    assert_eq!(dot(&row(&a, 0).unwrap(), &col(&b, 0).unwrap()), Ok(32));
}

#[test]
fn dot_of_one_cell() {
    let a = from_rows(&[&[7]]);
    assert_eq!(dot(&row(&a, 0).unwrap(), &col(&a, 0).unwrap()), Ok(49));
}

#[test]
fn dot_wraps_around() {
    let a = from_rows(&[&[i64::MAX, 1]]);
    let b = from_rows(&[&[1, 1]]);
    assert_eq!(dot(&row(&a, 0).unwrap(), &row(&b, 0).unwrap()), Ok(i64::MIN));
}

#[test]
fn dot_refuses_different_lengths() {
    let a = from_rows(&[&[1, 2, 3]]);
    let b = from_rows(&[&[1, 2]]);
    assert_eq!(
        dot(&row(&a, 0).unwrap(), &row(&b, 0).unwrap()),
        Err(MatrixError::InvalidVectorLength { lhs_len: 3, rhs_len: 2 })
    );
}

#[test]
fn dot_refuses_empty_vectors() {
    let a: Matrix<i64> = Matrix::create(1, 0, |_, _| 0);
    assert_eq!(
        dot(&row(&a, 0).unwrap(), &row(&a, 0).unwrap()),
        Err(MatrixError::InvalidVectorLength { lhs_len: 0, rhs_len: 0 })
    );
}

#[test]
fn identity_times_b_is_b() {
    let i2 = from_rows(&[&[1, 0], &[0, 1]]);
    let b = from_rows(&[&[1, 2], &[3, 4]]);
    let p: Matrix<i64> = mat_mul(&i2, &b).unwrap();
    assert_eq!(cells(&p), vec![vec![1, 2], vec![3, 4]]);
}

#[test]
fn product_of_rectangular_matrices() {
    let a = from_rows(&[&[1, 2, 3], &[4, 5, 6]]);
    let b = from_rows(&[&[7, 8], &[9, 10], &[11, 12]]);
    let p: Matrix<i64> = mat_mul(&a, &b).unwrap();
    assert_eq!((p.num_rows(), p.num_cols()), (2, 2));
    assert_eq!(cells(&p), vec![vec![58, 64], vec![139, 154]]);
}

#[test]
fn product_with_mismatched_inner_dimension_fails() {
    let a = from_rows(&[&[1, 2, 3], &[4, 5, 6]]);
    let b = from_rows(&[&[1, 2], &[3, 4]]);
    let p: Result<Matrix<i64>, MatrixError> = mat_mul(&a, &b);
    assert_eq!(p.map(|_| ()), Err(mismatch((2, 3), (2, 2))));
}

#[test]
fn product_over_an_empty_inner_dimension() {
    let a: Matrix<i64> = Matrix::create(2, 0, |_, _| 0);
    let b: Matrix<i64> = Matrix::create(0, 3, |_, _| 0);
    let p: Result<Matrix<i64>, MatrixError> = mat_mul(&a, &b);
    assert_eq!(p.map(|_| ()), Err(MatrixError::InvalidVectorLength { lhs_len: 0, rhs_len: 0 }));
    // Without cells in the result no dot product is taken.
    let none: Matrix<i64> = Matrix::create(0, 0, |_, _| 0);
    let q: Matrix<i64> = mat_mul(&none, &b).unwrap();
    assert_eq!((q.num_rows(), q.num_cols()), (0, 3));
}

#[test]
fn product_with_a_transposed_view() {
    let l = from_rows(&[&[1, 0], &[2, 1]]);
    let p: Matrix<i64> = mat_mul(&l, &TransposeMatrix(&l)).unwrap();
    assert_eq!(cells(&p), vec![vec![1, 2], vec![2, 5]]);
}

#[test]
fn sum_and_difference() {
    let a = from_rows(&[&[1, 2], &[3, 4]]);
    let b = from_rows(&[&[10, 20], &[30, 40]]);
    let s: Matrix<i64> = mat_add(&a, &b).unwrap();
    let d: Matrix<i64> = mat_sub(&b, &a).unwrap();
    assert_eq!(cells(&s), vec![vec![11, 22], vec![33, 44]]);
    assert_eq!(cells(&d), vec![vec![9, 18], vec![27, 36]]);
}

#[test]
fn sum_and_difference_refuse_different_shapes() {
    let a = from_rows(&[&[1, 2], &[3, 4]]);
    let b = from_rows(&[&[1, 2, 3], &[4, 5, 6]]);
    let c = from_rows(&[&[1, 2]]);
    let s: Result<Matrix<i64>, MatrixError> = mat_add(&a, &b);
    assert_eq!(s.map(|_| ()), Err(mismatch((2, 2), (2, 3))));
    let d: Result<Matrix<i64>, MatrixError> = mat_sub(&a, &c);
    assert_eq!(d.map(|_| ()), Err(mismatch((2, 2), (1, 2))));
}

#[test]
fn scaling_in_place() {
    let mut a = from_rows(&[&[1, -2], &[3, 4]]);
    assert_eq!(mat_x_inplace(&mut a, -3), Ok(()));
    assert_eq!(cells(&a), vec![vec![-3, 6], vec![-9, -12]]);
}

#[test]
fn scaling_through_a_shared_handle_is_refused() {
    let a = from_rows(&[&[1, 2], &[3, 4]]);
    let mut handle = &a;
    assert_eq!(mat_x_inplace(&mut handle, 2), Err(MatrixError::ReadOnly));
    assert_eq!(cells(&a), vec![vec![1, 2], vec![3, 4]]);
    // A matrix without cells needs no write.
    let none: Matrix<i64> = Matrix::create(0, 2, |_, _| 0);
    let mut empty = &none;
    assert_eq!(mat_x_inplace(&mut empty, 2), Ok(()));
}

#[test]
fn for_each_hands_position_and_value_to_the_function() {
    let mut a = from_rows(&[&[1, 2, 3], &[4, 5, 6]]);
    assert_eq!(for_each(&mut a, |i, j, x| x * 100 + (i * 10 + j) as i64), Ok(()));
    assert_eq!(cells(&a), vec![vec![100, 201, 302], vec![410, 511, 612]]);
}

#[test]
fn materialized_transpose() {
    let a = from_rows(&[&[1, 2, 3], &[4, 5, 6]]);
    let t: Matrix<i64> = transpose(&a);
    assert_eq!(cells(&t), vec![vec![1, 4], vec![2, 5], vec![3, 6]]);
    let tt: Matrix<i64> = transpose(&t);
    assert_eq!(cells(&tt), cells(&a));
}

#[test]
fn stacking_and_placing_beside() {
    let a = from_rows(&[&[1, 2], &[3, 4]]);
    let b = from_rows(&[&[5, 6]]);
    let c = from_rows(&[&[7], &[8]]);
    let rows: Matrix<i64> = concat_rows(&a, &b).unwrap();
    let cols: Matrix<i64> = concat_cols(&a, &c).unwrap();
    assert_eq!(cells(&rows), vec![vec![1, 2], vec![3, 4], vec![5, 6]]);
    assert_eq!(cells(&cols), vec![vec![1, 2, 7], vec![3, 4, 8]]);
}

#[test]
fn concatenation_refuses_operands_that_do_not_fit() {
    let a = from_rows(&[&[1, 2], &[3, 4]]);
    let b = from_rows(&[&[5, 6]]);
    let c = from_rows(&[&[7], &[8]]);
    let rows: Result<Matrix<i64>, MatrixError> = concat_rows(&a, &c);
    let cols: Result<Matrix<i64>, MatrixError> = concat_cols(&a, &b);
    assert_eq!(rows.map(|_| ()), Err(mismatch((2, 2), (2, 1))));
    assert_eq!(cols.map(|_| ()), Err(mismatch((2, 2), (1, 2))));
}

#[test]
fn convert_copies_a_view() {
    let a = from_rows(&[&[1, 2, 3], &[4, 5, 6], &[7, 8, 9]]);
    let w = SubMatrix(&a, 1, 1, 2, 2).unwrap();
    let mut copy: Matrix<i64> = convert(&w);
    assert_eq!(cells(&copy), vec![vec![5, 6], vec![8, 9]]);
    assert_eq!(copy.set(0, 0, 0), Ok(()));
    assert_eq!(a.get(1, 1), Ok(5));
}

#[test]
fn quadrants_give_the_larger_half_to_the_second() {
    let a: Matrix<i64> = Matrix::create(3, 5, |i, j| (i * 10 + j) as i64);
    let (tl, tr, bl, br) = subdivide(&a).unwrap();
    assert_eq!(cells(&tl), vec![vec![0, 1]]);
    assert_eq!(cells(&tr), vec![vec![2, 3, 4]]);
    assert_eq!(cells(&bl), vec![vec![10, 11], vec![20, 21]]);
    assert_eq!(cells(&br), vec![vec![12, 13, 14], vec![22, 23, 24]]);
}

#[test]
fn quadrants_put_together_again_are_the_matrix() {
    let a: Matrix<i64> = Matrix::create(5, 4, |i, j| (i * 7 + j * 3) as i64);
    let (tl, tr, bl, br) = subdivide(&a).unwrap();
    let top: Matrix<i64> = concat_cols(&tl, &tr).unwrap();
    let bottom: Matrix<i64> = concat_cols(&bl, &br).unwrap();
    let whole: Matrix<i64> = concat_rows(&top, &bottom).unwrap();
    assert_eq!(cells(&whole), cells(&a));
}

#[test]
fn a_single_row_has_no_quadrants() {
    let a = from_rows(&[&[1, 2, 3, 4]]);
    assert_eq!(
        subdivide(&a).map(|_| ()),
        Err(MatrixError::InvalidWindow { row: 0, col: 0, rows: 0, cols: 2, base_rows: 1, base_cols: 4 })
    );
}

#[test]
fn blocked_product_is_the_product() {
    let n = CUTOFF + 9;
    let a: Matrix<i64> = Matrix::create(n, n + 2, |i, j| ((i * 31 + j * 17) % 23) as i64 - 11);
    let b: Matrix<i64> = Matrix::create(n + 2, n + 1, |i, j| ((i * 13 + j * 29) % 19) as i64 - 9);
    let plain: Matrix<i64> = mat_mul(&a, &b).unwrap();
    let blocked: Matrix<i64> = mat_mul_blocked(&a, &b).unwrap();
    assert_eq!((blocked.num_rows(), blocked.num_cols()), (n, n + 1));
    assert_eq!(cells(&blocked), cells(&plain));
}

#[test]
fn blocked_product_of_small_operands() {
    let i2 = from_rows(&[&[1, 0], &[0, 1]]);
    let b = from_rows(&[&[1, 2], &[3, 4]]);
    let p: Matrix<i64> = mat_mul_blocked(&i2, &b).unwrap();
    assert_eq!(cells(&p), vec![vec![1, 2], vec![3, 4]]);
}

#[test]
fn blocked_product_checks_the_shapes() {
    let a = from_rows(&[&[1, 2, 3], &[4, 5, 6]]);
    let b = from_rows(&[&[1, 2], &[3, 4]]);
    let p: Result<Matrix<i64>, MatrixError> = mat_mul_blocked(&a, &b);
    assert_eq!(p.map(|_| ()), Err(mismatch((2, 3), (2, 2))));
}

#[test]
fn inverse_of_integer_matrices() {
    let one = from_rows(&[&[1]]);
    let inv: Matrix<i64> = inverse(&one).unwrap();
    assert_eq!(cells(&inv), vec![vec![1]]);
    let shear = from_rows(&[&[1, 1], &[0, 1]]);
    let inv: Matrix<i64> = inverse(&shear).unwrap();
    assert_eq!(cells(&inv), vec![vec![1, -1], vec![0, 1]]);
    let lower = from_rows(&[&[1, 0, 0], &[2, 1, 0], &[3, 4, 1]]);
    let inv: Matrix<i64> = inverse(&lower).unwrap();
    assert_eq!(cells(&inv), vec![vec![1, 0, 0], vec![-2, 1, 0], vec![5, -4, 1]]);
    let back: Matrix<i64> = inverse(&inv).unwrap();
    assert_eq!(cells(&back), cells(&lower));
}

#[test]
fn inverse_refuses_what_is_not_square() {
    let a = from_rows(&[&[1, 2, 3], &[4, 5, 6]]);
    let r: Result<Matrix<i64>, MatrixError> = inverse(&a);
    assert_eq!(r.map(|_| ()), Err(MatrixError::NonSquareMatrix { rows: 2, cols: 3 }));
}

#[test]
fn inverse_of_a_matrix_without_cells() {
    let a: Matrix<i64> = Matrix::create(0, 0, |_, _| 0);
    let r: Result<Matrix<i64>, MatrixError> = inverse(&a);
    assert_eq!(
        r.map(|_| ()),
        Err(MatrixError::InvalidWindow { row: 0, col: 0, rows: 0, cols: 0, base_rows: 0, base_cols: 0 })
    );
}

#[test]
fn inverse_stops_at_a_zero_pivot() {
    let zero = from_rows(&[&[0]]);
    let r: Result<Matrix<i64>, MatrixError> = inverse(&zero);
    assert_eq!(r.map(|_| ()), Err(MatrixError::DegenerateNumeric));
    // The matrix is invertible, but its first pivot is zero and rows are not exchanged.
    let swap = from_rows(&[&[0, 1], &[1, 0]]);
    let r: Result<Matrix<i64>, MatrixError> = inverse(&swap);
    assert_eq!(r.map(|_| ()), Err(MatrixError::DegenerateNumeric));
}

#[test]
fn integers_have_roots_for_square_numbers_only() {
    assert_eq!(Real::sqrt(0i64), Some(0));
    assert_eq!(Real::sqrt(1i64), Some(1));
    assert_eq!(Real::sqrt(49i64), Some(7));
    assert_eq!(Real::sqrt(50i64), None);
    assert_eq!(Real::sqrt(-4i64), None);
    assert_eq!(Real::sqrt(MAX_ROOT * MAX_ROOT), Some(MAX_ROOT));
    assert_eq!(Real::sqrt(i64::MAX), None);
}

#[test]
fn cholesky_in_exact_arithmetic() {
    // [[2, 0, 0], [1, 3, 0], [4, 2, 1]] times its transpose.
    let a = from_rows(&[&[4, 2, 8], &[2, 10, 10], &[8, 10, 21]]);
    let mut seq: Matrix<i64> = convert(&a);
    assert_eq!(cholesky_seq_inplace(&mut seq), Ok(()));
    assert_eq!(cells(&seq), vec![vec![2, 0, 0], vec![1, 3, 0], vec![4, 2, 1]]);
    let no_root = from_rows(&[&[2]]);
    let r: Result<Matrix<i64>, MatrixError> = cholesky_blocked(&no_root);
    assert_eq!(r.map(|_| ()), Err(MatrixError::DegenerateNumeric));
    let one = from_rows(&[&[9]]);
    let l: Matrix<i64> = cholesky_blocked(&one).unwrap();
    assert_eq!(cells(&l), vec![vec![3]]);
}

#[test]
fn one_cell_of_a_product() {
    let a = from_rows(&[&[1, 2, 3], &[4, 5, 6]]);
    let b = from_rows(&[&[7, 8], &[9, 10], &[11, 12]]);
    assert_eq!(check_product(&a, &b), Ok(()));
    assert_eq!(product_cell(&a, &b, 1, 0), Ok(139));
    assert_eq!(
        product_cell(&a, &b, 2, 0),
        Err(MatrixError::IndexOutOfBounds { row: 2, col: 0, rows: 2, cols: 3 })
    );
    assert_eq!(
        product_cell(&a, &b, 0, 2),
        Err(MatrixError::IndexOutOfBounds { row: 0, col: 2, rows: 3, cols: 2 })
    );
    assert_eq!(check_product(&a, &a), Err(mismatch((2, 3), (2, 3))));
    assert_eq!(
        product_cell(&a, &a, 0, 0),
        Err(MatrixError::InvalidVectorLength { lhs_len: 3, rhs_len: 2 })
    );
}
