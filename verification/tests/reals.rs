use scirust::algorithms::{convert, inverse, mat_mul, transpose};
use scirust::cholesky::{cholesky_blocked, cholesky_seq_inplace, cholesky_seq_inplace_raw, cholesky_seq_inplace_start};
use scirust::error::MatrixError;
use scirust::generate::{identity, rand_L1};
use scirust::matrix::{BasicMatrix, Create, Matrix};
use scirust::par;
use scirust::ring::{Num, Real, Ring};
use scirust::views::TransposeMatrix;

/// A double as an element type. Division follows the floating-point rules
/// and is always defined; the square root of a negative number is not.
#[derive(Clone, Copy, Debug, PartialEq)]
struct F(f64);

// For each operation the library asks for its mathematical counterpart
// (`*_spec`) too. For doubles that is the operation itself.
impl Ring for F {
    fn zero_spec() -> F {
        F(0.0)
    }
    fn one_spec() -> F {
        F(1.0)
    }
    fn plus_spec(self, rhs: F) -> F {
        F(self.0 + rhs.0)
    }
    fn times_spec(self, rhs: F) -> F {
        F(self.0 * rhs.0)
    }
    fn zero() -> F {
        F(0.0)
    }
    fn one() -> F {
        F(1.0)
    }
    fn plus(self, rhs: F) -> F {
        F(self.0 + rhs.0)
    }
    fn times(self, rhs: F) -> F {
        F(self.0 * rhs.0)
    }
}

impl Num for F {
    fn minus_spec(self, rhs: F) -> F {
        F(self.0 - rhs.0)
    }
    fn divide_spec(self, rhs: F) -> Option<F> {
        Some(F(self.0 / rhs.0))
    }
    fn minus(self, rhs: F) -> F {
        F(self.0 - rhs.0)
    }
    fn divide(self, rhs: F) -> Option<F> {
        Some(F(self.0 / rhs.0))
    }
}

impl Real for F {
    fn sqrt_spec(self) -> Option<F> {
        self.sqrt()
    }
    fn sqrt(self) -> Option<F> {
        if self.0 >= 0.0 {
            Some(F(self.0.sqrt()))
        } else {
            None
        }
    }
}

fn from_rows(rows: &[&[f64]]) -> Matrix<F> {
    let cols = if rows.is_empty() { 0 } else { rows[0].len() };
    Matrix::create(rows.len(), cols, |i, j| F(rows[i][j]))
}

fn cells<M: BasicMatrix<F>>(m: &M) -> Vec<Vec<f64>> {
    (0..m.num_rows())
        .map(|i| (0..m.num_cols()).map(|j| m.get(i, j).unwrap().0).collect())
        .collect()
}

fn close(a: &[Vec<f64>], b: &[Vec<f64>], eps: f64) -> bool {
    a.len() == b.len()
        && a.iter().zip(b).all(|(x, y)| {
            x.len() == y.len() && x.iter().zip(y).all(|(p, q)| (p - q).abs() <= eps)
        })
}

/// A symmetric positive definite matrix of order `n`: `l * l^T` for a lower
/// triangular `l` with unit diagonal.
fn spd(n: usize) -> Matrix<F> {
    let l: Matrix<F> = rand_L1(n, |i, j| F(((i * 7 + j * 3) % 5) as f64 / 4.0 - 0.5));
    mat_mul(&l, &TransposeMatrix(&l)).unwrap()
}

#[test]
fn inverse_of_one_cell_is_its_reciprocal() {
    let a = from_rows(&[&[2.0]]);
    let inv: Matrix<F> = inverse(&a).unwrap();
    assert_eq!(cells(&inv), vec![vec![0.5]]);
}

#[test]
fn inverse_of_a_two_by_two() {
    let a = from_rows(&[&[4.0, 7.0], &[2.0, 6.0]]);
    let inv: Matrix<F> = inverse(&a).unwrap();
    assert!(close(&cells(&inv), &[vec![0.6, -0.7], vec![-0.2, 0.4]], 1e-12));
}

#[test]
fn inverse_twice_gives_the_matrix_back() {
    for n in 1..8 {
        let a = spd(n);
        let inv: Matrix<F> = inverse(&a).unwrap();
        let back: Matrix<F> = inverse(&inv).unwrap();
        assert!(close(&cells(&back), &cells(&a), 1e-8));
    }
}

#[test]
fn inverse_times_matrix_is_the_identity() {
    for n in 1..8 {
        let a = spd(n);
        let inv: Matrix<F> = inverse(&a).unwrap();
        let p: Matrix<F> = mat_mul(&inv, &a).unwrap();
        let one: Matrix<F> = identity(n);
        assert!(close(&cells(&p), &cells(&one), 1e-8));
    }
}

#[test]
fn inverse_of_a_singular_matrix_is_not_reported() {
    let a = from_rows(&[&[0.0]]);
    let inv: Matrix<F> = inverse(&a).unwrap();
    assert_eq!(cells(&inv), vec![vec![f64::INFINITY]]);
}

#[test]
fn inverse_built_by_blocks_is_the_same() {
    let a = spd(6);
    let plain: Matrix<F> = inverse(&a).unwrap();
    let blocks: Matrix<F> = par::inverse(&a).unwrap();
    assert_eq!(cells(&blocks), cells(&plain));
}

#[test]
fn cholesky_of_a_two_by_two() {
    let mut a = from_rows(&[&[4.0, 2.0], &[2.0, 3.0]]);
    assert_eq!(cholesky_seq_inplace(&mut a), Ok(()));
    assert_eq!(cells(&a), vec![vec![2.0, 0.0], vec![1.0, 2.0f64.sqrt()]]);
    let p: Matrix<F> = mat_mul(&a, &TransposeMatrix(&a)).unwrap();
    assert!(close(&cells(&p), &[vec![4.0, 2.0], vec![2.0, 3.0]], 1e-12));
}

#[test]
fn blocked_cholesky_of_a_two_by_two() {
    let a = from_rows(&[&[4.0, 2.0], &[2.0, 3.0]]);
    let l: Matrix<F> = cholesky_blocked(&a).unwrap();
    assert!(close(&cells(&l), &[vec![2.0, 0.0], vec![1.0, 2.0f64.sqrt()]], 1e-12));
    assert_eq!(l.get(0, 1), Ok(F(0.0)));
}

#[test]
fn cholesky_factor_times_its_transpose_is_the_matrix() {
    for n in 1..9 {
        let a = spd(n);
        let mut seq: Matrix<F> = convert(&a);
        assert_eq!(cholesky_seq_inplace(&mut seq), Ok(()));
        let blocked: Matrix<F> = cholesky_blocked(&a).unwrap();
        for l in [&seq, &blocked] {
            for i in 0..n {
                for j in i + 1..n {
                    assert_eq!(l.get(i, j), Ok(F(0.0)));
                }
            }
            let lt: Matrix<F> = transpose(l);
            let p: Matrix<F> = mat_mul(l, &lt).unwrap();
            assert!(close(&cells(&p), &cells(&a), 1e-8));
        }
        assert!(close(&cells(&blocked), &cells(&seq), 1e-8));
    }
}

#[test]
fn blocked_cholesky_built_by_blocks_is_the_same() {
    let a = spd(7);
    let plain: Matrix<F> = cholesky_blocked(&a).unwrap();
    let blocks: Matrix<F> = par::cholesky_blocked(&a).unwrap();
    assert_eq!(cells(&blocks), cells(&plain));
}

#[test]
fn elimination_steps_leave_the_upper_triangle() {
    let mut a = from_rows(&[&[4.0, 2.0], &[2.0, 3.0]]);
    assert_eq!(cholesky_seq_inplace_raw(&mut a, 0), Ok(()));
    assert_eq!(cells(&a), vec![vec![2.0, 2.0], vec![1.0, 2.0f64.sqrt()]]);
}

#[test]
fn factorization_from_a_later_column() {
    let mut a = from_rows(&[&[9.0, 5.0, 5.0], &[5.0, 4.0, 2.0], &[5.0, 2.0, 3.0]]);
    assert_eq!(cholesky_seq_inplace_start(&mut a, 1), Ok(()));
    // Row and column 0 are left alone; the rest is factored as a 2 by 2.
    assert_eq!(
        cells(&a),
        vec![vec![9.0, 5.0, 5.0], vec![5.0, 2.0, 0.0], vec![5.0, 1.0, 2.0f64.sqrt()]]
    );
    let mut b = from_rows(&[&[4.0, 2.0], &[2.0, 3.0]]);
    assert_eq!(cholesky_seq_inplace_start(&mut b, 2), Ok(()));
    assert_eq!(cells(&b), vec![vec![4.0, 2.0], vec![2.0, 3.0]]);
}

#[test]
fn cholesky_refuses_what_is_not_square() {
    let mut a = from_rows(&[&[1.0, 2.0, 3.0], &[4.0, 5.0, 6.0]]);
    assert_eq!(cholesky_seq_inplace(&mut a), Err(MatrixError::NonSquareMatrix { rows: 2, cols: 3 }));
    assert_eq!(cells(&a), vec![vec![1.0, 2.0, 3.0], vec![4.0, 5.0, 6.0]]);
    let r: Result<Matrix<F>, MatrixError> = cholesky_blocked(&a);
    assert_eq!(r.map(|_| ()), Err(MatrixError::NonSquareMatrix { rows: 2, cols: 3 }));
}

#[test]
fn cholesky_stops_where_there_is_no_square_root() {
    let mut a = from_rows(&[&[-4.0, 2.0], &[2.0, 3.0]]);
    assert_eq!(cholesky_seq_inplace(&mut a), Err(MatrixError::DegenerateNumeric));
    let b = from_rows(&[&[1.0, 2.0], &[2.0, 1.0]]);
    let r: Result<Matrix<F>, MatrixError> = cholesky_blocked(&b);
    assert_eq!(r.map(|_| ()), Err(MatrixError::DegenerateNumeric));
}

#[test]
fn cholesky_through_a_shared_handle_is_refused() {
    let a = from_rows(&[&[4.0, 2.0], &[2.0, 3.0]]);
    let mut handle = &a;
    assert_eq!(cholesky_seq_inplace(&mut handle), Err(MatrixError::ReadOnly));
    assert_eq!(cells(&a), vec![vec![4.0, 2.0], vec![2.0, 3.0]]);
    let b = from_rows(&[&[-4.0]]);
    let mut handle = &b;
    assert_eq!(cholesky_seq_inplace(&mut handle), Err(MatrixError::DegenerateNumeric));
}

#[test]
fn cholesky_of_a_matrix_without_cells() {
    let a: Matrix<F> = Matrix::create(0, 0, |_, _| F(0.0));
    let l: Matrix<F> = cholesky_blocked(&a).unwrap();
    assert_eq!((l.num_rows(), l.num_cols()), (0, 0));
}

#[test]
fn products_of_doubles_by_divide_and_conquer_are_close() {
    let a: Matrix<F> = Matrix::create(96, 100, |i, j| F(((i * 37 + j * 11) % 17) as f64 / 16.0 - 0.5));
    let b: Matrix<F> = Matrix::create(100, 90, |i, j| F(((i * 5 + j * 23) % 13) as f64 / 12.0 - 0.5));
    let plain: Matrix<F> = mat_mul(&a, &b).unwrap();
    let split: Matrix<F> = par::mat_mul(&a, &b).unwrap();
    assert!(close(&cells(&split), &cells(&plain), 1e-9));
}
