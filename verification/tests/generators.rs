use scirust::generate::{identity, rand_L1, zero_matrix};
use scirust::matrix::{BasicMatrix, Create, Matrix};
use scirust::ring::{neg_one, Num, Ring};
use scirust::util::{indent, to_str, tracefn};

fn cells<M: BasicMatrix<i64>>(m: &M) -> Vec<Vec<i64>> {
    (0..m.num_rows())
        .map(|i| (0..m.num_cols()).map(|j| m.get(i, j).unwrap()).collect())
        .collect()
}

#[test]
fn identity_has_ones_on_the_diagonal() {
    let m: Matrix<i64> = identity(3);
    assert_eq!(cells(&m), vec![vec![1, 0, 0], vec![0, 1, 0], vec![0, 0, 1]]);
    let none: Matrix<i64> = identity(0);
    assert_eq!((none.num_rows(), none.num_cols()), (0, 0));
}

#[test]
fn zero_matrix_has_the_given_shape() {
    let m: Matrix<i64> = zero_matrix(2, 3);
    assert_eq!(cells(&m), vec![vec![0, 0, 0], vec![0, 0, 0]]);
}

#[test]
fn unit_lower_triangular_matrix_draws_what_is_below_the_diagonal() {
    let m: Matrix<i64> = rand_L1(3, |i, j| (i * 10 + j) as i64);
    assert_eq!(cells(&m), vec![vec![1, 0, 0], vec![10, 1, 0], vec![20, 21, 1]]);
}

#[test]
fn unit_lower_triangular_matrix_draws_only_below_the_diagonal() {
    let drawn = std::cell::RefCell::new(Vec::new());
    let _m: Matrix<i64> = rand_L1(3, |i, j| {
        drawn.borrow_mut().push((i, j));
        7
    });
    assert_eq!(*drawn.borrow(), vec![(1, 0), (2, 0), (2, 1)]);
}

#[test]
fn integers_wrap_and_divide_where_they_can() {
    assert_eq!(<i64 as Ring>::zero(), 0);
    assert_eq!(<i64 as Ring>::one(), 1);
    assert_eq!(Ring::plus(i64::MAX, 1), i64::MIN);
    assert_eq!(Ring::times(i64::MAX, 2), -2);
    assert_eq!(Num::minus(i64::MIN, 1), i64::MAX);
    assert_eq!(Num::divide(7i64, 2), Some(3));
    assert_eq!(Num::divide(-7i64, 2), Some(-3));
    assert_eq!(Num::divide(7i64, 0), None);
    assert_eq!(Num::divide(i64::MIN, -1), None);
    assert_eq!(neg_one::<i64>(), -1);
}

#[test]
fn indentation_is_two_spaces_a_level() {
    assert_eq!(indent(0), "");
    assert_eq!(indent(1), "  ");
    assert_eq!(indent(3), "      ");
}

#[test]
fn traced_step_returns_what_the_function_returns() {
    assert_eq!(tracefn("step", || 6 * 7), 42);
}

#[test]
fn matrix_as_text() {
    let m: Matrix<i64> = Matrix::create(2, 3, |i, j| (i * 3 + j) as i64 - 2);
    assert_eq!(to_str(&m, |x| x.to_string()), "[ -2 -1 0 ]\n[ 1 2 3 ]\n");
    let none: Matrix<i64> = Matrix::create(0, 3, |_, _| 0);
    assert_eq!(to_str(&none, |x| x.to_string()), "");
    let thin: Matrix<i64> = Matrix::create(2, 0, |_, _| 0);
    assert_eq!(to_str(&thin, |x| x.to_string()), "[ ]\n[ ]\n");
}
