use std::sync::Arc;

use scirust::error::MatrixError;
use scirust::matrix::{BasicMatrix, Create, Matrix};

fn sample() -> Matrix<i64> {
    // [[1, 2, 3], [4, 5, 6]]
    Matrix::create(2, 3, |i, j| (i * 3 + j + 1) as i64)
}

#[test]
fn create_fills_every_cell_from_the_generator() {
    let m = sample();
    assert_eq!(m.num_rows(), 2);
    assert_eq!(m.num_cols(), 3);
    assert_eq!(m.get(0, 0), Ok(1));
    assert_eq!(m.get(0, 2), Ok(3));
    assert_eq!(m.get(1, 0), Ok(4));
    assert_eq!(m.get(1, 2), Ok(6));
}

#[test]
fn create_calls_the_generator_row_by_row() {
    let calls = std::cell::RefCell::new(Vec::new());
    let _m: Matrix<i64> = Matrix::create(2, 2, |i, j| {
        calls.borrow_mut().push((i, j));
        0
    });
    assert_eq!(*calls.borrow(), vec![(0, 0), (0, 1), (1, 0), (1, 1)]);
}

#[test]
fn create_with_no_rows_or_no_columns() {
    let a: Matrix<i64> = Matrix::create(0, 5, |_, _| 1);
    assert_eq!((a.num_rows(), a.num_cols()), (0, 5));
    assert_eq!(
        a.get(0, 0),
        Err(MatrixError::IndexOutOfBounds { row: 0, col: 0, rows: 0, cols: 5 })
    );
    let b: Matrix<i64> = Matrix::create(3, 0, |_, _| 1);
    assert_eq!((b.num_rows(), b.num_cols()), (3, 0));
}

#[test]
fn get_outside_reports_cell_and_dimensions() {
    let m = sample();
    assert_eq!(
        m.get(2, 0),
        Err(MatrixError::IndexOutOfBounds { row: 2, col: 0, rows: 2, cols: 3 })
    );
    assert_eq!(
        m.get(0, 3),
        Err(MatrixError::IndexOutOfBounds { row: 0, col: 3, rows: 2, cols: 3 })
    );
}

#[test]
fn set_changes_one_cell() {
    let mut m = sample();
    assert_eq!(m.set(1, 1, 50), Ok(()));
    assert_eq!(m.get(1, 1), Ok(50));
    assert_eq!(m.get(0, 1), Ok(2));
    assert_eq!(m.get(1, 0), Ok(4));
    assert_eq!(m.get(1, 2), Ok(6));
}

#[test]
fn set_outside_is_refused_and_changes_nothing() {
    let mut m = sample();
    assert_eq!(
        m.set(2, 1, 9),
        Err(MatrixError::IndexOutOfBounds { row: 2, col: 1, rows: 2, cols: 3 })
    );
    assert_eq!(m.get(1, 1), Ok(5));
}

#[test]
fn shared_reference_reads_and_refuses_writes() {
    let m = sample();
    let mut handle = &m;
    assert_eq!(BasicMatrix::num_rows(&handle), 2);
    assert_eq!(BasicMatrix::get(&handle, 1, 2), Ok(6));
    assert_eq!(BasicMatrix::set(&mut handle, 0, 0, 7), Err(MatrixError::ReadOnly));
    assert_eq!(
        BasicMatrix::set(&mut handle, 5, 0, 7),
        Err(MatrixError::IndexOutOfBounds { row: 5, col: 0, rows: 2, cols: 3 })
    );
    assert_eq!(m.get(0, 0), Ok(1));
}

#[test]
fn exclusive_reference_writes_through() {
    let mut m = sample();
    {
        let mut handle = &mut m;
        assert_eq!(BasicMatrix::set(&mut handle, 0, 0, 7), Ok(()));
        assert_eq!(BasicMatrix::get(&handle, 0, 0), Ok(7));
    }
    assert_eq!(m.get(0, 0), Ok(7));
}

#[test]
fn reference_counted_matrix_reads_and_refuses_writes() {
    let mut shared = Arc::new(sample());
    let other = shared.clone();
    assert_eq!(BasicMatrix::num_cols(&shared), 3);
    assert_eq!(BasicMatrix::get(&other, 1, 1), Ok(5));
    assert_eq!(BasicMatrix::set(&mut shared, 1, 1, 0), Err(MatrixError::ReadOnly));
    assert_eq!(BasicMatrix::get(&other, 1, 1), Ok(5));
}
