use scirust::error::MatrixError;
use scirust::matrix::{BasicMatrix, Create, Matrix};
use scirust::views::{col, row, transpose, SubMatrix, TransposeMatrix, Vector};

fn sample() -> Matrix<i64> {
    // [[0, 1, 2, 3], [10, 11, 12, 13], [20, 21, 22, 23]]
    Matrix::create(3, 4, |i, j| (i * 10 + j) as i64)
}

#[test]
fn window_redirects_reads_to_the_base() {
    let m = sample();
    let w = SubMatrix(&m, 1, 2, 2, 2).unwrap();
    assert_eq!((w.num_rows(), w.num_cols()), (2, 2));
    assert_eq!(w.get(0, 0), Ok(12));
    assert_eq!(w.get(0, 1), Ok(13));
    assert_eq!(w.get(1, 0), Ok(22));
    assert_eq!(w.get(1, 1), Ok(23));
}

#[test]
fn window_access_outside_its_extent_fails() {
    let base: Matrix<i64> = Matrix::create(2, 2, |i, j| (i * 2 + j) as i64);
    let w = SubMatrix(&base, 0, 0, 2, 2).unwrap();
    assert_eq!(
        w.get(2, 0),
        Err(MatrixError::IndexOutOfBounds { row: 2, col: 0, rows: 2, cols: 2 })
    );
}

#[test]
fn window_inside_a_larger_base_checks_its_own_extent() {
    let m = sample();
    let w = SubMatrix(&m, 0, 0, 2, 2).unwrap();
    // (0, 2) is a cell of the base, but not of the window.
    assert_eq!(
        w.get(0, 2),
        Err(MatrixError::IndexOutOfBounds { row: 0, col: 2, rows: 2, cols: 2 })
    );
}

#[test]
fn window_must_be_non_empty_and_inside() {
    let m = sample();
    let refused = |i, j, rows, cols| {
        Err::<(), MatrixError>(MatrixError::InvalidWindow {
            row: i,
            col: j,
            rows,
            cols,
            base_rows: 3,
            base_cols: 4,
        })
    };
    assert_eq!(SubMatrix(&m, 0, 0, 0, 2).map(|_| ()), refused(0, 0, 0, 2));
    assert_eq!(SubMatrix(&m, 0, 0, 2, 0).map(|_| ()), refused(0, 0, 2, 0));
    assert_eq!(SubMatrix(&m, 3, 0, 1, 1).map(|_| ()), refused(3, 0, 1, 1));
    assert_eq!(SubMatrix(&m, 0, 4, 1, 1).map(|_| ()), refused(0, 4, 1, 1));
    assert_eq!(SubMatrix(&m, 2, 0, 2, 1).map(|_| ()), refused(2, 0, 2, 1));
    assert_eq!(SubMatrix(&m, 0, 3, 1, 2).map(|_| ()), refused(0, 3, 1, 2));
    assert_eq!(
        SubMatrix(&m, 0, 0, usize::MAX, 1).map(|_| ()),
        refused(0, 0, usize::MAX, 1)
    );
    assert!(SubMatrix(&m, 2, 3, 1, 1).is_ok());
    assert!(SubMatrix(&m, 0, 0, 3, 4).is_ok());
}

#[test]
fn window_over_shared_base_refuses_writes() {
    let m = sample();
    let mut w = SubMatrix(&m, 1, 1, 2, 2).unwrap();
    assert_eq!(w.set(0, 0, 99), Err(MatrixError::ReadOnly));
    assert_eq!(
        w.set(2, 0, 99),
        Err(MatrixError::IndexOutOfBounds { row: 2, col: 0, rows: 2, cols: 2 })
    );
    assert_eq!(m.get(1, 1), Ok(11));
}

#[test]
fn window_over_exclusive_base_writes_through() {
    let mut m = sample();
    {
        let mut w = SubMatrix(&mut m, 1, 1, 2, 2).unwrap();
        assert_eq!(w.set(1, 0, 99), Ok(()));
        assert_eq!(w.get(1, 0), Ok(99));
        assert_eq!(w.get(0, 0), Ok(11));
    }
    assert_eq!(m.get(2, 1), Ok(99));
    assert_eq!(m.get(1, 1), Ok(11));
}

#[test]
fn transposed_view_swaps_coordinates() {
    let m = sample();
    let t = TransposeMatrix(&m);
    assert_eq!((t.num_rows(), t.num_cols()), (4, 3));
    assert_eq!(t.get(3, 1), Ok(13));
    assert_eq!(t.get(0, 2), Ok(20));
    assert_eq!(
        t.get(1, 3),
        Err(MatrixError::IndexOutOfBounds { row: 1, col: 3, rows: 4, cols: 3 })
    );
    let u = transpose(&m);
    assert_eq!(u.get(2, 1), Ok(12));
}

#[test]
fn transposed_view_writes_with_swapped_coordinates() {
    let mut m = sample();
    {
        let mut t = TransposeMatrix(&mut m);
        assert_eq!(t.set(3, 0, -1), Ok(()));
        assert_eq!(
            t.set(0, 3, -1),
            Err(MatrixError::IndexOutOfBounds { row: 0, col: 3, rows: 4, cols: 3 })
        );
    }
    assert_eq!(m.get(0, 3), Ok(-1));
    let mut shared = TransposeMatrix(&m);
    assert_eq!(shared.set(1, 1, 0), Err(MatrixError::ReadOnly));
}

#[test]
fn transpose_of_transpose_view_is_the_matrix() {
    let m = sample();
    let tt = TransposeMatrix(TransposeMatrix(&m));
    assert_eq!((tt.num_rows(), tt.num_cols()), (3, 4));
    for i in 0..3 {
        for j in 0..4 {
            assert_eq!(tt.get(i, j), m.get(i, j));
        }
    }
}

#[test]
fn row_and_column_vectors() {
    let m = sample();
    let r = row(&m, 1).unwrap();
    assert_eq!(r.len(), 4);
    assert_eq!(r.get(0), Ok(10));
    assert_eq!(r.get(3), Ok(13));
    assert_eq!(
        r.get(4),
        Err(MatrixError::IndexOutOfBounds { row: 1, col: 4, rows: 3, cols: 4 })
    );
    let c = col(&m, 2).unwrap();
    assert_eq!(c.len(), 3);
    assert_eq!(c.get(0), Ok(2));
    assert_eq!(c.get(2), Ok(22));
    assert_eq!(
        c.get(3),
        Err(MatrixError::IndexOutOfBounds { row: 3, col: 2, rows: 3, cols: 4 })
    );
}

#[test]
fn row_and_column_outside_the_matrix() {
    let m = sample();
    assert_eq!(
        row(&m, 3).map(|_| ()),
        Err(MatrixError::IndexOutOfBounds { row: 3, col: 0, rows: 3, cols: 4 })
    );
    assert_eq!(
        col(&m, 4).map(|_| ()),
        Err(MatrixError::IndexOutOfBounds { row: 0, col: 4, rows: 3, cols: 4 })
    );
}

#[test]
fn vectors_write_through_exclusive_handles_only() {
    let mut m = sample();
    {
        let mut r = row(&mut m, 2).unwrap();
        assert_eq!(r.set(1, 7), Ok(()));
        assert_eq!(
            r.set(4, 7),
            Err(MatrixError::IndexOutOfBounds { row: 2, col: 4, rows: 3, cols: 4 })
        );
    }
    {
        let mut c = col(&mut m, 0).unwrap();
        assert_eq!(c.set(0, 8), Ok(()));
    }
    assert_eq!(m.get(2, 1), Ok(7));
    assert_eq!(m.get(0, 0), Ok(8));
    let mut shared = row(&m, 0).unwrap();
    assert_eq!(shared.set(0, 1), Err(MatrixError::ReadOnly));
}

#[test]
fn a_view_that_owns_its_base_hands_it_back() {
    let mut w = SubMatrix(sample(), 1, 1, 2, 2).unwrap();
    assert_eq!(w.set(0, 1, 99), Ok(()));
    let m = w.into_base();
    assert_eq!(m.get(1, 2), Ok(99));
    assert_eq!(m.get(1, 1), Ok(11));
    let mut r = row(m, 0).unwrap();
    assert_eq!(r.set(3, 98), Ok(()));
    let mut c = col(r.into_base(), 0).unwrap();
    assert_eq!(c.set(2, 97), Ok(()));
    let mut t = TransposeMatrix(c.into_base());
    assert_eq!(t.set(0, 1, 96), Ok(()));
    let m = t.0;
    assert_eq!(m.get(0, 3), Ok(98));
    assert_eq!(m.get(2, 0), Ok(97));
    assert_eq!(m.get(1, 0), Ok(96));
}

#[test]
fn index_reads_like_get() {
    let m = sample();
    assert_eq!(m.index(&(1, 2)), Ok(12));
    assert_eq!(
        m.index(&(3, 0)),
        Err(MatrixError::IndexOutOfBounds { row: 3, col: 0, rows: 3, cols: 4 })
    );
    let r = row(&m, 2).unwrap();
    assert_eq!(r.index(&1), Ok(21));
    assert_eq!(
        r.index(&4),
        Err(MatrixError::IndexOutOfBounds { row: 2, col: 4, rows: 3, cols: 4 })
    );
}
