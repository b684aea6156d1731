//! The sequential algorithms, written against the capability traits.

use vstd::prelude::*;
use crate::error::MatrixError;
use crate::grid::{
    Grid, dot_prefix, dot_spec, lemma_grid_ext, blocked_times, dimension_leaf, lemma_blocked_times_shape,
    inverse_spec, lemma_inverse_shape,
};
use crate::matrix::{BasicMatrix, Create, grid_of};
use crate::ring::{Ring, Num, neg_one};
use crate::views::{Vector, seq_of, row, col, SubMatrix};

verus! {

/// A shared handle stands for the same matrix as what it refers to.
pub proof fn lemma_handle_grid<T, M: BasicMatrix<T>>(m: &M)
    ensures
        grid_of(&m) == grid_of(m),
{
    lemma_grid_ext(grid_of(&m), grid_of(m));
}

/// Reads a cell that is known to exist.
pub fn cell<T, M: BasicMatrix<T>>(m: &M, i: usize, j: usize) -> (x: T)
    requires
        m.inv(),
        i < m.spec_rows(),
        j < m.spec_cols(),
    ensures
        x == m.spec_at(i as int, j as int),
{
    m.get(i, j).unwrap()
}

/// The error that `dot` reports for vectors of these lengths, if any.
pub open spec fn dot_error(lhs_len: nat, rhs_len: nat) -> Option<MatrixError> {
    if lhs_len == 0 || lhs_len != rhs_len {
        Some(MatrixError::InvalidVectorLength { lhs_len: lhs_len as usize, rhs_len: rhs_len as usize })
    } else {
        None
    }
}

/// The dot product of two vectors: the running sum of the products of their
/// cells, in ascending order of index. Vectors of different lengths, or of
/// length zero, are refused with `InvalidVectorLength`.
pub fn dot<T: Ring, L: Vector<T>, R: Vector<T>>(lhs: &L, rhs: &R) -> (r: Result<T, MatrixError>)
    requires
        lhs.inv(),
        rhs.inv(),
    ensures
        r == (match dot_error(lhs.spec_len(), rhs.spec_len()) {
            Some(e) => Err(e),
            None => Ok(dot_spec(seq_of(lhs), seq_of(rhs))),
        }),
{
    let n = lhs.len();
    let rhs_len = rhs.len();
    if n == 0 || n != rhs_len {
        return Err(MatrixError::InvalidVectorLength { lhs_len: n, rhs_len });
    }
    let a = lhs.get(0).unwrap();
    let b = rhs.get(0).unwrap();
    let mut acc: T = a.times(b);
    let mut k: usize = 1;
    while k < n
        invariant
            lhs.inv(),
            rhs.inv(),
            n == lhs.spec_len(),
            n == rhs.spec_len(),
            1 <= k <= n,
            acc == dot_prefix(seq_of(lhs), seq_of(rhs), k as nat),
        decreases n - k,
    {
        let a = lhs.get(k).unwrap();
        let b = rhs.get(k).unwrap();
        acc = acc.plus(a.times(b));
        k = k + 1;
    }
    Ok(acc)
}

/// The error that a product of matrices of these shapes reports, if any: the
/// inner dimensions differ, or they are zero while the product has cells.
pub open spec fn times_error<T>(a: Grid<T>, b: Grid<T>) -> Option<MatrixError> {
    if a.cols != b.rows {
        Some(
            MatrixError::DimensionMismatch {
                lhs_rows: a.rows as usize,
                lhs_cols: a.cols as usize,
                rhs_rows: b.rows as usize,
                rhs_cols: b.cols as usize,
            },
        )
    } else if a.cols == 0 && a.rows > 0 && b.cols > 0 {
        Some(MatrixError::InvalidVectorLength { lhs_len: 0, rhs_len: 0 })
    } else {
        None
    }
}

/// The error that a cell-wise operation on matrices of these shapes reports,
/// if any.
pub open spec fn shape_error<T>(a: Grid<T>, b: Grid<T>) -> Option<MatrixError> {
    if a.rows != b.rows || a.cols != b.cols {
        Some(
            MatrixError::DimensionMismatch {
                lhs_rows: a.rows as usize,
                lhs_cols: a.cols as usize,
                rhs_rows: b.rows as usize,
                rhs_cols: b.cols as usize,
            },
        )
    } else {
        None
    }
}

/// `r` is a valid, writable matrix that stands for `g`, or the error `e`; it
/// is the matrix exactly when there is no error.
pub open spec fn yields<T, M: BasicMatrix<T>>(r: Result<M, MatrixError>, e: Option<MatrixError>, g: Grid<T>) -> bool {
    match r {
        Ok(m) => e is None && m.inv() && m.writable() && grid_of(&m) == g,
        Err(err) => e == Some(err),
    }
}

/// Checks that the product of `lhs` and `rhs` exists: the inner dimensions
/// agree, and are not zero where the product has cells.
pub fn check_product<T, LHS: BasicMatrix<T>, RHS: BasicMatrix<T>>(lhs: &LHS, rhs: &RHS) -> (r: Result<
    (),
    MatrixError,
>)
    requires
        lhs.inv(),
        rhs.inv(),
    ensures
        r == (match times_error(grid_of(lhs), grid_of(rhs)) {
            Some(e) => Err::<(), MatrixError>(e),
            None => Ok(()),
        }),
{
    let rows = lhs.num_rows();
    let inner = lhs.num_cols();
    let cols = rhs.num_cols();
    if inner != rhs.num_rows() {
        Err(
            MatrixError::DimensionMismatch {
                lhs_rows: rows,
                lhs_cols: inner,
                rhs_rows: rhs.num_rows(),
                rhs_cols: cols,
            },
        )
    } else if inner == 0 && rows > 0 && cols > 0 {
        Err(MatrixError::InvalidVectorLength { lhs_len: 0, rhs_len: 0 })
    } else {
        Ok(())
    }
}

/// The error that `product_cell` reports for cell `(i, j)`, if any: a row
/// that `lhs` does not have, a column that `rhs` does not have, or a row and
/// a column that have no dot product.
pub open spec fn cell_error<T>(a: Grid<T>, b: Grid<T>, i: usize, j: usize) -> Option<MatrixError> {
    if i >= a.rows {
        Some(MatrixError::IndexOutOfBounds { row: i, col: 0, rows: a.rows as usize, cols: a.cols as usize })
    } else if j >= b.cols {
        Some(MatrixError::IndexOutOfBounds { row: 0, col: j, rows: b.rows as usize, cols: b.cols as usize })
    } else {
        dot_error(a.cols, b.rows)
    }
}

/// Cell `(i, j)` of the product of `lhs` and `rhs`: the dot product of row
/// `i` of `lhs` with column `j` of `rhs`.
pub fn product_cell<T: Ring, LHS: BasicMatrix<T>, RHS: BasicMatrix<T>>(
    lhs: &LHS,
    rhs: &RHS,
    i: usize,
    j: usize,
) -> (r: Result<T, MatrixError>)
    requires
        lhs.inv(),
        rhs.inv(),
    ensures
        r == (match cell_error(grid_of(lhs), grid_of(rhs), i, j) {
            Some(e) => Err(e),
            None => Ok(dot_spec(grid_of(lhs).row(i as int), grid_of(rhs).col(j as int))),
        }),
{
    proof {
        lemma_handle_grid(lhs);
        lemma_handle_grid(rhs);
    }
    let u = row(lhs, i)?;
    let v = col(rhs, j)?;
    proof {
        assert(seq_of(&u).len() == u.spec_len());
        assert(seq_of(&v).len() == v.spec_len());
        assert(grid_of(lhs).row(i as int).len() == lhs.spec_cols());
        assert(grid_of(rhs).col(j as int).len() == rhs.spec_rows());
    }
    dot(&u, &v)
}

/// The matrix product. Cell `(i, j)` of the result is the dot product of row
/// `i` of `lhs` with column `j` of `rhs`.
pub fn mat_mul<T: Ring, LHS: BasicMatrix<T>, RHS: BasicMatrix<T>, Res: Create<T>>(
    lhs: &LHS,
    rhs: &RHS,
) -> (r: Result<Res, MatrixError>)
    requires
        lhs.inv(),
        rhs.inv(),
        lhs.spec_rows() * rhs.spec_cols() <= usize::MAX,
    ensures
        yields(r, times_error(grid_of(lhs), grid_of(rhs)), grid_of(lhs).times(grid_of(rhs))),
{
    check_product(lhs, rhs)?;
    let rows = lhs.num_rows();
    let cols = rhs.num_cols();
    let f = |i: usize, j: usize| -> (x: T)
        requires
            i < rows,
            j < cols,
        ensures
            x == dot_spec(grid_of(lhs).row(i as int), grid_of(rhs).col(j as int)),
        { product_cell(lhs, rhs, i, j).unwrap() };
    let m = Res::create(rows, cols, f);
    proof {
        let target = grid_of(lhs).times(grid_of(rhs));
        assert forall|i: int, j: int| target.has(i, j) implies grid_of(&m).at(i, j) == target.at(i, j) by {
            assert(call_ensures(f, (i as usize, j as usize), m.spec_at(i as usize as int, j as usize as int)));
        }
        lemma_grid_ext(grid_of(&m), target);
    }
    Ok(m)
}

/// The cell-wise sum of two matrices of one shape.
pub fn mat_add<T: Ring, LHS: BasicMatrix<T>, RHS: BasicMatrix<T>, Res: Create<T>>(
    lhs: &LHS,
    rhs: &RHS,
) -> (r: Result<Res, MatrixError>)
    requires
        lhs.inv(),
        rhs.inv(),
        lhs.spec_rows() * lhs.spec_cols() <= usize::MAX,
    ensures
        yields(r, shape_error(grid_of(lhs), grid_of(rhs)), grid_of(lhs).plus(grid_of(rhs))),
{
    let rows = lhs.num_rows();
    let cols = lhs.num_cols();
    if cols != rhs.num_cols() || rows != rhs.num_rows() {
        return Err(
            MatrixError::DimensionMismatch {
                lhs_rows: rows,
                lhs_cols: cols,
                rhs_rows: rhs.num_rows(),
                rhs_cols: rhs.num_cols(),
            },
        );
    }
    let f = |i: usize, j: usize| -> (x: T)
        requires
            i < rows,
            j < cols,
        ensures
            x == lhs.spec_at(i as int, j as int).plus_spec(rhs.spec_at(i as int, j as int)),
        { cell(lhs, i, j).plus(cell(rhs, i, j)) };
    let m = Res::create(rows, cols, f);
    proof {
        let target = grid_of(lhs).plus(grid_of(rhs));
        assert forall|i: int, j: int| target.has(i, j) implies grid_of(&m).at(i, j) == target.at(i, j) by {
            assert(call_ensures(f, (i as usize, j as usize), m.spec_at(i as usize as int, j as usize as int)));
        }
        lemma_grid_ext(grid_of(&m), target);
    }
    Ok(m)
}

/// The cell-wise difference of two matrices of one shape.
pub fn mat_sub<T: Num, LHS: BasicMatrix<T>, RHS: BasicMatrix<T>, Res: Create<T>>(
    lhs: &LHS,
    rhs: &RHS,
) -> (r: Result<Res, MatrixError>)
    requires
        lhs.inv(),
        rhs.inv(),
        lhs.spec_rows() * lhs.spec_cols() <= usize::MAX,
    ensures
        yields(r, shape_error(grid_of(lhs), grid_of(rhs)), grid_of(lhs).minus(grid_of(rhs))),
{
    let rows = lhs.num_rows();
    let cols = lhs.num_cols();
    if cols != rhs.num_cols() || rows != rhs.num_rows() {
        return Err(
            MatrixError::DimensionMismatch {
                lhs_rows: rows,
                lhs_cols: cols,
                rhs_rows: rhs.num_rows(),
                rhs_cols: rhs.num_cols(),
            },
        );
    }
    let f = |i: usize, j: usize| -> (x: T)
        requires
            i < rows,
            j < cols,
        ensures
            x == lhs.spec_at(i as int, j as int).minus_spec(rhs.spec_at(i as int, j as int)),
        { cell(lhs, i, j).minus(cell(rhs, i, j)) };
    let m = Res::create(rows, cols, f);
    proof {
        let target = grid_of(lhs).minus(grid_of(rhs));
        assert forall|i: int, j: int| target.has(i, j) implies grid_of(&m).at(i, j) == target.at(i, j) by {
            assert(call_ensures(f, (i as usize, j as usize), m.spec_at(i as usize as int, j as usize as int)));
        }
        lemma_grid_ext(grid_of(&m), target);
    }
    Ok(m)
}

/// A new matrix that holds the transpose of `m`.
pub fn transpose<T, M: BasicMatrix<T>, R: Create<T>>(m: &M) -> (r: R)
    requires
        m.inv(),
        m.spec_rows() * m.spec_cols() <= usize::MAX,
    ensures
        r.inv(),
        r.writable(),
        grid_of(&r) == grid_of(m).transposed(),
{
    let rows = m.num_cols();
    let cols = m.num_rows();
    proof {
        assert(rows * cols == cols * rows) by (nonlinear_arith);
    }
    let f = |i: usize, j: usize| -> (x: T)
        requires
            i < rows,
            j < cols,
        ensures
            x == m.spec_at(j as int, i as int),
        { cell(m, j, i) };
    let r = R::create(rows, cols, f);
    proof {
        let target = grid_of(m).transposed();
        assert forall|i: int, j: int| target.has(i, j) implies grid_of(&r).at(i, j) == target.at(i, j) by {
            assert(call_ensures(f, (i as usize, j as usize), r.spec_at(i as usize as int, j as usize as int)));
        }
        lemma_grid_ext(grid_of(&r), target);
    }
    r
}

/// The error that stacking `b` below `a` reports, if any.
pub open spec fn stack_error<T>(a: Grid<T>, b: Grid<T>) -> Option<MatrixError> {
    if a.cols != b.cols {
        Some(
            MatrixError::DimensionMismatch {
                lhs_rows: a.rows as usize,
                lhs_cols: a.cols as usize,
                rhs_rows: b.rows as usize,
                rhs_cols: b.cols as usize,
            },
        )
    } else {
        None
    }
}

/// The error that placing `b` beside `a` reports, if any.
pub open spec fn beside_error<T>(a: Grid<T>, b: Grid<T>) -> Option<MatrixError> {
    if a.rows != b.rows {
        Some(
            MatrixError::DimensionMismatch {
                lhs_rows: a.rows as usize,
                lhs_cols: a.cols as usize,
                rhs_rows: b.rows as usize,
                rhs_cols: b.cols as usize,
            },
        )
    } else {
        None
    }
}

/// `a` stacked on top of `b`: the rows of `a`, then the rows of `b`.
pub fn concat_rows<T, LHS: BasicMatrix<T>, RHS: BasicMatrix<T>, R: Create<T>>(a: &LHS, b: &RHS) -> (r: Result<
    R,
    MatrixError,
>)
    requires
        a.inv(),
        b.inv(),
        (a.spec_rows() + b.spec_rows()) * a.spec_cols() <= usize::MAX,
        a.spec_rows() + b.spec_rows() <= usize::MAX,
    ensures
        yields(r, stack_error(grid_of(a), grid_of(b)), grid_of(a).stack(grid_of(b))),
{
    let n = a.num_rows();
    let cols = a.num_cols();
    let below = b.num_rows();
    if cols != b.num_cols() {
        return Err(
            MatrixError::DimensionMismatch { lhs_rows: n, lhs_cols: cols, rhs_rows: below, rhs_cols: b.num_cols() },
        );
    }
    let rows = n + below;
    let f = |i: usize, j: usize| -> (x: T)
        requires
            i < rows,
            j < cols,
        ensures
            x == (if i < n {
                a.spec_at(i as int, j as int)
            } else {
                b.spec_at(i - n, j as int)
            }),
        {
            if i < n {
                cell(a, i, j)
            } else {
                cell(b, i - n, j)
            }
        };
    let r = R::create(rows, cols, f);
    proof {
        let target = grid_of(a).stack(grid_of(b));
        assert forall|i: int, j: int| target.has(i, j) implies grid_of(&r).at(i, j) == target.at(i, j) by {
            assert(call_ensures(f, (i as usize, j as usize), r.spec_at(i as usize as int, j as usize as int)));
        }
        lemma_grid_ext(grid_of(&r), target);
    }
    Ok(r)
}

/// `a` with `b` beside it: each row of `a` followed by the same row of `b`.
pub fn concat_cols<T, LHS: BasicMatrix<T>, RHS: BasicMatrix<T>, R: Create<T>>(a: &LHS, b: &RHS) -> (r: Result<
    R,
    MatrixError,
>)
    requires
        a.inv(),
        b.inv(),
        a.spec_rows() * (a.spec_cols() + b.spec_cols()) <= usize::MAX,
        a.spec_cols() + b.spec_cols() <= usize::MAX,
    ensures
        yields(r, beside_error(grid_of(a), grid_of(b)), grid_of(a).beside(grid_of(b))),
{
    let n = a.num_cols();
    let rows = a.num_rows();
    let right = b.num_cols();
    if rows != b.num_rows() {
        return Err(
            MatrixError::DimensionMismatch { lhs_rows: rows, lhs_cols: n, rhs_rows: b.num_rows(), rhs_cols: right },
        );
    }
    let cols = n + right;
    let f = |i: usize, j: usize| -> (x: T)
        requires
            i < rows,
            j < cols,
        ensures
            x == (if j < n {
                a.spec_at(i as int, j as int)
            } else {
                b.spec_at(i as int, j - n)
            }),
        {
            if j < n {
                cell(a, i, j)
            } else {
                cell(b, i, j - n)
            }
        };
    let r = R::create(rows, cols, f);
    proof {
        let target = grid_of(a).beside(grid_of(b));
        assert forall|i: int, j: int| target.has(i, j) implies grid_of(&r).at(i, j) == target.at(i, j) by {
            assert(call_ensures(f, (i as usize, j as usize), r.spec_at(i as usize as int, j as usize as int)));
        }
        lemma_grid_ext(grid_of(&r), target);
    }
    Ok(r)
}

/// A new matrix with the cells of `m`: turns any matrix-like object into a
/// concrete one.
pub fn convert<T, M: BasicMatrix<T>, R: Create<T>>(m: &M) -> (r: R)
    requires
        m.inv(),
        m.spec_rows() * m.spec_cols() <= usize::MAX,
    ensures
        r.inv(),
        r.writable(),
        grid_of(&r) == grid_of(m),
{
    let rows = m.num_rows();
    let cols = m.num_cols();
    let f = |i: usize, j: usize| -> (x: T)
        requires
            i < rows,
            j < cols,
        ensures
            x == m.spec_at(i as int, j as int),
        { cell(m, i, j) };
    let r = R::create(rows, cols, f);
    proof {
        let target = grid_of(m);
        assert forall|i: int, j: int| target.has(i, j) implies grid_of(&r).at(i, j) == target.at(i, j) by {
            assert(call_ensures(f, (i as usize, j as usize), r.spec_at(i as usize as int, j as usize as int)));
        }
        lemma_grid_ext(grid_of(&r), target);
    }
    r
}

/// The shape of a matrix is the shape of the grid that it stands for.
pub proof fn lemma_shape_of<T, M: BasicMatrix<T>>(m: &M)
    ensures
        grid_of(m).rows == m.spec_rows(),
        grid_of(m).cols == m.spec_cols(),
        grid_of(m).wf(),
{
}

/// A product of two bounded numbers is bounded by the product of the bounds.
pub proof fn lemma_area_bound(a: int, b: int, rows: int, cols: int)
    requires
        0 <= a <= rows,
        0 <= b <= cols,
    ensures
        0 <= a * b <= rows * cols,
{
    assert(0 <= a * b <= rows * cols) by (nonlinear_arith)
        requires
            0 <= a <= rows,
            0 <= b <= cols,
    ;
}

/// The four quadrants of `m` as windows: upper left, upper right, lower left,
/// lower right. The split is at half of each dimension, rounded down, so that
/// the second half is the larger one. A matrix with fewer than two rows or
/// columns has no such quadrants: the upper left one is refused with
/// `InvalidWindow`.
pub fn subdivide<'a, T, M: BasicMatrix<T>>(m: &'a M) -> (r: Result<
    (SubMatrix<&'a M>, SubMatrix<&'a M>, SubMatrix<&'a M>, SubMatrix<&'a M>),
    MatrixError,
>)
    requires
        m.inv(),
    ensures
        r is Ok <==> m.spec_rows() >= 2 && m.spec_cols() >= 2,
        r matches Ok(q) ==> {
            &&& q.0.inv() && q.1.inv() && q.2.inv() && q.3.inv()
            &&& grid_of(&q.0) == grid_of(m).top_left()
            &&& grid_of(&q.1) == grid_of(m).top_right()
            &&& grid_of(&q.2) == grid_of(m).bottom_left()
            &&& grid_of(&q.3) == grid_of(m).bottom_right()
        },
        r matches Err(e) ==> e == (MatrixError::InvalidWindow {
            row: 0,
            col: 0,
            rows: (m.spec_rows() / 2) as usize,
            cols: (m.spec_cols() / 2) as usize,
            base_rows: m.spec_rows() as usize,
            base_cols: m.spec_cols() as usize,
        }),
{
    let h = m.num_rows();
    let w = m.num_cols();
    let h2 = h / 2;
    let h2a = h - h2;
    let w2 = w / 2;
    let w2a = w - w2;
    proof {
        lemma_handle_grid(m);
    }
    let a = SubMatrix(m, 0, 0, h2, w2)?;
    let b = SubMatrix(m, 0, w2, h2, w2a).unwrap();
    let c = SubMatrix(m, h2, 0, h2a, w2).unwrap();
    let d = SubMatrix(m, h2, w2, h2a, w2a).unwrap();
    Ok((a, b, c, d))
}

/// Below this size in any dimension `mat_mul_blocked` multiplies directly.
pub const CUTOFF: usize = 32;

/// The blocked product of two concrete matrices whose inner dimensions agree.
fn blocked_product<T: Ring, Res: Create<T>>(lhs: &Res, rhs: &Res) -> (r: Result<Res, MatrixError>)
    requires
        lhs.inv(),
        rhs.inv(),
        lhs.spec_cols() == rhs.spec_rows(),
        lhs.spec_rows() * lhs.spec_cols() <= usize::MAX,
        rhs.spec_rows() * rhs.spec_cols() <= usize::MAX,
        lhs.spec_rows() * rhs.spec_cols() <= usize::MAX,
    ensures
        yields(
            r,
            times_error(grid_of(lhs), grid_of(rhs)),
            blocked_times(grid_of(lhs), grid_of(rhs), dimension_leaf(CUTOFF as nat)),
        ),
    decreases lhs.spec_rows(),
{
    let rows = lhs.num_rows();
    let inner = lhs.num_cols();
    let cols = rhs.num_cols();
    if rows <= CUTOFF || inner <= CUTOFF || cols <= CUTOFF {
        return mat_mul(lhs, rhs);
    }
    let ghost ga = grid_of(lhs);
    let ghost gb = grid_of(rhs);
    let ghost leaf = dimension_leaf(CUTOFF as nat);
    proof {
        lemma_area_bound(rows as int / 2, inner as int / 2, rows as int, inner as int);
        lemma_area_bound(rows as int / 2, inner - inner as int / 2, rows as int, inner as int);
        lemma_area_bound(rows - rows as int / 2, inner as int / 2, rows as int, inner as int);
        lemma_area_bound(rows - rows as int / 2, inner - inner as int / 2, rows as int, inner as int);
        lemma_area_bound(inner as int / 2, cols as int / 2, inner as int, cols as int);
        lemma_area_bound(inner as int / 2, cols - cols as int / 2, inner as int, cols as int);
        lemma_area_bound(inner - inner as int / 2, cols as int / 2, inner as int, cols as int);
        lemma_area_bound(inner - inner as int / 2, cols - cols as int / 2, inner as int, cols as int);
        lemma_area_bound(rows as int / 2, cols as int / 2, rows as int, cols as int);
        lemma_area_bound(rows as int / 2, cols - cols as int / 2, rows as int, cols as int);
        lemma_area_bound(rows - rows as int / 2, cols as int / 2, rows as int, cols as int);
        lemma_area_bound(rows - rows as int / 2, cols - cols as int / 2, rows as int, cols as int);
        lemma_area_bound(rows as int / 2, cols as int, rows as int, cols as int);
        lemma_area_bound(rows - rows as int / 2, cols as int, rows as int, cols as int);
        lemma_blocked_times_shape(ga.top_left(), gb.top_left(), leaf);
        lemma_blocked_times_shape(ga.top_right(), gb.bottom_left(), leaf);
        lemma_blocked_times_shape(ga.top_left(), gb.top_right(), leaf);
        lemma_blocked_times_shape(ga.top_right(), gb.bottom_right(), leaf);
        lemma_blocked_times_shape(ga.bottom_left(), gb.top_left(), leaf);
        lemma_blocked_times_shape(ga.bottom_right(), gb.bottom_left(), leaf);
        lemma_blocked_times_shape(ga.bottom_left(), gb.top_right(), leaf);
        lemma_blocked_times_shape(ga.bottom_right(), gb.bottom_right(), leaf);
    }
    let (a, b, c, d) = subdivide(lhs).unwrap();
    let (e, f, g, h) = subdivide(rhs).unwrap();

    let a: Res = convert(&a);
    let b: Res = convert(&b);
    let c: Res = convert(&c);
    let d: Res = convert(&d);

    let e: Res = convert(&e);
    let f: Res = convert(&f);
    let g: Res = convert(&g);
    let h: Res = convert(&h);
    proof {
        assert(a.spec_rows() == grid_of(&a).rows && b.spec_rows() == grid_of(&b).rows);
        assert(c.spec_rows() == grid_of(&c).rows && d.spec_rows() == grid_of(&d).rows);
        assert(a.spec_cols() == grid_of(&a).cols && b.spec_cols() == grid_of(&b).cols);
        assert(c.spec_cols() == grid_of(&c).cols && d.spec_cols() == grid_of(&d).cols);
        assert(e.spec_rows() == grid_of(&e).rows && f.spec_rows() == grid_of(&f).rows);
        assert(g.spec_rows() == grid_of(&g).rows && h.spec_rows() == grid_of(&h).rows);
        assert(e.spec_cols() == grid_of(&e).cols && f.spec_cols() == grid_of(&f).cols);
        assert(g.spec_cols() == grid_of(&g).cols && h.spec_cols() == grid_of(&h).cols);
    }

    let ae: Res = blocked_product(&a, &e).unwrap();
    let bg: Res = blocked_product(&b, &g).unwrap();
    proof {
        lemma_shape_of(&ae);
        lemma_shape_of(&bg);
    }
    let an: Res = mat_add(&ae, &bg).unwrap();

    let af: Res = blocked_product(&a, &f).unwrap();
    let bh: Res = blocked_product(&b, &h).unwrap();
    proof {
        lemma_shape_of(&af);
        lemma_shape_of(&bh);
    }
    let bn: Res = mat_add(&af, &bh).unwrap();

    let ce: Res = blocked_product(&c, &e).unwrap();
    let dg: Res = blocked_product(&d, &g).unwrap();
    proof {
        lemma_shape_of(&ce);
        lemma_shape_of(&dg);
    }
    let cn: Res = mat_add(&ce, &dg).unwrap();

    let cf: Res = blocked_product(&c, &f).unwrap();
    let dh: Res = blocked_product(&d, &h).unwrap();
    proof {
        lemma_shape_of(&cf);
        lemma_shape_of(&dh);
    }
    let dn: Res = mat_add(&cf, &dh).unwrap();
    proof {
        lemma_shape_of(&an);
        lemma_shape_of(&bn);
        lemma_shape_of(&cn);
        lemma_shape_of(&dn);
    }
    let top: Res = concat_cols(&an, &bn).unwrap();
    let bot: Res = concat_cols(&cn, &dn).unwrap();
    proof {
        lemma_shape_of(&top);
        lemma_shape_of(&bot);
    }
    concat_rows(&top, &bot)
}

/// The matrix product, computed by recursive subdivision into quadrants. The
/// shapes are checked as in `mat_mul`; operands with a dimension of at most
/// `CUTOFF` are multiplied directly.
pub fn mat_mul_blocked<T: Ring, LHS: BasicMatrix<T>, RHS: BasicMatrix<T>, Res: Create<T>>(
    lhs: &LHS,
    rhs: &RHS,
) -> (r: Result<Res, MatrixError>)
    requires
        lhs.inv(),
        rhs.inv(),
        lhs.spec_rows() * lhs.spec_cols() <= usize::MAX,
        rhs.spec_rows() * rhs.spec_cols() <= usize::MAX,
        lhs.spec_rows() * rhs.spec_cols() <= usize::MAX,
    ensures
        yields(
            r,
            times_error(grid_of(lhs), grid_of(rhs)),
            blocked_times(grid_of(lhs), grid_of(rhs), dimension_leaf(CUTOFF as nat)),
        ),
{
    let rows = lhs.num_rows();
    let inner = lhs.num_cols();
    let cols = rhs.num_cols();
    if inner != rhs.num_rows() {
        return Err(
            MatrixError::DimensionMismatch {
                lhs_rows: rows,
                lhs_cols: inner,
                rhs_rows: rhs.num_rows(),
                rhs_cols: cols,
            },
        );
    }
    if rows <= CUTOFF || inner <= CUTOFF || cols <= CUTOFF {
        return mat_mul(lhs, rhs);
    }
    let a: Res = convert(lhs);
    let b: Res = convert(rhs);
    proof {
        lemma_shape_of(&a);
        lemma_shape_of(&b);
    }
    blocked_product(&a, &b)
}

/// What `for_each` and the other in-place passes answer for a matrix of the
/// given shape: a pass over a matrix that has cells needs a writable one.
pub open spec fn pass_outcome(rows: nat, cols: nat, writable: bool) -> Result<(), MatrixError> {
    if rows > 0 && cols > 0 && !writable {
        Err(MatrixError::ReadOnly)
    } else {
        Ok(())
    }
}

/// Replaces every cell by what `f` makes of its position and its value, row
/// by row. Through a shared handle nothing is changed and `ReadOnly` is
/// reported.
pub fn for_each<T, M: BasicMatrix<T>, F: Fn(usize, usize, T) -> T>(a: &mut M, f: F) -> (r: Result<
    (),
    MatrixError,
>)
    requires
        (*old(a)).inv(),
        forall|i: usize, j: usize|
            i < (*old(a)).spec_rows() && j < (*old(a)).spec_cols() ==> call_requires(
                f,
                (i, j, #[trigger] (*old(a)).spec_at(i as int, j as int)),
            ),
    ensures
        (*final(a)).inv(),
        (*final(a)).writable() == (*old(a)).writable(),
        (*final(a)).spec_rows() == (*old(a)).spec_rows(),
        (*final(a)).spec_cols() == (*old(a)).spec_cols(),
        r == pass_outcome(old(a).spec_rows(), (*old(a)).spec_cols(), (*old(a)).writable()),
        r is Ok ==> forall|i: usize, j: usize|
            i < (*old(a)).spec_rows() && j < (*old(a)).spec_cols() ==> call_ensures(
                f,
                (i, j, (*old(a)).spec_at(i as int, j as int)),
                #[trigger] (*final(a)).spec_at(i as int, j as int),
            ),
        r is Err ==> forall|i: int, j: int|
            0 <= i < (*old(a)).spec_rows() && 0 <= j < (*old(a)).spec_cols() ==> #[trigger] (*final(a)).spec_at(i, j)
                == (*old(a)).spec_at(i, j),
{
    let rows = (*a).num_rows();
    let cols = (*a).num_cols();
    let mut i: usize = 0;
    while i < rows
        invariant
            i <= rows,
            (*a).inv(),
            (*a).writable() == (*old(a)).writable(),
            (*a).spec_rows() == rows,
            (*a).spec_cols() == cols,
            (*old(a)).spec_rows() == rows,
            (*old(a)).spec_cols() == cols,
            i > 0 && cols > 0 ==> (*a).writable(),
            forall|p: usize, q: usize|
                p < rows && q < cols ==> call_requires(f, (p, q, #[trigger] (*old(a)).spec_at(p as int, q as int))),
            forall|p: usize, q: usize|
                p < i && q < cols ==> call_ensures(
                    f,
                    (p, q, (*old(a)).spec_at(p as int, q as int)),
                    #[trigger] (*a).spec_at(p as int, q as int),
                ),
            forall|p: int, q: int|
                i <= p < rows && 0 <= q < cols ==> #[trigger] (*a).spec_at(p, q) == (*old(a)).spec_at(p, q),
        decreases rows - i,
    {
        let mut j: usize = 0;
        while j < cols
            invariant
                i < rows,
                j <= cols,
                (*a).inv(),
                (*a).writable() == (*old(a)).writable(),
                (*a).spec_rows() == rows,
                (*a).spec_cols() == cols,
                (*old(a)).spec_rows() == rows,
                (*old(a)).spec_cols() == cols,
                (i > 0 || j > 0) && cols > 0 ==> (*a).writable(),
                forall|p: usize, q: usize|
                    p < rows && q < cols ==> call_requires(
                        f,
                        (p, q, #[trigger] (*old(a)).spec_at(p as int, q as int)),
                    ),
                forall|p: usize, q: usize|
                    (p < i || (p == i && q < j)) && q < cols ==> call_ensures(
                        f,
                        (p, q, (*old(a)).spec_at(p as int, q as int)),
                        #[trigger] (*a).spec_at(p as int, q as int),
                    ),
                forall|p: int, q: int|
                    (i < p < rows && 0 <= q < cols) || (p == i && j <= q < cols) ==> #[trigger] (*a).spec_at(p, q)
                        == (*old(a)).spec_at(p, q),
            decreases cols - j,
        {
            let before = cell(&*a, i, j);
            let after = f(i, j, before);
            match a.set(i, j, after) {
                Ok(()) => {},
                Err(e) => {
                    return Err(e);
                },
            }
            j = j + 1;
        }
        i = i + 1;
    }
    Ok(())
}

/// Multiplies every cell of `a` from the left by `x`, in place.
pub fn mat_x_inplace<T: Ring, M: BasicMatrix<T>>(a: &mut M, x: T) -> (r: Result<(), MatrixError>)
    requires
        (*old(a)).inv(),
    ensures
        (*final(a)).inv(),
        (*final(a)).writable() == (*old(a)).writable(),
        r == pass_outcome(old(a).spec_rows(), (*old(a)).spec_cols(), (*old(a)).writable()),
        grid_of(&*final(a)) == (if r is Ok {
            grid_of(&*old(a)).scaled(x)
        } else {
            grid_of(&*old(a))
        }),
{
    let f = |_i: usize, _j: usize, y: T| -> (z: T)
        ensures
            z == x.times_spec(y),
        { x.times(y) };
    let rows = (*a).num_rows();
    let cols = (*a).num_cols();
    let r = for_each(a, f);
    proof {
        if r is Ok {
            let target = grid_of(&*old(a)).scaled(x);
            assert forall|i: int, j: int| target.has(i, j) implies grid_of(&*a).at(i, j) == target.at(i, j) by {
                assert(call_ensures(
                    f,
                    (i as usize, j as usize, (*old(a)).spec_at(i as usize as int, j as usize as int)),
                    (*a).spec_at(i as usize as int, j as usize as int),
                ));
            }
            lemma_grid_ext(grid_of(&*a), target);
        } else {
            lemma_grid_ext(grid_of(&*a), grid_of(&*old(a)));
        }
    }
    r
}

/// `r` is a valid, writable matrix that stands for the grid in `s`, or the
/// error in `s`.
pub open spec fn agrees<T, M: BasicMatrix<T>>(r: Result<M, MatrixError>, s: Result<Grid<T>, MatrixError>) -> bool {
    match s {
        Ok(g) => r matches Ok(m) && m.inv() && m.writable() && grid_of(&m) == g,
        Err(e) => r matches Err(err) && err == e,
    }
}

/// The matrix product, its cells generated one after the other or, where
/// `by_blocks` says so, block by block. The product is the same.
pub(crate) fn product<T: Ring, LHS: BasicMatrix<T>, RHS: BasicMatrix<T>, Res: Create<T>>(
    lhs: &LHS,
    rhs: &RHS,
    by_blocks: bool,
) -> (r: Result<Res, MatrixError>)
    requires
        lhs.inv(),
        rhs.inv(),
        lhs.spec_rows() * rhs.spec_cols() <= usize::MAX,
    ensures
        yields(r, times_error(grid_of(lhs), grid_of(rhs)), grid_of(lhs).times(grid_of(rhs))),
{
    if by_blocks {
        crate::par::mat_mul_grid(lhs, rhs)
    } else {
        mat_mul(lhs, rhs)
    }
}

/// Blockwise inversion of a concrete square matrix with at least one cell.
pub(crate) fn inverse_dense<T: Num, R: Create<T>>(m: &R, by_blocks: bool) -> (r: Result<R, MatrixError>)
    requires
        m.inv(),
        m.spec_rows() == m.spec_cols(),
        m.spec_rows() >= 1,
        m.spec_rows() * m.spec_cols() <= usize::MAX,
    ensures
        agrees(r, inverse_spec(grid_of(m))),
    decreases m.spec_rows(),
{
    let n = m.num_rows();
    let ghost gm = grid_of(m);
    if n == 1 {
        return match T::one().divide(cell(m, 0, 0)) {
            Some(x) => {
                let f = |_i: usize, _j: usize| -> (y: T)
                    ensures
                        y == x,
                    { x };
                let r = R::create(1, 1, f);
                proof {
                    let target = Grid::new(1, 1, |i: int, j: int| x);
                    assert forall|i: int, j: int| target.has(i, j) implies grid_of(&r).at(i, j) == target.at(
                        i,
                        j,
                    ) by {
                        assert(call_ensures(f, (0usize, 0usize), r.spec_at(0, 0)));
                    }
                    lemma_grid_ext(grid_of(&r), target);
                }
                Ok(r)
            },
            None => Err(MatrixError::DegenerateNumeric),
        };
    }
    let n2 = n / 2;
    let n2a = n - n2;
    proof {
        lemma_handle_grid(m);
        lemma_area_bound(n2 as int, n2 as int, n as int, n as int);
        lemma_area_bound(n2 as int, n2a as int, n as int, n as int);
        lemma_area_bound(n2a as int, n2 as int, n as int, n as int);
        lemma_area_bound(n2a as int, n2a as int, n as int, n as int);
        lemma_area_bound(n2 as int, n as int, n as int, n as int);
        lemma_area_bound(n2a as int, n as int, n as int, n as int);
    }
    // The upper left quadrant is copied out, so that the recursion works on
    // a concrete matrix and not on a window into a window.
    let a: R = convert(&SubMatrix(m, 0, 0, n2, n2).unwrap());
    let b = SubMatrix(m, 0, n2, n2, n2a).unwrap();
    let c = SubMatrix(m, n2, 0, n2a, n2).unwrap();
    let d = SubMatrix(m, n2, n2, n2a, n2a).unwrap();
    proof {
        lemma_shape_of(&a);
        lemma_shape_of(&b);
        lemma_shape_of(&c);
        lemma_shape_of(&d);
        lemma_inverse_shape(gm.top_left());
    }

    let ai: R = inverse_dense(&a, by_blocks)?;
    proof {
        lemma_shape_of(&ai);
    }

    // The Schur complement d - c ai b, and its inverse: the new d.
    let t: R = product(&c, &ai, by_blocks).unwrap();
    proof {
        lemma_shape_of(&t);
    }
    let t: R = product(&t, &b, by_blocks).unwrap();
    proof {
        lemma_shape_of(&t);
    }
    let t: R = mat_sub(&d, &t).unwrap();
    proof {
        lemma_shape_of(&t);
        lemma_inverse_shape(grid_of(&t));
    }
    let dn: R = inverse_dense(&t, by_blocks)?;
    proof {
        lemma_shape_of(&dn);
    }

    let aib: R = product(&ai, &b, by_blocks).unwrap();
    let cai: R = product(&c, &ai, by_blocks).unwrap();
    proof {
        lemma_shape_of(&aib);
        lemma_shape_of(&cai);
    }

    // The new c.
    let mut cn: R = product(&dn, &cai, by_blocks).unwrap();
    proof {
        lemma_shape_of(&cn);
    }
    let scaled = mat_x_inplace(&mut cn, neg_one());
    assert(scaled is Ok);

    // The new b, whose sign is changed only after the new a was made of it.
    let mut bn: R = product(&aib, &dn, by_blocks).unwrap();
    proof {
        lemma_shape_of(&bn);
    }

    // The new a.
    let an: R = product(&bn, &cai, by_blocks).unwrap();
    proof {
        lemma_shape_of(&an);
    }
    let an: R = mat_add(&ai, &an).unwrap();

    let scaled = mat_x_inplace(&mut bn, neg_one());
    assert(scaled is Ok);
    proof {
        lemma_shape_of(&an);
        lemma_shape_of(&bn);
        lemma_shape_of(&cn);
    }

    // Stitch it all back together.
    let top: R = concat_cols(&an, &bn).unwrap();
    let bot: R = concat_cols(&cn, &dn).unwrap();
    proof {
        lemma_shape_of(&top);
        lemma_shape_of(&bot);
    }
    concat_rows(&top, &bot)
}

/// The inverse of a square matrix by recursive blockwise inversion.
///
/// A matrix that is not square is refused with `NonSquareMatrix`, one without
/// cells with `InvalidWindow`. No pivoting is done: a division that the
/// element type does not define ends the inversion with `DegenerateNumeric`.
pub fn inverse<T: Num, M: BasicMatrix<T>, R: Create<T>>(m: &M) -> (r: Result<R, MatrixError>)
    requires
        m.inv(),
        m.spec_rows() * m.spec_cols() <= usize::MAX,
    ensures
        agrees(r, inverse_spec(grid_of(m))),
{
    let rows = m.num_rows();
    let cols = m.num_cols();
    if rows != cols {
        return Err(MatrixError::NonSquareMatrix { rows, cols });
    }
    if rows == 0 {
        return Err(MatrixError::InvalidWindow { row: 0, col: 0, rows: 0, cols: 0, base_rows: 0, base_cols: 0 });
    }
    let dense: R = convert(m);
    proof {
        lemma_shape_of(&dense);
    }
    inverse_dense(&dense, false)
}

} // verus!
