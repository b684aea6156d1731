//! Cholesky factorization: in place, column by column, and blocked.

use vstd::prelude::*;
use crate::algorithms::{
    agrees, cell, concat_cols, concat_rows, convert, inverse, lemma_area_bound, lemma_handle_grid, lemma_shape_of,
    mat_sub, product,
};
use crate::generate::zero_matrix;
use crate::views::{SubMatrix, TransposeMatrix, lemma_transposed_view};
use crate::error::MatrixError;
use crate::grid::{
    Grid, cholesky_blocked_spec, cholesky_step, cholesky_steps, column_divides, lemma_cholesky_blocked_shape,
    lemma_grid_ext, lemma_inverse_shape, lower_from, non_square, scaled_entry,
};
use crate::matrix::{BasicMatrix, Create, grid_of};
use crate::ring::Real;

verus! {

/// Cell `(r, c)` while column `k` is being divided by `d`: the rows above
/// `upto` are done.
pub open spec fn scaling_cell<T: Real>(m: Grid<T>, k: int, d: T, upto: int, r: int, c: int) -> T {
    if r == k && c == k {
        d
    } else if c == k && k < r < upto {
        scaled_entry(m, k, d, r)
    } else {
        m.at(r, c)
    }
}

/// Cell `(r, c)` while the cells to the right of column `k` are being
/// updated: the rows above `i` are done, and row `i` to the left of column `j`.
pub open spec fn updating_cell<T: Real>(m: Grid<T>, k: int, d: T, i: int, j: int, r: int, c: int) -> T {
    if r == k && c == k {
        d
    } else if c == k && r > k {
        scaled_entry(m, k, d, r)
    } else if k < c && c <= r && (r < i || (r == i && c < j)) {
        m.at(r, c).minus_spec(scaled_entry(m, k, d, r).times_spec(scaled_entry(m, k, d, c)))
    } else {
        m.at(r, c)
    }
}

/// What the elimination steps from column `start` on answer for the grid `m`,
/// held by a matrix that is writable or not: a shared handle is found out at
/// the first write, which comes after the first square root.
pub open spec fn cholesky_raw_spec<T: Real>(m: Grid<T>, start: nat, writable: bool) -> Result<
    Grid<T>,
    MatrixError,
> {
    if m.rows != m.cols {
        Err(non_square(m))
    } else if start < m.rows && !writable {
        if m.at(start as int, start as int).sqrt_spec() is None {
            Err(MatrixError::DegenerateNumeric)
        } else {
            Err(MatrixError::ReadOnly)
        }
    } else {
        match cholesky_steps(m, start) {
            None => Err(MatrixError::DegenerateNumeric),
            Some(g) => Ok(g),
        }
    }
}

/// The elimination steps of the factorization, in place, at the columns from
/// `start` on. For each column `k`: the diagonal cell is replaced by its
/// square root, the cells below it are divided by the new diagonal cell, and
/// from each cell `(i, j)` with `k < j <= i` the product of the cells
/// `(i, k)` and `(j, k)` is subtracted. The cells to the right of the
/// diagonal are left as they are.
///
/// The matrix is taken to be symmetric and positive definite; this is not
/// checked. Where a square root or a quotient does not exist, the work stops
/// with `DegenerateNumeric` and the cells hold what was done until then.
#[verifier::loop_isolation(false)]
pub fn cholesky_seq_inplace_raw<T: Real, M: BasicMatrix<T>>(a: &mut M, start: usize) -> (r: Result<
    (),
    MatrixError,
>)
    requires
        old(a).inv(),
    ensures
        (*final(a)).inv(),
        (*final(a)).writable() == (*old(a)).writable(),
        (*final(a)).spec_rows() == (*old(a)).spec_rows(),
        (*final(a)).spec_cols() == (*old(a)).spec_cols(),
        match cholesky_raw_spec(grid_of(&*old(a)), start as nat, (*old(a)).writable()) {
            Ok(g) => r is Ok && grid_of(&*final(a)) == g,
            Err(e) => r == Err::<(), MatrixError>(e) && (e != MatrixError::DegenerateNumeric ==> grid_of(&*final(a))
                == grid_of(&*old(a))),
        },
{
    let n = (*a).num_rows();
    let cols = (*a).num_cols();
    if n != cols {
        return Err(MatrixError::NonSquareMatrix { rows: n, cols });
    }
    let ghost g0 = grid_of(&*a);
    let mut k: usize = start;
    while k < n
        invariant
            start <= k,
            (*a).inv(),
            (*a).writable() == (*old(a)).writable(),
            (*a).spec_rows() == n,
            (*a).spec_cols() == n,
            g0 == grid_of(&*old(a)),
            g0.rows == n,
            g0.cols == n,
            k > start ==> (*a).writable(),
            k == start ==> grid_of(&*a) == g0,
            cholesky_steps(grid_of(&*a), k as nat) == cholesky_steps(g0, start as nat),
        decreases n - k,
    {
        let ghost gk = grid_of(&*a);
        let akk = cell(&*a, k, k);
        let d = match akk.sqrt() {
            Some(d) => d,
            None => {
                return Err(MatrixError::DegenerateNumeric);
            },
        };
        match a.set(k, k, d) {
            Ok(()) => {},
            Err(e) => {
                proof {
                    lemma_grid_ext(grid_of(&*a), g0);
                }
                return Err(e);
            },
        }
        let mut i: usize = k + 1;
        while i < n
            invariant
                k < i <= n,
                (*a).inv(),
                (*a).writable(),
                (*old(a)).writable(),
                (*a).spec_rows() == n,
                (*a).spec_cols() == n,
                gk.rows == n,
                gk.cols == n,
                gk.wf(),
                forall|r: int| k < r < i ==> (#[trigger] gk.at(r, k as int).divide_spec(d)) is Some,
                forall|r: int, c: int|
                    0 <= r < n && 0 <= c < n ==> #[trigger] (*a).spec_at(r, c) == scaling_cell(
                        gk,
                        k as int,
                        d,
                        i as int,
                        r,
                        c,
                    ),
            decreases n - i,
        {
            let aik = cell(&*a, i, k);
            match aik.divide(d) {
                Some(q) => {
                    match a.set(i, k, q) {
                        Ok(()) => {},
                        Err(e) => {
                            return Err(e);
                        },
                    }
                },
                None => {
                    proof {
                        assert(gk.at(i as int, k as int).divide_spec(d) is None);
                        assert(!column_divides(gk, k as int, d));
                    }
                    return Err(MatrixError::DegenerateNumeric);
                },
            }
            i = i + 1;
        }
        assert(column_divides(gk, k as int, d));
        let mut i: usize = k + 1;
        while i < n
            invariant
                k < i <= n,
                (*a).inv(),
                (*a).writable(),
                (*old(a)).writable(),
                (*a).spec_rows() == n,
                (*a).spec_cols() == n,
                gk.rows == n,
                gk.cols == n,
                gk.wf(),
                forall|r: int, c: int|
                    0 <= r < n && 0 <= c < n ==> #[trigger] (*a).spec_at(r, c) == updating_cell(
                        gk,
                        k as int,
                        d,
                        i as int,
                        k + 1,
                        r,
                        c,
                    ),
            decreases n - i,
        {
            let aik = cell(&*a, i, k);
            let mut j: usize = k + 1;
            while j < i + 1
                invariant
                    k < j <= i + 1,
                    k < i < n,
                    (*a).inv(),
                    (*a).writable(),
                    (*old(a)).writable(),
                    (*a).spec_rows() == n,
                    (*a).spec_cols() == n,
                    gk.rows == n,
                    gk.cols == n,
                    gk.wf(),
                    aik == scaled_entry(gk, k as int, d, i as int),
                    forall|r: int, c: int|
                        0 <= r < n && 0 <= c < n ==> #[trigger] (*a).spec_at(r, c) == updating_cell(
                            gk,
                            k as int,
                            d,
                            i as int,
                            j as int,
                            r,
                            c,
                        ),
                decreases i + 1 - j,
            {
                let ajk = cell(&*a, j, k);
                let aij = cell(&*a, i, j);
                match a.set(i, j, aij.minus(aik.times(ajk))) {
                    Ok(()) => {},
                    Err(e) => {
                        return Err(e);
                    },
                }
                j = j + 1;
            }
            i = i + 1;
        }
        proof {
            let next = cholesky_step(gk, k as int).unwrap();
            assert forall|r: int, c: int| next.has(r, c) implies grid_of(&*a).at(r, c) == next.at(r, c) by {
                assert((*a).spec_at(r, c) == updating_cell(gk, k as int, d, n as int, k + 1, r, c));
            }
            lemma_grid_ext(grid_of(&*a), next);
        }
        k = k + 1;
    }
    Ok(())
}

/// The factorization in place, from column `start` on: the elimination steps
/// of `cholesky_seq_inplace_raw`, then zero in every cell to the right of the
/// diagonal in the rows from `start` on, so that what is left is lower
/// triangular.
pub fn cholesky_seq_inplace_start<T: Real, M: BasicMatrix<T>>(a: &mut M, start: usize) -> (r: Result<
    (),
    MatrixError,
>)
    requires
        old(a).inv(),
    ensures
        (*final(a)).inv(),
        (*final(a)).writable() == (*old(a)).writable(),
        (*final(a)).spec_rows() == (*old(a)).spec_rows(),
        (*final(a)).spec_cols() == (*old(a)).spec_cols(),
        match cholesky_raw_spec(grid_of(&*old(a)), start as nat, (*old(a)).writable()) {
            Ok(g) => r is Ok && grid_of(&*final(a)) == lower_from(g, start as nat),
            Err(e) => r == Err::<(), MatrixError>(e) && (e != MatrixError::DegenerateNumeric ==> grid_of(&*final(a))
                == grid_of(&*old(a))),
        },
{
    cholesky_seq_inplace_raw(a, start)?;
    let rows = (*a).num_rows();
    let cols = (*a).num_cols();
    let ghost g = grid_of(&*a);
    let mut i: usize = start;
    while i < rows
        invariant
            start <= i,
            (*a).inv(),
            (*a).writable() == (*old(a)).writable(),
            start < rows ==> (*a).writable(),
            (*a).spec_rows() == rows,
            (*a).spec_cols() == cols,
            g.rows == rows,
            g.cols == cols,
            forall|r: int, c: int|
                0 <= r < rows && 0 <= c < cols ==> #[trigger] (*a).spec_at(r, c) == (if start <= r < i && c > r {
                    T::zero_spec()
                } else {
                    g.at(r, c)
                }),
        decreases rows - i,
    {
        let mut j: usize = i + 1;
        while j < cols
            invariant
                start <= i < rows,
                i < j,
                (*a).inv(),
                (*a).writable(),
                (*a).writable() == (*old(a)).writable(),
                (*a).spec_rows() == rows,
                (*a).spec_cols() == cols,
                g.rows == rows,
                g.cols == cols,
                forall|r: int, c: int|
                    0 <= r < rows && 0 <= c < cols ==> #[trigger] (*a).spec_at(r, c) == (if (start <= r < i && c > r)
                        || (r == i && i < c < j) {
                        T::zero_spec()
                    } else {
                        g.at(r, c)
                    }),
            decreases cols - j,
        {
            match a.set(i, j, T::zero()) {
                Ok(()) => {},
                Err(e) => {
                    return Err(e);
                },
            }
            j = j + 1;
        }
        i = i + 1;
    }
    proof {
        lemma_grid_ext(grid_of(&*a), lower_from(g, start as nat));
    }
    Ok(())
}

/// The factorization in place: the lower triangular factor replaces the
/// matrix.
pub fn cholesky_seq_inplace<T: Real, M: BasicMatrix<T>>(a: &mut M) -> (r: Result<(), MatrixError>)
    requires
        old(a).inv(),
    ensures
        (*final(a)).inv(),
        (*final(a)).writable() == (*old(a)).writable(),
        (*final(a)).spec_rows() == (*old(a)).spec_rows(),
        (*final(a)).spec_cols() == (*old(a)).spec_cols(),
        match cholesky_raw_spec(grid_of(&*old(a)), 0, (*old(a)).writable()) {
            Ok(g) => r is Ok && grid_of(&*final(a)) == lower_from(g, 0),
            Err(e) => r == Err::<(), MatrixError>(e) && (e != MatrixError::DegenerateNumeric ==> grid_of(&*final(a))
                == grid_of(&*old(a))),
        },
{
    cholesky_seq_inplace_start(a, 0)
}

/// Matrices of at most this order are factored column by column.
pub const BLOCK_SIZE: usize = 1;

/// The blocked factorization of a concrete square matrix.
pub(crate) fn cholesky_dense<T: Real, R: Create<T>>(m: &R, by_blocks: bool) -> (r: Result<R, MatrixError>)
    requires
        m.inv(),
        m.spec_rows() == m.spec_cols(),
        m.spec_rows() * m.spec_cols() <= usize::MAX,
    ensures
        agrees(r, cholesky_blocked_spec(grid_of(m), BLOCK_SIZE as nat)),
    decreases m.spec_rows(),
{
    let n = m.num_rows();
    let ghost gm = grid_of(m);
    if n <= BLOCK_SIZE {
        let mut copy: R = convert(m);
        cholesky_seq_inplace(&mut copy)?;
        return Ok(copy);
    }
    let n2 = n / 2;
    let n2a = n - n2;
    proof {
        lemma_handle_grid(m);
        lemma_area_bound(n2 as int, n2 as int, n as int, n as int);
        lemma_area_bound(n2 as int, n2a as int, n as int, n as int);
        lemma_area_bound(n2a as int, n2 as int, n as int, n as int);
        lemma_area_bound(n2a as int, n2a as int, n as int, n as int);
        lemma_area_bound(n2 as int, n as int, n as int, n as int);
        lemma_area_bound(n2a as int, n as int, n as int, n as int);
    }
    let a: R = convert(&SubMatrix(m, 0, 0, n2, n2).unwrap());
    let c = SubMatrix(m, n2, 0, n2a, n2).unwrap();
    let d = SubMatrix(m, n2, n2, n2a, n2a).unwrap();
    proof {
        lemma_shape_of(&a);
        lemma_shape_of(&c);
        lemma_shape_of(&d);
        lemma_cholesky_blocked_shape(gm.top_left(), BLOCK_SIZE as nat);
    }

    let ac: R = cholesky_dense(&a, by_blocks)?;
    proof {
        lemma_shape_of(&ac);
        lemma_handle_grid(&ac);
    }

    let act = TransposeMatrix(&ac);
    proof {
        lemma_transposed_view(&act);
        lemma_shape_of(&act);
        lemma_inverse_shape(grid_of(&act));
    }
    let aci: R = if by_blocks {
        crate::par::inverse(&act)?
    } else {
        inverse(&act)?
    };
    proof {
        lemma_shape_of(&aci);
    }

    let x: R = product(&c, &aci, by_blocks).unwrap();
    proof {
        lemma_shape_of(&x);
        lemma_handle_grid(&x);
    }
    let xt = TransposeMatrix(&x);
    proof {
        lemma_transposed_view(&xt);
        lemma_shape_of(&xt);
    }
    let dn: R = product(&x, &xt, by_blocks).unwrap();
    proof {
        lemma_shape_of(&dn);
    }
    let dn: R = mat_sub(&d, &dn).unwrap();
    proof {
        lemma_shape_of(&dn);
        lemma_cholesky_blocked_shape(grid_of(&dn), BLOCK_SIZE as nat);
    }
    let dn: R = cholesky_dense(&dn, by_blocks)?;

    let z: R = zero_matrix(n2, n2a);
    proof {
        lemma_shape_of(&dn);
        lemma_shape_of(&z);
    }
    let top: R = concat_cols(&ac, &z).unwrap();
    let bot: R = concat_cols(&x, &dn).unwrap();
    proof {
        lemma_shape_of(&top);
        lemma_shape_of(&bot);
    }
    concat_rows(&top, &bot)
}

/// A recursive blocked Cholesky factorization: the lower triangular factor
/// of a square matrix, as a new matrix.
///
/// A matrix that is not square is refused with `NonSquareMatrix`. The matrix
/// is taken to be symmetric and positive definite; this is not checked. Where
/// the element type has no square root or quotient for a step, the
/// factorization ends with `DegenerateNumeric`.
pub fn cholesky_blocked<T: Real, M: BasicMatrix<T>, R: Create<T>>(m: &M) -> (r: Result<R, MatrixError>)
    requires
        m.inv(),
        m.spec_rows() * m.spec_cols() <= usize::MAX,
    ensures
        agrees(r, cholesky_blocked_spec(grid_of(m), BLOCK_SIZE as nat)),
{
    let rows = m.num_rows();
    let cols = m.num_cols();
    if rows != cols {
        return Err(MatrixError::NonSquareMatrix { rows, cols });
    }
    let dense: R = convert(m);
    proof {
        lemma_shape_of(&dense);
    }
    cholesky_dense(&dense, false)
}

} // verus!
