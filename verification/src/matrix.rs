//! The matrix capability trait, the owning dense matrix, and the handles
//! through which a matrix can be shared.

use vstd::prelude::*;
use vstd::arithmetic::div_mod::lemma_fundamental_div_mod_converse;
use std::sync::Arc;
use crate::error::MatrixError;
use crate::grid::Grid;

verus! {

/// What every matrix-like object offers: its dimensions, and reading and
/// writing single cells.
///
/// The `spec_*` functions say which mathematical matrix an object stands for;
/// `inv` is the object's own validity, which constructors establish and `set`
/// keeps; `writable` tells an exclusive object from a shared handle, through
/// which every write is refused.
pub trait BasicMatrix<T> {
    /// The object is valid.
    spec fn inv(&self) -> bool;

    /// The number of rows.
    spec fn spec_rows(&self) -> nat;

    /// The number of columns.
    spec fn spec_cols(&self) -> nat;

    /// The cell in row `i` and column `j`.
    spec fn spec_at(&self, i: int, j: int) -> T;

    /// Writes through this object reach the cells.
    spec fn writable(&self) -> bool;

    /// Returns the number of rows in the matrix.
    fn num_rows(&self) -> (r: usize)
        requires
            self.inv(),
        ensures
            r == self.spec_rows(),
    ;

    /// Returns the number of columns in the matrix.
    fn num_cols(&self) -> (r: usize)
        requires
            self.inv(),
        ensures
            r == self.spec_cols(),
    ;

    /// Returns an element in the matrix, or `IndexOutOfBounds` with the
    /// requested cell and the dimensions.
    fn get(&self, i: usize, j: usize) -> (r: Result<T, MatrixError>)
        requires
            self.inv(),
        ensures
            r == get_outcome(self.spec_rows(), self.spec_cols(), i, j, self.spec_at(i as int, j as int)),
    ;

    /// Returns the element at the pair of indices `ix`, as `get` does.
    fn index(&self, ix: &(usize, usize)) -> (r: Result<T, MatrixError>)
        requires
            self.inv(),
        ensures
            r == get_outcome(self.spec_rows(), self.spec_cols(), ix.0, ix.1, self.spec_at(ix.0 as int, ix.1 as int)),
    {
        self.get(ix.0, ix.1)
    }

    /// Set an element in the matrix. A cell outside the matrix is refused with
    /// `IndexOutOfBounds`, a write through a shared handle with `ReadOnly`;
    /// either way nothing changes.
    fn set(&mut self, i: usize, j: usize, x: T) -> (r: Result<(), MatrixError>)
        requires
            old(self).inv(),
        ensures
            final(self).inv(),
            final(self).writable() == old(self).writable(),
            final(self).spec_rows() == old(self).spec_rows(),
            final(self).spec_cols() == old(self).spec_cols(),
            r == set_outcome(old(self).spec_rows(), old(self).spec_cols(), old(self).writable(), i, j),
            forall|a: int, b: int|
                0 <= a < old(self).spec_rows() && 0 <= b < old(self).spec_cols()
                    ==> #[trigger] final(self).spec_at(a, b) == (if r is Ok && a == i && b == j {
                    x
                } else {
                    old(self).spec_at(a, b)
                }),
    ;
}

/// What `get` answers for cell `(i, j)` of a matrix of the given shape that
/// holds `x` in that cell.
pub open spec fn get_outcome<T>(rows: nat, cols: nat, i: usize, j: usize, x: T) -> Result<T, MatrixError> {
    if i < rows && j < cols {
        Ok(x)
    } else {
        Err(MatrixError::IndexOutOfBounds { row: i, col: j, rows: rows as usize, cols: cols as usize })
    }
}

/// What `set` answers for cell `(i, j)` of a matrix of the given shape.
pub open spec fn set_outcome(rows: nat, cols: nat, writable: bool, i: usize, j: usize) -> Result<
    (),
    MatrixError,
> {
    if !(i < rows && j < cols) {
        Err(MatrixError::IndexOutOfBounds { row: i, col: j, rows: rows as usize, cols: cols as usize })
    } else if !writable {
        Err(MatrixError::ReadOnly)
    } else {
        Ok(())
    }
}

/// The mathematical matrix that `m` stands for.
pub open spec fn grid_of<T, M: BasicMatrix<T>>(m: &M) -> Grid<T> {
    Grid::new(m.spec_rows(), m.spec_cols(), |i: int, j: int| m.spec_at(i, j))
}

/// Matrices that can be built from a shape and a generator of cells.
pub trait Create<T>: BasicMatrix<T> + Sized {
    /// Builds the `rows` by `cols` matrix whose cell `(i, j)` is what
    /// `init(i, j)` returned. The generator is called once for each cell, row
    /// by row.
    fn create<F: Fn(usize, usize) -> T>(rows: usize, cols: usize, init: F) -> (r: Self)
        requires
            rows * cols <= usize::MAX,
            forall|i: usize, j: usize| i < rows && j < cols ==> call_requires(init, (i, j)),
        ensures
            r.inv(),
            r.writable(),
            r.spec_rows() == rows,
            r.spec_cols() == cols,
            forall|i: usize, j: usize|
                i < rows && j < cols ==> call_ensures(init, (i, j), #[trigger] r.spec_at(i as int, j as int)),
    ;
}

/// A matrix in row-major order: the one owner of its cells.
#[derive(Clone, Debug)]
pub struct Matrix<T> {
    rows: usize,
    cols: usize,
    data: Vec<T>,
}

/// The offset of cell `(i, j)` in row-major storage lies inside the storage.
pub proof fn lemma_offset_in_range(i: int, j: int, rows: int, cols: int)
    requires
        0 <= i < rows,
        0 <= j < cols,
    ensures
        0 <= i * cols + j < rows * cols,
        (i * cols + j) / cols == i,
        (i * cols + j) % cols == j,
{
    assert(i * cols + j < rows * cols) by (nonlinear_arith)
        requires
            0 <= i < rows,
            0 <= j < cols,
    {
        assert((i + 1) * cols <= rows * cols);
    }
    assert(0 <= i * cols) by (nonlinear_arith)
        requires
            0 <= i,
            0 <= cols,
    ;
    lemma_fundamental_div_mod_converse(i * cols + j, cols, i, j);
}

/// Different cells have different offsets.
pub proof fn lemma_offset_injective(a: int, b: int, i: int, j: int, cols: int)
    requires
        0 <= a,
        0 <= i,
        0 <= b < cols,
        0 <= j < cols,
        a * cols + b == i * cols + j,
    ensures
        a == i,
        b == j,
{
    lemma_fundamental_div_mod_converse(a * cols + b, cols, a, b);
    lemma_fundamental_div_mod_converse(i * cols + j, cols, i, j);
}

impl<T: Copy> BasicMatrix<T> for Matrix<T> {
    closed spec fn inv(&self) -> bool {
        self.data.len() == self.rows * self.cols
    }

    closed spec fn spec_rows(&self) -> nat {
        self.rows as nat
    }

    closed spec fn spec_cols(&self) -> nat {
        self.cols as nat
    }

    closed spec fn spec_at(&self, i: int, j: int) -> T {
        self.data@[i * self.cols + j]
    }

    open spec fn writable(&self) -> bool {
        true
    }

    fn num_rows(&self) -> (r: usize) {
        self.rows
    }

    fn num_cols(&self) -> (r: usize) {
        self.cols
    }

    fn get(&self, i: usize, j: usize) -> (r: Result<T, MatrixError>) {
        if i < self.rows && j < self.cols {
            proof {
                lemma_offset_in_range(i as int, j as int, self.rows as int, self.cols as int);
            }
            Ok(self.data[i * self.cols + j])
        } else {
            Err(MatrixError::IndexOutOfBounds { row: i, col: j, rows: self.rows, cols: self.cols })
        }
    }

    fn set(&mut self, i: usize, j: usize, x: T) -> (r: Result<(), MatrixError>) {
        if i < self.rows && j < self.cols {
            proof {
                lemma_offset_in_range(i as int, j as int, self.rows as int, self.cols as int);
            }
            let k = i * self.cols + j;
            self.data.set(k, x);
            assert forall|a: int, b: int| 0 <= a < self.rows && 0 <= b < self.cols implies #[trigger] (*self).spec_at(
                a,
                b,
            ) == (if a == i && b == j {
                x
            } else {
                (*old(self)).spec_at(a, b)
            }) by {
                lemma_offset_in_range(a, b, self.rows as int, self.cols as int);
                if a * self.cols + b == i * self.cols + j {
                    lemma_offset_injective(a, b, i as int, j as int, self.cols as int);
                }
            }
            Ok(())
        } else {
            Err(MatrixError::IndexOutOfBounds { row: i, col: j, rows: self.rows, cols: self.cols })
        }
    }
}

impl<T: Copy> Create<T> for Matrix<T> {
    fn create<F: Fn(usize, usize) -> T>(rows: usize, cols: usize, init: F) -> (r: Self) {
        let mut data: Vec<T> = Vec::new();
        let mut i: usize = 0;
        while i < rows
            invariant
                i <= rows,
                rows * cols <= usize::MAX,
                data.len() == i * cols,
                forall|a: usize, b: usize| a < rows && b < cols ==> call_requires(init, (a, b)),
                forall|k: int|
                    0 <= k < data.len() ==> call_ensures(
                        init,
                        ((k / cols as int) as usize, (k % cols as int) as usize),
                        #[trigger] data@[k],
                    ),
            decreases rows - i,
        {
            let mut j: usize = 0;
            while j < cols
                invariant
                    i < rows,
                    j <= cols,
                    rows * cols <= usize::MAX,
                    data.len() == i * cols + j,
                    forall|a: usize, b: usize| a < rows && b < cols ==> call_requires(init, (a, b)),
                    forall|k: int|
                        0 <= k < data.len() ==> call_ensures(
                            init,
                            ((k / cols as int) as usize, (k % cols as int) as usize),
                            #[trigger] data@[k],
                        ),
                decreases cols - j,
            {
                let x = init(i, j);
                proof {
                    lemma_offset_in_range(i as int, j as int, rows as int, cols as int);
                }
                data.push(x);
                j = j + 1;
            }
            proof {
                assert(i * cols + cols == (i + 1) * cols) by (nonlinear_arith);
            }
            i = i + 1;
        }
        let r = Matrix { rows, cols, data };
        assert forall|a: usize, b: usize| a < rows && b < cols implies call_ensures(
            init,
            (a, b),
            #[trigger] r.spec_at(a as int, b as int),
        ) by {
            lemma_offset_in_range(a as int, b as int, rows as int, cols as int);
        }
        r
    }
}

/// A shared reference is a read-only handle on the matrix behind it.
impl<'a, T, M: BasicMatrix<T>> BasicMatrix<T> for &'a M {
    open spec fn inv(&self) -> bool {
        (**self).inv()
    }

    open spec fn spec_rows(&self) -> nat {
        (**self).spec_rows()
    }

    open spec fn spec_cols(&self) -> nat {
        (**self).spec_cols()
    }

    open spec fn spec_at(&self, i: int, j: int) -> T {
        (**self).spec_at(i, j)
    }

    open spec fn writable(&self) -> bool {
        false
    }

    fn num_rows(&self) -> (r: usize) {
        (**self).num_rows()
    }

    fn num_cols(&self) -> (r: usize) {
        (**self).num_cols()
    }

    fn get(&self, i: usize, j: usize) -> (r: Result<T, MatrixError>) {
        (**self).get(i, j)
    }

    fn set(&mut self, i: usize, j: usize, x: T) -> (r: Result<(), MatrixError>) {
        let rows = (**self).num_rows();
        let cols = (**self).num_cols();
        if i < rows && j < cols {
            Err(MatrixError::ReadOnly)
        } else {
            Err(MatrixError::IndexOutOfBounds { row: i, col: j, rows, cols })
        }
    }
}

/// An exclusive reference reads and writes the matrix behind it.
impl<'a, T, M: BasicMatrix<T>> BasicMatrix<T> for &'a mut M {
    open spec fn inv(&self) -> bool {
        (**self).inv()
    }

    open spec fn spec_rows(&self) -> nat {
        (**self).spec_rows()
    }

    open spec fn spec_cols(&self) -> nat {
        (**self).spec_cols()
    }

    open spec fn spec_at(&self, i: int, j: int) -> T {
        (**self).spec_at(i, j)
    }

    open spec fn writable(&self) -> bool {
        (**self).writable()
    }

    fn num_rows(&self) -> (r: usize) {
        (**self).num_rows()
    }

    fn num_cols(&self) -> (r: usize) {
        (**self).num_cols()
    }

    fn get(&self, i: usize, j: usize) -> (r: Result<T, MatrixError>) {
        (**self).get(i, j)
    }

    /// The reference still leads to the same matrix afterwards.
    fn set(&mut self, i: usize, j: usize, x: T) -> (r: Result<(), MatrixError>)
        ensures
            *final(*final(self)) == *final(*old(self)),
    {
        (**self).set(i, j, x)
    }
}

/// A reference-counted matrix is a read-only handle that threads can share.
impl<T, M: BasicMatrix<T>> BasicMatrix<T> for Arc<M> {
    open spec fn inv(&self) -> bool {
        (**self).inv()
    }

    open spec fn spec_rows(&self) -> nat {
        (**self).spec_rows()
    }

    open spec fn spec_cols(&self) -> nat {
        (**self).spec_cols()
    }

    open spec fn spec_at(&self, i: int, j: int) -> T {
        (**self).spec_at(i, j)
    }

    open spec fn writable(&self) -> bool {
        false
    }

    fn num_rows(&self) -> (r: usize) {
        (**self).num_rows()
    }

    fn num_cols(&self) -> (r: usize) {
        (**self).num_cols()
    }

    fn get(&self, i: usize, j: usize) -> (r: Result<T, MatrixError>) {
        (**self).get(i, j)
    }

    fn set(&mut self, i: usize, j: usize, x: T) -> (r: Result<(), MatrixError>) {
        let rows = (**self).num_rows();
        let cols = (**self).num_cols();
        if i < rows && j < cols {
            Err(MatrixError::ReadOnly)
        } else {
            Err(MatrixError::IndexOutOfBounds { row: i, col: j, rows, cols })
        }
    }
}

} // verus!
