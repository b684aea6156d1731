//! Views: objects that own no cells and redirect every access to a base
//! matrix, which they hold through a handle. A view over a shared handle reads
//! only; a view over an exclusive handle (or over the matrix itself) writes
//! through to the base.

use vstd::prelude::*;
use crate::error::MatrixError;
use crate::matrix::{BasicMatrix, grid_of};

verus! {

/// A one-dimensional sequence of cells that can be read and written by index.
pub trait Vector<T> {
    /// The object is valid.
    spec fn inv(&self) -> bool;

    /// The number of cells.
    spec fn spec_len(&self) -> nat;

    /// The cell at index `k`.
    spec fn spec_at(&self, k: int) -> T;

    /// Writes through this object reach the cells.
    spec fn writable(&self) -> bool;

    /// The error that reports index `k` as outside the vector.
    spec fn spec_miss(&self, k: usize) -> MatrixError;

    fn len(&self) -> (r: usize)
        requires
            self.inv(),
        ensures
            r == self.spec_len(),
    ;

    fn get(&self, k: usize) -> (r: Result<T, MatrixError>)
        requires
            self.inv(),
        ensures
            r == (if k < self.spec_len() {
                Ok(self.spec_at(k as int))
            } else {
                Err(self.spec_miss(k))
            }),
    ;

    /// Returns the cell at index `k`, as `get` does.
    fn index(&self, k: &usize) -> (r: Result<T, MatrixError>)
        requires
            self.inv(),
        ensures
            r == (if *k < self.spec_len() {
                Ok(self.spec_at(*k as int))
            } else {
                Err(self.spec_miss(*k))
            }),
    {
        self.get(*k)
    }

    fn set(&mut self, k: usize, x: T) -> (r: Result<(), MatrixError>)
        requires
            old(self).inv(),
        ensures
            final(self).inv(),
            final(self).writable() == old(self).writable(),
            final(self).spec_len() == old(self).spec_len(),
            r == (if !(k < old(self).spec_len()) {
                Err(old(self).spec_miss(k))
            } else if !old(self).writable() {
                Err(MatrixError::ReadOnly)
            } else {
                Ok(())
            }),
            forall|a: int|
                0 <= a < old(self).spec_len() ==> #[trigger] final(self).spec_at(a) == (if r is Ok && a == k {
                    x
                } else {
                    old(self).spec_at(a)
                }),
    ;
}

/// The matrix behind `after` is the one behind `before`, with cell `(i, j)`
/// replaced by `x` if `done`, and unchanged if not.
pub open spec fn written<T, B: BasicMatrix<T>>(before: B, after: B, done: bool, i: int, j: int, x: T) -> bool {
    &&& after.inv()
    &&& after.writable() == before.writable()
    &&& after.spec_rows() == before.spec_rows()
    &&& after.spec_cols() == before.spec_cols()
    &&& forall|a: int, b: int|
        0 <= a < before.spec_rows() && 0 <= b < before.spec_cols() ==> #[trigger] after.spec_at(a, b) == (if done
            && a == i && b == j {
            x
        } else {
            before.spec_at(a, b)
        })
}

/// The cells of `v` as a sequence.
pub open spec fn seq_of<T, V: Vector<T>>(v: &V) -> Seq<T> {
    Seq::new(v.spec_len(), |k: int| v.spec_at(k))
}

/// One row of a matrix, seen as a vector.
#[derive(Clone, Copy, Debug)]
pub struct RowVector<B> {
    i: usize,
    base: B,
}

/// One column of a matrix, seen as a vector.
#[derive(Clone, Copy, Debug)]
pub struct ColumnVector<B> {
    j: usize,
    base: B,
}

impl<B> RowVector<B> {
    /// The handle on the base matrix.
    pub closed spec fn base(&self) -> B {
        self.base
    }

    /// The index of the row in the base matrix.
    pub closed spec fn position(&self) -> usize {
        self.i
    }

    /// Gives up the view and hands back the handle on the base matrix.
    pub fn into_base(self) -> (r: B)
        ensures
            r == self.base(),
    {
        self.base
    }
}

impl<B> ColumnVector<B> {
    /// The handle on the base matrix.
    pub closed spec fn base(&self) -> B {
        self.base
    }

    /// The index of the column in the base matrix.
    pub closed spec fn position(&self) -> usize {
        self.j
    }

    /// Gives up the view and hands back the handle on the base matrix.
    pub fn into_base(self) -> (r: B)
        ensures
            r == self.base(),
    {
        self.base
    }
}

impl<T, B: BasicMatrix<T>> Vector<T> for RowVector<B> {
    closed spec fn inv(&self) -> bool {
        self.base.inv() && self.i < self.base.spec_rows()
    }

    closed spec fn spec_len(&self) -> nat {
        self.base.spec_cols()
    }

    closed spec fn spec_at(&self, k: int) -> T {
        self.base.spec_at(self.i as int, k)
    }

    closed spec fn writable(&self) -> bool {
        self.base.writable()
    }

    closed spec fn spec_miss(&self, k: usize) -> MatrixError {
        MatrixError::IndexOutOfBounds {
            row: self.i,
            col: k,
            rows: self.base.spec_rows() as usize,
            cols: self.base.spec_cols() as usize,
        }
    }

    fn len(&self) -> (r: usize) {
        self.base.num_cols()
    }

    #[inline(always)]
    fn get(&self, k: usize) -> (r: Result<T, MatrixError>) {
        self.base.get(self.i, k)
    }

    /// The write is handed on to cell `(index, k)` of the base.
    #[inline(always)]
    fn set(&mut self, k: usize, x: T) -> (r: Result<(), MatrixError>)
        ensures
            final(self).position() == old(self).position(),
            written(old(self).base(), final(self).base(), r is Ok, old(self).position() as int, k as int, x),
    {
        self.base.set(self.i, k, x)
    }
}

impl<T, B: BasicMatrix<T>> Vector<T> for ColumnVector<B> {
    closed spec fn inv(&self) -> bool {
        self.base.inv() && self.j < self.base.spec_cols()
    }

    closed spec fn spec_len(&self) -> nat {
        self.base.spec_rows()
    }

    closed spec fn spec_at(&self, k: int) -> T {
        self.base.spec_at(k, self.j as int)
    }

    closed spec fn writable(&self) -> bool {
        self.base.writable()
    }

    closed spec fn spec_miss(&self, k: usize) -> MatrixError {
        MatrixError::IndexOutOfBounds {
            row: k,
            col: self.j,
            rows: self.base.spec_rows() as usize,
            cols: self.base.spec_cols() as usize,
        }
    }

    fn len(&self) -> (r: usize) {
        self.base.num_rows()
    }

    #[inline(always)]
    fn get(&self, k: usize) -> (r: Result<T, MatrixError>) {
        self.base.get(k, self.j)
    }

    /// The write is handed on to cell `(k, index)` of the base.
    #[inline(always)]
    fn set(&mut self, k: usize, x: T) -> (r: Result<(), MatrixError>)
        ensures
            final(self).position() == old(self).position(),
            written(old(self).base(), final(self).base(), r is Ok, k as int, old(self).position() as int, x),
    {
        self.base.set(k, self.j, x)
    }
}

/// Row `i` of `m` as a vector, or `IndexOutOfBounds` if `m` has no such row.
pub fn row<T, B: BasicMatrix<T>>(m: B, i: usize) -> (r: Result<RowVector<B>, MatrixError>)
    requires
        m.inv(),
    ensures
        r is Ok <==> i < m.spec_rows(),
        r matches Ok(v) ==> v.inv() && v.writable() == m.writable() && v.base() == m && v.position() == i && seq_of(
            &v,
        ) == grid_of(&m).row(i as int),
        r matches Err(e) ==> e == (MatrixError::IndexOutOfBounds {
            row: i,
            col: 0,
            rows: m.spec_rows() as usize,
            cols: m.spec_cols() as usize,
        }),
{
    let rows = m.num_rows();
    let cols = m.num_cols();
    if i < rows {
        let v = RowVector { i, base: m };
        assert(seq_of(&v) =~= grid_of(&m).row(i as int));
        Ok(v)
    } else {
        Err(MatrixError::IndexOutOfBounds { row: i, col: 0, rows, cols })
    }
}

/// Column `j` of `m` as a vector, or `IndexOutOfBounds` if `m` has no such
/// column.
pub fn col<T, B: BasicMatrix<T>>(m: B, j: usize) -> (r: Result<ColumnVector<B>, MatrixError>)
    requires
        m.inv(),
    ensures
        r is Ok <==> j < m.spec_cols(),
        r matches Ok(v) ==> v.inv() && v.writable() == m.writable() && v.base() == m && v.position() == j && seq_of(
            &v,
        ) == grid_of(&m).col(j as int),
        r matches Err(e) ==> e == (MatrixError::IndexOutOfBounds {
            row: 0,
            col: j,
            rows: m.spec_rows() as usize,
            cols: m.spec_cols() as usize,
        }),
{
    let rows = m.num_rows();
    let cols = m.num_cols();
    if j < cols {
        let v = ColumnVector { j, base: m };
        assert(seq_of(&v) =~= grid_of(&m).col(j as int));
        Ok(v)
    } else {
        Err(MatrixError::IndexOutOfBounds { row: 0, col: j, rows, cols })
    }
}

/// A rectangular window into a base matrix.
#[derive(Clone, Copy, Debug)]
pub struct SubMatrix<B> {
    i: usize,
    j: usize,
    rows: usize,
    cols: usize,
    base: B,
}

/// The window of `rows` by `cols` cells of `m` that starts at `(i, j)`. A
/// window that is empty, or that does not lie inside `m`, is refused with
/// `InvalidWindow`.
#[allow(non_snake_case)]
pub fn SubMatrix<T, B: BasicMatrix<T>>(m: B, i: usize, j: usize, rows: usize, cols: usize) -> (r: Result<
    SubMatrix<B>,
    MatrixError,
>)
    requires
        m.inv(),
    ensures
        r is Ok <==> grid_of(&m).window_fits(i as int, j as int, rows as int, cols as int),
        r matches Ok(w) ==> w.inv() && w.writable() == m.writable() && w.base() == m && w.offset() == (i, j)
            && grid_of(&w) == grid_of(&m).window(i as int, j as int, rows as nat, cols as nat),
        r matches Err(e) ==> e == (MatrixError::InvalidWindow {
            row: i,
            col: j,
            rows,
            cols,
            base_rows: m.spec_rows() as usize,
            base_cols: m.spec_cols() as usize,
        }),
{
    let base_rows = m.num_rows();
    let base_cols = m.num_cols();
    if rows > 0 && cols > 0 && i < base_rows && j < base_cols && rows <= base_rows - i && cols
        <= base_cols - j {
        let w = SubMatrix { i, j, rows, cols, base: m };
        proof {
            crate::grid::lemma_grid_ext(
                grid_of(&w),
                grid_of(&m).window(i as int, j as int, rows as nat, cols as nat),
            );
        }
        Ok(w)
    } else {
        Err(MatrixError::InvalidWindow { row: i, col: j, rows, cols, base_rows, base_cols })
    }
}

impl<B> SubMatrix<B> {
    /// The handle on the base matrix.
    pub closed spec fn base(&self) -> B {
        self.base
    }

    /// The cell of the base matrix that is the first cell of the window.
    pub closed spec fn offset(&self) -> (usize, usize) {
        (self.i, self.j)
    }

    /// Gives up the view and hands back the handle on the base matrix.
    pub fn into_base(self) -> (r: B)
        ensures
            r == self.base(),
    {
        self.base
    }
}

impl<T, B: BasicMatrix<T>> BasicMatrix<T> for SubMatrix<B> {
    closed spec fn inv(&self) -> bool {
        &&& self.base.inv()
        &&& self.i + self.rows <= self.base.spec_rows()
        &&& self.j + self.cols <= self.base.spec_cols()
    }

    closed spec fn spec_rows(&self) -> nat {
        self.rows as nat
    }

    closed spec fn spec_cols(&self) -> nat {
        self.cols as nat
    }

    closed spec fn spec_at(&self, i: int, j: int) -> T {
        self.base.spec_at(self.i + i, self.j + j)
    }

    closed spec fn writable(&self) -> bool {
        self.base.writable()
    }

    fn num_rows(&self) -> (r: usize) {
        self.rows
    }

    fn num_cols(&self) -> (r: usize) {
        self.cols
    }

    #[inline(always)]
    fn get(&self, i: usize, j: usize) -> (r: Result<T, MatrixError>) {
        if i < self.rows && j < self.cols {
            let base_rows = self.base.num_rows();
            let base_cols = self.base.num_cols();
            self.base.get(i + self.i, j + self.j)
        } else {
            Err(MatrixError::IndexOutOfBounds { row: i, col: j, rows: self.rows, cols: self.cols })
        }
    }

    /// The write is handed on to the cell of the base that lies `(i, j)`
    /// from the offset of the window.
    #[inline(always)]
    fn set(&mut self, i: usize, j: usize, x: T) -> (r: Result<(), MatrixError>)
        ensures
            final(self).offset() == old(self).offset(),
            written(
                old(self).base(),
                final(self).base(),
                r is Ok,
                old(self).offset().0 + i,
                old(self).offset().1 + j,
                x,
            ),
    {
        if i < self.rows && j < self.cols {
            let base_rows = self.base.num_rows();
            let base_cols = self.base.num_cols();
            let ghost before = self.base;
            let r = self.base.set(i + self.i, j + self.j, x);
            assert forall|a: int, b: int| 0 <= a < self.rows && 0 <= b < self.cols implies #[trigger] (*self).spec_at(
                a,
                b,
            ) == (if r is Ok && a == i && b == j {
                x
            } else {
                (*old(self)).spec_at(a, b)
            }) by {
                assert(self.base.spec_at(self.i + a, self.j + b) == (if r is Ok && self.i + a == i
                    + self.i && self.j + b == j + self.j {
                    x
                } else {
                    before.spec_at(self.i + a, self.j + b)
                }));
            }
            r
        } else {
            Err(MatrixError::IndexOutOfBounds { row: i, col: j, rows: self.rows, cols: self.cols })
        }
    }
}

/// A matrix seen with rows and columns exchanged.
#[derive(Clone, Copy, Debug)]
pub struct TransposeMatrix<B>(pub B);

/// The transposed view of `m`.
pub fn transpose<T, B: BasicMatrix<T>>(m: B) -> (r: TransposeMatrix<B>)
    requires
        m.inv(),
    ensures
        r.inv(),
        r.0 == m,
        grid_of(&r) == grid_of(&m).transposed(),
{
    let r = TransposeMatrix(m);
    proof {
        lemma_transposed_view(&r);
    }
    r
}

/// A transposed view stands for the transposed matrix of its base.
pub proof fn lemma_transposed_view<T, B: BasicMatrix<T>>(v: &TransposeMatrix<B>)
    ensures
        grid_of(v) == grid_of(&v.0).transposed(),
{
    crate::grid::lemma_grid_ext(grid_of(v), grid_of(&v.0).transposed());
}

impl<T, B: BasicMatrix<T>> BasicMatrix<T> for TransposeMatrix<B> {
    open spec fn inv(&self) -> bool {
        self.0.inv()
    }

    open spec fn spec_rows(&self) -> nat {
        self.0.spec_cols()
    }

    open spec fn spec_cols(&self) -> nat {
        self.0.spec_rows()
    }

    open spec fn spec_at(&self, i: int, j: int) -> T {
        self.0.spec_at(j, i)
    }

    open spec fn writable(&self) -> bool {
        self.0.writable()
    }

    fn num_rows(&self) -> (r: usize) {
        self.0.num_cols()
    }

    fn num_cols(&self) -> (r: usize) {
        self.0.num_rows()
    }

    #[inline(always)]
    fn get(&self, i: usize, j: usize) -> (r: Result<T, MatrixError>) {
        match self.0.get(j, i) {
            Ok(x) => Ok(x),
            Err(_) => Err(
                MatrixError::IndexOutOfBounds {
                    row: i,
                    col: j,
                    rows: self.0.num_cols(),
                    cols: self.0.num_rows(),
                },
            ),
        }
    }

    /// The write is handed on to cell `(j, i)` of the base.
    #[inline(always)]
    fn set(&mut self, i: usize, j: usize, x: T) -> (r: Result<(), MatrixError>)
        ensures
            written(old(self).0, final(self).0, r is Ok, j as int, i as int, x),
    {
        let rows = self.0.num_cols();
        let cols = self.0.num_rows();
        match self.0.set(j, i, x) {
            Ok(()) => Ok(()),
            Err(MatrixError::ReadOnly) => Err(MatrixError::ReadOnly),
            Err(_) => Err(MatrixError::IndexOutOfBounds { row: i, col: j, rows, cols }),
        }
    }
}

} // verus!
