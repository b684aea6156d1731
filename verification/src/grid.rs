//! The mathematical model of a matrix, and the operations on it that the
//! contracts of the executable algorithms are stated in.

use vstd::prelude::*;
use crate::error::MatrixError;
use crate::ring::{Ring, Num, Real, neg_one_spec};

verus! {

/// A matrix as a mathematical value: a shape and the rows of cells.
pub struct Grid<T> {
    pub rows: nat,
    pub cols: nat,
    pub cells: Seq<Seq<T>>,
}

impl<T> Grid<T> {
    /// The grid of the given shape whose cell `(i, j)` is `f(i, j)`.
    pub open spec fn new(rows: nat, cols: nat, f: spec_fn(int, int) -> T) -> Grid<T> {
        Grid { rows, cols, cells: Seq::new(rows, |i: int| Seq::new(cols, |j: int| f(i, j))) }
    }

    /// The cell in row `i` and column `j`.
    pub open spec fn at(self, i: int, j: int) -> T {
        self.cells[i][j]
    }

    /// There are `rows` rows of `cols` cells each.
    pub open spec fn wf(self) -> bool {
        &&& self.cells.len() == self.rows
        &&& forall|i: int| 0 <= i < self.rows ==> (#[trigger] self.cells[i]).len() == self.cols
    }

    /// `(i, j)` names a cell of the grid.
    pub open spec fn has(self, i: int, j: int) -> bool {
        0 <= i < self.rows && 0 <= j < self.cols
    }

    /// Row `i` as a sequence.
    pub open spec fn row(self, i: int) -> Seq<T> {
        Seq::new(self.cols, |k: int| self.at(i, k))
    }

    /// Column `j` as a sequence.
    pub open spec fn col(self, j: int) -> Seq<T> {
        Seq::new(self.rows, |k: int| self.at(k, j))
    }

    /// The grid with rows and columns exchanged.
    pub open spec fn transposed(self) -> Grid<T> {
        Grid::new(self.cols, self.rows, |i: int, j: int| self.at(j, i))
    }

    /// The `rows` by `cols` part of the grid that starts at `(i0, j0)`.
    pub open spec fn window(self, i0: int, j0: int, rows: nat, cols: nat) -> Grid<T> {
        Grid::new(rows, cols, |i: int, j: int| self.at(i0 + i, j0 + j))
    }

    /// The window lies inside the grid and is not empty.
    pub open spec fn window_fits(self, i0: int, j0: int, rows: int, cols: int) -> bool {
        &&& rows > 0
        &&& cols > 0
        &&& 0 <= i0 < self.rows
        &&& 0 <= j0 < self.cols
        &&& i0 + rows <= self.rows
        &&& j0 + cols <= self.cols
    }

    /// The upper left quadrant: the first half of the rows and of the
    /// columns. Where a dimension is odd, the second half is the larger one.
    pub open spec fn top_left(self) -> Grid<T> {
        self.window(0, 0, self.rows / 2, self.cols / 2)
    }

    /// The upper right quadrant.
    pub open spec fn top_right(self) -> Grid<T> {
        self.window(0, (self.cols / 2) as int, self.rows / 2, (self.cols - self.cols / 2) as nat)
    }

    /// The lower left quadrant.
    pub open spec fn bottom_left(self) -> Grid<T> {
        self.window((self.rows / 2) as int, 0, (self.rows - self.rows / 2) as nat, self.cols / 2)
    }

    /// The lower right quadrant.
    pub open spec fn bottom_right(self) -> Grid<T> {
        self.window(
            (self.rows / 2) as int,
            (self.cols / 2) as int,
            (self.rows - self.rows / 2) as nat,
            (self.cols - self.cols / 2) as nat,
        )
    }

    /// The grid put together from four quadrants.
    pub open spec fn from_quadrants(a: Grid<T>, b: Grid<T>, c: Grid<T>, d: Grid<T>) -> Grid<T> {
        a.beside(b).stack(c.beside(d))
    }

    /// `self` stacked on top of `below`.
    pub open spec fn stack(self, below: Grid<T>) -> Grid<T> {
        Grid::new(
            self.rows + below.rows,
            self.cols,
            |i: int, j: int|
                if i < self.rows {
                    self.at(i, j)
                } else {
                    below.at(i - self.rows, j)
                },
        )
    }

    /// `self` with `right` placed beside it.
    pub open spec fn beside(self, right: Grid<T>) -> Grid<T> {
        Grid::new(
            self.rows,
            self.cols + right.cols,
            |i: int, j: int|
                if j < self.cols {
                    self.at(i, j)
                } else {
                    right.at(i, j - self.cols)
                },
        )
    }

    /// Both grids have the same shape.
    pub open spec fn same_shape(self, other: Grid<T>) -> bool {
        self.rows == other.rows && self.cols == other.cols
    }
}

/// Two well-formed grids of one shape with equal cells are the same grid.
pub proof fn lemma_grid_ext<T>(a: Grid<T>, b: Grid<T>)
    requires
        a.wf(),
        b.wf(),
        a.same_shape(b),
        forall|i: int, j: int| a.has(i, j) ==> a.at(i, j) == b.at(i, j),
    ensures
        a == b,
{
    assert forall|i: int| 0 <= i < a.rows implies a.cells[i] == b.cells[i] by {
        assert forall|j: int| 0 <= j < a.cols implies a.cells[i][j] == b.cells[i][j] by {
            assert(a.has(i, j));
            assert(a.at(i, j) == b.at(i, j));
        }
        assert(a.cells[i] =~= b.cells[i]);
    }
    assert(a.cells =~= b.cells);
}

/// A window into a window is a window into the grid itself.
pub proof fn lemma_window_of_window<T>(
    m: Grid<T>,
    i0: int,
    j0: int,
    rows: nat,
    cols: nat,
    i1: int,
    j1: int,
    rows1: nat,
    cols1: nat,
)
    requires
        0 <= i1,
        0 <= j1,
        i1 + rows1 <= rows,
        j1 + cols1 <= cols,
    ensures
        m.window(i0, j0, rows, cols).window(i1, j1, rows1, cols1) == m.window(i0 + i1, j0 + j1, rows1, cols1),
{
    lemma_grid_ext(
        m.window(i0, j0, rows, cols).window(i1, j1, rows1, cols1),
        m.window(i0 + i1, j0 + j1, rows1, cols1),
    );
}

/// The running sum of the first `n` products `u[k] * v[k]`, taken in
/// ascending order of `k` and starting from the first product.
pub open spec fn dot_prefix<T: Ring>(u: Seq<T>, v: Seq<T>, n: nat) -> T
    decreases n,
{
    if n <= 1 {
        u[0].times_spec(v[0])
    } else {
        dot_prefix(u, v, (n - 1) as nat).plus_spec(u[n - 1].times_spec(v[n - 1]))
    }
}

/// The dot product of two sequences of one positive length.
pub open spec fn dot_spec<T: Ring>(u: Seq<T>, v: Seq<T>) -> T {
    dot_prefix(u, v, u.len())
}

impl<T: Ring> Grid<T> {
    /// The cell-wise sum.
    pub open spec fn plus(self, rhs: Grid<T>) -> Grid<T> {
        Grid::new(self.rows, self.cols, |i: int, j: int| self.at(i, j).plus_spec(rhs.at(i, j)))
    }

    /// Every cell multiplied from the left by `x`.
    pub open spec fn scaled(self, x: T) -> Grid<T> {
        Grid::new(self.rows, self.cols, |i: int, j: int| x.times_spec(self.at(i, j)))
    }

    /// The matrix product: cell `(i, j)` is the dot product of row `i` of
    /// `self` with column `j` of `rhs`.
    pub open spec fn times(self, rhs: Grid<T>) -> Grid<T> {
        Grid::new(self.rows, rhs.cols, |i: int, j: int| dot_spec(self.row(i), rhs.col(j)))
    }

    /// The grid of the given shape with zero in every cell.
    pub open spec fn zeros(rows: nat, cols: nat) -> Grid<T> {
        Grid::new(rows, cols, |i: int, j: int| T::zero_spec())
    }

    /// The identity matrix of order `n`.
    pub open spec fn identity(n: nat) -> Grid<T> {
        Grid::new(
            n,
            n,
            |i: int, j: int|
                if i == j {
                    T::one_spec()
                } else {
                    T::zero_spec()
                },
        )
    }
}

/// The leaf rule of a blocked product that stops splitting as soon as one of
/// the three dimensions is at most `cutoff`.
pub open spec fn dimension_leaf(cutoff: nat) -> spec_fn(nat, nat, nat) -> bool {
    |rows: nat, inner: nat, cols: nat| rows <= cutoff || inner <= cutoff || cols <= cutoff
}

/// The leaf rule of a blocked product that stops splitting as soon as one of
/// the two operands has at most `cutoff` cells.
pub open spec fn area_leaf(cutoff: nat) -> spec_fn(nat, nat, nat) -> bool {
    |rows: nat, inner: nat, cols: nat| rows * inner <= cutoff || inner * cols <= cutoff
}

/// The product of `a` and `b` computed block by block: where `leaf` says so,
/// or a dimension is too small to split, the plain product; else both
/// operands are split into quadrants, the eight products of quadrants are
/// computed in the same way, added in pairs and put together.
pub open spec fn blocked_times<T: Ring>(a: Grid<T>, b: Grid<T>, leaf: spec_fn(nat, nat, nat) -> bool) -> Grid<T>
    decreases a.rows,
{
    if a.rows < 2 || a.cols < 2 || b.cols < 2 || leaf(a.rows, a.cols, b.cols) {
        a.times(b)
    } else {
        let p = a.top_left();
        let q = a.top_right();
        let r = a.bottom_left();
        let s = a.bottom_right();
        let e = b.top_left();
        let f = b.top_right();
        let g = b.bottom_left();
        let h = b.bottom_right();
        Grid::from_quadrants(
            blocked_times(p, e, leaf).plus(blocked_times(q, g, leaf)),
            blocked_times(p, f, leaf).plus(blocked_times(q, h, leaf)),
            blocked_times(r, e, leaf).plus(blocked_times(s, g, leaf)),
            blocked_times(r, f, leaf).plus(blocked_times(s, h, leaf)),
        )
    }
}

/// A blocked product has the shape of the plain product.
pub proof fn lemma_blocked_times_shape<T: Ring>(a: Grid<T>, b: Grid<T>, leaf: spec_fn(nat, nat, nat) -> bool)
    ensures
        blocked_times(a, b, leaf).wf(),
        blocked_times(a, b, leaf).rows == a.rows,
        blocked_times(a, b, leaf).cols == b.cols,
    decreases a.rows,
{
    if a.rows < 2 || a.cols < 2 || b.cols < 2 || leaf(a.rows, a.cols, b.cols) {
    } else {
        lemma_blocked_times_shape(a.top_left(), b.top_left(), leaf);
        lemma_blocked_times_shape(a.top_left(), b.top_right(), leaf);
        lemma_blocked_times_shape(a.bottom_left(), b.top_left(), leaf);
        lemma_blocked_times_shape(a.bottom_left(), b.top_right(), leaf);
    }
}

impl<T: Num> Grid<T> {
    /// The cell-wise difference.
    pub open spec fn minus(self, rhs: Grid<T>) -> Grid<T> {
        Grid::new(self.rows, self.cols, |i: int, j: int| self.at(i, j).minus_spec(rhs.at(i, j)))
    }
}

/// The error that inversion and factorization report for a grid that is not
/// square.
pub open spec fn non_square<T>(m: Grid<T>) -> MatrixError {
    MatrixError::NonSquareMatrix { rows: m.rows as usize, cols: m.cols as usize }
}

/// The error that inversion and factorization report for a grid without
/// cells: it cannot be split into quadrants.
pub open spec fn no_quadrants() -> MatrixError {
    MatrixError::InvalidWindow { row: 0, col: 0, rows: 0, cols: 0, base_rows: 0, base_cols: 0 }
}

/// The inverse of a square grid by blockwise inversion.
///
/// A grid of one cell is inverted by dividing one by that cell. A larger one
/// is split into quadrants `a b / c d`, the second half being the larger one
/// where the order is odd, and with `ai` the inverse of `a` and `dn` the
/// inverse of the Schur complement `d - c ai b` the result is
/// `ai + (ai b dn)(c ai)`, `-(ai b dn)` / `-(dn c ai)`, `dn`.
/// Where the element type has no quotient for a division, the result is
/// `DegenerateNumeric`.
pub open spec fn inverse_spec<T: Num>(m: Grid<T>) -> Result<Grid<T>, MatrixError>
    decreases m.rows,
{
    if m.rows != m.cols {
        Err(non_square(m))
    } else if m.rows == 0 {
        Err(no_quadrants())
    } else if m.rows == 1 {
        match T::one_spec().divide_spec(m.at(0, 0)) {
            Some(x) => Ok(Grid::new(1, 1, |i: int, j: int| x)),
            None => Err(MatrixError::DegenerateNumeric),
        }
    } else {
        let a = m.top_left();
        let b = m.top_right();
        let c = m.bottom_left();
        let d = m.bottom_right();
        match inverse_spec(a) {
            Err(e) => Err(e),
            Ok(ai) => {
                let s = d.minus(c.times(ai).times(b));
                match inverse_spec(s) {
                    Err(e) => Err(e),
                    Ok(dn) => {
                        let aib = ai.times(b);
                        let cai = c.times(ai);
                        let cn = dn.times(cai).scaled(neg_one_spec::<T>());
                        let aibdn = aib.times(dn);
                        let an = ai.plus(aibdn.times(cai));
                        let bn = aibdn.scaled(neg_one_spec::<T>());
                        Ok(Grid::from_quadrants(an, bn, cn, dn))
                    },
                }
            },
        }
    }
}

/// An inverse has the shape of what was inverted, and inverting a square
/// grid with cells can only fail on a division.
pub proof fn lemma_inverse_shape<T: Num>(m: Grid<T>)
    ensures
        inverse_spec(m) matches Ok(g) ==> g.wf() && g.rows == m.rows && g.cols == m.cols,
        inverse_spec(m) matches Err(e) ==> e == (if m.rows != m.cols {
            non_square(m)
        } else if m.rows == 0 {
            no_quadrants()
        } else {
            MatrixError::DegenerateNumeric
        }),
    decreases m.rows,
{
    if m.rows == m.cols && m.rows >= 2 {
        let a = m.top_left();
        let b = m.top_right();
        let c = m.bottom_left();
        let d = m.bottom_right();
        lemma_inverse_shape(a);
        if let Ok(ai) = inverse_spec(a) {
            let s = d.minus(c.times(ai).times(b));
            lemma_inverse_shape(s);
        }
    }
}

/// The entry below the diagonal in row `i` of column `k` of the factor, given
/// the diagonal entry `d` of that column. Meaningful where the quotient exists.
pub open spec fn scaled_entry<T: Real>(m: Grid<T>, k: int, d: T, i: int) -> T {
    m.at(i, k).divide_spec(d).unwrap()
}

/// Every entry of column `k` below the diagonal can be divided by `d`.
pub open spec fn column_divides<T: Real>(m: Grid<T>, k: int, d: T) -> bool {
    forall|i: int| k < i < m.rows ==> (#[trigger] m.at(i, k).divide_spec(d)) is Some
}

/// Cell `(i, j)` after the elimination step at column `k` with diagonal entry
/// `d`: the diagonal cell becomes `d`, the cells below it are divided by `d`,
/// and from each cell `(i, j)` of the lower triangle to the right of column
/// `k` the product of the new cells `(i, k)` and `(j, k)` is subtracted.
pub open spec fn step_cell<T: Real>(m: Grid<T>, k: int, d: T, i: int, j: int) -> T {
    if i == k && j == k {
        d
    } else if j == k && i > k {
        scaled_entry(m, k, d, i)
    } else if k < j && j <= i {
        m.at(i, j).minus_spec(scaled_entry(m, k, d, i).times_spec(scaled_entry(m, k, d, j)))
    } else {
        m.at(i, j)
    }
}

/// The elimination step of the factorization at column `k`, where the square
/// root and the quotients that it needs exist.
pub open spec fn cholesky_step<T: Real>(m: Grid<T>, k: int) -> Option<Grid<T>> {
    match m.at(k, k).sqrt_spec() {
        None => None,
        Some(d) => if column_divides(m, k, d) {
            Some(Grid::new(m.rows, m.cols, |i: int, j: int| step_cell(m, k, d, i, j)))
        } else {
            None
        },
    }
}

/// The elimination steps at columns `k`, `k + 1`, and so on to the last.
pub open spec fn cholesky_steps<T: Real>(m: Grid<T>, k: nat) -> Option<Grid<T>>
    decreases m.rows - k,
{
    if k >= m.rows {
        Some(m)
    } else {
        match cholesky_step(m, k as int) {
            None => None,
            Some(next) => cholesky_steps(next, k + 1),
        }
    }
}

/// The grid with zero in every cell to the right of the diagonal, in the rows
/// from `start` on.
pub open spec fn lower_from<T: Ring>(m: Grid<T>, start: nat) -> Grid<T> {
    Grid::new(
        m.rows,
        m.cols,
        |i: int, j: int|
            if i >= start && j > i {
                T::zero_spec()
            } else {
                m.at(i, j)
            },
    )
}

/// The factorization of a square grid, column by column from `start` on: the
/// elimination steps, then zeros to the right of the diagonal.
pub open spec fn cholesky_seq_spec<T: Real>(m: Grid<T>, start: nat) -> Result<Grid<T>, MatrixError> {
    if m.rows != m.cols {
        Err(non_square(m))
    } else {
        match cholesky_steps(m, start) {
            None => Err(MatrixError::DegenerateNumeric),
            Some(g) => Ok(lower_from(g, start)),
        }
    }
}

/// The elimination steps keep the shape.
pub proof fn lemma_cholesky_steps_shape<T: Real>(m: Grid<T>, k: nat)
    requires
        m.wf(),
    ensures
        cholesky_steps(m, k) matches Some(g) ==> g.wf() && g.rows == m.rows && g.cols == m.cols,
    decreases m.rows - k,
{
    if k < m.rows {
        if let Some(next) = cholesky_step(m, k as int) {
            lemma_cholesky_steps_shape(next, k + 1);
        }
    }
}

/// The factorization of a square grid by blocks.
///
/// A grid of order at most `block`, or with fewer than two rows, is factored
/// column by column. A larger one is split into quadrants `a . / c d`, the
/// second half being the larger one where the order is odd; with `ac` the
/// factor of `a` and `x = c (ac^T)^-1` the result is `ac 0 / x dn`, where
/// `dn` is the factor of `d - x x^T`.
pub open spec fn cholesky_blocked_spec<T: Real>(m: Grid<T>, block: nat) -> Result<Grid<T>, MatrixError>
    decreases m.rows,
{
    if m.rows != m.cols {
        Err(non_square(m))
    } else if m.rows <= block || m.rows < 2 {
        cholesky_seq_spec(m, 0)
    } else {
        let a = m.top_left();
        let c = m.bottom_left();
        let d = m.bottom_right();
        match cholesky_blocked_spec(a, block) {
            Err(e) => Err(e),
            Ok(ac) => match inverse_spec(ac.transposed()) {
                Err(e) => Err(e),
                Ok(aci) => {
                    let x = c.times(aci);
                    let s = d.minus(x.times(x.transposed()));
                    match cholesky_blocked_spec(s, block) {
                        Err(e) => Err(e),
                        Ok(dn) => Ok(Grid::from_quadrants(ac, Grid::zeros(a.rows, d.cols), x, dn)),
                    }
                },
            },
        }
    }
}

/// A factor has the shape of what was factored, and the factorization of a
/// square grid can only fail on a square root or a division.
pub proof fn lemma_cholesky_blocked_shape<T: Real>(m: Grid<T>, block: nat)
    requires
        m.wf(),
    ensures
        cholesky_blocked_spec(m, block) matches Ok(g) ==> g.wf() && g.rows == m.rows && g.cols == m.cols,
        cholesky_blocked_spec(m, block) matches Err(e) ==> e == (if m.rows != m.cols {
            non_square(m)
        } else {
            MatrixError::DegenerateNumeric
        }),
    decreases m.rows,
{
    if m.rows != m.cols {
    } else if m.rows <= block || m.rows < 2 {
        lemma_cholesky_steps_shape(m, 0);
    } else {
        let a = m.top_left();
        let c = m.bottom_left();
        let d = m.bottom_right();
        lemma_cholesky_blocked_shape(a, block);
        if let Ok(ac) = cholesky_blocked_spec(a, block) {
            lemma_inverse_shape(ac.transposed());
            if let Ok(aci) = inverse_spec(ac.transposed()) {
                let x = c.times(aci);
                let s = d.minus(x.times(x.transposed()));
                lemma_cholesky_blocked_shape(s, block);
            }
        }
    }
}

/// The first `n` grids of `row` put beside each other, from left to right.
pub open spec fn beside_all<T>(row: Seq<Grid<T>>, n: nat) -> Grid<T>
    decreases n,
{
    if n <= 1 {
        row[0]
    } else {
        beside_all(row, (n - 1) as nat).beside(row[n - 1])
    }
}

/// The first `n` grids of `rows` stacked, from top to bottom.
pub open spec fn stack_all<T>(rows: Seq<Grid<T>>, n: nat) -> Grid<T>
    decreases n,
{
    if n <= 1 {
        rows[0]
    } else {
        stack_all(rows, (n - 1) as nat).stack(rows[n - 1])
    }
}

/// The number of columns of the first `n` grids of `row` together.
pub open spec fn width<T>(row: Seq<Grid<T>>, n: nat) -> nat
    decreases n,
{
    if n == 0 {
        0
    } else {
        width(row, (n - 1) as nat) + row[n - 1].cols
    }
}

/// The number of rows of the first `n` grids of `rows` together.
pub open spec fn height<T>(rows: Seq<Grid<T>>, n: nat) -> nat
    decreases n,
{
    if n == 0 {
        0
    } else {
        height(rows, (n - 1) as nat) + rows[n - 1].rows
    }
}

/// The grids of one row of blocks, each put beside the one before.
pub open spec fn row_bands<T>(blocks: Seq<Seq<Grid<T>>>) -> Seq<Grid<T>> {
    Seq::new(blocks.len(), |k: int| beside_all(blocks[k], blocks[k].len()))
}

/// A grid of blocks put together: the blocks of each row beside each other,
/// and the rows of blocks stacked.
pub open spec fn assembled<T>(blocks: Seq<Seq<Grid<T>>>) -> Grid<T> {
    stack_all(row_bands(blocks), blocks.len())
}

/// The blocks of a row can stand beside each other: there is one, and all are
/// well formed and have `h` rows.
pub open spec fn row_fits<T>(row: Seq<Grid<T>>, h: nat) -> bool {
    &&& row.len() > 0
    &&& forall|l: int| 0 <= l < row.len() ==> (#[trigger] row[l]).wf() && row[l].rows == h
}

/// The blocks fit together to a grid of `w` columns: there is a row, the
/// blocks of each row have one height, and each row is `w` columns wide.
pub open spec fn blocks_fit<T>(blocks: Seq<Seq<Grid<T>>>, w: nat) -> bool {
    &&& blocks.len() > 0
    &&& forall|k: int|
        0 <= k < blocks.len() ==> row_fits(#[trigger] blocks[k], blocks[k][0].rows) && width(
            blocks[k],
            blocks[k].len(),
        ) == w
}

/// The width of a row of blocks grows with the number of blocks.
pub proof fn lemma_width_grows<T>(row: Seq<Grid<T>>, n: nat, m: nat)
    requires
        n <= m,
    ensures
        width(row, n) <= width(row, m),
    decreases m,
{
    if n < m {
        lemma_width_grows(row, n, (m - 1) as nat);
    }
}

/// The height of a stack grows with the number of grids.
pub proof fn lemma_height_grows<T>(rows: Seq<Grid<T>>, n: nat, m: nat)
    requires
        n <= m,
    ensures
        height(rows, n) <= height(rows, m),
    decreases m,
{
    if n < m {
        lemma_height_grows(rows, n, (m - 1) as nat);
    }
}

/// The shape of blocks put beside each other.
pub proof fn lemma_beside_all_shape<T>(row: Seq<Grid<T>>, n: nat, h: nat)
    requires
        row_fits(row, h),
        1 <= n <= row.len(),
    ensures
        beside_all(row, n).wf(),
        beside_all(row, n).rows == h,
        beside_all(row, n).cols == width(row, n),
    decreases n,
{
    if n > 1 {
        lemma_beside_all_shape(row, (n - 1) as nat, h);
    } else {
        assert(width(row, 1) == width(row, 0) + row[0].cols);
    }
}

/// The shape of stacked grids of one width.
pub proof fn lemma_stack_all_shape<T>(rows: Seq<Grid<T>>, n: nat, w: nat)
    requires
        1 <= n <= rows.len(),
        forall|k: int| 0 <= k < rows.len() ==> (#[trigger] rows[k]).wf() && rows[k].cols == w,
    ensures
        stack_all(rows, n).wf(),
        stack_all(rows, n).cols == w,
        stack_all(rows, n).rows == height(rows, n),
    decreases n,
{
    if n > 1 {
        lemma_stack_all_shape(rows, (n - 1) as nat, w);
    } else {
        assert(height(rows, 1) == height(rows, 0) + rows[0].rows);
    }
}

/// The bands of blocks that fit are well formed and of one width.
pub proof fn lemma_row_bands<T>(blocks: Seq<Seq<Grid<T>>>, w: nat)
    requires
        blocks_fit(blocks, w),
    ensures
        row_bands(blocks).len() == blocks.len(),
        forall|k: int|
            0 <= k < blocks.len() ==> (#[trigger] row_bands(blocks)[k]).wf() && row_bands(blocks)[k].cols == w
                && row_bands(blocks)[k].rows == blocks[k][0].rows,
{
    assert forall|k: int| 0 <= k < blocks.len() implies (#[trigger] row_bands(blocks)[k]).wf() && row_bands(
        blocks,
    )[k].cols == w && row_bands(blocks)[k].rows == blocks[k][0].rows by {
        lemma_beside_all_shape(blocks[k], blocks[k].len(), blocks[k][0].rows);
    }
}

} // verus!
