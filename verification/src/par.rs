//! The fork-join algorithms, cut at their joints: each piece that a task can
//! compute on its own is a function here, and so is what puts the pieces
//! together. The functions of this module that do a whole job run the pieces
//! one after the other; a caller with threads at hand runs the pieces
//! concurrently and joins them with the same functions, to the same result.

use vstd::prelude::*;
use crate::algorithms::{
    agrees, beside_error, check_product, concat_cols, concat_rows, convert, inverse_dense, lemma_area_bound,
    lemma_handle_grid, lemma_shape_of, mat_add, product_cell, shape_error, stack_error, times_error, yields,
};
use crate::cholesky::cholesky_dense;
use crate::error::MatrixError;
use crate::ring::{Num, Real, Ring};
use crate::views::SubMatrix;
use crate::grid::{
    Grid, area_leaf, assembled, beside_all, blocked_times, blocks_fit, cholesky_blocked_spec, dot_spec, height,
    inverse_spec, lemma_beside_all_shape, lemma_blocked_times_shape, lemma_grid_ext, lemma_height_grows,
    lemma_row_bands, lemma_stack_all_shape, lemma_width_grows, lemma_window_of_window, row_bands, row_fits,
    stack_all, width,
};
use crate::matrix::{BasicMatrix, Create, grid_of};

verus! {

/// The smaller of two numbers.
pub fn min(a: usize, b: usize) -> (r: usize)
    ensures
        r == (if a < b {
            a
        } else {
            b
        }),
{
    if a < b {
        a
    } else {
        b
    }
}

/// The grid `g` holds what the generator `f` returned for the cells from
/// `(i0, j0)` on: cell `(i, j)` of `g` is a result of `f(i0 + i, j0 + j)`.
pub open spec fn generated<T, F: Fn(usize, usize) -> T>(g: Grid<T>, f: F, i0: nat, j0: nat) -> bool {
    forall|i: usize, j: usize|
        i < g.rows && j < g.cols ==> call_ensures(
            f,
            ((i0 + i) as usize, (j0 + j) as usize),
            #[trigger] g.at(i as int, j as int),
        )
}

/// A matrix of this shape can be stored: neither dimension, nor the number
/// of cells, is above `usize::MAX`.
pub open spec fn fits_memory(rows: nat, cols: nat) -> bool {
    rows <= usize::MAX && cols <= usize::MAX && rows * cols <= usize::MAX
}

/// The grids that a row of matrices stands for.
pub open spec fn row_grids<T, M: BasicMatrix<T>>(row: Seq<M>) -> Seq<Grid<T>> {
    Seq::new(row.len(), |l: int| grid_of(&row[l]))
}

/// The grids that rows of matrices stand for.
pub open spec fn block_grids<T, M: BasicMatrix<T>>(blocks: Seq<Vec<M>>) -> Seq<Seq<Grid<T>>> {
    Seq::new(blocks.len(), |k: int| row_grids(blocks[k]@))
}

/// Every matrix of the rows is valid.
pub open spec fn blocks_valid<T, M: BasicMatrix<T>>(blocks: Seq<Vec<M>>) -> bool {
    forall|k: int, l: int| 0 <= k < blocks.len() && 0 <= l < blocks[k]@.len() ==> (#[trigger] blocks[k]@[l]).inv()
}

/// The blocks of one row put beside each other, from left to right.
fn assemble_row<T, M: Create<T>>(row: &Vec<M>, Ghost(total): Ghost<nat>) -> (r: M)
    requires
        row_fits(row_grids::<T, M>(row@), row_grids::<T, M>(row@)[0].rows),
        forall|l: int| 0 <= l < row@.len() ==> (#[trigger] row@[l]).inv(),
        row_grids::<T, M>(row@)[0].rows * width(row_grids::<T, M>(row@), row@.len()) <= total,
        total <= usize::MAX,
        width(row_grids::<T, M>(row@), row@.len()) <= usize::MAX,
    ensures
        r.inv(),
        r.writable(),
        grid_of(&r) == beside_all(row_grids::<T, M>(row@), row@.len()),
{
    let ghost grids = row_grids::<T, M>(row@);
    let ghost h = grids[0].rows;
    proof {
        assert(grids[0] == grid_of(&row@[0]));
        lemma_width_grows(grids, 1, row@.len());
        assert(width(grids, 1) == width(grids, 0) + grids[0].cols);
        lemma_area_bound(h as int, grids[0].cols as int, h as int, width(grids, row@.len()) as int);
    }
    let mut m: M = convert(&row[0]);
    let mut l: usize = 1;
    while l < row.len()
        invariant
            1 <= l <= row.len(),
            grids == row_grids::<T, M>(row@),
            h == grids[0].rows,
            row_fits(grids, h),
            forall|l: int| 0 <= l < row@.len() ==> (#[trigger] row@[l]).inv(),
            h * width(grids, row@.len()) <= total,
            total <= usize::MAX,
            width(grids, row@.len()) <= usize::MAX,
            m.inv(),
            m.writable(),
            grid_of(&m) == beside_all(grids, l as nat),
        decreases row.len() - l,
    {
        proof {
            lemma_beside_all_shape(grids, l as nat, h);
            lemma_width_grows(grids, (l + 1) as nat, row@.len());
            lemma_area_bound(h as int, width(grids, (l + 1) as nat) as int, h as int, width(grids, row@.len()) as int);
            assert(grids[l as int] == grid_of(&row@[l as int]));
            lemma_shape_of(&m);
            lemma_shape_of(&row@[l as int]);
        }
        m = concat_cols(&m, &row[l]).unwrap();
        l = l + 1;
    }
    m
}

/// Puts a grid of blocks together: the blocks of each row beside each other,
/// then the rows stacked. The blocks must fit: there is at least one row, no
/// row is empty, the blocks of a row have one height, and all rows have one
/// width; and the result must have at most `usize::MAX` cells.
pub fn assemble_blocks<T, M: Create<T>>(blocks: &Vec<Vec<M>>) -> (r: M)
    requires
        blocks_valid::<T, M>(blocks@),
        exists|w: nat| #[trigger]
            blocks_fit(block_grids::<T, M>(blocks@), w) && fits_memory(
                height(row_bands(block_grids::<T, M>(blocks@)), blocks@.len()),
                w,
            ),
    ensures
        r.inv(),
        r.writable(),
        grid_of(&r) == assembled(block_grids::<T, M>(blocks@)),
{
    let ghost grids = block_grids::<T, M>(blocks@);
    let ghost bands = row_bands(grids);
    let ghost w = choose|w: nat| #[trigger] blocks_fit(grids, w) && fits_memory(height(bands, blocks@.len()), w);
    let ghost total = height(bands, blocks@.len()) * w;
    proof {
        lemma_row_bands(grids, w);
        assert forall|k: int| 0 <= k < blocks@.len() implies (#[trigger] bands[k]).rows * w <= total by {
            lemma_height_grows(bands, (k + 1) as nat, blocks@.len());
            assert(height(bands, (k + 1) as nat) == height(bands, k as nat) + bands[k].rows);
            lemma_area_bound(bands[k].rows as int, w as int, height(bands, blocks@.len()) as int, w as int);
        }
        assert(grids[0] == row_grids::<T, M>(blocks@[0]@));
        assert(row_fits(grids[0], grids[0][0].rows) && width(grids[0], grids[0].len()) == w);
        assert(bands[0].rows * w <= total);
        assert(height(bands, 1) == height(bands, 0) + bands[0].rows);
    }
    // read the first row
    let mut m: M = assemble_row(&blocks[0], Ghost(total));
    // read the rest of the rows
    let mut k: usize = 1;
    while k < blocks.len()
        invariant
            1 <= k <= blocks.len(),
            grids == block_grids::<T, M>(blocks@),
            bands == row_bands(grids),
            bands.len() == blocks@.len(),
            blocks_valid::<T, M>(blocks@),
            blocks_fit(grids, w),
            total == height(bands, blocks@.len()) * w,
            fits_memory(height(bands, blocks@.len()), w),
            forall|k: int| 0 <= k < blocks@.len() ==> (#[trigger] bands[k]).rows * w <= total,
            forall|k: int|
                0 <= k < blocks@.len() ==> (#[trigger] bands[k]).wf() && bands[k].cols == w && bands[k].rows
                    == grids[k][0].rows,
            m.inv(),
            m.writable(),
            grid_of(&m) == stack_all(bands, k as nat),
        decreases blocks.len() - k,
    {
        proof {
            assert(grids[k as int] == row_grids::<T, M>(blocks@[k as int]@));
            assert(bands[k as int].rows * w <= total);
            lemma_stack_all_shape(bands, k as nat, w);
            lemma_height_grows(bands, (k + 1) as nat, blocks@.len());
            assert(height(bands, (k + 1) as nat) == height(bands, k as nat) + bands[k as int].rows);
            lemma_area_bound(
                height(bands, (k + 1) as nat) as int,
                w as int,
                height(bands, blocks@.len()) as int,
                w as int,
            );
            lemma_shape_of(&m);
            assert(row_fits(grids[k as int], grids[k as int][0].rows) && width(
                grids[k as int],
                grids[k as int].len(),
            ) == w);
        }
        let band: M = assemble_row(&blocks[k], Ghost(total));
        proof {
            lemma_shape_of(&band);
        }
        m = concat_rows(&m, &band).unwrap();
        k = k + 1;
    }
    m
}

/// The width of a row of grids depends only on the grids that are counted.
pub proof fn lemma_width_prefix<T>(a: Seq<Grid<T>>, b: Seq<Grid<T>>, n: nat)
    requires
        forall|l: int| 0 <= l < n ==> a[l] == b[l],
    ensures
        width(a, n) == width(b, n),
    decreases n,
{
    if n > 0 {
        lemma_width_prefix(a, b, (n - 1) as nat);
    }
}

/// The height of a stack of grids depends only on the grids that are counted.
pub proof fn lemma_height_prefix<T>(a: Seq<Grid<T>>, b: Seq<Grid<T>>, n: nat)
    requires
        forall|k: int| 0 <= k < n ==> a[k].rows == b[k].rows,
    ensures
        height(a, n) == height(b, n),
    decreases n,
{
    if n > 0 {
        lemma_height_prefix(a, b, (n - 1) as nat);
    }
}

/// Blocks of one row, each generated at the place where it stands, make up a
/// band that is generated at the place of the first.
pub proof fn lemma_beside_all_generated<T, F: Fn(usize, usize) -> T>(
    row: Seq<Grid<T>>,
    n: nat,
    h: nat,
    f: F,
    i0: nat,
)
    requires
        row_fits(row, h),
        1 <= n <= row.len(),
        forall|l: int| 0 <= l < row.len() ==> generated(#[trigger] row[l], f, i0, width(row, l as nat)),
    ensures
        generated(beside_all(row, n), f, i0, 0),
    decreases n,
{
    assert(width(row, 0) == 0);
    if n > 1 {
        let left = beside_all(row, (n - 1) as nat);
        let right = row[n - 1];
        lemma_beside_all_generated(row, (n - 1) as nat, h, f, i0);
        lemma_beside_all_shape(row, (n - 1) as nat, h);
        assert(generated(right, f, i0, width(row, (n - 1) as nat)));
        let whole = left.beside(right);
        assert forall|i: usize, j: usize| i < whole.rows && j < whole.cols implies call_ensures(
            f,
            ((i0 + i) as usize, (0 + j) as usize),
            #[trigger] whole.at(i as int, j as int),
        ) by {
            if j < left.cols {
                assert(whole.at(i as int, j as int) == left.at(i as int, j as int));
            } else {
                let jj = (j - left.cols) as usize;
                assert(whole.at(i as int, j as int) == right.at(i as int, jj as int));
            }
        }
    }
}

/// Bands, each generated at the row where it stands, make up a grid that is
/// generated at the origin.
pub proof fn lemma_stack_all_generated<T, F: Fn(usize, usize) -> T>(bands: Seq<Grid<T>>, n: nat, w: nat, f: F)
    requires
        1 <= n <= bands.len(),
        forall|k: int| 0 <= k < bands.len() ==> (#[trigger] bands[k]).wf() && bands[k].cols == w,
        forall|k: int| 0 <= k < bands.len() ==> generated(#[trigger] bands[k], f, height(bands, k as nat), 0),
    ensures
        generated(stack_all(bands, n), f, 0, 0),
    decreases n,
{
    assert(height(bands, 0) == 0);
    if n > 1 {
        let upper = stack_all(bands, (n - 1) as nat);
        let lower = bands[n - 1];
        lemma_stack_all_generated(bands, (n - 1) as nat, w, f);
        lemma_stack_all_shape(bands, (n - 1) as nat, w);
        assert(generated(lower, f, height(bands, (n - 1) as nat), 0));
        let whole = upper.stack(lower);
        assert forall|i: usize, j: usize| i < whole.rows && j < whole.cols implies call_ensures(
            f,
            ((0 + i) as usize, (0 + j) as usize),
            #[trigger] whole.at(i as int, j as int),
        ) by {
            if i < upper.rows {
                assert(whole.at(i as int, j as int) == upper.at(i as int, j as int));
            } else {
                let ii = (i - upper.rows) as usize;
                assert(whole.at(i as int, j as int) == lower.at(ii as int, j as int));
            }
        }
    }
}

/// One block of a matrix under construction: the `rows` by `cols` matrix
/// whose cell `(ii, jj)` is what `f(i + ii, j + jj)` returned.
pub fn create_block<T, M: Create<T>, F: Fn(usize, usize) -> T>(
    i: usize,
    j: usize,
    rows: usize,
    cols: usize,
    f: &F,
) -> (r: M)
    requires
        i + rows <= usize::MAX,
        j + cols <= usize::MAX,
        rows * cols <= usize::MAX,
        forall|ii: usize, jj: usize| i <= ii < i + rows && j <= jj < j + cols ==> call_requires(*f, (ii, jj)),
    ensures
        r.inv(),
        r.writable(),
        r.spec_rows() == rows,
        r.spec_cols() == cols,
        generated(grid_of(&r), *f, i as nat, j as nat),
{
    let g = |ii: usize, jj: usize| -> (x: T)
        requires
            ii < rows,
            jj < cols,
        ensures
            call_ensures(*f, ((i + ii) as usize, (j + jj) as usize), x),
        { f(i + ii, j + jj) };
    let r = M::create(rows, cols, g);
    assert forall|ii: usize, jj: usize| ii < grid_of(&r).rows && jj < grid_of(&r).cols implies call_ensures(
        *f,
        ((i + ii) as usize, (j + jj) as usize),
        #[trigger] grid_of(&r).at(ii as int, jj as int),
    ) by {
        assert(call_ensures(g, (ii, jj), r.spec_at(ii as int, jj as int)));
    }
    r
}

/// A matrix built block by block: the index space is cut into a grid of
/// blocks of at most `block_size` by `block_size` cells, the last block of a
/// row or a column being the smaller one; each block is generated on its own,
/// and the blocks are put together. The result is what `create` builds from
/// the same generator.
pub fn create_blocked<T, M: Create<T>, F: Fn(usize, usize) -> T>(
    rows: usize,
    cols: usize,
    block_size: usize,
    f: F,
) -> (r: M)
    requires
        block_size > 0,
        rows * cols <= usize::MAX,
        forall|i: usize, j: usize| i < rows && j < cols ==> call_requires(f, (i, j)),
    ensures
        r.inv(),
        r.writable(),
        r.spec_rows() == rows,
        r.spec_cols() == cols,
        forall|i: usize, j: usize|
            i < rows && j < cols ==> call_ensures(f, (i, j), #[trigger] r.spec_at(i as int, j as int)),
{
    if rows == 0 || cols == 0 {
        return M::create(rows, cols, f);
    }
    let mut blocks: Vec<Vec<M>> = Vec::new();
    let mut i: usize = 0;
    while i < rows
        invariant
            i <= rows,
            rows > 0,
            cols > 0,
            block_size > 0,
            rows * cols <= usize::MAX,
            forall|i: usize, j: usize| i < rows && j < cols ==> call_requires(f, (i, j)),
            i > 0 ==> blocks@.len() > 0,
            blocks_valid::<T, M>(blocks@),
            height(row_bands(block_grids::<T, M>(blocks@)), blocks@.len()) == i,
            forall|k: int|
                0 <= k < blocks@.len() ==> row_fits(
                    #[trigger] block_grids::<T, M>(blocks@)[k],
                    block_grids::<T, M>(blocks@)[k][0].rows,
                ) && width(block_grids::<T, M>(blocks@)[k], block_grids::<T, M>(blocks@)[k].len()) == cols,
            forall|k: int|
                0 <= k < blocks@.len() ==> generated(
                    #[trigger] row_bands(block_grids::<T, M>(blocks@))[k],
                    f,
                    height(row_bands(block_grids::<T, M>(blocks@)), k as nat),
                    0,
                ),
        decreases rows - i,
    {
        let mut row: Vec<M> = Vec::new();
        let h = min(block_size, rows - i);
        proof {
            lemma_area_bound(h as int, cols as int, rows as int, cols as int);
        }
        let mut j: usize = 0;
        while j < cols
            invariant
                j <= cols,
                i < rows,
                0 < h <= rows - i,
                cols > 0,
                block_size > 0,
                h * cols <= usize::MAX,
                forall|i: usize, j: usize| i < rows && j < cols ==> call_requires(f, (i, j)),
                j > 0 ==> row@.len() > 0,
                forall|l: int| 0 <= l < row@.len() ==> (#[trigger] row@[l]).inv(),
                width(row_grids::<T, M>(row@), row@.len()) == j,
                forall|l: int|
                    0 <= l < row@.len() ==> (#[trigger] row_grids::<T, M>(row@)[l]).wf() && row_grids::<T, M>(
                        row@,
                    )[l].rows == h,
                forall|l: int|
                    0 <= l < row@.len() ==> generated(
                        #[trigger] row_grids::<T, M>(row@)[l],
                        f,
                        i as nat,
                        width(row_grids::<T, M>(row@), l as nat),
                    ),
            decreases cols - j,
        {
            let w = min(block_size, cols - j);
            proof {
                lemma_area_bound(h as int, w as int, h as int, cols as int);
            }
            let block: M = create_block(i, j, h, w, &f);
            let ghost before = row_grids::<T, M>(row@);
            row.push(block);
            proof {
                let after = row_grids::<T, M>(row@);
                let n = before.len();
                assert(after[n as int] == grid_of(&block));
                lemma_shape_of(&block);
                assert forall|l: int| 0 <= l < n implies after[l] == before[l] by {}
                lemma_width_prefix(before, after, n);
                assert forall|l: int| 0 <= l < after.len() implies generated(
                    #[trigger] after[l],
                    f,
                    i as nat,
                    width(after, l as nat),
                ) by {
                    lemma_width_prefix(before, after, l as nat);
                }
            }
            j = j + w;
        }
        let ghost before = block_grids::<T, M>(blocks@);
        let ghost band = beside_all(row_grids::<T, M>(row@), row@.len());
        proof {
            lemma_beside_all_shape(row_grids::<T, M>(row@), row@.len(), h as nat);
            lemma_beside_all_generated(row_grids::<T, M>(row@), row@.len(), h as nat, f, i as nat);
        }
        blocks.push(row);
        proof {
            let after = block_grids::<T, M>(blocks@);
            let n = before.len();
            assert(after[n as int] == row_grids::<T, M>(row@));
            assert forall|k: int| 0 <= k < n implies after[k] == before[k] by {}
            assert forall|k: int| 0 <= k < n implies row_bands(after)[k] == row_bands(before)[k] by {}
            assert(row_bands(after)[n as int] == band);
            lemma_height_prefix(row_bands(before), row_bands(after), n);
            assert forall|k: int| 0 <= k < after.len() implies generated(
                #[trigger] row_bands(after)[k],
                f,
                height(row_bands(after), k as nat),
                0,
            ) by {
                lemma_height_prefix(row_bands(before), row_bands(after), k as nat);
            }
        }
        i = i + h;
    }
    let ghost grids = block_grids::<T, M>(blocks@);
    proof {
        assert(blocks_fit(grids, cols as nat));
        lemma_row_bands(grids, cols as nat);
        lemma_stack_all_generated(row_bands(grids), blocks@.len(), cols as nat, f);
        lemma_stack_all_shape(row_bands(grids), blocks@.len(), cols as nat);
    }
    let r: M = assemble_blocks(&blocks);
    proof {
        lemma_shape_of(&r);
        assert forall|i: usize, j: usize| i < rows && j < cols implies call_ensures(
            f,
            (i, j),
            #[trigger] r.spec_at(i as int, j as int),
        ) by {
            assert(grid_of(&r).at(i as int, j as int) == r.spec_at(i as int, j as int));
        }
    }
    r
}

/// The block size that `create` works with.
pub const DEFAULT_BLOCK_SIZE: usize = 128;

/// A matrix built block by block, with blocks of `DEFAULT_BLOCK_SIZE`.
pub fn create<T, M: Create<T>, F: Fn(usize, usize) -> T>(rows: usize, cols: usize, f: F) -> (r: M)
    requires
        rows * cols <= usize::MAX,
        forall|i: usize, j: usize| i < rows && j < cols ==> call_requires(f, (i, j)),
    ensures
        r.inv(),
        r.writable(),
        r.spec_rows() == rows,
        r.spec_cols() == cols,
        forall|i: usize, j: usize|
            i < rows && j < cols ==> call_ensures(f, (i, j), #[trigger] r.spec_at(i as int, j as int)),
{
    create_blocked(rows, cols, DEFAULT_BLOCK_SIZE, f)
}

/// A rectangle of cells inside a matrix: the offset `(i, j)` of its first
/// cell, then its extent `(rows, cols)`.
pub type SubCoords = ((usize, usize), (usize, usize));

/// The four quadrants of a rectangle: upper left, upper right, lower left,
/// lower right. Each dimension is split at its half, rounded down, so that
/// the second half is the larger one.
pub open spec fn subdivide_coords_spec(x: SubCoords) -> (SubCoords, SubCoords, SubCoords, SubCoords) {
    let ((i, j), (n, m)) = x;
    let n2 = n / 2;
    let m2 = m / 2;
    let n2a = (n - n2) as usize;
    let m2a = (m - m2) as usize;
    (
        ((i, j), (n2, m2)),
        ((i, (j + m2) as usize), (n2, m2a)),
        (((i + n2) as usize, j), (n2a, m2)),
        (((i + n2) as usize, (j + m2) as usize), (n2a, m2a)),
    )
}

/// Splits a rectangle into its four quadrants.
pub fn subdivide_coords(x: SubCoords) -> (r: (SubCoords, SubCoords, SubCoords, SubCoords))
    requires
        (x.0).0 + (x.1).0 <= usize::MAX,
        (x.0).1 + (x.1).1 <= usize::MAX,
    ensures
        r == subdivide_coords_spec(x),
{
    let ((i, j), (n, m)) = x;
    let n2 = n / 2;
    let m2 = m / 2;
    let n2a = n - n2;
    let m2a = m - m2;

    (((i, j), (n2, m2)), ((i, j + m2), (n2, m2a)), ((i + n2, j), (n2a, m2)), ((i + n2, j + m2), (n2a, m2a)))
}

/// The part of the grid `m` that the rectangle `c` names.
pub open spec fn window_at<T>(m: Grid<T>, c: SubCoords) -> Grid<T> {
    m.window((c.0).0 as int, (c.0).1 as int, (c.1).0 as nat, (c.1).1 as nat)
}

/// The rectangle `c` names a window of `m` that `SubMatrix` accepts.
pub open spec fn coords_fit<T>(m: Grid<T>, c: SubCoords) -> bool {
    m.window_fits((c.0).0 as int, (c.0).1 as int, (c.1).0 as int, (c.1).1 as int)
}

/// The error that `SubMatrix` reports for the rectangle `c` of `m`.
pub open spec fn coords_error<T>(m: Grid<T>, c: SubCoords) -> MatrixError {
    MatrixError::InvalidWindow {
        row: (c.0).0,
        col: (c.0).1,
        rows: (c.1).0,
        cols: (c.1).1,
        base_rows: m.rows as usize,
        base_cols: m.cols as usize,
    }
}

/// Operands with at most this many cells are multiplied directly.
pub const BLOCK_SIZE: usize = 8192;

/// The rule by which `sub_mul` stops splitting: one of the operands has at
/// most `BLOCK_SIZE` cells, or one of the three dimensions is below two.
pub open spec fn is_leaf_spec(lc: SubCoords, rc: SubCoords) -> bool {
    ||| (lc.1).0 * (lc.1).1 <= BLOCK_SIZE
    ||| (rc.1).0 * (rc.1).1 <= BLOCK_SIZE
    ||| (lc.1).0 < 2
    ||| (lc.1).1 < 2
    ||| (rc.1).1 < 2
}

/// Tells whether the product of these two rectangles is computed directly.
pub fn is_leaf(lc: SubCoords, rc: SubCoords) -> (r: bool)
    ensures
        r == is_leaf_spec(lc, rc),
{
    let ((_li, _lj), (ln, lm)) = lc;
    let ((_ri, _rj), (rn, rm)) = rc;
    let left_small = match ln.checked_mul(lm) {
        Some(area) => area <= BLOCK_SIZE,
        None => false,
    };
    let right_small = match rn.checked_mul(rm) {
        Some(area) => area <= BLOCK_SIZE,
        None => false,
    };
    left_small || right_small || ln < 2 || lm < 2 || rm < 2
}

/// The error that joining the eight products of quadrants reports, if any:
/// the first of the four sums, then of the two bands, then of the stack, whose
/// operands do not fit.
pub open spec fn join_error<T>(
    ae: Grid<T>,
    bg: Grid<T>,
    af: Grid<T>,
    bh: Grid<T>,
    ce: Grid<T>,
    dg: Grid<T>,
    cf: Grid<T>,
    dh: Grid<T>,
) -> Option<MatrixError> {
    if shape_error(ae, bg) is Some {
        shape_error(ae, bg)
    } else if shape_error(af, bh) is Some {
        shape_error(af, bh)
    } else if shape_error(ce, dg) is Some {
        shape_error(ce, dg)
    } else if shape_error(cf, dh) is Some {
        shape_error(cf, dh)
    } else if beside_error(ae, af) is Some {
        beside_error(ae, af)
    } else if beside_error(ce, cf) is Some {
        beside_error(ce, cf)
    } else {
        stack_error(ae.beside(af), ce.beside(cf))
    }
}

/// The matrix is valid and has at most `usize::MAX` cells.
pub open spec fn storable<T, M: BasicMatrix<T>>(m: &M) -> bool {
    m.inv() && m.spec_rows() * m.spec_cols() <= usize::MAX
}

/// Joins the eight products of quadrants to the product of the whole: the sums
/// `ae + bg`, `af + bh`, `ce + dg` and `cf + dh` become the upper left, upper
/// right, lower left and lower right quadrant of the result.
pub fn join_products<T: Ring, Res: Create<T>>(
    ae: &Res,
    bg: &Res,
    af: &Res,
    bh: &Res,
    ce: &Res,
    dg: &Res,
    cf: &Res,
    dh: &Res,
) -> (r: Result<Res, MatrixError>)
    requires
        storable(ae) && storable(bg) && storable(af) && storable(bh),
        storable(ce) && storable(dg) && storable(cf) && storable(dh),
        fits_memory(ae.spec_rows() + ce.spec_rows(), ae.spec_cols() + af.spec_cols()),
        fits_memory(ce.spec_rows(), ce.spec_cols() + cf.spec_cols()),
    ensures
        yields(
            r,
            join_error(
                grid_of(ae),
                grid_of(bg),
                grid_of(af),
                grid_of(bh),
                grid_of(ce),
                grid_of(dg),
                grid_of(cf),
                grid_of(dh),
            ),
            Grid::from_quadrants(
                grid_of(ae).plus(grid_of(bg)),
                grid_of(af).plus(grid_of(bh)),
                grid_of(ce).plus(grid_of(dg)),
                grid_of(cf).plus(grid_of(dh)),
            ),
        ),
{
    let an: Res = mat_add(ae, bg)?;
    let bn: Res = mat_add(af, bh)?;
    let cn: Res = mat_add(ce, dg)?;
    let dn: Res = mat_add(cf, dh)?;
    proof {
        lemma_shape_of(&an);
        lemma_shape_of(&bn);
        lemma_shape_of(&cn);
        lemma_shape_of(&dn);
        lemma_area_bound(
            ae.spec_rows() as int,
            (ae.spec_cols() + af.spec_cols()) as int,
            (ae.spec_rows() + ce.spec_rows()) as int,
            (ae.spec_cols() + af.spec_cols()) as int,
        );
        lemma_area_bound(
            ce.spec_rows() as int,
            (ae.spec_cols() + af.spec_cols()) as int,
            (ae.spec_rows() + ce.spec_rows()) as int,
            (ae.spec_cols() + af.spec_cols()) as int,
        );
    }
    let top: Res = concat_cols(&an, &bn)?;
    proof {
        lemma_shape_of(&top);
    }
    let bot: Res = concat_cols(&cn, &dn)?;
    proof {
        lemma_shape_of(&bot);
    }
    concat_rows(&top, &bot)
}

/// The matrix product, its cells generated block by block: the product
/// that `mat_mul` computes, built by `create`.
pub fn mat_mul_grid<T: Ring, LHS: BasicMatrix<T>, RHS: BasicMatrix<T>, Res: Create<T>>(
    lhs: &LHS,
    rhs: &RHS,
) -> (r: Result<Res, MatrixError>)
    requires
        lhs.inv(),
        rhs.inv(),
        lhs.spec_rows() * rhs.spec_cols() <= usize::MAX,
    ensures
        yields(r, times_error(grid_of(lhs), grid_of(rhs)), grid_of(lhs).times(grid_of(rhs))),
{
    check_product(lhs, rhs)?;
    let rows = lhs.num_rows();
    let cols = rhs.num_cols();
    let f = |i: usize, j: usize| -> (x: T)
        requires
            i < rows,
            j < cols,
        ensures
            x == dot_spec(grid_of(lhs).row(i as int), grid_of(rhs).col(j as int)),
        { product_cell(lhs, rhs, i, j).unwrap() };
    let m: Res = create(rows, cols, f);
    proof {
        let target = grid_of(lhs).times(grid_of(rhs));
        assert forall|i: int, j: int| target.has(i, j) implies grid_of(&m).at(i, j) == target.at(i, j) by {
            assert(call_ensures(f, (i as usize, j as usize), m.spec_at(i as usize as int, j as usize as int)));
        }
        lemma_grid_ext(grid_of(&m), target);
    }
    Ok(m)
}

/// The product of two rectangles that are known to fit their matrices and
/// each other.
fn sub_mul_inner<T: Ring, LHS: BasicMatrix<T>, RHS: BasicMatrix<T>, Res: Create<T>>(
    lhs: &LHS,
    lc: SubCoords,
    rhs: &RHS,
    rc: SubCoords,
) -> (r: Result<Res, MatrixError>)
    requires
        lhs.inv(),
        rhs.inv(),
        coords_fit(grid_of(lhs), lc),
        coords_fit(grid_of(rhs), rc),
        (lc.1).1 == (rc.1).0,
        (lc.1).0 * (rc.1).1 <= usize::MAX,
    ensures
        yields(
            r,
            None,
            blocked_times(window_at(grid_of(lhs), lc), window_at(grid_of(rhs), rc), area_leaf(BLOCK_SIZE as nat)),
        ),
    decreases (lc.1).0,
{
    let ((li, lj), (ln, lm)) = lc;
    let ((ri, rj), (rn, rm)) = rc;
    let ghost ga = grid_of(lhs);
    let ghost gb = grid_of(rhs);
    let ghost leaf = area_leaf(BLOCK_SIZE as nat);
    let lhs_rows = lhs.num_rows();
    let lhs_cols = lhs.num_cols();
    let rhs_rows = rhs.num_rows();
    let rhs_cols = rhs.num_cols();
    proof {
        lemma_handle_grid(lhs);
        lemma_handle_grid(rhs);
    }
    if is_leaf(lc, rc) {
        let a = SubMatrix(lhs, li, lj, ln, lm).unwrap();
        let b = SubMatrix(rhs, ri, rj, rn, rm).unwrap();
        proof {
            lemma_shape_of(&a);
            lemma_shape_of(&b);
        }
        return mat_mul_grid(&a, &b);
    }
    let (a, b, c, d) = subdivide_coords(lc);
    let (e, f, g, h) = subdivide_coords(rc);
    proof {
        let n2 = ln as int / 2;
        let m2 = lm as int / 2;
        let k2 = rm as int / 2;
        lemma_area_bound(n2, k2, ln as int, rm as int);
        lemma_area_bound(n2, rm - k2, ln as int, rm as int);
        lemma_area_bound(ln - n2, k2, ln as int, rm as int);
        lemma_area_bound(ln - n2, rm - k2, ln as int, rm as int);
        lemma_area_bound(ln - n2, rm as int, ln as int, rm as int);
        lemma_window_of_window(ga, li as int, lj as int, ln as nat, lm as nat, 0, 0, n2 as nat, m2 as nat);
        lemma_window_of_window(ga, li as int, lj as int, ln as nat, lm as nat, 0, m2, n2 as nat, (lm - m2) as nat);
        lemma_window_of_window(ga, li as int, lj as int, ln as nat, lm as nat, n2, 0, (ln - n2) as nat, m2 as nat);
        lemma_window_of_window(
            ga,
            li as int,
            lj as int,
            ln as nat,
            lm as nat,
            n2,
            m2,
            (ln - n2) as nat,
            (lm - m2) as nat,
        );
        lemma_window_of_window(gb, ri as int, rj as int, rn as nat, rm as nat, 0, 0, m2 as nat, k2 as nat);
        lemma_window_of_window(gb, ri as int, rj as int, rn as nat, rm as nat, 0, k2, m2 as nat, (rm - k2) as nat);
        lemma_window_of_window(gb, ri as int, rj as int, rn as nat, rm as nat, m2, 0, (rn - m2) as nat, k2 as nat);
        lemma_window_of_window(
            gb,
            ri as int,
            rj as int,
            rn as nat,
            rm as nat,
            m2,
            k2,
            (rn - m2) as nat,
            (rm - k2) as nat,
        );
        let wa = window_at(ga, lc);
        let wb = window_at(gb, rc);
        assert(wa.top_left() == window_at(ga, a) && wa.top_right() == window_at(ga, b));
        assert(wa.bottom_left() == window_at(ga, c) && wa.bottom_right() == window_at(ga, d));
        assert(wb.top_left() == window_at(gb, e) && wb.top_right() == window_at(gb, f));
        assert(wb.bottom_left() == window_at(gb, g) && wb.bottom_right() == window_at(gb, h));
        assert(!(wa.rows < 2 || wa.cols < 2 || wb.cols < 2 || leaf(wa.rows, wa.cols, wb.cols)));
        lemma_blocked_times_shape(window_at(ga, a), window_at(gb, e), leaf);
        lemma_blocked_times_shape(window_at(ga, b), window_at(gb, g), leaf);
        lemma_blocked_times_shape(window_at(ga, a), window_at(gb, f), leaf);
        lemma_blocked_times_shape(window_at(ga, b), window_at(gb, h), leaf);
        lemma_blocked_times_shape(window_at(ga, c), window_at(gb, e), leaf);
        lemma_blocked_times_shape(window_at(ga, d), window_at(gb, g), leaf);
        lemma_blocked_times_shape(window_at(ga, c), window_at(gb, f), leaf);
        lemma_blocked_times_shape(window_at(ga, d), window_at(gb, h), leaf);
    }
    let ae: Res = sub_mul_inner(lhs, a, rhs, e).unwrap();
    let bg: Res = sub_mul_inner(lhs, b, rhs, g).unwrap();
    let af: Res = sub_mul_inner(lhs, a, rhs, f).unwrap();
    let bh: Res = sub_mul_inner(lhs, b, rhs, h).unwrap();

    let ce: Res = sub_mul_inner(lhs, c, rhs, e).unwrap();
    let dg: Res = sub_mul_inner(lhs, d, rhs, g).unwrap();
    let cf: Res = sub_mul_inner(lhs, c, rhs, f).unwrap();
    let dh: Res = sub_mul_inner(lhs, d, rhs, h).unwrap();
    proof {
        lemma_shape_of(&ae);
        lemma_shape_of(&bg);
        lemma_shape_of(&af);
        lemma_shape_of(&bh);
        lemma_shape_of(&ce);
        lemma_shape_of(&dg);
        lemma_shape_of(&cf);
        lemma_shape_of(&dh);
    }
    join_products(&ae, &bg, &af, &bh, &ce, &dg, &cf, &dh)
}

/// The error that `sub_mul` reports, if any: a rectangle that is no window of
/// its matrix, the left one first; then inner dimensions that differ.
pub open spec fn sub_mul_error<T>(a: Grid<T>, lc: SubCoords, b: Grid<T>, rc: SubCoords) -> Option<MatrixError> {
    if !coords_fit(a, lc) {
        Some(coords_error(a, lc))
    } else if !coords_fit(b, rc) {
        Some(coords_error(b, rc))
    } else if (lc.1).1 != (rc.1).0 {
        Some(
            MatrixError::DimensionMismatch {
                lhs_rows: (lc.1).0,
                lhs_cols: (lc.1).1,
                rhs_rows: (rc.1).0,
                rhs_cols: (rc.1).1,
            },
        )
    } else {
        None
    }
}

/// The product of the rectangle `lc` of `lhs` with the rectangle `rc` of
/// `rhs`, by divide and conquer: unless `is_leaf` says that the product is
/// computed directly, both rectangles are split into quadrants, the eight
/// products of quadrants are computed in the same way, each on its own, and
/// joined by `join_products`.
pub fn sub_mul<T: Ring, LHS: BasicMatrix<T>, RHS: BasicMatrix<T>, Res: Create<T>>(
    lhs: &LHS,
    lc: SubCoords,
    rhs: &RHS,
    rc: SubCoords,
) -> (r: Result<Res, MatrixError>)
    requires
        lhs.inv(),
        rhs.inv(),
        (lc.1).0 * (rc.1).1 <= usize::MAX,
    ensures
        yields(
            r,
            sub_mul_error(grid_of(lhs), lc, grid_of(rhs), rc),
            blocked_times(window_at(grid_of(lhs), lc), window_at(grid_of(rhs), rc), area_leaf(BLOCK_SIZE as nat)),
        ),
{
    let ((li, lj), (ln, lm)) = lc;
    let ((ri, rj), (rn, rm)) = rc;
    proof {
        lemma_handle_grid(lhs);
        lemma_handle_grid(rhs);
    }
    let _a = SubMatrix(lhs, li, lj, ln, lm)?;
    let _b = SubMatrix(rhs, ri, rj, rn, rm)?;
    if lm != rn {
        return Err(MatrixError::DimensionMismatch { lhs_rows: ln, lhs_cols: lm, rhs_rows: rn, rhs_cols: rm });
    }
    sub_mul_inner(lhs, lc, rhs, rc)
}

/// The matrix product by divide and conquer. The shapes are checked as in
/// `mat_mul`, and the result is that of `sub_mul` on the whole operands.
pub fn mat_mul<T: Ring, LHS: BasicMatrix<T>, RHS: BasicMatrix<T>, Res: Create<T>>(
    lhs: &LHS,
    rhs: &RHS,
) -> (r: Result<Res, MatrixError>)
    requires
        lhs.inv(),
        rhs.inv(),
        lhs.spec_rows() * rhs.spec_cols() <= usize::MAX,
    ensures
        yields(
            r,
            times_error(grid_of(lhs), grid_of(rhs)),
            blocked_times(grid_of(lhs), grid_of(rhs), area_leaf(BLOCK_SIZE as nat)),
        ),
{
    check_product(lhs, rhs)?;
    let rows = lhs.num_rows();
    let inner = lhs.num_cols();
    let cols = rhs.num_cols();
    if rows == 0 || inner == 0 || cols == 0 {
        return mat_mul_grid(lhs, rhs);
    }
    proof {
        lemma_shape_of(lhs);
        lemma_shape_of(rhs);
        lemma_grid_ext(grid_of(lhs).window(0, 0, rows as nat, inner as nat), grid_of(lhs));
        lemma_grid_ext(grid_of(rhs).window(0, 0, inner as nat, cols as nat), grid_of(rhs));
    }
    sub_mul(lhs, ((0, 0), (rows, inner)), rhs, ((0, 0), (inner, cols)))
}

/// The inverse of a square matrix by recursive blockwise inversion, with
/// every product built block by block. The result is that of
/// `algorithms::inverse`.
pub fn inverse<T: Num, M: BasicMatrix<T>, R: Create<T>>(m: &M) -> (r: Result<R, MatrixError>)
    requires
        m.inv(),
        m.spec_rows() * m.spec_cols() <= usize::MAX,
    ensures
        agrees(r, inverse_spec(grid_of(m))),
{
    let rows = m.num_rows();
    let cols = m.num_cols();
    if rows != cols {
        return Err(MatrixError::NonSquareMatrix { rows, cols });
    }
    if rows == 0 {
        return Err(MatrixError::InvalidWindow { row: 0, col: 0, rows: 0, cols: 0, base_rows: 0, base_cols: 0 });
    }
    let dense: R = convert(m);
    proof {
        lemma_shape_of(&dense);
    }
    inverse_dense(&dense, true)
}

/// The blocked Cholesky factorization, with every product built block by
/// block. The result is that of `cholesky::cholesky_blocked`.
pub fn cholesky_blocked<T: Real, M: BasicMatrix<T>, R: Create<T>>(m: &M) -> (r: Result<R, MatrixError>)
    requires
        m.inv(),
        m.spec_rows() * m.spec_cols() <= usize::MAX,
    ensures
        agrees(r, cholesky_blocked_spec(grid_of(m), crate::cholesky::BLOCK_SIZE as nat)),
{
    let rows = m.num_rows();
    let cols = m.num_cols();
    if rows != cols {
        return Err(MatrixError::NonSquareMatrix { rows, cols });
    }
    let dense: R = convert(m);
    proof {
        lemma_shape_of(&dense);
    }
    cholesky_dense(&dense, true)
}

} // verus!
