//! Laws that relate the operations to each other, stated over the
//! mathematical model and proved.

use vstd::prelude::*;
use crate::algebra::plus_is_associative;
use crate::algorithms::times_error;
use crate::error::MatrixError;
use crate::grid::{
    Grid, blocked_times, cholesky_blocked_spec, dot_prefix, inverse_spec, lemma_cholesky_blocked_shape,
    lemma_cholesky_steps_shape, lemma_grid_ext, lemma_inverse_shape,
};
use crate::par::generated;
use crate::ring::{Real, Ring};

verus! {

/// A product of matrices whose inner dimensions differ is refused with
/// `DimensionMismatch`, and no other product is; a product that is not
/// refused has the rows of the left operand and the columns of the right one.
/// (A product with cells whose inner dimension is zero is refused too: there
/// is no dot product of empty vectors.)
pub proof fn law_product_shape<T: Ring>(a: Grid<T>, b: Grid<T>)
    ensures
        a.cols != b.rows <==> times_error(a, b) matches Some(MatrixError::DimensionMismatch { .. }),
        a.cols == b.rows && !(a.cols == 0 && a.rows > 0 && b.cols > 0) <==> times_error(a, b) is None,
        a.times(b).wf(),
        a.times(b).rows == a.rows,
        a.times(b).cols == b.cols,
{
}

/// Transposing twice gives the matrix back.
pub proof fn law_transpose_twice<T>(a: Grid<T>)
    requires
        a.wf(),
    ensures
        a.transposed().transposed() == a,
{
    lemma_grid_ext(a.transposed().transposed(), a);
}

/// A matrix split into its four quadrants and put together again is the
/// matrix itself.
pub proof fn law_quadrants_round_trip<T>(a: Grid<T>)
    requires
        a.wf(),
    ensures
        Grid::from_quadrants(a.top_left(), a.top_right(), a.bottom_left(), a.bottom_right()) == a,
{
    lemma_grid_ext(Grid::from_quadrants(a.top_left(), a.top_right(), a.bottom_left(), a.bottom_right()), a);
}

/// Addition of integers that wrap around is associative: for matrices of
/// `i64` the divide-and-conquer products are the plain product.
pub proof fn law_wrapping_plus_associative()
    ensures
        plus_is_associative::<i64>(),
{
    reveal(plus_is_associative);
    assert forall|x: i64, y: i64, z: i64| #[trigger]
        x.plus_spec(y).plus_spec(z) == x.plus_spec(y.plus_spec(z)) by {
        let a = x.wrapping_add(y);
        let b = y.wrapping_add(z);
        assert(a.wrapping_add(z) == x.wrapping_add(b));
    }
}

/// A running sum of products depends only on the cells that it reaches.
pub proof fn lemma_dot_prefix_ext<T: Ring>(u: Seq<T>, v: Seq<T>, x: Seq<T>, y: Seq<T>, n: nat)
    requires
        forall|k: int| 0 <= k < n ==> u[k] == x[k] && v[k] == y[k],
        n >= 1,
    ensures
        dot_prefix(u, v, n) == dot_prefix(x, y, n),
    decreases n,
{
    if n > 1 {
        lemma_dot_prefix_ext(u, v, x, y, (n - 1) as nat);
    }
}

/// Where addition is associative, a dot product is the sum of the dot
/// products of the two parts into which the vectors are cut at `k`.
pub proof fn lemma_dot_split<T: Ring>(u: Seq<T>, v: Seq<T>, k: nat, n: nat)
    requires
        plus_is_associative::<T>(),
        1 <= k < n,
        n <= u.len(),
        n <= v.len(),
    ensures
        dot_prefix(u, v, n) == dot_prefix(u, v, k).plus_spec(dot_prefix(u.skip(k as int), v.skip(k as int), (n - k) as nat)),
    decreases n,
{
    let us = u.skip(k as int);
    let vs = v.skip(k as int);
    if n == k + 1 {
        assert(us[0] == u[k as int] && vs[0] == v[k as int]);
    } else {
        lemma_dot_split(u, v, k, (n - 1) as nat);
        let head = dot_prefix(u, v, k);
        let mid = dot_prefix(us, vs, (n - 1 - k) as nat);
        let last = u[n - 1].times_spec(v[n - 1]);
        assert(us[n - k - 1] == u[n - 1] && vs[n - k - 1] == v[n - 1]);
        assert(dot_prefix(us, vs, (n - k) as nat) == mid.plus_spec(last));
        assert(head.plus_spec(mid).plus_spec(last) == head.plus_spec(mid.plus_spec(last))) by {
            reveal(plus_is_associative);
        }
    }
}

/// Where addition is associative, a product can be computed by quadrants:
/// with the operands split into `p q / r s` and `e f / g h`, the product is
/// `pe + qg`, `pf + qh` / `re + sg`, `rf + sh`.
pub proof fn lemma_times_by_quadrants<T: Ring>(a: Grid<T>, b: Grid<T>)
    requires
        plus_is_associative::<T>(),
        a.wf(),
        b.wf(),
        a.cols == b.rows,
        a.cols >= 2,
    ensures
        a.times(b) == Grid::from_quadrants(
            a.top_left().times(b.top_left()).plus(a.top_right().times(b.bottom_left())),
            a.top_left().times(b.top_right()).plus(a.top_right().times(b.bottom_right())),
            a.bottom_left().times(b.top_left()).plus(a.bottom_right().times(b.bottom_left())),
            a.bottom_left().times(b.top_right()).plus(a.bottom_right().times(b.bottom_right())),
        ),
{
    let p = a.top_left();
    let q = a.top_right();
    let r = a.bottom_left();
    let s = a.bottom_right();
    let e = b.top_left();
    let f = b.top_right();
    let g = b.bottom_left();
    let h = b.bottom_right();
    let whole = Grid::from_quadrants(
        p.times(e).plus(q.times(g)),
        p.times(f).plus(q.times(h)),
        r.times(e).plus(s.times(g)),
        r.times(f).plus(s.times(h)),
    );
    let target = a.times(b);
    let n2 = (a.rows / 2) as int;
    let m2 = (a.cols / 2) as int;
    let k2 = (b.cols / 2) as int;
    assert forall|i: int, j: int| target.has(i, j) implies whole.at(i, j) == target.at(i, j) by {
        let u = a.row(i);
        let v = b.col(j);
        lemma_dot_split(u, v, m2 as nat, a.cols);
        let left = if i < n2 {
            p
        } else {
            r
        };
        let right = if i < n2 {
            q
        } else {
            s
        };
        let upper = if j < k2 {
            e
        } else {
            f
        };
        let lower = if j < k2 {
            g
        } else {
            h
        };
        let ii = if i < n2 {
            i
        } else {
            i - n2
        };
        let jj = if j < k2 {
            j
        } else {
            j - k2
        };
        lemma_dot_prefix_ext(left.row(ii), upper.col(jj), u, v, m2 as nat);
        assert(right.row(ii) =~= u.skip(m2));
        assert(lower.col(jj) =~= v.skip(m2));
        assert(left.times(upper).at(ii, jj) == dot_prefix(u, v, m2 as nat));
        assert(right.times(lower).at(ii, jj) == dot_prefix(u.skip(m2), v.skip(m2), (a.cols - m2) as nat));
    }
    lemma_grid_ext(whole, target);
}

/// Where addition is associative, the product computed block by block is
/// the plain product, whatever the rule by which the splitting stops: the
/// divide-and-conquer multiplications return what `mat_mul` returns.
pub proof fn law_blocked_product<T: Ring>(a: Grid<T>, b: Grid<T>, leaf: spec_fn(nat, nat, nat) -> bool)
    requires
        plus_is_associative::<T>(),
        a.wf(),
        b.wf(),
        a.cols == b.rows,
    ensures
        blocked_times(a, b, leaf) == a.times(b),
    decreases a.rows,
{
    if a.rows < 2 || a.cols < 2 || b.cols < 2 || leaf(a.rows, a.cols, b.cols) {
    } else {
        law_blocked_product(a.top_left(), b.top_left(), leaf);
        law_blocked_product(a.top_right(), b.bottom_left(), leaf);
        law_blocked_product(a.top_left(), b.top_right(), leaf);
        law_blocked_product(a.top_right(), b.bottom_right(), leaf);
        law_blocked_product(a.bottom_left(), b.top_left(), leaf);
        law_blocked_product(a.bottom_right(), b.bottom_left(), leaf);
        law_blocked_product(a.bottom_left(), b.top_right(), leaf);
        law_blocked_product(a.bottom_right(), b.bottom_right(), leaf);
        lemma_times_by_quadrants(a, b);
    }
}

/// A generator that answers each call in one way only builds one matrix:
/// two grids of one shape that hold its answers are the same grid. So a
/// matrix built block by block is the matrix built cell by cell, for every
/// block size.
pub proof fn law_generated_once<T, F: Fn(usize, usize) -> T>(a: Grid<T>, b: Grid<T>, f: F)
    requires
        a.wf(),
        b.wf(),
        a.same_shape(b),
        a.rows <= usize::MAX,
        a.cols <= usize::MAX,
        generated(a, f, 0, 0),
        generated(b, f, 0, 0),
        forall|i: usize, j: usize, x: T, y: T|
            call_ensures(f, (i, j), x) && call_ensures(f, (i, j), y) ==> x == y,
    ensures
        a == b,
{
    assert forall|i: int, j: int| a.has(i, j) implies a.at(i, j) == b.at(i, j) by {
        let iu = i as usize;
        let ju = j as usize;
        assert(call_ensures(f, ((0 + iu) as usize, (0 + ju) as usize), a.at(iu as int, ju as int)));
        assert(call_ensures(f, ((0 + iu) as usize, (0 + ju) as usize), b.at(iu as int, ju as int)));
    }
    lemma_grid_ext(a, b);
}

/// Every cell to the right of the diagonal is zero.
pub open spec fn lower_triangular<T: Ring>(g: Grid<T>) -> bool {
    forall|i: int, j: int| g.has(i, j) && j > i ==> #[trigger] g.at(i, j) == T::zero_spec()
}

/// The factor that the blocked factorization returns is lower triangular.
pub proof fn law_factor_lower_triangular<T: Real>(m: Grid<T>, block: nat)
    requires
        m.wf(),
    ensures
        cholesky_blocked_spec(m, block) matches Ok(g) ==> lower_triangular(g),
    decreases m.rows,
{
    if m.rows != m.cols {
    } else if m.rows <= block || m.rows < 2 {
        lemma_cholesky_steps_shape(m, 0);
    } else {
        let a = m.top_left();
        let c = m.bottom_left();
        let d = m.bottom_right();
        law_factor_lower_triangular(a, block);
        lemma_cholesky_blocked_shape(a, block);
        if let Ok(ac) = cholesky_blocked_spec(a, block) {
            lemma_inverse_shape(ac.transposed());
            if let Ok(aci) = inverse_spec(ac.transposed()) {
                let x = c.times(aci);
                let s = d.minus(x.times(x.transposed()));
                law_factor_lower_triangular(s, block);
                lemma_cholesky_blocked_shape(s, block);
                if let Ok(dn) = cholesky_blocked_spec(s, block) {
                    let g = Grid::from_quadrants(ac, Grid::zeros(a.rows, d.cols), x, dn);
                    assert forall|i: int, j: int| g.has(i, j) && j > i implies #[trigger] g.at(i, j)
                        == T::zero_spec() by {
                        if i < a.rows {
                            if j < a.cols {
                                assert(ac.has(i, j));
                            }
                        } else {
                            assert(dn.has(i - a.rows, j - a.cols));
                        }
                    }
                }
            }
        }
    }
}

} // verus!
