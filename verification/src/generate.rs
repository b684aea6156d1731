//! Matrices with prescribed contents.

use vstd::prelude::*;
use crate::grid::{Grid, lemma_grid_ext};
use crate::matrix::{BasicMatrix, Create, grid_of};
use crate::ring::Ring;

verus! {

/// The identity matrix of order `n`.
pub fn identity<T: Ring, M: Create<T>>(n: usize) -> (r: M)
    requires
        n * n <= usize::MAX,
    ensures
        r.inv(),
        r.writable(),
        grid_of(&r) == Grid::<T>::identity(n as nat),
{
    let f = |i: usize, j: usize| -> (x: T)
        ensures
            x == (if i == j {
                T::one_spec()
            } else {
                T::zero_spec()
            }),
        {
            if i == j {
                T::one()
            } else {
                T::zero()
            }
        };
    let r = M::create(n, n, f);
    proof {
        let target = Grid::<T>::identity(n as nat);
        assert forall|i: int, j: int| target.has(i, j) implies grid_of(&r).at(i, j) == target.at(i, j) by {
            assert(call_ensures(f, (i as usize, j as usize), r.spec_at(i as usize as int, j as usize as int)));
        }
        lemma_grid_ext(grid_of(&r), target);
    }
    r
}

/// A square lower triangular matrix of order `n` with unit diagonal: one on
/// the diagonal, zero above it, and below it whatever `draw` hands out for
/// the cell, a random number for instance.
#[allow(non_snake_case)]
pub fn rand_L1<T: Ring, M: Create<T>, F: Fn(usize, usize) -> T>(n: usize, draw: F) -> (r: M)
    requires
        n * n <= usize::MAX,
        forall|i: usize, j: usize| j < i < n ==> call_requires(draw, (i, j)),
    ensures
        r.inv(),
        r.writable(),
        r.spec_rows() == n,
        r.spec_cols() == n,
        forall|i: usize, j: usize|
            i < n && j < n ==> {
                let x = #[trigger] r.spec_at(i as int, j as int);
                if i == j {
                    x == T::one_spec()
                } else if i > j {
                    call_ensures(draw, (i, j), x)
                } else {
                    x == T::zero_spec()
                }
            },
{
    let source = &draw;
    let f = |i: usize, j: usize| -> (x: T)
        requires
            i < n,
            j < n,
        ensures
            if i == j {
                x == T::one_spec()
            } else if i > j {
                call_ensures(*source, (i, j), x)
            } else {
                x == T::zero_spec()
            },
        {
            if i == j {
                T::one()
            } else if i > j {
                source(i, j)
            } else {
                T::zero()
            }
        };
    let r = M::create(n, n, f);
    assert forall|i: usize, j: usize| i < n && j < n implies {
        let x = #[trigger] r.spec_at(i as int, j as int);
        if i == j {
            x == T::one_spec()
        } else if i > j {
            call_ensures(draw, (i, j), x)
        } else {
            x == T::zero_spec()
        }
    } by {
        assert(call_ensures(f, (i, j), r.spec_at(i as int, j as int)));
    }
    r
}

/// The `n` by `m` matrix with zero in every cell.
pub fn zero_matrix<T: Ring, M: Create<T>>(n: usize, m: usize) -> (r: M)
    requires
        n * m <= usize::MAX,
    ensures
        r.inv(),
        r.writable(),
        grid_of(&r) == Grid::<T>::zeros(n as nat, m as nat),
{
    let f = |_i: usize, _j: usize| -> (x: T)
        ensures
            x == T::zero_spec(),
        { T::zero() };
    let r = M::create(n, m, f);
    proof {
        let target = Grid::<T>::zeros(n as nat, m as nat);
        assert forall|i: int, j: int| target.has(i, j) implies grid_of(&r).at(i, j) == target.at(i, j) by {
            assert(call_ensures(f, (i as usize, j as usize), r.spec_at(i as usize as int, j as usize as int)));
        }
        lemma_grid_ext(grid_of(&r), target);
    }
    r
}

} // verus!
