//! Matrix algebra over element types that obey the laws of a field, and
//! what follows from it: blockwise inversion returns the inverse, and the
//! factorizations return a factor of the matrix.

use vstd::prelude::*;
use crate::grid::{
    Grid, cholesky_blocked_spec, cholesky_seq_spec, cholesky_step, cholesky_steps, dot_prefix, inverse_spec,
    lemma_cholesky_blocked_shape, lemma_grid_ext, lemma_inverse_shape, lower_from, scaled_entry,
};
use crate::laws::{law_quadrants_round_trip, law_transpose_twice, lemma_dot_prefix_ext, lemma_times_by_quadrants};
use crate::ring::{Num, Real, Ring, neg_one_spec};

verus! {

/// Addition is associative.
#[verifier::opaque]
pub open spec fn plus_is_associative<T: Ring>() -> bool {
    forall|x: T, y: T, z: T| #[trigger] x.plus_spec(y).plus_spec(z) == x.plus_spec(y.plus_spec(z))
}

/// Addition is commutative.
#[verifier::opaque]
pub open spec fn plus_is_commutative<T: Num>() -> bool {
    forall|x: T, y: T| #[trigger] x.plus_spec(y) == y.plus_spec(x)
}

/// Zero is the identity of addition.
#[verifier::opaque]
pub open spec fn zero_is_neutral<T: Num>() -> bool {
    forall|x: T| #[trigger] x.plus_spec(T::zero_spec()) == x
}

/// Multiplication is associative.
#[verifier::opaque]
pub open spec fn times_is_associative<T: Num>() -> bool {
    forall|x: T, y: T, z: T| #[trigger] x.times_spec(y).times_spec(z) == x.times_spec(y.times_spec(z))
}

/// Multiplication is commutative.
#[verifier::opaque]
pub open spec fn times_is_commutative<T: Num>() -> bool {
    forall|x: T, y: T| #[trigger] x.times_spec(y) == y.times_spec(x)
}

/// One is the identity of multiplication.
#[verifier::opaque]
pub open spec fn one_is_neutral<T: Num>() -> bool {
    forall|x: T| #[trigger] x.times_spec(T::one_spec()) == x
}

/// Multiplication distributes over addition.
#[verifier::opaque]
pub open spec fn times_distributes<T: Num>() -> bool {
    forall|x: T, y: T, z: T| #[trigger]
        x.times_spec(y.plus_spec(z)) == x.times_spec(y).plus_spec(x.times_spec(z))
}

/// A product with zero is zero.
#[verifier::opaque]
pub open spec fn zero_annihilates<T: Num>() -> bool {
    forall|x: T| #[trigger] x.times_spec(T::zero_spec()) == T::zero_spec()
}

/// Subtracting is adding the product with minus one.
#[verifier::opaque]
pub open spec fn minus_is_plus_opposite<T: Num>() -> bool {
    forall|x: T, y: T| #[trigger] x.minus_spec(y) == x.plus_spec(neg_one_spec::<T>().times_spec(y))
}

/// The product with minus one is the opposite: added to the element it
/// gives zero.
#[verifier::opaque]
pub open spec fn opposite_cancels<T: Num>() -> bool {
    forall|x: T| x.plus_spec(#[trigger] neg_one_spec::<T>().times_spec(x)) == T::zero_spec()
}

/// A quotient times the divisor is the dividend.
#[verifier::opaque]
pub open spec fn quotient_is_exact<T: Num>() -> bool {
    forall|x: T, y: T| (#[trigger] x.divide_spec(y)) matches Some(q) ==> q.times_spec(y) == x
}

/// The element type obeys the laws of a field.
pub open spec fn field_laws<T: Num>() -> bool {
    &&& plus_is_associative::<T>()
    &&& plus_is_commutative::<T>()
    &&& zero_is_neutral::<T>()
    &&& times_is_associative::<T>()
    &&& times_is_commutative::<T>()
    &&& one_is_neutral::<T>()
    &&& times_distributes::<T>()
    &&& zero_annihilates::<T>()
    &&& minus_is_plus_opposite::<T>()
    &&& opposite_cancels::<T>()
    &&& quotient_is_exact::<T>()
}

/// The laws of a field for three given elements.
pub proof fn lemma_field<T: Num>(x: T, y: T, z: T)
    requires
        field_laws::<T>(),
    ensures
        x.plus_spec(y).plus_spec(z) == x.plus_spec(y.plus_spec(z)),
        x.plus_spec(y) == y.plus_spec(x),
        x.plus_spec(T::zero_spec()) == x,
        x.times_spec(y).times_spec(z) == x.times_spec(y.times_spec(z)),
        x.times_spec(y) == y.times_spec(x),
        x.times_spec(T::one_spec()) == x,
        x.times_spec(y.plus_spec(z)) == x.times_spec(y).plus_spec(x.times_spec(z)),
        x.times_spec(T::zero_spec()) == T::zero_spec(),
        x.minus_spec(y) == x.plus_spec(neg_one_spec::<T>().times_spec(y)),
        x.plus_spec(neg_one_spec::<T>().times_spec(x)) == T::zero_spec(),
        x.divide_spec(y) matches Some(q) ==> q.times_spec(y) == x,
{
    assert(x.plus_spec(y).plus_spec(z) == x.plus_spec(y.plus_spec(z))) by {
        reveal(plus_is_associative);
    }
    assert(x.plus_spec(y) == y.plus_spec(x)) by {
        reveal(plus_is_commutative);
    }
    assert(x.plus_spec(T::zero_spec()) == x) by {
        reveal(zero_is_neutral);
    }
    assert(x.times_spec(y).times_spec(z) == x.times_spec(y.times_spec(z))) by {
        reveal(times_is_associative);
    }
    assert(x.times_spec(y) == y.times_spec(x)) by {
        reveal(times_is_commutative);
    }
    assert(x.times_spec(T::one_spec()) == x) by {
        reveal(one_is_neutral);
    }
    assert(x.times_spec(y.plus_spec(z)) == x.times_spec(y).plus_spec(x.times_spec(z))) by {
        reveal(times_distributes);
    }
    assert(x.times_spec(T::zero_spec()) == T::zero_spec()) by {
        reveal(zero_annihilates);
    }
    assert(x.minus_spec(y) == x.plus_spec(neg_one_spec::<T>().times_spec(y))) by {
        reveal(minus_is_plus_opposite);
    }
    assert(x.plus_spec(neg_one_spec::<T>().times_spec(x)) == T::zero_spec()) by {
        reveal(opposite_cancels);
    }
    assert(x.divide_spec(y) matches Some(q) ==> q.times_spec(y) == x) by {
        reveal(quotient_is_exact);
    }
}

/// `(a + b) + (c + d) == (a + c) + (b + d)`.
pub proof fn lemma_plus_swap<T: Num>(a: T, b: T, c: T, d: T)
    requires
        field_laws::<T>(),
    ensures
        a.plus_spec(b).plus_spec(c.plus_spec(d)) == a.plus_spec(c).plus_spec(b.plus_spec(d)),
{
    lemma_field(a, b, c.plus_spec(d));
    lemma_field(b, c, d);
    lemma_field(b, c, T::zero_spec());
    lemma_field(c, b, d);
    lemma_field(a, c, b.plus_spec(d));
}

/// A dot product is additive in its left vector.
pub proof fn lemma_dot_plus_left<T: Num>(u: Seq<T>, w: Seq<T>, s: Seq<T>, v: Seq<T>, n: nat)
    requires
        field_laws::<T>(),
        n >= 1,
        forall|k: int| 0 <= k < n ==> s[k] == u[k].plus_spec(w[k]),
    ensures
        dot_prefix(s, v, n) == dot_prefix(u, v, n).plus_spec(dot_prefix(w, v, n)),
    decreases n,
{
    let last = (if n <= 1 {
        0
    } else {
        n - 1
    }) as int;
    // (u + w) v == u v + w v
    lemma_field(v[last], u[last], w[last]);
    lemma_field(u[last].plus_spec(w[last]), v[last], v[last]);
    lemma_field(u[last], v[last], v[last]);
    lemma_field(w[last], v[last], v[last]);
    if n > 1 {
        lemma_dot_plus_left(u, w, s, v, (n - 1) as nat);
        lemma_plus_swap(
            dot_prefix(u, v, (n - 1) as nat),
            dot_prefix(w, v, (n - 1) as nat),
            u[last].times_spec(v[last]),
            w[last].times_spec(v[last]),
        );
    }
}

/// A dot product is additive in its right vector.
pub proof fn lemma_dot_plus_right<T: Num>(u: Seq<T>, v: Seq<T>, w: Seq<T>, s: Seq<T>, n: nat)
    requires
        field_laws::<T>(),
        n >= 1,
        forall|k: int| 0 <= k < n ==> s[k] == v[k].plus_spec(w[k]),
    ensures
        dot_prefix(u, s, n) == dot_prefix(u, v, n).plus_spec(dot_prefix(u, w, n)),
    decreases n,
{
    let last = (if n <= 1 {
        0
    } else {
        n - 1
    }) as int;
    lemma_field(u[last], v[last], w[last]);
    if n > 1 {
        lemma_dot_plus_right(u, v, w, s, (n - 1) as nat);
        lemma_plus_swap(
            dot_prefix(u, v, (n - 1) as nat),
            dot_prefix(u, w, (n - 1) as nat),
            u[last].times_spec(v[last]),
            u[last].times_spec(w[last]),
        );
    }
}

/// A factor of the left vector can be taken out of a dot product.
pub proof fn lemma_dot_scale_left<T: Num>(c: T, u: Seq<T>, s: Seq<T>, v: Seq<T>, n: nat)
    requires
        field_laws::<T>(),
        n >= 1,
        forall|k: int| 0 <= k < n ==> s[k] == c.times_spec(u[k]),
    ensures
        dot_prefix(s, v, n) == c.times_spec(dot_prefix(u, v, n)),
    decreases n,
{
    let last = (if n <= 1 {
        0
    } else {
        n - 1
    }) as int;
    lemma_field(c, u[last], v[last]);
    if n > 1 {
        lemma_dot_scale_left(c, u, s, v, (n - 1) as nat);
        lemma_field(c, dot_prefix(u, v, (n - 1) as nat), u[last].times_spec(v[last]));
    }
}

/// A factor of the right vector can be taken out of a dot product.
pub proof fn lemma_dot_scale_right<T: Num>(c: T, u: Seq<T>, v: Seq<T>, s: Seq<T>, n: nat)
    requires
        field_laws::<T>(),
        n >= 1,
        forall|k: int| 0 <= k < n ==> s[k] == c.times_spec(v[k]),
    ensures
        dot_prefix(u, s, n) == c.times_spec(dot_prefix(u, v, n)),
    decreases n,
{
    let last = (if n <= 1 {
        0
    } else {
        n - 1
    }) as int;
    // u (c v) == c (u v)
    lemma_field(u[last], c, v[last]);
    lemma_field(c, u[last], v[last]);
    if n > 1 {
        lemma_dot_scale_right(c, u, v, s, (n - 1) as nat);
        lemma_field(c, dot_prefix(u, v, (n - 1) as nat), u[last].times_spec(v[last]));
    }
}

/// The sums over rows and over columns of the products `x[l] y[l][k] z[k]`
/// are the same: the step from which the associativity of the matrix product
/// follows.
pub proof fn lemma_dot_nested<T: Num>(x: Seq<T>, y: Grid<T>, z: Seq<T>, l: nat)
    requires
        field_laws::<T>(),
        y.wf(),
        1 <= l <= y.rows,
        y.cols >= 1,
    ensures
        dot_prefix(Seq::new(y.cols, |k: int| dot_prefix(x, y.col(k), l)), z, y.cols) == dot_prefix(
            x,
            Seq::new(y.rows, |i: int| dot_prefix(y.row(i), z, y.cols)),
            l,
        ),
    decreases l,
{
    let inner = Seq::new(y.cols, |k: int| dot_prefix(x, y.col(k), l));
    let outer = Seq::new(y.rows, |i: int| dot_prefix(y.row(i), z, y.cols));
    let c = x[l - 1];
    let term = Seq::new(y.cols, |k: int| c.times_spec(y.at(l - 1, k)));
    lemma_dot_scale_left(c, y.row(l - 1), term, z, y.cols);
    if l == 1 {
        assert(inner =~= term);
    } else {
        let before = Seq::new(y.cols, |k: int| dot_prefix(x, y.col(k), (l - 1) as nat));
        lemma_dot_nested(x, y, z, (l - 1) as nat);
        lemma_dot_plus_left(before, term, inner, z, y.cols);
    }
}

/// The matrix product is associative.
pub proof fn lemma_times_associative<T: Num>(a: Grid<T>, b: Grid<T>, c: Grid<T>)
    requires
        field_laws::<T>(),
        a.wf(),
        b.wf(),
        c.wf(),
        a.cols == b.rows,
        b.cols == c.rows,
        b.rows >= 1,
        b.cols >= 1,
    ensures
        a.times(b).times(c) == a.times(b.times(c)),
{
    let left = a.times(b).times(c);
    let right = a.times(b.times(c));
    assert forall|i: int, j: int| left.has(i, j) implies left.at(i, j) == right.at(i, j) by {
        let x = a.row(i);
        let z = c.col(j);
        lemma_dot_nested(x, b, z, b.rows);
        assert(a.times(b).row(i) =~= Seq::new(b.cols, |k: int| dot_prefix(x, b.col(k), b.rows)));
        assert(b.times(c).col(j) =~= Seq::new(b.rows, |l: int| dot_prefix(b.row(l), z, b.cols)));
    }
    lemma_grid_ext(left, right);
}

/// The matrix product distributes over a sum on the left.
pub proof fn lemma_times_plus_left<T: Num>(a: Grid<T>, b: Grid<T>, c: Grid<T>)
    requires
        field_laws::<T>(),
        a.wf(),
        b.wf(),
        c.wf(),
        a.same_shape(b),
        a.cols == c.rows,
        a.cols >= 1,
    ensures
        a.plus(b).times(c) == a.times(c).plus(b.times(c)),
{
    let left = a.plus(b).times(c);
    let right = a.times(c).plus(b.times(c));
    assert forall|i: int, j: int| left.has(i, j) implies left.at(i, j) == right.at(i, j) by {
        lemma_dot_plus_left(a.row(i), b.row(i), a.plus(b).row(i), c.col(j), a.cols);
    }
    lemma_grid_ext(left, right);
}

/// The matrix product distributes over a sum on the right.
pub proof fn lemma_times_plus_right<T: Num>(a: Grid<T>, b: Grid<T>, c: Grid<T>)
    requires
        field_laws::<T>(),
        a.wf(),
        b.wf(),
        c.wf(),
        b.same_shape(c),
        a.cols == b.rows,
        a.cols >= 1,
    ensures
        a.times(b.plus(c)) == a.times(b).plus(a.times(c)),
{
    let left = a.times(b.plus(c));
    let right = a.times(b).plus(a.times(c));
    assert forall|i: int, j: int| left.has(i, j) implies left.at(i, j) == right.at(i, j) by {
        lemma_dot_plus_right(a.row(i), b.col(j), c.col(j), b.plus(c).col(j), a.cols);
    }
    lemma_grid_ext(left, right);
}

/// A factor of the left operand can be taken out of a matrix product.
pub proof fn lemma_times_scaled_left<T: Num>(x: T, a: Grid<T>, b: Grid<T>)
    requires
        field_laws::<T>(),
        a.wf(),
        b.wf(),
        a.cols == b.rows,
        a.cols >= 1,
    ensures
        a.scaled(x).times(b) == a.times(b).scaled(x),
{
    let left = a.scaled(x).times(b);
    let right = a.times(b).scaled(x);
    assert forall|i: int, j: int| left.has(i, j) implies left.at(i, j) == right.at(i, j) by {
        lemma_dot_scale_left(x, a.row(i), a.scaled(x).row(i), b.col(j), a.cols);
    }
    lemma_grid_ext(left, right);
}

/// A factor of the right operand can be taken out of a matrix product.
pub proof fn lemma_times_scaled_right<T: Num>(x: T, a: Grid<T>, b: Grid<T>)
    requires
        field_laws::<T>(),
        a.wf(),
        b.wf(),
        a.cols == b.rows,
        a.cols >= 1,
    ensures
        a.times(b.scaled(x)) == a.times(b).scaled(x),
{
    let left = a.times(b.scaled(x));
    let right = a.times(b).scaled(x);
    assert forall|i: int, j: int| left.has(i, j) implies left.at(i, j) == right.at(i, j) by {
        lemma_dot_scale_right(x, a.row(i), b.col(j), b.scaled(x).col(j), a.cols);
    }
    lemma_grid_ext(left, right);
}

/// The dot product of a vector with a unit vector is one cell of the vector.
pub proof fn lemma_dot_unit<T: Num>(u: Seq<T>, e: Seq<T>, j: int, n: nat)
    requires
        field_laws::<T>(),
        n >= 1,
        0 <= j,
        forall|k: int|
            0 <= k < n ==> e[k] == (if k == j {
                T::one_spec()
            } else {
                T::zero_spec()
            }),
    ensures
        dot_prefix(u, e, n) == (if j < n {
            u[j]
        } else {
            T::zero_spec()
        }),
    decreases n,
{
    let last = (if n <= 1 {
        0
    } else {
        n - 1
    }) as int;
    lemma_field(u[last], T::zero_spec(), T::zero_spec());
    if n > 1 {
        lemma_dot_unit(u, e, j, (n - 1) as nat);
        let head = dot_prefix(u, e, (n - 1) as nat);
        lemma_field(head, T::zero_spec(), T::zero_spec());
        lemma_field(T::zero_spec(), u[last], T::zero_spec());
    }
}

/// A matrix times the identity is the matrix.
pub proof fn lemma_times_identity<T: Num>(a: Grid<T>)
    requires
        field_laws::<T>(),
        a.wf(),
        a.cols >= 1,
    ensures
        a.times(Grid::identity(a.cols)) == a,
{
    let left = a.times(Grid::identity(a.cols));
    assert forall|i: int, j: int| left.has(i, j) implies left.at(i, j) == a.at(i, j) by {
        lemma_dot_unit(a.row(i), Grid::<T>::identity(a.cols).col(j), j, a.cols);
    }
    lemma_grid_ext(left, a);
}

/// The quadrants of a grid that was put together from four quadrants, split
/// where the grid itself is split, are those four.
pub proof fn lemma_quadrants_of<T>(a: Grid<T>, b: Grid<T>, c: Grid<T>, d: Grid<T>)
    requires
        a.wf() && b.wf() && c.wf() && d.wf(),
        b.rows == a.rows,
        c.cols == a.cols,
        d.rows == c.rows,
        d.cols == b.cols,
        a.rows == (a.rows + c.rows) / 2,
        a.cols == (a.cols + b.cols) / 2,
    ensures
        Grid::from_quadrants(a, b, c, d).top_left() == a,
        Grid::from_quadrants(a, b, c, d).top_right() == b,
        Grid::from_quadrants(a, b, c, d).bottom_left() == c,
        Grid::from_quadrants(a, b, c, d).bottom_right() == d,
{
    let g = Grid::from_quadrants(a, b, c, d);
    lemma_grid_ext(g.top_left(), a);
    lemma_grid_ext(g.top_right(), b);
    lemma_grid_ext(g.bottom_left(), c);
    lemma_grid_ext(g.bottom_right(), d);
}

/// The identity matrix has identity matrices as its diagonal quadrants and
/// zeros in the other two.
pub proof fn lemma_identity_quadrants<T: Num>(n: nat)
    ensures
        Grid::<T>::identity(n) == Grid::from_quadrants(
            Grid::<T>::identity(n / 2),
            Grid::<T>::zeros(n / 2, (n - n / 2) as nat),
            Grid::<T>::zeros((n - n / 2) as nat, n / 2),
            Grid::<T>::identity((n - n / 2) as nat),
        ),
{
    lemma_grid_ext(
        Grid::<T>::identity(n),
        Grid::from_quadrants(
            Grid::<T>::identity(n / 2),
            Grid::<T>::zeros(n / 2, (n - n / 2) as nat),
            Grid::<T>::zeros((n - n / 2) as nat, n / 2),
            Grid::<T>::identity((n - n / 2) as nat),
        ),
    );
}

/// `(i + y) + (-y) == i`.
pub proof fn lemma_plus_then_opposite<T: Num>(i: T, y: T)
    requires
        field_laws::<T>(),
    ensures
        i.plus_spec(y).plus_spec(neg_one_spec::<T>().times_spec(y)) == i,
{
    let o = neg_one_spec::<T>().times_spec(y);
    lemma_field(i, y, o);
    lemma_field(y, y, y);
    lemma_field(i, i, i);
}

/// `(-r) + r == 0`.
pub proof fn lemma_opposite_then_plus<T: Num>(r: T)
    requires
        field_laws::<T>(),
    ensures
        neg_one_spec::<T>().times_spec(r).plus_spec(r) == T::zero_spec(),
{
    let o = neg_one_spec::<T>().times_spec(r);
    lemma_field(o, r, r);
    lemma_field(r, r, r);
}

/// If `x == q + (-p)` then `(x + p) + (-q) == 0`.
pub proof fn lemma_difference_cancels<T: Num>(x: T, p: T, q: T)
    requires
        field_laws::<T>(),
        x == q.plus_spec(neg_one_spec::<T>().times_spec(p)),
    ensures
        x.plus_spec(p).plus_spec(neg_one_spec::<T>().times_spec(q)) == T::zero_spec(),
{
    let op = neg_one_spec::<T>().times_spec(p);
    let oq = neg_one_spec::<T>().times_spec(q);
    // (q + -p) + p == q + (-p + p) == q + 0 == q
    lemma_field(q, op, p);
    lemma_opposite_then_plus(p);
    lemma_field(q, q, q);
    // q + -q == 0
}

/// Blockwise inversion is right for the fields: what it returns for a
/// matrix, multiplied with the matrix, is the identity matrix.
pub proof fn law_inverse_times_matrix<T: Num>(m: Grid<T>)
    requires
        field_laws::<T>(),
        m.wf(),
        inverse_spec(m) is Ok,
    ensures
        inverse_spec(m)->Ok_0.times(m) == Grid::<T>::identity(m.rows),
    decreases m.rows,
{
    let neg = neg_one_spec::<T>();
    let n = m.rows;
    lemma_inverse_shape(m);
    if n == 1 {
        let x = T::one_spec().divide_spec(m.at(0, 0))->Some_0;
        let g = Grid::new(1, 1, |i: int, j: int| x);
        lemma_field(T::one_spec(), m.at(0, 0), x);
        lemma_grid_ext(g.times(m), Grid::<T>::identity(1));
    } else {
        let a = m.top_left();
        let b = m.top_right();
        let c = m.bottom_left();
        let d = m.bottom_right();
        let ai = inverse_spec(a)->Ok_0;
        lemma_inverse_shape(a);
        law_inverse_times_matrix(a);
        let cai = c.times(ai);
        let t = cai.times(b);
        let s = d.minus(t);
        let dn = inverse_spec(s)->Ok_0;
        lemma_inverse_shape(s);
        law_inverse_times_matrix(s);
        let aib = ai.times(b);
        let x = aib.times(dn);
        let cn = dn.times(cai).scaled(neg);
        let an = ai.plus(x.times(cai));
        let bn = x.scaled(neg);
        let g = Grid::from_quadrants(an, bn, cn, dn);
        assert(inverse_spec(m)->Ok_0 == g);
        let one_a = Grid::<T>::identity(a.rows);
        let one_d = Grid::<T>::identity(d.rows);

        // c ai a == c
        lemma_times_associative(c, ai, a);
        lemma_times_identity(c);
        assert(cai.times(a) == c);

        // The upper left quadrant: an a + bn c == 1.
        let xc = x.times(c);
        lemma_times_plus_left(ai, x.times(cai), a);
        lemma_times_associative(x, cai, a);
        assert(an.times(a) == one_a.plus(xc));
        lemma_times_scaled_left(neg, x, c);
        assert(bn.times(c) == xc.scaled(neg));
        let upper_left = an.times(a).plus(bn.times(c));
        assert forall|i: int, j: int| upper_left.has(i, j) implies upper_left.at(i, j) == one_a.at(i, j) by {
            lemma_plus_then_opposite(one_a.at(i, j), xc.at(i, j));
        }
        lemma_grid_ext(upper_left, one_a);

        // The upper right quadrant: an b + bn d == 0.
        let xt = x.times(t);
        let xd = x.times(d);
        lemma_times_plus_left(ai, x.times(cai), b);
        lemma_times_associative(x, cai, b);
        assert(an.times(b) == aib.plus(xt));
        lemma_times_scaled_left(neg, x, d);
        assert(bn.times(d) == xd.scaled(neg));
        // x s == aib, and x s == x d + -(x t)
        lemma_times_associative(aib, dn, s);
        lemma_times_identity(aib);
        assert(x.times(s) == aib);
        let ot = t.scaled(neg);
        assert forall|i: int, j: int| s.has(i, j) implies s.at(i, j) == d.plus(ot).at(i, j) by {
            lemma_field(d.at(i, j), t.at(i, j), t.at(i, j));
        }
        lemma_grid_ext(s, d.plus(ot));
        lemma_times_plus_right(x, d, ot);
        lemma_times_scaled_right(neg, x, t);
        assert(aib == xd.plus(xt.scaled(neg)));
        let upper_right = an.times(b).plus(bn.times(d));
        let zero_b = Grid::<T>::zeros(a.rows, d.cols);
        assert forall|i: int, j: int| upper_right.has(i, j) implies upper_right.at(i, j) == zero_b.at(i, j) by {
            lemma_difference_cancels(aib.at(i, j), xt.at(i, j), xd.at(i, j));
        }
        lemma_grid_ext(upper_right, zero_b);

        // The lower left quadrant: cn a + dn c == 0.
        let dc = dn.times(c);
        lemma_times_scaled_left(neg, dn.times(cai), a);
        lemma_times_associative(dn, cai, a);
        assert(cn.times(a) == dc.scaled(neg));
        let lower_left = cn.times(a).plus(dn.times(c));
        let zero_c = Grid::<T>::zeros(d.rows, a.cols);
        assert forall|i: int, j: int| lower_left.has(i, j) implies lower_left.at(i, j) == zero_c.at(i, j) by {
            lemma_opposite_then_plus(dc.at(i, j));
        }
        lemma_grid_ext(lower_left, zero_c);

        // The lower right quadrant: cn b + dn d == 1.
        let dt = dn.times(t);
        let dd = dn.times(d);
        lemma_times_scaled_left(neg, dn.times(cai), b);
        lemma_times_associative(dn, cai, b);
        assert(cn.times(b) == dt.scaled(neg));
        lemma_times_plus_right(dn, d, ot);
        lemma_times_scaled_right(neg, dn, t);
        assert(one_d == dd.plus(dt.scaled(neg)));
        let lower_right = cn.times(b).plus(dn.times(d));
        assert forall|i: int, j: int| lower_right.has(i, j) implies lower_right.at(i, j) == one_d.at(i, j) by {
            lemma_field(dt.scaled(neg).at(i, j), dd.at(i, j), dd.at(i, j));
        }
        lemma_grid_ext(lower_right, one_d);

        // Put together.
        lemma_quadrants_of(an, bn, cn, dn);
        lemma_times_by_quadrants(g, m);
        lemma_identity_quadrants::<T>(n);
    }
}

/// The dot product is symmetric.
pub proof fn lemma_dot_commutes<T: Num>(u: Seq<T>, v: Seq<T>, n: nat)
    requires
        field_laws::<T>(),
        n >= 1,
    ensures
        dot_prefix(u, v, n) == dot_prefix(v, u, n),
    decreases n,
{
    let last = (if n <= 1 {
        0
    } else {
        n - 1
    }) as int;
    lemma_field(u[last], v[last], v[last]);
    if n > 1 {
        lemma_dot_commutes(u, v, (n - 1) as nat);
    }
}

/// The identity times a matrix is the matrix.
pub proof fn lemma_identity_times<T: Num>(a: Grid<T>)
    requires
        field_laws::<T>(),
        a.wf(),
        a.rows >= 1,
    ensures
        Grid::identity(a.rows).times(a) == a,
{
    let left = Grid::<T>::identity(a.rows).times(a);
    assert forall|i: int, j: int| left.has(i, j) implies left.at(i, j) == a.at(i, j) by {
        let e = Grid::<T>::identity(a.rows).row(i);
        lemma_dot_commutes(e, a.col(j), a.rows);
        lemma_dot_unit(a.col(j), e, i, a.rows);
    }
    lemma_grid_ext(left, a);
}

/// Inverting twice gives the matrix back: where a matrix over a field has
/// an inverse by blockwise inversion, and that inverse has one too, the
/// second is the matrix itself.
pub proof fn law_inverse_twice<T: Num>(m: Grid<T>)
    requires
        field_laws::<T>(),
        m.wf(),
        inverse_spec(m) is Ok,
        inverse_spec(inverse_spec(m)->Ok_0) is Ok,
    ensures
        inverse_spec(inverse_spec(m)->Ok_0)->Ok_0 == m,
{
    let g = inverse_spec(m)->Ok_0;
    let h = inverse_spec(g)->Ok_0;
    lemma_inverse_shape(m);
    lemma_inverse_shape(g);
    law_inverse_times_matrix(m);
    law_inverse_times_matrix(g);
    // h == h (g m) == (h g) m == m
    lemma_times_identity(h);
    lemma_times_associative(h, g, m);
    lemma_identity_times(m);
}

/// A square root times itself is the number.
#[verifier::opaque]
pub open spec fn root_is_exact<T: Real>() -> bool {
    forall|x: T| (#[trigger] x.sqrt_spec()) matches Some(d) ==> d.times_spec(d) == x
}

/// The law of the square root for a given element.
pub proof fn lemma_root<T: Real>(x: T)
    requires
        root_is_exact::<T>(),
    ensures
        x.sqrt_spec() matches Some(d) ==> d.times_spec(d) == x,
{
    reveal(root_is_exact);
}

/// The transpose of a product is the product of the transposes, in the other
/// order.
pub proof fn lemma_transposed_times<T: Num>(a: Grid<T>, b: Grid<T>)
    requires
        field_laws::<T>(),
        a.wf(),
        b.wf(),
        a.cols == b.rows,
        a.cols >= 1,
    ensures
        a.times(b).transposed() == b.transposed().times(a.transposed()),
{
    let left = a.times(b).transposed();
    let right = b.transposed().times(a.transposed());
    assert forall|i: int, j: int| left.has(i, j) implies left.at(i, j) == right.at(i, j) by {
        lemma_dot_commutes(a.row(j), b.col(i), a.cols);
        assert(b.transposed().row(i) =~= b.col(i));
        assert(a.transposed().col(j) =~= a.row(j));
    }
    lemma_grid_ext(left, right);
}

/// The transpose of a grid put together from quadrants is put together from
/// the transposed quadrants, the two off the diagonal exchanged.
pub proof fn lemma_transposed_quadrants<T>(a: Grid<T>, b: Grid<T>, c: Grid<T>, d: Grid<T>)
    requires
        a.wf() && b.wf() && c.wf() && d.wf(),
        b.rows == a.rows,
        c.cols == a.cols,
        d.rows == c.rows,
        d.cols == b.cols,
    ensures
        Grid::from_quadrants(a, b, c, d).transposed() == Grid::from_quadrants(
            a.transposed(),
            c.transposed(),
            b.transposed(),
            d.transposed(),
        ),
{
    lemma_grid_ext(
        Grid::from_quadrants(a, b, c, d).transposed(),
        Grid::from_quadrants(a.transposed(), c.transposed(), b.transposed(), d.transposed()),
    );
}

/// The dot product with a vector of zeros is zero.
pub proof fn lemma_dot_zeros<T: Num>(u: Seq<T>, z: Seq<T>, n: nat)
    requires
        field_laws::<T>(),
        n >= 1,
        forall|k: int| 0 <= k < n ==> z[k] == T::zero_spec(),
    ensures
        dot_prefix(u, z, n) == T::zero_spec(),
        dot_prefix(z, u, n) == T::zero_spec(),
    decreases n,
{
    let last = (if n <= 1 {
        0
    } else {
        n - 1
    }) as int;
    lemma_field(u[last], T::zero_spec(), T::zero_spec());
    lemma_field(T::zero_spec(), T::zero_spec(), T::zero_spec());
    lemma_dot_commutes(z, u, n);
    if n > 1 {
        lemma_dot_zeros(u, z, (n - 1) as nat);
    }
}

/// A product with a matrix of zeros is a matrix of zeros.
pub proof fn lemma_times_zeros<T: Num>(a: Grid<T>, k: nat)
    requires
        field_laws::<T>(),
        a.wf(),
        a.rows >= 1,
        a.cols >= 1,
    ensures
        a.times(Grid::zeros(a.cols, k)) == Grid::<T>::zeros(a.rows, k),
        Grid::zeros(k, a.rows).times(a) == Grid::<T>::zeros(k, a.cols),
{
    let right = a.times(Grid::zeros(a.cols, k));
    assert forall|i: int, j: int| right.has(i, j) implies right.at(i, j) == T::zero_spec() by {
        lemma_dot_zeros(a.row(i), Grid::<T>::zeros(a.cols, k).col(j), a.cols);
    }
    lemma_grid_ext(right, Grid::<T>::zeros(a.rows, k));
    let left = Grid::<T>::zeros(k, a.rows).times(a);
    assert forall|i: int, j: int| left.has(i, j) implies left.at(i, j) == T::zero_spec() by {
        lemma_dot_zeros(a.col(j), Grid::<T>::zeros(k, a.rows).row(i), a.rows);
    }
    lemma_grid_ext(left, Grid::<T>::zeros(k, a.cols));
}

/// Adding a matrix of zeros changes nothing.
pub proof fn lemma_plus_zeros<T: Num>(a: Grid<T>)
    requires
        field_laws::<T>(),
        a.wf(),
    ensures
        a.plus(Grid::zeros(a.rows, a.cols)) == a,
{
    let sum = a.plus(Grid::zeros(a.rows, a.cols));
    assert forall|i: int, j: int| sum.has(i, j) implies sum.at(i, j) == a.at(i, j) by {
        lemma_field(a.at(i, j), a.at(i, j), a.at(i, j));
    }
    lemma_grid_ext(sum, a);
}

/// `p + (q - p) == q`.
pub proof fn lemma_plus_difference<T: Num>(p: T, q: T)
    requires
        field_laws::<T>(),
    ensures
        p.plus_spec(q.minus_spec(p)) == q,
{
    let op = neg_one_spec::<T>().times_spec(p);
    lemma_field(q, p, p);
    lemma_field(p, q.plus_spec(op), q);
    lemma_field(q, op, p);
    lemma_opposite_then_plus(p);
    lemma_field(q, q, q);
}

/// The sum of the products of the cells of rows `i` and `j` in the columns
/// up to the diagonal cell of row `j`.
pub open spec fn row_product<T: Real>(m: Grid<T>, i: int, j: int) -> T {
    dot_prefix(m.row(i), m.row(j), (j + 1) as nat)
}

/// Cell `(i, j)` with what the elimination steps at the columns before `k`
/// have subtracted from it added again.
pub open spec fn restored<T: Real>(m: Grid<T>, k: nat, i: int, j: int) -> T {
    if k == 0 {
        m.at(i, j)
    } else {
        m.at(i, j).plus_spec(dot_prefix(m.row(i), m.row(j), k))
    }
}

/// `m` is what the elimination steps at the columns before `k` make of the
/// lower triangle of `a`: the columns before `k` hold the factor, and the
/// cells from column `k` on hold what is left of `a`.
pub open spec fn eliminated<T: Real>(a: Grid<T>, m: Grid<T>, k: nat) -> bool {
    &&& m.wf()
    &&& m.rows == a.rows
    &&& m.cols == a.rows
    &&& forall|i: int, j: int| 0 <= j < k && j <= i < a.rows ==> #[trigger] row_product(m, i, j) == a.at(i, j)
    &&& forall|i: int, j: int| k <= j && j <= i < a.rows ==> #[trigger] restored(m, k, i, j) == a.at(i, j)
}

/// `(x - y) + y == x`.
pub proof fn lemma_minus_then_plus<T: Num>(x: T, y: T)
    requires
        field_laws::<T>(),
    ensures
        x.minus_spec(y).plus_spec(y) == x,
{
    let oy = neg_one_spec::<T>().times_spec(y);
    lemma_field(x, y, y);
    lemma_field(x, oy, y);
    lemma_opposite_then_plus(y);
    lemma_field(x, x, x);
}

/// `(x - y) + (s + y) == x + s`.
pub proof fn lemma_minus_then_sum<T: Num>(x: T, y: T, s: T)
    requires
        field_laws::<T>(),
    ensures
        x.minus_spec(y).plus_spec(s.plus_spec(y)) == x.plus_spec(s),
{
    let z = x.minus_spec(y);
    lemma_field(s, y, y);
    lemma_field(z, y, s);
    lemma_minus_then_plus(x, y);
}

/// One elimination step keeps the relation between the state and the matrix.
pub proof fn lemma_eliminated_step<T: Real>(a: Grid<T>, m: Grid<T>, k: nat)
    requires
        field_laws::<T>(),
        root_is_exact::<T>(),
        k < a.rows,
        eliminated(a, m, k),
        cholesky_step(m, k as int) is Some,
    ensures
        eliminated(a, cholesky_step(m, k as int)->Some_0, k + 1),
{
    let next = cholesky_step(m, k as int)->Some_0;
    let d = m.at(k as int, k as int).sqrt_spec()->Some_0;
    lemma_root(m.at(k as int, k as int));
    // The columns before `k` are as they were.
    assert forall|i: int, l: int| 0 <= i < a.rows && 0 <= l < k implies #[trigger] next.at(i, l) == m.at(i, l) by {}
    assert forall|i: int, j: int| 0 <= j < k + 1 && j <= i < a.rows implies #[trigger] row_product(next, i, j)
        == a.at(i, j) by {
        if j < k {
            lemma_dot_prefix_ext(next.row(i), next.row(j), m.row(i), m.row(j), (j + 1) as nat);
            assert(row_product(m, i, j) == a.at(i, j));
        } else {
            // Column `k`: the new cell times the new diagonal cell is the old cell.
            let old_cell = m.at(i, k as int);
            let new_cell = next.at(i, k as int);
            if i == k {
                assert(new_cell.times_spec(d) == old_cell);
            } else {
                assert(m.at(i, k as int).divide_spec(d) is Some);
                lemma_field(old_cell, d, d);
                assert(new_cell == scaled_entry(m, k as int, d, i));
                assert(new_cell.times_spec(d) == old_cell);
            }
            assert(restored(m, k, i, k as int) == a.at(i, k as int));
            if k > 0 {
                lemma_dot_prefix_ext(next.row(i), next.row(k as int), m.row(i), m.row(k as int), k);
                lemma_field(old_cell, dot_prefix(m.row(i), m.row(k as int), k), old_cell);
            }
        }
    }
    assert forall|i: int, j: int| k + 1 <= j && j <= i < a.rows implies #[trigger] restored(
        next,
        (k + 1) as nat,
        i,
        j,
    ) == a.at(i, j) by {
        let x = m.at(i, j);
        let y = scaled_entry(m, k as int, d, i).times_spec(scaled_entry(m, k as int, d, j));
        assert(next.at(i, j) == x.minus_spec(y));
        assert(next.at(i, k as int) == scaled_entry(m, k as int, d, i));
        assert(next.at(j, k as int) == scaled_entry(m, k as int, d, j));
        assert(restored(m, k, i, j) == a.at(i, j));
        if k > 0 {
            lemma_dot_prefix_ext(next.row(i), next.row(j), m.row(i), m.row(j), k);
            lemma_minus_then_sum(x, y, dot_prefix(m.row(i), m.row(j), k));
        } else {
            lemma_minus_then_plus(x, y);
        }
    }
}

/// The elimination steps from column `k` on keep the relation between the
/// state and the matrix, to the end.
pub proof fn lemma_eliminated_all<T: Real>(a: Grid<T>, m: Grid<T>, k: nat)
    requires
        field_laws::<T>(),
        root_is_exact::<T>(),
        k <= a.rows,
        eliminated(a, m, k),
        cholesky_steps(m, k) is Some,
    ensures
        eliminated(a, cholesky_steps(m, k)->Some_0, a.rows),
    decreases a.rows - k,
{
    if k < a.rows {
        lemma_eliminated_step(a, m, k);
        lemma_eliminated_all(a, cholesky_step(m, k as int)->Some_0, k + 1);
    }
}

/// Cells of zero at the end of the right vector add nothing to a dot product.
pub proof fn lemma_dot_zero_tail<T: Num>(u: Seq<T>, v: Seq<T>, p: nat, n: nat)
    requires
        field_laws::<T>(),
        1 <= p <= n,
        forall|l: int| p <= l < n ==> v[l] == T::zero_spec(),
    ensures
        dot_prefix(u, v, n) == dot_prefix(u, v, p),
    decreases n,
{
    if p < n {
        lemma_dot_zero_tail(u, v, p, (n - 1) as nat);
        lemma_field(u[n - 1], T::zero_spec(), T::zero_spec());
        lemma_field(dot_prefix(u, v, (n - 1) as nat), T::zero_spec(), T::zero_spec());
    }
}

/// The factorization column by column is right for the fields with exact
/// square roots: the factor that `cholesky_seq_inplace` leaves in place of a
/// symmetric matrix, multiplied with its own transpose, is the matrix.
pub proof fn law_sequential_factor<T: Real>(a: Grid<T>)
    requires
        field_laws::<T>(),
        root_is_exact::<T>(),
        a.wf(),
        a.transposed() == a,
        cholesky_seq_spec(a, 0) is Ok,
    ensures
        ({
            let g = cholesky_seq_spec(a, 0)->Ok_0;
            g.times(g.transposed()) == a
        }),
{
    let n = a.rows;
    let f = cholesky_steps(a, 0)->Some_0;
    let g = lower_from(f, 0);
    assert forall|i: int, j: int| a.has(i, j) implies a.at(i, j) == a.at(j, i) by {
        assert(a.transposed().at(i, j) == a.at(j, i));
    }
    lemma_eliminated_all(a, a, 0);
    let product = g.times(g.transposed());
    assert forall|i: int, j: int| product.has(i, j) implies product.at(i, j) == a.at(i, j) by {
        let hi = if i >= j {
            i
        } else {
            j
        };
        let lo = if i >= j {
            j
        } else {
            i
        };
        assert(g.transposed().col(j) =~= g.row(j));
        lemma_dot_commutes(g.row(i), g.row(j), n);
        lemma_dot_zero_tail(g.row(hi), g.row(lo), (lo + 1) as nat, n);
        lemma_dot_prefix_ext(g.row(hi), g.row(lo), f.row(hi), f.row(lo), (lo + 1) as nat);
        assert(row_product(f, hi, lo) == a.at(hi, lo));
    }
    lemma_grid_ext(product, a);
}

/// The blocked factorization is right for the fields with exact square
/// roots, whatever the order up to which matrices are factored column by
/// column: the factor that `cholesky_blocked` returns for a symmetric matrix,
/// multiplied with its own transpose, is the matrix.
pub proof fn law_factor_times_transpose<T: Real>(m: Grid<T>, block: nat)
    requires
        field_laws::<T>(),
        root_is_exact::<T>(),
        m.wf(),
        m.transposed() == m,
        cholesky_blocked_spec(m, block) is Ok,
    ensures
        ({
            let g = cholesky_blocked_spec(m, block)->Ok_0;
            g.times(g.transposed()) == m
        }),
    decreases m.rows,
{
    let n = m.rows;
    let g = cholesky_blocked_spec(m, block)->Ok_0;
    lemma_cholesky_blocked_shape(m, block);
    if n <= block || n < 2 {
        law_sequential_factor(m);
    } else {
        let a = m.top_left();
        let b = m.top_right();
        let c = m.bottom_left();
        let d = m.bottom_right();
        // The quadrants of a symmetric matrix.
        assert forall|i: int, j: int| m.has(i, j) implies m.at(i, j) == m.at(j, i) by {
            assert(m.transposed().at(i, j) == m.at(j, i));
        }
        lemma_grid_ext(a.transposed(), a);
        lemma_grid_ext(d.transposed(), d);
        lemma_grid_ext(c.transposed(), b);

        let ac = cholesky_blocked_spec(a, block)->Ok_0;
        lemma_cholesky_blocked_shape(a, block);
        law_factor_times_transpose(a, block);
        let act = ac.transposed();
        let aci = inverse_spec(act)->Ok_0;
        lemma_inverse_shape(act);
        law_inverse_times_matrix(act);
        let x = c.times(aci);
        let xt = x.transposed();
        let xx = x.times(xt);
        let s = d.minus(xx);
        // The Schur complement is symmetric.
        lemma_transposed_times(x, xt);
        law_transpose_twice(x);
        assert(xx.transposed() == xx);
        assert forall|i: int, j: int| xx.has(i, j) implies xx.at(i, j) == xx.at(j, i) by {
            assert(xx.transposed().at(i, j) == xx.at(j, i));
        }
        lemma_grid_ext(s.transposed(), s);
        let dn = cholesky_blocked_spec(s, block)->Ok_0;
        lemma_cholesky_blocked_shape(s, block);
        law_factor_times_transpose(s, block);
        let dnt = dn.transposed();
        let z = Grid::<T>::zeros(a.rows, d.cols);
        let zt = z.transposed();
        lemma_grid_ext(zt, Grid::<T>::zeros(d.cols, a.rows));
        assert(g == Grid::from_quadrants(ac, z, x, dn));
        lemma_transposed_quadrants(ac, z, x, dn);
        let gt = Grid::from_quadrants(act, xt, zt, dnt);
        assert(g.transposed() == gt);

        // x ac^T == c
        lemma_times_associative(c, aci, act);
        lemma_times_identity(c);
        assert(x.times(act) == c);
        // ac x^T == b
        lemma_transposed_times(x, act);
        law_transpose_twice(ac);
        assert(ac.times(xt) == b);

        // The four quadrants of the product.
        lemma_times_zeros(ac, a.rows);
        lemma_times_zeros(dnt, a.rows);
        lemma_times_zeros(dn, a.rows);
        lemma_times_zeros(zt, a.rows);
        assert(z.times(zt) == Grid::<T>::zeros(a.rows, a.rows));
        assert(z.times(dnt) == Grid::<T>::zeros(a.rows, d.cols));
        assert(dn.times(zt) == Grid::<T>::zeros(d.rows, a.rows));
        lemma_plus_zeros(a);
        lemma_plus_zeros(b);
        lemma_plus_zeros(c);
        let lower_right = xx.plus(dn.times(dnt));
        assert forall|i: int, j: int| lower_right.has(i, j) implies lower_right.at(i, j) == d.at(i, j) by {
            lemma_plus_difference(xx.at(i, j), d.at(i, j));
        }
        lemma_grid_ext(lower_right, d);

        // Put together.
        lemma_quadrants_of(ac, z, x, dn);
        lemma_quadrants_of(act, xt, zt, dnt);
        lemma_times_by_quadrants(g, gt);
        law_quadrants_round_trip(m);
    }
}

} // verus!
