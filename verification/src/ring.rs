//! Element types: what the algorithms need from the numbers in a matrix.
//!
//! Each operation has a mathematical counterpart (`*_spec`) that contracts
//! speak of, and an executable method that computes it.

use vstd::prelude::*;

verus! {

/// Addition and multiplication with their identities.
pub trait Ring: Sized + Copy {
    /// The additive identity.
    spec fn zero_spec() -> Self;

    /// The multiplicative identity.
    spec fn one_spec() -> Self;

    /// The sum of two elements.
    spec fn plus_spec(self, rhs: Self) -> Self;

    /// The product of two elements.
    spec fn times_spec(self, rhs: Self) -> Self;

    fn zero() -> (r: Self)
        ensures
            r == Self::zero_spec(),
    ;

    fn one() -> (r: Self)
        ensures
            r == Self::one_spec(),
    ;

    fn plus(self, rhs: Self) -> (r: Self)
        ensures
            r == self.plus_spec(rhs),
    ;

    fn times(self, rhs: Self) -> (r: Self)
        ensures
            r == self.times_spec(rhs),
    ;
}

/// A ring with subtraction and a division that may be undefined for some
/// operands (the element type decides for which).
pub trait Num: Ring {
    /// The difference of two elements.
    spec fn minus_spec(self, rhs: Self) -> Self;

    /// The quotient of two elements, where the element type defines one.
    spec fn divide_spec(self, rhs: Self) -> Option<Self>;

    fn minus(self, rhs: Self) -> (r: Self)
        ensures
            r == self.minus_spec(rhs),
    ;

    fn divide(self, rhs: Self) -> (r: Option<Self>)
        ensures
            r == self.divide_spec(rhs),
    ;
}

/// Elements that may have a square root.
pub trait Real: Num {
    /// The square root of an element, where the element type defines one.
    spec fn sqrt_spec(self) -> Option<Self>;

    fn sqrt(self) -> (r: Option<Self>)
        ensures
            r == self.sqrt_spec(),
    ;
}

/// Minus one, as the difference of the two identities.
pub open spec fn neg_one_spec<T: Num>() -> T {
    T::zero_spec().minus_spec(T::one_spec())
}

/// Computes minus one.
pub fn neg_one<T: Num>() -> (r: T)
    ensures
        r == neg_one_spec::<T>(),
{
    T::zero().minus(T::one())
}

impl Ring for i64 {
    open spec fn zero_spec() -> i64 {
        0i64
    }

    open spec fn one_spec() -> i64 {
        1i64
    }

    open spec fn plus_spec(self, rhs: i64) -> i64 {
        self.wrapping_add(rhs)
    }

    open spec fn times_spec(self, rhs: i64) -> i64 {
        self.wrapping_mul(rhs)
    }

    fn zero() -> (r: i64) {
        0i64
    }

    fn one() -> (r: i64) {
        1i64
    }

    fn plus(self, rhs: i64) -> (r: i64) {
        self.wrapping_add(rhs)
    }

    fn times(self, rhs: i64) -> (r: i64) {
        self.wrapping_mul(rhs)
    }
}

impl Num for i64 {
    open spec fn minus_spec(self, rhs: i64) -> i64 {
        self.wrapping_sub(rhs)
    }

    open spec fn divide_spec(self, rhs: i64) -> Option<i64> {
        self.checked_div(rhs)
    }

    fn minus(self, rhs: i64) -> (r: i64) {
        self.wrapping_sub(rhs)
    }

    fn divide(self, rhs: i64) -> (r: Option<i64>) {
        self.checked_div(rhs)
    }
}

/// `r` is the root of the square number `x`.
pub open spec fn is_root(r: int, x: int) -> bool {
    0 <= r && r * r == x
}

/// Among the numbers from zero on, a smaller one has a smaller square.
pub proof fn lemma_square_grows(a: int, b: int)
    requires
        0 <= a < b,
    ensures
        a * a < b * b,
{
    assert(a * a < b * b) by (nonlinear_arith)
        requires
            0 <= a < b,
    ;
}

/// A number between two consecutive squares is no square, and a square has
/// one root only.
pub proof fn lemma_root_between(lo: int, x: int, r: int)
    requires
        0 <= lo,
        lo * lo <= x < (lo + 1) * (lo + 1),
        is_root(r, x),
    ensures
        r == lo,
        lo * lo == x,
{
    if r < lo {
        lemma_square_grows(r, lo);
    }
    if r > lo {
        if r > lo + 1 {
            lemma_square_grows(lo + 1, r);
        }
    }
}

/// Above this number the square of an `i64` does not fit an `i64`.
pub const MAX_ROOT: i64 = 3037000499;

/// The integers have a root for the square numbers only.
impl Real for i64 {
    open spec fn sqrt_spec(self) -> Option<i64> {
        if exists|r: int| is_root(r, self as int) {
            Some((choose|r: int| is_root(r, self as int)) as i64)
        } else {
            None
        }
    }

    fn sqrt(self) -> (r: Option<i64>) {
        if self < 0 {
            assert forall|r: int| !is_root(r, self as int) by {
                assert(0 <= r ==> r * r >= 0) by (nonlinear_arith);
            }
            return None;
        }
        let mut lo: i64 = 0;
        let mut hi: i64 = MAX_ROOT + 1;
        while hi - lo > 1
            invariant
                0 <= lo < hi <= MAX_ROOT + 1,
                lo * lo <= self < hi * hi,
            decreases hi - lo,
        {
            let mid = lo + (hi - lo) / 2;
            proof {
                if mid < MAX_ROOT {
                    lemma_square_grows(mid as int, MAX_ROOT as int);
                }
                assert(MAX_ROOT * MAX_ROOT == 9223372030926249001int);
                assert(0 <= mid * mid) by (nonlinear_arith)
                    requires
                        0 <= mid,
                ;
            }
            if mid * mid <= self {
                lo = mid;
            } else {
                hi = mid;
            }
        }
        if lo * lo == self {
            assert(is_root(lo as int, self as int));
            proof {
                let r = choose|r: int| is_root(r, self as int);
                lemma_root_between(lo as int, self as int, r);
            }
            Some(lo)
        } else {
            assert forall|r: int| !is_root(r, self as int) by {
                if is_root(r, self as int) {
                    lemma_root_between(lo as int, self as int, r);
                }
            }
            None
        }
    }
}

} // verus!
