//! Dense matrices over ring-like element types: a small capability trait,
//! an owning row-major matrix, zero-copy views, and block-recursive
//! algorithms (multiply, inversion, Cholesky factorization) whose results are
//! stated against a mathematical model of a matrix.

pub mod error;
pub mod ring;
pub mod grid;
pub mod matrix;
pub mod views;
pub mod algorithms;
pub mod generate;
pub mod cholesky;
pub mod par;
pub mod algebra;
pub mod laws;
pub mod util;
