//! Dense row-major matrices with verified construction, element access,
//! equality, matrix and scalar multiplication, and random generation.

pub mod arith;
pub mod matrix;
pub mod random;
pub mod text;

pub use crate::matrix::Matrix;
pub use crate::matrix::MatrixError;
