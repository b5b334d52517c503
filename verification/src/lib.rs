//! A dense linear-algebra library: matrices and vectors over a pluggable
//! scalar type, with the classic reduction algorithms (row echelon form,
//! determinant, inverse, rank) and vector metrics (norms, dot and cross
//! product, cosine of the angle, linear combination).

pub mod error;
pub mod functions;
pub mod isqrt;
pub mod laws;
pub mod matrix;
pub mod reduce;
pub mod scalar;
pub mod scalar_int;
pub mod vector;

pub use error::LinAlgError;
pub use matrix::Matrix;
pub use scalar::Operations;
pub use vector::Vector;
