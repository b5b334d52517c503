use vstd::prelude::*;

verus! {

/// The failure kinds shared by every fallible operation of the library.
#[derive(Clone, Copy, Debug, PartialEq, Eq, Structural)]
pub enum LinAlgError {
    /// Two operands do not have the same shape.
    ShapeMismatch,
    /// A square matrix was required.
    NotSquare,
    /// An operand does not have the dimension the operation needs.
    DimensionMismatch,
    /// Construction input does not describe a rectangular, non-empty matrix.
    MalformedInput,
    /// The matrix has no inverse.
    Singular,
    /// A scalar operation was applied outside its domain.
    InvalidScalarOperation,
}

impl LinAlgError {
    /// A short, stable description of the error kind.
    pub fn describe(&self) -> (r: &'static str)
        ensures
            r@ =~= match self {
                LinAlgError::ShapeMismatch => "shapes are incompatible"@,
                LinAlgError::NotSquare => "the matrix is not square"@,
                LinAlgError::DimensionMismatch => "the dimension is not supported"@,
                LinAlgError::MalformedInput => "the input does not describe a matrix"@,
                LinAlgError::Singular => "the matrix is singular"@,
                LinAlgError::InvalidScalarOperation => "the scalar operation is undefined here"@,
            },
    {
        match self {
            LinAlgError::ShapeMismatch => "shapes are incompatible",
            LinAlgError::NotSquare => "the matrix is not square",
            LinAlgError::DimensionMismatch => "the dimension is not supported",
            LinAlgError::MalformedInput => "the input does not describe a matrix",
            LinAlgError::Singular => "the matrix is singular",
            LinAlgError::InvalidScalarOperation => "the scalar operation is undefined here",
        }
    }
}

} // verus!
