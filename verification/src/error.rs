//! The ways in which an operation of the scheme can fail.

use vstd::prelude::*;

verus! {

/// Why an operation was refused.
#[derive(Clone, Copy, Debug, PartialEq, Eq, Structural)]
pub enum KzgError {
    /// A polynomial exceeds the degree bound of the reference string, or the
    /// numbers of points and values differ.
    InvalidInput,
    /// The denominator of a division has no usable leading coefficient.
    DivisionByZeroPolynomial,
    /// Two evaluation points coincide.
    DuplicateEvaluationPoint,
    /// A byte string is not the encoding of any value.
    SerializationError,
}

impl KzgError {
    /// The description of each failure.
    pub open spec fn text(self) -> Seq<char> {
        match self {
            KzgError::InvalidInput => "invalid input"@,
            KzgError::DivisionByZeroPolynomial => "cannot divide by zero polynomial"@,
            KzgError::DuplicateEvaluationPoint => "duplicate evaluation point"@,
            KzgError::SerializationError => "malformed encoding"@,
        }
    }

    /// A short description of the failure.
    pub fn message(&self) -> (s: &'static str)
        ensures
            s@ == self.text(),
    {
        match self {
            KzgError::InvalidInput => "invalid input",
            KzgError::DivisionByZeroPolynomial => "cannot divide by zero polynomial",
            KzgError::DuplicateEvaluationPoint => "duplicate evaluation point",
            KzgError::SerializationError => "malformed encoding",
        }
    }
}

} // verus!
