//! Failures of the operations in this library.

use vstd::prelude::*;

verus! {

/// Why an operation was refused.
#[derive(Clone, Debug, PartialEq, Eq)]
pub enum OperationError {
    /// A block without fusion-tree labels where one with labels is needed.
    ExpectedFusionTreeBlock { tensor: &'static str, index: usize },
    /// Two shapes that have to agree do not.
    ShapeMismatch { dst: Vec<usize>, src: Vec<usize> },
    /// A tensor has another number of legs than stated.
    RankMismatch { expected: usize, actual: usize },
    /// A buffer has another length than its space asks for.
    DimensionMismatch { expected: usize, actual: usize },
    /// A range of elements does not lie in its buffer, or has another length.
    ElementCountMismatch { expected: usize, actual: usize },
    /// A number of elements does not fit.
    ElementCountOverflow,
    /// The layout does not allow the operation.
    UnsupportedTensorContractScope { message: &'static str },
    /// An argument lies outside the operation's domain.
    InvalidArgument { message: &'static str },
    /// A space was admitted without a fusion rule.
    MissingFusionRuleIdentity,
    /// Two spaces belong to different fusion rules.
    FusionRuleMismatch { expected: usize, actual: usize },
    /// A tensor's space is not the one that the operation needs.
    StructureMismatch { tensor: &'static str },
    /// The dense backend failed.
    Dense(DenseError),
}

/// Failures at the dense boundary.
#[derive(Clone, Debug, PartialEq, Eq)]
pub enum DenseError {
    /// A number of elements does not fit.
    ElementCountOverflow,
    /// What a backend reports, or what is wrong with its answer.
    Backend { backend: DenseBackend, op: &'static str, message: String },
}

/// The backend that a report is about.
#[derive(Clone, Copy, Debug, PartialEq, Eq)]
pub enum DenseBackend {
    Tenferro,
}

/// The refusal of a layout.
pub(crate) fn unsupported(message: &'static str) -> (error: OperationError)
    ensures
        error == (OperationError::UnsupportedTensorContractScope { message }),
{
    OperationError::UnsupportedTensorContractScope { message }
}

} // verus!
