//! The kinds of cells of a decomposition and the errors of lifting.
use crate::cad::projection::ProjectionError;
use crate::polynomial::PolynomialEvaluationError;
use vstd::prelude::*;

verus! {

/// A cell of a one-dimensional decomposition: an open interval between
/// roots, or a root itself.
#[derive(Clone, Copy, Debug, PartialEq, Eq, Structural)]
pub enum CellKind {
    Sector,
    Section,
}

/// Why a formula could not be evaluated on a cell.
#[derive(Clone, Copy, Debug, PartialEq, Eq, Structural)]
pub enum FormulaEvaluationError {
    NonUnivariatePolynomial,
    QuantifierNotSupported,
    PolynomialEvaluation(PolynomialEvaluationError),
    AlgebraicRootSampleUnsupported,
}

/// Why a decomposition could not be lifted.
#[derive(Clone, Debug, PartialEq, Eq, Structural)]
pub enum LiftingError {
    Projection(ProjectionError),
    AlgebraicBaseSampleUnsupported,
    AlgebraicCoefficientRootUnsupported,
}

impl From<ProjectionError> for LiftingError {
    fn from(error: ProjectionError) -> (r: Self) {
        LiftingError::Projection(error)
    }
}

impl vstd::std_specs::convert::FromSpecImpl<ProjectionError> for LiftingError {
    open spec fn obeys_from_spec() -> bool {
        true
    }

    open spec fn from_spec(v: ProjectionError) -> Self {
        LiftingError::Projection(v)
    }
}

} // verus!
