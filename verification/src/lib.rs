//! Exact symbolic building blocks for quantifier elimination over the reals.
//!
//! The crate provides exact rational coefficients, canonical multivariate
//! polynomials, univariate polynomials with division, Sturm sequences and
//! root isolation, quantified formula syntax with its text syntax,
//! Collins-style projection, and the rules around elimination: negation
//! normal form, the elimination of a variable that occurs linearly, the
//! distribution of a quantifier over Boolean branches, the dispatch that
//! eliminates nested quantifiers innermost first, the merging of sign
//! conditions, the configuration of special-purpose rules, and the command
//! line's options and reports.
pub mod algebra;
pub mod cad;
pub mod cli;
pub mod evaluation;
pub mod field;
pub mod formula;
pub mod monomial;
pub mod parser;
pub mod polynomial;
pub mod qe;
pub mod rational;
pub mod renaming;
pub mod variables;

pub use algebra::algebraic::AlgebraicReal;
pub use algebra::coefficient::ExactRealError;
pub use algebra::univariate::{RootInterval, UnivariatePolynomial};
pub use formula::{Atom, Formula, Quantifier, Relation, RenameError};
pub use monomial::{Monomial, Variable};
pub use parser::{parse_formula, parse_formula_with_names, ParseError, ParsedFormula};
pub use polynomial::{Polynomial, PolynomialEvaluationError, VariableNames};
pub use qe::evaluate::{
    eliminate, eliminate_with_stats, EliminationOptions, EliminationStats, QuantifierEvaluationError,
};
pub use qe::special::{SpecialHandlingConfig, SpecialRule};
pub use rational::Rational;
