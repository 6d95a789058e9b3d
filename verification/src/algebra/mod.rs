//! Exact real arithmetic support.
pub mod algebraic;
pub mod coefficient;
pub mod horner;
pub mod univariate;
