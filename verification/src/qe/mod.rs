//! Quantifier elimination: normal forms, the rules that eliminate a linear
//! variable, and the configuration of special-purpose rules.
pub mod constraints;
pub mod dispatch;
pub mod evaluate;
pub mod factor;
pub mod inequalities;
pub mod linear;
pub mod normalize;
pub mod simplify;
pub mod scope;
pub mod special;
pub mod symmetric;
