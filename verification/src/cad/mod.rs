//! Cylindrical algebraic decomposition: projection and the cells of lifting.
pub mod elimination;
pub mod lifting;
pub mod projection;
