//! Ring-like value types: modular integers and fixed-size matrices.

pub mod matrix;
pub mod zn;

pub use matrix::Matrix;
pub use zn::Zn;
