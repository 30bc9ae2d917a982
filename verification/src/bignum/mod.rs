//! Own arbitrary-precision arithmetic: fixed-point numbers in base 10^4.

pub mod balanced;
pub mod fixed;
