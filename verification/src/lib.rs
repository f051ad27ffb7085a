//! Reverse-mode automatic differentiation over scalar computation graphs.
//!
//! Scalars are IEEE 754 single-precision values carried as their raw bit
//! patterns (`u32`); the arithmetic itself is performed by a software
//! floating-point implementation behind a small set of trusted wrappers,
//! while graph construction, topological ordering and the backward
//! gradient-propagation pass are verified.

pub mod bits;
pub mod engine;
pub mod nn;
pub mod laws;
pub mod adjoint;
