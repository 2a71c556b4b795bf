//! Density matrices of systems of qubits, with every operation proved to compute
//! what its contract says.
//!
//! [`DensityMatrix`] is the type to use. Its entries are of any [`Scalar`] type.
//! The contracts of its methods are stated over the functions in [`matrix`]; what
//! holds of several operations together is proved in [`laws`].
pub mod binary;
pub mod bits;
pub mod density_matrix;
pub mod field9;
pub mod laws;
pub mod matrix;
pub mod operators;
pub mod parallel;
pub mod positions;
pub mod scalar;
pub mod sums;
pub mod tensor;
pub mod text;

pub use crate::density_matrix::{DensityMatrix, State};
pub use crate::operators::{Operator, TwoQubitsOp};
pub use crate::scalar::Scalar;
pub use crate::tensor::Tensor;
