//! What holds of the operations together.
//!
//! The laws of one operation after another need arithmetic without rounding:
//! they are stated for every `ExactScalar`.
pub mod algebra;
pub mod calls;
pub mod evolution;
pub mod expectation;
pub mod gates;
pub mod linear;
pub mod locality;
pub mod partial_trace;
pub mod pure;
pub mod states;
pub mod subsystems;
pub mod successive;
