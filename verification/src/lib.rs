//! A minimal N-dimensional array library: shape/stride computation,
//! flat-index arithmetic, row-major range iteration, and element-wise
//! arithmetic over dense arrays, with machine-checked contracts.

pub mod indexing;
pub mod lemmas;
pub mod ops;
pub mod tensor;
