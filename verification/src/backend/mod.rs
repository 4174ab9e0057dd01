//! Compute backends.
pub mod cuda;
