//! The device backend: launch shapes, memory plans and device-side bookkeeping.
//!
//! Kernels add fixed-point integers, so any launch shape that takes every row and feature
//! once gives the same histogram. What is decided here is exactly that shape.
pub mod histogram;
pub mod partition;
pub mod batch;
pub mod settings;
pub mod train_ctx;
pub mod session;
pub mod span;
pub mod sums;
pub mod gradient;
pub mod inference;
pub mod message;
