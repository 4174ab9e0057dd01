//! Histogram-based gradient boosting: the parts of the library whose behaviour is
//! decided by integers, byte strings and orderings, each with a proved contract.
pub mod backend;
pub mod callback;
pub mod colsample;
pub mod columns;
pub mod comm;
pub mod float32;
pub mod gpu_mem_plan;
pub mod hist;
pub mod inference;
pub mod job;
pub mod math;
pub mod metrics;
pub mod parallel;
pub mod report;
pub mod sketch;
pub mod source;
pub mod text;
pub mod tree;
pub mod types;
