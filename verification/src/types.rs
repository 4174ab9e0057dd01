//! Scalar types and limits that every module shares.
use vstd::prelude::*;

verus! {

/// A quantized value: the index of a bin, or `MISSING_BIN`.
pub type Bin = u8;

/// A global feature number.
pub type FeatId = u32;

/// A row number.
pub type RowId = u32;

/// The bin of a missing value. No cut ever yields it.
pub const MISSING_BIN: u8 = 255;

/// The largest number of bins per feature: one bin code is taken by `MISSING_BIN`.
pub const MAX_BIN_LIMIT: u32 = 255;

/// What a model is trained for.
#[derive(Clone, Copy, Debug, PartialEq, Eq, Structural)]
pub enum Objective {
    SquaredError,
    Logistic,
}

/// How gradients are computed on a device.
#[derive(Clone, Copy, Debug, PartialEq, Eq, Structural)]
pub enum GpuMath {
    /// Gradients come from the host, bit for bit.
    Exact,
    /// Gradients are computed on the device.
    Fast,
}

/// Which side holds the current prediction margins.
#[derive(Clone, Copy, Debug, PartialEq, Eq, Structural)]
pub enum PredictionAuthority {
    Host,
    Device,
}

/// How the columns of an input are bound to the features of a model.
#[derive(Clone, Copy, Debug, PartialEq, Eq, Structural)]
pub enum SchemaMode {
    /// By column name, in any order.
    Named,
    /// By position.
    Positional,
}

} // verus!
