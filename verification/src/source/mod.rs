//! Where data comes from: files, tables and quantized blocks.
use vstd::prelude::*;

pub mod arrow_source;
pub mod block_fill;
pub mod csv_open;
pub mod csv_source;
pub mod csv_table;
pub mod dense;
pub mod glob;
pub mod input;
pub mod message;
pub mod refusal;
pub mod opening;
pub mod openprof;
pub mod parallel_reader;
pub mod parquet_source;
pub mod path;
pub mod predict_input;
pub mod predict_text;
pub mod schema;
pub mod table;

verus! {

/// How many workers read files when the caller does not say: zero, as many as fit the system.
pub const DEFAULT_INGEST_THREADS: usize = 0;

/// Divides a number of workers between decoding and what follows it. The two run at once, so
/// together they take no more than there are, but never less than one each. `effective` is the
/// number that zero stands for.
pub fn pipeline_threads(total: usize, effective: usize) -> (r: (usize, usize))
    ensures
        ({
            let n = if total == 0 {
                effective
            } else {
                total
            };
            if n <= 1 {
                r == (1usize, 1usize)
            } else {
                r.0 + r.1 == n && r.1 == n / 2
            }
        }),
{
    let n: usize = if total == 0 {
        effective
    } else {
        total
    };
    if n <= 1 {
        (1, 1)
    } else {
        (n - n / 2, n / 2)
    }
}

} // verus!
