//! Stable partition of a node's rows, and the bookkeeping of a level's row arena.
//!
//! A partition counts, per block of threads, the rows that go left; an exclusive scan turns
//! the counts into write positions; a scatter then writes every row to its place, in order.
use vstd::prelude::*;

use crate::columns::lemma_column_in_bounds;
use crate::float32::{value_of, F32};
use crate::hist::column_of;
use crate::math::{ceil_div, div_ceil_usize, imin, lemma_ceil_div, lemma_ceil_div_least, min_usize};
use crate::tree::Node;
use crate::types::{Bin, RowId, MISSING_BIN};

verus! {

/// Does a row with this bin go left? The split bin itself goes left; a missing value goes
/// where the split says.
pub open spec fn goes_left(bin: Bin, split_bin: u32, missing_left: bool) -> bool {
    if bin == MISSING_BIN {
        missing_left
    } else {
        bin <= split_bin
    }
}

/// Does the `k`-th row go left?
pub open spec fn row_goes_left(
    col: Seq<Bin>,
    rows: Seq<RowId>,
    split_bin: u32,
    missing_left: bool,
    k: int,
) -> bool {
    goes_left(col[rows[k] as int], split_bin, missing_left)
}

/// Those of the first `k` rows that go left, in order.
pub open spec fn left_rows(
    col: Seq<Bin>,
    rows: Seq<RowId>,
    split_bin: u32,
    missing_left: bool,
    k: int,
) -> Seq<RowId>
    decreases k,
{
    if k <= 0 {
        seq![]
    } else {
        let rest = left_rows(col, rows, split_bin, missing_left, k - 1);
        if row_goes_left(col, rows, split_bin, missing_left, k - 1) {
            rest.push(rows[k - 1])
        } else {
            rest
        }
    }
}

/// Those of the first `k` rows that go right, in order.
pub open spec fn right_rows(
    col: Seq<Bin>,
    rows: Seq<RowId>,
    split_bin: u32,
    missing_left: bool,
    k: int,
) -> Seq<RowId>
    decreases k,
{
    if k <= 0 {
        seq![]
    } else {
        let rest = right_rows(col, rows, split_bin, missing_left, k - 1);
        if row_goes_left(col, rows, split_bin, missing_left, k - 1) {
            rest
        } else {
            rest.push(rows[k - 1])
        }
    }
}

/// A split sends rows by their bins: on the left are rows whose bin is not above the split bin, on
/// the right rows whose bin is, and rows without a value are all on the one side that is asked for.
pub proof fn law_sides_have_their_bins(
    col: Seq<Bin>,
    rows: Seq<RowId>,
    split_bin: u32,
    missing_left: bool,
    k: int,
)
    requires
        0 <= k <= rows.len(),
    ensures
        forall|i: int|
            0 <= i < left_rows(col, rows, split_bin, missing_left, k).len() ==> {
                let b = col[#[trigger] left_rows(col, rows, split_bin, missing_left, k)[i] as int];
                (b == 255 && missing_left) || (b < 255 && b <= split_bin)
            },
        forall|i: int|
            0 <= i < right_rows(col, rows, split_bin, missing_left, k).len() ==> {
                let b = col[#[trigger] right_rows(col, rows, split_bin, missing_left, k)[i] as int];
                (b == 255 && !missing_left) || (b < 255 && b > split_bin)
            },
    decreases k,
{
    if k > 0 {
        law_sides_have_their_bins(col, rows, split_bin, missing_left, k - 1);
        let l = left_rows(col, rows, split_bin, missing_left, k);
        let r = right_rows(col, rows, split_bin, missing_left, k);
        let lb = left_rows(col, rows, split_bin, missing_left, k - 1);
        let rb = right_rows(col, rows, split_bin, missing_left, k - 1);
        assert forall|i: int| 0 <= i < l.len() implies {
            let b = col[#[trigger] l[i] as int];
            (b == 255 && missing_left) || (b < 255 && b <= split_bin)
        } by {
            if i < lb.len() {
                assert(l[i] == lb[i]);
            }
        }
        assert forall|i: int| 0 <= i < r.len() implies {
            let b = col[#[trigger] r[i] as int];
            (b == 255 && !missing_left) || (b < 255 && b > split_bin)
        } by {
            if i < rb.len() {
                assert(r[i] == rb[i]);
            }
        }
    }
}

/// Training and prediction agree: a row whose bin tells its value goes to the side to which a tree
/// sends the value itself, where the tree splits at the cut that ends the split bin and sends
/// missing values to the same side.
pub proof fn law_rows_go_where_the_tree_sends_them(
    cuts: Seq<F32>,
    bin: Bin,
    split_bin: u32,
    node: Node,
    row: Seq<F32>,
)
    requires
        crate::source::table::tells(cuts, row[node.feat as int], bin),
        forall|i: int| 0 <= i < cuts.len() ==> !(#[trigger] cuts[i]).nan(),
        split_bin < cuts.len(),
        node.split_cond == cuts[split_bin as int],
    ensures
        goes_left(bin, split_bin, node.default_left) == crate::tree::goes_left(node, row),
{
    let v = row[node.feat as int];
    crate::float32::law_what_is_not_a_number(v, v);
    if !v.nan() {
        assert(!cuts[split_bin as int].nan());
        crate::float32::law_order_is_that_of_the_values(v, cuts[split_bin as int]);
        assert(split_bin < bin <==> value_of(cuts[split_bin as int]) <= value_of(v));
    }
}

/// Left and right together are as many as there are rows, and both only grow.
pub proof fn lemma_side_lengths(
    col: Seq<Bin>,
    rows: Seq<RowId>,
    split_bin: u32,
    missing_left: bool,
    i: int,
    k: int,
)
    requires
        0 <= i <= k,
    ensures
        left_rows(col, rows, split_bin, missing_left, k).len() + right_rows(
            col,
            rows,
            split_bin,
            missing_left,
            k,
        ).len() == k,
        left_rows(col, rows, split_bin, missing_left, i).len() <= left_rows(
            col,
            rows,
            split_bin,
            missing_left,
            k,
        ).len() <= left_rows(col, rows, split_bin, missing_left, i).len() + (k - i),
    decreases k,
{
    if i < k {
        lemma_side_lengths(col, rows, split_bin, missing_left, i, k - 1);
    } else if k > 0 {
        lemma_side_lengths(col, rows, split_bin, missing_left, k - 1, k - 1);
    }
}

/// Why a partition is refused.
#[derive(Clone, Copy, Debug, PartialEq, Eq, Structural)]
pub enum PartitionError {
    /// The feature is not a column of the block.
    FeatureOutOfRange,
    /// The thread count is not a power of two in 1..=1024.
    Threads,
    /// A listed row does not exist.
    RowOutOfRange,
    /// The block has more rows than a 32-bit index holds.
    TooManyRows,
    /// More rows are listed than a 32-bit index holds.
    TooManyListed,
    /// The column does not have one bin per row.
    ColumnLength { len: usize, rows: usize },
    /// A span to partition reaches beyond the arena.
    SpanOutOfRange { offset: usize, len: usize },
    /// A span to read back reaches beyond the arena.
    RowsOutOfRange { offset: usize, len: usize },
    /// The span of a leaf reaches beyond the arena.
    LeafOutOfRange { offset: usize, len: usize },
    /// The level has no slot left for another node.
    LevelFull,
    /// The next level's arena is full.
    ArenaOverflow,
}

/// A power of two in 1..=1024.
pub open spec fn is_block_size(t: u32) -> bool {
    t == 1 || t == 2 || t == 4 || t == 8 || t == 16 || t == 32 || t == 64 || t == 128 || t == 256
        || t == 512 || t == 1024
}

/// Is it a power of two in 1..=1024?
pub fn block_size_ok(t: u32) -> (r: bool)
    ensures
        r == is_block_size(t),
{
    t == 1 || t == 2 || t == 4 || t == 8 || t == 16 || t == 32 || t == 64 || t == 128 || t == 256
        || t == 512 || t == 1024
}

/// How a partition was launched.
#[derive(Clone, Copy, Debug, PartialEq, Eq, Structural)]
pub struct PartitionProfile {
    pub threads_per_block: u32,
    pub blocks: u32,
}

/// All rows are among the first `n_rows`.
pub open spec fn rows_below(rows: Seq<RowId>, n_rows: int) -> bool {
    forall|k: int| 0 <= k < rows.len() ==> #[trigger] rows[k] < n_rows
}

/// Are all rows among the first `n_rows`?
pub fn all_rows_below(rows: &[RowId], n_rows: usize) -> (r: bool)
    ensures
        r == rows_below(rows@, n_rows as int),
{
    let mut k: usize = 0;
    while k < rows.len()
        invariant
            k <= rows@.len(),
            forall|q: int| 0 <= q < k ==> #[trigger] rows@[q] < n_rows,
        decreases rows.len() - k,
    {
        if rows[k] as usize >= n_rows {
            return false;
        }
        k += 1;
    }
    true
}

/// The check that a partition fails first, if any.
pub open spec fn partition_error(
    data_len: int,
    n_rows: int,
    feature: int,
    rows: Seq<RowId>,
    threads: u32,
) -> Option<PartitionError> {
    if n_rows == 0 || feature >= data_len / n_rows {
        Some(PartitionError::FeatureOutOfRange)
    } else if !is_block_size(threads) {
        Some(PartitionError::Threads)
    } else if rows.len() > 0 && !rows_below(rows, n_rows) {
        Some(PartitionError::RowOutOfRange)
    } else if rows.len() > 0 && n_rows > u32::MAX {
        Some(PartitionError::TooManyRows)
    } else if rows.len() > u32::MAX {
        Some(PartitionError::TooManyListed)
    } else {
        None
    }
}

/// The end of a block of rows.
pub open spec fn block_end(b: int, threads: int, n: int) -> int {
    imin(b * threads, n)
}

/// Counts, block by block, the rows that go left.
fn count_blocks(
    col: &[Bin],
    rows: &[RowId],
    split_bin: u32,
    missing_left: bool,
    threads: usize,
) -> (r: (Vec<bool>, Vec<usize>))
    requires
        threads > 0,
        rows_below(rows@, col@.len() as int),
    ensures
        r.0@.len() == rows@.len(),
        forall|k: int|
            0 <= k < rows@.len() ==> #[trigger] r.0@[k] == row_goes_left(
                col@,
                rows@,
                split_bin,
                missing_left,
                k,
            ),
        r.1@.len() == ceil_div(rows@.len() as int, threads as int),
        forall|b: int|
            0 <= b < r.1@.len() ==> #[trigger] r.1@[b] == left_rows(
                col@,
                rows@,
                split_bin,
                missing_left,
                block_end(b + 1, threads as int, rows@.len() as int),
            ).len() - left_rows(
                col@,
                rows@,
                split_bin,
                missing_left,
                block_end(b, threads as int, rows@.len() as int),
            ).len(),
{
    let n: usize = rows.len();
    let mut flags: Vec<bool> = Vec::new();
    let mut counts: Vec<usize> = Vec::new();
    let mut begin: usize = 0;
    proof {
        lemma_ceil_div(n as int, threads as int);
        assert(0 * threads == 0) by (nonlinear_arith);
    }
    while begin < n
        invariant
            threads > 0,
            n == rows@.len(),
            rows_below(rows@, col@.len() as int),
            begin == block_end(counts@.len() as int, threads as int, n as int),
            begin < n ==> begin == counts@.len() * threads,
            counts@.len() <= ceil_div(n as int, threads as int),
            begin == n ==> counts@.len() == ceil_div(n as int, threads as int),
            flags@.len() == begin,
            forall|k: int|
                0 <= k < begin ==> #[trigger] flags@[k] == row_goes_left(
                    col@,
                    rows@,
                    split_bin,
                    missing_left,
                    k,
                ),
            forall|b: int|
                0 <= b < counts@.len() ==> #[trigger] counts@[b] == left_rows(
                    col@,
                    rows@,
                    split_bin,
                    missing_left,
                    block_end(b + 1, threads as int, n as int),
                ).len() - left_rows(
                    col@,
                    rows@,
                    split_bin,
                    missing_left,
                    block_end(b, threads as int, n as int),
                ).len(),
        decreases n - begin,
    {
        let end: usize = begin + min_usize(threads, n - begin);
        let mut count: usize = 0;
        let mut k: usize = begin;
        while k < end
            invariant
                n == rows@.len(),
                rows_below(rows@, col@.len() as int),
                begin <= k <= end <= n,
                flags@.len() == k,
                forall|q: int|
                    0 <= q < k ==> #[trigger] flags@[q] == row_goes_left(
                        col@,
                        rows@,
                        split_bin,
                        missing_left,
                        q,
                    ),
                count == left_rows(col@, rows@, split_bin, missing_left, k as int).len()
                    - left_rows(col@, rows@, split_bin, missing_left, begin as int).len(),
                count <= k - begin,
            decreases end - k,
        {
            let bin: Bin = col[rows[k] as usize];
            let left: bool = if bin == MISSING_BIN {
                missing_left
            } else {
                bin as u32 <= split_bin
            };
            flags.push(left);
            if left {
                count += 1;
            }
            k += 1;
        }
        let ghost b = counts@.len() as int;
        proof {
            let t = threads as int;
            assert((b + 1) * t == b * t + t) by (nonlinear_arith);
            lemma_ceil_div_least(n as int, t, b);
            lemma_ceil_div_least(n as int, t, b + 1);
        }
        counts.push(count);
        begin = end;
    }
    (flags, counts)
}

/// Turns the counts into the positions at which each block writes, with the totals last.
fn scan_blocks(
    counts: &[usize],
    n: usize,
    threads: usize,
    Ghost(col): Ghost<Seq<Bin>>,
    Ghost(rows): Ghost<Seq<RowId>>,
    Ghost(split_bin): Ghost<u32>,
    Ghost(missing_left): Ghost<bool>,
) -> (r: (Vec<usize>, Vec<usize>))
    requires
        threads > 0,
        n == rows.len(),
        counts@.len() == ceil_div(n as int, threads as int),
        forall|b: int|
            0 <= b < counts@.len() ==> #[trigger] counts@[b] == left_rows(
                col,
                rows,
                split_bin,
                missing_left,
                block_end(b + 1, threads as int, n as int),
            ).len() - left_rows(
                col,
                rows,
                split_bin,
                missing_left,
                block_end(b, threads as int, n as int),
            ).len(),
    ensures
        r.0@.len() == counts@.len() + 1,
        r.1@.len() == counts@.len() + 1,
        forall|b: int|
            0 <= b <= counts@.len() ==> #[trigger] r.0@[b] == left_rows(
                col,
                rows,
                split_bin,
                missing_left,
                block_end(b, threads as int, n as int),
            ).len(),
        forall|b: int|
            0 <= b <= counts@.len() ==> #[trigger] r.1@[b] == right_rows(
                col,
                rows,
                split_bin,
                missing_left,
                block_end(b, threads as int, n as int),
            ).len(),
{
    let mut left: Vec<usize> = Vec::new();
    let mut right: Vec<usize> = Vec::new();
    left.push(0);
    right.push(0);
    proof {
        assert(0 * threads == 0) by (nonlinear_arith);
        assert(block_end(0, threads as int, n as int) == 0);
    }
    let mut b: usize = 0;
    let mut begin: usize = 0;
    while b < counts.len()
        invariant
            threads > 0,
            n == rows.len(),
            b <= counts@.len(),
            begin == block_end(b as int, threads as int, n as int),
            b < counts@.len() ==> begin == b * threads,
            counts@.len() == ceil_div(n as int, threads as int),
            forall|q: int|
                0 <= q < counts@.len() ==> #[trigger] counts@[q] == left_rows(
                    col,
                    rows,
                    split_bin,
                    missing_left,
                    block_end(q + 1, threads as int, n as int),
                ).len() - left_rows(
                    col,
                    rows,
                    split_bin,
                    missing_left,
                    block_end(q, threads as int, n as int),
                ).len(),
            left@.len() == b + 1,
            right@.len() == b + 1,
            forall|q: int|
                0 <= q <= b ==> #[trigger] left@[q] == left_rows(
                    col,
                    rows,
                    split_bin,
                    missing_left,
                    block_end(q, threads as int, n as int),
                ).len(),
            forall|q: int|
                0 <= q <= b ==> #[trigger] right@[q] == right_rows(
                    col,
                    rows,
                    split_bin,
                    missing_left,
                    block_end(q, threads as int, n as int),
                ).len(),
        decreases counts.len() - b,
    {
        let end: usize = begin + min_usize(threads, n - begin);
        proof {
            let t = threads as int;
            assert((b + 1) * t == b * t + t) by (nonlinear_arith);
            lemma_ceil_div_least(n as int, t, b as int);
            lemma_ceil_div_least(n as int, t, b + 1);
            assert(end == block_end(b + 1, t, n as int));
            lemma_side_lengths(col, rows, split_bin, missing_left, begin as int, end as int);
            lemma_side_lengths(col, rows, split_bin, missing_left, begin as int, begin as int);
        }
        let c: usize = counts[b];
        let l: usize = left[b] + c;
        let r: usize = right[b] + ((end - begin) - c);
        left.push(l);
        right.push(r);
        begin = end;
        b += 1;
    }
    (left, right)
}

/// What is launched for a partition.
#[derive(Clone, Copy, Debug, PartialEq, Eq, Structural)]
pub struct PartitionPlan {
    /// Where the column starts in the block.
    pub column_start: usize,
    /// Blocks of threads; none where there is no row.
    pub blocks: u32,
}

/// Checks the inputs of a partition and plans its launches.
pub fn plan_partition(
    data_len: usize,
    block_n_rows: usize,
    feature: usize,
    rows: &[RowId],
    threads_per_block: u32,
) -> (r: Result<PartitionPlan, PartitionError>)
    ensures
        match partition_error(
            data_len as int,
            block_n_rows as int,
            feature as int,
            rows@,
            threads_per_block,
        ) {
            Some(e) => r == Err::<PartitionPlan, PartitionError>(e),
            None => r matches Ok(p) && {
                &&& p.column_start == feature * block_n_rows
                &&& p.column_start + block_n_rows <= data_len
                &&& p.blocks == ceil_div(rows@.len() as int, threads_per_block as int)
            },
        },
{
    if block_n_rows == 0 || feature >= data_len / block_n_rows {
        return Err(PartitionError::FeatureOutOfRange);
    }
    if !block_size_ok(threads_per_block) {
        return Err(PartitionError::Threads);
    }
    let n: usize = rows.len();
    let threads: usize = threads_per_block as usize;
    proof {
        let cols = data_len as int / block_n_rows as int;
        vstd::arithmetic::div_mod::lemma_fundamental_div_mod(data_len as int, block_n_rows as int);
        lemma_column_in_bounds(feature as int, cols, block_n_rows as int);
        assert(cols * block_n_rows == block_n_rows * cols) by (nonlinear_arith);
        lemma_ceil_div(n as int, threads as int);
    }
    let column_start: usize = feature * block_n_rows;
    if n == 0 {
        return Ok(PartitionPlan { column_start, blocks: 0 });
    }
    if !all_rows_below(rows, block_n_rows) {
        return Err(PartitionError::RowOutOfRange);
    }
    if block_n_rows > 0xffff_ffff {
        return Err(PartitionError::TooManyRows);
    }
    if n > 0xffff_ffff {
        return Err(PartitionError::TooManyListed);
    }
    proof {
        lemma_ceil_div_least(n as int, threads as int, n as int);
        assert(n * threads >= n) by (nonlinear_arith)
            requires
                n >= 0,
                threads >= 1,
        ;
    }
    let blocks: usize = div_ceil_usize(n, threads);
    Ok(PartitionPlan { column_start, blocks: blocks as u32 })
}

/// Distributes rows to left and right by one quantized feature, in order, with the layout of
/// the device kernels.
pub fn partition_rows_gpu_with_profile(
    block_data: &[Bin],
    block_n_rows: usize,
    feature: usize,
    rows: &[RowId],
    split_bin: u32,
    missing_left: bool,
    threads_per_block: u32,
) -> (r: Result<((Vec<RowId>, Vec<RowId>), PartitionProfile), PartitionError>)
    ensures
        match partition_error(
            block_data@.len() as int,
            block_n_rows as int,
            feature as int,
            rows@,
            threads_per_block,
        ) {
            Some(e) => r == Err::<((Vec<RowId>, Vec<RowId>), PartitionProfile), PartitionError>(e),
            None => r matches Ok(((left, right), profile)) && {
                let col = column_of(block_data@, block_n_rows as int, feature as int);
                let n = rows@.len() as int;
                &&& left@ == left_rows(col, rows@, split_bin, missing_left, n)
                &&& right@ == right_rows(col, rows@, split_bin, missing_left, n)
                &&& profile.threads_per_block == threads_per_block
                &&& profile.blocks == ceil_div(n, threads_per_block as int)
            },
        },
{
    let plan: PartitionPlan = match plan_partition(
        block_data.len(),
        block_n_rows,
        feature,
        rows,
        threads_per_block,
    ) {
        Err(e) => {
            return Err(e);
        },
        Ok(plan) => plan,
    };
    let n: usize = rows.len();
    let threads: usize = threads_per_block as usize;
    proof {
        lemma_ceil_div(n as int, threads as int);
    }
    if n == 0 {
        return Ok(
            ((Vec::new(), Vec::new()), PartitionProfile { threads_per_block, blocks: 0 }),
        );
    }
    let col: &[Bin] = vstd::slice::slice_subrange(
        block_data,
        plan.column_start,
        plan.column_start + block_n_rows,
    );
    assert(col@ =~= column_of(block_data@, block_n_rows as int, feature as int));
    let (flags, counts): (Vec<bool>, Vec<usize>) = count_blocks(
        col,
        rows,
        split_bin,
        missing_left,
        threads,
    );
    let (left_off, right_off): (Vec<usize>, Vec<usize>) = scan_blocks(
        counts.as_slice(),
        n,
        threads,
        Ghost(col@),
        Ghost(rows@),
        Ghost(split_bin),
        Ghost(missing_left),
    );
    let n_blocks: usize = counts.len();
    let total_left: usize = left_off[n_blocks];
    proof {
        let t = threads as int;
        lemma_ceil_div_least(n as int, t, n_blocks as int);
        assert(block_end(n_blocks as int, t, n as int) == n);
        lemma_side_lengths(col@, rows@, split_bin, missing_left, 0, n as int);
    }
    let mut out: Vec<RowId> = Vec::new();
    let mut k: usize = 0;
    while k < n
        invariant
            k <= n,
            out@.len() == k,
        decreases n - k,
    {
        out.push(0);
        k += 1;
    }
    let mut b: usize = 0;
    let mut begin: usize = 0;
    while b < n_blocks
        invariant
            n == rows@.len(),
            threads > 0,
            b <= n_blocks,
            n_blocks == ceil_div(n as int, threads as int),
            begin == block_end(b as int, threads as int, n as int),
            b < n_blocks ==> begin == b * threads,
            out@.len() == n,
            flags@.len() == n,
            left_off@.len() == n_blocks + 1,
            right_off@.len() == n_blocks + 1,
            total_left == left_rows(col@, rows@, split_bin, missing_left, n as int).len(),
            forall|q: int|
                0 <= q < n ==> #[trigger] flags@[q] == row_goes_left(
                    col@,
                    rows@,
                    split_bin,
                    missing_left,
                    q,
                ),
            forall|q: int|
                0 <= q <= n_blocks ==> #[trigger] left_off@[q] == left_rows(
                    col@,
                    rows@,
                    split_bin,
                    missing_left,
                    block_end(q, threads as int, n as int),
                ).len(),
            forall|q: int|
                0 <= q <= n_blocks ==> #[trigger] right_off@[q] == right_rows(
                    col@,
                    rows@,
                    split_bin,
                    missing_left,
                    block_end(q, threads as int, n as int),
                ).len(),
            scattered(out@, col@, rows@, split_bin, missing_left, total_left as int, begin as int),
        decreases n_blocks - b,
    {
        let end: usize = begin + min_usize(threads, n - begin);
        let mut l: usize = left_off[b];
        let mut r: usize = right_off[b];
        let mut k: usize = begin;
        while k < end
            invariant
                n == rows@.len(),
                begin <= k <= end <= n,
                out@.len() == n,
                flags@.len() == n,
                total_left == left_rows(col@, rows@, split_bin, missing_left, n as int).len(),
                forall|q: int|
                    0 <= q < n ==> #[trigger] flags@[q] == row_goes_left(
                        col@,
                        rows@,
                        split_bin,
                        missing_left,
                        q,
                    ),
                l == left_rows(col@, rows@, split_bin, missing_left, k as int).len(),
                r == right_rows(col@, rows@, split_bin, missing_left, k as int).len(),
                scattered(out@, col@, rows@, split_bin, missing_left, total_left as int, k as int),
            decreases end - k,
        {
            proof {
                lemma_side_lengths(col@, rows@, split_bin, missing_left, k + 1, n as int);
                lemma_side_lengths(col@, rows@, split_bin, missing_left, k as int, k + 1);
                lemma_side_lengths(col@, rows@, split_bin, missing_left, k as int, k as int);
            }
            if flags[k] {
                out.set(l, rows[k]);
                l += 1;
            } else {
                out.set(total_left + r, rows[k]);
                r += 1;
            }
            k += 1;
        }
        proof {
            let t = threads as int;
            assert((b + 1) * t == b * t + t) by (nonlinear_arith);
            lemma_ceil_div_least(n as int, t, b + 1);
        }
        begin = end;
        b += 1;
    }
    proof {
        lemma_side_lengths(col@, rows@, split_bin, missing_left, 0, n as int);
        assert(begin == n);
    }
    let ghost whole = out@;
    let right: Vec<RowId> = out.split_off(total_left);
    proof {
        assert(out@ =~= left_rows(col@, rows@, split_bin, missing_left, n as int));
        assert(right@ =~= right_rows(col@, rows@, split_bin, missing_left, n as int));
    }
    Ok(((out, right), PartitionProfile { threads_per_block, blocks: n_blocks as u32 }))
}

/// The first `k` rows have been written: left rows from the front, right rows from
/// `total_left` on.
pub open spec fn scattered(
    out: Seq<RowId>,
    col: Seq<Bin>,
    rows: Seq<RowId>,
    split_bin: u32,
    missing_left: bool,
    total_left: int,
    k: int,
) -> bool {
    let left = left_rows(col, rows, split_bin, missing_left, k);
    let right = right_rows(col, rows, split_bin, missing_left, k);
    &&& forall|p: int| 0 <= p < left.len() ==> #[trigger] out[p] == left[p]
    &&& forall|p: int|
        total_left <= p < total_left + right.len() ==> #[trigger] out[p] == right[p - total_left]
}

/// Distributes rows to left and right by one quantized feature, in order.
pub fn partition_rows_gpu(
    block_data: &[Bin],
    block_n_rows: usize,
    feature: usize,
    rows: &[RowId],
    split_bin: u32,
    missing_left: bool,
    threads_per_block: u32,
) -> (r: Result<(Vec<RowId>, Vec<RowId>), PartitionError>)
    ensures
        match partition_error(
            block_data@.len() as int,
            block_n_rows as int,
            feature as int,
            rows@,
            threads_per_block,
        ) {
            Some(e) => r == Err::<(Vec<RowId>, Vec<RowId>), PartitionError>(e),
            None => r matches Ok((left, right)) && {
                let col = column_of(block_data@, block_n_rows as int, feature as int);
                let n = rows@.len() as int;
                &&& left@ == left_rows(col, rows@, split_bin, missing_left, n)
                &&& right@ == right_rows(col, rows@, split_bin, missing_left, n)
            },
        },
{
    match partition_rows_gpu_with_profile(
        block_data,
        block_n_rows,
        feature,
        rows,
        split_bin,
        missing_left,
        threads_per_block,
    ) {
        Ok((sides, _profile)) => Ok(sides),
        Err(e) => Err(e),
    }
}

/// Every row goes to exactly one side.
pub proof fn law_partition_keeps_every_row(
    col: Seq<Bin>,
    rows: Seq<RowId>,
    split_bin: u32,
    missing_left: bool,
    k: int,
)
    requires
        0 <= k <= rows.len(),
    ensures
        (left_rows(col, rows, split_bin, missing_left, k) + right_rows(
            col,
            rows,
            split_bin,
            missing_left,
            k,
        )).to_multiset() =~= rows.take(k).to_multiset(),
    decreases k,
{
    broadcast use vstd::seq_lib::group_to_multiset_ensures;

    let left = left_rows(col, rows, split_bin, missing_left, k);
    let right = right_rows(col, rows, split_bin, missing_left, k);
    if k == 0 {
        assert(left + right =~= rows.take(0));
    } else {
        law_partition_keeps_every_row(col, rows, split_bin, missing_left, k - 1);
        let l = left_rows(col, rows, split_bin, missing_left, k - 1);
        let r = right_rows(col, rows, split_bin, missing_left, k - 1);
        let row = rows[k - 1];
        assert(rows.take(k) =~= rows.take(k - 1).push(row));
        if row_goes_left(col, rows, split_bin, missing_left, k - 1) {
            vstd::seq_lib::lemma_multiset_commutative(l.push(row), r);
            vstd::seq_lib::lemma_multiset_commutative(l, r);
            assert((l + r).push(row).to_multiset() =~= (l + r).to_multiset().insert(row));
            assert((l.push(row) + r).to_multiset() =~= l.push(row).to_multiset().add(
                r.to_multiset(),
            ));
            assert((l + r).to_multiset() =~= l.to_multiset().add(r.to_multiset()));
        } else {
            assert(l + r.push(row) =~= (l + r).push(row));
        }
    }
}

/// A sequence `s` in which every item of `part` appears in the order of `part`: position
/// `p` of `part` comes from position `at[p]` of `s`.
pub open spec fn drawn_from(part: Seq<RowId>, s: Seq<RowId>, at: Seq<int>) -> bool {
    &&& at.len() == part.len()
    &&& forall|p: int|
        0 <= p < at.len() ==> 0 <= #[trigger] at[p] < s.len() && s[at[p]] == part[p]
    &&& forall|p: int, q: int| 0 <= p < q < at.len() ==> at[p] < at[q]
}

/// Each side keeps the order of the rows, and a side holds exactly the rows that go there.
pub proof fn law_partition_is_stable(
    col: Seq<Bin>,
    rows: Seq<RowId>,
    split_bin: u32,
    missing_left: bool,
    k: int,
) -> (at: (Seq<int>, Seq<int>))
    requires
        0 <= k <= rows.len(),
    ensures
        drawn_from(left_rows(col, rows, split_bin, missing_left, k), rows.take(k), at.0),
        drawn_from(right_rows(col, rows, split_bin, missing_left, k), rows.take(k), at.1),
        forall|p: int|
            0 <= p < at.0.len() ==> row_goes_left(
                col,
                rows,
                split_bin,
                missing_left,
                #[trigger] at.0[p],
            ),
        forall|p: int|
            0 <= p < at.1.len() ==> !row_goes_left(
                col,
                rows,
                split_bin,
                missing_left,
                #[trigger] at.1[p],
            ),
    decreases k,
{
    if k == 0 {
        (seq![], seq![])
    } else {
        let prev = law_partition_is_stable(col, rows, split_bin, missing_left, k - 1);
        assert(forall|i: int| 0 <= i < k - 1 ==> rows.take(k)[i] == rows.take(k - 1)[i]);
        if row_goes_left(col, rows, split_bin, missing_left, k - 1) {
            (prev.0.push(k - 1), prev.1)
        } else {
            (prev.0, prev.1.push(k - 1))
        }
    }
}

/// A contiguous range of rows in a level's arena.
#[derive(Clone, Copy, Debug, PartialEq, Eq, Structural)]
pub struct GpuRowSpan {
    pub offset: usize,
    pub len: usize,
}

impl GpuRowSpan {
    /// The span lies within the first `n` rows.
    pub open spec fn within(self, n: int) -> bool {
        self.offset + self.len <= n
    }

    /// Does the span lie within the first `n` rows?
    pub fn fits(&self, n: usize) -> (r: bool)
        ensures
            r == self.within(n as int),
    {
        self.len <= n && self.offset <= n - self.len
    }
}

/// A partition that was launched and whose side counts are not known yet.
#[derive(Clone, Copy, Debug, PartialEq, Eq, Structural)]
pub struct PendingPartition {
    /// Where its rows start in the next level's arena.
    pub out_offset: usize,
    /// How many rows it has, both sides together.
    pub n_selected: usize,
}

/// The most nodes that one level may have.
pub const MAX_LEVEL_NODES: usize = 8192;

/// Bookkeeping of the arena that the partitions of one level fill.
pub struct PartitionArena {
    pub n_rows: usize,
    /// Where the next partition writes.
    pub cursor: usize,
    pub pending: Vec<PendingPartition>,
}

/// What to launch for a partition.
#[derive(Clone, Copy, Debug, PartialEq, Eq, Structural)]
pub struct PartitionLaunch {
    /// The number under which the partition is resolved.
    pub token: usize,
    /// Where the rows are written; nothing is launched for an empty node.
    pub out_offset: usize,
    /// Blocks of the count and scatter launches.
    pub blocks: usize,
}

/// The rows of the first `k` pending partitions together.
pub open spec fn pending_rows(pending: Seq<PendingPartition>, k: int) -> int
    decreases k,
{
    if k <= 0 {
        0
    } else {
        pending_rows(pending, k - 1) + pending[k - 1].n_selected
    }
}

proof fn lemma_pending_prefix(a: Seq<PendingPartition>, b: Seq<PendingPartition>, k: int)
    requires
        0 <= k <= a.len(),
        k <= b.len(),
        forall|i: int| 0 <= i < k ==> a[i] == b[i],
    ensures
        pending_rows(a, k) == pending_rows(b, k),
    decreases k,
{
    if k > 0 {
        lemma_pending_prefix(a, b, k - 1);
    }
}

impl PartitionArena {
    /// Partitions with rows write one after the other, and the arena holds them.
    pub open spec fn wf(&self) -> bool {
        &&& self.pending.len() <= MAX_LEVEL_NODES
        &&& self.cursor == pending_rows(self.pending@, self.pending@.len() as int)
        &&& self.cursor <= self.n_rows
        &&& forall|i: int|
            0 <= i < self.pending@.len() && (#[trigger] self.pending@[i]).n_selected > 0
                ==> self.pending@[i].out_offset == pending_rows(self.pending@, i)
    }

    /// An arena for `n_rows` rows.
    pub fn new(n_rows: usize) -> (a: PartitionArena)
        ensures
            a.wf(),
            a.n_rows == n_rows,
            a.cursor == 0,
            a.pending@.len() == 0,
    {
        PartitionArena { n_rows, cursor: 0, pending: Vec::new() }
    }

    /// A tree starts with all rows in one span.
    pub fn begin_tree_rows(&mut self) -> (span: GpuRowSpan)
        ensures
            final(self).wf(),
            final(self).n_rows == old(self).n_rows,
            final(self).pending@.len() == 0,
            final(self).cursor == 0,
            span == (GpuRowSpan { offset: 0, len: old(self).n_rows }),
    {
        self.cursor = 0;
        self.pending = Vec::new();
        GpuRowSpan { offset: 0, len: self.n_rows }
    }

    /// The check that a partition of `span` fails first, if any.
    pub open spec fn spec_error(&self, span: GpuRowSpan) -> Option<PartitionError> {
        if span.len > 0 && !span.within(self.n_rows as int) {
            Some(PartitionError::SpanOutOfRange { offset: span.offset, len: span.len })
        } else if self.pending@.len() >= MAX_LEVEL_NODES {
            Some(PartitionError::LevelFull)
        } else if span.len > 0 && self.cursor + span.len > self.n_rows {
            Some(PartitionError::ArenaOverflow)
        } else {
            None
        }
    }

    /// Registers the partition of a span. Its rows go behind those of the partitions before
    /// it; an empty span takes no room.
    pub fn partition(&mut self, span: GpuRowSpan, threads: u32) -> (r: Result<
        PartitionLaunch,
        PartitionError,
    >)
        requires
            old(self).wf(),
            threads > 0,
        ensures
            final(self).wf(),
            final(self).n_rows == old(self).n_rows,
            match old(self).spec_error(span) {
                Some(e) => r == Err::<PartitionLaunch, PartitionError>(e) && *final(self) == *old(
                    self,
                ),
                None => {
                    let at = if span.len == 0 {
                        span.offset
                    } else {
                        old(self).cursor
                    };
                    &&& r matches Ok(launch) && launch.token == old(self).pending@.len()
                        && launch.out_offset == at && launch.blocks == ceil_div(
                        span.len as int,
                        threads as int,
                    )
                    &&& final(self).pending@ == old(self).pending@.push(
                        PendingPartition { out_offset: at, n_selected: span.len },
                    )
                    &&& final(self).cursor == old(self).cursor + span.len
                },
            },
    {
        let token: usize = self.pending.len();
        proof {
            lemma_ceil_div(span.len as int, threads as int);
        }
        if span.len > 0 && !span.fits(self.n_rows) {
            return Err(PartitionError::SpanOutOfRange { offset: span.offset, len: span.len });
        }
        if token >= MAX_LEVEL_NODES {
            return Err(PartitionError::LevelFull);
        }
        if span.len > 0 && span.len > self.n_rows - self.cursor {
            return Err(PartitionError::ArenaOverflow);
        }
        let at: usize = if span.len == 0 {
            span.offset
        } else {
            self.cursor
        };
        let ghost before = self.pending@;
        self.pending.push(PendingPartition { out_offset: at, n_selected: span.len });
        self.cursor = self.cursor + span.len;
        proof {
            let n = before.len() as int;
            lemma_pending_prefix(before, self.pending@, n);
            assert forall|i: int|
                0 <= i < self.pending@.len() && (#[trigger] self.pending@[i]).n_selected
                    > 0 implies self.pending@[i].out_offset == pending_rows(self.pending@, i) by {
                lemma_pending_prefix(before, self.pending@, i);
                if i < n {
                    assert(before[i].n_selected > 0);
                }
            }
        }
        Ok(PartitionLaunch { token, out_offset: at, blocks: div_ceil_usize(span.len, threads as usize) })
    }

    /// The spans of the `i`-th partition, given its side counts.
    pub open spec fn spec_children(
        &self,
        totals: Seq<u32>,
        i: int,
    ) -> (GpuRowSpan, GpuRowSpan) {
        let p = self.pending@[i];
        if p.n_selected == 0 {
            let empty = GpuRowSpan { offset: p.out_offset, len: 0 };
            (empty, empty)
        } else {
            (
                GpuRowSpan { offset: p.out_offset, len: totals[2 * i] as usize },
                GpuRowSpan {
                    offset: (p.out_offset + totals[2 * i]) as usize,
                    len: totals[2 * i + 1] as usize,
                },
            )
        }
    }

    /// The counts of both sides are those of the partitions.
    pub open spec fn totals_ok(&self, totals: Seq<u32>) -> bool {
        &&& totals.len() >= 2 * self.pending@.len()
        &&& forall|i: int|
            0 <= i < self.pending@.len() && (#[trigger] self.pending@[i]).n_selected > 0
                ==> totals[2 * i] + totals[2 * i + 1] == self.pending@[i].n_selected
    }

    /// Turns the side counts of a level into the spans of the next level's nodes.
    pub fn resolve_partitions(&self, totals: &[u32]) -> (r: Vec<(GpuRowSpan, GpuRowSpan)>)
        requires
            self.wf(),
            self.totals_ok(totals@),
        ensures
            r@.len() == self.pending@.len(),
            forall|i: int| 0 <= i < r@.len() ==> #[trigger] r@[i] == self.spec_children(totals@, i),
    {
        let n: usize = self.pending.len();
        let mut out: Vec<(GpuRowSpan, GpuRowSpan)> = Vec::new();
        let mut i: usize = 0;
        while i < n
            invariant
                self.wf(),
                self.totals_ok(totals@),
                n == self.pending@.len(),
                i <= n,
                out@.len() == i,
                forall|k: int| 0 <= k < i ==> #[trigger] out@[k] == self.spec_children(totals@, k),
            decreases n - i,
        {
            let p: PendingPartition = self.pending[i];
            if p.n_selected == 0 {
                let empty: GpuRowSpan = GpuRowSpan { offset: p.out_offset, len: 0 };
                out.push((empty, empty));
            } else {
                let left: usize = totals[2 * i] as usize;
                let right: usize = totals[2 * i + 1] as usize;
                proof {
                    lemma_pending_bound(self.pending@, i as int, n as int);
                }
                out.push(
                    (
                        GpuRowSpan { offset: p.out_offset, len: left },
                        GpuRowSpan { offset: p.out_offset + left, len: right },
                    ),
                );
            }
            i += 1;
        }
        out
    }

    /// The next level's arena becomes the current one.
    pub fn finish_partition_level(&mut self)
        ensures
            final(self).wf(),
            final(self).n_rows == old(self).n_rows,
            final(self).cursor == 0,
            final(self).pending@.len() == 0,
    {
        self.cursor = 0;
        self.pending = Vec::new();
    }
}

proof fn lemma_pending_bound(pending: Seq<PendingPartition>, i: int, n: int)
    requires
        0 <= i < n <= pending.len(),
    ensures
        0 <= pending_rows(pending, i),
        pending_rows(pending, i) + pending[i].n_selected <= pending_rows(pending, n),
    decreases n,
{
    if n == i + 1 {
        lemma_pending_nonnegative(pending, i);
    } else {
        lemma_pending_bound(pending, i, n - 1);
    }
}

proof fn lemma_pending_nonnegative(pending: Seq<PendingPartition>, k: int)
    ensures
        0 <= pending_rows(pending, k),
    decreases k,
{
    if k > 0 {
        lemma_pending_nonnegative(pending, k - 1);
    }
}

/// The children of a level lie within the arena, left before right, and those of different
/// partitions do not overlap.
pub proof fn law_children_spans_are_disjoint(
    arena: PartitionArena,
    totals: Seq<u32>,
    i: int,
    j: int,
)
    requires
        arena.wf(),
        arena.totals_ok(totals),
        0 <= i < j < arena.pending@.len(),
        arena.pending@[i].n_selected > 0,
        arena.pending@[j].n_selected > 0,
    ensures
        ({
            let (li, ri) = arena.spec_children(totals, i);
            let (lj, rj) = arena.spec_children(totals, j);
            &&& li.offset + li.len == ri.offset
            &&& ri.offset + ri.len <= lj.offset
            &&& lj.offset + lj.len == rj.offset
            &&& rj.offset + rj.len <= arena.cursor
        }),
{
    let n = arena.pending@.len() as int;
    lemma_pending_bound(arena.pending@, i, j);
    lemma_pending_bound(arena.pending@, i, n);
    lemma_pending_bound(arena.pending@, j, n);
}

} // verus!
