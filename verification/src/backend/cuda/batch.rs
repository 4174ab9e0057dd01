//! One launch for several nodes: which block of threads works on which node.
use vstd::prelude::*;

use crate::backend::cuda::histogram::{
    feature_fits, feature_tiles, is_tiling, span_bins, FeatureTile,
};
use crate::backend::cuda::partition::GpuRowSpan;
use crate::hist::{monotone, GradPairFixed};
use crate::math::{ceil_div, div_ceil_usize, imax, lemma_ceil_div, lemma_ceil_div_least, max_usize};

verus! {

/// Rows that each thread of a batched launch takes.
pub const ROWS_PER_THREAD: usize = 4;

/// Why a batch is refused.
#[derive(Clone, Copy, Debug, PartialEq, Eq, Structural)]
pub enum BatchError {
    /// There is not one output per span.
    OutputCount { spans: usize, outs: usize },
    /// The batched kernels are not loaded.
    Unavailable,
    /// More nodes than the batch holds.
    TooManyNodes { nodes: usize, capacity: usize },
    /// A span reaches beyond the rows.
    SpanOutOfRange { offset: usize, len: usize },
    /// More blocks of threads than a 32-bit grid holds.
    GridTooLarge,
}

/// The block table of a batch: blocks `blk_ptr[i] .. blk_ptr[i + 1]` work on node `i`,
/// whose rows are `node_off[i] .. node_off[i] + node_len[i]`.
pub struct BatchIndex {
    pub blk_ptr: Vec<u32>,
    pub node_off: Vec<u32>,
    pub node_len: Vec<u32>,
}

/// The blocks of the first `k` nodes together.
pub open spec fn blocks_before(spans: Seq<GpuRowSpan>, rows_per_block: int, k: int) -> int
    decreases k,
{
    if k <= 0 {
        0
    } else {
        blocks_before(spans, rows_per_block, k - 1) + ceil_div(
            spans[k - 1].len as int,
            rows_per_block,
        )
    }
}

impl BatchIndex {
    /// The table belongs to these spans.
    pub open spec fn describes(&self, spans: Seq<GpuRowSpan>, rows_per_block: int) -> bool {
        &&& self.blk_ptr@.len() == spans.len() + 1
        &&& self.node_off@.len() == spans.len()
        &&& self.node_len@.len() == spans.len()
        &&& forall|i: int|
            0 <= i <= spans.len() ==> #[trigger] self.blk_ptr@[i] == blocks_before(
                spans,
                rows_per_block,
                i,
            )
        &&& forall|i: int| 0 <= i < spans.len() ==> #[trigger] self.node_off@[i] == spans[i].offset
        &&& forall|i: int| 0 <= i < spans.len() ==> #[trigger] self.node_len@[i] == spans[i].len
    }

    /// The table as one array: block starts, then offsets, then lengths.
    pub fn packed(&self) -> (r: Vec<u32>)
        ensures
            r@ == self.blk_ptr@ + self.node_off@ + self.node_len@,
    {
        let mut r: Vec<u32> = Vec::new();
        push_all(&mut r, self.blk_ptr.as_slice());
        push_all(&mut r, self.node_off.as_slice());
        push_all(&mut r, self.node_len.as_slice());
        r
    }
}

fn push_all(v: &mut Vec<u32>, s: &[u32])
    ensures
        final(v)@ == old(v)@ + s@,
{
    let ghost before = v@;
    let mut i: usize = 0;
    while i < s.len()
        invariant
            i <= s@.len(),
            v@ == before + s@.take(i as int),
        decreases s.len() - i,
    {
        v.push(s[i]);
        assert(s@.take(i + 1) =~= s@.take(i as int).push(s@[i as int]));
        i += 1;
    }
    assert(s@.take(i as int) =~= s@);
}

/// All spans lie within the rows.
pub open spec fn spans_within(spans: Seq<GpuRowSpan>, n_rows: int) -> bool {
    forall|i: int| 0 <= i < spans.len() ==> (#[trigger] spans[i]).within(n_rows)
}

/// The check that a batch fails, if any; the first span out of range is the one reported.
pub open spec fn is_batch_error(
    spans: Seq<GpuRowSpan>,
    n_outs: int,
    available: bool,
    capacity: int,
    n_rows: int,
    rows_per_block: int,
    n_hist: int,
    e: BatchError,
) -> bool {
    if spans.len() != n_outs {
        e == BatchError::OutputCount { spans: spans.len() as usize, outs: n_outs as usize }
    } else if !available {
        e == BatchError::Unavailable
    } else if spans.len() > capacity {
        e == BatchError::TooManyNodes { nodes: spans.len() as usize, capacity: capacity as usize }
    } else if !spans_within(spans, n_rows) {
        exists|i: int|
            {
                &&& 0 <= i < spans.len()
                &&& !(#[trigger] spans[i]).within(n_rows)
                &&& forall|j: int| 0 <= j < i ==> (#[trigger] spans[j]).within(n_rows)
                &&& e == BatchError::SpanOutOfRange { offset: spans[i].offset, len: spans[i].len }
            }
    } else {
        n_hist > 0 && blocks_before(spans, rows_per_block, spans.len() as int) > u32::MAX && e
            == BatchError::GridTooLarge
    }
}

proof fn lemma_blocks_monotone(spans: Seq<GpuRowSpan>, rows_per_block: int, i: int, j: int)
    requires
        0 <= i <= j <= spans.len(),
        rows_per_block > 0,
    ensures
        0 <= blocks_before(spans, rows_per_block, i) <= blocks_before(spans, rows_per_block, j),
    decreases j,
{
    if i < j {
        lemma_blocks_monotone(spans, rows_per_block, i, j - 1);
        lemma_ceil_div(spans[j - 1].len as int, rows_per_block);
    } else if i > 0 {
        lemma_blocks_monotone(spans, rows_per_block, i - 1, i - 1);
        lemma_ceil_div(spans[i - 1].len as int, rows_per_block);
    }
}

/// Builds the block table of a batch. Nothing is to be launched where there are no bins, no
/// nodes or no rows.
pub fn batch_index(
    spans: &[GpuRowSpan],
    n_outs: usize,
    available: bool,
    capacity: usize,
    n_rows: usize,
    threads_per_block: u32,
    n_hist: usize,
) -> (r: Result<Option<BatchIndex>, BatchError>)
    requires
        1 <= threads_per_block <= 1024,
        n_rows <= u32::MAX,
    ensures
        ({
            let per_block = threads_per_block as int * 4;
            let total = blocks_before(spans@, per_block, spans@.len() as int);
            let ok = spans@.len() == n_outs && available && spans@.len() <= capacity
                && spans_within(spans@, n_rows as int) && (n_hist == 0 || total <= u32::MAX);
            match r {
                Ok(None) => ok && (n_hist == 0 || total == 0),
                Ok(Some(index)) => ok && n_hist > 0 && total > 0 && index.describes(
                    spans@,
                    per_block,
                ),
                Err(e) => !ok && is_batch_error(
                    spans@,
                    n_outs as int,
                    available,
                    capacity as int,
                    n_rows as int,
                    per_block,
                    n_hist as int,
                    e,
                ),
            }
        }),
{
    let n: usize = spans.len();
    if n != n_outs {
        return Err(BatchError::OutputCount { spans: n, outs: n_outs });
    }
    if !available {
        return Err(BatchError::Unavailable);
    }
    if n > capacity {
        return Err(BatchError::TooManyNodes { nodes: n, capacity });
    }
    match first_span_out_of_range(spans, n_rows) {
        Some(i) => {
            return Err(BatchError::SpanOutOfRange { offset: spans[i].offset, len: spans[i].len });
        },
        None => {},
    }
    if n_hist == 0 || n == 0 {
        return Ok(None);
    }
    let rows_per_block: usize = threads_per_block as usize * ROWS_PER_THREAD;
    let mut blk_ptr: Vec<u32> = Vec::new();
    let mut node_off: Vec<u32> = Vec::new();
    let mut node_len: Vec<u32> = Vec::new();
    let mut total: u32 = 0;
    blk_ptr.push(0);
    let mut i: usize = 0;
    while i < n
        invariant
            n == spans@.len(),
            i <= n,
            n_rows <= u32::MAX,
            rows_per_block > 0,
            rows_per_block == threads_per_block as int * 4,
            spans_within(spans@, n_rows as int),
            total == blocks_before(spans@, rows_per_block as int, i as int),
            blk_ptr@.len() == i + 1,
            node_off@.len() == i,
            node_len@.len() == i,
            forall|k: int|
                0 <= k <= i ==> #[trigger] blk_ptr@[k] == blocks_before(
                    spans@,
                    rows_per_block as int,
                    k,
                ),
            forall|k: int| 0 <= k < i ==> #[trigger] node_off@[k] == spans@[k].offset,
            forall|k: int| 0 <= k < i ==> #[trigger] node_len@[k] == spans@[k].len,
            n == n_outs,
            available,
            n <= capacity,
            n_hist > 0,
        decreases n - i,
    {
        let span: GpuRowSpan = spans[i];
        assert(spans@[i as int].within(n_rows as int));
        let blocks: usize = div_ceil_usize(span.len, rows_per_block);
        proof {
            lemma_ceil_div(span.len as int, rows_per_block as int);
        }
        match total.checked_add(blocks as u32) {
            Some(t) => {
                total = t;
            },
            None => {
                proof {
                    lemma_blocks_monotone(spans@, rows_per_block as int, i + 1, n as int);
                }
                return Err(BatchError::GridTooLarge);
            },
        }
        blk_ptr.push(total);
        node_off.push(span.offset as u32);
        node_len.push(span.len as u32);
        i += 1;
    }
    if total == 0 {
        return Ok(None);
    }
    Ok(Some(BatchIndex { blk_ptr, node_off, node_len }))
}

fn first_span_out_of_range(spans: &[GpuRowSpan], n_rows: usize) -> (r: Option<usize>)
    ensures
        match r {
            None => spans_within(spans@, n_rows as int),
            Some(i) => i < spans@.len() && !spans@[i as int].within(n_rows as int) && forall|j: int|
                0 <= j < i ==> (#[trigger] spans@[j]).within(n_rows as int),
        },
{
    let mut i: usize = 0;
    while i < spans.len()
        invariant
            i <= spans@.len(),
            forall|j: int| 0 <= j < i ==> (#[trigger] spans@[j]).within(n_rows as int),
        decreases spans.len() - i,
    {
        if !spans[i].fits(n_rows) {
            return Some(i);
        }
        i += 1;
    }
    None
}

/// The rows, counted within its node, that a block works on.
pub open spec fn block_rows(index: BatchIndex, node: int, block: int, rows_per_block: int) -> (
    int,
    int,
) {
    let first = (block - index.blk_ptr@[node]) * rows_per_block;
    (
        first,
        if first + rows_per_block <= index.node_len@[node] {
            first + rows_per_block
        } else {
            index.node_len@[node] as int
        },
    )
}

/// Each row of each node belongs to exactly one block of the launch: the one that its
/// number within the node gives.
pub proof fn law_batch_takes_every_row_once(
    index: BatchIndex,
    spans: Seq<GpuRowSpan>,
    rows_per_block: int,
    node: int,
    row: int,
)
    requires
        rows_per_block > 0,
        index.describes(spans, rows_per_block),
        0 <= node < spans.len(),
        0 <= row < spans[node].len,
    ensures
        ({
            let block = index.blk_ptr@[node] + row / rows_per_block;
            &&& index.blk_ptr@[node] <= block < index.blk_ptr@[node + 1]
            &&& block_rows(index, node, block, rows_per_block).0 <= row < block_rows(
                index,
                node,
                block,
                rows_per_block,
            ).1
            &&& forall|other: int|
                index.blk_ptr@[node] <= other < index.blk_ptr@[node + 1] && (#[trigger] block_rows(
                    index,
                    node,
                    other,
                    rows_per_block,
                )).0 <= row < block_rows(index, node, other, rows_per_block).1 ==> other == block
        }),
{
    let q = row / rows_per_block;
    let len = spans[node].len as int;
    vstd::arithmetic::div_mod::lemma_fundamental_div_mod(row, rows_per_block);
    assert(rows_per_block * q == q * rows_per_block) by (nonlinear_arith);
    assert(q >= 0) by (nonlinear_arith)
        requires
            row == rows_per_block * q + row % rows_per_block,
            row % rows_per_block < rows_per_block,
            row >= 0,
            rows_per_block > 0,
    ;
    lemma_ceil_div_least(len, rows_per_block, q);
    assert(index.blk_ptr@[node + 1] == index.blk_ptr@[node] + ceil_div(len, rows_per_block));
    let block = index.blk_ptr@[node] + q;
    assert(block_rows(index, node, block, rows_per_block).0 == q * rows_per_block);
    assert forall|other: int|
        index.blk_ptr@[node] <= other < index.blk_ptr@[node + 1] && (#[trigger] block_rows(
            index,
            node,
            other,
            rows_per_block,
        )).0 <= row < block_rows(index, node, other, rows_per_block).1 implies other == block by {
        let p = other - index.blk_ptr@[node];
        let rem = row - p * rows_per_block;
        vstd::arithmetic::div_mod::lemma_fundamental_div_mod_converse(row, rows_per_block, p, rem);
    }
}

/// Blocks of different nodes are different.
pub proof fn law_blocks_of_nodes_are_disjoint(
    index: BatchIndex,
    spans: Seq<GpuRowSpan>,
    rows_per_block: int,
    a: int,
    b: int,
)
    requires
        rows_per_block > 0,
        index.describes(spans, rows_per_block),
        0 <= a < b < spans.len(),
    ensures
        index.blk_ptr@[a + 1] <= index.blk_ptr@[b],
{
    lemma_blocks_monotone(spans, rows_per_block, a + 1, b);
}

/// The bins of the widest of the first `k` tiles.
pub open spec fn widest_tile(tiles: Seq<FeatureTile>, offsets: Seq<u32>, k: int) -> int
    decreases k,
{
    if k <= 0 {
        0
    } else {
        imax(
            widest_tile(tiles, offsets, k - 1),
            span_bins(offsets, tiles[k - 1].begin as int, tiles[k - 1].end as int),
        )
    }
}

/// The shared memory that a launch over all tiles needs: that of its widest tile.
pub fn max_tile_bins(feat_offsets: &[u32], n_feats: usize, max_bins: usize) -> (r: usize)
    requires
        feat_offsets@.len() == n_feats + 1,
        monotone(feat_offsets@),
        forall|f: int|
            0 <= f < n_feats ==> #[trigger] feature_fits(feat_offsets@, max_bins as int, f),
    ensures
        r <= max_bins,
        exists|tiles: Seq<FeatureTile>|
            #[trigger] is_tiling(
                tiles,
                feat_offsets@,
                n_feats as int,
                max_bins as int,
                n_feats as int,
            ) && r == widest_tile(tiles, feat_offsets@, tiles.len() as int),
{
    match feature_tiles(feat_offsets, n_feats, max_bins) {
        Ok(tiles) => {
            let mut widest: usize = 0;
            let mut i: usize = 0;
            while i < tiles.len()
                invariant
                    i <= tiles@.len(),
                    feat_offsets@.len() == n_feats + 1,
                    monotone(feat_offsets@),
                    is_tiling(
                        tiles@,
                        feat_offsets@,
                        n_feats as int,
                        max_bins as int,
                        n_feats as int,
                    ),
                    widest == widest_tile(tiles@, feat_offsets@, i as int),
                    widest <= max_bins,
                decreases tiles.len() - i,
            {
                let tile: FeatureTile = tiles[i];
                assert(tiles@[i as int].begin < tiles@[i as int].end <= n_feats);
                assert(feat_offsets@[tile.begin as int] <= feat_offsets@[tile.end as int]);
                let bins: usize = feat_offsets[tile.end] as usize - feat_offsets[tile.begin]
                    as usize;
                widest = max_usize(widest, bins);
                i += 1;
            }
            widest
        },
        Err(_) => 0,
    }
}

/// Pairs of words as gradient pairs.
pub open spec fn is_unpacked(words: Seq<i64>, pairs: Seq<GradPairFixed>) -> bool {
    &&& pairs.len() == words.len() / 2
    &&& forall|i: int|
        0 <= i < pairs.len() ==> (#[trigger] pairs[i]).grad == words[2 * i] && pairs[i].hess
            == words[2 * i + 1]
}

/// Reads interleaved words as gradient pairs.
pub fn unpack_pairs(words: &[i64]) -> (r: Vec<GradPairFixed>)
    ensures
        is_unpacked(words@, r@),
{
    let len: usize = words.len();
    let n: usize = len / 2;
    let mut r: Vec<GradPairFixed> = Vec::new();
    let mut i: usize = 0;
    while i < n
        invariant
            len == words@.len(),
            n == len / 2,
            i <= n,
            r@.len() == i,
            forall|k: int|
                0 <= k < i ==> (#[trigger] r@[k]).grad == words@[2 * k] && r@[k].hess == words@[2
                    * k + 1],
        decreases n - i,
    {
        r.push(GradPairFixed { grad: words[2 * i], hess: words[2 * i + 1] });
        i += 1;
    }
    r
}

/// Writes gradient pairs as interleaved words.
pub fn pack_pairs(pairs: &[GradPairFixed]) -> (r: Vec<i64>)
    requires
        pairs@.len() <= usize::MAX / 2,
    ensures
        r@.len() == 2 * pairs@.len(),
        is_unpacked(r@, pairs@),
{
    let mut r: Vec<i64> = Vec::new();
    let mut i: usize = 0;
    while i < pairs.len()
        invariant
            i <= pairs@.len(),
            r@.len() == 2 * i,
            forall|k: int|
                0 <= k < i ==> r@[2 * k] == (#[trigger] pairs@[k]).grad && r@[2 * k + 1]
                    == pairs@[k].hess,
        decreases pairs.len() - i,
    {
        r.push(pairs[i].grad);
        r.push(pairs[i].hess);
        i += 1;
    }
    r
}

/// Unpacking what was packed gives the pairs back.
pub proof fn law_unpack_inverts_pack(
    pairs: Seq<GradPairFixed>,
    words: Seq<i64>,
    back: Seq<GradPairFixed>,
)
    requires
        is_unpacked(words, pairs),
        is_unpacked(words, back),
    ensures
        back == pairs,
{
    assert(back =~= pairs);
}

/// The words of one node in a batch result of `n_hist` bins per node.
pub open spec fn node_words(words: Seq<i64>, n_hist: int, node: int) -> Seq<i64> {
    words.subrange(node * (2 * n_hist), node * (2 * n_hist) + 2 * n_hist)
}

/// Splits a batch result into one histogram per node.
pub fn unpack_batch(words: &[i64], n_hist: usize, n_nodes: usize) -> (r: Vec<Vec<GradPairFixed>>)
    requires
        n_hist <= usize::MAX / 2,
        words@.len() == n_nodes * (2 * n_hist),
    ensures
        r@.len() == n_nodes,
        forall|i: int|
            0 <= i < n_nodes ==> #[trigger] is_unpacked(node_words(words@, n_hist as int, i), r@[i]@),
{
    let stride: usize = 2 * n_hist;
    let len: usize = words.len();
    let mut r: Vec<Vec<GradPairFixed>> = Vec::new();
    let mut i: usize = 0;
    while i < n_nodes
        invariant
            i <= n_nodes,
            stride == 2 * n_hist,
            len == words@.len(),
            len == n_nodes * stride,
            r@.len() == i,
            forall|k: int|
                0 <= k < i ==> #[trigger] is_unpacked(
                    node_words(words@, n_hist as int, k),
                    r@[k]@,
                ),
        decreases n_nodes - i,
    {
        proof {
            crate::columns::lemma_column_in_bounds(i as int, n_nodes as int, stride as int);
        }
        let part: &[i64] = vstd::slice::slice_subrange(words, i * stride, i * stride + stride);
        r.push(unpack_pairs(part));
        i += 1;
    }
    r
}

} // verus!
