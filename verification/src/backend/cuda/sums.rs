//! What launches add up to: the sums of the pieces that a launch is cut into are the sum of the
//! node, however it was cut. Sums are exact, so the order of the pieces does not matter.
use vstd::prelude::*;

use crate::backend::cuda::batch::{block_rows, BatchIndex};
use crate::backend::cuda::histogram::{
    covers_rows, law_row_plan_takes_every_row_once, law_tiles_take_every_feature_once, row_plan,
    FeatureTile, RowLaunch,
};
use crate::backend::cuda::partition::GpuRowSpan;
use crate::backend::cuda::span::{is_span_plan, is_tiled_plan, SpanLaunch, SpanPlan};
use crate::backend::cuda::train_ctx::GpuTrainCtx;
use crate::hist::{
    bin_sum, column_of, is_histogram, law_histogram_is_determined, lemma_bin_sum_concat, monotone,
    GradPairFixed, PairSum,
};
use crate::math::{ceil_div, imin, lemma_ceil_div, lemma_ceil_div_least};
use crate::types::Bin;

verus! {

/// What the rows at the positions `from .. to` of an arena add to a bin.
pub open spec fn piece_sum(
    col: Seq<Bin>,
    gpair: Seq<GradPairFixed>,
    arena: Seq<int>,
    from: int,
    to: int,
    bin: int,
) -> PairSum {
    bin_sum(col, gpair, arena.subrange(from, to), bin, to - from)
}

proof fn lemma_pieces_join(
    col: Seq<Bin>,
    gpair: Seq<GradPairFixed>,
    arena: Seq<int>,
    from: int,
    mid: int,
    to: int,
    bin: int,
)
    requires
        0 <= from <= mid <= to <= arena.len(),
    ensures
        piece_sum(col, gpair, arena, from, to, bin) == piece_sum(
            col,
            gpair,
            arena,
            from,
            mid,
            bin,
        ).plus(piece_sum(col, gpair, arena, mid, to, bin)),
{
    let a = arena.subrange(from, mid);
    let b = arena.subrange(mid, to);
    assert(arena.subrange(from, to) =~= a + b);
    lemma_bin_sum_concat(col, gpair, a, b, bin);
}

/// What the first `k` launches of a node add to a bin of a feature.
pub open spec fn launch_sums(
    launches: Seq<SpanLaunch>,
    feat: int,
    col: Seq<Bin>,
    gpair: Seq<GradPairFixed>,
    arena: Seq<int>,
    bin: int,
    k: int,
) -> PairSum
    decreases k,
{
    if k <= 0 {
        PairSum::zero()
    } else {
        let l = launches[k - 1];
        let rest = launch_sums(launches, feat, col, gpair, arena, bin, k - 1);
        if l.feats.begin <= feat < l.feats.end {
            rest.plus(
                piece_sum(
                    col,
                    gpair,
                    arena,
                    l.first_row as int,
                    l.first_row + l.rows,
                    bin,
                ),
            )
        } else {
            rest
        }
    }
}

/// Where the first `q` row launches end.
spec fn ends(rows: Seq<RowLaunch>, q: int) -> int {
    if q <= 0 {
        0
    } else {
        rows[q - 1].begin + rows[q - 1].rows
    }
}

proof fn lemma_ends_climb(rows: Seq<RowLaunch>, n: int, threads: int, q: int)
    requires
        covers_rows(rows, n, threads),
        0 <= q < rows.len(),
    ensures
        ends(rows, q) == rows[q].begin,
        ends(rows, rows.len() as int) == n,
        ends(rows, q + 1) <= n,
    decreases rows.len() - q,
{
    if q > 0 {
        assert(rows[q - 1].begin + rows[q - 1].rows == rows[q].begin);
    }
    assert(rows.last() == rows[rows.len() - 1]);
    if q + 1 < rows.len() {
        lemma_ends_climb(rows, n, threads, q + 1);
        assert(rows[q].begin + rows[q].rows == rows[q + 1].begin);
    }
}

/// How many of the first `k` launches, in rounds of `m`, belong to round `t`.
spec fn in_round(k: int, m: int, t: int) -> int {
    if k <= t * m {
        0
    } else {
        imin(k - t * m, m)
    }
}

proof fn lemma_tiled_sums(
    launches: Seq<SpanLaunch>,
    rows: Seq<RowLaunch>,
    tiles: Seq<FeatureTile>,
    span: GpuRowSpan,
    threads: int,
    t: int,
    feat: int,
    col: Seq<Bin>,
    gpair: Seq<GradPairFixed>,
    arena: Seq<int>,
    bin: int,
    k: int,
)
    requires
        covers_rows(rows, span.len as int, threads),
        rows.len() > 0,
        0 <= t < tiles.len(),
        tiles[t].begin <= feat < tiles[t].end,
        forall|i: int, j: int|
            0 <= i < j < tiles.len() ==> (#[trigger] tiles[i]).end <= (#[trigger] tiles[j]).begin,
        launches.len() == tiles.len() * rows.len(),
        forall|i: int|
            0 <= i < launches.len() ==> {
                let m = rows.len() as int;
                &&& (#[trigger] launches[i]).first_row == span.offset + rows[i % m].begin
                &&& launches[i].rows == rows[i % m].rows
                &&& launches[i].feats == tiles[i / m]
            },
        span.offset + span.len <= arena.len(),
        0 <= k <= launches.len(),
    ensures
        launch_sums(launches, feat, col, gpair, arena, bin, k) == piece_sum(
            col,
            gpair,
            arena,
            span.offset as int,
            span.offset + ends(rows, in_round(k, rows.len() as int, t)),
            bin,
        ),
    decreases k,
{
    let m = rows.len() as int;
    let start = span.offset as int;
    assert(0 <= t * m) by (nonlinear_arith)
        requires
            0 <= t,
            0 < m,
    ;
    if k > 0 {
        lemma_tiled_sums(
            launches,
            rows,
            tiles,
            span,
            threads,
            t,
            feat,
            col,
            gpair,
            arena,
            bin,
            k - 1,
        );
        let i = k - 1;
        let ti = i / m;
        let b = i % m;
        vstd::arithmetic::div_mod::lemma_fundamental_div_mod(i, m);
        assert(0 <= ti < tiles.len()) by (nonlinear_arith)
            requires
                0 <= i < tiles.len() * m,
                i == m * ti + b,
                0 <= b < m,
        ;
        assert(m * ti == ti * m) by (nonlinear_arith);
        if ti == t {
            lemma_ends_climb(rows, span.len as int, threads, b);
            lemma_pieces_join(
                col,
                gpair,
                arena,
                start,
                start + ends(rows, b),
                start + ends(rows, b + 1),
                bin,
            );
        } else if ti < t {
            assert(tiles[ti].end <= tiles[t].begin);
            assert(ti * m + m <= t * m) by (nonlinear_arith)
                requires
                    ti + 1 <= t,
                    0 < m,
            ;
        } else {
            assert(tiles[t].end <= tiles[ti].begin);
            assert(t * m + m <= ti * m) by (nonlinear_arith)
                requires
                    t + 1 <= ti,
                    0 < m,
            ;
        }
    }
}

/// The launches of a node add to each bin what its rows add, whichever kernels are used.
pub proof fn law_launches_add_up_to_the_node(
    ctx: GpuTrainCtx,
    offsets: Seq<u32>,
    span: GpuRowSpan,
    plan: SpanPlan,
    feat: int,
    col: Seq<Bin>,
    gpair: Seq<GradPairFixed>,
    arena: Seq<int>,
    bin: int,
)
    requires
        ctx.wf(),
        offsets.len() >= 1,
        offsets.len() - 1 <= usize::MAX,
        arena.len() == ctx.shape.n_rows,
        span.within(ctx.shape.n_rows as int),
        span.len > 0,
        is_span_plan(ctx, offsets, span, plan),
        0 <= feat < offsets.len() - 1,
    ensures
        launch_sums(
            plan.launches@,
            feat,
            col,
            gpair,
            arena,
            bin,
            plan.launches@.len() as int,
        ) == piece_sum(
            col,
            gpair,
            arena,
            span.offset as int,
            span.offset + span.len,
            bin,
        ),
{
    let threads = ctx.config.threads_per_block as int;
    let n = offsets.len() - 1;
    let len = span.len as int;
    assert(len / threads <= len) by (nonlinear_arith)
        requires
            threads >= 1,
            len >= 0,
    ;
    let rows = row_plan(len, threads, ctx.choices.fused);
    law_row_plan_takes_every_row_once(len, threads, ctx.choices.fused);
    let m = rows.len() as int;
    lemma_ends_climb(rows, len, threads, 0);
    let tiles = choose|tiles: Seq<FeatureTile>|
        #[trigger] is_tiled_plan(ctx, offsets, span, tiles, plan);
    let ls = plan.launches@;
    assert forall|i: int| 0 <= i < m implies (#[trigger] rows[i]).begin + rows[i].rows <= len by {
        lemma_ends_climb(rows, len, threads, i);
    }
    if ctx.choices.fused {
        let whole = seq![FeatureTile { begin: 0, end: n as usize }];
        assert forall|i: int| 0 <= i < ls.len() implies {
            &&& (#[trigger] ls[i]).first_row == span.offset + rows[i % m].begin
            &&& ls[i].rows == rows[i % m].rows
            &&& ls[i].feats == whole[i / m]
        } by {
            vstd::arithmetic::div_mod::lemma_small_mod(i as nat, m as nat);
            vstd::arithmetic::div_mod::lemma_basic_div(i, m);
            assert(rows[i].begin + rows[i].rows <= len);
        }
        assert(1 * m == m) by (nonlinear_arith);
        lemma_tiled_sums(ls, rows, whole, span, threads, 0, feat, col, gpair, arena, bin, m);
        assert(0 * m == 0) by (nonlinear_arith);
    } else {
        law_tiles_take_every_feature_once(
            tiles,
            offsets,
            n,
            ctx.choices.max_bins_per_tile as int,
            feat,
        );
        let t = choose|t: int|
            0 <= t < tiles.len() && (#[trigger] tiles[t]).begin <= feat < tiles[t].end;
        assert forall|i: int| 0 <= i < ls.len() implies {
            &&& (#[trigger] ls[i]).first_row == span.offset + rows[i % m].begin
            &&& ls[i].rows == rows[i % m].rows
            &&& ls[i].feats == tiles[i / m]
        } by {
            vstd::arithmetic::div_mod::lemma_mod_bound(i, m);
            assert(rows[i % m].begin + rows[i % m].rows <= len);
        }
        let k = ls.len() as int;
        lemma_tiled_sums(ls, rows, tiles, span, threads, t, feat, col, gpair, arena, bin, k);
        assert(t * m + m <= k) by (nonlinear_arith)
            requires
                0 <= t < tiles.len(),
                k == tiles.len() * m,
                0 < m,
        ;
    }
}

/// What the first `k` blocks of a node add to a bin in a launch for several nodes.
pub open spec fn block_sums(
    index: BatchIndex,
    node: int,
    rows_per_block: int,
    col: Seq<Bin>,
    gpair: Seq<GradPairFixed>,
    arena: Seq<int>,
    bin: int,
    k: int,
) -> PairSum
    decreases k,
{
    if k <= 0 {
        PairSum::zero()
    } else {
        let off = index.node_off@[node] as int;
        let (first, end) = block_rows(index, node, index.blk_ptr@[node] + k - 1, rows_per_block);
        block_sums(index, node, rows_per_block, col, gpair, arena, bin, k - 1).plus(
            piece_sum(col, gpair, arena, off + first, off + end, bin),
        )
    }
}

proof fn lemma_block_sums(
    index: BatchIndex,
    spans: Seq<GpuRowSpan>,
    node: int,
    rows_per_block: int,
    col: Seq<Bin>,
    gpair: Seq<GradPairFixed>,
    arena: Seq<int>,
    bin: int,
    k: int,
)
    requires
        rows_per_block > 0,
        index.describes(spans, rows_per_block),
        0 <= node < spans.len(),
        spans[node].offset + spans[node].len <= arena.len(),
        0 <= k <= ceil_div(spans[node].len as int, rows_per_block),
    ensures
        block_sums(index, node, rows_per_block, col, gpair, arena, bin, k) == piece_sum(
            col,
            gpair,
            arena,
            spans[node].offset as int,
            spans[node].offset + imin(k * rows_per_block, spans[node].len as int),
            bin,
        ),
    decreases k,
{
    let off = spans[node].offset as int;
    let len = spans[node].len as int;
    if k > 0 {
        lemma_block_sums(index, spans, node, rows_per_block, col, gpair, arena, bin, k - 1);
        lemma_ceil_div_least(len, rows_per_block, k - 1);
        assert(k * rows_per_block == (k - 1) * rows_per_block + rows_per_block)
            by (nonlinear_arith);
        assert(0 <= (k - 1) * rows_per_block) by (nonlinear_arith)
            requires
                k >= 1,
                rows_per_block > 0,
        ;
        lemma_pieces_join(
            col,
            gpair,
            arena,
            off,
            off + (k - 1) * rows_per_block,
            off + imin(k * rows_per_block, len),
            bin,
        );
    } else {
        assert(0 * rows_per_block == 0) by (nonlinear_arith);
    }
}

/// The blocks of a node add to each bin what its rows add.
pub proof fn law_blocks_add_up_to_the_node(
    index: BatchIndex,
    spans: Seq<GpuRowSpan>,
    rows_per_block: int,
    node: int,
    col: Seq<Bin>,
    gpair: Seq<GradPairFixed>,
    arena: Seq<int>,
    bin: int,
)
    requires
        rows_per_block > 0,
        index.describes(spans, rows_per_block),
        0 <= node < spans.len(),
        spans[node].offset + spans[node].len <= arena.len(),
    ensures
        block_sums(
            index,
            node,
            rows_per_block,
            col,
            gpair,
            arena,
            bin,
            index.blk_ptr@[node + 1] - index.blk_ptr@[node],
        ) == piece_sum(
            col,
            gpair,
            arena,
            spans[node].offset as int,
            spans[node].offset + spans[node].len,
            bin,
        ),
{
    let len = spans[node].len as int;
    let k = ceil_div(len, rows_per_block);
    lemma_ceil_div(len, rows_per_block);
    lemma_ceil_div_least(len, rows_per_block, k);
    lemma_block_sums(index, spans, node, rows_per_block, col, gpair, arena, bin, k);
    assert(index.blk_ptr@[node + 1] == index.blk_ptr@[node] + k);
}

/// The rows of a node.
pub open spec fn node_rows(arena: Seq<int>, span: GpuRowSpan) -> Seq<int> {
    arena.subrange(span.offset as int, span.offset + span.len)
}

/// A histogram of one node as the blocks of a launch for several nodes add it up.
pub open spec fn is_batch_output(
    out: Seq<GradPairFixed>,
    index: BatchIndex,
    node: int,
    rows_per_block: int,
    offsets: Seq<u32>,
    block_data: Seq<Bin>,
    gpair: Seq<GradPairFixed>,
    arena: Seq<int>,
) -> bool {
    &&& out.len() == offsets.last()
    &&& forall|f: int, b: int|
        #![trigger out[offsets[f] + b]]
        0 <= f < offsets.len() - 1 && 0 <= b < offsets[f + 1] - offsets[f] ==> out[offsets[f]
            + b].represents(
            block_sums(
                index,
                node,
                rows_per_block,
                column_of(block_data, arena.len() as int, f),
                gpair,
                arena,
                b,
                index.blk_ptr@[node + 1] - index.blk_ptr@[node],
            ),
        )
}

/// A histogram as the launches for one node add it up.
pub open spec fn is_node_output(
    out: Seq<GradPairFixed>,
    plan: SpanPlan,
    offsets: Seq<u32>,
    block_data: Seq<Bin>,
    gpair: Seq<GradPairFixed>,
    arena: Seq<int>,
) -> bool {
    &&& out.len() == offsets.last()
    &&& forall|f: int, b: int|
        #![trigger out[offsets[f] + b]]
        0 <= f < offsets.len() - 1 && 0 <= b < offsets[f + 1] - offsets[f] ==> out[offsets[f]
            + b].represents(
            launch_sums(
                plan.launches@,
                f,
                column_of(block_data, arena.len() as int, f),
                gpair,
                arena,
                b,
                plan.launches@.len() as int,
            ),
        )
}

/// What one launch for several nodes leaves for a node is the histogram of the node's rows; for a
/// node without rows it is all zero.
pub proof fn law_batch_output_is_the_histogram(
    out: Seq<GradPairFixed>,
    index: BatchIndex,
    spans: Seq<GpuRowSpan>,
    node: int,
    rows_per_block: int,
    offsets: Seq<u32>,
    block_data: Seq<Bin>,
    gpair: Seq<GradPairFixed>,
    arena: Seq<int>,
)
    requires
        rows_per_block > 0,
        index.describes(spans, rows_per_block),
        0 <= node < spans.len(),
        spans[node].within(arena.len() as int),
        offsets.len() >= 1,
        offsets[0] == 0,
        is_batch_output(out, index, node, rows_per_block, offsets, block_data, gpair, arena),
    ensures
        is_histogram(
            out,
            block_data,
            arena.len() as int,
            offsets.len() - 1,
            offsets,
            gpair,
            node_rows(arena, spans[node]),
        ),
        spans[node].len == 0 ==> forall|f: int, b: int|
            #![trigger out[offsets[f] + b]]
            0 <= f < offsets.len() - 1 && 0 <= b < offsets[f + 1] - offsets[f] ==> out[offsets[f]
                + b].represents(PairSum::zero()),
{
    let n = arena.len() as int;
    assert forall|f: int, b: int|
        #![trigger out[offsets[f] + b]]
        0 <= f < offsets.len() - 1 && 0 <= b < offsets[f + 1] - offsets[f] implies out[offsets[f]
        + b].represents(
        bin_sum(
            column_of(block_data, n, f),
            gpair,
            node_rows(arena, spans[node]),
            b,
            spans[node].len as int,
        ),
    ) by {
        law_blocks_add_up_to_the_node(
            index,
            spans,
            rows_per_block,
            node,
            column_of(block_data, n, f),
            gpair,
            arena,
            b,
        );
    }
}

/// What the launches for one node leave is the histogram of the node's rows.
pub proof fn law_node_output_is_the_histogram(
    out: Seq<GradPairFixed>,
    ctx: GpuTrainCtx,
    span: GpuRowSpan,
    plan: SpanPlan,
    offsets: Seq<u32>,
    block_data: Seq<Bin>,
    gpair: Seq<GradPairFixed>,
    arena: Seq<int>,
)
    requires
        ctx.wf(),
        offsets.len() >= 1,
        offsets.len() - 1 <= usize::MAX,
        offsets[0] == 0,
        arena.len() == ctx.shape.n_rows,
        span.within(ctx.shape.n_rows as int),
        span.len > 0,
        is_span_plan(ctx, offsets, span, plan),
        is_node_output(out, plan, offsets, block_data, gpair, arena),
    ensures
        is_histogram(
            out,
            block_data,
            arena.len() as int,
            offsets.len() - 1,
            offsets,
            gpair,
            node_rows(arena, span),
        ),
{
    let n = arena.len() as int;
    assert forall|f: int, b: int|
        #![trigger out[offsets[f] + b]]
        0 <= f < offsets.len() - 1 && 0 <= b < offsets[f + 1] - offsets[f] implies out[offsets[f]
        + b].represents(
        bin_sum(
            column_of(block_data, n, f),
            gpair,
            node_rows(arena, span),
            b,
            span.len as int,
        ),
    ) by {
        law_launches_add_up_to_the_node(
            ctx,
            offsets,
            span,
            plan,
            f,
            column_of(block_data, n, f),
            gpair,
            arena,
            b,
        );
    }
}

/// The histogram that one launch for several nodes leaves for a node is, bit for bit, the one that
/// the launches for the node alone leave.
pub proof fn law_batch_outputs_are_those_of_each_node(
    from_batch: Seq<GradPairFixed>,
    from_node: Seq<GradPairFixed>,
    ctx: GpuTrainCtx,
    index: BatchIndex,
    spans: Seq<GpuRowSpan>,
    node: int,
    alone: SpanPlan,
    offsets: Seq<u32>,
    block_data: Seq<Bin>,
    gpair: Seq<GradPairFixed>,
    arena: Seq<int>,
)
    requires
        ctx.wf(),
        offsets.len() >= 1,
        offsets.len() - 1 <= usize::MAX,
        offsets[0] == 0,
        monotone(offsets),
        arena.len() == ctx.shape.n_rows,
        index.describes(spans, ctx.config.threads_per_block as int * 4),
        0 <= node < spans.len(),
        spans[node].within(ctx.shape.n_rows as int),
        spans[node].len > 0,
        is_span_plan(ctx, offsets, spans[node], alone),
        is_batch_output(
            from_batch,
            index,
            node,
            ctx.config.threads_per_block as int * 4,
            offsets,
            block_data,
            gpair,
            arena,
        ),
        is_node_output(from_node, alone, offsets, block_data, gpair, arena),
    ensures
        from_batch == from_node,
{
    let per_block = ctx.config.threads_per_block as int * 4;
    law_batch_output_is_the_histogram(
        from_batch,
        index,
        spans,
        node,
        per_block,
        offsets,
        block_data,
        gpair,
        arena,
    );
    law_node_output_is_the_histogram(
        from_node,
        ctx,
        spans[node],
        alone,
        offsets,
        block_data,
        gpair,
        arena,
    );
    law_histogram_is_determined(
        from_batch,
        from_node,
        block_data,
        arena.len() as int,
        offsets.len() - 1,
        offsets,
        gpair,
        node_rows(arena, spans[node]),
    );
}

} // verus!
