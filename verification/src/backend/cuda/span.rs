//! The launches that build the histograms of nodes, over the rows and features of a session.
use vstd::prelude::*;

use crate::backend::cuda::batch::{
    batch_index, blocks_before, is_batch_error, max_tile_bins, spans_within, widest_tile, BatchError,
    BatchIndex,
};
use crate::backend::cuda::histogram::{
    covers_rows, feature_fits, feature_tiles, is_first_wide, is_tiling,
    law_row_plan_takes_every_row_once, law_tiles_take_every_feature_once, plan_rows, row_plan,
    span_bins, FeatureTile, HistogramError, RowLaunch,
};
use crate::backend::cuda::partition::GpuRowSpan;
use crate::backend::cuda::session::GpuBlockSession;
use crate::backend::cuda::train_ctx::GpuTrainCtx;
use crate::hist::monotone;

verus! {

/// Why the histogram of a node is refused.
#[derive(Clone, Copy, Debug, PartialEq, Eq, Structural)]
pub enum SpanError {
    /// The span reaches beyond the rows.
    SpanOutOfRange { offset: usize, len: usize },
    /// One feature has more bins than a tile holds.
    TileTooWide { feat: usize, bins: u32, max_bins: usize },
}

/// One launch over rows and features of a session.
#[derive(Clone, Copy, Debug, PartialEq, Eq, Structural)]
pub struct SpanLaunch {
    /// The first position in the row arena.
    pub first_row: usize,
    pub rows: usize,
    /// Blocks of threads.
    pub grid: u32,
    /// Threads per block.
    pub block: u32,
    pub rows_per_thread: u32,
    /// The features that the launch accumulates.
    pub feats: FeatureTile,
    pub shared_bytes: u32,
}

/// The launches of a node.
pub struct SpanPlan {
    pub launches: Vec<SpanLaunch>,
    /// Tiles that the features are launched in: one where a kernel takes them all.
    pub feature_tiles: usize,
    /// Bytes of the result.
    pub d2h_bytes: u64,
}

/// The launch over some rows of a node and some features.
pub open spec fn span_launch(
    span: GpuRowSpan,
    l: RowLaunch,
    feats: FeatureTile,
    bins: int,
) -> SpanLaunch {
    SpanLaunch {
        first_row: (span.offset + l.begin) as usize,
        rows: l.rows,
        grid: l.grid,
        block: l.block,
        rows_per_thread: l.rows_per_thread,
        feats,
        shared_bytes: (bins * 16) as u32,
    }
}

/// The launches of a node, tile by tile and for each tile in row order.
pub open spec fn tiled_launches(
    span: GpuRowSpan,
    rows: Seq<RowLaunch>,
    tiles: Seq<FeatureTile>,
    offsets: Seq<u32>,
) -> Seq<SpanLaunch> {
    let m = rows.len() as int;
    Seq::new(
        tiles.len() * rows.len(),
        |i: int|
            span_launch(
                span,
                rows[i % m],
                tiles[i / m],
                span_bins(offsets, tiles[i / m].begin as int, tiles[i / m].end as int),
            ),
    )
}

/// The plan of a node that has rows, given the tiles of the features. The fused kernels go through
/// the tiles themselves, so shared memory is that of the widest one.
pub open spec fn is_tiled_plan(
    ctx: GpuTrainCtx,
    offsets: Seq<u32>,
    span: GpuRowSpan,
    tiles: Seq<FeatureTile>,
    plan: SpanPlan,
) -> bool {
    let n = offsets.len() - 1;
    let threads = ctx.config.threads_per_block as int;
    let rows = row_plan(span.len as int, threads, ctx.choices.fused);
    &&& is_tiling(tiles, offsets, n, ctx.choices.max_bins_per_tile as int, n)
    &&& if ctx.choices.fused {
        &&& plan.feature_tiles == 1
        &&& plan.launches@ == Seq::new(
            rows.len(),
            |i: int|
                span_launch(
                    span,
                    rows[i],
                    FeatureTile { begin: 0, end: n as usize },
                    widest_tile(tiles, offsets, tiles.len() as int),
                ),
        )
    } else {
        &&& plan.feature_tiles == tiles.len()
        &&& plan.launches@ == tiled_launches(span, rows, tiles, offsets)
    }
}

/// The plan of a node that has rows.
pub open spec fn is_span_plan(
    ctx: GpuTrainCtx,
    offsets: Seq<u32>,
    span: GpuRowSpan,
    plan: SpanPlan,
) -> bool {
    &&& plan.d2h_bytes == offsets.last() * 16
    &&& exists|tiles: Seq<FeatureTile>| #[trigger] is_tiled_plan(ctx, offsets, span, tiles, plan)
}

/// Every feature fits into a tile.
pub open spec fn features_fit(ctx: GpuTrainCtx, offsets: Seq<u32>) -> bool {
    forall|f: int|
        0 <= f < offsets.len() - 1 ==> #[trigger] feature_fits(
            offsets,
            ctx.choices.max_bins_per_tile as int,
            f,
        )
}

/// The session has this histogram layout.
pub open spec fn session_has(session: GpuBlockSession, offsets: Seq<u32>) -> bool {
    &&& offsets.len() == session.n_feats + 1
    &&& offsets[0] == 0
    &&& monotone(offsets)
    &&& session.n_hist == offsets.last()
}

impl GpuTrainCtx {
    /// The launches that build the histogram of one node: none where the node has no rows or
    /// the histogram no bins, which leaves the histogram at zero. Sessions that need the
    /// batched launch have no launches of this kind.
    pub fn histogram_device(
        &self,
        session: &GpuBlockSession,
        feat_offsets: &[u32],
        span: GpuRowSpan,
    ) -> (r: Result<Option<SpanPlan>, SpanError>)
        requires
            self.wf(),
            session_has(*session, feat_offsets@),
            !(self.choices.row_major || session.selection_active),
        ensures
            match r {
                Err(SpanError::SpanOutOfRange { offset, len }) => !span.within(
                    self.shape.n_rows as int,
                ) && offset == span.offset && len == span.len,
                Err(SpanError::TileTooWide { feat, bins, max_bins }) => {
                    &&& span.within(self.shape.n_rows as int)
                    &&& session.n_hist > 0 && span.len > 0
                    &&& is_first_wide(
                        feat_offsets@,
                        session.n_feats as int,
                        self.choices.max_bins_per_tile as int,
                        feat as int,
                    )
                    &&& bins == span_bins(feat_offsets@, feat as int, feat + 1)
                    &&& max_bins == self.choices.max_bins_per_tile
                },
                Ok(None) => span.within(self.shape.n_rows as int) && (session.n_hist == 0
                    || span.len == 0),
                Ok(Some(plan)) => {
                    &&& span.within(self.shape.n_rows as int)
                    &&& session.n_hist > 0 && span.len > 0
                    &&& features_fit(*self, feat_offsets@)
                    &&& is_span_plan(*self, feat_offsets@, span, plan)
                },
            },
    {
        if !span.fits(self.shape.n_rows) {
            return Err(SpanError::SpanOutOfRange { offset: span.offset, len: span.len });
        }
        if session.n_hist == 0 || span.len == 0 {
            return Ok(None);
        }
        let n_feats: usize = session.n_feats;
        let max_bins: usize = self.choices.max_bins_per_tile;
        let threads: u32 = self.config.threads_per_block;
        let tiles: Vec<FeatureTile> = match feature_tiles(feat_offsets, n_feats, max_bins) {
            Ok(t) => t,
            Err(e) => {
                return Err(wide_feature(e));
            },
        };
        proof {
            assert(span.len as int / threads as int <= span.len) by (nonlinear_arith)
                requires
                    threads >= 1,
            ;
            law_row_plan_takes_every_row_once(span.len as int, threads as int, self.choices.fused);
        }
        let rows: Vec<RowLaunch> = plan_rows(span.len, threads, self.choices.fused);
        let d2h_bytes: u64 = session.n_hist as u64 * 16;
        let plan: SpanPlan = if self.choices.fused {
            let bins: usize = max_tile_bins(feat_offsets, n_feats, max_bins);
            let feats: FeatureTile = FeatureTile { begin: 0, end: n_feats };
            let launches: Vec<SpanLaunch> = fused_launches(span, &rows, feats, bins, threads);
            SpanPlan { launches, feature_tiles: 1, d2h_bytes }
        } else {
            let launches: Vec<SpanLaunch> = launches_of(
                span,
                &rows,
                &tiles,
                feat_offsets,
                max_bins,
                threads,
            );
            SpanPlan { launches, feature_tiles: tiles.len(), d2h_bytes }
        };
        proof {
            let n = n_feats as int;
            if self.choices.fused {
                let t = choose|t: Seq<FeatureTile>|
                    #[trigger] is_tiling(t, feat_offsets@, n, max_bins as int, n) && plan.launches@
                        == Seq::new(
                        rows@.len(),
                        |i: int|
                            span_launch(
                                span,
                                rows@[i],
                                FeatureTile { begin: 0, end: n_feats },
                                widest_tile(t, feat_offsets@, t.len() as int),
                            ),
                    );
                assert(is_tiled_plan(*self, feat_offsets@, span, t, plan));
            } else {
                assert(is_tiled_plan(*self, feat_offsets@, span, tiles@, plan));
            }
        }
        Ok(Some(plan))
    }
}

fn wide_feature(e: HistogramError) -> (r: SpanError)
    requires
        e is TileTooWide,
    ensures
        e matches HistogramError::TileTooWide { feat, bins, max_bins } && r
            == (SpanError::TileTooWide { feat, bins, max_bins }),
{
    match e {
        HistogramError::TileTooWide { feat, bins, max_bins } => SpanError::TileTooWide {
            feat,
            bins,
            max_bins,
        },
        _ => SpanError::TileTooWide { feat: 0, bins: 0, max_bins: 0 },
    }
}

fn fused_launches(
    span: GpuRowSpan,
    rows: &Vec<RowLaunch>,
    feats: FeatureTile,
    bins: usize,
    threads: u32,
) -> (r: Vec<SpanLaunch>)
    requires
        covers_rows(rows@, span.len as int, threads as int),
        span.offset + span.len <= usize::MAX,
        bins <= 0x0fff_ffff,
    ensures
        r@ == Seq::new(rows@.len(), |i: int| span_launch(span, rows@[i], feats, bins as int)),
{
    let mut r: Vec<SpanLaunch> = Vec::new();
    let mut i: usize = 0;
    while i < rows.len()
        invariant
            i <= rows@.len(),
            covers_rows(rows@, span.len as int, threads as int),
            span.offset + span.len <= usize::MAX,
            bins <= 0x0fff_ffff,
            r@.len() == i,
            forall|k: int|
                0 <= k < i ==> #[trigger] r@[k] == span_launch(span, rows@[k], feats, bins as int),
        decreases rows.len() - i,
    {
        let l: RowLaunch = rows[i];
        proof {
            lemma_launch_in_node(rows@, span.len as int, threads as int, i as int);
        }
        r.push(
            SpanLaunch {
                first_row: span.offset + l.begin,
                rows: l.rows,
                grid: l.grid,
                block: l.block,
                rows_per_thread: l.rows_per_thread,
                feats,
                shared_bytes: bins as u32 * 16,
            },
        );
        i += 1;
    }
    assert(r@ =~= Seq::new(rows@.len(), |i: int| span_launch(span, rows@[i], feats, bins as int)));
    r
}

fn launches_of(
    span: GpuRowSpan,
    rows: &Vec<RowLaunch>,
    tiles: &Vec<FeatureTile>,
    feat_offsets: &[u32],
    max_bins: usize,
    threads: u32,
) -> (r: Vec<SpanLaunch>)
    requires
        covers_rows(rows@, span.len as int, threads as int),
        span.offset + span.len <= usize::MAX,
        1 <= max_bins <= 0x0fff_ffff,
        feat_offsets@.len() >= 1,
        monotone(feat_offsets@),
        is_tiling(
            tiles@,
            feat_offsets@,
            feat_offsets@.len() - 1,
            max_bins as int,
            feat_offsets@.len() - 1,
        ),
    ensures
        r@ == tiled_launches(span, rows@, tiles@, feat_offsets@),
{
    let ghost m = rows@.len() as int;
    let ghost want = tiled_launches(span, rows@, tiles@, feat_offsets@);
    let mut r: Vec<SpanLaunch> = Vec::new();
    let mut t: usize = 0;
    while t < tiles.len()
        invariant
            t <= tiles@.len(),
            covers_rows(rows@, span.len as int, threads as int),
            span.offset + span.len <= usize::MAX,
            1 <= max_bins <= 0x0fff_ffff,
            feat_offsets@.len() >= 1,
            monotone(feat_offsets@),
            is_tiling(
                tiles@,
                feat_offsets@,
                feat_offsets@.len() - 1,
                max_bins as int,
                feat_offsets@.len() - 1,
            ),
            m == rows@.len(),
            want == tiled_launches(span, rows@, tiles@, feat_offsets@),
            r@.len() == t * m,
            t * m <= want.len(),
            r@ == want.take(t * m),
        decreases tiles.len() - t,
    {
        let tile: FeatureTile = tiles[t];
        assert(tiles@[t as int].begin < tiles@[t as int].end <= feat_offsets@.len() - 1);
        assert(feat_offsets@[tile.begin as int] <= feat_offsets@[tile.end as int]);
        let bins: usize = feat_offsets[tile.end] as usize - feat_offsets[tile.begin] as usize;
        let mut part: Vec<SpanLaunch> = fused_launches(span, rows, tile, bins, threads);
        let ghost part_seq = part@;
        let ghost before = r@;
        r.append(&mut part);
        proof {
            assert((t + 1) * m == t * m + m) by (nonlinear_arith);
            assert((t + 1) * m <= want.len()) by (nonlinear_arith)
                requires
                    t + 1 <= tiles@.len(),
                    want.len() == tiles@.len() * m,
                    m >= 0,
            ;
            assert forall|l: int| 0 <= l < m implies want[t * m + l] == #[trigger] part_seq[l] by {
                let i = t * m + l;
                assert(i < want.len());
                vstd::arithmetic::div_mod::lemma_fundamental_div_mod_converse(i, m, t as int, l);
            }
            assert(r@ =~= want.take((t + 1) * m));
        }
        t += 1;
    }
    assert(want.take(t * m) =~= want) by {
        assert(t * m == want.len());
    }
    r
}

proof fn lemma_launch_order(rows: Seq<RowLaunch>, n: int, threads: int, i: int, j: int)
    requires
        covers_rows(rows, n, threads),
        0 <= i < j < rows.len(),
    ensures
        rows[i].begin + rows[i].rows <= rows[j].begin,
    decreases j,
{
    assert(rows[j - 1].begin + rows[j - 1].rows == rows[j].begin);
    if i < j - 1 {
        lemma_launch_order(rows, n, threads, i, j - 1);
    }
}

proof fn lemma_launch_in_node(rows: Seq<RowLaunch>, n: int, threads: int, i: int)
    requires
        covers_rows(rows, n, threads),
        0 <= i < rows.len(),
    ensures
        rows[i].begin + rows[i].rows <= n,
        0 < rows[i].rows,
{
    let last = rows.len() - 1;
    if i < last {
        lemma_launch_order(rows, n, threads, i, last);
    }
    assert(rows.last() == rows[last]);
}

proof fn lemma_launch_of(rows: Seq<RowLaunch>, n: int, threads: int, row: int, k: int) -> (i: int)
    requires
        covers_rows(rows, n, threads),
        0 < k <= rows.len(),
        0 <= row < rows[k - 1].begin + rows[k - 1].rows,
    ensures
        0 <= i < k,
        rows[i].begin <= row < rows[i].begin + rows[i].rows,
    decreases k,
{
    if rows[k - 1].begin <= row {
        k - 1
    } else {
        assert(k - 1 > 0);
        assert(rows[k - 2].begin + rows[k - 2].rows == rows[k - 1].begin);
        lemma_launch_of(rows, n, threads, row, k - 1)
    }
}

/// The launch takes the row at an arena position, for a feature.
pub open spec fn takes(l: SpanLaunch, position: int, feat: int) -> bool {
    &&& l.first_row <= position < l.first_row + l.rows
    &&& l.feats.begin <= feat < l.feats.end
}

/// Exactly one launch of a node's plan takes a given row of the node for a given feature,
/// whichever kernels are used.
pub proof fn law_span_takes_rows_and_features_once(
    ctx: GpuTrainCtx,
    offsets: Seq<u32>,
    span: GpuRowSpan,
    plan: SpanPlan,
    position: int,
    feat: int,
)
    requires
        ctx.wf(),
        offsets.len() >= 1,
        span.within(ctx.shape.n_rows as int),
        is_span_plan(ctx, offsets, span, plan),
        offsets.len() - 1 <= usize::MAX,
        span.offset <= position < span.offset + span.len,
        0 <= feat < offsets.len() - 1,
    ensures
        exists|i: int|
            0 <= i < plan.launches@.len() && #[trigger] takes(plan.launches@[i], position, feat),
        forall|i: int, j: int|
            0 <= i < plan.launches@.len() && 0 <= j < plan.launches@.len() && #[trigger] takes(
                plan.launches@[i],
                position,
                feat,
            ) && #[trigger] takes(plan.launches@[j], position, feat) ==> i == j,
{
    let threads = ctx.config.threads_per_block as int;
    let n = offsets.len() - 1;
    let len = span.len as int;
    let max_bins = ctx.choices.max_bins_per_tile as int;
    assert(len / threads <= len) by (nonlinear_arith)
        requires
            threads >= 1,
            len >= 0,
    ;
    let rows = row_plan(len, threads, ctx.choices.fused);
    law_row_plan_takes_every_row_once(len, threads, ctx.choices.fused);
    let tiles = choose|tiles: Seq<FeatureTile>|
        #[trigger] is_tiled_plan(ctx, offsets, span, tiles, plan);
    let m = rows.len() as int;
    let row = position - span.offset;
    assert(rows.last() == rows[m - 1]);
    let a = lemma_launch_of(rows, len, threads, row, m);
    lemma_launch_in_node(rows, len, threads, a);
    assert forall|b: int|
        0 <= b < m && rows[b].begin <= row < rows[b].begin + (#[trigger] rows[b]).rows implies b
        == a by {
        if b < a {
            lemma_launch_order(rows, len, threads, b, a);
        } else if a < b {
            lemma_launch_order(rows, len, threads, a, b);
        }
    }
    let ls = plan.launches@;
    if ctx.choices.fused {
        assert(takes(ls[a], position, feat));
        assert forall|i: int| 0 <= i < ls.len() && #[trigger] takes(ls[i], position, feat) implies i
            == a by {
            lemma_launch_in_node(rows, len, threads, i);
        }
    } else {
        law_tiles_take_every_feature_once(tiles, offsets, n, max_bins, feat);
        let t = choose|t: int|
            0 <= t < tiles.len() && (#[trigger] tiles[t]).begin <= feat < tiles[t].end;
        let at = t * m + a;
        assert(0 <= at < tiles.len() * m) by (nonlinear_arith)
            requires
                0 <= t < tiles.len(),
                0 <= a < m,
                at == t * m + a,
        ;
        vstd::arithmetic::div_mod::lemma_fundamental_div_mod_converse(at, m, t, a);
        assert(takes(ls[at], position, feat));
        assert forall|i: int| 0 <= i < ls.len() && #[trigger] takes(ls[i], position, feat) implies i
            == at by {
            let ti = i / m;
            let b = i % m;
            vstd::arithmetic::div_mod::lemma_fundamental_div_mod(i, m);
            assert(0 <= ti < tiles.len()) by (nonlinear_arith)
                requires
                    0 <= i < tiles.len() * m,
                    i == m * ti + b,
                    0 <= b < m,
            ;
            lemma_launch_in_node(rows, len, threads, b);
            assert(rows[b].begin <= row < rows[b].begin + rows[b].rows);
            if ti < t {
                assert(tiles[ti].end <= tiles[t].begin);
            } else if t < ti {
                assert(tiles[t].end <= tiles[ti].begin);
            }
            assert(m * ti == t * m) by (nonlinear_arith)
                requires
                    ti == t,
            ;
        }
    }
}

/// The launch of a batch of nodes.
pub struct BatchPlan {
    pub index: BatchIndex,
    /// Blocks of threads.
    pub grid: u32,
    /// Threads per block.
    pub block: u32,
    pub shared_bytes: u32,
    /// Words between the histograms of two nodes.
    pub hist_stride: u64,
    /// The features that a row-major kernel accumulates; absent where blocks are column-major.
    pub feat_mask: Option<u32>,
    /// Bytes of the result, of all nodes together.
    pub d2h_bytes: u64,
}

impl GpuTrainCtx {
    /// Histograms can be built in batches.
    pub open spec fn batches(&self) -> bool {
        self.choices.fused || self.choices.row_major
    }

    /// One launch for several nodes: none where there are no nodes, no rows or no bins, which
    /// leaves the histograms at zero.
    pub fn histogram_device_batch(
        &self,
        session: &GpuBlockSession,
        feat_offsets: &[u32],
        spans: &[GpuRowSpan],
        n_outs: usize,
    ) -> (r: Result<Option<BatchPlan>, BatchError>)
        requires
            self.wf(),
            session_has(*session, feat_offsets@),
            features_fit(*self, feat_offsets@),
        ensures
            ({
                let per_block = self.config.threads_per_block as int * 4;
                let total = blocks_before(spans@, per_block, spans@.len() as int);
                let n_hist = session.n_hist as int;
                let ok = spans@.len() == n_outs && self.batches() && spans@.len()
                    <= self.choices.hist_nodes_per_batch && spans_within(
                    spans@,
                    self.shape.n_rows as int,
                ) && (n_hist == 0 || total <= u32::MAX);
                match r {
                    Err(e) => !ok && is_batch_error(
                        spans@,
                        n_outs as int,
                        self.batches(),
                        self.choices.hist_nodes_per_batch as int,
                        self.shape.n_rows as int,
                        per_block,
                        n_hist,
                        e,
                    ),
                    Ok(None) => ok && (n_hist == 0 || total == 0),
                    Ok(Some(plan)) => {
                        &&& ok && n_hist > 0 && total > 0
                        &&& plan.index.describes(spans@, per_block)
                        &&& plan.grid == total
                        &&& plan.block == self.config.threads_per_block
                        &&& has_widest(
                            feat_offsets@,
                            self.choices.max_bins_per_tile as int,
                            plan.shared_bytes as int,
                        )
                        &&& plan.hist_stride == n_hist * 2
                        &&& plan.feat_mask == if self.choices.row_major {
                            Some(session.row_major_feat_mask)
                        } else {
                            None
                        }
                        &&& plan.d2h_bytes == n_hist * spans@.len() * 16
                    },
                }
            }),
    {
        let index: BatchIndex = match batch_index(
            spans,
            n_outs,
            self.choices.fused || self.choices.row_major,
            self.choices.hist_nodes_per_batch,
            self.shape.n_rows,
            self.config.threads_per_block,
            session.n_hist,
        ) {
            Err(e) => {
                return Err(e);
            },
            Ok(None) => {
                return Ok(None);
            },
            Ok(Some(i)) => i,
        };
        let n: usize = spans.len();
        let bins: usize = max_tile_bins(
            feat_offsets,
            session.n_feats,
            self.choices.max_bins_per_tile,
        );
        proof {
            let h = session.n_hist as int;
            assert(h * n * 16 <= 0xffff_ffff * 0x1_0000 * 16) by (nonlinear_arith)
                requires
                    0 <= h <= 0xffff_ffff,
                    0 <= n <= 0x1_0000,
            ;
            assert(h * n <= 0xffff_ffff * 0x1_0000) by (nonlinear_arith)
                requires
                    0 <= h <= 0xffff_ffff,
                    0 <= n <= 0x1_0000,
            ;
        }
        let grid: u32 = index.blk_ptr[n];
        let feat_mask: Option<u32> = if self.choices.row_major {
            Some(session.row_major_feat_mask)
        } else {
            None
        };
        Ok(
            Some(
                BatchPlan {
                    index,
                    grid,
                    block: self.config.threads_per_block,
                    shared_bytes: bins as u32 * 16,
                    hist_stride: session.n_hist as u64 * 2,
                    feat_mask,
                    d2h_bytes: session.n_hist as u64 * n as u64 * 16,
                },
            ),
        )
    }
}

/// The bytes are those of the widest tile.
pub open spec fn has_widest(offsets: Seq<u32>, max_bins: int, bytes: int) -> bool {
    exists|tiles: Seq<FeatureTile>|
        #[trigger] is_tiling(tiles, offsets, offsets.len() - 1, max_bins, offsets.len() - 1) && bytes
            == widest_tile(tiles, offsets, tiles.len() as int) * 16
}

} // verus!
