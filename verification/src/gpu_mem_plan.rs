//! Device-memory budgeting: from "how much memory is free" to the width of a column block.
//!
//! The peak of a streaming run is linear in the block width,
//! `peak = fixed_bytes + cols_per_block * per_col_bytes`, so the width is solved for
//! directly. A resident block is one more slot at the price of a streaming slot.
use vstd::prelude::*;

use crate::math::{
    ceil_div, div_ceil, iclamp, imax, imin, lemma_ceil_div, max_u64, min_u64,
    sat_mul, sat_mul_spec, Total,
};
use crate::report::{decimal, decimal_text, megabytes, megabytes_text};

verus! {

/// Memory model of one streaming run; every field is in bytes.
#[derive(Clone, Copy, Debug, PartialEq, Eq, Structural)]
pub struct StreamingMemModel {
    /// What does not depend on the block width: gradients, row indices, partition
    /// buffers, predictions, staging.
    pub fixed_bytes: u64,
    /// What each further column costs over all streams.
    pub per_col_bytes: u64,
    /// One column in one slot. A streaming slot and a resident slot cost the same.
    pub slot_col_bytes: u64,
}

/// Bytes that a run over `n_rows` rows needs whatever the block width.
pub open spec fn model_fixed(
    n_rows: int,
    device_quantize: bool,
    fast_math: bool,
    row_major: bool,
    rm_stage_bytes: int,
) -> int {
    // gradient pair 16, row index 4, partition output 4, partition column 1,
    // partition flags 1, prediction 4
    n_rows * 30 + 8 * 1024 * 1024 + (if device_quantize {
        n_rows * 8
    } else {
        0
    }) + (if fast_math {
        n_rows * 8
    } else {
        0
    }) + (if row_major {
        rm_stage_bytes
    } else {
        0
    })
}

/// Bytes of one quantized column and its slice of the histograms, for one slot.
pub open spec fn model_slot_col(n_rows: int, max_bin: int, nodes_per_batch: int) -> int {
    n_rows + (max_bin + 1) * 16 * nodes_per_batch
}

/// The budget that is left after the safety reserve.
pub open spec fn budget_of(free_vram: int) -> int {
    imax(free_vram - reserve_of(free_vram), 0)
}

/// 15 percent of what is free, at least 512 MiB.
pub open spec fn reserve_of(free_vram: int) -> int {
    imax(free_vram / 100 * 15, 536_870_912)
}

impl StreamingMemModel {
    /// Estimated peak at `cols` columns per block.
    pub open spec fn spec_peak(self, cols: int) -> int {
        self.fixed_bytes + cols * self.per_col_bytes
    }

    /// Bytes of one slot that holds a block of `cols` columns.
    pub open spec fn spec_slot(self, cols: int) -> int {
        sat_mul_spec(cols, self.slot_col_bytes as int)
    }

    /// Estimated peak with `slots` slots (streaming and resident together).
    pub open spec fn spec_layout_peak(self, cols: int, slots: int) -> int {
        self.fixed_bytes + self.spec_slot(cols) * slots
    }

    /// The widest block within `budget`, in `[1, n_features]`, or nothing where not even one
    /// column fits.
    pub open spec fn spec_solve(self, budget: int, n_features: int) -> Option<int> {
        if self.spec_peak(1) > budget {
            None
        } else if self.per_col_bytes == 0 {
            Some(imax(n_features, 1))
        } else {
            Some(
                iclamp(
                    (budget - self.fixed_bytes) / (self.per_col_bytes as int),
                    1,
                    imax(n_features, 1),
                ),
            )
        }
    }

    /// How many resident blocks the budget still holds beside `streams` streaming slots.
    pub open spec fn spec_capacity(self, budget: int, cols: int, streams: int, total: int) -> int {
        let slot = self.spec_slot(cols);
        let base = self.spec_layout_peak(cols, streams);
        if slot == 0 || base >= budget {
            0
        } else {
            imin((budget - base) / slot, total)
        }
    }

    /// The model of a run of this shape.
    pub fn new(
        n_rows: u64,
        max_bin: u64,
        hist_streams: u64,
        hist_nodes_per_batch: u64,
        device_quantize: bool,
        fast_math: bool,
        row_major: bool,
        rm_stage_bytes: u64,
    ) -> (m: Self)
        requires
            model_fixed(n_rows as int, device_quantize, fast_math, row_major, rm_stage_bytes as int)
                <= u64::MAX,
            (max_bin + 1) * 16 <= u64::MAX,
            model_slot_col(n_rows as int, max_bin as int, hist_nodes_per_batch as int) <= u64::MAX,
            model_slot_col(n_rows as int, max_bin as int, hist_nodes_per_batch as int)
                * hist_streams <= u64::MAX,
        ensures
            m.fixed_bytes == model_fixed(
                n_rows as int,
                device_quantize,
                fast_math,
                row_major,
                rm_stage_bytes as int,
            ),
            m.slot_col_bytes == model_slot_col(
                n_rows as int,
                max_bin as int,
                hist_nodes_per_batch as int,
            ),
            m.per_col_bytes == m.slot_col_bytes * hist_streams,
    {
        let gpair: u64 = n_rows * 2 * 8;
        let row_idx: u64 = n_rows * 4;
        let partition_out: u64 = n_rows * 4;
        let partition_col: u64 = n_rows;
        let partition_scratch: u64 = n_rows + 8 * 1024 * 1024;
        let prediction: u64 = n_rows * 4;
        let gpair_f32: u64 = if device_quantize {
            n_rows * 2 * 4
        } else {
            0
        };
        let fast: u64 = if fast_math {
            n_rows * 4 * 2
        } else {
            0
        };
        let stage: u64 = if row_major {
            rm_stage_bytes
        } else {
            0
        };
        let fixed_bytes: u64 = gpair + row_idx + partition_out + partition_col + partition_scratch
            + prediction + gpair_f32 + fast + stage;
        assert((max_bin + 1) * 16 * hist_nodes_per_batch >= 0) by (nonlinear_arith);
        let slot_col_bytes: u64 = n_rows + (max_bin + 1) * 16 * hist_nodes_per_batch;
        StreamingMemModel {
            fixed_bytes,
            per_col_bytes: slot_col_bytes * hist_streams,
            slot_col_bytes,
        }
    }

    /// How many more blocks of `cols` columns can stay resident, at most `total_blocks`.
    pub fn resident_capacity(
        &self,
        budget_bytes: u64,
        cols: u64,
        streams: u64,
        total_blocks: u64,
    ) -> (r: u64)
        requires
            self.spec_layout_peak(cols as int, streams as int) <= u64::MAX,
        ensures
            r == self.spec_capacity(
                budget_bytes as int,
                cols as int,
                streams as int,
                total_blocks as int,
            ),
    {
        let per_slot: u64 = sat_mul(cols, self.slot_col_bytes);
        if per_slot == 0 {
            return 0;
        }
        assert(0 <= per_slot * streams) by (nonlinear_arith);
        let base: u64 = self.fixed_bytes + per_slot * streams;
        if base >= budget_bytes {
            return 0;
        }
        let room: u64 = budget_bytes - base;
        min_u64(room / per_slot, total_blocks)
    }

    /// Estimated peak with `streams` streams and `resident` resident blocks.
    pub fn peak_for_layout(&self, cols: u64, streams: u64, resident: u64) -> (p: u64)
        requires
            streams + resident <= u64::MAX,
            self.spec_layout_peak(cols as int, streams + resident) <= u64::MAX,
        ensures
            p == self.spec_layout_peak(cols as int, streams + resident),
    {
        let per_slot: u64 = sat_mul(cols, self.slot_col_bytes);
        let slots: u64 = streams + resident;
        assert(0 <= per_slot * slots) by (nonlinear_arith);
        self.fixed_bytes + per_slot * slots
    }

    /// Estimated peak at a given block width.
    pub fn peak_for(&self, cols_per_block: u64) -> (p: u64)
        requires
            self.spec_peak(cols_per_block as int) <= u64::MAX,
        ensures
            p == self.spec_peak(cols_per_block as int),
    {
        assert(0 <= cols_per_block * self.per_col_bytes) by (nonlinear_arith);
        self.fixed_bytes + cols_per_block * self.per_col_bytes
    }

    /// The widest block within the budget, in `[1, n_features]`; `None` when not even
    /// one column fits.
    pub fn solve_cols(&self, budget_bytes: u64, n_features: u64) -> (r: Option<u64>)
        requires
            self.spec_peak(1) <= u64::MAX,
        ensures
            match self.spec_solve(budget_bytes as int, n_features as int) {
                None => r is None,
                Some(c) => r is Some && r->0 == c,
            },
    {
        if self.peak_for(1) > budget_bytes {
            return None;
        }
        if self.per_col_bytes == 0 {
            return Some(max_u64(n_features, 1));
        }
        let room: u64 = budget_bytes - self.fixed_bytes;
        let cols: u64 = room / self.per_col_bytes;
        let hi: u64 = max_u64(n_features, 1);
        assert(cols >= 1) by {
            vstd::arithmetic::div_mod::lemma_div_non_zero(room as int, self.per_col_bytes as int);
        }
        if cols > hi {
            Some(hi)
        } else {
            Some(cols)
        }
    }
}

/// What a run costs, row by row and column by column: a row more costs its gradient pair, its row
/// index, its place in the partition and its prediction, and what the device keeps besides; a bin
/// more costs a gradient pair for each node of a batch; a column more costs what a column costs.
pub proof fn law_what_a_row_and_a_column_cost(
    m: StreamingMemModel,
    n_rows: int,
    max_bin: int,
    nodes: int,
    device_quantize: bool,
    fast_math: bool,
    row_major: bool,
    stage: int,
    cols: int,
)
    ensures
        model_fixed(n_rows + 1, device_quantize, fast_math, row_major, stage) - model_fixed(
            n_rows,
            device_quantize,
            fast_math,
            row_major,
            stage,
        ) == 16 + 4 + (4 + 1 + 1) + 4 + (if device_quantize {
            8int
        } else {
            0
        }) + (if fast_math {
            8int
        } else {
            0
        }),
        model_fixed(0, device_quantize, fast_math, row_major, stage) == 8_388_608 + (if row_major {
            stage
        } else {
            0
        }),
        model_slot_col(n_rows + 1, max_bin, nodes) == model_slot_col(n_rows, max_bin, nodes) + 1,
        model_slot_col(n_rows, max_bin + 1, nodes) == model_slot_col(n_rows, max_bin, nodes) + 16
            * nodes,
        model_slot_col(0, -1, nodes) == 0,
        m.spec_peak(0) == m.fixed_bytes,
        m.spec_peak(cols + 1) == m.spec_peak(cols) + m.per_col_bytes,
{
    assert((max_bin + 1 + 1) * 16 * nodes == (max_bin + 1) * 16 * nodes + 16 * nodes)
        by (nonlinear_arith);
    assert((-1 + 1) * 16 * nodes == 0) by (nonlinear_arith);
    assert((cols + 1) * m.per_col_bytes == cols * m.per_col_bytes + m.per_col_bytes)
        by (nonlinear_arith);
    assert(0 * m.per_col_bytes == 0) by (nonlinear_arith);
}

/// What is kept back is never less than 512 MiB, and else fifteen of every full hundred bytes that
/// are free; what may be spent is the rest, and nothing is spent that is not free.
pub proof fn law_reserve_is_kept_back(free: int)
    requires
        0 <= free,
    ensures
        reserve_of(free) >= 512 * 1024 * 1024,
        reserve_of(free) > 512 * 1024 * 1024 ==> 15 * free - 1500 < 100 * reserve_of(free) <= 15
            * free,
        reserve_of(free) == 512 * 1024 * 1024 ==> 15 * (free - 99) <= 100 * reserve_of(free),
        reserve_of(free) <= free ==> budget_of(free) + reserve_of(free) == free,
        reserve_of(free) > free ==> budget_of(free) == 0,
{
}

/// A solved width fits the budget, and the next wider block does not, unless every
/// feature is already in one block. No width is found exactly when one column does not fit.
pub proof fn law_solve_is_widest(m: StreamingMemModel, budget: int, n_features: int)
    requires
        0 <= n_features,
    ensures
        m.spec_solve(budget, n_features) is None <==> m.spec_peak(1) > budget,
        m.spec_solve(budget, n_features) matches Some(c) ==> {
            &&& 1 <= c <= imax(n_features, 1)
            &&& m.spec_peak(c) <= budget
            &&& c < n_features ==> m.spec_peak(c + 1) > budget
        },
{
    let widest = imax(n_features, 1);
    assert(m.per_col_bytes == 0 ==> widest * m.per_col_bytes == 0) by (nonlinear_arith);
    if m.per_col_bytes > 0 && m.spec_peak(1) <= budget {
        let p = m.per_col_bytes as int;
        let room = budget - m.fixed_bytes;
        let cols = room / p;
        vstd::arithmetic::div_mod::lemma_fundamental_div_mod(room, p);
        assert(p * cols <= room < p * cols + p);
        assert(cols >= 1) by (nonlinear_arith)
            requires
                room < p * cols + p,
                room >= p,
                p > 0,
        ;
        let c = iclamp(cols, 1, imax(n_features, 1));
        assert(c * p <= p * cols) by (nonlinear_arith)
            requires
                c <= cols,
                p > 0,
        ;
        assert(c == cols ==> (c + 1) * p == p * cols + p) by (nonlinear_arith);
    }
}

/// The number of resident blocks never passes the physical ones; with a slot of some size
/// and room beside the streams, it fits the budget and one more would not.
pub proof fn law_capacity_is_largest(
    m: StreamingMemModel,
    budget: int,
    cols: int,
    streams: int,
    total: int,
)
    requires
        0 <= cols,
        0 <= streams,
        0 <= total,
    ensures
        0 <= m.spec_capacity(budget, cols, streams, total) <= total,
        m.spec_layout_peak(cols, streams) <= budget ==> m.spec_layout_peak(
            cols,
            streams + m.spec_capacity(budget, cols, streams, total),
        ) <= budget,
        m.spec_slot(cols) > 0 && m.spec_capacity(budget, cols, streams, total) < total
            ==> m.spec_layout_peak(
            cols,
            streams + m.spec_capacity(budget, cols, streams, total) + 1,
        ) > budget,
{
    let slot = m.spec_slot(cols);
    let base = m.spec_layout_peak(cols, streams);
    let r = m.spec_capacity(budget, cols, streams, total);
    assert(cols * m.slot_col_bytes >= 0) by (nonlinear_arith)
        requires
            cols >= 0,
    ;
    assert(slot * (streams + 1) == slot * streams + slot) by (nonlinear_arith);
    if slot != 0 && base < budget {
        let room = budget - base;
        let q = room / slot;
        vstd::arithmetic::div_mod::lemma_fundamental_div_mod(room, slot);
        assert(q >= 0) by (nonlinear_arith)
            requires
                room < slot * q + slot,
                room >= 0,
                slot > 0,
        ;
        assert(slot * (streams + r) == slot * streams + slot * r) by (nonlinear_arith);
        assert(slot * (streams + r + 1) == slot * streams + slot * r + slot) by (nonlinear_arith);
        assert(slot * r <= slot * q) by (nonlinear_arith)
            requires
                r <= q,
                slot > 0,
        ;
    }
}

/// A resident slot costs what a streaming slot costs: only their number matters.
pub proof fn law_resident_and_streaming_slots_cost_the_same(
    m: StreamingMemModel,
    cols: int,
    streams: int,
    resident: int,
)
    ensures
        m.spec_layout_peak(cols, streams + resident + 1) == m.spec_layout_peak(
            cols,
            (streams + 1) + resident,
        ),
        m.spec_layout_peak(cols, streams + resident + 1) == m.spec_layout_peak(
            cols,
            streams + resident,
        ) + m.spec_slot(cols),
{
    let slot = m.spec_slot(cols);
    assert(slot * (streams + resident + 1) == slot * (streams + resident) + slot)
        by (nonlinear_arith);
}

/// A streaming memory plan.
#[derive(Clone, Copy, Debug, PartialEq, Eq, Structural)]
pub struct GpuStreamingPlan {
    pub free_vram: u64,
    pub total_vram: u64,
    pub reserve: u64,
    pub fixed_bytes: u64,
    pub per_col_bytes: u64,
    pub max_safe_cols: u64,
    pub target_blocks: u64,
    pub target_cols: u64,
    pub resolved_cols_per_block: u64,
    /// How many histogram streams run.
    pub resolved_hist_streams: u64,
    /// Blocks that stay on the device: none is pure streaming, all is full residency.
    pub resident_blocks: u64,
    pub physical_blocks: u64,
    pub estimated_peak: u64,
    pub how: Resolution,
}

/// How the block width came about.
#[derive(Clone, Copy, Debug, PartialEq, Eq, Structural)]
pub enum Resolution {
    /// The caller fixed the width; streams and residency are still planned.
    ExplicitOverride,
    /// The block-count target decided.
    BlockCountTarget,
    /// The wanted width did not fit and was narrowed.
    VramClamped,
}

/// Planning failed: not even the narrowest configuration fits the budget.
#[derive(Clone, Copy, Debug, PartialEq, Eq, Structural)]
pub struct PlanError {
    /// Peak of the narrowest configuration.
    pub needed: u64,
    /// What may be spent.
    pub budget: u64,
    pub free_vram: u64,
    pub reserve: u64,
}

/// The widest block that the row-major histogram kernel covers in one row.
pub const ROW_MAJOR_MAX_FEATS: u64 = 32;

/// Upper bound on the number of blocks that streaming aims at.
pub const TARGET_MAX_BLOCKS: u64 = 5;

/// The number of blocks that streaming aims at.
pub const TARGET_BLOCKS: u64 = 5;

/// The block widths that are considered, ascending.
pub const CANDIDATE_WIDTHS: [u64; 6] = [4, 8, 16, 32, 64, 128];

/// `c` is one of the candidate widths.
pub open spec fn is_candidate(c: int) -> bool {
    c == 4 || c == 8 || c == 16 || c == 32 || c == 64 || c == 128
}

/// A candidate width at which the block count meets the target.
pub open spec fn reaches_target(n_features: int, c: int) -> bool {
    is_candidate(c) && ceil_div(n_features, c) <= TARGET_MAX_BLOCKS
}

/// The chosen width: the narrowest candidate within the ceiling that meets the block
/// target; else the widest candidate within the ceiling; else the ceiling itself.
pub open spec fn knee_spec(n_features: int, max_safe_cols: int) -> int {
    let n = imax(n_features, 1);
    let ceiling = iclamp(max_safe_cols, 1, n);
    if 4 <= ceiling && reaches_target(n, 4) {
        4
    } else if 8 <= ceiling && reaches_target(n, 8) {
        8
    } else if 16 <= ceiling && reaches_target(n, 16) {
        16
    } else if 32 <= ceiling && reaches_target(n, 32) {
        32
    } else if 64 <= ceiling && reaches_target(n, 64) {
        64
    } else if 128 <= ceiling {
        128
    } else if 64 <= ceiling {
        64
    } else if 32 <= ceiling {
        32
    } else if 16 <= ceiling {
        16
    } else if 8 <= ceiling {
        8
    } else if 4 <= ceiling {
        4
    } else {
        ceiling
    }
}

/// The chosen width lies within the ceiling; where some candidate within the ceiling meets
/// the block target it is the narrowest such, and else no candidate is wider.
pub proof fn law_knee_is_narrowest_that_meets_the_target(n_features: int, max_safe_cols: int)
    requires
        0 <= n_features,
    ensures
        ({
            let n = imax(n_features, 1);
            let ceiling = iclamp(max_safe_cols, 1, n);
            let w = knee_spec(n_features, max_safe_cols);
            &&& 1 <= w <= ceiling
            &&& forall|c: int|
                #![trigger reaches_target(n, c)]
                reaches_target(n, c) && c <= ceiling ==> reaches_target(n, w) && w <= c
            &&& (forall|c: int|
                #![trigger reaches_target(n, c)]
                c <= ceiling ==> !reaches_target(n, c)) ==> (forall|c: int|
                #![trigger is_candidate(c)]
                is_candidate(c) && c <= ceiling ==> c <= w)
        }),
{
}

/// What is held back from the memory that is reported free.
pub fn default_safety_reserve(free_vram: u64) -> (r: u64)
    ensures
        r == reserve_of(free_vram as int),
{
    max_u64(free_vram / 100 * 15, 512 * 1024 * 1024)
}

/// The width that just brings the number of blocks down to the target.
pub fn knee_width(n_features: u64, max_safe_cols: u64, _n_rows: u64) -> (w: u64)
    ensures
        w == knee_spec(n_features as int, max_safe_cols as int),
{
    let n: u64 = max_u64(n_features, 1);
    let ceiling: u64 = if max_safe_cols < 1 {
        1
    } else {
        min_u64(max_safe_cols, n)
    };
    let mut widest: u64 = ceiling;
    let mut i: usize = 0;
    while i < 6 && CANDIDATE_WIDTHS[i] <= ceiling
        invariant
            i <= 6,
            n == imax(n_features as int, 1),
            ceiling == iclamp(max_safe_cols as int, 1, n as int),
            CANDIDATE_WIDTHS@ == seq![4u64, 8, 16, 32, 64, 128],
            i == 0 ==> widest == ceiling,
            i > 0 ==> widest == CANDIDATE_WIDTHS[i - 1] && widest <= ceiling,
            i > 0 ==> !reaches_target(n as int, 4),
            i > 1 ==> !reaches_target(n as int, 8),
            i > 2 ==> !reaches_target(n as int, 16),
            i > 3 ==> !reaches_target(n as int, 32),
            i > 4 ==> !reaches_target(n as int, 64),
            i > 5 ==> !reaches_target(n as int, 128),
        decreases 6 - i,
    {
        let c: u64 = CANDIDATE_WIDTHS[i];
        if div_ceil(n, c) <= TARGET_MAX_BLOCKS {
            return c;
        }
        widest = c;
        i += 1;
    }
    widest
}

/// The block width: the caller's where it is positive, else the knee; within the features.
pub open spec fn resolved_cols(explicit: Option<usize>, n_features: int, max_safe: int) -> int {
    let n = imax(n_features, 1);
    if explicit is Some && explicit->0 > 0 {
        iclamp(explicit->0 as int, 1, n)
    } else {
        knee_spec(n, max_safe)
    }
}

/// How the block width came about.
pub open spec fn resolved_how(
    explicit: Option<usize>,
    n_features: int,
    max_safe: int,
) -> Resolution {
    let n = imax(n_features, 1);
    if explicit is Some && explicit->0 > 0 {
        Resolution::ExplicitOverride
    } else if knee_spec(n, max_safe) < knee_spec(n, n) {
        Resolution::VramClamped
    } else {
        Resolution::BlockCountTarget
    }
}

/// What a failure to plan reports.
pub open spec fn is_plan_error(e: PlanError, free_vram: u64, model: StreamingMemModel) -> bool {
    &&& e.needed == model.spec_peak(1)
    &&& e.budget == budget_of(free_vram as int)
    &&& e.free_vram == free_vram
    &&& e.reserve == reserve_of(free_vram as int)
}

/// What a plan holds apart from streams, residency and peak.
pub open spec fn is_geometry(
    p: GpuStreamingPlan,
    explicit: Option<usize>,
    n_features: u64,
    free_vram: u64,
    total_vram: u64,
    model: StreamingMemModel,
) -> bool {
    let n = imax(n_features as int, 1);
    let solved = model.spec_solve(budget_of(free_vram as int), n);
    &&& solved is Some
    &&& p.free_vram == free_vram
    &&& p.total_vram == total_vram
    &&& p.reserve == reserve_of(free_vram as int)
    &&& p.fixed_bytes == model.fixed_bytes
    &&& p.per_col_bytes == model.per_col_bytes
    &&& p.max_safe_cols == solved->0
    &&& p.target_blocks == TARGET_BLOCKS
    &&& p.target_cols == ceil_div(n, TARGET_BLOCKS as int)
    &&& p.resolved_cols_per_block == resolved_cols(explicit, n, solved->0)
    &&& p.physical_blocks == ceil_div(n, p.resolved_cols_per_block as int)
    &&& p.how == resolved_how(explicit, n, solved->0)
}

/// A plan of the block width alone, or the report that nothing fits.
pub open spec fn is_width_plan(
    r: Result<GpuStreamingPlan, PlanError>,
    explicit: Option<usize>,
    n_features: u64,
    free_vram: u64,
    total_vram: u64,
    model: StreamingMemModel,
) -> bool {
    match model.spec_solve(budget_of(free_vram as int), imax(n_features as int, 1)) {
        None => r matches Err(e) && is_plan_error(e, free_vram, model),
        Some(_) => r matches Ok(p) && {
            &&& is_geometry(p, explicit, n_features, free_vram, total_vram, model)
            &&& p.resolved_hist_streams == 1
            &&& p.resident_blocks == 0
            &&& p.estimated_peak == model.spec_peak(p.resolved_cols_per_block as int)
        },
    }
}

/// The peaks that block-width planning computes fit a machine word.
pub open spec fn geometry_fits(
    explicit: Option<usize>,
    n_features: u64,
    model: StreamingMemModel,
) -> bool {
    &&& model.spec_peak(1) <= u64::MAX
    &&& explicit is Some ==> model.spec_peak(
        iclamp(explicit->0 as int, 1, imax(n_features as int, 1)),
    ) <= u64::MAX
}

/// Resolves the block width: an explicit positive width wins, else the block-count target
/// bounded by memory. Streams and residency are left at one and none.
pub fn resolve_gpu_streaming_cols_per_block(
    explicit: Option<usize>,
    n_features: u64,
    free_vram: u64,
    total_vram: u64,
    model: StreamingMemModel,
) -> (r: Result<GpuStreamingPlan, PlanError>)
    requires
        geometry_fits(explicit, n_features, model),
    ensures
        is_width_plan(r, explicit, n_features, free_vram, total_vram, model),
{
    let n: u64 = max_u64(n_features, 1);
    let reserve: u64 = default_safety_reserve(free_vram);
    let budget: u64 = free_vram.saturating_sub(reserve);
    let max_safe_cols: u64 = match model.solve_cols(budget, n) {
        Some(c) => c,
        None => {
            return Err(PlanError { needed: model.peak_for(1), budget, free_vram, reserve });
        },
    };
    let target_cols: u64 = div_ceil(n, TARGET_BLOCKS);
    proof {
        lemma_ceil_div(n as int, TARGET_BLOCKS as int);
        law_knee_is_narrowest_that_meets_the_target(n as int, max_safe_cols as int);
        law_solve_is_widest(model, budget as int, n as int);
    }
    let ghost auto_cols = knee_spec(n as int, max_safe_cols as int);
    proof {
        assert(auto_cols * model.per_col_bytes <= max_safe_cols * model.per_col_bytes)
            by (nonlinear_arith)
            requires
                auto_cols <= max_safe_cols,
                0 <= model.per_col_bytes,
        ;
        assert(model.per_col_bytes == 0 ==> auto_cols * model.per_col_bytes == 0)
            by (nonlinear_arith);
    }
    let auto_width: u64 = knee_width(n, max_safe_cols, 0);
    let unclamped: u64 = knee_width(n, n, 0);
    let auto_how: Resolution = if auto_width < unclamped {
        Resolution::VramClamped
    } else {
        Resolution::BlockCountTarget
    };
    let (resolved, how): (u64, Resolution) = match explicit {
        Some(c) => if c > 0 {
            (min_u64(c as u64, n), Resolution::ExplicitOverride)
        } else {
            (auto_width, auto_how)
        },
        None => (auto_width, auto_how),
    };
    Ok(
        GpuStreamingPlan {
            free_vram,
            total_vram,
            reserve,
            fixed_bytes: model.fixed_bytes,
            per_col_bytes: model.per_col_bytes,
            max_safe_cols,
            target_blocks: TARGET_BLOCKS,
            target_cols,
            resolved_cols_per_block: resolved,
            resolved_hist_streams: 1,
            resident_blocks: 0,
            physical_blocks: div_ceil(n, resolved),
            estimated_peak: model.peak_for(resolved),
            how,
        },
    )
}

/// How many blocks stay resident in a plan of this geometry.
pub open spec fn resident_of(
    explicit: Option<usize>,
    free_vram: int,
    cols: int,
    streams: int,
    total: int,
    model: StreamingMemModel,
) -> int {
    match explicit {
        Some(n) => imin(n as int, total),
        None => model.spec_capacity(budget_of(free_vram), cols, streams, total),
    }
}

/// Spends what is left of the budget on resident blocks.
fn fill_residency(plan: &mut GpuStreamingPlan, explicit: Option<usize>, model: &StreamingMemModel)
    requires
        old(plan).reserve == reserve_of(old(plan).free_vram as int),
        ({
            let p = *old(plan);
            let resident = resident_of(
                explicit,
                p.free_vram as int,
                p.resolved_cols_per_block as int,
                p.resolved_hist_streams as int,
                p.physical_blocks as int,
                *model,
            );
            &&& p.resolved_hist_streams + resident <= u64::MAX
            &&& model.spec_layout_peak(
                p.resolved_cols_per_block as int,
                p.resolved_hist_streams + resident,
            ) <= u64::MAX
        }),
    ensures
        ({
            let p = *old(plan);
            let resident = resident_of(
                explicit,
                p.free_vram as int,
                p.resolved_cols_per_block as int,
                p.resolved_hist_streams as int,
                p.physical_blocks as int,
                *model,
            );
            *final(plan) == (GpuStreamingPlan {
                resident_blocks: resident as u64,
                estimated_peak: model.spec_layout_peak(
                    p.resolved_cols_per_block as int,
                    p.resolved_hist_streams + resident,
                ) as u64,
                ..p
            })
        }),
        final(plan).resident_blocks == resident_of(
            explicit,
            old(plan).free_vram as int,
            old(plan).resolved_cols_per_block as int,
            old(plan).resolved_hist_streams as int,
            old(plan).physical_blocks as int,
            *model,
        ),
{
    let budget: u64 = plan.free_vram.saturating_sub(plan.reserve);
    let cols: u64 = plan.resolved_cols_per_block;
    let streams: u64 = plan.resolved_hist_streams;
    let total: u64 = plan.physical_blocks;
    proof {
        law_capacity_is_largest(*model, budget as int, cols as int, streams as int, total as int);
        let slot = model.spec_slot(cols as int);
        let resident = resident_of(
            explicit,
            plan.free_vram as int,
            cols as int,
            streams as int,
            total as int,
            *model,
        );
        assert(slot >= 0) by {
            assert(cols * model.slot_col_bytes >= 0) by (nonlinear_arith);
        }
        assert(slot * streams <= slot * (streams + resident)) by (nonlinear_arith)
            requires
                slot >= 0,
                resident >= 0,
        ;
    }
    let capacity: u64 = model.resident_capacity(budget, cols, streams, total);
    plan.resident_blocks = match explicit {
        Some(n) => min_u64(n as u64, total),
        None => capacity,
    };
    plan.estimated_peak = model.peak_for_layout(cols, streams, plan.resident_blocks);
}

/// A complete plan at `streams` streams, or the report that nothing fits.
pub open spec fn is_stream_plan(
    r: Result<GpuStreamingPlan, PlanError>,
    explicit_cols: Option<usize>,
    explicit_resident: Option<usize>,
    n_features: u64,
    free_vram: u64,
    total_vram: u64,
    streams: u64,
    model: StreamingMemModel,
) -> bool {
    match model.spec_solve(budget_of(free_vram as int), imax(n_features as int, 1)) {
        None => r matches Err(e) && is_plan_error(e, free_vram, model),
        Some(_) => r matches Ok(p) && {
            &&& is_geometry(p, explicit_cols, n_features, free_vram, total_vram, model)
            &&& p.resolved_hist_streams == streams
            &&& p.resident_blocks == resident_of(
                explicit_resident,
                free_vram as int,
                p.resolved_cols_per_block as int,
                streams as int,
                p.physical_blocks as int,
                model,
            )
            &&& p.estimated_peak == model.spec_layout_peak(
                p.resolved_cols_per_block as int,
                streams + p.resident_blocks,
            )
        },
    }
}

/// The peaks that a plan at `streams` streams computes fit a machine word.
pub open spec fn stream_plan_fits(
    explicit_cols: Option<usize>,
    explicit_resident: Option<usize>,
    n_features: u64,
    free_vram: u64,
    streams: u64,
    model: StreamingMemModel,
) -> bool {
    let n = imax(n_features as int, 1);
    let solved = model.spec_solve(budget_of(free_vram as int), n);
    &&& geometry_fits(explicit_cols, n_features, model)
    &&& solved is Some ==> {
        let cols = resolved_cols(explicit_cols, n, solved->0);
        let resident = resident_of(
            explicit_resident,
            free_vram as int,
            cols,
            streams as int,
            ceil_div(n, cols),
            model,
        );
        &&& streams + resident <= u64::MAX
        &&& model.spec_layout_peak(cols, streams + resident) <= u64::MAX
    }
}

/// Do the peaks that a plan at `streams` streams computes fit a machine word?
pub fn stream_plan_ok(
    explicit_cols: Option<usize>,
    explicit_resident: Option<usize>,
    n_features: u64,
    free_vram: u64,
    streams: u64,
    model: StreamingMemModel,
) -> (r: bool)
    ensures
        r == stream_plan_fits(
            explicit_cols,
            explicit_resident,
            n_features,
            free_vram,
            streams,
            model,
        ),
{
    let n: u64 = max_u64(n_features, 1);
    if Total::of(model.fixed_bytes).plus(Total::of(model.per_col_bytes)).get().is_none() {
        return false;
    }
    if let Some(c) = explicit_cols {
        let width: u64 = min_u64(max_u64(c as u64, 1), n);
        let peak: Total = Total::of(model.fixed_bytes).plus(
            Total::of(width).times(model.per_col_bytes),
        );
        assert(width == iclamp(c as int, 1, n as int));
        if peak.get().is_none() {
            return false;
        }
    }
    let plan: GpuStreamingPlan = match resolve_gpu_streaming_cols_per_block(
        explicit_cols,
        n_features,
        free_vram,
        0,
        model,
    ) {
        Ok(p) => p,
        Err(_) => {
            return true;
        },
    };
    let cols: u64 = plan.resolved_cols_per_block;
    let total: u64 = plan.physical_blocks;
    let budget: u64 = free_vram.saturating_sub(plan.reserve);
    let slot: u64 = sat_mul(cols, model.slot_col_bytes);
    let resident: u64 = match explicit_resident {
        Some(k) => min_u64(k as u64, total),
        None => match Total::of(model.fixed_bytes).plus(Total::of(slot).times(streams)).get() {
            Some(base) => if slot == 0 || base >= budget {
                0
            } else {
                min_u64((budget - base) / slot, total)
            },
            None => 0,
        },
    };
    match streams.checked_add(resident) {
        Some(slots) => Total::of(model.fixed_bytes).plus(
            Total::of(slot).times(slots),
        ).get().is_some(),
        None => false,
    }
}

/// The stream count that a caller fixed, at least one.
pub open spec fn fixed_streams(n: usize) -> u64 {
    imax(n as int, 1) as u64
}

/// The model that `make_model` returns for a stream count.
pub open spec fn model_at<F: Fn(u64) -> StreamingMemModel>(
    make_model: F,
    streams: u64,
) -> StreamingMemModel {
    choose|m: StreamingMemModel| make_model.ensures((streams,), m)
}

/// A second stream is opened only where the width it leads to is no narrower and still
/// goes through the row-major kernel.
pub open spec fn second_stream_pays(
    explicit_cols: Option<usize>,
    n_features: u64,
    free_vram: u64,
    one: StreamingMemModel,
    two: StreamingMemModel,
) -> bool {
    let n = imax(n_features as int, 1);
    let solved1 = one.spec_solve(budget_of(free_vram as int), n);
    let solved2 = two.spec_solve(budget_of(free_vram as int), n);
    &&& solved1 is Some
    &&& solved2 is Some
    &&& resolved_cols(explicit_cols, n, solved2->0) >= resolved_cols(explicit_cols, n, solved1->0)
    &&& resolved_cols(explicit_cols, n, solved2->0) <= ROW_MAJOR_MAX_FEATS
}

/// The stream count at which a plan is made.
pub open spec fn planned_streams(
    explicit_cols: Option<usize>,
    explicit_streams: Option<usize>,
    n_features: u64,
    free_vram: u64,
    one: StreamingMemModel,
    two: StreamingMemModel,
) -> u64 {
    match explicit_streams {
        Some(k) => fixed_streams(k),
        None => if second_stream_pays(explicit_cols, n_features, free_vram, one, two) {
            2
        } else {
            1
        },
    }
}

/// A complete plan for the models that `make_model` returns.
pub open spec fn is_full_plan<F: Fn(u64) -> StreamingMemModel>(
    r: Result<GpuStreamingPlan, PlanError>,
    explicit_cols: Option<usize>,
    explicit_streams: Option<usize>,
    explicit_resident: Option<usize>,
    n_features: u64,
    free_vram: u64,
    total_vram: u64,
    make_model: F,
) -> bool {
    let s = planned_streams(
        explicit_cols,
        explicit_streams,
        n_features,
        free_vram,
        model_at(make_model, 1),
        model_at(make_model, 2),
    );
    is_stream_plan(
        r,
        explicit_cols,
        explicit_resident,
        n_features,
        free_vram,
        total_vram,
        s,
        model_at(make_model, s),
    ) && make_model.ensures((s,), model_at(make_model, s))
}

/// `make_model` returns the same model whenever it is asked for the same stream count.
pub open spec fn is_pure<F: Fn(u64) -> StreamingMemModel>(make_model: F) -> bool {
    forall|s: u64, a: StreamingMemModel, b: StreamingMemModel|
        #[trigger] make_model.ensures((s,), a) && #[trigger] make_model.ensures((s,), b) ==> a == b
}

/// `make_model` may be asked for a model at `streams`.
pub open spec fn is_queried(explicit_streams: Option<usize>, streams: u64) -> bool {
    match explicit_streams {
        Some(k) => streams == fixed_streams(k),
        None => streams == 1 || streams == 2,
    }
}

/// One plan for block width, streams and residency.
///
/// A fixed stream count is respected. Otherwise a second stream is used only where it does
/// not narrow the block and the block stays on the row-major path. What remains of the
/// budget goes to resident blocks.
pub fn resolve_gpu_streaming_plan<F: Fn(u64) -> StreamingMemModel>(
    explicit_cols: Option<usize>,
    explicit_streams: Option<usize>,
    explicit_resident: Option<usize>,
    n_features: u64,
    free_vram: u64,
    total_vram: u64,
    make_model: F,
) -> (r: Result<GpuStreamingPlan, PlanError>)
    requires
        forall|s: u64|
            is_queried(explicit_streams, s) ==> #[trigger] make_model.requires((s,)),
        is_pure(make_model),
        forall|s: u64, m: StreamingMemModel|
            is_queried(explicit_streams, s) && #[trigger] make_model.ensures((s,), m)
                ==> stream_plan_fits(
                explicit_cols,
                explicit_resident,
                n_features,
                free_vram,
                s,
                m,
            ),
    ensures
        is_full_plan(
            r,
            explicit_cols,
            explicit_streams,
            explicit_resident,
            n_features,
            free_vram,
            total_vram,
            make_model,
        ),
        explicit_streams is None ==> make_model.ensures((1,), model_at(make_model, 1)),
        explicit_streams is None && model_at(make_model, 1).spec_solve(
            budget_of(free_vram as int),
            imax(n_features as int, 1),
        ) is Some ==> make_model.ensures((2,), model_at(make_model, 2)),
{
    if let Some(n) = explicit_streams {
        let streams: u64 = max_u64(n as u64, 1);
        let model: StreamingMemModel = make_model(streams);
        return match resolve_gpu_streaming_cols_per_block(
            explicit_cols,
            n_features,
            free_vram,
            total_vram,
            model,
        ) {
            Ok(p) => {
                let mut plan: GpuStreamingPlan = p;
                plan.resolved_hist_streams = streams;
                fill_residency(&mut plan, explicit_resident, &model);
                Ok(plan)
            },
            Err(e) => Err(e),
        };
    }
    let model1: StreamingMemModel = make_model(1);
    let one: GpuStreamingPlan = match resolve_gpu_streaming_cols_per_block(
        explicit_cols,
        n_features,
        free_vram,
        total_vram,
        model1,
    ) {
        Ok(p) => p,
        Err(e) => {
            return Err(e);
        },
    };
    let model2: StreamingMemModel = make_model(2);
    if let Ok(two) = resolve_gpu_streaming_cols_per_block(
        explicit_cols,
        n_features,
        free_vram,
        total_vram,
        model2,
    ) {
        if two.resolved_cols_per_block >= one.resolved_cols_per_block
            && two.resolved_cols_per_block <= ROW_MAJOR_MAX_FEATS {
            let mut plan: GpuStreamingPlan = two;
            plan.resolved_hist_streams = 2;
            fill_residency(&mut plan, explicit_resident, &model2);
            return Ok(plan);
        }
    }
    let mut plan: GpuStreamingPlan = one;
    fill_residency(&mut plan, explicit_resident, &model1);
    Ok(plan)
}

impl GpuStreamingPlan {
    /// What the residency is called: a plan with every block resident is not streaming.
    pub open spec fn spec_residency_label(self) -> &'static str {
        if self.resident_blocks == 0 {
            "pure streaming"
        } else if self.resident_blocks >= self.physical_blocks {
            "full resident"
        } else {
            "hybrid partial resident"
        }
    }

    /// What the residency is called.
    pub fn residency_label(&self) -> (label: &'static str)
        ensures
            label@ == self.spec_residency_label()@,
    {
        if self.resident_blocks == 0 {
            "pure streaming"
        } else if self.resident_blocks >= self.physical_blocks {
            "full resident"
        } else {
            "hybrid partial resident"
        }
    }
}

impl Resolution {
    /// How the block width came about, in words.
    pub open spec fn spec_label(self) -> &'static str {
        match self {
            Resolution::ExplicitOverride => "explicit manual override",
            Resolution::BlockCountTarget => "block-count auto target",
            Resolution::VramClamped => "VRAM-clamped auto target",
        }
    }

    /// How the block width came about, in words.
    pub fn label(self) -> (r: &'static str)
        ensures
            r@ == self.spec_label()@,
    {
        match self {
            Resolution::ExplicitOverride => "explicit manual override",
            Resolution::BlockCountTarget => "block-count auto target",
            Resolution::VramClamped => "VRAM-clamped auto target",
        }
    }
}

impl GpuStreamingPlan {
    /// Blocks that are streamed.
    pub open spec fn streamed(self) -> nat {
        if self.resident_blocks <= self.physical_blocks {
            (self.physical_blocks - self.resident_blocks) as nat
        } else {
            0
        }
    }

    /// The plan in words.
    pub open spec fn told(self) -> Seq<char> {
        "GPU streaming memory plan:\n               free_vram:        "@ + megabytes(
            self.free_vram as nat,
            1,
        ) + " MB / "@ + megabytes(self.total_vram as nat, 1)
            + " MB\n               reserve:          "@ + megabytes(self.reserve as nat, 1)
            + " MB\n               fixed_bytes:      "@ + megabytes(self.fixed_bytes as nat, 1)
            + " MB\n               per_col_bytes:    "@ + megabytes(self.per_col_bytes as nat, 2)
            + " MB\n               max_safe_cols:    "@ + decimal(self.max_safe_cols as nat)
            + "\n               target_blocks:    "@ + decimal(self.target_blocks as nat)
            + "\n               target_cols:      "@ + decimal(self.target_cols as nat)
            + "\n               resolved:         "@ + decimal(self.resolved_cols_per_block as nat)
            + " cols/block  ["@ + self.how.spec_label()@ + "]\n               hist_streams:     "@
            + decimal(self.resolved_hist_streams as nat) + "\n               physical_blocks:  "@
            + decimal(self.physical_blocks as nat) + "\n               resident/stream:  "@
            + decimal(self.resident_blocks as nat) + " resident + "@ + decimal(self.streamed())
            + " streamed  ["@ + self.spec_residency_label()@
            + "]\n               estimated_peak:   "@ + megabytes(self.estimated_peak as nat, 1)
            + " MB"@
    }

    /// The plan in words.
    pub fn report(&self) -> (r: String)
        ensures
            r@ == self.told(),
    {
        "GPU streaming memory plan:\n               free_vram:        ".to_owned().concat(
            megabytes_text(self.free_vram, 1).as_str(),
        ).concat(" MB / ").concat(megabytes_text(self.total_vram, 1).as_str()).concat(
            " MB\n               reserve:          ",
        ).concat(megabytes_text(self.reserve, 1).as_str()).concat(
            " MB\n               fixed_bytes:      ",
        ).concat(megabytes_text(self.fixed_bytes, 1).as_str()).concat(
            " MB\n               per_col_bytes:    ",
        ).concat(megabytes_text(self.per_col_bytes, 2).as_str()).concat(
            " MB\n               max_safe_cols:    ",
        ).concat(decimal_text(self.max_safe_cols).as_str()).concat(
            "\n               target_blocks:    ",
        ).concat(decimal_text(self.target_blocks).as_str()).concat(
            "\n               target_cols:      ",
        ).concat(decimal_text(self.target_cols).as_str()).concat(
            "\n               resolved:         ",
        ).concat(decimal_text(self.resolved_cols_per_block).as_str()).concat(
            " cols/block  [",
        ).concat(self.how.label()).concat("]\n               hist_streams:     ").concat(
            decimal_text(self.resolved_hist_streams).as_str(),
        ).concat("\n               physical_blocks:  ").concat(
            decimal_text(self.physical_blocks).as_str(),
        ).concat("\n               resident/stream:  ").concat(
            decimal_text(self.resident_blocks).as_str(),
        ).concat(" resident + ").concat(
            decimal_text(self.physical_blocks.saturating_sub(self.resident_blocks)).as_str(),
        ).concat(" streamed  [").concat(self.residency_label()).concat(
            "]\n               estimated_peak:   ",
        ).concat(megabytes_text(self.estimated_peak, 1).as_str()).concat(" MB")
    }
}

impl PlanError {
    /// The failure in words.
    pub open spec fn told(self) -> Seq<char> {
        "GPU 显存放不下最小的 streaming 配置:需要约 "@ + megabytes(self.needed as nat, 1)
            + " MB,预算只有 "@ + megabytes(self.budget as nat, 1) + " MB(空闲 "@ + megabytes(
            self.free_vram as nat,
            1,
        ) + " MB − 保留 "@ + megabytes(self.reserve as nat, 1) + " MB)"@
    }

    /// The failure in words.
    pub fn message(&self) -> (r: String)
        ensures
            r@ == self.told(),
    {
        "GPU 显存放不下最小的 streaming 配置:需要约 ".to_owned().concat(
            megabytes_text(self.needed, 1).as_str(),
        ).concat(" MB,预算只有 ").concat(megabytes_text(self.budget, 1).as_str()).concat(
            " MB(空闲 ",
        ).concat(megabytes_text(self.free_vram, 1).as_str()).concat(" MB − 保留 ").concat(
            megabytes_text(self.reserve, 1).as_str(),
        ).concat(" MB)")
    }
}

/// Resident blocks never outnumber the physical ones, whoever asked for them.
pub proof fn law_residency_is_bounded_by_physical_blocks(
    p: GpuStreamingPlan,
    explicit_cols: Option<usize>,
    explicit_resident: Option<usize>,
    n_features: u64,
    free_vram: u64,
    total_vram: u64,
    streams: u64,
    model: StreamingMemModel,
)
    requires
        is_stream_plan(
            Ok(p),
            explicit_cols,
            explicit_resident,
            n_features,
            free_vram,
            total_vram,
            streams,
            model,
        ),
    ensures
        p.resident_blocks <= p.physical_blocks,
{
    law_capacity_is_largest(
        model,
        budget_of(free_vram as int),
        p.resolved_cols_per_block as int,
        streams as int,
        p.physical_blocks as int,
    );
}

/// The blocks of a plan cover every feature, and one block fewer would not.
pub proof fn law_physical_blocks_cover_the_features(
    p: GpuStreamingPlan,
    explicit_cols: Option<usize>,
    n_features: u64,
    free_vram: u64,
    total_vram: u64,
    model: StreamingMemModel,
)
    requires
        is_geometry(p, explicit_cols, n_features, free_vram, total_vram, model),
    ensures
        1 <= p.resolved_cols_per_block <= imax(n_features as int, 1),
        p.physical_blocks * p.resolved_cols_per_block >= n_features,
        (p.physical_blocks - 1) * p.resolved_cols_per_block < imax(n_features as int, 1),
{
    let n = imax(n_features as int, 1);
    law_knee_is_narrowest_that_meets_the_target(n, p.max_safe_cols as int);
    lemma_ceil_div(n, p.resolved_cols_per_block as int);
}

/// A plan whose width and residency were both left to the planner stays within what is
/// free after the reserve.
pub proof fn law_automatic_plan_stays_within_the_budget(
    p: GpuStreamingPlan,
    n_features: u64,
    free_vram: u64,
    total_vram: u64,
    streams: u64,
    model: StreamingMemModel,
)
    requires
        is_stream_plan(Ok(p), None, None, n_features, free_vram, total_vram, streams, model),
        streams >= 1,
        model.per_col_bytes == model.slot_col_bytes * streams,
    ensures
        p.estimated_peak <= budget_of(free_vram as int),
{
    let n = imax(n_features as int, 1);
    let budget = budget_of(free_vram as int);
    let cols = p.resolved_cols_per_block as int;
    let slot_col = model.slot_col_bytes as int;
    let safe = p.max_safe_cols as int;
    law_knee_is_narrowest_that_meets_the_target(n, safe);
    law_solve_is_widest(model, budget, n);
    assert(cols * model.per_col_bytes <= safe * model.per_col_bytes) by (nonlinear_arith)
        requires
            cols <= safe,
            0 <= model.per_col_bytes,
    ;
    assert(cols * (slot_col * streams) == (cols * slot_col) * streams) by (nonlinear_arith);
    assert(cols * slot_col <= (cols * slot_col) * streams) by (nonlinear_arith)
        requires
            streams >= 1,
            cols >= 0,
            slot_col >= 0,
    ;
    law_capacity_is_largest(model, budget, cols, streams as int, p.physical_blocks as int);
}

/// How many streams a plan runs, over the width plans at one and at two streams. A stream count
/// that the caller fixed is respected. Otherwise a second stream is opened exactly where it fits,
/// does not narrow the block and leaves it on the row-major path, so that it never costs width.
/// All but streams, residency and peak is that of the width plan at the stream count.
pub proof fn law_second_stream_never_narrows_the_block<F: Fn(u64) -> StreamingMemModel>(
    p: GpuStreamingPlan,
    at_one: Result<GpuStreamingPlan, PlanError>,
    at_two: Result<GpuStreamingPlan, PlanError>,
    at_planned: Result<GpuStreamingPlan, PlanError>,
    one: StreamingMemModel,
    two: StreamingMemModel,
    planned: StreamingMemModel,
    explicit_cols: Option<usize>,
    explicit_streams: Option<usize>,
    explicit_resident: Option<usize>,
    n_features: u64,
    free_vram: u64,
    total_vram: u64,
    make_model: F,
)
    requires
        is_pure(make_model),
        is_full_plan(
            Ok(p),
            explicit_cols,
            explicit_streams,
            explicit_resident,
            n_features,
            free_vram,
            total_vram,
            make_model,
        ),
        make_model.ensures((1,), one),
        make_model.ensures((2,), two),
        make_model.ensures((p.resolved_hist_streams,), planned),
        is_width_plan(at_one, explicit_cols, n_features, free_vram, total_vram, one),
        is_width_plan(at_two, explicit_cols, n_features, free_vram, total_vram, two),
        is_width_plan(at_planned, explicit_cols, n_features, free_vram, total_vram, planned),
    ensures
        explicit_streams matches Some(n) ==> p.resolved_hist_streams == imax(n as int, 1),
        explicit_streams is None ==> p.resolved_hist_streams == (if at_two is Ok
            && at_two->Ok_0.resolved_cols_per_block >= at_one->Ok_0.resolved_cols_per_block
            && at_two->Ok_0.resolved_cols_per_block <= ROW_MAJOR_MAX_FEATS && at_one is Ok {
            2int
        } else {
            1
        }),
        explicit_streams is None ==> at_one is Ok && p.resolved_cols_per_block
            >= at_one->Ok_0.resolved_cols_per_block,
        at_planned matches Ok(w) && p == (GpuStreamingPlan {
            resolved_hist_streams: p.resolved_hist_streams,
            resident_blocks: p.resident_blocks,
            estimated_peak: p.estimated_peak,
            ..w
        }),
{
    assert(model_at(make_model, 1) == one);
    assert(model_at(make_model, 2) == two);
    assert(model_at(make_model, p.resolved_hist_streams) == planned);
}

/// With the stream count left to the planner, planning fails exactly where a single stream does
/// not fit. Two streams that do not fit never make it fail.
pub proof fn law_planning_fails_only_where_one_stream_does_not_fit<
    F: Fn(u64) -> StreamingMemModel,
>(
    r: Result<GpuStreamingPlan, PlanError>,
    one: StreamingMemModel,
    explicit_cols: Option<usize>,
    explicit_resident: Option<usize>,
    n_features: u64,
    free_vram: u64,
    total_vram: u64,
    make_model: F,
)
    requires
        is_pure(make_model),
        is_full_plan(
            r,
            explicit_cols,
            None,
            explicit_resident,
            n_features,
            free_vram,
            total_vram,
            make_model,
        ),
        make_model.ensures((1,), one),
    ensures
        r is Err <==> one.spec_solve(
            budget_of(free_vram as int),
            imax(n_features as int, 1),
        ) is None,
        r is Err <==> one.spec_peak(1) > budget_of(free_vram as int),
{
    assert(model_at(make_model, 1) == one);
}

/// A plan whose width and residency were both left to the planner keeps as many blocks resident
/// as the memory that is free after the reserve holds, and not one more.
pub proof fn law_automatic_plan_fills_the_budget(
    p: GpuStreamingPlan,
    n_features: u64,
    free_vram: u64,
    total_vram: u64,
    streams: u64,
    model: StreamingMemModel,
)
    requires
        is_stream_plan(Ok(p), None, None, n_features, free_vram, total_vram, streams, model),
        streams >= 1,
        model.per_col_bytes == model.slot_col_bytes * streams,
        model.slot_col_bytes > 0,
    ensures
        p.estimated_peak == model.spec_layout_peak(
            p.resolved_cols_per_block as int,
            streams + p.resident_blocks,
        ),
        p.estimated_peak <= free_vram - p.reserve,
        p.resident_blocks <= p.physical_blocks,
        p.resident_blocks == p.physical_blocks || model.spec_layout_peak(
            p.resolved_cols_per_block as int,
            streams + p.resident_blocks + 1,
        ) > free_vram - p.reserve,
{
    let n = imax(n_features as int, 1);
    let budget = budget_of(free_vram as int);
    let cols = p.resolved_cols_per_block as int;
    law_automatic_plan_stays_within_the_budget(
        p,
        n_features,
        free_vram,
        total_vram,
        streams,
        model,
    );
    law_knee_is_narrowest_that_meets_the_target(n, p.max_safe_cols as int);
    law_capacity_is_largest(model, budget, cols, streams as int, p.physical_blocks as int);
    assert(model.slot_col_bytes * streams > 0) by (nonlinear_arith)
        requires
            model.slot_col_bytes > 0,
            streams >= 1,
    ;
    assert(cols * model.slot_col_bytes > 0) by (nonlinear_arith)
        requires
            model.slot_col_bytes > 0,
            cols >= 1,
    ;
}

} // verus!
