//! How wide the column blocks of a job are, and what else has to agree with that width.
use vstd::prelude::*;

use crate::columns::auto_cols_per_block;
use crate::gpu_mem_plan::{
    resolve_gpu_streaming_plan, stream_plan_ok, GpuStreamingPlan, PlanError, StreamingMemModel,
};
use crate::math::{div_ceil_usize, max_u64, max_usize, min_u64, Total};

verus! {

/// Nodes per histogram batch that the plan counts on.
pub const PLANNED_NODES_PER_BATCH: u64 = 16;

/// Bytes of row-major staging that the plan counts on: 32 MiB.
pub const PLANNED_STAGE_BYTES: u64 = 33_554_432;

/// What was asked for and what holds. The two are kept apart, so that a log can show who decided
/// the width.
#[derive(Clone, Copy, Debug, PartialEq, Eq, Structural)]
pub struct BlockingPlan {
    pub requested: Option<usize>,
    pub effective: usize,
    pub n_blocks: usize,
    pub nthread: usize,
    /// Streams and resident blocks as planned. Width, streams and residency are solved in one
    /// memory model and reach the run together. `None`: no plan took part.
    pub hist_streams: Option<usize>,
    pub resident_blocks: Option<usize>,
    /// The budget that the plan used, in bytes.
    pub effective_gpu_budget: Option<usize>,
}

/// How many blocks cover the features.
pub open spec fn blocks_of(n_features: int, cols: int) -> int {
    crate::math::ceil_div(crate::math::imax(n_features, 1), crate::math::imax(cols, 1))
}

fn count_blocks(n_features: usize, cols: usize) -> (r: usize)
    ensures
        r == blocks_of(n_features as int, cols as int),
{
    div_ceil_usize(max_usize(n_features, 1), max_usize(cols, 1))
}

/// The blocking that a memory plan stands for.
pub open spec fn planned_blocking(
    p: GpuStreamingPlan,
    n_features: usize,
    nthread: usize,
) -> BlockingPlan {
    let effective = crate::math::imax(p.resolved_cols_per_block as int, 1);
    BlockingPlan {
        requested: Some(effective as usize),
        effective: effective as usize,
        n_blocks: blocks_of(n_features as int, effective) as usize,
        nthread,
        hist_streams: Some(p.resolved_hist_streams as usize),
        resident_blocks: Some(p.resident_blocks as usize),
        effective_gpu_budget: Some(p.free_vram as usize),
    }
}

/// The heuristic width: the number of blocks is the smallest multiple of the threads at which a
/// block's histogram stays within its budget.
pub open spec fn is_auto_width(
    cols: usize,
    n_features: usize,
    effective_nthread: usize,
    max_bin: usize,
) -> bool {
    &&& 1 <= cols <= crate::math::imax(n_features as int, 1)
    &&& cols <= crate::columns::cache_cap(max_bin as int)
    &&& exists|m: int|
        {
            &&& 1 <= m <= crate::math::imax(n_features as int, 1)
            &&& cols == #[trigger] crate::columns::aligned_cols(
                n_features as int,
                effective_nthread as int,
                m,
            )
            &&& forall|k: int|
                1 <= k < m ==> #[trigger] crate::columns::aligned_cols(
                    n_features as int,
                    effective_nthread as int,
                    k,
                ) > crate::columns::cache_cap(max_bin as int)
        }
}

impl BlockingPlan {
    /// A width that is already decided.
    pub fn explicit(effective: usize, n_features: usize, nthread: usize) -> (r: Self)
        ensures
            r == (BlockingPlan {
                requested: Some(effective),
                effective,
                n_blocks: blocks_of(n_features as int, effective as int) as usize,
                nthread,
                hist_streams: None,
                resident_blocks: None,
                effective_gpu_budget: None,
            }),
    {
        BlockingPlan {
            requested: Some(effective),
            effective,
            n_blocks: count_blocks(n_features, effective),
            nthread,
            hist_streams: None,
            resident_blocks: None,
            effective_gpu_budget: None,
        }
    }

    /// The whole geometry of a memory plan.
    pub fn from_plan(p: &GpuStreamingPlan, n_features: usize, nthread: usize) -> (r: Self)
        requires
            p.resolved_cols_per_block <= usize::MAX,
            p.resolved_hist_streams <= usize::MAX,
            p.resident_blocks <= usize::MAX,
            p.free_vram <= usize::MAX,
        ensures
            r == planned_blocking(*p, n_features, nthread),
    {
        let effective: usize = max_usize(p.resolved_cols_per_block as usize, 1);
        BlockingPlan {
            requested: Some(effective),
            effective,
            n_blocks: count_blocks(n_features, effective),
            nthread,
            hist_streams: Some(p.resolved_hist_streams as usize),
            resident_blocks: Some(p.resident_blocks as usize),
            effective_gpu_budget: Some(p.free_vram as usize),
        }
    }

    /// The width on the host: a positive width that was asked for, and else the heuristic, which
    /// goes by `effective_nthread`, the number of threads that will run.
    pub fn resolve(
        requested: Option<usize>,
        n_features: usize,
        nthread: usize,
        effective_nthread: usize,
        max_bin: usize,
    ) -> (r: Self)
        requires
            (crate::math::imax(max_bin as int, 1) + 1) * 16 <= usize::MAX,
        ensures
            r.requested == requested,
            requested is Some && requested->0 > 0 ==> r.effective == requested->0,
            !(requested is Some && requested->0 > 0) ==> is_auto_width(
                r.effective,
                n_features,
                effective_nthread,
                max_bin,
            ),
            r.n_blocks == blocks_of(n_features as int, r.effective as int),
            r.nthread == nthread,
            r.hist_streams is None,
            r.resident_blocks is None,
            r.effective_gpu_budget is None,
    {
        let effective: usize = match requested {
            Some(c) => if c > 0 {
                c
            } else {
                auto_cols_per_block(n_features, effective_nthread, max_bin)
            },
            None => auto_cols_per_block(n_features, effective_nthread, max_bin),
        };
        BlockingPlan {
            requested,
            effective,
            n_blocks: count_blocks(n_features, effective),
            nthread,
            hist_streams: None,
            resident_blocks: None,
            effective_gpu_budget: None,
        }
    }
}

/// The parameters of a job that the blocking depends on, and those that it settles.
#[derive(Clone, Copy, Debug, PartialEq, Eq, Structural)]
pub struct Geometry {
    pub cols_per_block: usize,
    pub hist_streams: Option<usize>,
    pub resident_blocks: Option<usize>,
    pub gpu_memory_budget: Option<usize>,
    pub nthread: usize,
    pub max_bin: u32,
    pub fast_math: bool,
}

/// The memory of the device that the job runs on.
#[derive(Clone, Copy, Debug, PartialEq, Eq, Structural)]
pub struct DeviceMemory {
    pub free: u64,
    pub total: u64,
}

/// Why no blocking comes out.
#[derive(Clone, Copy, Debug, PartialEq, Eq, Structural)]
pub enum BlockingError {
    /// A plan for a device needs the number of rows, and it is not known.
    RowsUnknown,
    DoesNotFit(PlanError),
}

/// What may be spent on the device: what is free, or less where the caller says so.
pub open spec fn spendable(budget: Option<usize>, memory: DeviceMemory) -> u64 {
    match budget {
        None => memory.free,
        Some(b) => crate::math::imin(b as int, memory.free as int) as u64,
    }
}

/// Never is more spent than is free, nor more than the caller allows, and one of both is spent.
pub proof fn law_no_more_is_spent_than_is_free(budget: Option<usize>, memory: DeviceMemory)
    ensures
        spendable(budget, memory) <= memory.free,
        budget matches Some(b) ==> spendable(budget, memory) <= b,
        spendable(budget, memory) == memory.free || (budget matches Some(b) && spendable(
            budget,
            memory,
        ) == b),
{
}

/// The memory model of a job at a number of streams.
pub open spec fn job_model(rows: u64, max_bin: u32, fast: bool, streams: u64) -> StreamingMemModel {
    let slot = crate::gpu_mem_plan::model_slot_col(
        rows as int,
        max_bin as int,
        PLANNED_NODES_PER_BATCH as int,
    );
    StreamingMemModel {
        fixed_bytes: crate::gpu_mem_plan::model_fixed(
            rows as int,
            true,
            fast,
            true,
            PLANNED_STAGE_BYTES as int,
        ) as u64,
        per_col_bytes: (slot * streams) as u64,
        slot_col_bytes: slot as u64,
    }
}

/// The sizes that planning computes fit a machine word.
pub open spec fn planning_fits(
    g: Geometry,
    requested_cols: Option<usize>,
    n_features: usize,
    rows: u64,
    memory: DeviceMemory,
) -> bool {
    &&& memory.free <= usize::MAX
    &&& crate::gpu_mem_plan::model_fixed(
        rows as int,
        true,
        g.fast_math,
        true,
        PLANNED_STAGE_BYTES as int,
    ) <= u64::MAX
    &&& forall|s: u64| #[trigger]
        crate::gpu_mem_plan::is_queried(g.hist_streams, s) ==> {
            &&& crate::gpu_mem_plan::model_slot_col(
                rows as int,
                g.max_bin as int,
                PLANNED_NODES_PER_BATCH as int,
            ) * s <= u64::MAX
            &&& crate::gpu_mem_plan::stream_plan_fits(
                requested_cols,
                g.resident_blocks,
                n_features as u64,
                spendable(g.gpu_memory_budget, memory),
                s,
                job_model(rows, g.max_bin, g.fast_math, s),
            )
        }
}

/// Do the sizes that planning at `streams` streams computes fit a machine word?
fn streams_ok(
    g: &Geometry,
    requested_cols: Option<usize>,
    n_features: usize,
    rows: u64,
    memory: DeviceMemory,
    streams: u64,
) -> (r: bool)
    requires
        streams >= 1,
        crate::gpu_mem_plan::model_fixed(
            rows as int,
            true,
            g.fast_math,
            true,
            PLANNED_STAGE_BYTES as int,
        ) <= u64::MAX,
    ensures
        r == ({
            &&& crate::gpu_mem_plan::model_slot_col(
                rows as int,
                g.max_bin as int,
                PLANNED_NODES_PER_BATCH as int,
            ) * streams <= u64::MAX
            &&& crate::gpu_mem_plan::stream_plan_fits(
                requested_cols,
                g.resident_blocks,
                n_features as u64,
                spendable(g.gpu_memory_budget, memory),
                streams,
                job_model(rows, g.max_bin, g.fast_math, streams),
            )
        }),
{
    let max_bin: u64 = g.max_bin as u64;
    let per_bins: u64 = (max_bin + 1) * 16 * PLANNED_NODES_PER_BATCH;
    if Total::of(rows).plus(Total::of(per_bins)).times(streams).get().is_none() {
        return false;
    }
    proof {
        lemma_one_slot(rows, g.max_bin, streams);
    }
    let model: StreamingMemModel = StreamingMemModel::new(
        rows,
        max_bin,
        streams,
        PLANNED_NODES_PER_BATCH,
        true,
        g.fast_math,
        true,
        PLANNED_STAGE_BYTES,
    );
    let budget: u64 = match g.gpu_memory_budget {
        None => memory.free,
        Some(b) => min_u64(b as u64, memory.free),
    };
    stream_plan_ok(
        requested_cols,
        g.resident_blocks,
        n_features as u64,
        budget,
        streams,
        model,
    )
}

/// Do the sizes that planning computes fit a machine word?
pub fn planning_ok(
    g: &Geometry,
    requested_cols: Option<usize>,
    n_features: usize,
    rows: u64,
    memory: DeviceMemory,
) -> (r: bool)
    ensures
        r == planning_fits(*g, requested_cols, n_features, rows, memory),
{
    if memory.free > usize::MAX as u64 {
        return false;
    }
    let per_row: u64 = if g.fast_math {
        46
    } else {
        38
    };
    let fixed: Total = Total::of(rows).times(per_row).plus(
        Total::of(8 * 1024 * 1024 + PLANNED_STAGE_BYTES),
    );
    if fixed.get().is_none() {
        return false;
    }
    match g.hist_streams {
        Some(k) => {
            let s: u64 = max_u64(k as u64, 1);
            let ok: bool = streams_ok(g, requested_cols, n_features, rows, memory, s);
            assert(crate::gpu_mem_plan::is_queried(g.hist_streams, s));
            ok
        },
        None => {
            let one: bool = streams_ok(g, requested_cols, n_features, rows, memory, 1);
            let two: bool = streams_ok(g, requested_cols, n_features, rows, memory, 2);
            assert(crate::gpu_mem_plan::is_queried(g.hist_streams, 1));
            assert(crate::gpu_mem_plan::is_queried(g.hist_streams, 2));
            one && two
        },
    }
}

/// The streams that a job is planned with.
pub open spec fn job_streams(
    g: Geometry,
    requested_cols: Option<usize>,
    n_features: usize,
    rows: u64,
    memory: DeviceMemory,
) -> u64 {
    crate::gpu_mem_plan::planned_streams(
        requested_cols,
        g.hist_streams,
        n_features as u64,
        spendable(g.gpu_memory_budget, memory),
        job_model(rows, g.max_bin, g.fast_math, 1),
        job_model(rows, g.max_bin, g.fast_math, 2),
    )
}

/// The memory plan of a job, or the report that nothing fits.
pub open spec fn is_job_plan(
    r: Result<GpuStreamingPlan, PlanError>,
    g: Geometry,
    requested_cols: Option<usize>,
    n_features: usize,
    rows: u64,
    memory: DeviceMemory,
) -> bool {
    let s = job_streams(g, requested_cols, n_features, rows, memory);
    crate::gpu_mem_plan::is_stream_plan(
        r,
        requested_cols,
        g.resident_blocks,
        n_features as u64,
        spendable(g.gpu_memory_budget, memory),
        memory.total,
        s,
        job_model(rows, g.max_bin, g.fast_math, s),
    )
}

/// Plans width, streams and residency for a device.
pub fn plan_for_device(
    g: &Geometry,
    requested_cols: Option<usize>,
    n_features: usize,
    rows: u64,
    memory: DeviceMemory,
) -> (r: Result<GpuStreamingPlan, PlanError>)
    requires
        planning_fits(*g, requested_cols, n_features, rows, memory),
    ensures
        is_job_plan(r, *g, requested_cols, n_features, rows, memory),
{
    let budget: u64 = match g.gpu_memory_budget {
        None => memory.free,
        Some(b) => min_u64(b as u64, memory.free),
    };
    let max_bin: u64 = g.max_bin as u64;
    let fast: bool = g.fast_math;
    let ghost g0 = *g;
    let make = |streams: u64| -> (m: StreamingMemModel)
        requires
            crate::gpu_mem_plan::is_queried(g0.hist_streams, streams),
            planning_fits(g0, requested_cols, n_features, rows, memory),
            max_bin == g0.max_bin,
            fast == g0.fast_math,
        ensures
            m == job_model(rows, g0.max_bin, g0.fast_math, streams),
        {
            proof {
                lemma_one_slot(rows, g0.max_bin, streams);
                assert(streams >= 1);
            }
            StreamingMemModel::new(
                rows,
                max_bin,
                streams,
                PLANNED_NODES_PER_BATCH,
                true,
                fast,
                true,
                PLANNED_STAGE_BYTES,
            )
        };
    let r: Result<GpuStreamingPlan, PlanError> = resolve_gpu_streaming_plan(
        requested_cols,
        g.hist_streams,
        g.resident_blocks,
        n_features as u64,
        budget,
        memory.total,
        make,
    );
    r
}

proof fn lemma_one_slot(rows: u64, max_bin: u32, streams: u64)
    ensures
        streams >= 1 ==> crate::gpu_mem_plan::model_slot_col(
            rows as int,
            max_bin as int,
            PLANNED_NODES_PER_BATCH as int,
        ) <= crate::gpu_mem_plan::model_slot_col(
            rows as int,
            max_bin as int,
            PLANNED_NODES_PER_BATCH as int,
        ) * streams,
{
    let slot = crate::gpu_mem_plan::model_slot_col(
        rows as int,
        max_bin as int,
        PLANNED_NODES_PER_BATCH as int,
    );
    assert(slot >= 0);
    if streams >= 1 {
        assert(slot <= slot * streams) by (nonlinear_arith)
            requires
                slot >= 0,
                streams >= 1,
        ;
    }
}

/// The blocking of a job, or why there is none: on a device by one memory plan, which needs the
/// number of rows; on the host by the width asked for or by the heuristic.
pub open spec fn is_blocking(
    r: Result<BlockingPlan, BlockingError>,
    g: Geometry,
    requested_cols: Option<usize>,
    device: Option<DeviceMemory>,
    n_features: usize,
    n_rows: Option<u64>,
    effective_nthread: usize,
) -> bool {
    match (device, n_rows) {
        (None, _) => r matches Ok(b) && {
            &&& b.requested == requested_cols
            &&& requested_cols is Some && requested_cols->0 > 0 ==> b.effective
                == requested_cols->0
            &&& !(requested_cols is Some && requested_cols->0 > 0) ==> is_auto_width(
                b.effective,
                n_features,
                effective_nthread,
                g.max_bin as usize,
            )
            &&& b.n_blocks == blocks_of(n_features as int, b.effective as int)
            &&& b.nthread == g.nthread
            &&& b.hist_streams is None && b.resident_blocks is None
                && b.effective_gpu_budget is None
        },
        (Some(_), None) => r == Err::<BlockingPlan, BlockingError>(BlockingError::RowsUnknown),
        (Some(memory), Some(rows)) => match r {
            Ok(b) => exists|p: GpuStreamingPlan| #[trigger]
                is_job_plan(Ok(p), g, requested_cols, n_features, rows, memory) && b
                    == planned_blocking(p, n_features, g.nthread),
            Err(BlockingError::DoesNotFit(e)) => is_job_plan(
                Err(e),
                g,
                requested_cols,
                n_features,
                rows,
                memory,
            ),
            Err(BlockingError::RowsUnknown) => false,
        },
    }
}

/// The sizes that the blocking of a job computes fit a machine word.
pub open spec fn blocking_fits(
    g: Geometry,
    requested_cols: Option<usize>,
    device: Option<DeviceMemory>,
    n_features: usize,
    n_rows: Option<u64>,
) -> bool {
    &&& (g.max_bin + 2) * 16 <= usize::MAX
    &&& device is Some && n_rows is Some ==> planning_fits(
        g,
        requested_cols,
        n_features,
        n_rows->0,
        device->0,
    )
}

/// Do the sizes that the blocking of a job computes fit a machine word?
pub fn blocking_ok(
    g: &Geometry,
    requested_cols: Option<usize>,
    device: Option<DeviceMemory>,
    n_features: usize,
    n_rows: Option<u64>,
) -> (r: bool)
    ensures
        r == blocking_fits(*g, requested_cols, device, n_features, n_rows),
{
    if (g.max_bin as u64 + 2) * 16 > usize::MAX as u64 {
        return false;
    }
    match (device, n_rows) {
        (Some(memory), Some(rows)) => planning_ok(g, requested_cols, n_features, rows, memory),
        _ => true,
    }
}

/// The blocking of a job. On a device one memory plan settles width, streams and residency, also
/// where the width was asked for; it needs the number of rows, and no other number will do in
/// its place. On the host the width is the one asked for or the heuristic's.
pub fn resolve_blocking(
    g: &Geometry,
    requested_cols: Option<usize>,
    device: Option<DeviceMemory>,
    n_features: usize,
    n_rows: Option<u64>,
    effective_nthread: usize,
) -> (r: Result<BlockingPlan, BlockingError>)
    requires
        blocking_fits(*g, requested_cols, device, n_features, n_rows),
    ensures
        is_blocking(r, *g, requested_cols, device, n_features, n_rows, effective_nthread),
        r matches Ok(b) ==> b.effective > 0,
{
    match device {
        None => Ok(
            BlockingPlan::resolve(
                requested_cols,
                n_features,
                g.nthread,
                effective_nthread,
                g.max_bin as usize,
            ),
        ),
        Some(memory) => match n_rows {
            None => Err(BlockingError::RowsUnknown),
            Some(rows) => match plan_for_device(g, requested_cols, n_features, rows, memory) {
                Err(e) => Err(BlockingError::DoesNotFit(e)),
                Ok(p) => {
                    proof {
                        lemma_plan_fits_words(p, *g, requested_cols, n_features, rows, memory);
                    }
                    Ok(BlockingPlan::from_plan(&p, n_features, g.nthread))
                },
            },
        },
    }
}

proof fn lemma_plan_fits_words(
    p: GpuStreamingPlan,
    g: Geometry,
    requested_cols: Option<usize>,
    n_features: usize,
    rows: u64,
    memory: DeviceMemory,
)
    requires
        planning_fits(g, requested_cols, n_features, rows, memory),
        is_job_plan(Ok(p), g, requested_cols, n_features, rows, memory),
    ensures
        p.resolved_cols_per_block <= crate::math::imax(n_features as int, 1),
        p.resolved_hist_streams <= usize::MAX,
        p.resident_blocks <= usize::MAX,
        p.free_vram <= usize::MAX,
{
    let n = crate::math::imax(n_features as int, 1);
    let s = job_streams(g, requested_cols, n_features, rows, memory);
    let model = job_model(rows, g.max_bin, g.fast_math, s);
    let free = spendable(g.gpu_memory_budget, memory);
    let solved = model.spec_solve(crate::gpu_mem_plan::budget_of(free as int), n);
    crate::gpu_mem_plan::law_solve_is_widest(
        model,
        crate::gpu_mem_plan::budget_of(free as int),
        n,
    );
    crate::gpu_mem_plan::law_knee_is_narrowest_that_meets_the_target(n, solved->0);
    crate::gpu_mem_plan::law_residency_is_bounded_by_physical_blocks(
        p,
        requested_cols,
        g.resident_blocks,
        n_features as u64,
        free,
        memory.total,
        s,
        model,
    );
    crate::math::lemma_ceil_div(n, p.resolved_cols_per_block as int);
}

/// The parameters after a plan: what was planned, and else what they were.
pub open spec fn applied(g: Geometry, plan: BlockingPlan) -> Geometry {
    Geometry {
        hist_streams: if plan.hist_streams is Some {
            plan.hist_streams
        } else {
            g.hist_streams
        },
        resident_blocks: if plan.resident_blocks is Some {
            plan.resident_blocks
        } else {
            g.resident_blocks
        },
        gpu_memory_budget: if plan.effective_gpu_budget is Some {
            plan.effective_gpu_budget
        } else {
            g.gpu_memory_budget
        },
        ..g
    }
}

/// Writes the planned geometry into the parameters. Only what was planned is written.
pub fn apply_resolved_geometry(g: &mut Geometry, plan: &BlockingPlan)
    ensures
        *final(g) == applied(*old(g), *plan),
{
    if let Some(n) = plan.hist_streams {
        g.hist_streams = Some(n);
    }
    if let Some(n) = plan.resident_blocks {
        g.resident_blocks = Some(n);
    }
    if let Some(b) = plan.effective_gpu_budget {
        g.gpu_memory_budget = Some(b);
    }
}

/// A width that was asked for and does not exceed the features is kept by the memory plan.
pub proof fn law_plan_keeps_an_explicit_width(
    p: GpuStreamingPlan,
    g: Geometry,
    cols: usize,
    n_features: usize,
    rows: u64,
    memory: DeviceMemory,
)
    requires
        0 < cols <= crate::math::imax(n_features as int, 1),
        is_job_plan(Ok(p), g, Some(cols), n_features, rows, memory),
    ensures
        planned_blocking(p, n_features, g.nthread).effective == cols,
{
}

} // verus!
