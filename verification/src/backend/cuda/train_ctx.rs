//! The training context of a device: what is chosen, what is allocated, and what it costs.
//!
//! Everything long-lived is allocated once, for the widest block, when training starts. The
//! same numbers make up the memory budget, so the report and the allocations agree.
use vstd::prelude::*;

use crate::backend::cuda::histogram::{
    shared_limit, tile_limit, DeviceLimits, HistogramError, SharedHistogramConfig,
};
use crate::backend::cuda::partition::{block_size_ok, is_block_size, MAX_LEVEL_NODES};
use crate::gpu_mem_plan::ROW_MAJOR_MAX_FEATS;
use crate::math::{
    ceil_div, div_ceil_usize, iclamp, imax, imin, lemma_ceil_div, max_usize, min_usize, Total,
};
use crate::report::{
    bool_text, decimal, decimal_text, megabytes, megabytes_text, spec_bool_text,
};
use crate::types::GpuMath;

verus! {

/// Threads per block of the gradient reductions.
pub const GPAIR_THREADS: usize = 256;

/// The most blocks of a gradient reduction.
pub const GPAIR_BLOCKS: usize = 1024;

/// The most nodes that one histogram launch takes together.
pub const MAX_HIST_NODES_PER_BATCH: usize = 32;

/// Staging memory of the row-major upload, over all slots.
pub const RM_STAGE_BYTES: usize = 33_554_432;

/// The least staging memory of one slot.
pub const RM_STAGE_MIN_PER_SLOT: usize = 4_194_304;

/// A number that may come from the environment.
#[derive(Clone, Copy, Debug, PartialEq, Eq, Structural)]
pub enum EnvNumber {
    Unset,
    Value(usize),
    /// Set to something that is not a number.
    Invalid,
}

/// A switch that may come from the environment.
#[derive(Clone, Copy, Debug, PartialEq, Eq, Structural)]
pub enum EnvSwitch {
    Unset,
    Off,
    On,
    /// Set to something that is neither.
    Invalid,
}

/// The overrides that a run is started with.
#[derive(Clone, Copy, Debug, PartialEq, Eq, Structural)]
pub struct TrainEnv {
    /// Launches are profiled one by one, without the fused kernels.
    pub bucket_profile: bool,
    pub hist_nodes_per_batch: EnvNumber,
    pub row_major: EnvSwitch,
    pub resident_blocks: EnvNumber,
    pub hist_streams: EnvNumber,
    /// Device quantization is switched off.
    pub device_quantize_off: bool,
    /// Uploads go through page-locked memory.
    pub pinned: bool,
    /// The device context tracks the events of its streams.
    pub tracks_events: bool,
}

/// The shape of the data that a context is made for.
#[derive(Clone, Copy, Debug, PartialEq, Eq, Structural)]
pub struct TrainShape {
    pub n_rows: usize,
    /// Features of the widest block.
    pub max_block_feats: usize,
    /// Bins of the widest block.
    pub max_hist_bins: usize,
    /// Physical column blocks.
    pub n_blocks: usize,
    pub partition_threads: u32,
}

/// Why a context is refused.
#[derive(Clone, Copy, Debug, PartialEq, Eq, Structural)]
pub enum TrainCtxError {
    NoRows,
    TooManyRows,
    /// Partition threads are not a power of two in 1..=1024.
    PartitionThreads,
    /// Histogram threads are not in 1..=1024.
    HistThreads,
    NodesPerBatchNotANumber,
    NodesPerBatchZero,
    NodesPerBatchTooLarge { nodes: usize },
    RowMajorNotASwitch,
    SharedLimitInvalid,
    SharedTooSmall,
    ResidentBlocksNotANumber,
    HistStreamsNotANumber,
    /// Streams are neither 1 nor 2.
    HistStreams { streams: usize },
    /// Device gradients need device quantization.
    FastNeedsDeviceQuantize,
    /// Page-locked double buffering needs event tracking.
    PinnedNeedsEventTracking,
}

/// What a context decides before it allocates.
#[derive(Clone, Copy, Debug, PartialEq, Eq, Structural)]
pub struct TrainChoices {
    /// The kernels that take all feature tiles in one launch are used.
    pub fused: bool,
    pub hist_nodes_per_batch: usize,
    pub fast_math: bool,
    /// Blocks are kept row-major on the device.
    pub row_major: bool,
    /// Gradients are quantized on the device.
    pub device_quantize: bool,
    pub max_bins_per_tile: usize,
    pub resident_blocks: usize,
    pub hist_streams: usize,
    pub pinned: bool,
}

/// A given value, else the environment's, else a default.
pub open spec fn pick(given: Option<usize>, env: EnvNumber, default: usize) -> Option<usize> {
    match given {
        Some(n) => Some(n),
        None => match env {
            EnvNumber::Unset => Some(default),
            EnvNumber::Value(n) => Some(n),
            EnvNumber::Invalid => None,
        },
    }
}

fn pick_number(given: Option<usize>, env: EnvNumber, default: usize) -> (r: Option<usize>)
    ensures
        r == pick(given, env, default),
{
    match given {
        Some(n) => Some(n),
        None => match env {
            EnvNumber::Unset => Some(default),
            EnvNumber::Value(n) => Some(n),
            EnvNumber::Invalid => None,
        },
    }
}

/// Are gradients quantized on the device? Device gradients always are, so that the kernels
/// and the buffers never disagree.
pub open spec fn quantizes_on_device(config: SharedHistogramConfig, env: TrainEnv) -> bool {
    ||| config.gpu_math == GpuMath::Fast
    ||| match config.device_quantize {
        Some(v) => v,
        None => !env.device_quantize_off,
    }
}

/// Blocks are row-major unless that is switched off, the fused kernels are missing, or a
/// block is wider than a row-major kernel covers.
pub open spec fn uses_row_major(shape: TrainShape, env: TrainEnv) -> bool {
    &&& env.row_major != EnvSwitch::Off
    &&& !env.bucket_profile
    &&& shape.max_block_feats <= ROW_MAJOR_MAX_FEATS
}

/// The resident blocks that are asked for, at most the physical ones.
pub open spec fn resident_count(requested: usize, n_blocks: usize) -> usize {
    if requested <= n_blocks {
        requested
    } else {
        n_blocks
    }
}

/// Streams where nothing was asked for: two only for row-major streaming.
pub open spec fn default_streams(resident: usize, row_major: bool) -> usize {
    if resident == 0 && row_major {
        2
    } else {
        1
    }
}

/// What is asked for counts: a number in the configuration is taken, whatever the environment says;
/// without one, the environment's; without that, the default. Only as many blocks are resident as
/// there are, gradients made on the device are quantized there, and a tile holds a histogram of as
/// many bins as fit the shared memory that a block may use.
pub proof fn law_choices_are_those_asked_for(
    shape: TrainShape,
    config: SharedHistogramConfig,
    env: TrainEnv,
    limits: DeviceLimits,
)
    requires
        spec_choices(shape, config, env, limits) is Ok,
    ensures
        ({
            let c = spec_choices(shape, config, env, limits)->Ok_0;
            &&& config.hist_nodes_per_batch matches Some(n) ==> c.hist_nodes_per_batch == n
            &&& config.hist_nodes_per_batch is None ==> match env.hist_nodes_per_batch {
                EnvNumber::Value(n) => c.hist_nodes_per_batch == n,
                _ => c.hist_nodes_per_batch == 16,
            }
            &&& config.hist_streams matches Some(n) ==> c.hist_streams == n
            &&& config.hist_streams is None ==> match env.hist_streams {
                EnvNumber::Value(n) => c.hist_streams == n,
                _ => c.hist_streams == 2 <==> c.row_major && c.resident_blocks == 0,
            }
            &&& 1 <= c.hist_streams <= 2
            &&& c.resident_blocks <= shape.n_blocks
            &&& config.resident_blocks matches Some(n) ==> (n <= shape.n_blocks
                ==> c.resident_blocks == n) && (n > shape.n_blocks ==> c.resident_blocks
                == shape.n_blocks)
            &&& config.resident_blocks is None && env.resident_blocks == EnvNumber::Unset
                ==> c.resident_blocks == 0
            &&& c.fast_math <==> config.gpu_math == GpuMath::Fast
            &&& c.fast_math ==> c.device_quantize
            &&& !c.fast_math ==> (config.device_quantize matches Some(v) ==> c.device_quantize
                == v)
            &&& c.row_major ==> c.fused && shape.max_block_feats <= ROW_MAJOR_MAX_FEATS
            &&& c.fused <==> !env.bucket_profile
            &&& c.pinned == env.pinned
            &&& c.max_bins_per_tile * 16 <= limits.shared_bytes_per_block
                - limits.static_shared_bytes
        }),
{
}

/// What a context decides, or the first check that fails.
pub open spec fn spec_choices(
    shape: TrainShape,
    config: SharedHistogramConfig,
    env: TrainEnv,
    limits: DeviceLimits,
) -> Result<TrainChoices, TrainCtxError> {
    let nodes = pick(config.hist_nodes_per_batch, env.hist_nodes_per_batch, 16);
    let row_major = uses_row_major(shape, env);
    let limit = shared_limit(config.shared_memory_budget_bytes, limits);
    let requested = pick(config.resident_blocks, env.resident_blocks, 0);
    let resident = resident_count(requested->0, shape.n_blocks);
    let streams = pick(config.hist_streams, env.hist_streams, default_streams(resident, row_major));
    let fast = config.gpu_math == GpuMath::Fast;
    if shape.n_rows == 0 {
        Err(TrainCtxError::NoRows)
    } else if shape.n_rows > u32::MAX {
        Err(TrainCtxError::TooManyRows)
    } else if !is_block_size(shape.partition_threads) {
        Err(TrainCtxError::PartitionThreads)
    } else if config.threads_per_block == 0 || config.threads_per_block > 1024 {
        Err(TrainCtxError::HistThreads)
    } else if nodes is None {
        Err(TrainCtxError::NodesPerBatchNotANumber)
    } else if nodes->0 == 0 {
        Err(TrainCtxError::NodesPerBatchZero)
    } else if nodes->0 > MAX_HIST_NODES_PER_BATCH {
        Err(TrainCtxError::NodesPerBatchTooLarge { nodes: nodes->0 })
    } else if env.row_major == EnvSwitch::Invalid {
        Err(TrainCtxError::RowMajorNotASwitch)
    } else if limits.shared_bytes_per_block < limits.static_shared_bytes {
        Err(TrainCtxError::SharedLimitInvalid)
    } else if limit < 16 {
        Err(TrainCtxError::SharedTooSmall)
    } else if requested is None {
        Err(TrainCtxError::ResidentBlocksNotANumber)
    } else if streams is None {
        Err(TrainCtxError::HistStreamsNotANumber)
    } else if streams->0 != 1 && streams->0 != 2 {
        Err(TrainCtxError::HistStreams { streams: streams->0 })
    } else if fast && config.device_quantize == Some(false) {
        Err(TrainCtxError::FastNeedsDeviceQuantize)
    } else if row_major && env.pinned && !env.tracks_events {
        Err(TrainCtxError::PinnedNeedsEventTracking)
    } else {
        Ok(
            TrainChoices {
                fused: !env.bucket_profile,
                hist_nodes_per_batch: nodes->0,
                fast_math: fast,
                row_major,
                device_quantize: quantizes_on_device(config, env),
                max_bins_per_tile: (limit / 16) as usize,
                resident_blocks: resident,
                hist_streams: streams->0,
                pinned: env.pinned,
            },
        )
    }
}

/// Decides how a context runs. A given parameter wins over the environment, and that over
/// the default.
pub fn resolve_choices(
    shape: TrainShape,
    config: SharedHistogramConfig,
    env: TrainEnv,
    limits: DeviceLimits,
) -> (r: Result<TrainChoices, TrainCtxError>)
    ensures
        r == spec_choices(shape, config, env, limits),
{
    if shape.n_rows == 0 {
        return Err(TrainCtxError::NoRows);
    }
    if shape.n_rows > 0xffff_ffff {
        return Err(TrainCtxError::TooManyRows);
    }
    if !block_size_ok(shape.partition_threads) {
        return Err(TrainCtxError::PartitionThreads);
    }
    if config.threads_per_block == 0 || config.threads_per_block > 1024 {
        return Err(TrainCtxError::HistThreads);
    }
    let nodes: usize = match pick_number(
        config.hist_nodes_per_batch,
        env.hist_nodes_per_batch,
        16,
    ) {
        Some(n) => n,
        None => {
            return Err(TrainCtxError::NodesPerBatchNotANumber);
        },
    };
    if nodes == 0 {
        return Err(TrainCtxError::NodesPerBatchZero);
    }
    if nodes > MAX_HIST_NODES_PER_BATCH {
        return Err(TrainCtxError::NodesPerBatchTooLarge { nodes });
    }
    if env.row_major == EnvSwitch::Invalid {
        return Err(TrainCtxError::RowMajorNotASwitch);
    }
    let row_major: bool = env.row_major != EnvSwitch::Off && !env.bucket_profile
        && shape.max_block_feats as u64 <= ROW_MAJOR_MAX_FEATS;
    let max_bins: usize = match tile_limit(config.shared_memory_budget_bytes, limits) {
        Ok((_bytes, bins)) => bins,
        Err(HistogramError::SharedLimitInvalid) => {
            return Err(TrainCtxError::SharedLimitInvalid);
        },
        Err(_) => {
            return Err(TrainCtxError::SharedTooSmall);
        },
    };
    let requested: usize = match pick_number(config.resident_blocks, env.resident_blocks, 0) {
        Some(n) => n,
        None => {
            return Err(TrainCtxError::ResidentBlocksNotANumber);
        },
    };
    let resident: usize = min_usize(requested, shape.n_blocks);
    let default: usize = if resident == 0 && row_major {
        2
    } else {
        1
    };
    let streams: usize = match pick_number(config.hist_streams, env.hist_streams, default) {
        Some(n) => n,
        None => {
            return Err(TrainCtxError::HistStreamsNotANumber);
        },
    };
    if streams != 1 && streams != 2 {
        return Err(TrainCtxError::HistStreams { streams });
    }
    let fast: bool = config.gpu_math == GpuMath::Fast;
    let wanted: bool = match config.device_quantize {
        Some(v) => {
            if fast && !v {
                return Err(TrainCtxError::FastNeedsDeviceQuantize);
            }
            v
        },
        None => !env.device_quantize_off,
    };
    if row_major && env.pinned && !env.tracks_events {
        return Err(TrainCtxError::PinnedNeedsEventTracking);
    }
    Ok(
        TrainChoices {
            fused: !env.bucket_profile,
            hist_nodes_per_batch: nodes,
            fast_math: fast,
            row_major,
            device_quantize: wanted || fast,
            max_bins_per_tile: max_bins,
            resident_blocks: resident,
            hist_streams: streams,
            pinned: env.pinned,
        },
    )
}

/// Device memory that is allocated when training starts, in bytes.
#[derive(Clone, Copy, Debug, PartialEq, Eq, Structural)]
pub struct GpuMemoryBudget {
    /// Slots that hold a block: streaming and resident together.
    pub hist_streams: usize,
    pub gpair_bytes: usize,
    pub row_idx_bytes: usize,
    pub partition_out_bytes: usize,
    pub partition_scratch_bytes: usize,
    pub partition_col_bytes: usize,
    pub block_bins_bytes: usize,
    pub hist_bytes: usize,
    pub hist_nodes_batch_idx_bytes: usize,
    pub fast_math_bytes: usize,
    pub rm_stage_bytes: usize,
    pub offsets_bytes: usize,
    pub hist_feature_select_bytes: usize,
    pub prediction_bytes: usize,
    pub gpair_f32_bytes: usize,
}

impl GpuMemoryBudget {
    /// Everything together.
    pub open spec fn spec_total(self) -> int {
        self.spec_per_row() + self.block_bins_bytes + self.hist_bytes + self.offsets_bytes
            + self.hist_nodes_batch_idx_bytes + self.rm_stage_bytes
            + self.hist_feature_select_bytes
    }

    /// What grows with the rows alone, however narrow the blocks are.
    pub open spec fn spec_per_row(self) -> int {
        self.gpair_bytes + self.row_idx_bytes + self.partition_out_bytes
            + self.partition_scratch_bytes + self.partition_col_bytes + self.prediction_bytes
            + self.gpair_f32_bytes + self.fast_math_bytes
    }

    /// Everything together.
    pub fn total(&self) -> (r: usize)
        requires
            self.spec_total() <= usize::MAX,
        ensures
            r == self.spec_total(),
    {
        self.gpair_bytes + self.row_idx_bytes + self.partition_out_bytes
            + self.partition_scratch_bytes + self.partition_col_bytes + self.block_bins_bytes
            + self.hist_bytes + self.offsets_bytes + self.prediction_bytes + self.gpair_f32_bytes
            + self.hist_nodes_batch_idx_bytes + self.fast_math_bytes + self.rm_stage_bytes
            + self.hist_feature_select_bytes
    }

    /// What grows with the rows alone.
    pub fn per_row_bytes(&self) -> (r: usize)
        requires
            self.spec_per_row() <= usize::MAX,
        ensures
            r == self.spec_per_row(),
    {
        self.gpair_bytes + self.row_idx_bytes + self.partition_out_bytes
            + self.partition_scratch_bytes + self.partition_col_bytes + self.prediction_bytes
            + self.gpair_f32_bytes + self.fast_math_bytes
    }
}

/// Page-locked host memory that is allocated when training starts, in bytes.
#[derive(Clone, Copy, Debug, PartialEq, Eq, Structural)]
pub struct GpuHostMemoryBudget {
    pub block_bins_bytes: usize,
    pub rm_stage_bytes: usize,
    pub gpair_bytes: usize,
}

impl GpuHostMemoryBudget {
    /// Everything together.
    pub open spec fn spec_total(self) -> int {
        self.block_bins_bytes + self.rm_stage_bytes + self.gpair_bytes
    }

    /// Everything together.
    pub fn total(&self) -> (r: usize)
        requires
            self.spec_total() <= usize::MAX,
        ensures
            r == self.spec_total(),
    {
        self.block_bins_bytes + self.rm_stage_bytes + self.gpair_bytes
    }
}

impl GpuMemoryBudget {
    /// The budget in words.
    pub open spec fn told(self) -> Seq<char> {
        "预分配显存 "@ + megabytes(self.spec_total() as nat, 1) + " MB("@ + decimal(self.hist_streams as nat)
            + " 条 histogram stream) = gpair "@ + megabytes(self.gpair_bytes as nat, 1)
            + " + row_idx "@ + megabytes(self.row_idx_bytes as nat, 1)
            + " + partition 输出 "@ + megabytes(self.partition_out_bytes as nat, 1)
            + " + partition 临时 "@ + megabytes(self.partition_scratch_bytes as nat, 1)
            + " + partition 取列 "@ + megabytes(self.partition_col_bytes as nat, 1)
            + " + 列块 buffer "@ + megabytes(self.block_bins_bytes as nat, 1)
            + " + 直方图 "@ + megabytes(self.hist_bytes as nat, 1)
            + " + offsets "@ + megabytes(self.offsets_bytes as nat, 3)
            + " + colsample 选择 "@ + megabytes(self.hist_feature_select_bytes as nat, 3)
            + " + prediction "@ + megabytes(self.prediction_bytes as nat, 1)
            + " + device-quant "@ + megabytes(self.gpair_f32_bytes as nat, 1)
            + " + batch 索引 "@ + megabytes(self.hist_nodes_batch_idx_bytes as nat, 3)
            + " + fast-math "@ + megabytes(self.fast_math_bytes as nat, 1)
            + " + rm-stage "@ + megabytes(self.rm_stage_bytes as nat, 1)
            + ";其中 O(行数) 部分 "@ + megabytes(self.spec_per_row() as nat, 1) + " MB"@
    }

    /// The budget in words.
    pub fn report(&self) -> (r: String)
        requires
            self.spec_total() <= usize::MAX,
        ensures
            r@ == self.told(),
    {
        "预分配显存 ".to_owned().concat(megabytes_text(self.total() as u64, 1).as_str()).concat(
            " MB(",
        ).concat(decimal_text(self.hist_streams as u64).as_str()).concat(
            " 条 histogram stream) = gpair ",
        ).concat(megabytes_text(self.gpair_bytes as u64, 1).as_str()).concat(" + row_idx ").concat(
            megabytes_text(self.row_idx_bytes as u64, 1).as_str(),
        ).concat(" + partition 输出 ").concat(
            megabytes_text(self.partition_out_bytes as u64, 1).as_str(),
        ).concat(" + partition 临时 ").concat(
            megabytes_text(self.partition_scratch_bytes as u64, 1).as_str(),
        ).concat(" + partition 取列 ").concat(
            megabytes_text(self.partition_col_bytes as u64, 1).as_str(),
        ).concat(" + 列块 buffer ").concat(
            megabytes_text(self.block_bins_bytes as u64, 1).as_str(),
        ).concat(" + 直方图 ").concat(
            megabytes_text(self.hist_bytes as u64, 1).as_str(),
        ).concat(" + offsets ").concat(
            megabytes_text(self.offsets_bytes as u64, 3).as_str(),
        ).concat(" + colsample 选择 ").concat(
            megabytes_text(self.hist_feature_select_bytes as u64, 3).as_str(),
        ).concat(" + prediction ").concat(
            megabytes_text(self.prediction_bytes as u64, 1).as_str(),
        ).concat(" + device-quant ").concat(
            megabytes_text(self.gpair_f32_bytes as u64, 1).as_str(),
        ).concat(" + batch 索引 ").concat(
            megabytes_text(self.hist_nodes_batch_idx_bytes as u64, 3).as_str(),
        ).concat(" + fast-math ").concat(
            megabytes_text(self.fast_math_bytes as u64, 1).as_str(),
        ).concat(" + rm-stage ").concat(
            megabytes_text(self.rm_stage_bytes as u64, 1).as_str(),
        ).concat(";其中 O(行数) 部分 ").concat(megabytes_text(self.per_row_bytes() as u64, 1).as_str()).concat(
            " MB",
        )
    }
}

impl GpuHostMemoryBudget {
    /// The budget in words.
    pub open spec fn told(self) -> Seq<char> {
        "pinned host "@ + megabytes(self.spec_total() as nat, 1) + " MB = 列块 staging "@ + megabytes(
            self.block_bins_bytes as nat,
            1,
        ) + " + 行主序暂存 "@ + megabytes(self.rm_stage_bytes as nat, 1) + " + gpair staging "@
            + megabytes(self.gpair_bytes as nat, 1)
    }

    /// The budget in words.
    pub fn report(&self) -> (r: String)
        requires
            self.spec_total() <= usize::MAX,
        ensures
            r@ == self.told(),
    {
        "pinned host ".to_owned().concat(megabytes_text(self.total() as u64, 1).as_str()).concat(
            " MB = 列块 staging ",
        ).concat(megabytes_text(self.block_bins_bytes as u64, 1).as_str()).concat(
            " + 行主序暂存 ",
        ).concat(megabytes_text(self.rm_stage_bytes as u64, 1).as_str()).concat(
            " + gpair staging ",
        ).concat(megabytes_text(self.gpair_bytes as u64, 1).as_str())
    }
}

impl TrainChoices {
    /// Slots that hold a block.
    pub open spec fn slots(self) -> int {
        self.hist_streams + self.resident_blocks
    }

    /// Staging buffers per slot: two where page-locked uploads alternate.
    pub open spec fn rm_bufs(self) -> int {
        if self.row_major && self.pinned {
            2
        } else {
            1
        }
    }

    /// Words of the block table of a batch.
    pub open spec fn batch_idx_len(self) -> int {
        if self.fused || self.row_major {
            self.hist_nodes_per_batch * 3 + 1
        } else {
            1
        }
    }

    /// Staging bytes that a slot gets: an equal share, but not less than the minimum.
    pub open spec fn rm_stage_per_slot(self) -> int {
        if self.row_major {
            imax(RM_STAGE_BYTES as int / imax(self.slots(), 1), RM_STAGE_MIN_PER_SLOT as int)
        } else {
            0
        }
    }

    /// Rows that one staging buffer holds.
    pub open spec fn rm_chunk_rows(self, shape: TrainShape) -> int {
        if self.row_major {
            iclamp(
                self.rm_stage_per_slot() / self.rm_bufs() / imax(shape.max_block_feats as int, 1),
                1,
                shape.n_rows as int,
            )
        } else {
            0
        }
    }

    /// Bytes of one staging buffer.
    pub open spec fn rm_stage_len(self, shape: TrainShape) -> int {
        self.rm_chunk_rows(shape) * shape.max_block_feats
    }
}

impl TrainShape {
    /// Blocks of the partition kernels over all rows.
    pub open spec fn part_blocks(self) -> int {
        ceil_div(self.n_rows as int, self.partition_threads as int)
    }

    /// Blocks of the gradient reductions.
    pub open spec fn gpair_blocks(self) -> int {
        imin(GPAIR_BLOCKS as int, imax(ceil_div(self.n_rows as int, GPAIR_THREADS as int), 1))
    }

    /// Bytes of the widest block.
    pub open spec fn bins_len(self) -> int {
        self.max_block_feats * self.n_rows
    }
}

/// Bytes of the block buffers of all slots.
pub open spec fn bins_bytes(shape: TrainShape, c: TrainChoices) -> int {
    shape.bins_len() * c.slots()
}

/// Bytes of the histograms of all slots.
pub open spec fn hist_out_bytes(shape: TrainShape, c: TrainChoices) -> int {
    shape.max_hist_bins * 2 * 8 * c.hist_nodes_per_batch * c.slots()
}

/// Bytes of the row-major staging of all slots.
pub open spec fn staging_bytes(shape: TrainShape, c: TrainChoices) -> int {
    if c.row_major {
        c.rm_stage_len(shape) * c.rm_bufs() * c.slots()
    } else {
        0
    }
}

/// The device budget of a context.
pub open spec fn is_budget(b: GpuMemoryBudget, shape: TrainShape, c: TrainChoices) -> bool {
    let n = shape.n_rows as int;
    &&& b.hist_streams == c.slots()
    &&& b.gpair_bytes == n * 16
    &&& b.row_idx_bytes == n * 4
    &&& b.partition_out_bytes == n * 4
    &&& b.partition_scratch_bytes == n + (shape.part_blocks() * 3 + 2) * 4 + MAX_LEVEL_NODES * 8
    &&& b.partition_col_bytes == n
    &&& b.block_bins_bytes == bins_bytes(shape, c)
    &&& b.hist_bytes == hist_out_bytes(shape, c)
    &&& b.hist_nodes_batch_idx_bytes == if c.fused || c.row_major {
        c.batch_idx_len() * 4 * c.slots()
    } else {
        0
    }
    &&& b.fast_math_bytes == if c.fast_math {
        n * 8
    } else {
        0
    }
    &&& b.rm_stage_bytes == staging_bytes(shape, c)
    &&& b.offsets_bytes == (shape.max_block_feats + 1) * 4 * c.slots()
    &&& b.hist_feature_select_bytes == imax(shape.max_block_feats as int, 1) * 4 * c.slots()
    &&& b.prediction_bytes == n * 4
    &&& b.gpair_f32_bytes == if c.device_quantize {
        n * 8 + shape.gpair_blocks() * 32
    } else {
        0
    }
}

/// The host budget of a context.
pub open spec fn is_host_budget(
    b: GpuHostMemoryBudget,
    shape: TrainShape,
    c: TrainChoices,
) -> bool {
    &&& b.block_bins_bytes == if c.pinned && !c.row_major {
        c.slots() * imax(shape.bins_len(), 1)
    } else {
        0
    }
    &&& b.rm_stage_bytes == if c.pinned && c.row_major {
        imax(c.rm_stage_len(shape), 1) * c.rm_bufs() * c.slots()
    } else {
        0
    }
    &&& b.gpair_bytes == if c.pinned {
        shape.n_rows * 16
    } else {
        0
    }
}

/// All device buffers together, as they are allocated. No buffer is allocated empty.
pub open spec fn allocated_bytes(shape: TrainShape, c: TrainChoices) -> int {
    let n = shape.n_rows as int;
    let blocks = shape.part_blocks();
    // gradients, current rows, next rows, partition column, partition flags, leaf deltas
    let rows = n * 2 * 8 + n * 4 + n * 4 + n + n + n * 4;
    // block counts, left and right offsets, side totals of a level
    let scan = blocks * 4 + (blocks + 1) * 4 + (blocks + 1) * 4 + MAX_LEVEL_NODES * 2 * 4;
    // single-precision gradients and two reductions
    let quantize = if c.device_quantize {
        n * 2 * 4 + shape.gpair_blocks() * 2 * 8 + shape.gpair_blocks() * 2 * 8
    } else {
        0
    };
    // resident predictions and labels
    let fast = if c.fast_math {
        imax(n, 1) * 4 + imax(n, 1) * 4
    } else {
        0
    };
    let staging = if c.row_major {
        imax(c.rm_stage_len(shape), 1) * c.rm_bufs()
    } else {
        0
    };
    let slot = imax(shape.bins_len(), 1) + (shape.max_block_feats + 1) * 4 + imax(
        shape.max_block_feats as int,
        1,
    ) * 4 + imax(shape.max_hist_bins * 2 * c.hist_nodes_per_batch, 1) * 8 + c.batch_idx_len() * 4
        + staging;
    rows + scan + quantize + fast + slot * c.slots()
}

/// Bytes of the block tables of all slots.
pub open spec fn batch_idx_bytes(c: TrainChoices) -> int {
    if c.fused || c.row_major {
        c.batch_idx_len() * 4 * c.slots()
    } else {
        0
    }
}

/// What the device budget adds up to.
pub open spec fn device_total(shape: TrainShape, c: TrainChoices) -> int {
    let n = shape.n_rows as int;
    n * 30 + (shape.part_blocks() * 3 + 2) * 4 + MAX_LEVEL_NODES * 8 + (if c.fast_math {
        n * 8
    } else {
        0
    }) + (if c.device_quantize {
        n * 8 + shape.gpair_blocks() * 32
    } else {
        0
    }) + bins_bytes(shape, c) + hist_out_bytes(shape, c) + batch_idx_bytes(c) + staging_bytes(
        shape,
        c,
    ) + (shape.max_block_feats + 1) * 4 * c.slots() + imax(shape.max_block_feats as int, 1) * 4
        * c.slots()
}

/// What the host budget adds up to.
pub open spec fn host_total(shape: TrainShape, c: TrainChoices) -> int {
    if !c.pinned {
        0
    } else {
        shape.n_rows * 16 + if c.row_major {
            imax(c.rm_stage_len(shape), 1) * c.rm_bufs() * c.slots()
        } else {
            c.slots() * imax(shape.bins_len(), 1)
        }
    }
}

/// What a training context allocates and how it runs.
pub struct GpuTrainCtx {
    pub device_ordinal: usize,
    pub shape: TrainShape,
    pub config: SharedHistogramConfig,
    pub choices: TrainChoices,
    pub timing: bool,
    /// Blocks of the partition kernels over all rows.
    pub n_part_blocks: usize,
    /// Bytes of a block buffer.
    pub bins_len: usize,
    /// Words of one node's histogram.
    pub hist_words: usize,
    pub offsets_len: usize,
    pub batch_idx_len: usize,
    /// Blocks of the gradient reductions.
    pub n_gpair_blocks: usize,
    pub rm_bufs: usize,
    pub rm_chunk_rows: usize,
    pub rm_stage_len: usize,
    pub budget: GpuMemoryBudget,
    pub host_budget: GpuHostMemoryBudget,
}

proof fn lemma_le_times(a: int, b: int)
    requires
        0 <= a,
        1 <= b,
    ensures
        0 <= a <= a * b,
{
    assert(a <= a * b) by (nonlinear_arith)
        requires
            0 <= a,
            1 <= b,
    ;
}

/// What the choices of a valid context satisfy.
pub open spec fn sane(shape: TrainShape, c: TrainChoices) -> bool {
    &&& 1 <= shape.n_rows <= u32::MAX
    &&& is_block_size(shape.partition_threads)
    &&& 1 <= c.hist_streams <= 2
    &&& 1 <= c.hist_nodes_per_batch <= MAX_HIST_NODES_PER_BATCH
}

/// Every part of the budget is at most the total, and so are its factors.
proof fn lemma_parts(shape: TrainShape, c: TrainChoices)
    requires
        sane(shape, c),
    ensures
        0 <= shape.bins_len() <= bins_bytes(shape, c),
        0 <= shape.max_hist_bins * 2 * 8 * c.hist_nodes_per_batch <= hist_out_bytes(shape, c),
        shape.max_hist_bins * 2 * 8 <= shape.max_hist_bins * 2 * 8 * c.hist_nodes_per_batch,
        (shape.max_block_feats + 1) * 4 <= (shape.max_block_feats + 1) * 4 * c.slots(),
        c.slots() <= (shape.max_block_feats + 1) * 4 * c.slots(),
        imax(shape.max_block_feats as int, 1) * 4 <= imax(shape.max_block_feats as int, 1) * 4
            * c.slots(),
        0 <= batch_idx_bytes(c),
        0 <= c.batch_idx_len() * 4 <= c.batch_idx_len() * 4 * c.slots(),
        0 <= c.rm_chunk_rows(shape),
        0 <= c.rm_stage_len(shape) <= c.rm_stage_len(shape) * c.rm_bufs() <= c.rm_stage_len(shape)
            * c.rm_bufs() * c.slots(),
        0 <= staging_bytes(shape, c),
        imax(c.rm_stage_len(shape), 1) <= imax(c.rm_stage_len(shape), 1) * c.rm_bufs() <= imax(
            c.rm_stage_len(shape),
            1,
        ) * c.rm_bufs() * c.slots(),
        imax(shape.bins_len(), 1) <= c.slots() * imax(shape.bins_len(), 1),
        0 <= shape.part_blocks() <= shape.n_rows,
        1 <= shape.gpair_blocks() <= 1024,
        !c.row_major ==> c.rm_stage_len(shape) == 0,
{
    let slots = c.slots();
    let nodes = c.hist_nodes_per_batch as int;
    let words8 = shape.max_hist_bins * 2 * 8;
    let f = shape.max_block_feats as int;
    let rm = c.rm_stage_len(shape);
    let bins = shape.bins_len();
    assert(bins >= 0) by (nonlinear_arith)
        requires
            bins == shape.max_block_feats * shape.n_rows,
    ;
    lemma_le_times(bins, slots);
    lemma_le_times(words8, nodes);
    lemma_le_times(words8 * nodes, slots);
    lemma_le_times((f + 1) * 4, slots);
    lemma_le_times(imax(f, 1) * 4, slots);
    lemma_le_times(c.batch_idx_len() * 4, slots);
    assert(rm >= 0) by (nonlinear_arith)
        requires
            rm == c.rm_chunk_rows(shape) * shape.max_block_feats,
            c.rm_chunk_rows(shape) >= 0,
    ;
    if !c.row_major {
        assert(rm == 0) by (nonlinear_arith)
            requires
                rm == c.rm_chunk_rows(shape) * shape.max_block_feats,
                c.rm_chunk_rows(shape) == 0,
        ;
    }
    lemma_le_times(rm, c.rm_bufs());
    lemma_le_times(rm * c.rm_bufs(), slots);
    lemma_le_times(imax(rm, 1), c.rm_bufs());
    lemma_le_times(imax(rm, 1) * c.rm_bufs(), slots);
    lemma_le_times(imax(bins, 1), slots);
    assert(slots * imax(bins, 1) == imax(bins, 1) * slots) by (nonlinear_arith);
    lemma_ceil_div(shape.n_rows as int, shape.partition_threads as int);
    lemma_ceil_div(shape.n_rows as int, GPAIR_THREADS as int);
    assert(slots <= (f + 1) * 4 * slots) by (nonlinear_arith)
        requires
            slots >= 0,
            f >= 0,
    ;
}

/// Staging of the row-major upload: buffers per slot, rows per buffer.
fn staging_rows(shape: TrainShape, c: TrainChoices) -> (r: (usize, usize))
    requires
        sane(shape, c),
        c.slots() <= usize::MAX,
    ensures
        r.0 == c.rm_bufs(),
        r.1 == c.rm_chunk_rows(shape),
{
    let slots: usize = c.hist_streams + c.resident_blocks;
    let mbf: usize = shape.max_block_feats;
    let bufs: usize = if c.row_major && c.pinned {
        2
    } else {
        1
    };
    let per_slot: usize = if c.row_major {
        max_usize(RM_STAGE_BYTES / max_usize(slots, 1), RM_STAGE_MIN_PER_SLOT)
    } else {
        0
    };
    let rows: usize = if c.row_major {
        let want: usize = per_slot / bufs / max_usize(mbf, 1);
        if want < 1 {
            1
        } else {
            min_usize(want, shape.n_rows)
        }
    } else {
        0
    };
    assert(rows == c.rm_chunk_rows(shape));
    (bufs, rows)
}

/// Staging of the row-major upload: buffers per slot, rows per buffer, bytes per buffer.
fn staging_of(shape: TrainShape, c: TrainChoices) -> (r: (usize, usize, usize))
    requires
        sane(shape, c),
        c.slots() <= usize::MAX,
        c.rm_stage_len(shape) <= usize::MAX,
    ensures
        r.0 == c.rm_bufs(),
        r.1 == c.rm_chunk_rows(shape),
        r.2 == c.rm_stage_len(shape),
{
    let (bufs, rows): (usize, usize) = staging_rows(shape, c);
    (bufs, rows, rows * shape.max_block_feats)
}

/// What the device budget adds up to.
fn device_sum(shape: TrainShape, c: TrainChoices) -> (t: Total)
    requires
        sane(shape, c),
        c.slots() <= usize::MAX,
    ensures
        t.wf(),
        t@ == device_total(shape, c),
{
    proof {
        lemma_parts(shape, c);
    }
    let n: u64 = shape.n_rows as u64;
    let mbf: u64 = shape.max_block_feats as u64;
    let slots: u64 = (c.hist_streams + c.resident_blocks) as u64;
    let nodes: u64 = c.hist_nodes_per_batch as u64;
    let part_blocks: u64 = div_ceil_usize(shape.n_rows, shape.partition_threads as usize) as u64;
    let gpair_blocks: u64 = min_usize(
        GPAIR_BLOCKS,
        max_usize(div_ceil_usize(shape.n_rows, GPAIR_THREADS), 1),
    ) as u64;
    let rows: Total = Total::of(n).times(30).plus(
        Total::of(part_blocks).times(3).plus(Total::of(2)).times(4),
    ).plus(Total::of(MAX_LEVEL_NODES as u64 * 8));
    let fast: Total = Total::of(
        if c.fast_math {
            n
        } else {
            0
        },
    ).times(8);
    let quantize: Total = if c.device_quantize {
        Total::of(n).times(8).plus(Total::of(gpair_blocks).times(32))
    } else {
        Total::of(0)
    };
    let bins: Total = Total::of(mbf).times(n).times(slots);
    let hist: Total = Total::of(shape.max_hist_bins as u64).times(2).times(8).times(nodes).times(
        slots,
    );
    let index: Total = if c.fused || c.row_major {
        Total::of(nodes * 3 + 1).times(4).times(slots)
    } else {
        Total::of(0)
    };
    let staging: Total = if c.row_major {
        let (bufs, chunk): (usize, usize) = staging_rows(shape, c);
        Total::of(chunk as u64).times(mbf).times(bufs as u64).times(slots)
    } else {
        Total::of(0)
    };
    let offsets: Total = Total::of(mbf).plus(Total::of(1)).times(4).times(slots);
    let select: Total = Total::of(max_usize(shape.max_block_feats, 1) as u64).times(4).times(slots);
    rows.plus(fast).plus(quantize).plus(bins).plus(hist).plus(index).plus(staging).plus(
        offsets,
    ).plus(select)
}

/// What the host budget adds up to.
fn host_sum(shape: TrainShape, c: TrainChoices) -> (t: Total)
    requires
        sane(shape, c),
        c.slots() <= usize::MAX,
        c.rm_stage_len(shape) <= usize::MAX,
        shape.bins_len() <= usize::MAX,
    ensures
        t.wf(),
        t@ == host_total(shape, c),
{
    proof {
        lemma_parts(shape, c);
    }
    if !c.pinned {
        return Total::of(0);
    }
    let n: u64 = shape.n_rows as u64;
    let slots: u64 = (c.hist_streams + c.resident_blocks) as u64;
    let buffers: Total = if c.row_major {
        let (bufs, _rows, len): (usize, usize, usize) = staging_of(shape, c);
        Total::of(max_usize(len, 1) as u64).times(bufs as u64).times(slots)
    } else {
        let bins_len: usize = shape.max_block_feats * shape.n_rows;
        Total::of(slots).times(max_usize(bins_len, 1) as u64)
    };
    Total::of(n).times(16).plus(buffers)
}

/// The budgets of a context, where one is made, fit a machine word.
pub open spec fn context_fits(
    shape: TrainShape,
    config: SharedHistogramConfig,
    env: TrainEnv,
    limits: DeviceLimits,
) -> bool {
    spec_choices(shape, config, env, limits) matches Ok(c) ==> {
        &&& device_total(shape, c) <= usize::MAX
        &&& host_total(shape, c) <= usize::MAX
    }
}

/// Do the budgets of a context, where one is made, fit a machine word?
pub fn context_ok(
    shape: TrainShape,
    config: SharedHistogramConfig,
    env: TrainEnv,
    limits: DeviceLimits,
) -> (r: bool)
    ensures
        r == context_fits(shape, config, env, limits),
{
    let c: TrainChoices = match resolve_choices(shape, config, env, limits) {
        Ok(c) => c,
        Err(_) => {
            return true;
        },
    };
    proof {
        lemma_parts(shape, c);
    }
    if c.resident_blocks > usize::MAX - c.hist_streams {
        return false;
    }
    if !device_sum(shape, c).fits_usize() {
        return false;
    }
    host_sum(shape, c).fits_usize()
}

/// The device budget.
fn device_budget(shape: TrainShape, c: TrainChoices) -> (b: GpuMemoryBudget)
    requires
        sane(shape, c),
        device_total(shape, c) <= usize::MAX,
    ensures
        is_budget(b, shape, c),
        b.spec_total() == device_total(shape, c),
{
    proof {
        lemma_parts(shape, c);
    }
    let n: usize = shape.n_rows;
    let mbf: usize = shape.max_block_feats;
    let slots: usize = c.hist_streams + c.resident_blocks;
    let n_part_blocks: usize = div_ceil_usize(n, shape.partition_threads as usize);
    let n_gpair_blocks: usize = min_usize(
        GPAIR_BLOCKS,
        max_usize(div_ceil_usize(n, GPAIR_THREADS), 1),
    );
    let block_bins_bytes: usize = mbf * n * slots;
    let hist_bytes: usize = shape.max_hist_bins * 2 * 8 * c.hist_nodes_per_batch * slots;
    let hist_nodes_batch_idx_bytes: usize = if c.fused || c.row_major {
        (c.hist_nodes_per_batch * 3 + 1) * 4 * slots
    } else {
        0
    };
    let rm_stage_bytes: usize = if c.row_major {
        let (bufs, _rows, len): (usize, usize, usize) = staging_of(shape, c);
        len * bufs * slots
    } else {
        0
    };
    let offsets_bytes: usize = (mbf + 1) * 4 * slots;
    let hist_feature_select_bytes: usize = max_usize(mbf, 1) * 4 * slots;
    let gpair_f32_bytes: usize = if c.device_quantize {
        n * 2 * 4 + n_gpair_blocks * 2 * 16
    } else {
        0
    };
    let fast_math_bytes: usize = if c.fast_math {
        n * 4 * 2
    } else {
        0
    };
    GpuMemoryBudget {
        hist_streams: slots,
        gpair_bytes: n * 2 * 8,
        row_idx_bytes: n * 4,
        partition_out_bytes: n * 4,
        partition_scratch_bytes: n + (n_part_blocks * 3 + 2) * 4 + MAX_LEVEL_NODES * 2 * 4,
        partition_col_bytes: n,
        block_bins_bytes,
        hist_bytes,
        hist_nodes_batch_idx_bytes,
        fast_math_bytes,
        rm_stage_bytes,
        offsets_bytes,
        hist_feature_select_bytes,
        prediction_bytes: n * 4,
        gpair_f32_bytes,
    }
}

/// The host budget.
fn host_budget_of(shape: TrainShape, c: TrainChoices) -> (b: GpuHostMemoryBudget)
    requires
        sane(shape, c),
        device_total(shape, c) <= usize::MAX,
        host_total(shape, c) <= usize::MAX,
    ensures
        is_host_budget(b, shape, c),
        b.spec_total() == host_total(shape, c),
{
    proof {
        lemma_parts(shape, c);
    }
    let n: usize = shape.n_rows;
    let slots: usize = c.hist_streams + c.resident_blocks;
    if !c.pinned {
        return GpuHostMemoryBudget { block_bins_bytes: 0, rm_stage_bytes: 0, gpair_bytes: 0 };
    }
    if c.row_major {
        let (bufs, _rows, len): (usize, usize, usize) = staging_of(shape, c);
        GpuHostMemoryBudget {
            block_bins_bytes: 0,
            rm_stage_bytes: max_usize(len, 1) * bufs * slots,
            gpair_bytes: n * 2 * 8,
        }
    } else {
        let bins_len: usize = shape.max_block_feats * n;
        GpuHostMemoryBudget {
            block_bins_bytes: slots * max_usize(bins_len, 1),
            rm_stage_bytes: 0,
            gpair_bytes: n * 2 * 8,
        }
    }
}

impl GpuTrainCtx {
    /// The sizes follow from the shape and the choices.
    pub open spec fn wf(&self) -> bool {
        let shape = self.shape;
        let c = self.choices;
        &&& sane(shape, c)
        &&& 1 <= self.config.threads_per_block <= 1024
        &&& c.resident_blocks <= shape.n_blocks
        &&& 1 <= c.max_bins_per_tile <= 0x0fff_ffff
        &&& c.row_major ==> c.fused && shape.max_block_feats <= ROW_MAJOR_MAX_FEATS
        &&& c.fast_math ==> c.device_quantize
        &&& self.n_part_blocks == shape.part_blocks()
        &&& self.bins_len == shape.bins_len()
        &&& self.hist_words == shape.max_hist_bins * 2
        &&& self.offsets_len == shape.max_block_feats + 1
        &&& self.batch_idx_len == c.batch_idx_len()
        &&& self.n_gpair_blocks == shape.gpair_blocks()
        &&& self.rm_bufs == c.rm_bufs()
        &&& self.rm_chunk_rows == c.rm_chunk_rows(shape)
        &&& self.rm_stage_len == c.rm_stage_len(shape)
        &&& is_budget(self.budget, shape, c)
        &&& is_host_budget(self.host_budget, shape, c)
        &&& self.budget.spec_total() <= usize::MAX
        &&& self.host_budget.spec_total() <= usize::MAX
    }

    /// Plans a context for the widest block, so that nothing is allocated later.
    pub fn new(
        device_ordinal: usize,
        shape: TrainShape,
        config: SharedHistogramConfig,
        env: TrainEnv,
        limits: DeviceLimits,
        timing: bool,
    ) -> (r: Result<GpuTrainCtx, TrainCtxError>)
        requires
            context_fits(shape, config, env, limits),
        ensures
            match spec_choices(shape, config, env, limits) {
                Err(e) => r matches Err(f) && f == e,
                Ok(c) => r matches Ok(ctx) && {
                    &&& ctx.wf()
                    &&& ctx.device_ordinal == device_ordinal
                    &&& ctx.shape == shape
                    &&& ctx.config == config
                    &&& ctx.choices == c
                    &&& ctx.timing == timing
                    &&& ctx.budget.spec_total() == device_total(shape, c)
                    &&& ctx.host_budget.spec_total() == host_total(shape, c)
                },
            },
    {
        let c: TrainChoices = match resolve_choices(shape, config, env, limits) {
            Ok(c) => c,
            Err(e) => {
                return Err(e);
            },
        };
        let budget: GpuMemoryBudget = device_budget(shape, c);
        let host_budget: GpuHostMemoryBudget = host_budget_of(shape, c);
        proof {
            lemma_parts(shape, c);
        }
        let (rm_bufs, rm_chunk_rows, rm_stage_len): (usize, usize, usize) = staging_of(shape, c);
        Ok(
            GpuTrainCtx {
                device_ordinal,
                shape,
                config,
                choices: c,
                timing,
                n_part_blocks: div_ceil_usize(shape.n_rows, shape.partition_threads as usize),
                bins_len: shape.max_block_feats * shape.n_rows,
                hist_words: shape.max_hist_bins * 2,
                offsets_len: shape.max_block_feats + 1,
                batch_idx_len: if c.fused || c.row_major {
                    c.hist_nodes_per_batch * 3 + 1
                } else {
                    1
                },
                n_gpair_blocks: min_usize(
                    GPAIR_BLOCKS,
                    max_usize(div_ceil_usize(shape.n_rows, GPAIR_THREADS), 1),
                ),
                rm_bufs,
                rm_chunk_rows,
                rm_stage_len,
                budget,
                host_budget,
            },
        )
    }
}

/// The budget reports every byte that is allocated, for blocks with at least one feature and
/// one bin on the fused kernels.
pub proof fn law_budget_counts_every_allocation(ctx: GpuTrainCtx)
    requires
        ctx.wf(),
        ctx.shape.max_block_feats >= 1,
        ctx.shape.max_hist_bins >= 1,
        ctx.choices.fused,
    ensures
        ctx.budget.spec_total() == allocated_bytes(ctx.shape, ctx.choices),
{
    let shape = ctx.shape;
    let c = ctx.choices;
    let s = c.slots();
    let f = shape.max_block_feats as int;
    let hist = shape.max_hist_bins * 2 * c.hist_nodes_per_batch;
    assert(shape.bins_len() >= 1) by (nonlinear_arith)
        requires
            shape.bins_len() == shape.max_block_feats * shape.n_rows,
            shape.max_block_feats >= 1,
            shape.n_rows >= 1,
    ;
    assert(hist >= 1) by (nonlinear_arith)
        requires
            hist == shape.max_hist_bins * 2 * c.hist_nodes_per_batch,
            shape.max_hist_bins >= 1,
            c.hist_nodes_per_batch >= 1,
    ;
    assert(shape.max_hist_bins * 2 * 8 * c.hist_nodes_per_batch == hist * 8) by (nonlinear_arith)
        requires
            hist == shape.max_hist_bins * 2 * c.hist_nodes_per_batch,
    ;
    let rm = c.rm_stage_len(shape);
    if c.row_major {
        assert(rm >= 1) by (nonlinear_arith)
            requires
                rm == c.rm_chunk_rows(shape) * shape.max_block_feats,
                c.rm_chunk_rows(shape) >= 1,
                shape.max_block_feats >= 1,
        ;
    }
    let staging = if c.row_major {
        rm * c.rm_bufs()
    } else {
        0
    };
    let b = shape.bins_len();
    let idx = c.batch_idx_len() * 4;
    assert((b + (f + 1) * 4 + f * 4 + hist * 8 + idx + staging) * s == b * s + (f + 1) * 4 * s + f
        * 4 * s + hist * 8 * s + idx * s + staging * s) by (nonlinear_arith);
    if !c.row_major {
        assert(staging * s == 0) by (nonlinear_arith)
            requires
                staging == 0,
        ;
    }
}

impl GpuTrainCtx {
    /// Blocks that are streamed.
    pub open spec fn streamed_blocks(self) -> nat {
        if self.choices.resident_blocks <= self.shape.n_blocks {
            (self.shape.n_blocks - self.choices.resident_blocks) as nat
        } else {
            0
        }
    }

    /// What the residency is called in the summary.
    pub open spec fn spec_residency(self) -> &'static str {
        if self.choices.resident_blocks == 0 {
            "pure_streaming"
        } else if self.choices.resident_blocks >= self.shape.n_blocks {
            "full_resident"
        } else {
            "hybrid_partial_resident"
        }
    }

    fn residency(&self) -> (r: &'static str)
        ensures
            r@ == self.spec_residency()@,
    {
        if self.choices.resident_blocks == 0 {
            "pure_streaming"
        } else if self.choices.resident_blocks >= self.shape.n_blocks {
            "full_resident"
        } else {
            "hybrid_partial_resident"
        }
    }

    /// The way that blocks take to the device.
    pub open spec fn spec_block_upload(self) -> &'static str {
        match (self.choices.row_major, self.choices.pinned) {
            (true, true) => "rm_chunked_pinned_async_x2",
            (true, false) => "rm_chunked_pageable",
            (false, true) => "colmajor_pinned",
            (false, false) => "colmajor_pageable",
        }
    }

    fn block_upload(&self) -> (r: &'static str)
        ensures
            r@ == self.spec_block_upload()@,
    {
        match (self.choices.row_major, self.choices.pinned) {
            (true, true) => "rm_chunked_pinned_async_x2",
            (true, false) => "rm_chunked_pageable",
            (false, true) => "colmajor_pinned",
            (false, false) => "colmajor_pageable",
        }
    }

    /// Nodes per histogram launch: without the fused kernels, one.
    pub open spec fn nodes_per_launch(self) -> nat {
        if self.choices.fused {
            self.choices.hist_nodes_per_batch as nat
        } else {
            1
        }
    }

    /// The memory limit in words.
    pub open spec fn told_limit(self) -> Seq<char> {
        match self.config.gpu_memory_budget {
            Some(b) => " gpu_mem_budget="@ + megabytes(b as nat, 1) + "MB"@,
            None => " gpu_mem_budget=auto(free_vram)"@,
        }
    }

    fn limit_text(&self) -> (r: String)
        ensures
            r@ == self.told_limit(),
    {
        match self.config.gpu_memory_budget {
            Some(b) => " gpu_mem_budget=".to_owned().concat(megabytes_text(b as u64, 1).as_str()).concat(
                "MB",
            ),
            None => " gpu_mem_budget=auto(free_vram)".to_owned(),
        }
    }

    /// The path that training takes, in words: every value is a choice that was made, none is
    /// read from the environment again.
    pub open spec fn told_path(self) -> Seq<char> {
        "GPU_PATH device=cuda:"@ + decimal(self.device_ordinal as nat) + " fused="@
            + spec_bool_text(self.choices.fused)@ + " layout="@ + self.config.layout.spec_label()@
            + " pinned="@ + spec_bool_text(self.choices.pinned)@ + " hist_streams="@ + decimal(
            self.choices.hist_streams as nat,
        ) + " resident_blocks="@ + decimal(self.choices.resident_blocks as nat)
            + " partition_threads="@ + decimal(self.shape.partition_threads as nat)
            + " threads_per_block="@ + decimal(self.config.threads_per_block as nat) + (
        if self.choices.fused {
            " rows_per_thread=4"@
        } else {
            " rows_per_thread=1"@
        }) + " hist_nodes_per_batch="@ + decimal(self.nodes_per_launch()) + (
        if self.choices.row_major {
            " layout_gpu=row_major hist_map=row_per_lane"@
        } else {
            " layout_gpu=col_major hist_map=row_per_lane"@
        }) + (match self.config.gpu_math {
            GpuMath::Exact => " gpu_math=exact"@,
            GpuMath::Fast => " gpu_math=fast"@,
        }) + (if self.choices.device_quantize {
            " quantize=device"@
        } else {
            " quantize=host"@
        }) + self.told_limit() + " residency="@ + self.spec_residency()@ + " resident_blocks="@
            + decimal(self.choices.resident_blocks as nat) + "/"@ + decimal(
            self.shape.n_blocks as nat,
        ) + " streamed_blocks="@ + decimal(self.streamed_blocks()) + " block_upload="@
            + self.spec_block_upload()@ + " rm_stage_per_slot="@ + decimal(
            self.rm_chunk_rows as nat,
        ) + " max_bins_per_tile="@ + decimal(self.choices.max_bins_per_tile as nat)
    }

    /// The path that training takes, in words.
    pub fn path_summary(&self) -> (r: String)
        ensures
            r@ == self.told_path(),
    {
        let c = &self.choices;
        let rows_per_thread: &str = if c.fused {
            " rows_per_thread=4"
        } else {
            " rows_per_thread=1"
        };
        let nodes: usize = if c.fused {
            c.hist_nodes_per_batch
        } else {
            1
        };
        let layout: &str = if c.row_major {
            " layout_gpu=row_major hist_map=row_per_lane"
        } else {
            " layout_gpu=col_major hist_map=row_per_lane"
        };
        let math: &str = match self.config.gpu_math {
            GpuMath::Exact => " gpu_math=exact",
            GpuMath::Fast => " gpu_math=fast",
        };
        let quantize: &str = if c.device_quantize {
            " quantize=device"
        } else {
            " quantize=host"
        };
        "GPU_PATH device=cuda:".to_owned().concat(
            decimal_text(self.device_ordinal as u64).as_str(),
        ).concat(" fused=").concat(bool_text(c.fused)).concat(" layout=").concat(
            self.config.layout.label(),
        ).concat(" pinned=").concat(bool_text(c.pinned)).concat(" hist_streams=").concat(
            decimal_text(c.hist_streams as u64).as_str(),
        ).concat(" resident_blocks=").concat(
            decimal_text(c.resident_blocks as u64).as_str(),
        ).concat(" partition_threads=").concat(
            decimal_text(self.shape.partition_threads as u64).as_str(),
        ).concat(" threads_per_block=").concat(
            decimal_text(self.config.threads_per_block as u64).as_str(),
        ).concat(rows_per_thread).concat(" hist_nodes_per_batch=").concat(
            decimal_text(nodes as u64).as_str(),
        ).concat(layout).concat(math).concat(quantize).concat(self.limit_text().as_str()).concat(
            " residency=",
        ).concat(self.residency()).concat(" resident_blocks=").concat(
            decimal_text(c.resident_blocks as u64).as_str(),
        ).concat("/").concat(decimal_text(self.shape.n_blocks as u64).as_str()).concat(
            " streamed_blocks=",
        ).concat(
            decimal_text(self.shape.n_blocks.saturating_sub(c.resident_blocks) as u64).as_str(),
        ).concat(" block_upload=").concat(self.block_upload()).concat(
            " rm_stage_per_slot=",
        ).concat(decimal_text(self.rm_chunk_rows as u64).as_str()).concat(
            " max_bins_per_tile=",
        ).concat(decimal_text(c.max_bins_per_tile as u64).as_str())
    }
}

/// What grows with the rows is part of the total.
pub proof fn law_per_row_bytes_are_part_of_the_total(b: GpuMemoryBudget)
    ensures
        b.spec_per_row() <= b.spec_total(),
{
}

/// A slot's staging stays within its share, unless a single row is larger than that.
pub proof fn law_staging_stays_within_its_share(ctx: GpuTrainCtx)
    requires
        ctx.wf(),
        ctx.choices.row_major,
    ensures
        ctx.rm_chunk_rows == 1 || ctx.rm_stage_len * ctx.rm_bufs
            <= ctx.choices.rm_stage_per_slot(),
{
    let c = ctx.choices;
    let shape = ctx.shape;
    let share = c.rm_stage_per_slot();
    let bufs = c.rm_bufs();
    let f = imax(shape.max_block_feats as int, 1);
    let a = share / bufs;
    let rows = c.rm_chunk_rows(shape);
    vstd::arithmetic::div_mod::lemma_fundamental_div_mod(share, bufs);
    vstd::arithmetic::div_mod::lemma_fundamental_div_mod(a, f);
    if rows != 1 {
        assert(rows <= a / f);
        assert(rows * shape.max_block_feats <= a) by (nonlinear_arith)
            requires
                rows <= a / f,
                f * (a / f) <= a,
                shape.max_block_feats <= f,
                rows >= 0,
                f >= 1,
        ;
        assert(ctx.rm_stage_len * bufs <= a * bufs) by (nonlinear_arith)
            requires
                ctx.rm_stage_len <= a,
                bufs >= 1,
        ;
        assert(bufs * a == a * bufs) by (nonlinear_arith);
    }
}

} // verus!
