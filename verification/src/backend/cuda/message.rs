//! What the device backend says when it turns something down.
use vstd::prelude::*;

use super::batch::BatchError;
use super::gradient::{GradientError, RowValues};
use super::histogram::HistogramError;
use super::inference::{FlattenError, PredictError};
use super::partition::{PartitionError, MAX_LEVEL_NODES};
use super::session::{BlockError, ResidentError};
use super::span::SpanError;
use super::train_ctx::{TrainCtxError, MAX_HIST_NODES_PER_BATCH};
use crate::report::{decimal, decimal_text};
use crate::text::{quoted, quoted_text};

verus! {

impl TrainCtxError {
    /// The refusal in words. `got` is the value of the row-major switch.
    pub open spec fn told(self, got: Seq<char>) -> Seq<char> {
        match self {
            TrainCtxError::NoRows => "GPU 训练上下文需要非空数据"@,
            TrainCtxError::TooManyRows => "GPU 训练行数超过 u32"@,
            TrainCtxError::PartitionThreads => "partition threads 必须是 1..=1024 的 2 次幂"@,
            TrainCtxError::HistThreads => "threads_per_block 要在 1..=1024"@,
            TrainCtxError::NodesPerBatchNotANumber => "FB_HIST_NODES_PER_BATCH 必须是整数"@,
            TrainCtxError::NodesPerBatchZero => {
                "hist_nodes_per_batch 至少是 1(1 表示关闭合并),收到 0"@
            },
            TrainCtxError::NodesPerBatchTooLarge { nodes } => {
                "hist_nodes_per_batch 上限是 "@ + decimal(MAX_HIST_NODES_PER_BATCH as nat)
                    + ",收到 "@ + decimal(nodes as nat)
            },
            TrainCtxError::RowMajorNotASwitch => {
                "FB_ROW_MAJOR 只接受 0/1/true/false,收到 "@ + quoted_text(got)
            },
            TrainCtxError::SharedLimitInvalid => "shared-memory 上限无效"@,
            TrainCtxError::SharedTooSmall => {
                "设备没有足够 shared memory 放一个 GradPairFixed"@
            },
            TrainCtxError::ResidentBlocksNotANumber => "FB_CUDA_RESIDENT_BLOCKS 必须是整数"@,
            TrainCtxError::HistStreamsNotANumber => "FB_CUDA_HIST_STREAMS 必须是整数"@,
            TrainCtxError::HistStreams { streams } => {
                "hist_streams 只支持 1 或 2,收到 "@ + decimal(streams as nat)
            },
            TrainCtxError::FastNeedsDeviceQuantize => {
                "gpu_math=\"fast\" 需要 device quantization,不能同时 device_quantize=false"@
            },
            TrainCtxError::PinnedNeedsEventTracking => {
                "行主序 pinned 双 buffer 需要 cudarc 的 stream 事件跟踪,但当前 context 未开启;继续下去会静默覆写在飞的 pinned buffer"@
            },
        }
    }

    /// The refusal in words. `got` is the value of the row-major switch.
    pub fn message(&self, got: &str) -> (r: String)
        ensures
            r@ == self.told(got@),
    {
        match *self {
            TrainCtxError::NoRows => "GPU 训练上下文需要非空数据".to_owned(),
            TrainCtxError::TooManyRows => "GPU 训练行数超过 u32".to_owned(),
            TrainCtxError::PartitionThreads => {
                "partition threads 必须是 1..=1024 的 2 次幂".to_owned()
            },
            TrainCtxError::HistThreads => "threads_per_block 要在 1..=1024".to_owned(),
            TrainCtxError::NodesPerBatchNotANumber => {
                "FB_HIST_NODES_PER_BATCH 必须是整数".to_owned()
            },
            TrainCtxError::NodesPerBatchZero => {
                "hist_nodes_per_batch 至少是 1(1 表示关闭合并),收到 0".to_owned()
            },
            TrainCtxError::NodesPerBatchTooLarge { nodes } => {
                "hist_nodes_per_batch 上限是 ".to_owned()
                    .concat(decimal_text(MAX_HIST_NODES_PER_BATCH as u64).as_str())
                    .concat(",收到 ").concat(decimal_text(nodes as u64).as_str())
            },
            TrainCtxError::RowMajorNotASwitch => {
                "FB_ROW_MAJOR 只接受 0/1/true/false,收到 ".to_owned()
                    .concat(quoted(got).as_str())
            },
            TrainCtxError::SharedLimitInvalid => "shared-memory 上限无效".to_owned(),
            TrainCtxError::SharedTooSmall => {
                "设备没有足够 shared memory 放一个 GradPairFixed".to_owned()
            },
            TrainCtxError::ResidentBlocksNotANumber => {
                "FB_CUDA_RESIDENT_BLOCKS 必须是整数".to_owned()
            },
            TrainCtxError::HistStreamsNotANumber => {
                "FB_CUDA_HIST_STREAMS 必须是整数".to_owned()
            },
            TrainCtxError::HistStreams { streams } => {
                "hist_streams 只支持 1 或 2,收到 ".to_owned()
                    .concat(decimal_text(streams as u64).as_str())
            },
            TrainCtxError::FastNeedsDeviceQuantize => {
                "gpu_math=\"fast\" 需要 device quantization,不能同时 device_quantize=false".to_owned()
            },
            TrainCtxError::PinnedNeedsEventTracking => {
                "行主序 pinned 双 buffer 需要 cudarc 的 stream 事件跟踪,但当前 context 未开启;继续下去会静默覆写在飞的 pinned buffer".to_owned()
            },
        }
    }
}

impl BlockError {
    /// The refusal in words.
    pub open spec fn told(self) -> Seq<char> {
        match self {
            BlockError::TooManyRows { rows, limit } => {
                "列块行数 "@ + decimal(rows as nat) + " 超过训练行数 "@
                    + decimal(limit as nat)
            },
            BlockError::BinsLength => "bins 长度与 n_feats × n_rows 不符"@,
            BlockError::OffsetsShape => "feat_offsets 必须从 0 开始且非空"@,
            BlockError::OffsetsNotMonotone => "feat_offsets 必须单调不减"@,
            BlockError::Selection => {
                "colsample 局部特征必须严格递增且小于物理 n_feats"@
            },
            BlockError::SelectedWidth => {
                "column-major selected_local 必须与紧凑 histogram 特征数相等"@
            },
            BlockError::BlockWidth => {
                "无 selected_local 时 histogram 特征数必须等于物理 n_feats"@
            },
            BlockError::RowMajorWidth => "row-major histogram offsets 必须保持物理全宽"@,
            BlockError::BlockTooLarge { len, capacity } => {
                "列块 "@ + decimal(len as nat) + " 字节超过预分配的 "@
                    + decimal(capacity as nat) + " 字节 buffer"@
            },
            BlockError::HistogramTooLarge { bins } => {
                "直方图宽度 "@ + decimal(bins as nat) + " 超过预分配上限"@
            },
        }
    }

    /// The refusal in words.
    pub fn message(&self) -> (r: String)
        ensures
            r@ == self.told(),
    {
        match *self {
            BlockError::TooManyRows { rows, limit } => {
                "列块行数 ".to_owned().concat(decimal_text(rows as u64).as_str())
                    .concat(" 超过训练行数 ").concat(decimal_text(limit as u64).as_str())
            },
            BlockError::BinsLength => "bins 长度与 n_feats × n_rows 不符".to_owned(),
            BlockError::OffsetsShape => "feat_offsets 必须从 0 开始且非空".to_owned(),
            BlockError::OffsetsNotMonotone => "feat_offsets 必须单调不减".to_owned(),
            BlockError::Selection => {
                "colsample 局部特征必须严格递增且小于物理 n_feats".to_owned()
            },
            BlockError::SelectedWidth => {
                "column-major selected_local 必须与紧凑 histogram 特征数相等".to_owned()
            },
            BlockError::BlockWidth => {
                "无 selected_local 时 histogram 特征数必须等于物理 n_feats".to_owned()
            },
            BlockError::RowMajorWidth => {
                "row-major histogram offsets 必须保持物理全宽".to_owned()
            },
            BlockError::BlockTooLarge { len, capacity } => {
                "列块 ".to_owned().concat(decimal_text(len as u64).as_str())
                    .concat(" 字节超过预分配的 ")
                    .concat(decimal_text(capacity as u64).as_str()).concat(" 字节 buffer")
            },
            BlockError::HistogramTooLarge { bins } => {
                "直方图宽度 ".to_owned().concat(decimal_text(bins as u64).as_str())
                    .concat(" 超过预分配上限")
            },
        }
    }
}

impl ResidentError {
    /// The refusal in words.
    pub open spec fn told(self) -> Seq<char> {
        match self {
            ResidentError::Width { block, feats } => {
                "resident 块 "@ + decimal(block as nat) + " 的特征数 "@
                    + decimal(feats as nat) + " 和 buffer 对不上"@
            },
            ResidentError::BeyondRow { feat, feats } => {
                "resident 列 "@ + decimal(feat as nat) + " 越过块宽 "@ + decimal(feats as nat)
            },
            ResidentError::Overflow => "resident 列偏移溢出"@,
            ResidentError::BeyondBuffer { feat } => {
                "resident 列 "@ + decimal(feat as nat) + " 越过块 buffer"@
            },
        }
    }

    /// The refusal in words.
    pub fn message(&self) -> (r: String)
        ensures
            r@ == self.told(),
    {
        match *self {
            ResidentError::Width { block, feats } => {
                "resident 块 ".to_owned().concat(decimal_text(block as u64).as_str())
                    .concat(" 的特征数 ").concat(decimal_text(feats as u64).as_str())
                    .concat(" 和 buffer 对不上")
            },
            ResidentError::BeyondRow { feat, feats } => {
                "resident 列 ".to_owned().concat(decimal_text(feat as u64).as_str())
                    .concat(" 越过块宽 ").concat(decimal_text(feats as u64).as_str())
            },
            ResidentError::Overflow => "resident 列偏移溢出".to_owned(),
            ResidentError::BeyondBuffer { feat } => {
                "resident 列 ".to_owned().concat(decimal_text(feat as u64).as_str())
                    .concat(" 越过块 buffer")
            },
        }
    }
}

impl SpanError {
    /// The refusal in words.
    pub open spec fn told(self) -> Seq<char> {
        match self {
            SpanError::SpanOutOfRange { offset, len } => {
                "histogram device row span 越界:GpuRowSpan { offset: "@
                    + decimal(offset as nat) + ", len: "@ + decimal(len as nat) + " }"@
            },
            SpanError::TileTooWide { feat, bins, max_bins } => {
                "特征 "@ + decimal(feat as nat) + " 的 "@ + decimal(bins as nat)
                    + " 个 bin 超过 shared-memory tile 上限 "@ + decimal(max_bins as nat)
            },
        }
    }

    /// The refusal in words.
    pub fn message(&self) -> (r: String)
        ensures
            r@ == self.told(),
    {
        match *self {
            SpanError::SpanOutOfRange { offset, len } => {
                "histogram device row span 越界:GpuRowSpan { offset: ".to_owned()
                    .concat(decimal_text(offset as u64).as_str()).concat(", len: ")
                    .concat(decimal_text(len as u64).as_str()).concat(" }")
            },
            SpanError::TileTooWide { feat, bins, max_bins } => {
                "特征 ".to_owned().concat(decimal_text(feat as u64).as_str()).concat(" 的 ")
                    .concat(decimal_text(bins as u64).as_str())
                    .concat(" 个 bin 超过 shared-memory tile 上限 ")
                    .concat(decimal_text(max_bins as u64).as_str())
            },
        }
    }
}

impl PartitionError {
    /// The refusal in words.
    pub open spec fn told(self) -> Seq<char> {
        match self {
            PartitionError::FeatureOutOfRange => {
                "partition GPU 的 feature 不在 bins 列范围内"@
            },
            PartitionError::Threads => {
                "partition threads_per_block 必须是 1..=1024 的 2 次幂"@
            },
            PartitionError::RowOutOfRange => "partition row_idx 含越界行"@,
            PartitionError::TooManyRows => "partition 物理行数超过 u32"@,
            PartitionError::TooManyListed => "partition 行数超过 u32"@,
            PartitionError::ColumnLength { len, rows } => {
                "partition 列长度 "@ + decimal(len as nat) + " 与训练行数 "@
                    + decimal(rows as nat) + " 不符"@
            },
            PartitionError::SpanOutOfRange { offset, len } => {
                "partition device row span 越界:GpuRowSpan { offset: "@
                    + decimal(offset as nat) + ", len: "@ + decimal(len as nat) + " }"@
            },
            PartitionError::RowsOutOfRange { offset, len } => {
                "download row span 越界:GpuRowSpan { offset: "@ + decimal(offset as nat)
                    + ", len: "@ + decimal(len as nat) + " }"@
            },
            PartitionError::LeafOutOfRange { offset, len } => {
                "leaf row span 越界:GpuRowSpan { offset: "@ + decimal(offset as nat)
                    + ", len: "@ + decimal(len as nat) + " }"@
            },
            PartitionError::LevelFull => {
                "一层的 partition 节点数超过 "@ + decimal(MAX_LEVEL_NODES as nat)
            },
            PartitionError::ArenaOverflow => "下一层 row arena 溢出"@,
        }
    }

    /// The refusal in words.
    pub fn message(&self) -> (r: String)
        ensures
            r@ == self.told(),
    {
        match *self {
            PartitionError::FeatureOutOfRange => {
                "partition GPU 的 feature 不在 bins 列范围内".to_owned()
            },
            PartitionError::Threads => {
                "partition threads_per_block 必须是 1..=1024 的 2 次幂".to_owned()
            },
            PartitionError::RowOutOfRange => "partition row_idx 含越界行".to_owned(),
            PartitionError::TooManyRows => "partition 物理行数超过 u32".to_owned(),
            PartitionError::TooManyListed => "partition 行数超过 u32".to_owned(),
            PartitionError::ColumnLength { len, rows } => {
                "partition 列长度 ".to_owned().concat(decimal_text(len as u64).as_str())
                    .concat(" 与训练行数 ").concat(decimal_text(rows as u64).as_str())
                    .concat(" 不符")
            },
            PartitionError::SpanOutOfRange { offset, len } => {
                "partition device row span 越界:GpuRowSpan { offset: ".to_owned()
                    .concat(decimal_text(offset as u64).as_str()).concat(", len: ")
                    .concat(decimal_text(len as u64).as_str()).concat(" }")
            },
            PartitionError::RowsOutOfRange { offset, len } => {
                "download row span 越界:GpuRowSpan { offset: ".to_owned()
                    .concat(decimal_text(offset as u64).as_str()).concat(", len: ")
                    .concat(decimal_text(len as u64).as_str()).concat(" }")
            },
            PartitionError::LeafOutOfRange { offset, len } => {
                "leaf row span 越界:GpuRowSpan { offset: ".to_owned()
                    .concat(decimal_text(offset as u64).as_str()).concat(", len: ")
                    .concat(decimal_text(len as u64).as_str()).concat(" }")
            },
            PartitionError::LevelFull => {
                "一层的 partition 节点数超过 ".to_owned()
                    .concat(decimal_text(MAX_LEVEL_NODES as u64).as_str())
            },
            PartitionError::ArenaOverflow => "下一层 row arena 溢出".to_owned(),
        }
    }
}

impl HistogramError {
    /// The refusal in words.
    pub open spec fn told(self) -> Seq<char> {
        match self {
            HistogramError::BinsLength => "bins 长度与 n_feats × n_rows 不符"@,
            HistogramError::OffsetsShape => {
                "feat_offsets 必须从 0 开始且长度为 n_feats + 1"@
            },
            HistogramError::OffsetsNotMonotone => "feat_offsets 必须单调不减"@,
            HistogramError::GpairLength => "gpair 长度与 block_n_rows 不符"@,
            HistogramError::RowOutOfRange => "row_idx 含越界行"@,
            HistogramError::BinOutOfRange { feat } => {
                "特征 "@ + decimal(feat as nat) + " 含超出 feat_offsets 宽度的 bin"@
            },
            HistogramError::Threads => "threads_per_block 要在 1..=1024"@,
            HistogramError::TooManyRows => "CUDA histogram 行数超过 u32"@,
            HistogramError::TooManySelected => "CUDA histogram 子集超过 u32"@,
            HistogramError::TooManyFeatures => "CUDA histogram 特征数超过 u32"@,
            HistogramError::SharedLimitInvalid => "shared-memory 上限无效"@,
            HistogramError::SharedTooSmall => {
                "设备没有足够 shared memory 放一个 GradPairFixed"@
            },
            HistogramError::GridTooLarge => "CUDA histogram grid 超过 u32"@,
            HistogramError::TileTooWide { feat, bins, max_bins } => {
                "特征 "@ + decimal(feat as nat) + " 的 "@ + decimal(bins as nat)
                    + " 个 bin 超过 shared-memory tile 上限 "@ + decimal(max_bins as nat)
            },
        }
    }

    /// The refusal in words.
    pub fn message(&self) -> (r: String)
        ensures
            r@ == self.told(),
    {
        match *self {
            HistogramError::BinsLength => "bins 长度与 n_feats × n_rows 不符".to_owned(),
            HistogramError::OffsetsShape => {
                "feat_offsets 必须从 0 开始且长度为 n_feats + 1".to_owned()
            },
            HistogramError::OffsetsNotMonotone => "feat_offsets 必须单调不减".to_owned(),
            HistogramError::GpairLength => "gpair 长度与 block_n_rows 不符".to_owned(),
            HistogramError::RowOutOfRange => "row_idx 含越界行".to_owned(),
            HistogramError::BinOutOfRange { feat } => {
                "特征 ".to_owned().concat(decimal_text(feat as u64).as_str())
                    .concat(" 含超出 feat_offsets 宽度的 bin")
            },
            HistogramError::Threads => "threads_per_block 要在 1..=1024".to_owned(),
            HistogramError::TooManyRows => "CUDA histogram 行数超过 u32".to_owned(),
            HistogramError::TooManySelected => "CUDA histogram 子集超过 u32".to_owned(),
            HistogramError::TooManyFeatures => "CUDA histogram 特征数超过 u32".to_owned(),
            HistogramError::SharedLimitInvalid => "shared-memory 上限无效".to_owned(),
            HistogramError::SharedTooSmall => {
                "设备没有足够 shared memory 放一个 GradPairFixed".to_owned()
            },
            HistogramError::GridTooLarge => "CUDA histogram grid 超过 u32".to_owned(),
            HistogramError::TileTooWide { feat, bins, max_bins } => {
                "特征 ".to_owned().concat(decimal_text(feat as u64).as_str()).concat(" 的 ")
                    .concat(decimal_text(bins as u64).as_str())
                    .concat(" 个 bin 超过 shared-memory tile 上限 ")
                    .concat(decimal_text(max_bins as u64).as_str())
            },
        }
    }
}

impl BatchError {
    /// The refusal in words.
    pub open spec fn told(self) -> Seq<char> {
        match self {
            BatchError::OutputCount { spans, outs } => {
                "histogram batch:spans "@ + decimal(spans as nat) + " 与 outs "@
                    + decimal(outs as nat) + " 不等长"@
            },
            BatchError::Unavailable => "histogram batch 需要 hist_nodes_per_batch > 1"@,
            BatchError::TooManyNodes { nodes, capacity } => {
                "histogram batch:"@ + decimal(nodes as nat) + " 个节点超过容量 "@
                    + decimal(capacity as nat)
            },
            BatchError::SpanOutOfRange { offset, len } => {
                "histogram device row span 越界:GpuRowSpan { offset: "@
                    + decimal(offset as nat) + ", len: "@ + decimal(len as nat) + " }"@
            },
            BatchError::GridTooLarge => "histogram batch grid 溢出 u32"@,
        }
    }

    /// The refusal in words.
    pub fn message(&self) -> (r: String)
        ensures
            r@ == self.told(),
    {
        match *self {
            BatchError::OutputCount { spans, outs } => {
                "histogram batch:spans ".to_owned().concat(decimal_text(spans as u64).as_str())
                    .concat(" 与 outs ").concat(decimal_text(outs as u64).as_str())
                    .concat(" 不等长")
            },
            BatchError::Unavailable => "histogram batch 需要 hist_nodes_per_batch > 1".to_owned(),
            BatchError::TooManyNodes { nodes, capacity } => {
                "histogram batch:".to_owned().concat(decimal_text(nodes as u64).as_str())
                    .concat(" 个节点超过容量 ")
                    .concat(decimal_text(capacity as u64).as_str())
            },
            BatchError::SpanOutOfRange { offset, len } => {
                "histogram device row span 越界:GpuRowSpan { offset: ".to_owned()
                    .concat(decimal_text(offset as u64).as_str()).concat(", len: ")
                    .concat(decimal_text(len as u64).as_str()).concat(" }")
            },
            BatchError::GridTooLarge => "histogram batch grid 溢出 u32".to_owned(),
        }
    }
}

impl GradientError {
    /// The refusal in words.
    pub open spec fn told(self) -> Seq<char> {
        match self {
            GradientError::Length { of, got, rows } => {
                of.spec_name()@ + " 长度 "@ + decimal(got as nat) + " 与训练行数 "@
                    + decimal(rows as nat) + " 不符"@
            },
            GradientError::QuantizationOff => "device quantization 未启用"@,
            GradientError::FastMathOff => "gpu_math=fast 未启用"@,
            GradientError::NoLabelBuffer => "fast label buffer 未分配"@,
            GradientError::NoResidentPrediction => {
                "device 上没有常驻 prediction(gpu_math=exact 时 host 已是权威副本)"@
            },
        }
    }

    /// The refusal in words.
    pub fn message(&self) -> (r: String)
        ensures
            r@ == self.told(),
    {
        match *self {
            GradientError::Length { of, got, rows } => {
                of.name().to_owned().concat(" 长度 ").concat(decimal_text(got as u64).as_str())
                    .concat(" 与训练行数 ").concat(decimal_text(rows as u64).as_str())
                    .concat(" 不符")
            },
            GradientError::QuantizationOff => "device quantization 未启用".to_owned(),
            GradientError::FastMathOff => "gpu_math=fast 未启用".to_owned(),
            GradientError::NoLabelBuffer => "fast label buffer 未分配".to_owned(),
            GradientError::NoResidentPrediction => {
                "device 上没有常驻 prediction(gpu_math=exact 时 host 已是权威副本)".to_owned()
            },
        }
    }
}

impl FlattenError {
    /// The refusal in words.
    pub open spec fn told(self) -> Seq<char> {
        match self {
            FlattenError::TooManyNodes => "GPU prediction 节点数超过 u32"@,
            FlattenError::FeatureOutOfRange { feat } => {
                "GPU prediction 模型含越界 feature "@ + decimal(feat as nat)
            },
            FlattenError::ChildOutOfRange => "GPU prediction 模型含越界 child index"@,
            FlattenError::ChildOverflow => "GPU prediction child index 溢出"@,
        }
    }

    /// The refusal in words.
    pub fn message(&self) -> (r: String)
        ensures
            r@ == self.told(),
    {
        match *self {
            FlattenError::TooManyNodes => "GPU prediction 节点数超过 u32".to_owned(),
            FlattenError::FeatureOutOfRange { feat } => {
                "GPU prediction 模型含越界 feature ".to_owned()
                    .concat(decimal_text(feat as u64).as_str())
            },
            FlattenError::ChildOutOfRange => "GPU prediction 模型含越界 child index".to_owned(),
            FlattenError::ChildOverflow => "GPU prediction child index 溢出".to_owned(),
        }
    }
}

impl PredictError {
    /// The refusal in words.
    pub open spec fn told(self) -> Seq<char> {
        match self {
            PredictError::InputOverflow => "GPU prediction input size 溢出"@,
            PredictError::InputLength { got, rows, features, expected } => {
                "GPU prediction 输入有 "@ + decimal(got as nat) + " 个值,预期 "@
                    + decimal(rows as nat) + " × "@ + decimal(features as nat) + " = "@
                    + decimal(expected as nat)
            },
            PredictError::RowOverflow => "GPU prediction row size 溢出"@,
            PredictError::TooManyFeatures => "GPU prediction feature 数超过 u32"@,
            PredictError::TooManyTrees => "GPU prediction tree 数超过 u32"@,
            PredictError::TooManyRows => "GPU prediction batch 行数超过 u32"@,
        }
    }

    /// The refusal in words.
    pub fn message(&self) -> (r: String)
        ensures
            r@ == self.told(),
    {
        match *self {
            PredictError::InputOverflow => "GPU prediction input size 溢出".to_owned(),
            PredictError::InputLength { got, rows, features, expected } => {
                "GPU prediction 输入有 ".to_owned().concat(decimal_text(got as u64).as_str())
                    .concat(" 个值,预期 ").concat(decimal_text(rows as u64).as_str())
                    .concat(" × ").concat(decimal_text(features as u64).as_str()).concat(" = ")
                    .concat(decimal_text(expected as u64).as_str())
            },
            PredictError::RowOverflow => "GPU prediction row size 溢出".to_owned(),
            PredictError::TooManyFeatures => "GPU prediction feature 数超过 u32".to_owned(),
            PredictError::TooManyTrees => "GPU prediction tree 数超过 u32".to_owned(),
            PredictError::TooManyRows => "GPU prediction batch 行数超过 u32".to_owned(),
        }
    }
}

impl RowValues {
    /// What the values are called.
    pub open spec fn spec_name(self) -> &'static str {
        match self {
            RowValues::Gradients => "gpair",
            RowValues::Prediction => "prediction",
            RowValues::Labels => "label",
        }
    }

    /// What the values are called.
    pub fn name(&self) -> (r: &'static str)
        ensures
            r@ == self.spec_name()@,
    {
        match *self {
            RowValues::Gradients => "gpair",
            RowValues::Prediction => "prediction",
            RowValues::Labels => "label",
        }
    }
}

/// What `what` is told where it would read the host's prediction and the device has the current
/// one.
pub open spec fn told_authority(what: Seq<char>) -> Seq<char> {
    what
        + ":gpu_math=\"fast\" 下 device 才是 prediction 的权威副本,不要把它拉回 host;确实需要预测值时用 sync_prediction_to_host"@
}

/// What `what` is told where it would read the host's prediction and the device has the current
/// one.
pub fn authority_message(what: &str) -> (r: String)
    ensures
        r@ == told_authority(what@),
{
    what.to_owned().concat(
        ":gpu_math=\"fast\" 下 device 才是 prediction 的权威副本,不要把它拉回 host;确实需要预测值时用 sync_prediction_to_host",
    )
}

} // verus!
