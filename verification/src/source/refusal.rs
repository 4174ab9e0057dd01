//! What a source says when it is turned down.
use vstd::prelude::*;

use super::arrow_source::CutsFailure;
use super::block_fill::FillError;
use super::parquet_source::CacheError;
use super::predict_input::BindError;
use super::schema::LabelsError;
use super::table::SourceError;
use crate::report::{decimal, decimal_text};
use crate::text::{quoted, quoted_text};

verus! {

impl LabelsError {
    /// The refusal in words. `label` is the name of the label column.
    pub open spec fn told(self, label: Seq<char>) -> Seq<char> {
        match self {
            LabelsError::Count { labels, rows } => {
                "标签有 "@ + decimal(labels as nat) + " 行,特征有 "@
                    + decimal(rows as nat) + " 行"@
            },
            LabelsError::Missing => {
                "标签列 "@ + quoted_text(label)
                    + " 里有缺失值。缺失的标签得在上游处理掉 —— 填 0 会被当成一个真实标签学进去"@
            },
        }
    }

    /// The refusal in words. `label` is the name of the label column.
    pub fn message(&self, label: &str) -> (r: String)
        ensures
            r@ == self.told(label@),
    {
        match *self {
            LabelsError::Count { labels, rows } => {
                "标签有 ".to_owned().concat(decimal_text(labels as u64).as_str())
                    .concat(" 行,特征有 ").concat(decimal_text(rows as u64).as_str())
                    .concat(" 行")
            },
            LabelsError::Missing => {
                "标签列 ".to_owned().concat(quoted(label).as_str())
                    .concat(" 里有缺失值。缺失的标签得在上游处理掉 —— 填 0 会被当成一个真实标签学进去")
            },
        }
    }
}

impl SourceError {
    /// The refusal in words.
    pub open spec fn told(self) -> Seq<char> {
        match self {
            SourceError::NoBlock { block, blocks } => {
                "列块 "@ + decimal(block as nat) + " 不存在,共 "@ + decimal(blocks as nat)
                    + " 个"@
            },
            SourceError::NoFeature { feat, features } => {
                "特征 "@ + decimal(feat as nat) + " 不在任何列块里,共 "@
                    + decimal(features as nat) + " 个特征"@
            },
            SourceError::ColumnCount { got, expected } => {
                "batch 有 "@ + decimal(got as nat) + " 列,cuts 是按 "@
                    + decimal(expected as nat) + " 列建的"@
            },
        }
    }

    /// The refusal in words.
    pub fn message(&self) -> (r: String)
        ensures
            r@ == self.told(),
    {
        match *self {
            SourceError::NoBlock { block, blocks } => {
                "列块 ".to_owned().concat(decimal_text(block as u64).as_str())
                    .concat(" 不存在,共 ").concat(decimal_text(blocks as u64).as_str())
                    .concat(" 个")
            },
            SourceError::NoFeature { feat, features } => {
                "特征 ".to_owned().concat(decimal_text(feat as u64).as_str())
                    .concat(" 不在任何列块里,共 ")
                    .concat(decimal_text(features as u64).as_str()).concat(" 个特征")
            },
            SourceError::ColumnCount { got, expected } => {
                "batch 有 ".to_owned().concat(decimal_text(got as u64).as_str())
                    .concat(" 列,cuts 是按 ").concat(decimal_text(expected as u64).as_str())
                    .concat(" 列建的")
            },
        }
    }
}

impl CutsFailure {
    /// The refusal in words.
    pub open spec fn told(self) -> Seq<char> {
        match self {
            CutsFailure::NoBatch => "一个 batch 都没有,建不了分箱边界"@,
            CutsFailure::ColumnCount { got, expected } => {
                "batch 之间的列数不一致:先前 "@ + decimal(expected as nat)
                    + ",这个 batch "@ + decimal(got as nat)
            },
            CutsFailure::Invalid => "每个特征的 cuts 必须是严格递增的有限值"@,
        }
    }

    /// The refusal in words.
    pub fn message(&self) -> (r: String)
        ensures
            r@ == self.told(),
    {
        match *self {
            CutsFailure::NoBatch => "一个 batch 都没有,建不了分箱边界".to_owned(),
            CutsFailure::ColumnCount { got, expected } => {
                "batch 之间的列数不一致:先前 ".to_owned()
                    .concat(decimal_text(expected as u64).as_str()).concat(",这个 batch ")
                    .concat(decimal_text(got as u64).as_str())
            },
            CutsFailure::Invalid => {
                "每个特征的 cuts 必须是严格递增的有限值".to_owned()
            },
        }
    }
}

impl FillError {
    /// The refusal in words.
    pub open spec fn told(self) -> Seq<char> {
        match self {
            FillError::ColumnCount { got, expected } => {
                "batch 有 "@ + decimal(got as nat) + " 列,列块是 "@
                    + decimal(expected as nat) + " 列"@
            },
            FillError::Rows { read, expected } => {
                "读到 "@ + decimal(read as nat) + " 行,元数据说 "@ + decimal(expected as nat)
            },
        }
    }

    /// The refusal in words.
    pub fn message(&self) -> (r: String)
        ensures
            r@ == self.told(),
    {
        match *self {
            FillError::ColumnCount { got, expected } => {
                "batch 有 ".to_owned().concat(decimal_text(got as u64).as_str())
                    .concat(" 列,列块是 ").concat(decimal_text(expected as u64).as_str())
                    .concat(" 列")
            },
            FillError::Rows { read, expected } => {
                "读到 ".to_owned().concat(decimal_text(read as u64).as_str())
                    .concat(" 行,元数据说 ").concat(decimal_text(expected as u64).as_str())
            },
        }
    }
}

impl BindError {
    /// The refusal in words. `want` is the name of the feature that is missing.
    pub open spec fn told(self, path: Seq<char>, want: Seq<char>) -> Seq<char> {
        match self {
            BindError::EmptyProjection => "prediction feature projection 不能为空"@,
            BindError::BadProjection => {
                "prediction feature projection 必须是有序、去重且不越界的 canonical id"@
            },
            BindError::ColumnCount { columns, features } => {
                path + " 有 "@ + decimal(columns as nat) + " 列,模型是按 "@
                    + decimal(features as nat)
                    + " 个特征(位置模式)训的;位置模式下列数必须完全一致"@
            },
            BindError::MissingFeature { .. } => {
                path + " 里缺少模型需要的特征列 "@ + quoted_text(want)
            },
        }
    }

    /// The refusal in words. `want` is the name of the feature that is missing.
    pub fn message(&self, path: &str, want: &str) -> (r: String)
        ensures
            r@ == self.told(path@, want@),
    {
        match *self {
            BindError::EmptyProjection => "prediction feature projection 不能为空".to_owned(),
            BindError::BadProjection => {
                "prediction feature projection 必须是有序、去重且不越界的 canonical id".to_owned()
            },
            BindError::ColumnCount { columns, features } => {
                path.to_owned().concat(" 有 ").concat(decimal_text(columns as u64).as_str())
                    .concat(" 列,模型是按 ").concat(decimal_text(features as u64).as_str())
                    .concat(" 个特征(位置模式)训的;位置模式下列数必须完全一致")
            },
            BindError::MissingFeature { .. } => {
                path.to_owned().concat(" 里缺少模型需要的特征列 ")
                    .concat(quoted(want).as_str())
            },
        }
    }
}

impl CacheError {
    /// The refusal in words. The two texts are the checksums of a block that differ.
    pub open spec fn told(self, expected: Seq<char>, actual: Seq<char>) -> Seq<char> {
        match self {
            CacheError::Version { found } => {
                "不支持的量化缓存版本 "@ + decimal(found as nat)
                    + "（payload checksum 从版本 2 开始；请重建旧缓存）"@
            },
            CacheError::SourceChanged => {
                "缓存对应的 Parquet 文件已经变化或不是当前文件"@
            },
            CacheError::Label => "缓存标签列不一致"@,
            CacheError::BlockWidth => "缓存列块宽度不一致"@,
            CacheError::MaxBin => "缓存 max_bin 不一致"@,
            CacheError::FeatureCount => "缓存特征数不一致"@,
            CacheError::Groups => {
                "缓存列块映射损坏:groups 没有按 cols_per_block 覆盖全部特征"@
            },
            CacheError::HashCount => "缓存 block checksum 数量不一致"@,
            CacheError::Offsets => "缓存 cuts offsets 损坏"@,
            CacheError::Cuts => "每个特征的 cuts 必须是严格递增的有限值"@,
            CacheError::CutsHash => "缓存 cuts 哈希不一致"@,
            CacheError::OtherCuts => {
                "给定的 cuts 和缓存里的不一致:拒绝使用旧量化数据。验证集要用训练集的 cuts,但**不能和训练集共用 cache_path** —— 它们的量化结果不同,共用会互相覆盖"@
            },
            CacheError::Rows => "缓存行数不一致"@,
            CacheError::BlockLength { block } => {
                "缓存块 "@ + decimal(block as nat) + " 长度不一致"@
            },
            CacheError::NoBlock { block } => "列块 "@ + decimal(block as nat) + " 不存在"@,
            CacheError::Checksum { block } => {
                "缓存块 "@ + decimal(block as nat) + " payload checksum 不一致:期望 "@
                    + expected + ",实际 "@ + actual
            },
            CacheError::NoColumn { block, column } => {
                "列块 "@ + decimal(block as nat) + " 没有局部特征 "@
                    + decimal(column as nat)
            },
            CacheError::NoFeature { feat, features } => {
                "特征 "@ + decimal(feat as nat) + " 越界,共 "@ + decimal(features as nat)
                    + " 列"@
            },
        }
    }

    /// The refusal in words. The two texts are the checksums of a block that differ.
    pub fn message(&self, expected: &str, actual: &str) -> (r: String)
        ensures
            r@ == self.told(expected@, actual@),
    {
        match *self {
            CacheError::Version { found } => {
                "不支持的量化缓存版本 ".to_owned()
                    .concat(decimal_text(found as u64).as_str())
                    .concat("（payload checksum 从版本 2 开始；请重建旧缓存）")
            },
            CacheError::SourceChanged => {
                "缓存对应的 Parquet 文件已经变化或不是当前文件".to_owned()
            },
            CacheError::Label => "缓存标签列不一致".to_owned(),
            CacheError::BlockWidth => "缓存列块宽度不一致".to_owned(),
            CacheError::MaxBin => "缓存 max_bin 不一致".to_owned(),
            CacheError::FeatureCount => "缓存特征数不一致".to_owned(),
            CacheError::Groups => {
                "缓存列块映射损坏:groups 没有按 cols_per_block 覆盖全部特征".to_owned()
            },
            CacheError::HashCount => "缓存 block checksum 数量不一致".to_owned(),
            CacheError::Offsets => "缓存 cuts offsets 损坏".to_owned(),
            CacheError::Cuts => "每个特征的 cuts 必须是严格递增的有限值".to_owned(),
            CacheError::CutsHash => "缓存 cuts 哈希不一致".to_owned(),
            CacheError::OtherCuts => {
                "给定的 cuts 和缓存里的不一致:拒绝使用旧量化数据。验证集要用训练集的 cuts,但**不能和训练集共用 cache_path** —— 它们的量化结果不同,共用会互相覆盖".to_owned()
            },
            CacheError::Rows => "缓存行数不一致".to_owned(),
            CacheError::BlockLength { block } => {
                "缓存块 ".to_owned().concat(decimal_text(block as u64).as_str())
                    .concat(" 长度不一致")
            },
            CacheError::NoBlock { block } => {
                "列块 ".to_owned().concat(decimal_text(block as u64).as_str())
                    .concat(" 不存在")
            },
            CacheError::Checksum { block } => {
                "缓存块 ".to_owned().concat(decimal_text(block as u64).as_str())
                    .concat(" payload checksum 不一致:期望 ").concat(expected)
                    .concat(",实际 ").concat(actual)
            },
            CacheError::NoColumn { block, column } => {
                "列块 ".to_owned().concat(decimal_text(block as u64).as_str())
                    .concat(" 没有局部特征 ").concat(decimal_text(column as u64).as_str())
            },
            CacheError::NoFeature { feat, features } => {
                "特征 ".to_owned().concat(decimal_text(feat as u64).as_str())
                    .concat(" 越界,共 ").concat(decimal_text(features as u64).as_str())
                    .concat(" 列")
            },
        }
    }
}

} // verus!
