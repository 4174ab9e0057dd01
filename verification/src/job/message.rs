//! What a job says when it is turned down.
use vstd::prelude::*;

use super::array::ArrayError;
use super::blocking::BlockingError;
use super::params::DeviceError;
use super::predict::{OutputError, SchemaError};
use super::score::ProjectError;
use super::train::{LabelError, PlanFailure, TableError};
use crate::inference::InferenceError;
use crate::report::{decimal, decimal_text};
use crate::text::{quoted, quoted_text};

verus! {

/// A whole number in decimal.
pub open spec fn signed(n: int) -> Seq<char> {
    if n < 0 {
        "-"@ + decimal((-n) as nat)
    } else {
        decimal(n as nat)
    }
}

/// A whole number in decimal.
fn signed_text(n: isize) -> (r: String)
    ensures
        r@ == signed(n as int),
{
    if n < 0 {
        "-".to_owned().concat(decimal_text((-(n + 1)) as u64 + 1).as_str())
    } else {
        decimal_text(n as u64)
    }
}

impl LabelError {
    /// The refusal in words.
    pub open spec fn told(self) -> Seq<char> {
        match self {
            LabelError::HeaderlessParquet => "header=False 只适用于 CSV"@,
            LabelError::NameWanted => "header=True 时 label 必须是列名字符串"@,
            LabelError::IndexWanted => "header=False 时 label 必须是从 0 开始的列下标"@,
            LabelError::NegativeIndex { index } => {
                "label 列下标不能是负数,给的是 "@ + signed(index as int)
            },
        }
    }

    /// The refusal in words.
    pub fn message(&self) -> (r: String)
        ensures
            r@ == self.told(),
    {
        match *self {
            LabelError::HeaderlessParquet => "header=False 只适用于 CSV".to_owned(),
            LabelError::NameWanted => "header=True 时 label 必须是列名字符串".to_owned(),
            LabelError::IndexWanted => {
                "header=False 时 label 必须是从 0 开始的列下标".to_owned()
            },
            LabelError::NegativeIndex { index } => {
                "label 列下标不能是负数,给的是 ".to_owned()
                    .concat(signed_text(index).as_str())
            },
        }
    }
}

impl SchemaError {
    /// The refusal in words.
    pub open spec fn told(self) -> Seq<char> {
        match self {
            SchemaError::Unknown => {
                "这个模型是在记录 schema 之前保存的,无法安全地按文件预测:空的特征名单既可能是位置模式,也可能是命名模式没存名字,二者无法区分。请用当前版本重新训练,或改用 numpy 数组预测。"@
            },
            SchemaError::NoNames => "模型标为命名模式但没有特征名单"@,
            SchemaError::HeaderlessParquet => "header=False 只适用于 CSV"@,
            SchemaError::NamesNeeded => {
                "命名模式模型不能用 header=False 的位置 CSV 预测"@
            },
            SchemaError::HeaderNotExpected => {
                "位置模式模型预测 CSV 时必须显式传 header=False"@
            },
        }
    }

    /// The refusal in words.
    pub fn message(&self) -> (r: String)
        ensures
            r@ == self.told(),
    {
        match *self {
            SchemaError::Unknown => {
                "这个模型是在记录 schema 之前保存的,无法安全地按文件预测:空的特征名单既可能是位置模式,也可能是命名模式没存名字,二者无法区分。请用当前版本重新训练,或改用 numpy 数组预测。".to_owned()
            },
            SchemaError::NoNames => "模型标为命名模式但没有特征名单".to_owned(),
            SchemaError::HeaderlessParquet => "header=False 只适用于 CSV".to_owned(),
            SchemaError::NamesNeeded => {
                "命名模式模型不能用 header=False 的位置 CSV 预测".to_owned()
            },
            SchemaError::HeaderNotExpected => {
                "位置模式模型预测 CSV 时必须显式传 header=False".to_owned()
            },
        }
    }
}

impl OutputError {
    /// The refusal in words.
    pub open spec fn told(self) -> Seq<char> {
        match self {
            OutputError::BlankColumn => "prediction_column 不能为空或只包含空白"@,
            OutputError::Extension => {
                "prediction 输出路径必须使用 .parquet 或 .pq 扩展名"@
            },
        }
    }

    /// The refusal in words.
    pub fn message(&self) -> (r: String)
        ensures
            r@ == self.told(),
    {
        match *self {
            OutputError::BlankColumn => {
                "prediction_column 不能为空或只包含空白".to_owned()
            },
            OutputError::Extension => {
                "prediction 输出路径必须使用 .parquet 或 .pq 扩展名".to_owned()
            },
        }
    }
}

impl TableError {
    /// The refusal in words. `set` is the name of the evaluation set that was checked.
    pub open spec fn told(self, set: Seq<char>) -> Seq<char> {
        match self {
            TableError::Labels { labels, rows } => {
                "标签有 "@ + decimal(labels as nat) + " 个,特征矩阵有 "@
                    + decimal(rows as nat) + " 行"@
            },
            TableError::Columns { got, expected } => {
                "验证集 "@ + set + " 有 "@ + decimal(got as nat) + " 列,训练集是 "@
                    + decimal(expected as nat) + " 列"@
            },
        }
    }

    /// The refusal in words. `set` is the name of the evaluation set that was checked.
    pub fn message(&self, set: &str) -> (r: String)
        ensures
            r@ == self.told(set@),
    {
        match *self {
            TableError::Labels { labels, rows } => {
                "标签有 ".to_owned().concat(decimal_text(labels as u64).as_str())
                    .concat(" 个,特征矩阵有 ").concat(decimal_text(rows as u64).as_str())
                    .concat(" 行")
            },
            TableError::Columns { got, expected } => {
                "验证集 ".to_owned().concat(set).concat(" 有 ")
                    .concat(decimal_text(got as u64).as_str()).concat(" 列,训练集是 ")
                    .concat(decimal_text(expected as u64).as_str()).concat(" 列")
            },
        }
    }
}

impl DeviceError {
    /// The refusal in words. `name` is the name that was given.
    pub open spec fn told(self, name: Seq<char>) -> Seq<char> {
        match self {
            DeviceError::NotANumber => "device 解析不了:"@ + quoted_text(name),
            DeviceError::Unknown => {
                "device 只支持 \"cpu\" / \"cuda\" / \"cuda:N\",收到 "@ + quoted_text(name)
            },
        }
    }

    /// The refusal in words. `name` is the name that was given.
    pub fn message(&self, name: &str) -> (r: String)
        ensures
            r@ == self.told(name@),
    {
        match *self {
            DeviceError::NotANumber => {
                "device 解析不了:".to_owned().concat(quoted(name).as_str())
            },
            DeviceError::Unknown => {
                "device 只支持 \"cpu\" / \"cuda\" / \"cuda:N\",收到 ".to_owned()
                    .concat(quoted(name).as_str())
            },
        }
    }
}

impl ArrayError {
    /// The refusal in words.
    pub open spec fn told(self) -> Seq<char> {
        match self {
            ArrayError::NoDevice => {
                "这个 FerrisBoost build 没有 CUDA prediction 支持;请使用 use_gpu=False 或安装 CUDA wheel。"@
            },
            ArrayError::Width { got, expected } => {
                "模型是按 "@ + decimal(expected as nat)
                    + " 个特征训的,传进来的是 "@ + decimal(got as nat) + " 列"@
            },
        }
    }

    /// The refusal in words.
    pub fn message(&self) -> (r: String)
        ensures
            r@ == self.told(),
    {
        match *self {
            ArrayError::NoDevice => {
                "这个 FerrisBoost build 没有 CUDA prediction 支持;请使用 use_gpu=False 或安装 CUDA wheel。".to_owned()
            },
            ArrayError::Width { got, expected } => {
                "模型是按 ".to_owned().concat(decimal_text(expected as u64).as_str())
                    .concat(" 个特征训的,传进来的是 ")
                    .concat(decimal_text(got as u64).as_str()).concat(" 列")
            },
        }
    }
}

impl InferenceError {
    /// The refusal in words.
    pub open spec fn told(self) -> Seq<char> {
        match self {
            InferenceError::NoFeatures => "prediction model must contain at least one feature"@,
            InferenceError::EmptyTree => "prediction tree must contain at least one node"@,
            InferenceError::FeatureOutOfRange { feat } => {
                "CPU prediction model contains out-of-range feature "@ + decimal(feat as nat)
            },
            InferenceError::ChildOutOfRange => {
                "CPU prediction model contains out-of-range child index"@
            },
            InferenceError::ChildCycle => "CPU prediction model contains a child cycle"@,
            InferenceError::InputFeatures { got, expected } => {
                "CPU prediction input has "@ + decimal(got as nat) + " features, expected "@
                    + decimal(expected as nat)
            },
            InferenceError::InputOverflow => "CPU prediction input size overflow"@,
            InferenceError::InputLength { got, rows, features, expected } => {
                "CPU prediction input contains "@ + decimal(got as nat) + " values, expected "@
                    + decimal(rows as nat) + " rows x "@ + decimal(features as nat) + " = "@
                    + decimal(expected as nat)
            },
        }
    }

    /// The refusal in words.
    pub fn message(&self) -> (r: String)
        ensures
            r@ == self.told(),
    {
        match *self {
            InferenceError::NoFeatures => {
                "prediction model must contain at least one feature".to_owned()
            },
            InferenceError::EmptyTree => "prediction tree must contain at least one node".to_owned(),
            InferenceError::FeatureOutOfRange { feat } => {
                "CPU prediction model contains out-of-range feature ".to_owned()
                    .concat(decimal_text(feat as u64).as_str())
            },
            InferenceError::ChildOutOfRange => {
                "CPU prediction model contains out-of-range child index".to_owned()
            },
            InferenceError::ChildCycle => "CPU prediction model contains a child cycle".to_owned(),
            InferenceError::InputFeatures { got, expected } => {
                "CPU prediction input has ".to_owned().concat(decimal_text(got as u64).as_str())
                    .concat(" features, expected ").concat(decimal_text(expected as u64).as_str())
            },
            InferenceError::InputOverflow => "CPU prediction input size overflow".to_owned(),
            InferenceError::InputLength { got, rows, features, expected } => {
                "CPU prediction input contains ".to_owned()
                    .concat(decimal_text(got as u64).as_str()).concat(" values, expected ")
                    .concat(decimal_text(rows as u64).as_str()).concat(" rows x ")
                    .concat(decimal_text(features as u64).as_str()).concat(" = ")
                    .concat(decimal_text(expected as u64).as_str())
            },
        }
    }
}

impl ProjectError {
    /// The refusal in words.
    pub open spec fn told(self) -> Seq<char> {
        match self {
            ProjectError::InputOverflow => "prediction canonical input size 溢出"@,
            ProjectError::InputLength { got, expected } => {
                "prediction canonical input 有 "@ + decimal(got as nat) + " 个值,预期 "@
                    + decimal(expected as nat)
            },
            ProjectError::OutputOverflow => "prediction compact input size 溢出"@,
        }
    }

    /// The refusal in words.
    pub fn message(&self) -> (r: String)
        ensures
            r@ == self.told(),
    {
        match *self {
            ProjectError::InputOverflow => "prediction canonical input size 溢出".to_owned(),
            ProjectError::InputLength { got, expected } => {
                "prediction canonical input 有 ".to_owned()
                    .concat(decimal_text(got as u64).as_str()).concat(" 个值,预期 ")
                    .concat(decimal_text(expected as u64).as_str())
            },
            ProjectError::OutputOverflow => "prediction compact input size 溢出".to_owned(),
        }
    }
}

impl BlockingError {
    /// The refusal in words.
    pub open spec fn told(self) -> Seq<char> {
        match self {
            BlockingError::RowsUnknown => {
                "GPU 规划需要数据行数,但当前输入源在 open 前无法提供；请先用显式 cols_per_block 构造 source，再用 open 后的真实聚合行数完成规划"@
            },
            BlockingError::DoesNotFit(e) => e.told(),
        }
    }

    /// The refusal in words.
    pub fn message(&self) -> (r: String)
        ensures
            r@ == self.told(),
    {
        match *self {
            BlockingError::RowsUnknown => {
                "GPU 规划需要数据行数,但当前输入源在 open 前无法提供；请先用显式 cols_per_block 构造 source，再用 open 后的真实聚合行数完成规划".to_owned()
            },
            BlockingError::DoesNotFit(e) => e.message(),
        }
    }
}

impl PlanFailure {
    /// The refusal in words.
    pub open spec fn told(self) -> Seq<char> {
        match self {
            PlanFailure::WidthNeeded => {
                "GPU 输入在 open 前拿不到行数时需要显式 cols_per_block；open 后会用真实行数完成显存、stream 和 residency 规划"@
            },
            PlanFailure::Blocking(e) => e.told(),
            PlanFailure::WidthChanged { opened, planned } => {
                "deferred GPU planner changed source geometry from "@ + decimal(opened as nat)
                    + " to "@ + decimal(planned as nat)
                    + "; explicit cols_per_block must be preserved"@
            },
        }
    }

    /// The refusal in words.
    pub fn message(&self) -> (r: String)
        ensures
            r@ == self.told(),
    {
        match *self {
            PlanFailure::WidthNeeded => {
                "GPU 输入在 open 前拿不到行数时需要显式 cols_per_block；open 后会用真实行数完成显存、stream 和 residency 规划".to_owned()
            },
            PlanFailure::Blocking(e) => e.message(),
            PlanFailure::WidthChanged { opened, planned } => {
                "deferred GPU planner changed source geometry from ".to_owned()
                    .concat(decimal_text(opened as u64).as_str()).concat(" to ")
                    .concat(decimal_text(planned as u64).as_str())
                    .concat("; explicit cols_per_block must be preserved")
            },
        }
    }
}

impl InferenceError {
    /// The refusal of a compact copy in words.
    pub open spec fn told_compact(self) -> Seq<char> {
        match self {
            InferenceError::NoFeatures => "prediction 模型必须至少有一个 feature"@,
            InferenceError::FeatureOutOfRange { feat } => {
                "prediction 模型含越界 feature "@ + decimal(feat as nat)
            },
            _ => self.told(),
        }
    }

    /// The refusal of a compact copy in words.
    pub fn compact_message(&self) -> (r: String)
        ensures
            r@ == self.told_compact(),
    {
        match *self {
            InferenceError::NoFeatures => "prediction 模型必须至少有一个 feature".to_owned(),
            InferenceError::FeatureOutOfRange { feat } => {
                "prediction 模型含越界 feature ".to_owned()
                    .concat(decimal_text(feat as u64).as_str())
            },
            _ => self.message(),
        }
    }
}

} // verus!
