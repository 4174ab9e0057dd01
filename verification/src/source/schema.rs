//! Which columns of a file are features, and which is the label.
//!
//! The label is never a feature: a tree would split on it, be perfect in training and wrong ever
//! after. Columns are chosen by name, so that files may hold them in different orders.
use vstd::prelude::*;
use vstd::string::*;

use crate::float32::F32;
use crate::report::{decimal, decimal_text};
use crate::text::{quoted, quoted_text, same_text};

verus! {

/// Why a schema cannot be used.
#[derive(Clone, Copy, Debug, PartialEq, Eq, Structural)]
pub enum SchemaError {
    /// There is no column with the label's name.
    NoLabel,
    /// There is no column but the label.
    OnlyLabel,
    /// A file without a header has no column but the label.
    NoFeatures,
    /// The label's number is past the last column.
    LabelPosition { index: usize, columns: usize },
    /// Column number `column` does not hold numbers.
    NotNumeric { column: usize },
    /// There is no file.
    NoFile,
    /// A file has another number of features than the first.
    FeatureCount { file: usize, got: usize, expected: usize },
    /// A file lacks feature number `feature` of the first.
    MissingFeature { file: usize, feature: usize },
}

/// The first `k` names in quotes, with commas between them.
pub open spec fn listed(names: Seq<String>, k: int) -> Seq<char>
    decreases k,
{
    if k <= 0 {
        ""@
    } else if k == 1 {
        quoted_text(names[0]@)
    } else {
        listed(names, k - 1) + ", "@ + quoted_text(names[k - 1]@)
    }
}

pub(crate) fn list_names(names: &[String]) -> (r: String)
    ensures
        r@ == listed(names@, names@.len() as int),
{
    let mut r: String = "".to_owned();
    let mut k: usize = 0;
    while k < names.len()
        invariant
            k <= names@.len(),
            r@ == listed(names@, k as int),
        decreases names.len() - k,
    {
        let name: String = quoted(names[k].as_str());
        if k == 0 {
            r = name;
        } else {
            r = r.concat(", ").concat(name.as_str());
        }
        k += 1;
    }
    r
}

/// The words for a label that cannot be used: what was looked for, and what there is.
pub open spec fn told_label(e: SchemaError, label: Seq<char>, names: Seq<String>) -> Option<
    Seq<char>,
> {
    match e {
        SchemaError::NoLabel => Some(
            "文件里没有列 "@ + quoted_text(label) + ",只有 ["@ + listed(names, names.len() as int) + "]"@,
        ),
        SchemaError::OnlyLabel => Some(
            "除了标签列 "@ + quoted_text(label) + " 之外没有别的列了"@,
        ),
        SchemaError::NoFeatures => Some("无表头 CSV 除了标签列之外没有特征列"@),
        SchemaError::LabelPosition { index, columns } => Some(
            "label 列下标 "@ + decimal(index as nat) + " 越界:无表头 CSV 只有 "@ + decimal(columns as nat)
                + " 列"@,
        ),
        _ => None,
    }
}

impl SchemaError {
    /// The words for a label that cannot be used; none for other errors.
    pub fn label_message(&self, label: &str, names: &[String]) -> (r: Option<String>)
        ensures
            match r {
                Some(s) => told_label(*self, label@, names@) == Some(s@),
                None => told_label(*self, label@, names@) is None,
            },
    {
        match self {
            SchemaError::NoLabel => Some(
                "文件里没有列 ".to_owned().concat(quoted(label).as_str()).concat(",只有 [").concat(
                    list_names(names).as_str(),
                ).concat("]"),
            ),
            SchemaError::OnlyLabel => Some(
                "除了标签列 ".to_owned().concat(quoted(label).as_str()).concat(
                    " 之外没有别的列了",
                ),
            ),
            SchemaError::NoFeatures => Some("无表头 CSV 除了标签列之外没有特征列".to_owned()),
            SchemaError::LabelPosition { index, columns } => Some(
                "label 列下标 ".to_owned().concat(decimal_text(*index as u64).as_str()).concat(
                    " 越界:无表头 CSV 只有 ",
                ).concat(decimal_text(*columns as u64).as_str()).concat(" 列"),
            ),
            _ => None,
        }
    }
}

/// The columns of a file: those of the features with their names, and that of the label.
pub struct FileColumns {
    pub features: Vec<usize>,
    pub names: Vec<String>,
    pub label: usize,
}

/// The columns before `k` that are features, by a test on column numbers.
pub open spec fn chosen(k: int, wanted: spec_fn(int) -> bool) -> Seq<usize>
    decreases k,
{
    if k <= 0 {
        seq![]
    } else if wanted(k - 1) {
        chosen(k - 1, wanted).push((k - 1) as usize)
    } else {
        chosen(k - 1, wanted)
    }
}

/// The columns before `k` but for one.
pub open spec fn all_but(k: int, at: int) -> Seq<usize>
    decreases k,
{
    if k <= 0 {
        seq![]
    } else if k - 1 != at {
        all_but(k - 1, at).push((k - 1) as usize)
    } else {
        all_but(k - 1, at)
    }
}

/// The features are the wanted columns, each of them once, in the order of the file, and no others.
pub proof fn law_features_are_the_wanted_columns(k: int, wanted: spec_fn(int) -> bool)
    requires
        0 <= k <= usize::MAX,
    ensures
        forall|c: usize| #[trigger] chosen(k, wanted).contains(c) <==> c < k && wanted(c as int),
        forall|i: int, j: int|
            0 <= i < j < chosen(k, wanted).len() ==> chosen(k, wanted)[i] < chosen(k, wanted)[j],
    decreases k,
{
    if k > 0 {
        law_features_are_the_wanted_columns(k - 1, wanted);
        let rest = chosen(k - 1, wanted);
        let all = chosen(k, wanted);
        assert forall|i: int, j: int| 0 <= i < j < all.len() implies all[i] < all[j] by {
            assert(all[i] == rest[i]);
            assert(rest.contains(rest[i]));
        }
        assert forall|c: usize| #[trigger] all.contains(c) <==> c < k && wanted(c as int) by {
            if all.contains(c) {
                let i = choose|i: int| 0 <= i < all.len() && all[i] == c;
                if i < rest.len() {
                    assert(rest[i] == c);
                    assert(rest.contains(c));
                }
            }
            if c < k && wanted(c as int) {
                if c < k - 1 {
                    assert(rest.contains(c));
                    let i = choose|i: int| 0 <= i < rest.len() && rest[i] == c;
                    assert(all[i] == c);
                } else {
                    assert(all[rest.len() as int] == c);
                }
            }
        }
    }
}

/// Every column but the one is there, once, in the order of the file.
pub proof fn law_every_other_column_is_a_feature(k: int, at: int)
    requires
        0 <= k <= usize::MAX,
    ensures
        forall|c: usize| #[trigger] all_but(k, at).contains(c) <==> c < k && c != at,
        forall|i: int, j: int|
            0 <= i < j < all_but(k, at).len() ==> all_but(k, at)[i] < all_but(k, at)[j],
        0 <= at < k ==> all_but(k, at).len() == k - 1,
{
    let wanted = |c: int| c != at;
    lemma_all_but_is_chosen(k, at);
    law_features_are_the_wanted_columns(k, wanted);
    assert forall|c: usize| #[trigger] all_but(k, at).contains(c) <==> c < k && c != at by {
        assert(chosen(k, wanted).contains(c) <==> c < k && wanted(c as int));
    }
}

proof fn lemma_all_but_is_chosen(k: int, at: int)
    ensures
        all_but(k, at) == chosen(k, |c: int| c != at),
        k >= 0 ==> all_but(k, at).len() == if 0 <= at < k {
            k - 1
        } else {
            k
        },
    decreases k,
{
    if k > 0 {
        lemma_all_but_is_chosen(k - 1, at);
    }
}

/// Names belong to columns.
pub open spec fn named(names: Seq<String>, features: Seq<usize>, of: Seq<String>) -> bool {
    &&& of.len() == features.len()
    &&& forall|i: int|
        0 <= i < features.len() ==> (#[trigger] features[i]) < names.len() && of[i]@
            == names[features[i] as int]@
}

pub(crate) fn find_label(names: &[String], label: &str) -> (r: Option<usize>)
    ensures
        match r {
            Some(at) => super::predict_input::place_of(names@, label@, at as int),
            None => super::predict_input::absent(names@, label@),
        },
{
    let mut i: usize = 0;
    while i < names.len()
        invariant
            i <= names@.len(),
            forall|k: int| 0 <= k < i ==> (#[trigger] names@[k])@ != label@,
        decreases names.len() - i,
    {
        if same_text(names[i].as_str(), label) {
            return Some(i);
        }
        i += 1;
    }
    None
}

/// The columns of a Parquet file: every column that is not called like the label is a feature.
pub fn feature_columns(names: &[String], label: &str) -> (r: Result<FileColumns, SchemaError>)
    ensures
        match r {
            Ok(c) => {
                &&& c.features@ == chosen(names@.len() as int, |i: int| names@[i]@ != label@)
                &&& c.features@.len() > 0
                &&& named(names@, c.features@, c.names@)
                &&& super::predict_input::place_of(names@, label@, c.label as int)
            },
            Err(SchemaError::OnlyLabel) => chosen(
                names@.len() as int,
                |i: int| names@[i]@ != label@,
            ).len() == 0,
            Err(SchemaError::NoLabel) => super::predict_input::absent(names@, label@) && chosen(
                names@.len() as int,
                |i: int| names@[i]@ != label@,
            ).len() > 0,
            Err(_) => false,
        },
{
    let ghost wanted = |i: int| names@[i]@ != label@;
    let mut features: Vec<usize> = Vec::new();
    let mut kept: Vec<String> = Vec::new();
    let mut i: usize = 0;
    while i < names.len()
        invariant
            i <= names@.len(),
            wanted == (|k: int| names@[k]@ != label@),
            features@ == chosen(i as int, wanted),
            named(names@, features@, kept@),
        decreases names.len() - i,
    {
        if !same_text(names[i].as_str(), label) {
            features.push(i);
            let n: String = names[i].clone();
            kept.push(n);
        }
        i += 1;
    }
    if features.len() == 0 {
        return Err(SchemaError::OnlyLabel);
    }
    match find_label(names, label) {
        None => Err(SchemaError::NoLabel),
        Some(at) => Ok(FileColumns { features, names: kept, label: at }),
    }
}

/// The columns of a CSV file: every column but the first that is called like the label is a
/// feature.
pub fn columns(names: &[String], label: &str) -> (r: Result<FileColumns, SchemaError>)
    ensures
        match r {
            Ok(c) => {
                &&& super::predict_input::place_of(names@, label@, c.label as int)
                &&& c.features@ == all_but(names@.len() as int, c.label as int)
                &&& c.features@.len() > 0
                &&& named(names@, c.features@, c.names@)
            },
            Err(SchemaError::NoLabel) => super::predict_input::absent(names@, label@),
            Err(SchemaError::OnlyLabel) => exists|at: int| #[trigger]
                super::predict_input::place_of(names@, label@, at) && all_but(
                    names@.len() as int,
                    at,
                ).len() == 0,
            Err(_) => false,
        },
{
    let at: usize = match find_label(names, label) {
        None => {
            return Err(SchemaError::NoLabel);
        },
        Some(at) => at,
    };
    let mut features: Vec<usize> = Vec::new();
    let mut kept: Vec<String> = Vec::new();
    let mut i: usize = 0;
    while i < names.len()
        invariant
            i <= names@.len(),
            features@ == all_but(i as int, at as int),
            named(names@, features@, kept@),
        decreases names.len() - i,
    {
        if i != at {
            features.push(i);
            let n: String = names[i].clone();
            kept.push(n);
        }
        i += 1;
    }
    if features.len() == 0 {
        assert(super::predict_input::place_of(names@, label@, at as int));
        return Err(SchemaError::OnlyLabel);
    }
    Ok(FileColumns { features, names: kept, label: at })
}

/// A column of a file: its name, and whether it holds numbers.
pub struct Field {
    pub name: String,
    pub numeric: bool,
}

/// Every column but those called like the label holds numbers; the first that does not is told.
pub fn check_numeric(fields: &[Field], label: &str) -> (r: Result<(), SchemaError>)
    ensures
        match r {
            Ok(()) => forall|i: int|
                0 <= i < fields@.len() ==> (#[trigger] fields@[i]).name@ == label@
                    || fields@[i].numeric,
            Err(e) => e matches SchemaError::NotNumeric { column } && column < fields@.len()
                && fields@[column as int].name@ != label@ && !fields@[column as int].numeric
                && forall|i: int|
                0 <= i < column ==> (#[trigger] fields@[i]).name@ == label@ || fields@[i].numeric,
        },
{
    let mut i: usize = 0;
    while i < fields.len()
        invariant
            i <= fields@.len(),
            forall|k: int|
                0 <= k < i ==> (#[trigger] fields@[k]).name@ == label@ || fields@[k].numeric,
        decreases fields.len() - i,
    {
        if !same_text(fields[i].name.as_str(), label) && !fields[i].numeric {
            return Err(SchemaError::NotNumeric { column: i });
        }
        i += 1;
    }
    Ok(())
}

/// The name of a label column that is given by its number.
pub fn positional_label_name(names: &[String], index: usize) -> (r: Result<String, SchemaError>)
    ensures
        match r {
            Ok(n) => index < names@.len() && names@.len() > 1 && n@ == names@[index as int]@,
            Err(e) => if index >= names@.len() {
                e == SchemaError::LabelPosition { index, columns: names@.len() as usize }
            } else {
                names@.len() <= 1 && e == SchemaError::NoFeatures
            },
        },
{
    let n: usize = names.len();
    if index >= n {
        return Err(SchemaError::LabelPosition { index, columns: n });
    }
    if n <= 1 {
        return Err(SchemaError::NoFeatures);
    }
    Ok(names[index].clone())
}

/// Column `at` of a file holds feature `i` of the first file.
pub open spec fn holds_feature(
    file: FileColumns,
    first: FileColumns,
    by_name: bool,
    i: int,
    at: int,
) -> bool {
    if by_name {
        exists|j: int| #[trigger]
            super::predict_input::place_of(file.names@, first.names@[i]@, j)
                && file.features@[j] == at
    } else {
        file.features@[i] == at
    }
}

/// Columns of a file in the order of the first file's features.
pub open spec fn is_aligned(
    columns: Seq<usize>,
    file: FileColumns,
    first: FileColumns,
    by_name: bool,
) -> bool {
    &&& columns.len() == first.features@.len()
    &&& forall|i: int|
        0 <= i < columns.len() ==> holds_feature(
            file,
            first,
            by_name,
            i,
            (#[trigger] columns[i]) as int,
        )
}

/// A file that can be aligned: as many features as the first, and by name each of them.
pub open spec fn alignable(file: FileColumns, first: FileColumns, by_name: bool) -> bool {
    &&& file.names@.len() == first.names@.len()
    &&& by_name ==> forall|i: int|
        0 <= i < first.names@.len() ==> !super::predict_input::absent(
            file.names@,
            (#[trigger] first.names@[i])@,
        )
}

pub(crate) fn align_one(file: &FileColumns, first: &FileColumns, by_name: bool, at: usize) -> (r: Result<
    Vec<usize>,
    SchemaError,
>)
    requires
        file.features@.len() == file.names@.len(),
        first.features@.len() == first.names@.len(),
    ensures
        match r {
            Ok(c) => alignable(*file, *first, by_name) && is_aligned(c@, *file, *first, by_name),
            Err(e) => if file.names@.len() != first.names@.len() {
                e matches SchemaError::FeatureCount { file: f, got, expected } && f == at && got
                    == file.names@.len() && expected == first.names@.len()
            } else {
                e matches SchemaError::MissingFeature { file: f, feature } && by_name && f == at
                    && feature < first.names@.len() && super::predict_input::absent(
                    file.names@,
                    first.names@[feature as int]@,
                ) && forall|i: int|
                    0 <= i < feature ==> !super::predict_input::absent(
                        file.names@,
                        (#[trigger] first.names@[i])@,
                    )
            },
        },
{
    let got: usize = file.names.len();
    let expected: usize = first.names.len();
    if got != expected {
        return Err(SchemaError::FeatureCount { file: at, got, expected });
    }
    let mut columns: Vec<usize> = Vec::new();
    let mut i: usize = 0;
    while i < expected
        invariant
            i <= expected,
            got == expected,
            got == file.names@.len(),
            expected == first.names@.len(),
            file.features@.len() == file.names@.len(),
            first.features@.len() == first.names@.len(),
            columns@.len() == i,
            forall|k: int|
                0 <= k < i ==> holds_feature(
                    *file,
                    *first,
                    by_name,
                    k,
                    (#[trigger] columns@[k]) as int,
                ),
            by_name ==> forall|k: int|
                0 <= k < i ==> !super::predict_input::absent(
                    file.names@,
                    (#[trigger] first.names@[k])@,
                ),
        decreases expected - i,
    {
        if by_name {
            match find_label(file.names.as_slice(), first.names[i].as_str()) {
                None => {
                    return Err(SchemaError::MissingFeature { file: at, feature: i });
                },
                Some(j) => {
                    proof {
                        assert(super::predict_input::place_of(
                            file.names@,
                            first.names@[i as int]@,
                            j as int,
                        ));
                        assert(file.names@[j as int]@ == first.names@[i as int]@);
                    }
                    columns.push(file.features[j]);
                },
            }
        } else {
            columns.push(file.features[i]);
        }
        i += 1;
    }
    Ok(columns)
}

/// The columns of each file in the order of the first file's features, so that all files give the
/// same features in the same places. By name where columns have names; else as they stand.
pub fn align_files(files: &[FileColumns], by_name: bool) -> (r: Result<
    Vec<Vec<usize>>,
    SchemaError,
>)
    requires
        forall|k: int|
            0 <= k < files@.len() ==> (#[trigger] files@[k]).features@.len()
                == files@[k].names@.len(),
    ensures
        match r {
            Ok(v) => {
                &&& files@.len() > 0
                &&& v@.len() == files@.len()
                &&& v@[0]@ == files@[0].features@
                &&& forall|k: int|
                    1 <= k < files@.len() ==> is_aligned(
                        (#[trigger] v@[k])@,
                        files@[k],
                        files@[0],
                        by_name,
                    )
            },
            Err(SchemaError::NoFile) => files@.len() == 0,
            Err(SchemaError::FeatureCount { file, got, expected }) => {
                &&& 1 <= file < files@.len()
                &&& forall|k: int|
                    1 <= k < file ==> alignable(#[trigger] files@[k], files@[0], by_name)
                &&& got == files@[file as int].names@.len()
                &&& expected == files@[0].names@.len()
                &&& got != expected
            },
            Err(SchemaError::MissingFeature { file, feature }) => {
                &&& by_name
                &&& 1 <= file < files@.len()
                &&& forall|k: int|
                    1 <= k < file ==> alignable(#[trigger] files@[k], files@[0], by_name)
                &&& feature < files@[0].names@.len()
                &&& super::predict_input::absent(
                    files@[file as int].names@,
                    files@[0].names@[feature as int]@,
                )
            },
            Err(_) => false,
        },
{
    if files.len() == 0 {
        return Err(SchemaError::NoFile);
    }
    let mut v: Vec<Vec<usize>> = Vec::new();
    let mut own: Vec<usize> = Vec::new();
    let mut i: usize = 0;
    while i < files[0].features.len()
        invariant
            files@.len() > 0,
            i <= files@[0].features@.len(),
            own@ == files@[0].features@.take(i as int),
        decreases files[0].features.len() - i,
    {
        own.push(files[0].features[i]);
        assert(files@[0].features@.take(i + 1) =~= files@[0].features@.take(i as int).push(
            files@[0].features@[i as int],
        ));
        i += 1;
    }
    assert(files@[0].features@.take(i as int) =~= files@[0].features@);
    v.push(own);
    let mut k: usize = 1;
    while k < files.len()
        invariant
            1 <= k <= files@.len(),
            forall|j: int|
                0 <= j < files@.len() ==> (#[trigger] files@[j]).features@.len()
                    == files@[j].names@.len(),
            v@.len() == k,
            v@[0]@ == files@[0].features@,
            forall|j: int|
                1 <= j < k ==> is_aligned((#[trigger] v@[j])@, files@[j], files@[0], by_name),
            forall|j: int| 1 <= j < k ==> alignable(#[trigger] files@[j], files@[0], by_name),
        decreases files.len() - k,
    {
        assert(files@[0].features@.len() == files@[0].names@.len());
        assert(files@[k as int].features@.len() == files@[k as int].names@.len());
        match align_one(&files[k], &files[0], by_name, k) {
            Err(e) => {
                return Err(e);
            },
            Ok(c) => {
                v.push(c);
            },
        }
        k += 1;
    }
    Ok(v)
}

/// By name, every file gives the feature of the same name in the same place.
pub proof fn law_aligned_features_have_one_name(
    names: Seq<String>,
    file: FileColumns,
    first: FileColumns,
    columns: Seq<usize>,
    i: int,
)
    requires
        named(names, file.features@, file.names@),
        is_aligned(columns, file, first, true),
        0 <= i < columns.len(),
    ensures
        names[columns[i] as int]@ == first.names@[i]@,
{
    assert(holds_feature(file, first, true, i, columns[i] as int));
    let j = choose|j: int| #[trigger]
        super::predict_input::place_of(file.names@, first.names@[i]@, j) && file.features@[j]
            == columns[i] as int;
    assert(file.features@[j] < names.len());
}

proof fn lemma_chosen_members(k: int, wanted: spec_fn(int) -> bool, i: int)
    requires
        0 <= k <= usize::MAX,
        0 <= i < chosen(k, wanted).len(),
    ensures
        0 <= chosen(k, wanted)[i] < k,
        wanted(chosen(k, wanted)[i] as int),
    decreases k,
{
    if k > 0 {
        if i < chosen(k - 1, wanted).len() {
            lemma_chosen_members(k - 1, wanted, i);
        }
    }
}

/// No feature of a Parquet file is called like the label.
pub proof fn law_label_is_no_feature(names: Seq<String>, label: Seq<char>, i: int)
    requires
        names.len() <= usize::MAX,
        0 <= i < chosen(names.len() as int, |k: int| names[k]@ != label).len(),
    ensures
        names[chosen(names.len() as int, |k: int| names[k]@ != label)[i] as int]@ != label,
{
    lemma_chosen_members(names.len() as int, |k: int| names[k]@ != label, i);
}

/// Why labels are refused.
#[derive(Clone, Copy, Debug, PartialEq, Eq, Structural)]
pub enum LabelsError {
    Count { labels: usize, rows: usize },
    /// A missing label cannot stand for a value: zero would be learned as one.
    Missing,
}

/// There is a label for each row, and none is missing.
pub fn check_labels(labels: &[F32], n_rows: usize) -> (r: Result<(), LabelsError>)
    ensures
        r == if labels@.len() != n_rows {
            Err::<(), LabelsError>(
                LabelsError::Count { labels: labels@.len() as usize, rows: n_rows },
            )
        } else if exists|i: int| 0 <= i < labels@.len() && (#[trigger] labels@[i]).nan() {
            Err(LabelsError::Missing)
        } else {
            Ok(())
        },
{
    let n: usize = labels.len();
    if n != n_rows {
        return Err(LabelsError::Count { labels: n, rows: n_rows });
    }
    let mut i: usize = 0;
    while i < n
        invariant
            n == labels@.len(),
            n == n_rows,
            i <= n,
            forall|k: int| 0 <= k < i ==> !(#[trigger] labels@[k]).nan(),
        decreases n - i,
    {
        if labels[i].is_nan() {
            assert(labels@[i as int].nan());
            return Err(LabelsError::Missing);
        }
        i += 1;
    }
    Ok(())
}

} // verus!
