//! What is said of files that cannot be used together: which file, which column, and why.
//!
//! A column is told by its name. Its number alone would send the reader to count commas.
use vstd::prelude::*;
use vstd::string::*;

use super::csv_open::{
    is_bind_failure, is_bound, is_misaligned, lemma_same_names, names_in, split_fields,
    bound_upto, BindError, Fields,
};
use super::csv_table::ColumnKind;
use super::predict_input::{absent, place_of};
use super::schema::{all_but, find_label, listed, told_label, Field, FileColumns, SchemaError};
use crate::report::{decimal, decimal_text};
use crate::text::{quoted, quoted_text};

verus! {

/// The words for a column that does not hold numbers.
pub open spec fn told_not_numeric(name: Seq<char>, kind: ColumnKind) -> Seq<char> {
    "列 "@ + quoted_text(name) + " 推断成了 "@ + kind.spec_label()@
        + ",只支持数值列。类别特征要先在上游编码成数值;如果它其实是数字,检查一下是不是有非法字符或者千分位逗号"@
}

/// The words for a column that does not hold numbers.
pub fn not_numeric_message(name: &str, kind: ColumnKind) -> (r: String)
    ensures
        r@ == told_not_numeric(name@, kind),
{
    "列 ".to_owned().concat(quoted(name).as_str()).concat(" 推断成了 ").concat(kind.label()).concat(
        ",只支持数值列。类别特征要先在上游编码成数值;如果它其实是数字,检查一下是不是有非法字符或者千分位逗号",
    )
}

/// The column of feature number `feature` in a file whose label is column `at`.
pub open spec fn feature_column(at: int, feature: int) -> int {
    if feature < at {
        feature
    } else {
        feature + 1
    }
}

/// The name of feature number `feature` of a file; none where there is no such feature.
pub open spec fn feature_name(names: Seq<String>, label: Seq<char>, feature: int) -> Option<
    Seq<char>,
> {
    let at = choose|at: int| place_of(names, label, at);
    if absent(names, label) || feature_column(at, feature) >= names.len() {
        None
    } else {
        Some(names[feature_column(at, feature)]@)
    }
}

/// The words for a file with another number of features than the first.
pub open spec fn told_feature_count(
    by_name: bool,
    first: Seq<char>,
    expected: usize,
    path: Seq<char>,
    got: usize,
) -> Seq<char> {
    (if by_name {
        "多文件 schema 不一致:"@
    } else {
        "多文件位置 schema 不一致:"@
    }) + first + " 有 "@ + decimal(expected as nat) + " 个特征列,"@ + path + " 有 "@ + decimal(
        got as nat,
    ) + " 个"@
}

/// The words for files that cannot be bound together; none where the error is not one of these
/// files.
pub open spec fn told_bind(
    e: BindError,
    files: Seq<Fields>,
    label: Seq<char>,
    by_name: bool,
    paths: Seq<String>,
) -> Option<Seq<char>> {
    match e {
        BindError::NoFile => Some("没有输入文件"@),
        BindError::File { file, error } => if file >= files.len() || paths.len() != files.len() {
            None
        } else {
            match error {
                SchemaError::NotNumeric { column } => if column < files[file as int]@.len() {
                    Some(
                        told_not_numeric(
                            files[file as int]@[column as int].0@,
                            files[file as int]@[column as int].1,
                        ),
                    )
                } else {
                    None
                },
                SchemaError::FeatureCount { got, expected, .. } => Some(
                    told_feature_count(
                        by_name,
                        paths[0]@,
                        expected,
                        paths[file as int]@,
                        got,
                    ),
                ),
                SchemaError::MissingFeature { feature, .. } => match feature_name(
                    names_in(files[0]@),
                    label,
                    feature as int,
                ) {
                    None => None,
                    Some(want) => Some(
                        "多文件 schema 不一致:"@ + paths[file as int]@ + " 里没有列 "@ + quoted_text(want),
                    ),
                },
                _ => told_label(error, label, names_in(files[file as int]@)),
            }
        },
    }
}

proof fn lemma_listed_by_text(a: Seq<String>, b: Seq<String>, k: int)
    requires
        k <= a.len(),
        a.len() == b.len(),
        forall|i: int| 0 <= i < a.len() ==> (#[trigger] a[i])@ == b[i]@,
    ensures
        listed(a, k) == listed(b, k),
    decreases k,
{
    if k > 0 {
        assert(a[k - 1]@ == b[k - 1]@);
        lemma_listed_by_text(a, b, k - 1);
    }
}

proof fn lemma_one_place(names: Seq<String>, want: Seq<char>, a: int, b: int)
    requires
        place_of(names, want, a),
        place_of(names, want, b),
    ensures
        a == b,
{
    if a < b {
        assert(names[a]@ != want);
    }
    if b < a {
        assert(names[b]@ != want);
    }
}

fn missing_feature_name(file: &Fields, label: &str, feature: usize) -> (r: Option<String>)
    ensures
        match r {
            Some(n) => feature_name(names_in(file@), label@, feature as int) == Some(n@),
            None => feature_name(names_in(file@), label@, feature as int) is None,
        },
{
    let (names, _fields): (Vec<String>, Vec<Field>) = split_fields(file);
    let ghost own = names_in(file@);
    proof {
        assert forall|i: int| 0 <= i < own.len() implies (#[trigger] own[i])@ == names@[i]@ by {}
        lemma_same_names(names@, own, label@);
    }
    match find_label(names.as_slice(), label) {
        None => None,
        Some(at) => {
            proof {
                assert(place_of(own, label@, at as int));
                lemma_one_place(own, label@, at as int, choose|p: int| place_of(own, label@, p));
                assert(own[at as int]@ == label@);
            }
            if feature < at {
                assert(own[feature as int]@ == names@[feature as int]@);
                Some(names[feature].clone())
            } else if feature < names.len() - 1 {
                assert(own[feature + 1]@ == names@[feature + 1]@);
                Some(names[feature + 1].clone())
            } else {
                None
            }
        },
    }
}

impl BindError {
    /// The error in words, over the columns of the files and the files' names.
    pub fn message(
        &self,
        files: &[Fields],
        label: &str,
        by_name: bool,
        paths: &[String],
    ) -> (r: Option<String>)
        ensures
            match r {
                Some(s) => told_bind(*self, files@, label@, by_name, paths@) == Some(s@),
                None => told_bind(*self, files@, label@, by_name, paths@) is None,
            },
    {
        let (file, error): (usize, SchemaError) = match self {
            BindError::NoFile => {
                return Some("没有输入文件".to_owned());
            },
            BindError::File { file, error } => (*file, *error),
        };
        if file >= files.len() || paths.len() != files.len() {
            return None;
        }
        match error {
            SchemaError::NotNumeric { column } => {
                let fields: &Fields = &files[file];
                if column < fields.len() {
                    let field: &(String, ColumnKind) = &fields[column];
                    Some(not_numeric_message(field.0.as_str(), field.1))
                } else {
                    None
                }
            },
            SchemaError::FeatureCount { got, expected, .. } => Some(
                feature_count_message(
                    by_name,
                    paths[0].as_str(),
                    expected,
                    paths[file].as_str(),
                    got,
                ),
            ),
            SchemaError::MissingFeature { feature, .. } => match missing_feature_name(
                &files[0],
                label,
                feature,
            ) {
                None => None,
                Some(want) => Some(
                    "多文件 schema 不一致:".to_owned().concat(paths[file].as_str()).concat(
                        " 里没有列 ",
                    ).concat(quoted(want.as_str()).as_str()),
                ),
            },
            _ => {
                let (names, _fields): (Vec<String>, Vec<Field>) = split_fields(&files[file]);
                proof {
                    let own = names_in(files@[file as int]@);
                    assert forall|i: int| 0 <= i < names@.len() implies (#[trigger] names@[i])@
                        == own[i]@ by {}
                    lemma_listed_by_text(names@, own, names@.len() as int);
                }
                error.label_message(label, names.as_slice())
            },
        }
    }
}

/// The words for a Parquet file whose features are not those of the first file; none for other
/// errors. `names` are the features of the first file.
pub open spec fn told_align(e: SchemaError, names: Seq<String>, paths: Seq<String>) -> Option<
    Seq<char>,
> {
    match e {
        SchemaError::NoFile => Some("没有输入文件"@),
        SchemaError::FeatureCount { file, got, expected } => if file < paths.len() {
            Some(told_feature_count(true, paths[0]@, expected, paths[file as int]@, got))
        } else {
            None
        },
        SchemaError::MissingFeature { file, feature } => if file < paths.len() && feature
            < names.len() {
            Some(
                "多文件 schema 不一致:"@ + paths[file as int]@ + " 里没有特征列 "@ + quoted_text(
                    names[feature as int]@,
                ),
            )
        } else {
            None
        },
        _ => None,
    }
}

fn feature_count_message(by_name: bool, first: &str, expected: usize, path: &str, got: usize) -> (r:
    String)
    ensures
        r@ == told_feature_count(by_name, first@, expected, path@, got),
{
    let head: String = if by_name {
        "多文件 schema 不一致:".to_owned()
    } else {
        "多文件位置 schema 不一致:".to_owned()
    };
    head.concat(first).concat(" 有 ").concat(decimal_text(expected as u64).as_str()).concat(
        " 个特征列,",
    ).concat(path).concat(" 有 ").concat(decimal_text(got as u64).as_str()).concat(" 个")
}

impl SchemaError {
    /// The words for a Parquet file whose features are not those of the first file, which are
    /// called `names`.
    pub fn align_message(&self, names: &[String], paths: &[String]) -> (r: Option<String>)
        ensures
            match r {
                Some(s) => told_align(*self, names@, paths@) == Some(s@),
                None => told_align(*self, names@, paths@) is None,
            },
    {
        match self {
            SchemaError::NoFile => Some("没有输入文件".to_owned()),
            SchemaError::FeatureCount { file, got, expected } => if *file < paths.len() {
                Some(
                    feature_count_message(
                        true,
                        paths[0].as_str(),
                        *expected,
                        paths[*file].as_str(),
                        *got,
                    ),
                )
            } else {
                None
            },
            SchemaError::MissingFeature { file, feature } => if *file < paths.len() && *feature
                < names.len() {
                Some(
                    "多文件 schema 不一致:".to_owned().concat(paths[*file].as_str()).concat(
                        " 里没有特征列 ",
                    ).concat(quoted(names[*feature].as_str()).as_str()),
                )
            } else {
                None
            },
            _ => None,
        }
    }
}

/// A file that is refused is refused in words. A column that does not hold numbers is told by its
/// name, and so is a feature of the first file that no column of the file but its label is called
/// like.
pub proof fn law_a_refusal_is_told(
    files: Seq<Fields>,
    label: Seq<char>,
    by_name: bool,
    file: usize,
    error: SchemaError,
    paths: Seq<String>,
)
    requires
        file < files.len(),
        paths.len() == files.len(),
        is_bind_failure(files, label, by_name, file as int, error),
    ensures
        told_bind(BindError::File { file, error }, files, label, by_name, paths) is Some,
        error matches SchemaError::NotNumeric { column } ==> column < files[file as int]@.len()
            && told_bind(BindError::File { file, error }, files, label, by_name, paths) == Some(
            told_not_numeric(
                files[file as int]@[column as int].0@,
                files[file as int]@[column as int].1,
            ),
        ),
        error matches SchemaError::MissingFeature { feature, .. } ==> {
            &&& feature_name(names_in(files[0]@), label, feature as int) matches Some(want)
            &&& forall|i: int|
                0 <= i < files[file as int]@.len() && !place_of(
                    names_in(files[file as int]@),
                    label,
                    i,
                ) ==> (#[trigger] names_in(files[file as int]@)[i])@ != want
        },
{
    let (cols, features) = choose|cols: Seq<FileColumns>, features: Seq<Vec<usize>>| #[trigger]
        bound_upto(files, label, by_name, cols, features, file as int)
            && super::csv_open::is_refusal(files[file as int]@, label, by_name, cols, error);
    if let SchemaError::MissingFeature { feature, .. } = error {
        let first = cols[0];
        let own = names_in(files[0]@);
        assert(own.len() == files[0].len());
        assert(is_bound(files[0]@, label, first));
        let at = first.label as int;
        lemma_one_place(own, label, at, choose|p: int| place_of(own, label, p));
        let c = choose|c: FileColumns| #[trigger]
            is_misaligned(files[file as int]@, label, by_name, first, c, error);
        lemma_all_but_is_feature_column(own.len() as int, at, feature as int);
        assert(own[at]@ == label);
        let column = feature_column(at, feature as int);
        assert(first.features@[feature as int] == column);
        let want = own[column]@;
        assert(first.names@[feature as int]@ == want);
        let there = names_in(files[file as int]@);
        assert(there.len() == files[file as int].len());
        assert forall|i: int| 0 <= i < there.len() && !place_of(there, label, i) implies (
        #[trigger] there[i])@ != want by {
            lemma_all_but_holds(there.len() as int, c.label as int, i);
            let j = choose|j: int| 0 <= j < c.features@.len() && #[trigger] c.features@[j] == i;
            assert(c.names@[j]@ == there[i]@);
        }
    }
}

proof fn lemma_all_but_is_feature_column(k: int, at: int, feature: int)
    requires
        0 <= at,
        0 <= feature < all_but(k, at).len(),
        k <= usize::MAX,
    ensures
        all_but(k, at)[feature] == feature_column(at, feature),
        feature_column(at, feature) < k,
        all_but(k, at).len() == if at < k {
            k - 1
        } else {
            k
        },
    decreases k,
{
    lemma_all_but_len(k - 1, at);
    lemma_all_but_len(k, at);
    if feature < all_but(k - 1, at).len() {
        lemma_all_but_is_feature_column(k - 1, at, feature);
    }
}

proof fn lemma_all_but_len(k: int, at: int)
    requires
        0 <= at,
    ensures
        all_but(k, at).len() == if k <= 0 {
            0
        } else if at < k {
            k - 1
        } else {
            k
        },
    decreases k,
{
    if k > 0 {
        lemma_all_but_len(k - 1, at);
    }
}

proof fn lemma_all_but_holds(k: int, at: int, i: int)
    requires
        0 <= i < k,
        i != at,
        k <= usize::MAX,
    ensures
        exists|j: int| 0 <= j < all_but(k, at).len() && #[trigger] all_but(k, at)[j] == i,
    decreases k,
{
    let all = all_but(k, at);
    if i == k - 1 {
        assert(all[all.len() - 1] == i);
    } else {
        lemma_all_but_holds(k - 1, at, i);
        let j = choose|j: int|
            0 <= j < all_but(k - 1, at).len() && #[trigger] all_but(k - 1, at)[j] == i;
        assert(all[j] == i);
    }
}

} // verus!
