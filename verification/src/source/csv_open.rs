//! Data sets from CSV texts: one or several files with the same features and a label column.
use arrow::error::ArrowError;
use vstd::prelude::*;
use vstd::string::*;

use super::arrow_source::{
    count_rows, holds_batches, sketched, ArrowSource, Batch, CutsFailure,
};
use super::csv_table::{
    copy_numbers, csv_fields, fields_of, inferred_columns, is_read_error, read_csv, reads,
    ColumnKind, CsvError, INFER_ROWS,
};
use super::opening::{feed, lemma_count_prefix, BuildError, DatasetBuilder, Pass};
use super::predict_input::{absent, place_of};
use super::schema::{
    align_one, all_but, check_labels, check_numeric, columns, is_aligned, named, Field,
    FileColumns, LabelsError, SchemaError,
};
use super::table::SourceError;
use super::{pipeline_threads, DEFAULT_INGEST_THREADS};
use crate::columns::BinCuts;
use crate::float32::F32;
use crate::sketch::summary::RankMath;
use crate::sketch::SketchSet;

verus! {

/// The columns of a file: their names and what they hold.
pub type Fields = Vec<(String, ColumnKind)>;

/// The names of columns.
pub open spec fn names_in(f: Seq<(String, ColumnKind)>) -> Seq<String> {
    f.map_values(|c: (String, ColumnKind)| c.0)
}

/// What columns hold.
pub open spec fn kinds_in(f: Seq<(String, ColumnKind)>) -> Seq<ColumnKind> {
    f.map_values(|c: (String, ColumnKind)| c.1)
}

/// A column that is neither called like the label nor holds numbers.
pub open spec fn is_odd_column(f: Seq<(String, ColumnKind)>, label: Seq<char>, i: int) -> bool {
    f[i].0@ != label && !f[i].1.numeric()
}

/// Every column but those called like the label holds numbers.
pub open spec fn all_usable(f: Seq<(String, ColumnKind)>, label: Seq<char>) -> bool {
    forall|i: int| 0 <= i < f.len() ==> !#[trigger] is_odd_column(f, label, i)
}

/// The columns of a file that can be used: one is the label, all others are features with numbers.
pub open spec fn is_bound(
    f: Seq<(String, ColumnKind)>,
    label: Seq<char>,
    c: FileColumns,
) -> bool {
    &&& all_usable(f, label)
    &&& place_of(names_in(f), label, c.label as int)
    &&& c.features@ == all_but(f.len() as int, c.label as int)
    &&& c.features@.len() > 0
    &&& named(names_in(f), c.features@, c.names@)
}

/// The first `k` files are bound, with their features in the order of the first file.
pub open spec fn bound_upto(
    files: Seq<Fields>,
    label: Seq<char>,
    by_name: bool,
    cols: Seq<FileColumns>,
    features: Seq<Vec<usize>>,
    k: int,
) -> bool {
    &&& cols.len() == k
    &&& features.len() == k
    &&& forall|i: int| 0 <= i < k ==> is_bound(files[i]@, label, #[trigger] cols[i])
    &&& k > 0 ==> features[0]@ == cols[0].features@
    &&& forall|i: int|
        1 <= i < k ==> is_aligned((#[trigger] features[i])@, cols[i], cols[0], by_name)
}

/// A file that has columns of its own but not the features of the first.
pub open spec fn is_misaligned(
    f: Seq<(String, ColumnKind)>,
    label: Seq<char>,
    by_name: bool,
    first: FileColumns,
    c: FileColumns,
    e: SchemaError,
) -> bool {
    &&& is_bound(f, label, c)
    &&& match e {
        SchemaError::FeatureCount { got, expected, .. } => got == c.names@.len() && expected
            == first.names@.len() && got != expected,
        SchemaError::MissingFeature { feature, .. } => {
            &&& by_name
            &&& c.names@.len() == first.names@.len()
            &&& feature < first.names@.len()
            &&& absent(c.names@, first.names@[feature as int]@)
            &&& forall|i: int|
                0 <= i < feature ==> !absent(c.names@, (#[trigger] first.names@[i])@)
        },
        _ => false,
    }
}

/// Why a file is refused, given the columns of the files before it.
pub open spec fn is_refusal(
    f: Seq<(String, ColumnKind)>,
    label: Seq<char>,
    by_name: bool,
    before: Seq<FileColumns>,
    e: SchemaError,
) -> bool {
    match e {
        SchemaError::NotNumeric { column } => {
            &&& column < f.len()
            &&& is_odd_column(f, label, column as int)
            &&& forall|i: int| 0 <= i < column ==> !#[trigger] is_odd_column(f, label, i)
        },
        SchemaError::NoLabel => all_usable(f, label) && absent(names_in(f), label),
        SchemaError::OnlyLabel => all_usable(f, label) && exists|at: int| #[trigger]
            place_of(names_in(f), label, at) && all_but(f.len() as int, at).len() == 0,
        SchemaError::FeatureCount { file, .. } | SchemaError::MissingFeature { file, .. } => {
            &&& before.len() > 0
            &&& file == before.len()
            &&& exists|c: FileColumns| #[trigger]
                is_misaligned(f, label, by_name, before[0], c, e)
        },
        _ => false,
    }
}

/// What is read of each file.
pub struct CsvPlan {
    pub columns: Vec<FileColumns>,
    /// The feature columns of each file, in the order of the first file.
    pub features: Vec<Vec<usize>>,
}

/// Files that cannot be used together.
#[derive(Clone, Copy, Debug, PartialEq, Eq, Structural)]
pub enum BindError {
    NoFile,
    /// The first file that is refused.
    File { file: usize, error: SchemaError },
}

pub(crate) fn split_fields(f: &Fields) -> (r: (Vec<String>, Vec<Field>))
    ensures
        r.0@.len() == f@.len(),
        r.1@.len() == f@.len(),
        forall|i: int| 0 <= i < f@.len() ==> (#[trigger] r.0@[i])@ == f@[i].0@,
        forall|i: int|
            0 <= i < f@.len() ==> (#[trigger] r.1@[i]).name@ == f@[i].0@ && r.1@[i].numeric
                == f@[i].1.numeric(),
{
    let mut names: Vec<String> = Vec::new();
    let mut fields: Vec<Field> = Vec::new();
    let mut i: usize = 0;
    while i < f.len()
        invariant
            i <= f@.len(),
            names@.len() == i,
            fields@.len() == i,
            forall|k: int| 0 <= k < i ==> (#[trigger] names@[k])@ == f@[k].0@,
            forall|k: int|
                0 <= k < i ==> (#[trigger] fields@[k]).name@ == f@[k].0@ && fields@[k].numeric
                    == f@[k].1.numeric(),
        decreases f.len() - i,
    {
        let field: &(String, ColumnKind) = &f[i];
        let name: String = field.0.clone();
        let again: String = field.0.clone();
        let numeric: bool = field.1.is_numeric();
        assert(name@ == f@[i as int].0@);
        names.push(name);
        fields.push(Field { name: again, numeric });
        i += 1;
    }
    (names, fields)
}

pub(crate) proof fn lemma_same_names(a: Seq<String>, b: Seq<String>, want: Seq<char>)
    requires
        a.len() == b.len(),
        forall|i: int| 0 <= i < a.len() ==> (#[trigger] a[i])@ == b[i]@,
    ensures
        absent(a, want) ==> absent(b, want),
        forall|at: int| #[trigger] place_of(a, want, at) ==> place_of(b, want, at),
{
    if absent(a, want) {
        assert forall|i: int| 0 <= i < b.len() implies (#[trigger] b[i])@ != want by {
            assert(a[i]@ == b[i]@);
        }
    }
    assert forall|at: int| #[trigger] place_of(a, want, at) implies place_of(b, want, at) by {
        assert(a[at]@ == b[at]@);
        assert forall|i: int| 0 <= i < at implies (#[trigger] b[i])@ != want by {
            assert(a[i]@ == b[i]@);
        }
    }
}

/// The columns of one file.
fn bind_file(f: &Fields, label: &str) -> (r: Result<FileColumns, SchemaError>)
    ensures
        match r {
            Ok(c) => is_bound(f@, label@, c) && c.names@.len() == c.features@.len(),
            Err(e) => forall|by_name: bool, before: Seq<FileColumns>| #[trigger]
                is_refusal(f@, label@, by_name, before, e),
        },
{
    let (names, fields): (Vec<String>, Vec<Field>) = split_fields(f);
    let ghost own = names_in(f@);
    proof {
        assert(own.len() == names@.len());
        assert(forall|i: int| 0 <= i < own.len() ==> (#[trigger] own[i])@ == names@[i]@);
        lemma_same_names(names@, own, label@);
    }
    match check_numeric(fields.as_slice(), label) {
        Err(e) => {
            proof {
                let column = e->NotNumeric_column as int;
                assert(fields@[column].name@ == f@[column].0@) by {
                    assert(names@[column]@ == f@[column].0@);
                }
                assert(is_odd_column(f@, label@, column));
                assert forall|i: int| 0 <= i < column implies !#[trigger] is_odd_column(
                    f@,
                    label@,
                    i,
                ) by {
                    assert(names@[i]@ == f@[i].0@);
                    assert(fields@[i].name@ == label@ || fields@[i].numeric);
                }
            }
            return Err(e);
        },
        Ok(()) => {},
    }
    proof {
        assert forall|i: int| 0 <= i < f@.len() implies !#[trigger] is_odd_column(
            f@,
            label@,
            i,
        ) by {
            assert(names@[i]@ == f@[i].0@);
            assert(fields@[i].name@ == label@ || fields@[i].numeric);
        }
    }
    match columns(names.as_slice(), label) {
        Err(e) => Err(e),
        Ok(c) => {
            proof {
                assert forall|i: int| 0 <= i < c.features@.len() implies (
                #[trigger] c.features@[i]) < own.len() && c.names@[i]@ == own[c.features@[i] as int]@ by {
                    assert(names@[c.features@[i] as int]@ == own[c.features@[i] as int]@);
                }
            }
            Ok(c)
        },
    }
}

/// The files before `file` can be bound, and that one is refused.
pub open spec fn is_bind_failure(
    files: Seq<Fields>,
    label: Seq<char>,
    by_name: bool,
    file: int,
    e: SchemaError,
) -> bool {
    exists|cols: Seq<FileColumns>, features: Seq<Vec<usize>>| #[trigger]
        bound_upto(files, label, by_name, cols, features, file) && is_refusal(
            files[file]@,
            label,
            by_name,
            cols,
            e,
        )
}

/// Binds the columns of files: by name where they have headers, so that their order may differ;
/// else as they stand. The files are gone through in order, and the first that does not fit is
/// told.
pub fn bind_csv(files: &[Fields], label: &str, has_header: bool) -> (r: Result<CsvPlan, BindError>)
    ensures
        match r {
            Ok(p) => {
                &&& files@.len() > 0
                &&& bound_upto(
                    files@,
                    label@,
                    has_header,
                    p.columns@,
                    p.features@,
                    files@.len() as int,
                )
            },
            Err(BindError::NoFile) => files@.len() == 0,
            Err(BindError::File { file, error }) => {
                &&& file < files@.len()
                &&& is_bind_failure(files@, label@, has_header, file as int, error)
            },
        },
{
    if files.len() == 0 {
        return Err(BindError::NoFile);
    }
    let mut cols: Vec<FileColumns> = Vec::new();
    let mut features: Vec<Vec<usize>> = Vec::new();
    let mut k: usize = 0;
    while k < files.len()
        invariant
            k <= files@.len(),
            bound_upto(files@, label@, has_header, cols@, features@, k as int),
            forall|i: int|
                0 <= i < cols@.len() ==> (#[trigger] cols@[i]).names@.len()
                    == cols@[i].features@.len(),
        decreases files.len() - k,
    {
        let ghost old_cols = cols@;
        let ghost old_features = features@;
        let c: FileColumns = match bind_file(&files[k], label) {
            Err(e) => {
                assert(is_refusal(files@[k as int]@, label@, has_header, cols@, e));
                assert(is_bind_failure(files@, label@, has_header, k as int, e));
                return Err(BindError::File { file: k, error: e });
            },
            Ok(c) => c,
        };
        if k == 0 {
            let own: Vec<usize> = copy_numbers(c.features.as_slice());
            features.push(own);
        } else {
            match align_one(&c, &cols[0], has_header, k) {
                Err(e) => {
                    assert(is_misaligned(files@[k as int]@, label@, has_header, cols@[0], c, e));
                    assert(is_refusal(files@[k as int]@, label@, has_header, cols@, e));
                    assert(is_bind_failure(files@, label@, has_header, k as int, e));
                    return Err(BindError::File { file: k, error: e });
                },
                Ok(v) => {
                    features.push(v);
                },
            }
        }
        cols.push(c);
        proof {
            assert forall|i: int| 0 <= i < k + 1 implies is_bound(
                files@[i]@,
                label@,
                #[trigger] cols@[i],
            ) by {
                if i < k {
                    assert(cols@[i] == old_cols[i]);
                }
            }
            assert forall|i: int| 1 <= i < k + 1 implies is_aligned(
                (#[trigger] features@[i])@,
                cols@[i],
                cols@[0],
                has_header,
            ) by {
                if i < k {
                    assert(features@[i] == old_features[i]);
                    assert(cols@[i] == old_cols[i]);
                }
                assert(cols@[0] == old_cols[0]);
            }
        }
        k += 1;
    }
    Ok(CsvPlan { columns: cols, features })
}

// ---- reading ----

/// With how many threads texts are read.
#[derive(Clone, Copy, Debug, PartialEq, Eq, Structural)]
pub struct Readers {
    pub features: usize,
    pub labels: usize,
}

/// A text is read in chunks where it is the only one and there is more than one thread for it.
/// Several texts are read one by one, each as one.
pub open spec fn in_chunks(texts: int, readers: int) -> bool {
    texts == 1 && readers > 1
}

impl Readers {
    /// Of `nthread` threads some turn features into bins while the others read; the labels are
    /// read with all of them. `effective` is the number that zero stands for where threads are
    /// divided.
    pub fn new(nthread: usize, effective: usize) -> (r: Self)
        ensures
            r == readers_of(nthread, effective),
    {
        Readers { features: pipeline_threads(nthread, effective).0, labels: nthread }
    }
}

/// The readers among so many threads.
pub open spec fn readers_of(nthread: usize, effective: usize) -> Readers {
    let n = if nthread == 0 {
        effective
    } else {
        nthread
    };
    Readers {
        features: if n <= 1 {
            1
        } else {
            (n - n / 2) as usize
        },
        labels: nthread,
    }
}

/// The columns `cols[i]` of each text.
pub open spec fn is_reading(
    texts: Seq<Vec<u8>>,
    has_header: bool,
    chunked: bool,
    kinds: Seq<Vec<ColumnKind>>,
    cols: Seq<Vec<usize>>,
    parts: Seq<Seq<Batch>>,
    k: int,
) -> bool {
    &&& parts.len() == k
    &&& forall|i: int|
        0 <= i < k ==> reads(
            texts[i]@,
            has_header,
            chunked,
            kinds[i]@,
            cols[i]@,
            #[trigger] parts[i],
        )
}

/// The batches of the first `k` parts, one after the other.
pub open spec fn joined(parts: Seq<Seq<Batch>>, k: int) -> Seq<Batch>
    decreases k,
{
    if k <= 0 {
        seq![]
    } else {
        joined(parts, k - 1) + parts[k - 1]
    }
}

proof fn lemma_joined_prefix(a: Seq<Seq<Batch>>, b: Seq<Seq<Batch>>, k: int)
    requires
        0 <= k <= a.len(),
        k <= b.len(),
        forall|i: int| 0 <= i < k ==> a[i] == b[i],
    ensures
        joined(a, k) == joined(b, k),
    decreases k,
{
    if k > 0 {
        lemma_joined_prefix(a, b, k - 1);
    }
}

/// The batches are those of all texts, in order.
pub open spec fn reads_texts(
    texts: Seq<Vec<u8>>,
    has_header: bool,
    chunked: bool,
    kinds: Seq<Vec<ColumnKind>>,
    cols: Seq<Vec<usize>>,
    batches: Seq<Batch>,
) -> bool {
    exists|parts: Seq<Seq<Batch>>| #[trigger]
        is_reading(
            texts,
            has_header,
            chunked,
            kinds,
            cols,
            parts,
            texts.len() as int,
        ) && batches == joined(parts, texts.len() as int)
}

/// The texts before `file` can be read, and that one cannot.
pub open spec fn is_text_error(
    texts: Seq<Vec<u8>>,
    has_header: bool,
    chunked: bool,
    kinds: Seq<Vec<ColumnKind>>,
    cols: Seq<Vec<usize>>,
    file: int,
    e: CsvError,
) -> bool {
    &&& 0 <= file < texts.len()
    &&& exists|parts: Seq<Seq<Batch>>| #[trigger]
        is_reading(texts, has_header, chunked, kinds, cols, parts, file)
    &&& is_read_error(texts[file]@, has_header, chunked, kinds[file]@, cols[file]@, e)
}

/// A text that cannot be read.
pub struct TextError {
    pub file: usize,
    pub error: CsvError,
}

/// Batches with a column for each of `width` columns.
pub open spec fn well_shaped(batches: Seq<Batch>, width: int) -> bool {
    forall|i: int|
        0 <= i < batches.len() ==> (#[trigger] batches[i]).wf() && batches[i].columns@.len()
            == width
}

/// Reads the columns `cols[i]` of each text, one text after the other.
pub fn read_texts(
    texts: &[Vec<u8>],
    has_header: bool,
    chunked: bool,
    kinds: &[Vec<ColumnKind>],
    cols: &[Vec<usize>],
    width: usize,
) -> (r: Result<Vec<Batch>, TextError>)
    requires
        kinds@.len() == texts@.len(),
        cols@.len() == texts@.len(),
        width > 0,
        forall|i: int| 0 <= i < cols@.len() ==> (#[trigger] cols@[i])@.len() == width,
    ensures
        match r {
            Ok(batches) => reads_texts(
                texts@,
                has_header,
                chunked,
                kinds@,
                cols@,
                batches@,
            ) && well_shaped(batches@, width as int),
            Err(e) => is_text_error(
                texts@,
                has_header,
                chunked,
                kinds@,
                cols@,
                e.file as int,
                e.error,
            ),
        },
{
    let mut batches: Vec<Batch> = Vec::new();
    let ghost mut parts: Seq<Seq<Batch>> = seq![];
    let mut k: usize = 0;
    while k < texts.len()
        invariant
            k <= texts@.len(),
            kinds@.len() == texts@.len(),
            cols@.len() == texts@.len(),
            width > 0,
            forall|i: int| 0 <= i < cols@.len() ==> (#[trigger] cols@[i])@.len() == width,
            is_reading(texts@, has_header, chunked, kinds@, cols@, parts, k as int),
            batches@ == joined(parts, k as int),
            well_shaped(batches@, width as int),
        decreases texts.len() - k,
    {
        let ghost before = batches@;
        let ghost had = parts;
        match read_csv(
            texts[k].as_slice(),
            has_header,
            chunked,
            kinds[k].as_slice(),
            cols[k].as_slice(),
        ) {
            Err(e) => {
                return Err(TextError { file: k, error: e });
            },
            Ok(more) => {
                let mut more: Vec<Batch> = more;
                let ghost added = more@;
                batches.append(&mut more);
                proof {
                    parts = had.push(added);
                    lemma_joined_prefix(had, parts, k as int);
                    assert(batches@ =~= joined(parts, k + 1));
                    assert forall|i: int| 0 <= i < k + 1 implies reads(
                        texts@[i]@,
                        has_header,
                        chunked,
                        kinds@[i]@,
                        cols@[i]@,
                        #[trigger] parts[i],
                    ) by {
                        if i < k {
                            assert(parts[i] == had[i]);
                        }
                    }
                    assert forall|i: int| 0 <= i < batches@.len() implies (
                    #[trigger] batches@[i]).wf() && batches@[i].columns@.len() == width by {
                        if i < before.len() {
                            assert(batches@[i] == before[i]);
                        } else {
                            assert(batches@[i] == added[i - before.len()]);
                        }
                    }
                }
            },
        }
        k += 1;
    }
    Ok(batches)
}

/// The values of the first column of the first `k` batches.
pub open spec fn first_column(batches: Seq<Batch>, k: int) -> Seq<F32>
    decreases k,
{
    if k <= 0 {
        seq![]
    } else {
        first_column(batches, k - 1) + batches[k - 1].columns@[0]@
    }
}

/// The labels: the values of batches of one column.
pub fn label_values(batches: &[Batch]) -> (r: Vec<F32>)
    requires
        well_shaped(batches@, 1),
    ensures
        r@ == first_column(batches@, batches@.len() as int),
{
    let mut r: Vec<F32> = Vec::new();
    let mut k: usize = 0;
    while k < batches.len()
        invariant
            k <= batches@.len(),
            well_shaped(batches@, 1),
            r@ == first_column(batches@, k as int),
        decreases batches.len() - k,
    {
        assert(batches@[k as int].columns@.len() == 1);
        let column: &Vec<F32> = &batches[k].columns[0];
        let ghost before = r@;
        let mut i: usize = 0;
        assert(before + column@.take(0) =~= before);
        while i < column.len()
            invariant
                i <= column@.len(),
                r@ == before + column@.take(i as int),
            decreases column.len() - i,
        {
            r.push(column[i]);
            assert(column@.take(i + 1) =~= column@.take(i as int).push(column@[i as int]));
            assert(r@ =~= before + column@.take(i + 1));
            i += 1;
        }
        assert(column@.take(i as int) =~= column@);
        k += 1;
    }
    r
}

/// Features and labels of a data set.
pub struct Dataset {
    pub source: ArrowSource,
    pub labels: Vec<F32>,
    /// Names of the features; none where columns are bound by position.
    pub feature_names: Vec<String>,
}

impl Dataset {
    /// Puts features and labels together: there is a label for each row, and none is missing.
    pub fn assemble(source: ArrowSource, labels: Vec<F32>, feature_names: Vec<String>) -> (r: Result<
        Dataset,
        LabelsError,
    >)
        ensures
            match r {
                Ok(d) => {
                    &&& d.source == source && d.labels == labels && d.feature_names
                        == feature_names
                    &&& labels@.len() == source.table.n_rows
                    &&& forall|i: int| 0 <= i < labels@.len() ==> !(#[trigger] labels@[i]).nan()
                },
                Err(e) => is_label_error(labels@, source.table.n_rows, e),
            },
    {
        match check_labels(labels.as_slice(), source.n_rows()) {
            Err(e) => Err(e),
            Ok(()) => Ok(Dataset { source, labels, feature_names }),
        }
    }
}

/// Why labels are refused.
pub open spec fn is_label_error(labels: Seq<F32>, n_rows: usize, e: LabelsError) -> bool {
    if labels.len() != n_rows {
        e == LabelsError::Count { labels: labels.len() as usize, rows: n_rows }
    } else {
        e == LabelsError::Missing && exists|i: int|
            0 <= i < labels.len() && (#[trigger] labels[i]).nan()
    }
}

// ---- opening ----

/// The columns of the first `k` texts.
pub open spec fn all_inferred(
    texts: Seq<Vec<u8>>,
    has_header: bool,
    fields: Seq<Fields>,
    k: int,
) -> bool {
    &&& fields.len() == k
    &&& forall|i: int|
        0 <= i < k ==> inferred_columns(texts[i]@, has_header, INFER_ROWS as int) == Some(
            fields_of((#[trigger] fields[i])@),
        )
}

/// What is known of texts once their columns are bound.
pub struct CsvSchema {
    pub fields: Vec<Fields>,
    pub plan: CsvPlan,
    /// What the columns of each text hold.
    pub kinds: Vec<Vec<ColumnKind>>,
    /// The label column of each text.
    pub labels: Vec<Vec<usize>>,
}

impl CsvSchema {
    /// The schema is that of these texts.
    pub open spec fn is_of(&self, texts: Seq<Vec<u8>>, label: Seq<char>, has_header: bool) -> bool {
        let n = texts.len() as int;
        &&& n > 0
        &&& all_inferred(texts, has_header, self.fields@, n)
        &&& bound_upto(
            self.fields@,
            label,
            has_header,
            self.plan.columns@,
            self.plan.features@,
            n,
        )
        &&& self.kinds@.len() == n
        &&& forall|i: int|
            0 <= i < n ==> (#[trigger] self.kinds@[i])@ == kinds_in(self.fields@[i]@)
        &&& self.labels@.len() == n
        &&& forall|i: int|
            0 <= i < n ==> (#[trigger] self.labels@[i])@ == seq![self.plan.columns@[i].label]
    }

    /// There is an entry for each of `n` texts, all with the same number of features and with one
    /// label column.
    pub open spec fn wf(&self, n: int) -> bool {
        &&& n > 0
        &&& self.kinds@.len() == n
        &&& self.plan.columns@.len() == n
        &&& self.plan.features@.len() == n
        &&& self.labels@.len() == n
        &&& self.plan.features@[0]@.len() > 0
        &&& forall|i: int|
            0 <= i < n ==> (#[trigger] self.plan.features@[i])@.len()
                == self.plan.features@[0]@.len()
        &&& forall|i: int| 0 <= i < n ==> (#[trigger] self.labels@[i])@.len() == 1
    }

    /// How many features there are.
    pub fn n_features(&self) -> (n: usize)
        requires
            self.plan.features@.len() > 0,
        ensures
            n == self.plan.features@[0]@.len(),
    {
        self.plan.features[0].len()
    }
}

/// Why texts have no common schema.
pub enum CsvSchemaError {
    /// The columns of this text cannot be told.
    Infer { file: usize, error: ArrowError },
    /// The columns of these texts, one entry for each, cannot be bound together.
    Bind { why: BindError, fields: Vec<Fields> },
}

/// The fields of the texts cannot be bound together.
pub open spec fn cannot_bind(
    texts: Seq<Vec<u8>>,
    label: Seq<char>,
    has_header: bool,
    fields: Seq<Fields>,
    e: BindError,
) -> bool {
    &&& all_inferred(texts, has_header, fields, texts.len() as int)
    &&& match e {
        BindError::NoFile => texts.len() == 0,
        BindError::File { file, error } => file < texts.len() && is_bind_failure(
            fields,
            label,
            has_header,
            file as int,
            error,
        ),
    }
}

/// The texts before `file` have columns that can be told, and that one has not.
pub open spec fn cannot_infer(texts: Seq<Vec<u8>>, has_header: bool, file: int) -> bool {
    &&& 0 <= file < texts.len()
    &&& inferred_columns(texts[file]@, has_header, INFER_ROWS as int) is None
    &&& exists|fields: Seq<Fields>| #[trigger] all_inferred(texts, has_header, fields, file)
}

fn kinds_of(f: &Fields) -> (r: Vec<ColumnKind>)
    ensures
        r@ == kinds_in(f@),
{
    let mut r: Vec<ColumnKind> = Vec::new();
    let mut i: usize = 0;
    while i < f.len()
        invariant
            i <= f@.len(),
            r@.len() == i,
            forall|k: int| 0 <= k < i ==> #[trigger] r@[k] == f@[k].1,
        decreases f.len() - i,
    {
        r.push(f[i].1);
        i += 1;
    }
    assert(r@ =~= kinds_in(f@));
    r
}

/// Tells the columns of each text and binds them.
pub fn csv_schema(texts: &[Vec<u8>], label: &str, has_header: bool) -> (r: Result<
    CsvSchema,
    CsvSchemaError,
>)
    ensures
        match r {
            Ok(s) => s.is_of(texts@, label@, has_header) && s.wf(texts@.len() as int),
            Err(CsvSchemaError::Infer { file, .. }) => cannot_infer(
                texts@,
                has_header,
                file as int,
            ),
            Err(CsvSchemaError::Bind { why, fields }) => cannot_bind(
                texts@,
                label@,
                has_header,
                fields@,
                why,
            ),
        },
{
    let mut fields: Vec<Fields> = Vec::new();
    let mut k: usize = 0;
    while k < texts.len()
        invariant
            k <= texts@.len(),
            all_inferred(texts@, has_header, fields@, k as int),
        decreases texts.len() - k,
    {
        let ghost before = fields@;
        match csv_fields(texts[k].as_slice(), has_header) {
            Err(e) => {
                assert(cannot_infer(texts@, has_header, k as int));
                return Err(CsvSchemaError::Infer { file: k, error: e });
            },
            Ok(f) => {
                fields.push(f);
            },
        }
        proof {
            assert forall|i: int| 0 <= i < k + 1 implies inferred_columns(
                texts@[i]@,
                has_header,
                INFER_ROWS as int,
            ) == Some(fields_of((#[trigger] fields@[i])@)) by {
                if i < k {
                    assert(fields@[i] == before[i]);
                }
            }
        }
        k += 1;
    }
    let plan: CsvPlan = match bind_csv(fields.as_slice(), label, has_header) {
        Err(e) => {
            return Err(CsvSchemaError::Bind { why: e, fields });
        },
        Ok(p) => p,
    };
    let mut kinds: Vec<Vec<ColumnKind>> = Vec::new();
    let mut labels: Vec<Vec<usize>> = Vec::new();
    let mut i: usize = 0;
    let n: usize = texts.len();
    while i < n
        invariant
            i <= n,
            n == fields@.len(),
            n == plan.columns@.len(),
            kinds@.len() == i,
            labels@.len() == i,
            forall|j: int| 0 <= j < i ==> (#[trigger] kinds@[j])@ == kinds_in(fields@[j]@),
            forall|j: int|
                0 <= j < i ==> (#[trigger] labels@[j])@ == seq![plan.columns@[j].label],
        decreases n - i,
    {
        kinds.push(kinds_of(&fields[i]));
        let mut one: Vec<usize> = Vec::new();
        one.push(plan.columns[i].label);
        assert(one@ =~= seq![plan.columns@[i as int].label]);
        labels.push(one);
        i += 1;
    }
    proof {
        assert(plan.columns@[0].features@.len() > 0);
        assert forall|i: int| 0 <= i < n implies (#[trigger] plan.features@[i])@.len()
            == plan.features@[0]@.len() by {
            if i > 0 {
                assert(is_aligned(
                    plan.features@[i]@,
                    plan.columns@[i],
                    plan.columns@[0],
                    has_header,
                ));
            }
        }
        assert forall|i: int| 0 <= i < n implies (#[trigger] labels@[i])@.len() == 1 by {
            assert(labels@[i]@ == seq![plan.columns@[i].label]);
        }
    }
    Ok(CsvSchema { fields, plan, kinds, labels })
}

/// Why texts with a schema give no data set.
pub enum OpenError {
    TooManyColumns { columns: usize },
    /// The features of a text cannot be read.
    Features(TextError),
    TooManyRows,
    Cuts(CutsFailure),
    Source(SourceError),
    /// The labels of a text cannot be read.
    LabelText(TextError),
    Labels(LabelsError),
}

/// A table of batches with given boundaries, or with those of a sketch of the batches.
pub open spec fn is_table_of<
    P: Fn(F32, F32) -> F32 + Sync,
    B: Fn(F32, F32, F32, usize, usize) -> bool + Sync,
    M: Fn(F32, F32) -> F32 + Sync,
>(
    math: RankMath<P, B, M>,
    batches: Seq<Batch>,
    cuts: Option<BinCuts>,
    max_bins: u32,
    cols_per_block: usize,
    source: ArrowSource,
) -> bool {
    let t = source.table;
    &&& t.wf()
    &&& t.cols_per_block == cols_per_block
    &&& holds_batches(t, batches)
    &&& match cuts {
        Some(c) => t.cuts == c,
        None => has_sketched_cuts(math, batches, max_bins, t.cuts),
    }
}

/// The boundaries are those of a sketch of the batches.
pub open spec fn has_sketched_cuts<
    P: Fn(F32, F32) -> F32 + Sync,
    B: Fn(F32, F32, F32, usize, usize) -> bool + Sync,
    M: Fn(F32, F32) -> F32 + Sync,
>(math: RankMath<P, B, M>, batches: Seq<Batch>, max_bins: u32, cuts: BinCuts) -> bool {
    exists|set: SketchSet, per_feat: Seq<Vec<F32>>|
        sketched(math, batches, max_bins as usize, set) && #[trigger] crate::sketch::are_cuts(
            math,
            set,
            per_feat,
        ) && cuts.spec_n_feats() == per_feat.len() && forall|f: int|
            0 <= f < per_feat.len() ==> #[trigger] cuts.spec_cuts(f) == per_feat[f]@
}

/// Why batches give no boundaries.
pub open spec fn is_cuts_failure<
    P: Fn(F32, F32) -> F32 + Sync,
    B: Fn(F32, F32, F32, usize, usize) -> bool + Sync,
    M: Fn(F32, F32) -> F32 + Sync,
>(math: RankMath<P, B, M>, batches: Seq<Batch>, max_bins: u32, e: CutsFailure) -> bool {
    match e {
        CutsFailure::NoBatch => batches.len() == 0,
        CutsFailure::ColumnCount { .. } => false,
        CutsFailure::Invalid => batches.len() > 0 && exists|set: SketchSet, per_feat: Seq<Vec<F32>>|
            sketched(math, batches, max_bins as usize, set) && #[trigger] crate::sketch::are_cuts(
                math,
                set,
                per_feat,
            ) && !crate::columns::joinable(per_feat),
    }
}

/// The batches are the features of the texts.
pub open spec fn are_features(
    texts: Seq<Vec<u8>>,
    schema: CsvSchema,
    has_header: bool,
    readers: Readers,
    batches: Seq<Batch>,
) -> bool {
    &&& reads_texts(
        texts,
        has_header,
        in_chunks(texts.len() as int, readers.features as int),
        schema.kinds@,
        schema.plan.features@,
        batches,
    )
    &&& well_shaped(batches, schema.plan.features@[0]@.len() as int)
}

/// The batches are the labels of the texts.
pub open spec fn are_labels(
    texts: Seq<Vec<u8>>,
    schema: CsvSchema,
    has_header: bool,
    readers: Readers,
    batches: Seq<Batch>,
) -> bool {
    reads_texts(
        texts,
        has_header,
        in_chunks(texts.len() as int, readers.labels as int),
        schema.kinds@,
        schema.labels@,
        batches,
    ) && well_shaped(batches, 1)
}

/// The data set of features and labels of texts.
pub open spec fn is_dataset_of<
    P: Fn(F32, F32) -> F32 + Sync,
    B: Fn(F32, F32, F32, usize, usize) -> bool + Sync,
    M: Fn(F32, F32) -> F32 + Sync,
>(
    math: RankMath<P, B, M>,
    texts: Seq<Vec<u8>>,
    schema: CsvSchema,
    has_header: bool,
    readers: Readers,
    cuts: Option<BinCuts>,
    max_bins: u32,
    cols_per_block: usize,
    features: Seq<Batch>,
    labels: Seq<Batch>,
    d: Dataset,
) -> bool {
    &&& are_features(texts, schema, has_header, readers, features)
    &&& are_labels(texts, schema, has_header, readers, labels)
    &&& is_table_of(math, features, cuts, max_bins, cols_per_block, d.source)
    &&& d.labels@ == first_column(labels, labels.len() as int)
    &&& d.labels@.len() == d.source.table.n_rows
    &&& forall|i: int| 0 <= i < d.labels@.len() ==> !(#[trigger] d.labels@[i]).nan()
    &&& if has_header {
        same_names(d.feature_names@, schema.plan.columns@[0].names@)
    } else {
        d.feature_names@.len() == 0
    }
}

/// The same names in the same places.
pub open spec fn same_names(a: Seq<String>, b: Seq<String>) -> bool {
    a.len() == b.len() && forall|i: int| 0 <= i < a.len() ==> (#[trigger] a[i])@ == b[i]@
}

fn copy_names(s: &Vec<String>) -> (r: Vec<String>)
    ensures
        same_names(r@, s@),
{
    let mut r: Vec<String> = Vec::new();
    let mut i: usize = 0;
    while i < s.len()
        invariant
            i <= s@.len(),
            r@.len() == i,
            forall|k: int| 0 <= k < i ==> (#[trigger] r@[k])@ == s@[k]@,
        decreases s.len() - i,
    {
        let n: String = s[i].clone();
        r.push(n);
        i += 1;
    }
    r
}

/// Why texts with a schema give no data set.
pub open spec fn is_open_error<
    P: Fn(F32, F32) -> F32 + Sync,
    B: Fn(F32, F32, F32, usize, usize) -> bool + Sync,
    M: Fn(F32, F32) -> F32 + Sync,
>(
    math: RankMath<P, B, M>,
    texts: Seq<Vec<u8>>,
    schema: CsvSchema,
    has_header: bool,
    readers: Readers,
    cuts: Option<BinCuts>,
    max_bins: u32,
    cols_per_block: usize,
    e: OpenError,
) -> bool {
    let width = schema.plan.features@[0]@.len();
    match e {
        OpenError::TooManyColumns { columns } => columns == width && width > u32::MAX,
        OpenError::Features(t) => is_text_error(
            texts,
            has_header,
            in_chunks(texts.len() as int, readers.features as int),
            schema.kinds@,
            schema.plan.features@,
            t.file as int,
            t.error,
        ),
        OpenError::TooManyRows => exists|f: Seq<Batch>| #[trigger]
            are_features(texts, schema, has_header, readers, f) && count_rows(f, f.len() as int)
                > usize::MAX,
        OpenError::Cuts(c) => cuts is None && exists|f: Seq<Batch>| #[trigger]
            are_features(texts, schema, has_header, readers, f) && is_cuts_failure(math, f, max_bins, c),
        OpenError::Source(s) => cuts matches Some(c) && c.spec_n_feats() != width && s
            == SourceError::ColumnCount {
            got: width as usize,
            expected: c.spec_n_feats() as usize,
        } && exists|f: Seq<Batch>| #[trigger]
            are_features(texts, schema, has_header, readers, f) && f.len() > 0,
        OpenError::LabelText(t) => is_text_error(
            texts,
            has_header,
            in_chunks(texts.len() as int, readers.labels as int),
            schema.kinds@,
            schema.labels@,
            t.file as int,
            t.error,
        ),
        OpenError::Labels(l) => exists|f: Seq<Batch>, b: Seq<Batch>| #[trigger]
            are_features(texts, schema, has_header, readers, f) && #[trigger] are_labels(
                texts,
                schema,
                has_header,
                readers,
                b,
            ) && is_label_error(
                first_column(b, b.len() as int),
                count_rows(f, f.len() as int) as usize,
                l,
            ),
    }
}

/// Opens texts whose schema is known as a data set: the features are quantized, with given
/// boundaries or with those of a sketch, and each row gets its label.
pub fn open_prepared<
    P: Fn(F32, F32) -> F32 + Sync,
    B: Fn(F32, F32, F32, usize, usize) -> bool + Sync,
    M: Fn(F32, F32) -> F32 + Sync,
>(
    texts: &[Vec<u8>],
    schema: &CsvSchema,
    has_header: bool,
    readers: Readers,
    cuts: Option<BinCuts>,
    max_bins: u32,
    cols_per_block: usize,
    math: &RankMath<P, B, M>,
) -> (r: Result<Dataset, OpenError>)
    requires
        schema.wf(texts@.len() as int),
        cuts is None ==> max_bins <= crate::types::MAX_BIN_LIMIT,
        cols_per_block > 0,
        cuts matches Some(c) ==> c.wf(),
        math.ok(),
    ensures
        match r {
            Ok(d) => is_opened(
                *math,
                texts@,
                *schema,
                has_header,
                readers,
                cuts,
                max_bins,
                cols_per_block,
                d,
            ),
            Err(e) => is_open_error(
                *math,
                texts@,
                *schema,
                has_header,
                readers,
                cuts,
                max_bins,
                cols_per_block,
                e,
            ),
        },
{
    let width: usize = schema.plan.features[0].len();
    if width > 0xffff_ffff {
        return Err(OpenError::TooManyColumns { columns: width });
    }
    let features: Vec<Batch> = match read_texts(
        texts,
        has_header,
        texts.len() == 1 && readers.features > 1,
        schema.kinds.as_slice(),
        schema.plan.features.as_slice(),
        width,
    ) {
        Err(e) => {
            return Err(OpenError::Features(e));
        },
        Ok(b) => b,
    };
    assert(are_features(texts@, *schema, has_header, readers, features@));
    let ghost given = cuts;
    let builder: DatasetBuilder = DatasetBuilder::new(cuts, max_bins, cols_per_block, math);
    let builder: DatasetBuilder = match builder.pass() {
        Pass::Cuts => match sketch_features(builder, features.as_slice(), width, math) {
            Err(e) => {
                return Err(OpenError::Cuts(e));
            },
            Ok(b) => b,
        },
        _ => builder,
    };
    let ghost started = builder;
    let builder: DatasetBuilder = match feed(builder, features.as_slice(), math) {
        Err(e) => {
            proof {
                lemma_features_refused(*math, started, features@, width as int, e);
            }
            return match e {
                BuildError::TooManyRows => Err(OpenError::TooManyRows),
                BuildError::Source(s) => Err(OpenError::Source(s)),
                BuildError::Cuts(c) => {
                    assert(false);
                    Err(OpenError::Cuts(c))
                },
            };
        },
        Ok(b) => b,
    };
    assert(builder.quantized@ =~= features@);
    let builder: DatasetBuilder = match builder.pass_done(math) {
        Err(e) => {
            assert(false);
            return Err(OpenError::Cuts(e));
        },
        Ok(b) => b,
    };
    let label_batches: Vec<Batch> = match read_texts(
        texts,
        has_header,
        texts.len() == 1 && readers.labels > 1,
        schema.kinds.as_slice(),
        schema.labels.as_slice(),
        1,
    ) {
        Err(e) => {
            return Err(OpenError::LabelText(e));
        },
        Ok(b) => b,
    };
    assert(are_labels(texts@, *schema, has_header, readers, label_batches@));
    let builder: DatasetBuilder = match feed(builder, label_batches.as_slice(), math) {
        Err(_) => {
            assert(false);
            return Err(OpenError::TooManyRows);
        },
        Ok(b) => b,
    };
    assert(builder.labelled@ =~= label_batches@);
    let names: Vec<String> = if has_header {
        copy_names(&schema.plan.columns[0].names)
    } else {
        Vec::new()
    };
    match builder.finish(names, math) {
        Err(e) => Err(OpenError::Labels(e)),
        Ok(d) => {
            assert(is_dataset_of(
                *math,
                texts@,
                *schema,
                has_header,
                readers,
                given,
                max_bins,
                cols_per_block,
                features@,
                label_batches@,
                d,
            ));
            Ok(d)
        },
    }
}

/// The first pass over features of one width, and its end.
fn sketch_features<
    P: Fn(F32, F32) -> F32 + Sync,
    B: Fn(F32, F32, F32, usize, usize) -> bool + Sync,
    M: Fn(F32, F32) -> F32 + Sync,
>(builder: DatasetBuilder, features: &[Batch], width: usize, math: &RankMath<P, B, M>) -> (r: Result<
    DatasetBuilder,
    CutsFailure,
>)
    requires
        builder.wf(*math),
        math.ok(),
        builder.spec_pass() == Pass::Cuts,
        builder.taken() == Seq::<Batch>::empty(),
        well_shaped(features@, width as int),
        width <= u32::MAX,
    ensures
        match r {
            Ok(b) => {
                &&& b.wf(*math)
                &&& b.spec_pass() == Pass::Table && b.taken() == Seq::<Batch>::empty()
                &&& b.sketched@ == features@ && b.labelled@ == builder.labelled@
                &&& b.given@ == builder.given@ && b.max_bins == builder.max_bins
                &&& b.cols_per_block == builder.cols_per_block
            },
            Err(e) => is_cuts_failure(*math, features@, builder.max_bins, e),
        },
{
    let ghost start = builder;
    let builder: DatasetBuilder = match feed(builder, features, math) {
        Err(e) => {
            proof {
                let (mid, k) = choose|mid: DatasetBuilder, k: int|
                    0 <= k < features@.len() && mid.wf(*math) && #[trigger] start.fed(
                        mid,
                        features@.take(k),
                    ) && mid.refuses(features@[k], e);
                assert(mid.sketched@ =~= features@.take(k));
                if k > 0 {
                    assert(mid.sketched@[0] == features@[0]);
                }
            }
            return Err(CutsFailure::Invalid);
        },
        Ok(b) => b,
    };
    assert(builder.sketched@ =~= features@);
    builder.pass_done(math)
}

/// Features of one width are refused for the number of their rows, or for boundaries of another
/// width.
proof fn lemma_features_refused<
    P: Fn(F32, F32) -> F32 + Sync,
    B: Fn(F32, F32, F32, usize, usize) -> bool + Sync,
    M: Fn(F32, F32) -> F32 + Sync,
>(
    math: RankMath<P, B, M>,
    start: DatasetBuilder,
    features: Seq<Batch>,
    width: int,
    e: BuildError,
)
    requires
        start.spec_pass() == Pass::Table,
        start.taken() == Seq::<Batch>::empty(),
        start.given@ is None ==> start.sketched@ == features,
        well_shaped(features, width),
        exists|mid: DatasetBuilder, k: int|
            0 <= k < features.len() && mid.wf(math) && #[trigger] start.fed(mid, features.take(k))
                && mid.refuses(features[k], e),
    ensures
        features.len() > 0,
        match e {
            BuildError::TooManyRows => count_rows(features, features.len() as int) > usize::MAX,
            BuildError::Source(s) => start.given@ matches Some(c) && c.spec_n_feats() != width && s
                == SourceError::ColumnCount {
                got: width as usize,
                expected: c.spec_n_feats() as usize,
            },
            BuildError::Cuts(_) => false,
        },
{
    let (mid, k) = choose|mid: DatasetBuilder, k: int|
        0 <= k < features.len() && mid.wf(math) && #[trigger] start.fed(mid, features.take(k))
            && mid.refuses(features[k], e);
    assert(mid.quantized@ =~= features.take(k));
    assert(features[k].columns@.len() == width);
    assert(features[0].columns@.len() == width);
    lemma_count_prefix(features.take(k), features, k);
    super::arrow_source::lemma_rows_grow(features, k + 1, features.len() as int);
    assert(count_rows(features, k + 1) == count_rows(features, k) + features[k].n_rows);
}

/// The data set is that of the texts.
pub open spec fn is_opened<
    P: Fn(F32, F32) -> F32 + Sync,
    B: Fn(F32, F32, F32, usize, usize) -> bool + Sync,
    M: Fn(F32, F32) -> F32 + Sync,
>(
    math: RankMath<P, B, M>,
    texts: Seq<Vec<u8>>,
    schema: CsvSchema,
    has_header: bool,
    readers: Readers,
    cuts: Option<BinCuts>,
    max_bins: u32,
    cols_per_block: usize,
    d: Dataset,
) -> bool {
    exists|features: Seq<Batch>, labels: Seq<Batch>| #[trigger]
        is_dataset_of(
            math,
            texts,
            schema,
            has_header,
            readers,
            cuts,
            max_bins,
            cols_per_block,
            features,
            labels,
            d,
        )
}

/// Why texts give no data set.
pub enum CsvOpenError {
    Schema(CsvSchemaError),
    Open(OpenError),
}

/// What comes of opening texts.
pub open spec fn is_outcome<
    P: Fn(F32, F32) -> F32 + Sync,
    B: Fn(F32, F32, F32, usize, usize) -> bool + Sync,
    M: Fn(F32, F32) -> F32 + Sync,
>(
    math: RankMath<P, B, M>,
    texts: Seq<Vec<u8>>,
    label: Seq<char>,
    has_header: bool,
    readers: Readers,
    cuts: Option<BinCuts>,
    max_bins: u32,
    cols_per_block: usize,
    r: Result<Dataset, CsvOpenError>,
) -> bool {
    match r {
        Ok(d) => exists|s: CsvSchema| #[trigger]
            s.is_of(texts, label, has_header) && is_opened(
                math,
                texts,
                s,
                has_header,
                readers,
                cuts,
                max_bins,
                cols_per_block,
                d,
            ),
        Err(CsvOpenError::Schema(CsvSchemaError::Infer { file, .. })) => cannot_infer(
            texts,
            has_header,
            file as int,
        ),
        Err(CsvOpenError::Schema(CsvSchemaError::Bind { why, fields })) => cannot_bind(
            texts,
            label,
            has_header,
            fields@,
            why,
        ),
        Err(CsvOpenError::Open(e)) => exists|s: CsvSchema| #[trigger]
            s.is_of(texts, label, has_header) && is_open_error(
                math,
                texts,
                s,
                has_header,
                readers,
                cuts,
                max_bins,
                cols_per_block,
                e,
            ),
    }
}

/// Opens texts as a data set. `has_header`: the first record of each text names the columns, and
/// the columns are bound by name; else they are bound by position and the features have no names.
pub fn open_many_with_readers<
    P: Fn(F32, F32) -> F32 + Sync,
    B: Fn(F32, F32, F32, usize, usize) -> bool + Sync,
    M: Fn(F32, F32) -> F32 + Sync,
>(
    texts: &[Vec<u8>],
    label: &str,
    cuts: Option<BinCuts>,
    max_bins: u32,
    cols_per_block: usize,
    has_header: bool,
    readers: Readers,
    math: &RankMath<P, B, M>,
) -> (r: Result<Dataset, CsvOpenError>)
    requires
        cuts is None ==> max_bins <= crate::types::MAX_BIN_LIMIT,
        cols_per_block > 0,
        cuts matches Some(c) ==> c.wf(),
        math.ok(),
    ensures
        is_outcome(*math, texts@, label@, has_header, readers, cuts, max_bins, cols_per_block, r),
{
    let schema: CsvSchema = match csv_schema(texts, label, has_header) {
        Err(e) => {
            return Err(CsvOpenError::Schema(e));
        },
        Ok(s) => s,
    };
    match open_prepared(texts, &schema, has_header, readers, cuts, max_bins, cols_per_block, math) {
        Err(e) => {
            assert(schema.is_of(texts@, label@, has_header));
            Err(CsvOpenError::Open(e))
        },
        Ok(d) => {
            assert(schema.is_of(texts@, label@, has_header));
            Ok(d)
        },
    }
}

/// Opens texts as a data set with `nthread` threads, or with `effective` where that is zero.
pub fn open_many_with_header_and_nthread<
    P: Fn(F32, F32) -> F32 + Sync,
    B: Fn(F32, F32, F32, usize, usize) -> bool + Sync,
    M: Fn(F32, F32) -> F32 + Sync,
>(
    texts: &[Vec<u8>],
    label: &str,
    cuts: Option<BinCuts>,
    max_bins: u32,
    cols_per_block: usize,
    has_header: bool,
    nthread: usize,
    effective: usize,
    math: &RankMath<P, B, M>,
) -> (r: Result<Dataset, CsvOpenError>)
    requires
        cuts is None ==> max_bins <= crate::types::MAX_BIN_LIMIT,
        cols_per_block > 0,
        cuts matches Some(c) ==> c.wf(),
        math.ok(),
    ensures
        is_outcome(
            *math,
            texts@,
            label@,
            has_header,
            readers_of(nthread, effective),
            cuts,
            max_bins,
            cols_per_block,
            r,
        ),
{
    let readers: Readers = Readers::new(nthread, effective);
    open_many_with_readers(
        texts,
        label,
        cuts,
        max_bins,
        cols_per_block,
        has_header,
        readers,
        math,
    )
}

/// Opens texts as a data set, with as many threads as there are: `effective`.
pub fn open_many_with_header<
    P: Fn(F32, F32) -> F32 + Sync,
    B: Fn(F32, F32, F32, usize, usize) -> bool + Sync,
    M: Fn(F32, F32) -> F32 + Sync,
>(
    texts: &[Vec<u8>],
    label: &str,
    cuts: Option<BinCuts>,
    max_bins: u32,
    cols_per_block: usize,
    has_header: bool,
    effective: usize,
    math: &RankMath<P, B, M>,
) -> (r: Result<Dataset, CsvOpenError>)
    requires
        cuts is None ==> max_bins <= crate::types::MAX_BIN_LIMIT,
        cols_per_block > 0,
        cuts matches Some(c) ==> c.wf(),
        math.ok(),
    ensures
        is_outcome(
            *math,
            texts@,
            label@,
            has_header,
            readers_of(DEFAULT_INGEST_THREADS, effective),
            cuts,
            max_bins,
            cols_per_block,
            r,
        ),
{
    open_many_with_header_and_nthread(
        texts,
        label,
        cuts,
        max_bins,
        cols_per_block,
        has_header,
        DEFAULT_INGEST_THREADS,
        effective,
        math,
    )
}

/// Opens texts with headers as a data set, with as many threads as there are: `effective`.
pub fn open_many<
    P: Fn(F32, F32) -> F32 + Sync,
    B: Fn(F32, F32, F32, usize, usize) -> bool + Sync,
    M: Fn(F32, F32) -> F32 + Sync,
>(
    texts: &[Vec<u8>],
    label: &str,
    cuts: Option<BinCuts>,
    max_bins: u32,
    cols_per_block: usize,
    effective: usize,
    math: &RankMath<P, B, M>,
) -> (r: Result<Dataset, CsvOpenError>)
    requires
        cuts is None ==> max_bins <= crate::types::MAX_BIN_LIMIT,
        cols_per_block > 0,
        cuts matches Some(c) ==> c.wf(),
        math.ok(),
    ensures
        is_outcome(
            *math,
            texts@,
            label@,
            true,
            readers_of(DEFAULT_INGEST_THREADS, effective),
            cuts,
            max_bins,
            cols_per_block,
            r,
        ),
{
    open_many_with_header(texts, label, cuts, max_bins, cols_per_block, true, effective, math)
}

/// Opens one text with a header as a data set, with boundaries of its own.
pub fn open<
    P: Fn(F32, F32) -> F32 + Sync,
    B: Fn(F32, F32, F32, usize, usize) -> bool + Sync,
    M: Fn(F32, F32) -> F32 + Sync,
>(
    text: Vec<u8>,
    label: &str,
    max_bins: u32,
    cols_per_block: usize,
    effective: usize,
    math: &RankMath<P, B, M>,
) -> (r: Result<Dataset, CsvOpenError>)
    requires
        max_bins <= crate::types::MAX_BIN_LIMIT,
        cols_per_block > 0,
        math.ok(),
    ensures
        is_outcome(
            *math,
            seq![text],
            label@,
            true,
            readers_of(DEFAULT_INGEST_THREADS, effective),
            None,
            max_bins,
            cols_per_block,
            r,
        ),
{
    let ghost given = text;
    let mut texts: Vec<Vec<u8>> = Vec::new();
    texts.push(text);
    assert(texts@ =~= seq![given]);
    open_many(texts.as_slice(), label, None, max_bins, cols_per_block, effective, math)
}

/// Opens one text with a header as a data set, with the boundaries of another: an evaluation set
/// has to be quantized as the training data was.
pub fn open_with_cuts<
    P: Fn(F32, F32) -> F32 + Sync,
    B: Fn(F32, F32, F32, usize, usize) -> bool + Sync,
    M: Fn(F32, F32) -> F32 + Sync,
>(
    text: Vec<u8>,
    label: &str,
    cuts: BinCuts,
    cols_per_block: usize,
    effective: usize,
    math: &RankMath<P, B, M>,
) -> (r: Result<Dataset, CsvOpenError>)
    requires
        cuts.wf(),
        cols_per_block > 0,
        math.ok(),
    ensures
        is_outcome(
            *math,
            seq![text],
            label@,
            true,
            readers_of(DEFAULT_INGEST_THREADS, effective),
            Some(cuts),
            0,
            cols_per_block,
            r,
        ),
{
    let ghost given = text;
    let mut texts: Vec<Vec<u8>> = Vec::new();
    texts.push(text);
    assert(texts@ =~= seq![given]);
    open_many(texts.as_slice(), label, Some(cuts), 0, cols_per_block, effective, math)
}

/// How many features there are among columns, or why there are none.
pub open spec fn is_count(
    f: Seq<(String, ColumnKind)>,
    label: Seq<char>,
    r: Result<usize, SchemaError>,
) -> bool {
    match r {
        Ok(n) => exists|at: int| #[trigger]
            place_of(names_in(f), label, at) && n == all_but(f.len() as int, at).len() && n > 0,
        Err(SchemaError::NoLabel) => absent(names_in(f), label),
        Err(SchemaError::OnlyLabel) => exists|at: int| #[trigger]
            place_of(names_in(f), label, at) && all_but(f.len() as int, at).len() == 0,
        Err(_) => false,
    }
}

/// How many features there are: the columns without the label.
pub fn count_features(f: &Fields, label: &str) -> (r: Result<usize, SchemaError>)
    ensures
        is_count(f@, label@, r),
{
    let (names, _): (Vec<String>, Vec<Field>) = split_fields(f);
    proof {
        let own = names_in(f@);
        assert(forall|i: int| 0 <= i < own.len() ==> (#[trigger] own[i])@ == names@[i]@);
        lemma_same_names(names@, own, label@);
    }
    match columns(names.as_slice(), label) {
        Err(e) => {
            proof {
                if e == SchemaError::OnlyLabel {
                    let at = choose|at: int| #[trigger]
                        place_of(names@, label@, at) && all_but(names@.len() as int, at).len() == 0;
                    assert(place_of(names_in(f@), label@, at));
                }
            }
            Err(e)
        },
        Ok(c) => {
            assert(place_of(names_in(f@), label@, c.label as int));
            Ok(c.features.len())
        },
    }
}

/// The columns of a text, and how many of them are features.
pub open spec fn peeks(
    text: Seq<u8>,
    has_header: bool,
    label: Seq<char>,
    f: Fields,
    r: Result<usize, SchemaError>,
) -> bool {
    &&& inferred_columns(text, has_header, INFER_ROWS as int) == Some(fields_of(f@))
    &&& is_count(f@, label, r)
}

/// How many features a text has, or why it has none.
pub open spec fn is_peek(
    text: Seq<u8>,
    has_header: bool,
    label: Seq<char>,
    r: Result<usize, SchemaError>,
) -> bool {
    exists|f: Fields| #[trigger] peeks(text, has_header, label, f, r)
}

/// Why the features of a text cannot be counted.
pub enum PeekError {
    Infer(ArrowError),
    Schema(SchemaError),
}

/// How many features a text has: its columns without the label.
pub fn peek_n_features(text: &[u8], label: &str, has_header: bool) -> (r: Result<usize, PeekError>)
    ensures
        match r {
            Err(PeekError::Infer(_)) => inferred_columns(
                text@,
                has_header,
                INFER_ROWS as int,
            ) is None,
            Err(PeekError::Schema(e)) => is_peek(text@, has_header, label@, Err(e)),
            Ok(n) => is_peek(text@, has_header, label@, Ok(n)),
        },
{
    let f: Fields = match csv_fields(text, has_header) {
        Err(e) => {
            return Err(PeekError::Infer(e));
        },
        Ok(f) => f,
    };
    match count_features(&f, label) {
        Err(e) => {
            assert(peeks(text@, has_header, label@, f, Err(e)));
            Err(PeekError::Schema(e))
        },
        Ok(n) => {
            assert(peeks(text@, has_header, label@, f, Ok(n)));
            Ok(n)
        },
    }
}

} // verus!
