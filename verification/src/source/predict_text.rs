//! The rows that a model reads of CSV texts.
use arrow::error::ArrowError;
use vstd::prelude::*;

use super::arrow_source::Batch;
use super::csv_open::in_chunks;
use super::csv_table::{
    csv_fields, inferred_columns, is_read_error, read_csv, reads, ColumnKind, CsvError, INFER_ROWS,
};
use super::predict_input::{
    absent, batch_to_rows, check_projection, column_for, plan_columns, projection_ok, BindError,
    ColumnPlan,
};
use crate::float32::F32;

verus! {

/// What features of which model are asked for.
pub struct Asked<'a> {
    pub has_header: bool,
    /// With how many threads texts are read.
    pub readers: usize,
    /// The names of the model's features, or none where it takes columns by position.
    pub feature_names: &'a [String],
    pub n_features: usize,
    /// The asked features.
    pub projected: &'a [usize],
}

impl Asked<'_> {
    /// A model has a name for each feature, or none at all.
    pub open spec fn wf(&self) -> bool {
        self.feature_names@.len() == 0 || self.feature_names@.len() >= self.n_features
    }

    /// Some features are asked for, each once, in rising order.
    pub open spec fn projects(&self) -> bool {
        self.projected@.len() > 0 && projection_ok(self.projected@, self.n_features)
    }
}

/// A text has columns of these names and kinds.
pub open spec fn has_columns(
    text: Seq<u8>,
    has_header: bool,
    names: Seq<String>,
    kinds: Seq<ColumnKind>,
) -> bool {
    &&& names.len() == kinds.len()
    &&& inferred_columns(text, has_header, INFER_ROWS as int) matches Some(f) && {
        &&& f.len() == names.len()
        &&& forall|i: int| 0 <= i < f.len() ==> #[trigger] f[i] == (names[i]@, kinds[i])
    }
}

/// The columns of a file that hold the asked features.
pub open spec fn holds_features(names: Seq<String>, a: Asked, cols: Seq<usize>) -> bool {
    &&& cols.len() == a.projected@.len()
    &&& forall|i: int|
        0 <= i < cols.len() ==> column_for(
            names,
            a.feature_names@,
            a.n_features,
            a.projected@[i] as int,
            (#[trigger] cols[i]) as int,
        )
}

/// The rows of a batch.
pub open spec fn batch_rows(b: Batch) -> Seq<Seq<F32>> {
    Seq::new(b.n_rows as nat, |i: int| Seq::new(b.columns@.len(), |c: int| b.columns@[c]@[i]))
}

/// The rows of the first `k` batches.
pub open spec fn rows_upto(batches: Seq<Batch>, k: int) -> Seq<Seq<F32>>
    decreases k,
{
    if k <= 0 {
        seq![]
    } else {
        rows_upto(batches, k - 1) + batch_rows(batches[k - 1])
    }
}

/// Rows as sequences.
pub open spec fn rows_in(rows: Seq<Vec<F32>>) -> Seq<Seq<F32>> {
    rows.map_values(|r: Vec<F32>| r@)
}

/// The rows of a text come from these columns and batches.
pub open spec fn rows_come_from(
    text: Seq<u8>,
    chunked: bool,
    a: Asked,
    names: Seq<String>,
    kinds: Seq<ColumnKind>,
    cols: Seq<usize>,
    batches: Seq<Batch>,
) -> bool {
    &&& has_columns(text, a.has_header, names, kinds)
    &&& holds_features(names, a, cols)
    &&& reads(text, a.has_header, chunked, kinds, cols, batches)
}

/// The rows of the asked features in a text.
pub open spec fn is_text_rows(text: Seq<u8>, chunked: bool, a: Asked, rows: Seq<Seq<F32>>) -> bool {
    exists|names: Seq<String>, kinds: Seq<ColumnKind>, cols: Seq<usize>, batches: Seq<Batch>|
        #[trigger] rows_come_from(text, chunked, a, names, kinds, cols, batches) && rows == rows_upto(
            batches,
            batches.len() as int,
        )
}

/// Why a text has no rows.
pub enum TextFault {
    /// It is not CSV text.
    Infer(ArrowError),
    /// It does not have the columns that the model needs.
    Bind(BindError),
    /// The columns cannot be read.
    Text(CsvError),
}

/// Why a file with these columns is refused.
pub open spec fn is_bind_refusal(names: Seq<String>, a: Asked, e: BindError) -> bool {
    match e {
        BindError::ColumnCount { columns, features } => {
            &&& a.feature_names@.len() == 0 && names.len() != a.n_features
            &&& columns == names.len() && features == a.n_features
        },
        BindError::MissingFeature { feature } => {
            &&& feature < a.feature_names@.len()
            &&& absent(names, a.feature_names@[feature as int]@)
            &&& forall|i: int|
                0 <= i < feature ==> !absent(names, (#[trigger] a.feature_names@[i])@)
        },
        _ => false,
    }
}

/// A text has columns that the model cannot be bound to.
pub open spec fn cannot_bind(text: Seq<u8>, a: Asked, e: BindError) -> bool {
    exists|names: Seq<String>, kinds: Seq<ColumnKind>| #[trigger]
        has_columns(text, a.has_header, names, kinds) && is_bind_refusal(names, a, e)
}

/// A text has the columns, and they are read.
pub open spec fn is_read_of(
    text: Seq<u8>,
    a: Asked,
    names: Seq<String>,
    kinds: Seq<ColumnKind>,
    cols: Seq<usize>,
) -> bool {
    has_columns(text, a.has_header, names, kinds) && holds_features(names, a, cols)
}

/// A text has the columns, and they cannot be read.
pub open spec fn cannot_read(text: Seq<u8>, chunked: bool, a: Asked, e: CsvError) -> bool {
    exists|names: Seq<String>, kinds: Seq<ColumnKind>, cols: Seq<usize>| #[trigger]
        is_read_of(text, a, names, kinds, cols) && is_read_error(
            text,
            a.has_header,
            chunked,
            kinds,
            cols,
            e,
        )
}

/// Why a text has no rows.
pub open spec fn is_text_fault(text: Seq<u8>, chunked: bool, a: Asked, fault: TextFault) -> bool {
    match fault {
        TextFault::Infer(_) => inferred_columns(text, a.has_header, INFER_ROWS as int) is None,
        TextFault::Bind(e) => cannot_bind(text, a, e),
        TextFault::Text(e) => cannot_read(text, chunked, a, e),
    }
}

fn split(fields: &Vec<(String, ColumnKind)>) -> (r: (Vec<String>, Vec<ColumnKind>))
    ensures
        r.0@.len() == fields@.len(),
        r.1@.len() == fields@.len(),
        forall|i: int| 0 <= i < fields@.len() ==> (#[trigger] r.0@[i])@ == fields@[i].0@,
        forall|i: int| 0 <= i < fields@.len() ==> (#[trigger] r.1@[i]) == fields@[i].1,
{
    let mut names: Vec<String> = Vec::new();
    let mut kinds: Vec<ColumnKind> = Vec::new();
    let mut i: usize = 0;
    while i < fields.len()
        invariant
            i <= fields@.len(),
            names@.len() == i,
            kinds@.len() == i,
            forall|k: int| 0 <= k < i ==> (#[trigger] names@[k])@ == fields@[k].0@,
            forall|k: int| 0 <= k < i ==> (#[trigger] kinds@[k]) == fields@[k].1,
        decreases fields.len() - i,
    {
        let field: &(String, ColumnKind) = &fields[i];
        let name: String = field.0.clone();
        assert(name@ == fields@[i as int].0@);
        names.push(name);
        kinds.push(field.1);
        i += 1;
    }
    (names, kinds)
}

fn planned(plan: &ColumnPlan) -> (cols: Vec<usize>)
    requires
        forall|i: int|
            0 <= i < plan.order@.len() ==> (#[trigger] plan.order@[i]) < plan.mask@.len(),
    ensures
        cols@.len() == plan.order@.len(),
        forall|i: int|
            0 <= i < cols@.len() ==> (#[trigger] cols@[i]) == plan.mask@[plan.order@[i] as int],
{
    let mut cols: Vec<usize> = Vec::new();
    let mut i: usize = 0;
    while i < plan.order.len()
        invariant
            i <= plan.order@.len(),
            cols@.len() == i,
            forall|k: int|
                0 <= k < plan.order@.len() ==> (#[trigger] plan.order@[k]) < plan.mask@.len(),
            forall|k: int|
                0 <= k < i ==> (#[trigger] cols@[k]) == plan.mask@[plan.order@[k] as int],
        decreases plan.order.len() - i,
    {
        cols.push(plan.mask[plan.order[i]]);
        i += 1;
    }
    cols
}

/// Batches as rows, one after the other.
pub fn join_rows(batches: &Vec<Batch>) -> (rows: Vec<Vec<F32>>)
    requires
        forall|i: int| 0 <= i < batches@.len() ==> (#[trigger] batches@[i]).wf(),
    ensures
        rows_in(rows@) == rows_upto(batches@, batches@.len() as int),
{
    let mut rows: Vec<Vec<F32>> = Vec::new();
    let mut k: usize = 0;
    assert(rows_in(rows@) =~= rows_upto(batches@, 0));
    while k < batches.len()
        invariant
            k <= batches@.len(),
            forall|i: int| 0 <= i < batches@.len() ==> (#[trigger] batches@[i]).wf(),
            rows_in(rows@) == rows_upto(batches@, k as int),
        decreases batches.len() - k,
    {
        let b: &Batch = &batches[k];
        assert(batches@[k as int].wf());
        let mut more: Vec<Vec<F32>> = batch_to_rows(b.columns.as_slice(), b.n_rows);
        let ghost before = rows@;
        let ghost added = more@;
        rows.append(&mut more);
        proof {
            assert(rows_in(added) =~= batch_rows(*b));
            assert(rows@ == before + added);
            assert(rows_in(before + added) =~= rows_in(before) + rows_in(added));
        }
        k += 1;
    }
    rows
}

/// The rows of the asked features in a text.
fn text_rows(text: &[u8], chunked: bool, a: &Asked) -> (r: Result<Vec<Vec<F32>>, TextFault>)
    requires
        a.wf(),
        a.projects(),
    ensures
        match r {
            Ok(rows) => {
                &&& is_text_rows(text@, chunked, *a, rows_in(rows@))
                &&& forall|i: int|
                    0 <= i < rows@.len() ==> (#[trigger] rows@[i])@.len() == a.projected@.len()
            },
            Err(fault) => is_text_fault(text@, chunked, *a, fault),
        },
{
    let fields: Vec<(String, ColumnKind)> = match csv_fields(text, a.has_header) {
        Err(e) => {
            return Err(TextFault::Infer(e));
        },
        Ok(f) => f,
    };
    let (names, kinds): (Vec<String>, Vec<ColumnKind>) = split(&fields);
    proof {
        let f = inferred_columns(text@, a.has_header, INFER_ROWS as int)->0;
        assert forall|i: int| 0 <= i < f.len() implies #[trigger] f[i] == (
            names@[i]@,
            kinds@[i],
        ) by {
            assert(f[i] == (fields@[i].0@, fields@[i].1));
        }
        assert(has_columns(text@, a.has_header, names@, kinds@));
    }
    let plan: ColumnPlan = match plan_columns(
        names.as_slice(),
        a.feature_names,
        a.n_features,
        a.projected,
    ) {
        Err(e) => {
            assert(is_bind_refusal(names@, *a, e));
            assert(cannot_bind(text@, *a, e));
            return Err(TextFault::Bind(e));
        },
        Ok(p) => p,
    };
    let cols: Vec<usize> = planned(&plan);
    proof {
        assert forall|i: int| 0 <= i < cols@.len() implies column_for(
            names@,
            a.feature_names@,
            a.n_features,
            a.projected@[i] as int,
            (#[trigger] cols@[i]) as int,
        ) by {
            assert(plan.order@[i] < plan.mask@.len());
        }
        assert(holds_features(names@, *a, cols@));
        assert(is_read_of(text@, *a, names@, kinds@, cols@));
    }
    let batches: Vec<Batch> = match read_csv(
        text,
        a.has_header,
        chunked,
        kinds.as_slice(),
        cols.as_slice(),
    ) {
        Err(e) => {
            assert(cannot_read(text@, chunked, *a, e));
            return Err(TextFault::Text(e));
        },
        Ok(b) => b,
    };
    let rows: Vec<Vec<F32>> = join_rows(&batches);
    proof {
        assert(rows_come_from(text@, chunked, *a, names@, kinds@, cols@, batches@));
        lemma_row_width(batches@, a.projected@.len() as int, batches@.len() as int);
        assert forall|i: int| 0 <= i < rows@.len() implies (#[trigger] rows@[i])@.len()
            == a.projected@.len() by {
            assert(rows_in(rows@)[i] == rows@[i]@);
        }
    }
    Ok(rows)
}

proof fn lemma_row_width(batches: Seq<Batch>, width: int, k: int)
    requires
        0 <= k <= batches.len(),
        forall|i: int| 0 <= i < batches.len() ==> (#[trigger] batches[i]).columns@.len() == width,
    ensures
        forall|i: int|
            0 <= i < rows_upto(batches, k).len() ==> (#[trigger] rows_upto(batches, k)[i]).len()
                == width,
    decreases k,
{
    if k > 0 {
        lemma_row_width(batches, width, k - 1);
        let before = rows_upto(batches, k - 1);
        let all = rows_upto(batches, k);
        assert(batches[k - 1].columns@.len() == width);
        assert forall|i: int| 0 <= i < all.len() implies (#[trigger] all[i]).len() == width by {
            if i < before.len() {
                assert(all[i] == before[i]);
            } else {
                assert(all[i] == batch_rows(batches[k - 1])[i - before.len()]);
            }
        }
    }
}

/// The first `k` of parts, one after the other.
pub open spec fn joined(parts: Seq<Seq<Seq<F32>>>, k: int) -> Seq<Seq<F32>>
    decreases k,
{
    if k <= 0 {
        seq![]
    } else {
        joined(parts, k - 1) + parts[k - 1]
    }
}

/// Each part is the rows of its text.
pub open spec fn are_text_rows(
    texts: Seq<Vec<u8>>,
    a: Asked,
    parts: Seq<Seq<Seq<F32>>>,
    k: int,
) -> bool {
    &&& parts.len() == k
    &&& forall|i: int| 0 <= i < k ==> is_text_rows(
            texts[i]@,
            in_chunks(texts.len() as int, a.readers as int),
            a,
            #[trigger] parts[i],
        )
}

/// The rows of all texts, text after text.
pub open spec fn is_rows(texts: Seq<Vec<u8>>, a: Asked, rows: Seq<Seq<F32>>) -> bool {
    exists|parts: Seq<Seq<Seq<F32>>>| #[trigger]
        are_text_rows(texts, a, parts, texts.len() as int) && rows == joined(
            parts,
            texts.len() as int,
        )
}

/// The texts before `file` have rows, and that one has none.
pub open spec fn is_first_fault(
    texts: Seq<Vec<u8>>,
    a: Asked,
    file: int,
    fault: TextFault,
) -> bool {
    &&& 0 <= file < texts.len()
    &&& exists|parts: Seq<Seq<Seq<F32>>>| #[trigger] are_text_rows(texts, a, parts, file)
    &&& is_text_fault(
        texts[file]@,
        in_chunks(texts.len() as int, a.readers as int),
        a,
        fault,
    )
}

/// Why texts have no rows.
pub enum RowsError {
    /// The asked features are none, out of order, or no features of the model.
    Projection(BindError),
    /// The first text without rows.
    File { file: usize, fault: TextFault },
}

/// The rows of the asked features in CSV texts, text after text. A model with names takes each
/// feature from the column of its name, so the columns of the texts may stand in any order.
pub fn projected_rows(texts: &[Vec<u8>], a: &Asked) -> (r: Result<Vec<Vec<F32>>, RowsError>)
    requires
        a.wf(),
    ensures
        match r {
            Ok(rows) => {
                &&& a.projects()
                &&& is_rows(texts@, *a, rows_in(rows@))
                &&& forall|i: int|
                    0 <= i < rows@.len() ==> (#[trigger] rows@[i])@.len() == a.projected@.len()
            },
            Err(RowsError::Projection(e)) => !a.projects() && e == if a.projected@.len() == 0 {
                BindError::EmptyProjection
            } else {
                BindError::BadProjection
            },
            Err(RowsError::File { file, fault }) => a.projects() && is_first_fault(
                texts@,
                *a,
                file as int,
                fault,
            ),
        },
{
    match check_projection(a.projected, a.n_features) {
        Err(e) => {
            return Err(RowsError::Projection(e));
        },
        Ok(()) => {},
    }
    let chunked: bool = texts.len() == 1 && a.readers > 1;
    let mut rows: Vec<Vec<F32>> = Vec::new();
    let ghost mut parts: Seq<Seq<Seq<F32>>> = seq![];
    let mut k: usize = 0;
    assert(rows_in(rows@) =~= joined(parts, 0));
    while k < texts.len()
        invariant
            a.wf(),
            a.projects(),
            chunked == in_chunks(texts@.len() as int, a.readers as int),
            k <= texts@.len(),
            are_text_rows(texts@, *a, parts, k as int),
            rows_in(rows@) == joined(parts, k as int),
            forall|i: int|
                0 <= i < rows@.len() ==> (#[trigger] rows@[i])@.len() == a.projected@.len(),
        decreases texts.len() - k,
    {
        let mut more: Vec<Vec<F32>> = match text_rows(texts[k].as_slice(), chunked, a) {
            Err(fault) => {
                return Err(RowsError::File { file: k, fault });
            },
            Ok(m) => m,
        };
        let ghost before = rows@;
        let ghost added = more@;
        let ghost had = parts;
        rows.append(&mut more);
        proof {
            parts = had.push(rows_in(added));
            assert(rows@ == before + added);
            assert(rows_in(before + added) =~= rows_in(before) + rows_in(added));
            lemma_joined_same(had, parts, k as int);
            assert forall|i: int| 0 <= i < k + 1 implies is_text_rows(
                texts@[i]@,
                chunked,
                *a,
                #[trigger] parts[i],
            ) by {
                if i < k {
                    assert(parts[i] == had[i]);
                }
            }
        }
        k += 1;
    }
    Ok(rows)
}

proof fn lemma_joined_same(a: Seq<Seq<Seq<F32>>>, b: Seq<Seq<Seq<F32>>>, k: int)
    requires
        0 <= k <= a.len(),
        k <= b.len(),
        forall|i: int| 0 <= i < k ==> #[trigger] a[i] == b[i],
    ensures
        joined(a, k) == joined(b, k),
    decreases k,
{
    if k > 0 {
        lemma_joined_same(a, b, k - 1);
    }
}

} // verus!
