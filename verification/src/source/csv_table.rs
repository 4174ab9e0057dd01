//! Tables from CSV text: what the columns hold, and their values as single-precision numbers.
use arrow::array::{ArrayRef, AsArray};
use arrow::compute::cast;
use arrow::csv::reader::Format;
use arrow::csv::ReaderBuilder;
use arrow::datatypes::{DataType, Field, Fields, Float32Type, Schema, TimeUnit};
use arrow::error::ArrowError;
use vstd::prelude::*;

use super::arrow_source::Batch;
use super::csv_source::{
    all_blank, chunk_records, cut_into, parse_batch_size, CsvChunk, BATCH_SIZE,
};
use super::input::{projection_and_order, rising};
use crate::float32::{F32, NAN_BITS};
use crate::job::workers::CSV_CHUNK_BYTES;
use crate::math::iclamp;
use crate::parallel::map_indices;

verus! {

/// How many records are looked at to tell what the columns hold. Too few would take a column of
/// numbers for one of integers, and lose its fractions later on.
pub const INFER_ROWS: usize = 10_000;

/// What a column holds.
#[derive(Clone, Copy, Debug, PartialEq, Eq, Structural)]
pub enum ColumnKind {
    Int64,
    Float64,
    /// Only empty fields.
    Null,
    Boolean,
    Date32,
    /// Points in time, by their unit.
    Seconds,
    Milliseconds,
    Microseconds,
    Nanoseconds,
    /// Text, or anything else.
    Utf8,
}

impl ColumnKind {
    /// The column holds numbers.
    pub open spec fn numeric(self) -> bool {
        self == ColumnKind::Int64 || self == ColumnKind::Float64
    }

    /// What the column holds, in words.
    pub open spec fn spec_label(self) -> &'static str {
        match self {
            ColumnKind::Int64 => "Int64",
            ColumnKind::Float64 => "Float64",
            ColumnKind::Null => "Null",
            ColumnKind::Boolean => "Boolean",
            ColumnKind::Date32 => "Date32",
            ColumnKind::Seconds => "Timestamp(Second, None)",
            ColumnKind::Milliseconds => "Timestamp(Millisecond, None)",
            ColumnKind::Microseconds => "Timestamp(Microsecond, None)",
            ColumnKind::Nanoseconds => "Timestamp(Nanosecond, None)",
            ColumnKind::Utf8 => "Utf8",
        }
    }

    /// What the column holds, in words.
    pub fn label(self) -> (r: &'static str)
        ensures
            r@ == self.spec_label()@,
    {
        match self {
            ColumnKind::Int64 => "Int64",
            ColumnKind::Float64 => "Float64",
            ColumnKind::Null => "Null",
            ColumnKind::Boolean => "Boolean",
            ColumnKind::Date32 => "Date32",
            ColumnKind::Seconds => "Timestamp(Second, None)",
            ColumnKind::Milliseconds => "Timestamp(Millisecond, None)",
            ColumnKind::Microseconds => "Timestamp(Microsecond, None)",
            ColumnKind::Nanoseconds => "Timestamp(Nanosecond, None)",
            ColumnKind::Utf8 => "Utf8",
        }
    }

    /// Does the column hold numbers?
    pub fn is_numeric(self) -> (r: bool)
        ensures
            r == self.numeric(),
    {
        match self {
            ColumnKind::Int64 => true,
            ColumnKind::Float64 => true,
            _ => false,
        }
    }
}

/// The errors of `arrow`.
#[verifier::external_type_specification]
#[verifier::external_body]
pub struct ExArrowError(ArrowError);

/// The values of the columns `mask` of CSV text, which may start with a header, batch by batch and
/// column by column, rounded to single precision; an empty field is `None`. Of a NaN the bits mean
/// nothing. No tables: the text is not CSV text of these columns.
pub uninterp spec fn csv_tables(
    text: Seq<u8>,
    header: bool,
    kinds: Seq<ColumnKind>,
    batch_size: int,
    mask: Seq<usize>,
) -> Option<Seq<Seq<Seq<Option<u32>>>>>;

/// The same field: both empty, or the same number, whatever the bits of a NaN.
pub open spec fn same_field(a: Option<u32>, b: Option<u32>) -> bool {
    match (a, b) {
        (None, None) => true,
        (Some(x), Some(y)) => F32 { bits: x }.alike(F32 { bits: y }),
        _ => false,
    }
}

/// The same columns, field by field.
pub open spec fn same_columns(a: Seq<Seq<Option<u32>>>, b: Seq<Seq<Option<u32>>>) -> bool {
    &&& a.len() == b.len()
    &&& forall|c: int| 0 <= c < a.len() ==> (#[trigger] a[c]).len() == b[c].len()
    &&& forall|c: int, i: int|
        0 <= c < a.len() && 0 <= i < a[c].len() ==> same_field(#[trigger] a[c][i], b[c][i])
}

/// The same tables, field by field.
pub open spec fn same_tables(
    a: Seq<Seq<Seq<Option<u32>>>>,
    b: Seq<Seq<Seq<Option<u32>>>>,
) -> bool {
    &&& a.len() == b.len()
    &&& forall|t: int| 0 <= t < a.len() ==> same_columns(#[trigger] a[t], b[t])
}

/// Batches of columns.
pub open spec fn tables_of(t: Seq<Vec<Vec<Option<u32>>>>) -> Seq<Seq<Seq<Option<u32>>>> {
    t.map_values(|b: Vec<Vec<Option<u32>>>| columns_of(b@))
}

/// Columns of values.
pub open spec fn columns_of(b: Seq<Vec<Option<u32>>>) -> Seq<Seq<Option<u32>>> {
    b.map_values(|c: Vec<Option<u32>>| c@)
}

/// So many columns of the same length.
pub open spec fn is_table(t: Seq<Seq<Option<u32>>>, width: int) -> bool {
    &&& t.len() == width
    &&& forall|c: int| 0 <= c < width ==> (#[trigger] t[c]).len() == t[0].len()
}

/// The columns exist and hold numbers.
pub open spec fn are_numeric(kinds: Seq<ColumnKind>, cols: Seq<usize>) -> bool {
    forall|j: int|
        0 <= j < cols.len() ==> (#[trigger] cols[j]) < kinds.len()
            && kinds[cols[j] as int].numeric()
}

/// Parses CSV text, without its header where it has one.
///
/// Calls `build` of `arrow`'s `csv::ReaderBuilder`, reads the batches until the text ends or one
/// fails, and calls `arrow`'s `compute::cast` on each column. Claims that what comes out depends
/// on the arguments alone, but for the sign and the payload of a NaN, and that each batch has one
/// column per entry of `mask`, all of one length.
#[verifier::external_body]
fn parse_records(
    text: &[u8],
    header: bool,
    kinds: &[ColumnKind],
    batch_size: usize,
    mask: Vec<usize>,
) -> (r: Result<Vec<Vec<Vec<Option<u32>>>>, ArrowError>)
    requires
        1 <= batch_size <= BATCH_SIZE,
        kinds@.len() <= u32::MAX,
        mask@.len() > 0,
        are_numeric(kinds@, mask@),
    ensures
        match r {
            Ok(t) => csv_tables(text@, header, kinds@, batch_size as int, mask@) matches Some(named)
                && same_tables(tables_of(t@), named),
            Err(_) => csv_tables(text@, header, kinds@, batch_size as int, mask@) is None,
        },
        r matches Ok(t) ==> forall|i: int|
            0 <= i < t@.len() ==> is_table(columns_of((#[trigger] t@[i])@), mask@.len() as int),
{
    let of = |k: &ColumnKind| Field::new("", match k {
        ColumnKind::Int64 => DataType::Int64,
        ColumnKind::Float64 => DataType::Float64,
        _ => DataType::Utf8,
    }, true);
    let fields: Fields = kinds.iter().map(of).collect();
    let reader = ReaderBuilder::new(Schema::new(fields).into()).with_header(header).with_batch_size(
        batch_size,
    ).with_projection(mask).build(text)?;
    let single = |c: &ArrayRef| cast(c, &DataType::Float32).map(
        |c| c.as_primitive::<Float32Type>().iter().map(|v| v.map(|x| x.to_bits())).collect(),
    );
    reader.map(|b| b?.columns().iter().map(single).collect()).collect()
}

/// The names of the columns of CSV text and what they hold; none where the text is not CSV text.
pub uninterp spec fn inferred_columns(text: Seq<u8>, header: bool, rows: int) -> Option<
    Seq<(Seq<char>, ColumnKind)>,
>;

/// Names and kinds of columns.
pub open spec fn fields_of(f: Seq<(String, ColumnKind)>) -> Seq<(Seq<char>, ColumnKind)> {
    f.map_values(|c: (String, ColumnKind)| (c.0@, c.1))
}

/// Tells what the columns of CSV text hold.
///
/// Calls `infer_schema` of `arrow`'s `csv::reader::Format`, which looks at the first `rows`
/// records. Claims that what comes out depends on the arguments alone.
#[verifier::external_body]
fn infer_columns(text: &[u8], header: bool, rows: usize) -> (r: Result<
    Vec<(String, ColumnKind)>,
    ArrowError,
>)
    ensures
        match r {
            Ok(f) => inferred_columns(text@, header, rows as int) == Some(fields_of(f@)),
            Err(_) => inferred_columns(text@, header, rows as int) is None,
        },
{
    let of = |t: &DataType| match t {
        DataType::Int64 => ColumnKind::Int64,
        DataType::Float64 => ColumnKind::Float64,
        DataType::Null => ColumnKind::Null,
        DataType::Boolean => ColumnKind::Boolean,
        DataType::Date32 => ColumnKind::Date32,
        DataType::Timestamp(TimeUnit::Second, _) => ColumnKind::Seconds,
        DataType::Timestamp(TimeUnit::Millisecond, _) => ColumnKind::Milliseconds,
        DataType::Timestamp(TimeUnit::Microsecond, _) => ColumnKind::Microseconds,
        DataType::Timestamp(TimeUnit::Nanosecond, _) => ColumnKind::Nanoseconds,
        _ => ColumnKind::Utf8,
    };
    let (schema, _) = Format::default().with_header(header).infer_schema(text, Some(rows))?;
    Ok(schema.fields().iter().map(|f| (f.name().clone(), of(f.data_type()))).collect())
}

/// Why no table comes out of CSV text.
pub enum CsvError {
    /// The text is not CSV text of these columns.
    Text(ArrowError),
    /// A header is expected and there are only blank lines.
    NoHeader,
    /// The column with this number does not hold numbers, or does not exist.
    NotNumeric { column: usize },
    /// More columns than a feature number can tell apart.
    TooManyColumns { columns: usize },
}

/// A value: missing where the field is empty or not a number. One NaN stands for all, so that the
/// value does not hang on which NaN was parsed.
pub open spec fn cell(v: Option<u32>) -> F32 {
    match v {
        Some(bits) => F32 { bits }.spec_settled(),
        None => F32 { bits: NAN_BITS },
    }
}

/// An empty field is a missing value, and a field with a number is that number: every field with a
/// number keeps its bits, and what is not a number stays what is not a number.
pub proof fn law_fields_keep_their_numbers(v: Option<u32>)
    ensures
        v is None ==> cell(v).nan(),
        v matches Some(bits) ==> if (bits / 0x80_0000) % 256 == 255 && bits % 0x80_0000 != 0 {
            cell(v).nan()
        } else {
            cell(v).bits == bits
        },
{
    if let Some(bits) = v {
        crate::float32::law_what_is_not_a_number(F32 { bits }, F32 { bits });
    }
}

/// A batch shows the columns `cols` of a table whose columns are `mask`.
pub open spec fn shows(
    b: Batch,
    table: Seq<Seq<Option<u32>>>,
    mask: Seq<usize>,
    cols: Seq<usize>,
) -> bool {
    &&& b.wf()
    &&& b.n_rows == table[0].len()
    &&& b.columns@.len() == cols.len()
    &&& forall|j: int, m: int|
        0 <= j < cols.len() && 0 <= m < mask.len() && #[trigger] cols[j] == #[trigger] mask[m]
            ==> b.columns@[j]@ == table[m].map_values(|v: Option<u32>| cell(v))
}

/// The columns of a list, each once and in order.
pub open spec fn is_mask(mask: Seq<usize>, cols: Seq<usize>) -> bool {
    &&& rising(mask)
    &&& forall|c: usize| #[trigger] mask.contains(c) <==> cols.contains(c)
}

pub(crate) fn copy_numbers(s: &[usize]) -> (r: Vec<usize>)
    ensures
        r@ == s@,
{
    let mut r: Vec<usize> = Vec::new();
    let mut i: usize = 0;
    while i < s.len()
        invariant
            i <= s@.len(),
            r@ == s@.take(i as int),
        decreases s.len() - i,
    {
        r.push(s[i]);
        assert(s@.take(i + 1) =~= s@.take(i as int).push(s@[i as int]));
        i += 1;
    }
    assert(s@.take(i as int) =~= s@);
    r
}

fn cells(column: &Vec<Option<u32>>) -> (r: Vec<F32>)
    ensures
        r@ == column@.map_values(|v: Option<u32>| cell(v)),
{
    let mut r: Vec<F32> = Vec::new();
    let mut i: usize = 0;
    while i < column.len()
        invariant
            i <= column@.len(),
            r@.len() == i,
            forall|k: int| 0 <= k < i ==> #[trigger] r@[k] == cell(column@[k]),
        decreases column.len() - i,
    {
        let v: F32 = match column[i] {
            Some(bits) => F32 { bits }.settled(),
            None => F32 { bits: NAN_BITS },
        };
        r.push(v);
        i += 1;
    }
    assert(r@ =~= column@.map_values(|v: Option<u32>| cell(v)));
    r
}

/// The columns of a parsed table in the wanted order, with empty fields as missing values.
pub fn ordered_batch(table: &Vec<Vec<Option<u32>>>, order: &[usize]) -> (b: Batch)
    requires
        table@.len() > 0,
        is_table(columns_of(table@), table@.len() as int),
        forall|j: int| 0 <= j < order@.len() ==> (#[trigger] order@[j]) < table@.len(),
    ensures
        b.wf(),
        b.n_rows == table@[0]@.len(),
        b.columns@.len() == order@.len(),
        forall|j: int|
            0 <= j < order@.len() ==> (#[trigger] b.columns@[j])@
                == table@[order@[j] as int]@.map_values(|v: Option<u32>| cell(v)),
{
    let mut columns: Vec<Vec<F32>> = Vec::new();
    let mut j: usize = 0;
    while j < order.len()
        invariant
            j <= order@.len(),
            table@.len() > 0,
            is_table(columns_of(table@), table@.len() as int),
            forall|k: int| 0 <= k < order@.len() ==> (#[trigger] order@[k]) < table@.len(),
            columns@.len() == j,
            forall|k: int|
                0 <= k < j ==> (#[trigger] columns@[k])@
                    == table@[order@[k] as int]@.map_values(|v: Option<u32>| cell(v)),
        decreases order.len() - j,
    {
        columns.push(cells(&table[order[j]]));
        j += 1;
    }
    let n_rows: usize = table[0].len();
    proof {
        assert forall|k: int| 0 <= k < columns@.len() implies (#[trigger] columns@[k])@.len()
            == n_rows by {
            let c = order@[k] as int;
            assert(columns_of(table@)[c].len() == columns_of(table@)[0].len());
            assert(columns_of(table@)[c] == table@[c]@);
            assert(columns_of(table@)[0] == table@[0]@);
        }
    }
    Batch { columns, n_rows }
}

/// The batches show the tables.
pub open spec fn show_all(
    batches: Seq<Batch>,
    tables: Seq<Seq<Seq<Option<u32>>>>,
    mask: Seq<usize>,
    cols: Seq<usize>,
) -> bool {
    &&& batches.len() == tables.len()
    &&& forall|i: int| 0 <= i < batches.len() ==> shows(#[trigger] batches[i], tables[i], mask, cols)
}

/// The tables of a chunk of records.
pub open spec fn chunk_tables(
    text: Seq<u8>,
    kinds: Seq<ColumnKind>,
    mask: Seq<usize>,
    c: CsvChunk,
) -> Option<Seq<Seq<Seq<Option<u32>>>>> {
    csv_tables(
        text.subrange(c.start as int, c.end as int),
        false,
        kinds,
        iclamp(c.rows as int, 1, BATCH_SIZE as int),
        mask,
    )
}

/// The tables of the first `k` chunks, one after the other; none where one of them has none.
pub open spec fn tables_upto(
    text: Seq<u8>,
    kinds: Seq<ColumnKind>,
    mask: Seq<usize>,
    chunks: Seq<CsvChunk>,
    k: int,
) -> Option<Seq<Seq<Seq<Option<u32>>>>>
    decreases k,
{
    if k <= 0 {
        Some(seq![])
    } else {
        match (
            tables_upto(text, kinds, mask, chunks, k - 1),
            chunk_tables(text, kinds, mask, chunks[k - 1]),
        ) {
            (Some(a), Some(b)) => Some(a + b),
            _ => None,
        }
    }
}

/// Parses CSV text and brings its columns into the wanted order.
fn parse_ordered(
    bytes: &[u8],
    header: bool,
    batch_size: usize,
    kinds: &[ColumnKind],
    projection: &[usize],
    order: &[usize],
) -> (r: Result<Vec<Batch>, ArrowError>)
    requires
        1 <= batch_size <= BATCH_SIZE,
        kinds@.len() <= u32::MAX,
        projection@.len() > 0,
        are_numeric(kinds@, projection@),
        forall|j: int| 0 <= j < order@.len() ==> (#[trigger] order@[j]) < projection@.len(),
    ensures
        ({
            let tables = csv_tables(bytes@, header, kinds@, batch_size as int, projection@);
            match r {
                Err(_) => tables is None,
                Ok(batches) => tables matches Some(t) && in_this_order(batches@, t, order@),
            }
        }),
{
    let tables: Vec<Vec<Vec<Option<u32>>>> = match parse_records(
        bytes,
        header,
        kinds,
        batch_size,
        copy_numbers(projection),
    ) {
        Err(e) => {
            return Err(e);
        },
        Ok(t) => t,
    };
    let ghost views = tables_of(tables@);
    let ghost named = csv_tables(bytes@, header, kinds@, batch_size as int, projection@)->0;
    let mut batches: Vec<Batch> = Vec::new();
    let mut i: usize = 0;
    while i < tables.len()
        invariant
            i <= tables@.len(),
            views == tables_of(tables@),
            same_tables(views, named),
            projection@.len() > 0,
            forall|j: int| 0 <= j < order@.len() ==> (#[trigger] order@[j]) < projection@.len(),
            forall|k: int|
                0 <= k < tables@.len() ==> is_table(
                    columns_of((#[trigger] tables@[k])@),
                    projection@.len() as int,
                ),
            batches@.len() == i,
            forall|k: int|
                0 <= k < i ==> is_in_order(#[trigger] batches@[k], named[k], order@),
        decreases tables.len() - i,
    {
        let table: &Vec<Vec<Option<u32>>> = &tables[i];
        assert(columns_of(table@).len() == table@.len());
        let b: Batch = ordered_batch(table, order);
        proof {
            assert(views[i as int] == columns_of(table@));
            assert(columns_of(table@)[0] == table@[0]@);
            assert(same_columns(views[i as int], named[i as int]));
            assert(named[i as int][0].len() == views[i as int][0].len());
            assert forall|j: int| 0 <= j < order@.len() implies (#[trigger] b.columns@[j])@
                == named[i as int][order@[j] as int].map_values(|v: Option<u32>| cell(v)) by {
                let c = order@[j] as int;
                assert(columns_of(table@)[c] == table@[c]@);
                let there = named[i as int][c];
                assert(views[i as int][c].len() == there.len());
                assert forall|k: int| 0 <= k < there.len() implies b.columns@[j]@[k] == cell(
                    there[k],
                ) by {
                    assert(same_field(views[i as int][c][k], there[k]));
                }
                assert(b.columns@[j]@ =~= there.map_values(|v: Option<u32>| cell(v)));
            }
        }
        batches.push(b);
        i += 1;
    }
    Ok(batches)
}

/// Parses a chunk of whole records and brings its columns into the wanted order.
pub fn parse_csv_chunk(
    bytes: &[u8],
    rows: usize,
    kinds: &[ColumnKind],
    projection: &[usize],
    order: &[usize],
) -> (r: Result<Vec<Batch>, ArrowError>)
    requires
        kinds@.len() <= u32::MAX,
        projection@.len() > 0,
        are_numeric(kinds@, projection@),
        forall|j: int| 0 <= j < order@.len() ==> (#[trigger] order@[j]) < projection@.len(),
    ensures
        ({
            let tables = csv_tables(
                bytes@,
                false,
                kinds@,
                iclamp(rows as int, 1, BATCH_SIZE as int),
                projection@,
            );
            match r {
                Err(_) => tables is None,
                Ok(batches) => tables matches Some(t) && in_this_order(batches@, t, order@),
            }
        }),
{
    parse_ordered(bytes, false, parse_batch_size(rows), kinds, projection, order)
}

/// A batch has the columns of a table in this order.
pub open spec fn is_in_order(b: Batch, table: Seq<Seq<Option<u32>>>, order: Seq<usize>) -> bool {
    &&& b.wf()
    &&& b.n_rows == table[0].len()
    &&& b.columns@.len() == order.len()
    &&& forall|j: int|
        0 <= j < order.len() ==> (#[trigger] b.columns@[j])@
            == table[order[j] as int].map_values(|v: Option<u32>| cell(v))
}

/// Batches have the columns of the tables in this order.
pub open spec fn in_this_order(
    batches: Seq<Batch>,
    tables: Seq<Seq<Seq<Option<u32>>>>,
    order: Seq<usize>,
) -> bool {
    &&& batches.len() == tables.len()
    &&& forall|i: int| 0 <= i < batches.len() ==> is_in_order(#[trigger] batches[i], tables[i], order)
}

/// The first listed column that does not exist or does not hold numbers.
pub open spec fn is_first_bad(kinds: Seq<ColumnKind>, cols: Seq<usize>, j: int) -> bool {
    &&& 0 <= j < cols.len()
    &&& !(cols[j] < kinds.len() && kinds[cols[j] as int].numeric())
    &&& forall|i: int|
        0 <= i < j ==> (#[trigger] cols[i]) < kinds.len() && kinds[cols[i] as int].numeric()
}

fn first_bad(kinds: &[ColumnKind], cols: &[usize]) -> (r: Option<usize>)
    ensures
        match r {
            None => are_numeric(kinds@, cols@),
            Some(j) => is_first_bad(kinds@, cols@, j as int),
        },
{
    let mut j: usize = 0;
    while j < cols.len()
        invariant
            j <= cols@.len(),
            forall|i: int|
                0 <= i < j ==> (#[trigger] cols@[i]) < kinds@.len()
                    && kinds@[cols@[i] as int].numeric(),
        decreases cols.len() - j,
    {
        if cols[j] >= kinds.len() {
            return Some(j);
        }
        if !kinds[cols[j]].is_numeric() {
            return Some(j);
        }
        j += 1;
    }
    None
}

/// The tables of all records of a text, parsed as one or cut into chunks that are parsed one by
/// one.
pub open spec fn are_tables(
    text: Seq<u8>,
    has_header: bool,
    chunked: bool,
    kinds: Seq<ColumnKind>,
    mask: Seq<usize>,
    tables: Option<Seq<Seq<Seq<Option<u32>>>>>,
) -> bool {
    if chunked {
        exists|chunks: Seq<CsvChunk>| #[trigger]
            cut_into(text, has_header, chunks, CSV_CHUNK_BYTES as int) && tables == tables_upto(
                text,
                kinds,
                mask,
                chunks,
                chunks.len() as int,
            )
    } else {
        tables == csv_tables(text, has_header, kinds, BATCH_SIZE as int, mask)
    }
}

/// The tables of all records of a text, parsed for the columns `mask`.
pub open spec fn is_parse(
    text: Seq<u8>,
    has_header: bool,
    chunked: bool,
    kinds: Seq<ColumnKind>,
    cols: Seq<usize>,
    mask: Seq<usize>,
    tables: Option<Seq<Seq<Seq<Option<u32>>>>>,
) -> bool {
    is_mask(mask, cols) && are_tables(text, has_header, chunked, kinds, mask, tables)
}

/// The batches are the columns `cols` of all records of a text.
pub open spec fn reads(
    text: Seq<u8>,
    has_header: bool,
    chunked: bool,
    kinds: Seq<ColumnKind>,
    cols: Seq<usize>,
    batches: Seq<Batch>,
) -> bool {
    exists|mask: Seq<usize>, tables: Seq<Seq<Seq<Option<u32>>>>| #[trigger]
        is_parse(text, has_header, chunked, kinds, cols, mask, Some(tables)) && show_all(
            batches,
            tables,
            mask,
            cols,
        )
}

/// Some record of a text cannot be parsed.
pub open spec fn unreadable(
    text: Seq<u8>,
    has_header: bool,
    chunked: bool,
    kinds: Seq<ColumnKind>,
    cols: Seq<usize>,
) -> bool {
    exists|mask: Seq<usize>| #[trigger]
        is_parse(text, has_header, chunked, kinds, cols, mask, None)
}

/// A chunk lies in the text.
pub open spec fn chunks_lie_in(text: Seq<u8>, chunks: Seq<CsvChunk>) -> bool {
    forall|i: int|
        0 <= i < chunks.len() ==> (#[trigger] chunks[i]).start <= chunks[i].end <= text.len()
}

proof fn lemma_chunks_lie_in(text: Seq<u8>, has_header: bool, chunks: Seq<CsvChunk>, size: int)
    requires
        cut_into(text, has_header, chunks, size),
    ensures
        chunks_lie_in(text, chunks),
{
    let from = choose|from: int| #[trigger]
        super::csv_source::is_cut(text, has_header, chunks, from, size);
    assert forall|i: int| 0 <= i < chunks.len() implies (#[trigger] chunks[i]).start
        <= chunks[i].end <= text.len() by {
        super::csv_source::lemma_chunk_lies_in(text, chunks, from, size, i);
    }
}

proof fn lemma_order_shows(
    b: Batch,
    table: Seq<Seq<Option<u32>>>,
    mask: Seq<usize>,
    cols: Seq<usize>,
    order: Seq<usize>,
)
    requires
        rising(mask),
        order.len() == cols.len(),
        forall|j: int|
            0 <= j < cols.len() ==> (#[trigger] order[j]) < mask.len() && mask[order[j] as int]
                == cols[j],
        is_in_order(b, table, order),
    ensures
        shows(b, table, mask, cols),
{
    assert forall|j: int, m: int|
        0 <= j < cols.len() && 0 <= m < mask.len() && #[trigger] cols[j]
            == #[trigger] mask[m] implies b.columns@[j]@ == table[m].map_values(
        |v: Option<u32>| cell(v),
    ) by {
        let o = order[j] as int;
        assert(mask[o] == mask[m]);
        if o < m {
            assert(mask[o] < mask[m]);
        } else if m < o {
            assert(mask[m] < mask[o]);
        }
    }
}

/// The batches of one chunk, or that it has none.
pub open spec fn is_chunk_result(
    text: Seq<u8>,
    kinds: Seq<ColumnKind>,
    mask: Seq<usize>,
    order: Seq<usize>,
    c: CsvChunk,
    r: Result<Vec<Batch>, ArrowError>,
) -> bool {
    match r {
        Err(_) => chunk_tables(text, kinds, mask, c) is None,
        Ok(batches) => chunk_tables(text, kinds, mask, c) matches Some(t) && in_this_order(
            batches@,
            t,
            order,
        ),
    }
}

proof fn lemma_none_stays(
    text: Seq<u8>,
    kinds: Seq<ColumnKind>,
    mask: Seq<usize>,
    chunks: Seq<CsvChunk>,
    k: int,
    n: int,
)
    requires
        0 <= k <= n,
        tables_upto(text, kinds, mask, chunks, k) is None,
    ensures
        tables_upto(text, kinds, mask, chunks, n) is None,
    decreases n,
{
    if k < n {
        lemma_none_stays(text, kinds, mask, chunks, k, n - 1);
    }
}

/// Why the columns `cols` of a text cannot be read.
pub open spec fn is_read_error(
    text: Seq<u8>,
    has_header: bool,
    chunked: bool,
    kinds: Seq<ColumnKind>,
    cols: Seq<usize>,
    e: CsvError,
) -> bool {
    match e {
        CsvError::TooManyColumns { columns } => kinds.len() > u32::MAX && columns == kinds.len(),
        CsvError::NotNumeric { column } => kinds.len() <= u32::MAX && exists|j: int| #[trigger]
            is_first_bad(kinds, cols, j) && column == cols[j],
        CsvError::NoHeader => {
            &&& kinds.len() <= u32::MAX && are_numeric(kinds, cols)
            &&& chunked && has_header && all_blank(text)
        },
        CsvError::Text(_) => {
            &&& kinds.len() <= u32::MAX && are_numeric(kinds, cols)
            &&& unreadable(text, has_header, chunked, kinds, cols)
        },
    }
}

/// What comes of reading columns: their batches, or why there are none.
pub open spec fn is_reading_of(
    text: Seq<u8>,
    has_header: bool,
    chunked: bool,
    kinds: Seq<ColumnKind>,
    mask: Seq<usize>,
    cols: Seq<usize>,
    r: Result<Vec<Batch>, CsvError>,
) -> bool {
    match r {
        Err(CsvError::NoHeader) => chunked && has_header && all_blank(text),
        Err(CsvError::Text(_)) => are_tables(text, has_header, chunked, kinds, mask, None),
        Err(_) => false,
        Ok(batches) => exists|tables: Seq<Seq<Seq<Option<u32>>>>| #[trigger]
            are_tables(text, has_header, chunked, kinds, mask, Some(tables)) && show_all(
                batches@,
                tables,
                mask,
                cols,
            ),
    }
}

/// Reads a text as one.
fn read_whole(
    text: &[u8],
    has_header: bool,
    kinds: &[ColumnKind],
    mask: &[usize],
    order: &[usize],
    Ghost(cols): Ghost<Seq<usize>>,
) -> (r: Result<Vec<Batch>, CsvError>)
    requires
        kinds@.len() <= u32::MAX,
        mask@.len() > 0,
        are_numeric(kinds@, mask@),
        is_mask(mask@, cols),
        order@.len() == cols.len(),
        forall|j: int|
            0 <= j < cols.len() ==> (#[trigger] order@[j]) < mask@.len() && mask@[order@[j] as int]
                == cols[j],
    ensures
        is_reading_of(text@, has_header, false, kinds@, mask@, cols, r),
{
    match parse_ordered(text, has_header, BATCH_SIZE, kinds, mask, order) {
        Err(e) => Err(CsvError::Text(e)),
        Ok(batches) => {
            proof {
                let t = csv_tables(text@, has_header, kinds@, BATCH_SIZE as int, mask@)->0;
                assert(are_tables(text@, has_header, false, kinds@, mask@, Some(t)));
                assert forall|i: int| 0 <= i < batches@.len() implies shows(
                    #[trigger] batches@[i],
                    t[i],
                    mask@,
                    cols,
                ) by {
                    lemma_order_shows(batches@[i], t[i], mask@, cols, order@);
                }
            }
            Ok(batches)
        },
    }
}

/// Reads a text in chunks, which are parsed on the threads of the current pool.
fn read_chunks(
    text: &[u8],
    has_header: bool,
    kinds: &[ColumnKind],
    mask: &[usize],
    order: &[usize],
    Ghost(cols): Ghost<Seq<usize>>,
) -> (r: Result<Vec<Batch>, CsvError>)
    requires
        kinds@.len() <= u32::MAX,
        mask@.len() > 0,
        are_numeric(kinds@, mask@),
        is_mask(mask@, cols),
        order@.len() == cols.len(),
        forall|j: int|
            0 <= j < cols.len() ==> (#[trigger] order@[j]) < mask@.len() && mask@[order@[j] as int]
                == cols[j],
    ensures
        is_reading_of(text@, has_header, true, kinds@, mask@, cols, r),
{
    let chunks: Vec<CsvChunk> = match chunk_records(text, has_header, CSV_CHUNK_BYTES) {
        None => {
            return Err(CsvError::NoHeader);
        },
        Some(c) => c,
    };
    let n: usize = chunks.len();
    proof {
        lemma_chunks_lie_in(text@, has_header, chunks@, CSV_CHUNK_BYTES as int);
    }
    let list: &Vec<CsvChunk> = &chunks;
    let one = |i: usize| -> (r: Result<Vec<Batch>, ArrowError>)
        requires
            i < list@.len(),
            chunks_lie_in(text@, list@),
            kinds@.len() <= u32::MAX,
            mask@.len() > 0,
            are_numeric(kinds@, mask@),
            forall|j: int| 0 <= j < order@.len() ==> (#[trigger] order@[j]) < mask@.len(),
        ensures
            is_chunk_result(text@, kinds@, mask@, order@, list@[i as int], r),
        {
            let c: CsvChunk = list[i];
            let part: &[u8] = vstd::slice::slice_subrange(text, c.start, c.end);
            parse_csv_chunk(part, c.rows, kinds, mask, order)
        };
    let mut parts: Vec<Result<Vec<Batch>, ArrowError>> = map_indices(n, one);
    proof {
        assert forall|i: int| 0 <= i < n implies is_chunk_result(
            text@,
            kinds@,
            mask@,
            order@,
            chunks@[i],
            #[trigger] parts@[i],
        ) by {
            assert(one.ensures((i as usize,), parts@[i]));
        }
    }
    let ghost results = parts@;
    let mut batches: Vec<Batch> = Vec::new();
    let ghost mut tables: Seq<Seq<Seq<Option<u32>>>> = seq![];
    let mut k: usize = 0;
    while k < n
        invariant
            k <= n,
            n == chunks@.len(),
            results.len() == n,
            parts@.len() == n - k,
            forall|i: int| 0 <= i < n - k ==> #[trigger] parts@[i] == results[k + i],
            forall|i: int|
                0 <= i < n ==> is_chunk_result(
                    text@,
                    kinds@,
                    mask@,
                    order@,
                    chunks@[i],
                    #[trigger] results[i],
                ),
            rising(mask@),
            is_mask(mask@, cols),
            cut_into(text@, has_header, chunks@, CSV_CHUNK_BYTES as int),
            order@.len() == cols.len(),
            forall|j: int|
                0 <= j < cols.len() ==> (#[trigger] order@[j]) < mask@.len()
                    && mask@[order@[j] as int] == cols[j],
            tables_upto(text@, kinds@, mask@, chunks@, k as int) == Some(tables),
            show_all(batches@, tables, mask@, cols),
        decreases n - k,
    {
        let ghost before = batches@;
        let ghost had = tables;
        assert(parts@[0] == results[k as int]);
        match parts.remove(0) {
            Err(e) => {
                proof {
                    assert(tables_upto(text@, kinds@, mask@, chunks@, k + 1) is None);
                    lemma_none_stays(text@, kinds@, mask@, chunks@, k + 1, n as int);
                    assert(are_tables(text@, has_header, true, kinds@, mask@, None));
                }
                return Err(CsvError::Text(e));
            },
            Ok(more) => {
                let mut more: Vec<Batch> = more;
                let ghost added = more@;
                proof {
                    let t = chunk_tables(text@, kinds@, mask@, chunks@[k as int])->0;
                    tables = had + t;
                    assert(tables_upto(text@, kinds@, mask@, chunks@, k + 1) == Some(tables));
                }
                batches.append(&mut more);
                proof {
                    let t = chunk_tables(text@, kinds@, mask@, chunks@[k as int])->0;
                    assert forall|i: int| 0 <= i < batches@.len() implies shows(
                        #[trigger] batches@[i],
                        tables[i],
                        mask@,
                        cols,
                    ) by {
                        if i < before.len() {
                            assert(batches@[i] == before[i]);
                            assert(tables[i] == had[i]);
                        } else {
                            let q = i - before.len();
                            assert(batches@[i] == added[q]);
                            assert(tables[i] == t[q]);
                            lemma_order_shows(added[q], t[q], mask@, cols, order@);
                        }
                    }
                }
            },
        }
        k += 1;
    }
    proof {
        assert(are_tables(text@, has_header, true, kinds@, mask@, Some(tables)));
    }
    Ok(batches)
}

/// The columns `cols` of all records of a text, in the order of `cols`. `chunked`: the records are
/// cut into chunks, the chunks are parsed on the threads of the current pool, and the batches come
/// out in the order of the text.
pub fn read_csv(
    text: &[u8],
    has_header: bool,
    chunked: bool,
    kinds: &[ColumnKind],
    cols: &[usize],
) -> (r: Result<Vec<Batch>, CsvError>)
    requires
        cols@.len() > 0,
    ensures
        match r {
            Err(e) => is_read_error(text@, has_header, chunked, kinds@, cols@, e),
            Ok(batches) => {
                &&& kinds@.len() <= u32::MAX && are_numeric(kinds@, cols@)
                &&& reads(text@, has_header, chunked, kinds@, cols@, batches@)
                &&& forall|i: int|
                    0 <= i < batches@.len() ==> (#[trigger] batches@[i]).wf()
                        && batches@[i].columns@.len() == cols@.len()
            },
        },
{
    if kinds.len() > 0xffff_ffff {
        return Err(CsvError::TooManyColumns { columns: kinds.len() });
    }
    match first_bad(kinds, cols) {
        Some(j) => {
            return Err(CsvError::NotNumeric { column: cols[j] });
        },
        None => {},
    }
    let (mask, order): (Vec<usize>, Vec<usize>) = projection_and_order(cols);
    proof {
        assert(is_mask(mask@, cols@));
        assert(mask@.len() > 0) by {
            assert(order@[0] < mask@.len());
        }
        assert forall|m: int| 0 <= m < mask@.len() implies (#[trigger] mask@[m]) < kinds@.len()
            && kinds@[mask@[m] as int].numeric() by {
            assert(mask@.contains(mask@[m]));
            let j = choose|j: int| 0 <= j < cols@.len() && cols@[j] == mask@[m];
            assert(cols@[j] < kinds@.len());
        }
    }
    let r: Result<Vec<Batch>, CsvError> = if chunked {
        read_chunks(text, has_header, kinds, mask.as_slice(), order.as_slice(), Ghost(cols@))
    } else {
        read_whole(text, has_header, kinds, mask.as_slice(), order.as_slice(), Ghost(cols@))
    };
    proof {
        match r {
            Err(CsvError::Text(_)) => {
                assert(is_parse(text@, has_header, chunked, kinds@, cols@, mask@, None));
            },
            Err(_) => {},
            Ok(ref batches) => {
                let tables = choose|tables: Seq<Seq<Seq<Option<u32>>>>| #[trigger]
                    are_tables(text@, has_header, chunked, kinds@, mask@, Some(tables)) && show_all(
                        batches@,
                        tables,
                        mask@,
                        cols@,
                    );
                assert(is_parse(text@, has_header, chunked, kinds@, cols@, mask@, Some(tables)));
            },
        }
    }
    r
}

/// The columns of a text, from its first records.
pub fn csv_fields(text: &[u8], has_header: bool) -> (r: Result<Vec<(String, ColumnKind)>, ArrowError>)
    ensures
        match r {
            Ok(f) => inferred_columns(text@, has_header, INFER_ROWS as int) == Some(fields_of(f@)),
            Err(_) => inferred_columns(text@, has_header, INFER_ROWS as int) is None,
        },
{
    infer_columns(text, has_header, INFER_ROWS)
}

} // verus!
