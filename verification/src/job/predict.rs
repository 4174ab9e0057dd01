//! Predicting from files: the checks before anything is read, and the output file.
use vstd::prelude::*;

use crate::source::input::InputFormat;
use crate::source::path::{name_of, PathStyle};
use crate::text::{ends_with_lower, is_blank, to_chars};
use crate::types::SchemaMode;

verus! {

/// Why a model and files do not go together.
#[derive(Clone, Copy, Debug, PartialEq, Eq, Structural)]
pub enum SchemaError {
    /// A model saved before modes were recorded: no names may mean that columns are bound by
    /// position, or that the names were not kept. Guessing wrong would predict wrong in silence.
    Unknown,
    /// Bound by name, but without names.
    NoNames,
    /// Only a CSV file can be without a header.
    HeaderlessParquet,
    /// A model bound by name cannot read a file without names.
    NamesNeeded,
    /// A model bound by position reads CSV files without a header.
    HeaderNotExpected,
}

/// Whether and how files of a format can be bound to a model: the first reason against it.
pub open spec fn binding(
    mode: Option<SchemaMode>,
    n_names: int,
    format: InputFormat,
    header: bool,
) -> Result<SchemaMode, SchemaError> {
    match mode {
        None => Err(SchemaError::Unknown),
        Some(m) => if m == SchemaMode::Named && n_names == 0 {
            Err(SchemaError::NoNames)
        } else if format == InputFormat::Parquet && !header {
            Err(SchemaError::HeaderlessParquet)
        } else if format == InputFormat::Csv && m == SchemaMode::Named && !header {
            Err(SchemaError::NamesNeeded)
        } else if format == InputFormat::Csv && m == SchemaMode::Positional && header {
            Err(SchemaError::HeaderNotExpected)
        } else {
            Ok(m)
        },
    }
}

/// When files can be bound, and how: the way that the model knows. By name, the model has names and
/// the files too; by position, CSV files have no header; a Parquet file always has one.
pub proof fn law_when_files_can_be_bound(
    mode: Option<SchemaMode>,
    n_names: int,
    format: InputFormat,
    header: bool,
)
    ensures
        binding(mode, n_names, format, header) is Ok <==> mode is Some && (mode == Some(
            SchemaMode::Named,
        ) ==> n_names != 0 && header) && (format == InputFormat::Parquet ==> header) && (mode
            == Some(SchemaMode::Positional) && format == InputFormat::Csv ==> !header),
        binding(mode, n_names, format, header) matches Ok(m) ==> mode == Some(m),
{
}

/// Whether and how files of a format can be bound to a model.
pub fn check_binding(
    mode: Option<SchemaMode>,
    n_names: usize,
    format: InputFormat,
    header: bool,
) -> (r: Result<SchemaMode, SchemaError>)
    ensures
        r == binding(mode, n_names as int, format, header),
{
    let m: SchemaMode = match mode {
        None => {
            return Err(SchemaError::Unknown);
        },
        Some(m) => m,
    };
    match m {
        SchemaMode::Named => {
            if n_names == 0 {
                return Err(SchemaError::NoNames);
            }
        },
        SchemaMode::Positional => {},
    }
    match format {
        InputFormat::Parquet => {
            if !header {
                return Err(SchemaError::HeaderlessParquet);
            }
        },
        InputFormat::Csv => match m {
            SchemaMode::Named => {
                if !header {
                    return Err(SchemaError::NamesNeeded);
                }
            },
            SchemaMode::Positional => {
                if header {
                    return Err(SchemaError::HeaderNotExpected);
                }
            },
        },
    }
    Ok(m)
}

/// A model as training leaves it can always predict from files of the kind that it was trained
/// on: with names from files with a header, without from CSV files without one.
pub proof fn law_trained_models_can_be_bound(m: crate::tree::Model)
    requires
        super::train::schema_settled(m),
    ensures
        m.feature_names@.len() > 0 ==> binding(
            m.schema_mode,
            m.feature_names@.len() as int,
            InputFormat::Parquet,
            true,
        ) is Ok,
        m.feature_names@.len() > 0 ==> binding(
            m.schema_mode,
            m.feature_names@.len() as int,
            InputFormat::Csv,
            true,
        ) is Ok,
        m.feature_names@.len() == 0 ==> binding(m.schema_mode, 0, InputFormat::Csv, false) is Ok,
{
}

/// Why an output file is refused.
#[derive(Clone, Copy, Debug, PartialEq, Eq, Structural)]
pub enum OutputError {
    /// The column has no name but white space.
    BlankColumn,
    /// The file is not called `.parquet` or `.pq`.
    Extension,
}

/// The last dot of a name stands at `k`.
pub open spec fn last_dot(n: Seq<char>, k: int) -> bool {
    &&& 0 <= k < n.len()
    &&& n[k] == '.'
    &&& forall|j: int| k < j < n.len() ==> (#[trigger] n[j]) != '.'
}

/// What follows the last dot of a name, unless that dot leads the name or there is none.
pub open spec fn extension(n: Seq<char>) -> Option<Seq<char>> {
    if exists|k: int| 0 < k && #[trigger] last_dot(n, k) {
        let k = choose|k: int| 0 < k && #[trigger] last_dot(n, k);
        Some(n.skip(k + 1))
    } else {
        None
    }
}

/// A text is another, whatever the case of its ASCII letters.
pub open spec fn same_lower(s: Seq<char>, other: Seq<char>) -> bool {
    s.len() == other.len() && crate::text::ends_in(s, other)
}

/// The path is one of a Parquet file: its extension is `parquet` or `pq` in any case.
pub open spec fn names_parquet(path: Seq<char>, style: PathStyle) -> bool {
    match crate::source::path::file_name(path, style) {
        None => false,
        Some(n) => match extension(n) {
            None => false,
            Some(e) => same_lower(e, "parquet"@) || same_lower(e, "pq"@),
        },
    }
}

/// Does a path name a Parquet file?
fn is_parquet_path(path: &str, style: PathStyle) -> (r: bool)
    ensures
        r == names_parquet(path@, style),
{
    let name: Vec<char> = match name_of(path, style) {
        None => {
            return false;
        },
        Some(n) => n,
    };
    let n: usize = name.len();
    let mut k: usize = n;
    while k > 0 && name[k - 1] != '.'
        invariant
            k <= n,
            n == name@.len(),
            forall|j: int| k <= j < n ==> (#[trigger] name@[j]) != '.',
        decreases k,
    {
        k -= 1;
    }
    // The dot, if there is one, stands at `k - 1`.
    if k <= 1 {
        proof {
            assert forall|d: int| 0 < d implies !(#[trigger] last_dot(name@, d)) by {
                if last_dot(name@, d) {
                    assert(name@[d] == '.');
                }
            }
        }
        return false;
    }
    let mut rest: Vec<char> = Vec::new();
    let mut i: usize = k;
    while i < n
        invariant
            k <= i <= n,
            n == name@.len(),
            rest@ == name@.subrange(k as int, i as int),
        decreases n - i,
    {
        rest.push(name[i]);
        assert(name@.subrange(k as int, i + 1) =~= name@.subrange(k as int, i as int).push(
            name@[i as int],
        ));
        i += 1;
    }
    proof {
        assert(last_dot(name@, k - 1));
        assert forall|d: int| 0 < d && #[trigger] last_dot(name@, d) implies d == k - 1 by {
            if d < k - 1 {
                assert(name@[k - 1] != '.');
            } else if d > k - 1 {
                assert(name@[d] != '.');
            }
        }
        assert(rest@ =~= name@.skip(k as int));
        reveal_strlit("parquet");
        reveal_strlit("pq");
    }
    (rest.len() == 7 && ends_with_lower(rest.as_slice(), "parquet")) || (rest.len() == 2
        && ends_with_lower(rest.as_slice(), "pq"))
}

/// Checks the output of a prediction before anything is read.
pub fn check_output(column: &str, path: &str, style: PathStyle) -> (r: Result<(), OutputError>)
    ensures
        r == if forall|i: int| 0 <= i < column@.len() ==> crate::text::is_space(#[trigger] column@[i]) {
            Err::<(), OutputError>(OutputError::BlankColumn)
        } else if !names_parquet(path@, style) {
            Err(OutputError::Extension)
        } else {
            Ok(())
        },
{
    let chars: Vec<char> = to_chars(column);
    if is_blank(chars.as_slice()) {
        return Err(OutputError::BlankColumn);
    }
    if !is_parquet_path(path, style) {
        return Err(OutputError::Extension);
    }
    Ok(())
}

/// Rows of a row group of the output.
pub const OUTPUT_ROW_GROUP_ROWS: usize = 1_048_576;

/// Batches that wait for the writer.
pub const OUTPUT_QUEUE_BATCHES: usize = 2;

/// What the writer of the output gets.
#[derive(Clone, Copy, Debug, PartialEq, Eq, Structural)]
pub enum WriterMessage {
    /// A batch of this many rows.
    Batch(usize),
    Finish,
    /// The other side is gone.
    Closed,
}

/// What the writer does next.
#[derive(Clone, Copy, Debug, PartialEq, Eq, Structural)]
pub enum WriterStep {
    /// Write the batch and take the next message.
    Write,
    /// Write the end of the file.
    Commit,
    /// Stop: the rows cannot be counted.
    RowOverflow,
    /// Stop: the work was given up before its end.
    Cancelled,
}

/// The writer of an output file.
pub struct OutputWriter {
    pub rows_written: usize,
    /// The end of the file is on disk. A file without it is removed.
    pub complete: bool,
}

impl OutputWriter {
    /// A writer that has written nothing.
    pub fn new() -> (r: Self)
        ensures
            r.rows_written == 0,
            !r.complete,
    {
        OutputWriter { rows_written: 0, complete: false }
    }

    /// Takes a message. Rows are counted before they are written.
    pub fn take(&mut self, message: WriterMessage) -> (r: WriterStep)
        ensures
            final(self).complete == old(self).complete,
            match message {
                WriterMessage::Batch(rows) => if old(self).rows_written + rows <= usize::MAX {
                    r == WriterStep::Write && final(self).rows_written == old(self).rows_written
                        + rows
                } else {
                    r == WriterStep::RowOverflow && final(self).rows_written == old(
                        self,
                    ).rows_written
                },
                WriterMessage::Finish => r == WriterStep::Commit && final(self).rows_written
                    == old(self).rows_written,
                WriterMessage::Closed => r == WriterStep::Cancelled && final(self).rows_written
                    == old(self).rows_written,
            },
    {
        match message {
            WriterMessage::Batch(rows) => match self.rows_written.checked_add(rows) {
                None => WriterStep::RowOverflow,
                Some(n) => {
                    self.rows_written = n;
                    WriterStep::Write
                },
            },
            WriterMessage::Finish => WriterStep::Commit,
            WriterMessage::Closed => WriterStep::Cancelled,
        }
    }

    /// The end of the file was written and is on disk.
    pub fn committed(&mut self)
        ensures
            final(self).complete,
            final(self).rows_written == old(self).rows_written,
    {
        self.complete = true;
    }

    /// Does the file stay when the writer ends?
    pub fn keeps_file(&self) -> (r: bool)
        ensures
            r == self.complete,
    {
        self.complete
    }
}

/// How the reading side ended.
#[derive(Clone, Copy, Debug, PartialEq, Eq, Structural)]
pub enum InputOutcome {
    /// All rows were read and scored.
    Rows(usize),
    /// A batch could not be handed on, because the writer was gone.
    WriterGone,
    /// Reading or scoring failed.
    Failed,
}

/// How the writer ended.
#[derive(Clone, Copy, Debug, PartialEq, Eq, Structural)]
pub enum WriterOutcome {
    Wrote(usize),
    Failed,
    Panicked,
}

/// How a prediction to a file ends.
#[derive(Clone, Copy, Debug, PartialEq, Eq, Structural)]
pub enum Settlement {
    Done { rows: usize },
    InputFailed,
    WriterFailed,
    WriterPanicked,
    /// The writer ended well before it was told to.
    WriterStopped,
    RowsDiffer { read: usize, written: usize },
}

/// Settles a prediction to a file. `finish_taken`: the writer was told that all is sent, and took
/// it. A failure of the writer is told where the writer was the cause, and else the failure of
/// the input.
pub fn settle(input: InputOutcome, finish_taken: bool, writer: WriterOutcome) -> (r: Settlement)
    ensures
        r == match input {
            InputOutcome::Failed => Settlement::InputFailed,
            InputOutcome::WriterGone => match writer {
                WriterOutcome::Failed => Settlement::WriterFailed,
                WriterOutcome::Panicked => Settlement::WriterPanicked,
                WriterOutcome::Wrote(_) => Settlement::InputFailed,
            },
            InputOutcome::Rows(read) => match writer {
                WriterOutcome::Failed => Settlement::WriterFailed,
                WriterOutcome::Panicked => Settlement::WriterPanicked,
                WriterOutcome::Wrote(written) => if !finish_taken {
                    Settlement::WriterStopped
                } else if read != written {
                    Settlement::RowsDiffer { read, written }
                } else {
                    Settlement::Done { rows: written }
                },
            },
        },
        r is Done <==> finish_taken && input is Rows && writer is Wrote && input->Rows_0
            == writer->Wrote_0,
        r matches Settlement::Done { rows } ==> input == InputOutcome::Rows(rows) && writer
            == WriterOutcome::Wrote(rows),
{
    match input {
        InputOutcome::Failed => Settlement::InputFailed,
        InputOutcome::WriterGone => match writer {
            WriterOutcome::Failed => Settlement::WriterFailed,
            WriterOutcome::Panicked => Settlement::WriterPanicked,
            WriterOutcome::Wrote(_) => Settlement::InputFailed,
        },
        InputOutcome::Rows(read) => match writer {
            WriterOutcome::Failed => Settlement::WriterFailed,
            WriterOutcome::Panicked => Settlement::WriterPanicked,
            WriterOutcome::Wrote(written) => if !finish_taken {
                Settlement::WriterStopped
            } else if read != written {
                Settlement::RowsDiffer { read, written }
            } else {
                Settlement::Done { rows: written }
            },
        },
    }
}

/// Is the output removed by the side that settles? The writer removes what it did not finish; a
/// finished file with the wrong number of rows is removed here.
pub fn removes_output(s: Settlement) -> (r: bool)
    ensures
        r == (s is RowsDiffer),
{
    match s {
        Settlement::RowsDiffer { .. } => true,
        _ => false,
    }
}

} // verus!
