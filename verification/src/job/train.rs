//! Training from files: what is decided between reading a schema, opening the data and handing
//! back the model.
use vstd::prelude::*;
use vstd::string::*;

use super::blocking::{
    apply_resolved_geometry, resolve_blocking, BlockingError, BlockingPlan, DeviceMemory, Geometry,
};
use crate::source::input::InputFormat;
use crate::tree::Model;
use crate::types::SchemaMode;

verus! {

/// How the caller named the label column.
pub enum LabelArg {
    Name(String),
    Index(isize),
    /// Neither a name nor a number.
    Other,
}

/// Where the label column is.
pub enum LabelChoice {
    Name(String),
    Position(usize),
}

/// Why a label is refused.
#[derive(Clone, Copy, Debug, PartialEq, Eq, Structural)]
pub enum LabelError {
    /// Only a CSV file can be without a header.
    HeaderlessParquet,
    /// With a header the label is a column name.
    NameWanted,
    /// Without a header the label is a column number.
    IndexWanted,
    NegativeIndex { index: isize },
}

/// What comes of a label that the caller named.
pub open spec fn is_label_choice(
    format: InputFormat,
    header: bool,
    label: LabelArg,
    r: Result<LabelChoice, LabelError>,
) -> bool {
    if header {
        match label {
            LabelArg::Name(n) => r matches Ok(LabelChoice::Name(m)) && m@ == n@,
            _ => r == Err::<LabelChoice, LabelError>(LabelError::NameWanted),
        }
    } else if format == InputFormat::Parquet {
        r == Err::<LabelChoice, LabelError>(LabelError::HeaderlessParquet)
    } else {
        match label {
            LabelArg::Index(i) => if i < 0 {
                r == Err::<LabelChoice, LabelError>(LabelError::NegativeIndex { index: i })
            } else {
                r matches Ok(LabelChoice::Position(p)) && p == i
            },
            _ => r == Err::<LabelChoice, LabelError>(LabelError::IndexWanted),
        }
    }
}

/// Where the label column is: by its name where columns have names, and by its number in a CSV
/// file without a header.
pub fn label_of(format: InputFormat, header: bool, label: LabelArg) -> (r: Result<
    LabelChoice,
    LabelError,
>)
    ensures
        is_label_choice(format, header, label, r),
{
    if header {
        return match label {
            LabelArg::Name(n) => Ok(LabelChoice::Name(n)),
            _ => Err(LabelError::NameWanted),
        };
    }
    match format {
        InputFormat::Parquet => Err(LabelError::HeaderlessParquet),
        InputFormat::Csv => match label {
            LabelArg::Index(i) => if i < 0 {
                Err(LabelError::NegativeIndex { index: i })
            } else {
                Ok(LabelChoice::Position(i as usize))
            },
            _ => Err(LabelError::IndexWanted),
        },
    }
}

/// The rows of several files together.
pub open spec fn rows_of_all(rows: Seq<u64>) -> int
    decreases rows.len(),
{
    if rows.len() == 0 {
        0
    } else {
        rows_of_all(rows.drop_last()) + rows.last()
    }
}

/// The rows of files add up: those of two lots of files together are the rows of the one and of the
/// other, and those of one file are its own.
pub proof fn law_rows_of_files_add_up(a: Seq<u64>, b: Seq<u64>, one: u64)
    ensures
        rows_of_all(a + b) == rows_of_all(a) + rows_of_all(b),
        rows_of_all(seq![one]) == one,
        rows_of_all(Seq::<u64>::empty()) == 0,
    decreases b.len(),
{
    assert(seq![one].drop_last() =~= Seq::<u64>::empty());
    assert(rows_of_all(seq![one].drop_last()) == 0);
    if b.len() == 0 {
        assert(a + b =~= a);
    } else {
        assert((a + b).drop_last() =~= a + b.drop_last());
        law_rows_of_files_add_up(a, b.drop_last(), one);
    }
}

proof fn lemma_rows_prefix(rows: Seq<u64>, k: int)
    requires
        0 <= k <= rows.len(),
    ensures
        0 <= rows_of_all(rows.take(k)) <= rows_of_all(rows),
    decreases rows.len(),
{
    if k == rows.len() {
        assert(rows.take(k) =~= rows);
        if k > 0 {
            lemma_rows_prefix(rows.drop_last(), k - 1);
            assert(rows.drop_last().take(k - 1) =~= rows.drop_last());
        }
    } else {
        lemma_rows_prefix(rows.drop_last(), k);
        assert(rows.drop_last().take(k) =~= rows.take(k));
    }
}

/// The rows of several files together: a plan has to see all of the data, not the first file.
pub fn total_rows(rows: &[u64]) -> (r: u64)
    requires
        rows_of_all(rows@) <= u64::MAX,
    ensures
        r == rows_of_all(rows@),
{
    let mut sum: u64 = 0;
    let mut i: usize = 0;
    assert(rows@.take(0) =~= Seq::<u64>::empty());
    while i < rows.len()
        invariant
            i <= rows@.len(),
            sum == rows_of_all(rows@.take(i as int)),
            rows_of_all(rows@) <= u64::MAX,
        decreases rows.len() - i,
    {
        proof {
            assert(rows@.take(i + 1).drop_last() =~= rows@.take(i as int));
            lemma_rows_prefix(rows@, i + 1);
        }
        sum = sum + rows[i];
        i += 1;
    }
    assert(rows@.take(i as int) =~= rows@);
    sum
}

/// Why a job has no geometry.
#[derive(Clone, Copy, Debug, PartialEq, Eq, Structural)]
pub enum PlanFailure {
    /// On a device, a source that knows its rows only once it is open needs a width to open with.
    WidthNeeded,
    Blocking(BlockingError),
    /// The plan made after opening has another width than the open source.
    WidthChanged { opened: usize, planned: usize },
}

/// The geometry of a job. A deferred one has so far only the width that the source opens with.
#[derive(Clone, Copy, Debug, PartialEq, Eq, Structural)]
pub struct FileJob {
    pub geometry: Geometry,
    pub plan: BlockingPlan,
    pub deferred: bool,
}

/// What comes of planning before a source is open.
pub open spec fn is_plan_before_open(
    r: Result<FileJob, PlanFailure>,
    g: Geometry,
    requested_cols: Option<usize>,
    device: Option<DeviceMemory>,
    n_features: usize,
    n_rows: Option<u64>,
    effective_nthread: usize,
) -> bool {
    if device is Some && n_rows is None {
        if requested_cols is Some && requested_cols->0 > 0 {
            let cols = requested_cols->0;
            r matches Ok(job) && job.deferred && job.plan.effective == cols
                && job.plan.requested == requested_cols && job.plan.n_blocks
                == super::blocking::blocks_of(n_features as int, cols as int)
                && job.plan.nthread == g.nthread && job.plan.hist_streams is None
                && job.plan.resident_blocks is None && job.plan.effective_gpu_budget is None
                && job.geometry == (Geometry { cols_per_block: cols, ..g })
        } else {
            r == Err::<FileJob, PlanFailure>(PlanFailure::WidthNeeded)
        }
    } else {
        match r {
            Ok(job) => !job.deferred && super::blocking::is_blocking(
                Ok(job.plan),
                g,
                requested_cols,
                device,
                n_features,
                n_rows,
                effective_nthread,
            ) && job.geometry == super::blocking::applied(
                Geometry { cols_per_block: job.plan.effective, ..g },
                job.plan,
            ),
            Err(e) => e matches PlanFailure::Blocking(b) && super::blocking::is_blocking(
                Err(b),
                g,
                requested_cols,
                device,
                n_features,
                n_rows,
                effective_nthread,
            ),
        }
    }
}

/// The geometry with which the source is opened. Where the rows are known, or no device takes
/// part, this is the whole plan. Where they are not, the width asked for is only used to open
/// the source, and the plan is completed after.
pub fn plan_before_open(
    g: Geometry,
    requested_cols: Option<usize>,
    device: Option<DeviceMemory>,
    n_features: usize,
    n_rows: Option<u64>,
    effective_nthread: usize,
) -> (r: Result<FileJob, PlanFailure>)
    requires
        super::blocking::blocking_fits(g, requested_cols, device, n_features, n_rows),
    ensures
        is_plan_before_open(
            r,
            g,
            requested_cols,
            device,
            n_features,
            n_rows,
            effective_nthread,
        ),
        r matches Ok(job) ==> job.plan.effective > 0,
{
    let mut geometry: Geometry = g;
    if device.is_some() && n_rows.is_none() {
        return match requested_cols {
            Some(c) => if c > 0 {
                let plan: BlockingPlan = BlockingPlan::explicit(c, n_features, g.nthread);
                geometry.cols_per_block = plan.effective;
                apply_resolved_geometry(&mut geometry, &plan);
                proof {
                    crate::math::lemma_ceil_div(
                        crate::math::imax(n_features as int, 1),
                        crate::math::imax(c as int, 1),
                    );
                }
                Ok(FileJob { geometry, plan, deferred: true })
            } else {
                Err(PlanFailure::WidthNeeded)
            },
            None => Err(PlanFailure::WidthNeeded),
        };
    }
    match resolve_blocking(&g, requested_cols, device, n_features, n_rows, effective_nthread) {
        Err(b) => Err(PlanFailure::Blocking(b)),
        Ok(plan) => {
            geometry.cols_per_block = plan.effective;
            apply_resolved_geometry(&mut geometry, &plan);
            Ok(FileJob { geometry, plan, deferred: false })
        },
    }
}

/// Completes a deferred plan with the rows that the open source has. The width is the one that
/// the source was opened with, or the job fails.
pub fn plan_after_open(
    job: &mut FileJob,
    requested_cols: Option<usize>,
    device: Option<DeviceMemory>,
    n_features: usize,
    n_rows: u64,
    effective_nthread: usize,
) -> (r: Result<(), PlanFailure>)
    requires
        old(job).deferred ==> super::blocking::blocking_fits(
            old(job).geometry,
            requested_cols,
            device,
            n_features,
            Some(n_rows),
        ),
    ensures
        !old(job).deferred ==> r is Ok && *final(job) == *old(job),
        r is Err ==> *final(job) == *old(job),
        old(job).deferred ==> match r {
            Ok(()) => {
                let completed = final(job).plan;
                &&& super::blocking::is_blocking(
                    Ok(completed),
                    old(job).geometry,
                    requested_cols,
                    device,
                    n_features,
                    Some(n_rows),
                    effective_nthread,
                )
                &&& completed.effective == old(job).geometry.cols_per_block
                &&& final(job).geometry == super::blocking::applied(old(job).geometry, completed)
                &&& !final(job).deferred
            },
            Err(PlanFailure::Blocking(b)) => super::blocking::is_blocking(
                Err(b),
                old(job).geometry,
                requested_cols,
                device,
                n_features,
                Some(n_rows),
                effective_nthread,
            ),
            Err(PlanFailure::WidthChanged { opened, planned }) => opened
                == old(job).geometry.cols_per_block && planned != opened && exists|
                completed: BlockingPlan,
            |
                completed.effective == planned && #[trigger] super::blocking::is_blocking(
                    Ok(completed),
                    old(job).geometry,
                    requested_cols,
                    device,
                    n_features,
                    Some(n_rows),
                    effective_nthread,
                ),
            Err(PlanFailure::WidthNeeded) => false,
        },
{
    if !job.deferred {
        return Ok(());
    }
    let opened: usize = job.geometry.cols_per_block;
    match resolve_blocking(
        &job.geometry,
        requested_cols,
        device,
        n_features,
        Some(n_rows),
        effective_nthread,
    ) {
        Err(b) => Err(PlanFailure::Blocking(b)),
        Ok(completed) => {
            if completed.effective != opened {
                return Err(
                    PlanFailure::WidthChanged { opened, planned: completed.effective },
                );
            }
            let mut geometry: Geometry = job.geometry;
            apply_resolved_geometry(&mut geometry, &completed);
            *job = FileJob { geometry, plan: completed, deferred: false };
            Ok(())
        },
    }
}

/// How the data of a job is held.
#[derive(Clone, Copy, Debug, PartialEq, Eq, Structural)]
pub enum Route {
    /// Blocks of one Parquet file are read when they are needed, or kept in a cache.
    BlockByBlock,
    /// All files are quantized and stay in memory.
    InMemory,
}

/// How the data of a job is held.
pub fn route(format: InputFormat, n_files: usize) -> (r: Route)
    ensures
        r == if format == InputFormat::Parquet && n_files == 1 {
            Route::BlockByBlock
        } else {
            Route::InMemory
        },
{
    match format {
        InputFormat::Parquet => if n_files == 1 {
            Route::BlockByBlock
        } else {
            Route::InMemory
        },
        InputFormat::Csv => Route::InMemory,
    }
}

/// Is an evaluation set of the format that the training set has?
pub fn eval_format_ok(train: InputFormat, eval: InputFormat) -> (r: bool)
    ensures
        r == (train == eval),
{
    train == eval
}

/// Why a table in memory is refused.
#[derive(Clone, Copy, Debug, PartialEq, Eq, Structural)]
pub enum TableError {
    Labels { labels: usize, rows: usize },
    Columns { got: usize, expected: usize },
}

/// A training table has a label for each row.
pub fn check_labels(labels: usize, rows: usize) -> (r: Result<(), TableError>)
    ensures
        r == if labels != rows {
            Err::<(), TableError>(TableError::Labels { labels, rows })
        } else {
            Ok(())
        },
{
    if labels != rows {
        return Err(TableError::Labels { labels, rows });
    }
    Ok(())
}

/// An evaluation table has the columns of the training table, and a table to predict has those
/// of the model.
pub fn check_columns(got: usize, expected: usize) -> (r: Result<(), TableError>)
    ensures
        r == if got != expected {
            Err::<(), TableError>(TableError::Columns { got, expected })
        } else {
            Ok(())
        },
{
    if got != expected {
        return Err(TableError::Columns { got, expected });
    }
    Ok(())
}

/// How files are bound to a model whose names and mode belong together.
pub open spec fn schema_settled(m: Model) -> bool {
    m.schema_mode == Some(
        if m.feature_names@.len() == 0 {
            SchemaMode::Positional
        } else {
            SchemaMode::Named
        },
    )
}

/// Gives a trained model its feature names. Names and mode are set together: a model with names
/// is bound by name, one without by position.
pub fn finish(model: &mut Model, feature_names: Vec<String>)
    ensures
        final(model).feature_names == feature_names,
        schema_settled(*final(model)),
        *final(model) == (Model {
            feature_names: final(model).feature_names,
            schema_mode: final(model).schema_mode,
            ..*old(model)
        }),
{
    model.schema_mode = Some(
        if feature_names.len() == 0 {
            SchemaMode::Positional
        } else {
            SchemaMode::Named
        },
    );
    model.feature_names = feature_names;
}

} // verus!
