//! What a training job does up to the first round: settle the geometry, quantize the training
//! data, and quantize the evaluation data with the boundaries of the training data.
use arrow::error::ArrowError;
use vstd::prelude::*;
use vstd::string::*;

use super::blocking::{
    applied, apply_resolved_geometry, blocking_fits, is_blocking, resolve_blocking, BlockingError,
    BlockingPlan, DeviceMemory, Geometry,
};
use super::train::{
    check_columns, check_labels, is_label_choice, is_plan_before_open, label_of, plan_before_open,
    FileJob, LabelArg, LabelChoice, LabelError, PlanFailure, TableError,
};
use crate::columns::{BinCuts, BinningStrategy};
use crate::float32::F32;
use crate::sketch::summary::RankMath;
use crate::source::csv_open::{
    count_features, is_count, is_outcome, is_peek, open_many_with_readers, peeks, CsvOpenError,
    Dataset, Fields, Readers,
};
use crate::source::csv_table::{csv_fields, fields_of, inferred_columns, ColumnKind, INFER_ROWS};
use crate::source::dense::{copy_cuts, holds, is_sketch_cuts, same_cuts, DenseSource};
use crate::source::input::InputFormat;
use crate::source::schema::{positional_label_name, SchemaError};

verus! {

/// A row-major matrix.
pub struct DenseTable<'a> {
    pub data: &'a [F32],
    pub n_rows: usize,
    pub n_features: usize,
}

impl DenseTable<'_> {
    /// There is a value for each row and feature, and features can be numbered.
    pub open spec fn wf(&self) -> bool {
        &&& self.data@.len() == self.n_rows * self.n_features
        &&& self.n_features <= u32::MAX
    }
}

/// A job whose data is in memory.
pub struct DenseJob {
    pub source: DenseSource,
    pub evals: Vec<DenseSource>,
    pub plan: BlockingPlan,
    pub geometry: Geometry,
}

/// Why a job with data in memory cannot start.
#[derive(Clone, Copy, Debug, PartialEq, Eq, Structural)]
pub enum DenseJobError {
    Table(TableError),
    Blocking(BlockingError),
    /// The sketch gave cuts that are not finite or do not rise.
    Cuts,
    /// The first evaluation table that does not fit the training table.
    Eval { at: usize, error: TableError },
}

/// A source holds a table in blocks of a width.
pub open spec fn holds_table(s: DenseSource, x: DenseTable, cols: usize) -> bool {
    &&& s.table.wf()
    &&& s.table.n_rows == x.n_rows
    &&& s.table.n_features == x.n_features
    &&& s.table.cols_per_block == cols
    &&& holds(s.table, x.data@, x.n_rows as int, x.n_features as int)
}

/// Evaluation tables have the columns of the training table up to `at`, which has not.
pub open spec fn is_first_odd_eval(evals: Seq<DenseTable>, n_features: usize, at: int) -> bool {
    &&& 0 <= at < evals.len()
    &&& evals[at].n_features != n_features
    &&& forall|i: int| 0 <= i < at ==> (#[trigger] evals[i]).n_features == n_features
}

/// A training table and its evaluation tables, ready for the first round. The geometry is settled
/// before the data is quantized; the evaluation tables get the boundaries of the training table.
pub fn open_dense_job<
    P: Fn(F32, F32) -> F32 + Sync,
    B: Fn(F32, F32, F32, usize, usize) -> bool + Sync,
    M: Fn(F32, F32) -> F32 + Sync,
>(
    x: &DenseTable,
    n_labels: usize,
    evals: &[DenseTable],
    g: Geometry,
    requested_cols: Option<usize>,
    device: Option<DeviceMemory>,
    effective_nthread: usize,
    math: &RankMath<P, B, M>,
) -> (r: Result<DenseJob, DenseJobError>)
    requires
        x.wf(),
        forall|i: int| 0 <= i < evals@.len() ==> (#[trigger] evals@[i]).wf(),
        g.max_bin <= crate::types::MAX_BIN_LIMIT,
        blocking_fits(g, requested_cols, device, x.n_features, Some(x.n_rows as u64)),
        math.ok(),
    ensures
        match r {
            Err(DenseJobError::Table(e)) => n_labels != x.n_rows && e == (TableError::Labels {
                labels: n_labels,
                rows: x.n_rows,
            }),
            Err(DenseJobError::Blocking(b)) => n_labels == x.n_rows && is_blocking(
                Err(b),
                g,
                requested_cols,
                device,
                x.n_features,
                Some(x.n_rows as u64),
                effective_nthread,
            ),
            Err(DenseJobError::Cuts) => n_labels == x.n_rows && is_sketch_cuts(
                *math,
                x.data@,
                x.n_rows as int,
                x.n_features as int,
                g.max_bin as usize,
                None,
            ),
            Err(DenseJobError::Eval { at, error }) => n_labels == x.n_rows && is_first_odd_eval(
                evals@,
                x.n_features,
                at as int,
            ) && error == (TableError::Columns {
                got: evals@[at as int].n_features,
                expected: x.n_features,
            }),
            Ok(job) => {
                &&& n_labels == x.n_rows
                &&& is_blocking(
                    Ok(job.plan),
                    g,
                    requested_cols,
                    device,
                    x.n_features,
                    Some(x.n_rows as u64),
                    effective_nthread,
                )
                &&& job.geometry == applied(
                    Geometry { cols_per_block: job.plan.effective, ..g },
                    job.plan,
                )
                &&& holds_table(job.source, *x, job.plan.effective)
                &&& is_sketch_cuts(
                    *math,
                    x.data@,
                    x.n_rows as int,
                    x.n_features as int,
                    g.max_bin as usize,
                    Some(job.source.table.cuts),
                )
                &&& job.evals@.len() == evals@.len()
                &&& forall|i: int|
                    0 <= i < evals@.len() ==> holds_table(
                        #[trigger] job.evals@[i],
                        evals@[i],
                        job.plan.effective,
                    ) && same_cuts(job.evals@[i].table.cuts, job.source.table.cuts)
            },
        },
{
    match check_labels(n_labels, x.n_rows) {
        Err(e) => {
            return Err(DenseJobError::Table(e));
        },
        Ok(()) => {},
    }
    let plan: BlockingPlan = match resolve_blocking(
        &g,
        requested_cols,
        device,
        x.n_features,
        Some(x.n_rows as u64),
        effective_nthread,
    ) {
        Err(b) => {
            return Err(DenseJobError::Blocking(b));
        },
        Ok(p) => p,
    };
    let mut geometry: Geometry = g;
    geometry.cols_per_block = plan.effective;
    apply_resolved_geometry(&mut geometry, &plan);
    let source: DenseSource = match DenseSource::new(
        x.data,
        x.n_rows,
        x.n_features,
        BinningStrategy::Sketch { max_bins: g.max_bin as usize },
        plan.effective,
        math,
    ) {
        None => {
            return Err(DenseJobError::Cuts);
        },
        Some(s) => s,
    };
    let mut quantized: Vec<DenseSource> = Vec::new();
    let mut i: usize = 0;
    while i < evals.len()
        invariant
            i <= evals@.len(),
            n_labels == x.n_rows,
            x.wf(),
            math.ok(),
            plan.effective > 0,
            holds_table(source, *x, plan.effective),
            forall|k: int| 0 <= k < evals@.len() ==> (#[trigger] evals@[k]).wf(),
            forall|k: int| 0 <= k < i ==> (#[trigger] evals@[k]).n_features == x.n_features,
            quantized@.len() == i,
            forall|k: int|
                0 <= k < i ==> holds_table(#[trigger] quantized@[k], evals@[k], plan.effective)
                    && same_cuts(quantized@[k].table.cuts, source.table.cuts),
        decreases evals.len() - i,
    {
        let e: &DenseTable = &evals[i];
        assert(evals@[i as int].wf());
        match check_columns(e.n_features, x.n_features) {
            Err(error) => {
                assert(is_first_odd_eval(evals@, x.n_features, i as int));
                return Err(DenseJobError::Eval { at: i, error });
            },
            Ok(()) => {},
        }
        let one: Option<DenseSource> = DenseSource::new(
            e.data,
            e.n_rows,
            e.n_features,
            BinningStrategy::Provided(&source.table.cuts),
            plan.effective,
            math,
        );
        match one {
            Some(s) => {
                quantized.push(s);
            },
            None => {
                assert(false);
            },
        }
        i += 1;
    }
    Ok(DenseJob { source, evals: quantized, plan, geometry })
}

/// A job whose data came from CSV texts. A deferred plan is completed with the rows of the data.
pub struct CsvJob {
    pub label: String,
    pub n_features: usize,
    pub job: FileJob,
    pub data: Dataset,
    pub evals: Vec<Dataset>,
}

/// Why a job on CSV texts cannot start.
pub enum CsvJobError {
    NoFile,
    /// The columns of the first text cannot be told.
    Infer(ArrowError),
    Label(LabelError),
    /// The label column does not exist, or there is no other.
    Column(SchemaError),
    Plan(PlanFailure),
    Open(CsvOpenError),
    /// The first evaluation set that cannot be opened.
    Eval { at: usize, error: CsvOpenError },
}

/// The name of the label column of a job, among the columns of its first text.
pub open spec fn is_job_label(
    fields: Seq<(Seq<char>, ColumnKind)>,
    header: bool,
    label: LabelArg,
    name: Seq<char>,
) -> bool {
    match label {
        LabelArg::Name(n) => header && name == n@,
        LabelArg::Index(i) => !header && 0 <= i < fields.len() && fields.len() > 1 && name
            == fields[i as int].0,
        LabelArg::Other => false,
    }
}

/// Why a label that is given by its number has no name.
pub open spec fn is_position_error(
    fields: Seq<(Seq<char>, ColumnKind)>,
    header: bool,
    label: LabelArg,
    e: SchemaError,
) -> bool {
    match label {
        LabelArg::Index(i) => !header && 0 <= i && if i >= fields.len() {
            e == (SchemaError::LabelPosition { index: i as usize, columns: fields.len() as usize })
        } else {
            fields.len() == 1 && e == SchemaError::NoFeatures
        },
        _ => false,
    }
}

/// Why a job has no label or no features.
#[derive(Clone, Copy, Debug, PartialEq, Eq, Structural)]
pub enum JobNameError {
    Label(LabelError),
    /// The label column does not exist, or there is no other.
    Column(SchemaError),
}

/// The label and the number of features of a job, from the columns of its first text.
pub open spec fn is_job_name(
    f: Seq<(String, ColumnKind)>,
    header: bool,
    label: LabelArg,
    r: Result<(String, usize), JobNameError>,
) -> bool {
    match r {
        Ok((name, n)) => is_job_label(fields_of(f), header, label, name@) && is_count(
            f,
            name@,
            Ok(n),
        ),
        Err(JobNameError::Label(e)) => is_label_choice(InputFormat::Csv, header, label, Err(e)),
        Err(JobNameError::Column(e)) => {
            ||| is_position_error(fields_of(f), header, label, e)
            ||| exists|name: Seq<char>| #[trigger]
                is_job_label(fields_of(f), header, label, name) && is_count(f, name, Err(e))
        },
    }
}

/// The label and the number of features of a job, from the columns of its first text.
pub fn name_job(fields: &Fields, header: bool, label: LabelArg) -> (r: Result<
    (String, usize),
    JobNameError,
>)
    ensures
        is_job_name(fields@, header, label, r),
{
    let ghost f = fields_of(fields@);
    let name: String = match label_of(InputFormat::Csv, header, label) {
        Err(e) => {
            return Err(JobNameError::Label(e));
        },
        Ok(LabelChoice::Name(n)) => n,
        Ok(LabelChoice::Position(at)) => {
            let mut names: Vec<String> = Vec::new();
            let mut i: usize = 0;
            while i < fields.len()
                invariant
                    i <= fields@.len(),
                    names@.len() == i,
                    forall|k: int| 0 <= k < i ==> (#[trigger] names@[k])@ == fields@[k].0@,
                decreases fields.len() - i,
            {
                let field: &(String, ColumnKind) = &fields[i];
                let name: String = field.0.clone();
                assert(name@ == fields@[i as int].0@);
                names.push(name);
                i += 1;
            }
            match positional_label_name(names.as_slice(), at) {
                Err(e) => {
                    proof {
                        assert(names@.len() == f.len());
                        assert(names.len() == names@.len());
                        assert(label matches LabelArg::Index(i) && i == at);
                        assert(is_position_error(f, header, label, e));
                    }
                    return Err(JobNameError::Column(e));
                },
                Ok(n) => {
                    assert(f[at as int].0 == names@[at as int]@);
                    n
                },
            }
        },
    };
    assert(is_job_label(f, header, label, name@));
    match count_features(fields, name.as_str()) {
        Err(e) => Err(JobNameError::Column(e)),
        Ok(n) => Ok((name, n)),
    }
}

/// The columns of a text can be told.
pub open spec fn has_columns(text: Seq<u8>, header: bool) -> bool {
    inferred_columns(text, header, INFER_ROWS as int) is Some
}

/// The name of the label column of a job, from its first text.
pub open spec fn is_label_name(
    text: Seq<u8>,
    header: bool,
    label: LabelArg,
    name: Seq<char>,
) -> bool {
    &&& has_columns(text, header)
    &&& is_job_label(
        inferred_columns(text, header, INFER_ROWS as int)->0,
        header,
        label,
        name,
    )
}

/// The label and the number of features of a job, from the first text.
pub open spec fn is_named_job(
    texts: Seq<Vec<u8>>,
    header: bool,
    label: LabelArg,
    name: Seq<char>,
    n_features: usize,
) -> bool {
    &&& texts.len() > 0
    &&& is_label_name(texts[0]@, header, label, name)
    &&& is_peek(texts[0]@, header, name, Ok(n_features))
}

/// Everything that the planning of a job goes by, but its data.
pub struct JobArgs {
    pub geometry: Geometry,
    pub requested_cols: Option<usize>,
    pub device: Option<DeviceMemory>,
    pub effective_nthread: usize,
}

/// What comes of planning a job on texts, whose rows are not known before they are read.
pub open spec fn is_text_plan(
    r: Result<FileJob, PlanFailure>,
    args: JobArgs,
    n_features: usize,
) -> bool {
    is_plan_before_open(
        r,
        args.geometry,
        args.requested_cols,
        args.device,
        n_features,
        None,
        args.effective_nthread,
    )
}

/// The label, the number of features and the geometry of a job on texts.
pub struct PlannedCsv {
    pub label: String,
    pub n_features: usize,
    pub job: FileJob,
}

/// Why a job on texts cannot be planned.
#[derive(Clone, Copy, Debug, PartialEq, Eq, Structural)]
pub enum CsvPlanError {
    Label(LabelError),
    /// The label column does not exist, or there is no other.
    Column(SchemaError),
    Plan(PlanFailure),
}

/// Names and plans a job from the columns of its first text: first the label, then the number of
/// features, then the geometry.
pub fn plan_csv_job(fields: &Fields, header: bool, label: LabelArg, args: &JobArgs) -> (r: Result<
    PlannedCsv,
    CsvPlanError,
>)
    requires
        args.geometry.max_bin <= crate::types::MAX_BIN_LIMIT,
    ensures
        match r {
            Ok(p) => {
                &&& is_job_name(fields@, header, label, Ok((p.label, p.n_features)))
                &&& is_text_plan(Ok(p.job), *args, p.n_features)
                &&& p.job.plan.effective > 0
            },
            Err(CsvPlanError::Label(e)) => is_job_name(
                fields@,
                header,
                label,
                Err(JobNameError::Label(e)),
            ),
            Err(CsvPlanError::Column(e)) => is_job_name(
                fields@,
                header,
                label,
                Err(JobNameError::Column(e)),
            ),
            Err(CsvPlanError::Plan(e)) => exists|name: String, n: usize| #[trigger]
                is_job_name(fields@, header, label, Ok((name, n))) && is_text_plan(Err(e), *args, n),
        },
{
    let ghost asked = label;
    let (name, n_features): (String, usize) = match name_job(fields, header, label) {
        Err(JobNameError::Label(e)) => {
            return Err(CsvPlanError::Label(e));
        },
        Err(JobNameError::Column(e)) => {
            return Err(CsvPlanError::Column(e));
        },
        Ok(v) => v,
    };
    assert(is_job_name(fields@, header, asked, Ok((name, n_features))));
    match plan_before_open(
        args.geometry,
        args.requested_cols,
        args.device,
        n_features,
        None,
        args.effective_nthread,
    ) {
        Err(e) => Err(CsvPlanError::Plan(e)),
        Ok(job) => Ok(PlannedCsv { label: name, n_features, job }),
    }
}

/// A job on texts has this label, number of features and plan.
pub open spec fn is_planned_job(
    texts: Seq<Vec<u8>>,
    header: bool,
    label: LabelArg,
    args: JobArgs,
    name: Seq<char>,
    n_features: usize,
    job: FileJob,
) -> bool {
    &&& is_named_job(texts, header, label, name, n_features)
    &&& is_text_plan(Ok(job), args, n_features)
}

/// Why a job on texts has no plan.
pub open spec fn is_plan_failure(
    texts: Seq<Vec<u8>>,
    header: bool,
    label: LabelArg,
    args: JobArgs,
    e: PlanFailure,
) -> bool {
    exists|name: Seq<char>, n_features: usize| #[trigger]
        is_named_job(texts, header, label, name, n_features) && is_text_plan(
            Err(e),
            args,
            n_features,
        )
}

/// A label column that does not exist, or that leaves no features.
pub open spec fn is_column_error(
    texts: Seq<Vec<u8>>,
    header: bool,
    label: LabelArg,
    e: SchemaError,
) -> bool {
    ||| has_columns(texts[0]@, header) && is_position_error(
        inferred_columns(texts[0]@, header, INFER_ROWS as int)->0,
        header,
        label,
        e,
    )
    ||| exists|name: Seq<char>| #[trigger]
        is_label_name(texts[0]@, header, label, name) && is_peek(texts[0]@, header, name, Err(e))
}

/// The training data of a planned job cannot be opened.
pub open spec fn is_data_failure<
    P: Fn(F32, F32) -> F32 + Sync,
    B: Fn(F32, F32, F32, usize, usize) -> bool + Sync,
    M: Fn(F32, F32) -> F32 + Sync,
>(
    math: RankMath<P, B, M>,
    texts: Seq<Vec<u8>>,
    header: bool,
    label: LabelArg,
    args: JobArgs,
    readers: Readers,
    e: CsvOpenError,
) -> bool {
    exists|name: Seq<char>, n_features: usize, job: FileJob| #[trigger]
        is_planned_job(texts, header, label, args, name, n_features, job) && is_outcome(
            math,
            texts,
            name,
            header,
            readers,
            None,
            args.geometry.max_bin,
            job.plan.effective,
            Err(e),
        )
}

/// What comes of opening an evaluation set with the boundaries of the training data.
pub open spec fn is_eval<
    P: Fn(F32, F32) -> F32 + Sync,
    B: Fn(F32, F32, F32, usize, usize) -> bool + Sync,
    M: Fn(F32, F32) -> F32 + Sync,
>(
    math: RankMath<P, B, M>,
    texts: Seq<Vec<u8>>,
    name: Seq<char>,
    header: bool,
    readers: Readers,
    cuts: BinCuts,
    max_bins: u32,
    cols: usize,
    r: Result<Dataset, CsvOpenError>,
) -> bool {
    exists|c: BinCuts| #[trigger]
        same_cuts(c, cuts) && is_outcome(
            math,
            texts,
            name,
            header,
            readers,
            Some(c),
            max_bins,
            cols,
            r,
        )
}

/// A job on texts, ready for the first round but for a deferred plan.
pub open spec fn is_job<
    P: Fn(F32, F32) -> F32 + Sync,
    B: Fn(F32, F32, F32, usize, usize) -> bool + Sync,
    M: Fn(F32, F32) -> F32 + Sync,
>(
    math: RankMath<P, B, M>,
    texts: Seq<Vec<u8>>,
    header: bool,
    label: LabelArg,
    args: JobArgs,
    readers: Readers,
    j: CsvJob,
) -> bool {
    &&& is_planned_job(texts, header, label, args, j.label@, j.n_features, j.job)
    &&& is_outcome(
        math,
        texts,
        j.label@,
        header,
        readers,
        None,
        args.geometry.max_bin,
        j.job.plan.effective,
        Ok(j.data),
    )
}

/// The first `k` evaluation sets are opened.
pub open spec fn are_evals<
    P: Fn(F32, F32) -> F32 + Sync,
    B: Fn(F32, F32, F32, usize, usize) -> bool + Sync,
    M: Fn(F32, F32) -> F32 + Sync,
>(
    math: RankMath<P, B, M>,
    evals: Seq<Vec<Vec<u8>>>,
    header: bool,
    args: JobArgs,
    readers: Readers,
    j: CsvJob,
    opened: Seq<Dataset>,
    k: int,
) -> bool {
    &&& opened.len() == k
    &&& forall|i: int|
        0 <= i < k ==> is_eval(
            math,
            evals[i]@,
            j.label@,
            header,
            readers,
            j.data.source.table.cuts,
            args.geometry.max_bin,
            j.job.plan.effective,
            Ok(#[trigger] opened[i]),
        )
}

/// An evaluation set of a job cannot be opened, and those before it can.
pub open spec fn is_eval_failure<
    P: Fn(F32, F32) -> F32 + Sync,
    B: Fn(F32, F32, F32, usize, usize) -> bool + Sync,
    M: Fn(F32, F32) -> F32 + Sync,
>(
    math: RankMath<P, B, M>,
    texts: Seq<Vec<u8>>,
    evals: Seq<Vec<Vec<u8>>>,
    header: bool,
    label: LabelArg,
    args: JobArgs,
    readers: Readers,
    at: int,
    e: CsvOpenError,
) -> bool {
    &&& 0 <= at < evals.len()
    &&& exists|j: CsvJob|
        {
            &&& #[trigger] is_job(math, texts, header, label, args, readers, j)
            &&& are_evals(math, evals, header, args, readers, j, j.evals@, at)
            &&& is_eval(
                math,
                evals[at]@,
                j.label@,
                header,
                readers,
                j.data.source.table.cuts,
                args.geometry.max_bin,
                j.job.plan.effective,
                Err(e),
            )
        }
}

/// Opens CSV texts and evaluation sets for training. The label, the number of features and the
/// plan come from the first text; the boundaries come from the training data, and the evaluation
/// sets are quantized with them.
pub fn open_csv_job<
    P: Fn(F32, F32) -> F32 + Sync,
    B: Fn(F32, F32, F32, usize, usize) -> bool + Sync,
    M: Fn(F32, F32) -> F32 + Sync,
>(
    texts: &[Vec<u8>],
    evals: &[Vec<Vec<u8>>],
    header: bool,
    label: LabelArg,
    args: JobArgs,
    readers: Readers,
    math: &RankMath<P, B, M>,
) -> (r: Result<CsvJob, CsvJobError>)
    requires
        args.geometry.max_bin <= crate::types::MAX_BIN_LIMIT,
        math.ok(),
    ensures
        match r {
            Err(CsvJobError::NoFile) => texts@.len() == 0,
            Err(CsvJobError::Infer(_)) => texts@.len() > 0 && !has_columns(texts@[0]@, header),
            Err(CsvJobError::Label(e)) => texts@.len() > 0 && has_columns(texts@[0]@, header)
                && is_label_choice(InputFormat::Csv, header, label, Err(e)),
            Err(CsvJobError::Column(e)) => texts@.len() > 0 && is_column_error(
                texts@,
                header,
                label,
                e,
            ),
            Err(CsvJobError::Plan(e)) => is_plan_failure(texts@, header, label, args, e),
            Err(CsvJobError::Open(e)) => is_data_failure(
                *math,
                texts@,
                header,
                label,
                args,
                readers,
                e,
            ),
            Err(CsvJobError::Eval { at, error }) => is_eval_failure(
                *math,
                texts@,
                evals@,
                header,
                label,
                args,
                readers,
                at as int,
                error,
            ),
            Ok(j) => {
                &&& is_job(*math, texts@, header, label, args, readers, j)
                &&& are_evals(
                    *math,
                    evals@,
                    header,
                    args,
                    readers,
                    j,
                    j.evals@,
                    evals@.len() as int,
                )
            },
        },
{
    let ghost asked = label;
    if texts.len() == 0 {
        return Err(CsvJobError::NoFile);
    }
    let first: &[u8] = texts[0].as_slice();
    let fields: Fields = match csv_fields(first, header) {
        Err(e) => {
            return Err(CsvJobError::Infer(e));
        },
        Ok(f) => f,
    };
    let planned: PlannedCsv = match plan_csv_job(&fields, header, label, &args) {
        Err(CsvPlanError::Label(e)) => {
            return Err(CsvJobError::Label(e));
        },
        Err(CsvPlanError::Plan(e)) => {
            proof {
                let (name, n) = choose|name: String, n: usize| #[trigger]
                    is_job_name(fields@, header, asked, Ok((name, n))) && is_text_plan(
                        Err(e),
                        args,
                        n,
                    );
                assert(peeks(texts@[0]@, header, name@, fields, Ok(n)));
                assert(is_named_job(texts@, header, asked, name@, n));
            }
            return Err(CsvJobError::Plan(e));
        },
        Err(CsvPlanError::Column(e)) => {
            proof {
                let f = fields_of(fields@);
                if !is_position_error(f, header, asked, e) {
                    let name = choose|name: Seq<char>| #[trigger]
                        is_job_label(f, header, asked, name) && is_count(fields@, name, Err(e));
                    assert(peeks(texts@[0]@, header, name, fields, Err(e)));
                    assert(is_label_name(texts@[0]@, header, asked, name));
                }
            }
            return Err(CsvJobError::Column(e));
        },
        Ok(p) => p,
    };
    let name: String = planned.label;
    let n_features: usize = planned.n_features;
    let job: FileJob = planned.job;
    assert(peeks(texts@[0]@, header, name@, fields, Ok(n_features)));
    let g: Geometry = args.geometry;
    assert(is_named_job(texts@, header, asked, name@, n_features));
    let cols: usize = job.plan.effective;
    assert(is_planned_job(texts@, header, asked, args, name@, n_features, job));
    let data: Dataset = match open_many_with_readers(
        texts,
        name.as_str(),
        None,
        g.max_bin,
        cols,
        header,
        readers,
        math,
    ) {
        Err(e) => {
            return Err(CsvJobError::Open(e));
        },
        Ok(d) => d,
    };
    let ghost none: Vec<Dataset> = arbitrary();
    let ghost bare = CsvJob { label: name, n_features, job, data, evals: none };
    assert(data.source.table.cuts.wf());
    let mut opened: Vec<Dataset> = Vec::new();
    let mut i: usize = 0;
    while i < evals.len()
        invariant
            i <= evals@.len(),
            math.ok(),
            args.geometry.max_bin <= crate::types::MAX_BIN_LIMIT,
            g == args.geometry,
            cols == job.plan.effective,
            cols > 0,
            data.source.table.cuts.wf(),
            bare.label == name,
            bare.n_features == n_features,
            bare.job == job,
            bare.data == data,
            is_job(*math, texts@, header, asked, args, readers, bare),
            asked == label,
            are_evals(*math, evals@, header, args, readers, bare, opened@, i as int),
        decreases evals.len() - i,
    {
        let cuts: BinCuts = copy_cuts(&data.source.table.cuts);
        let ghost given = cuts;
        let ghost before = opened@;
        match open_many_with_readers(
            evals[i].as_slice(),
            name.as_str(),
            Some(cuts),
            g.max_bin,
            cols,
            header,
            readers,
            math,
        ) {
            Err(error) => {
                proof {
                    assert(same_cuts(given, data.source.table.cuts));
                    let j = CsvJob { evals: opened, ..bare };
                    assert(is_job(*math, texts@, header, asked, args, readers, j));
                    assert(are_evals(*math, evals@, header, args, readers, j, j.evals@, i as int));
                    assert(is_eval(
                        *math,
                        evals@[i as int]@,
                        name@,
                        header,
                        readers,
                        data.source.table.cuts,
                        g.max_bin,
                        cols,
                        Err(error),
                    ));
                    assert(is_eval_failure(
                        *math,
                        texts@,
                        evals@,
                        header,
                        asked,
                        args,
                        readers,
                        i as int,
                        error,
                    ));
                }
                return Err(CsvJobError::Eval { at: i, error });
            },
            Ok(d) => {
                proof {
                    assert(same_cuts(given, data.source.table.cuts));
                    assert(is_eval(
                        *math,
                        evals@[i as int]@,
                        name@,
                        header,
                        readers,
                        data.source.table.cuts,
                        g.max_bin,
                        cols,
                        Ok(d),
                    ));
                }
                opened.push(d);
                proof {
                    assert forall|k: int| 0 <= k < i + 1 implies is_eval(
                        *math,
                        evals@[k]@,
                        name@,
                        header,
                        readers,
                        data.source.table.cuts,
                        g.max_bin,
                        cols,
                        Ok(#[trigger] opened@[k]),
                    ) by {
                        if k < i {
                            assert(opened@[k] == before[k]);
                        }
                    }
                }
            },
        }
        i += 1;
    }
    Ok(CsvJob { label: name, n_features, job, data, evals: opened })
}

} // verus!
