//! The start of training jobs, and what is read of a caller's arguments.
use ferrisboost::backend::cuda::settings::{is_off, is_on, EnvTexts};
use ferrisboost::backend::cuda::train_ctx::{EnvNumber, EnvSwitch, TrainEnv};
use ferrisboost::callback::{evals_result, RoundMetrics};
use ferrisboost::float32::F32;
use ferrisboost::job::blocking::{blocking_ok, planning_ok, DeviceMemory, Geometry};
use ferrisboost::job::params::{path_specs_of, InputArg};
use ferrisboost::job::setup::{
    name_job, open_csv_job, open_dense_job, plan_csv_job, CsvJobError, CsvPlanError, DenseJobError,
    DenseTable, JobArgs, JobNameError,
};
use ferrisboost::job::train::{LabelArg, LabelError, PlanFailure, TableError};
use ferrisboost::sketch::summary::RankMath;
use ferrisboost::source::csv_open::{CsvOpenError, OpenError, Readers};
use ferrisboost::source::csv_table::csv_fields;
use ferrisboost::source::schema::SchemaError;
use ferrisboost::source::table::SourceError;

fn f(x: f32) -> F32 {
    F32::from_bits(x.to_bits())
}

fn v(x: F32) -> f32 {
    f32::from_bits(x.to_bits())
}

fn floats(xs: &[f32]) -> Vec<F32> {
    xs.iter().map(|&x| f(x)).collect()
}

fn math() -> RankMath<
    impl Fn(F32, F32) -> F32 + Sync,
    impl Fn(F32, F32, F32, usize, usize) -> bool + Sync,
    impl Fn(F32, F32) -> F32 + Sync,
> {
    RankMath {
        plus: |a: F32, b: F32| f(v(a) + v(b)),
        below: |rmin: F32, rmax: F32, total: F32, k: usize, n: usize| {
            0.5 * (v(rmin) + v(rmax)) < v(total) * (k as f32) / (n as f32)
        },
        half: |a: F32, b: F32| f(v(a) + (v(b) - v(a)) * 0.5),
    }
}

fn geometry() -> Geometry {
    Geometry {
        cols_per_block: 0,
        hist_streams: None,
        resident_blocks: None,
        gpu_memory_budget: None,
        nthread: 4,
        max_bin: 16,
        fast_math: false,
    }
}

fn args(requested_cols: Option<usize>, device: Option<DeviceMemory>) -> JobArgs {
    JobArgs { geometry: geometry(), requested_cols, device, effective_nthread: 4 }
}

const READERS: Readers = Readers { features: 2, labels: 4 };

fn texts(all: &[&str]) -> Vec<Vec<u8>> {
    all.iter().map(|t| t.as_bytes().to_vec()).collect()
}

#[test]
fn evaluation_tables_share_the_boundaries_of_training() {
    let data = floats(&[1.0, 10.0, 2.0, 20.0, 3.0, 30.0]);
    let eval = floats(&[2.5, 20.0]);
    let x = DenseTable { data: &data, n_rows: 3, n_features: 2 };
    let e = DenseTable { data: &eval, n_rows: 1, n_features: 2 };
    let job = open_dense_job(&x, 3, &[e], geometry(), Some(1), None, 4, &math())
        .unwrap_or_else(|e| panic!("{e:?}"));
    assert_eq!(job.plan.effective, 1);
    assert_eq!(job.geometry.cols_per_block, 1);
    assert_eq!(job.source.n_blocks(), 2);
    assert_eq!(job.evals.len(), 1);
    assert_eq!(job.evals[0].cuts().values, job.source.cuts().values);
    assert_eq!(job.evals[0].bin_at(0, 1), job.source.bin_at(1, 1));
    assert_eq!(job.evals[0].bin_at(0, 0), job.source.bin_at(2, 0));
}

#[test]
fn tables_that_do_not_fit_are_refused() {
    let data = floats(&[1.0, 10.0, 2.0, 20.0]);
    let x = || DenseTable { data: &data, n_rows: 2, n_features: 2 };
    let narrow = DenseTable { data: &data, n_rows: 4, n_features: 1 };
    let labels = open_dense_job(&x(), 3, &[], geometry(), None, None, 4, &math());
    assert_eq!(
        labels.err(),
        Some(DenseJobError::Table(TableError::Labels { labels: 3, rows: 2 }))
    );
    let columns = open_dense_job(&x(), 2, &[x(), narrow], geometry(), None, None, 4, &math());
    assert_eq!(
        columns.err(),
        Some(DenseJobError::Eval {
            at: 1,
            error: TableError::Columns { got: 1, expected: 2 }
        })
    );
}

const TRAIN: &str = "a,y,b\n1,0,10\n2,1,20\n3,0,30\n4,1,40\n";

#[test]
fn csv_jobs_open_training_and_evaluation_data() {
    let job = open_csv_job(
        &texts(&[TRAIN]),
        &[texts(&["a,b,y\n2,20,1\n"])],
        true,
        LabelArg::Name("y".to_string()),
        args(None, None),
        READERS,
        &math(),
    )
    .unwrap_or_else(|_| panic!("refused"));
    assert_eq!(job.label, "y");
    assert_eq!(job.n_features, 2);
    assert!(!job.job.deferred);
    assert_eq!(job.data.labels, floats(&[0.0, 1.0, 0.0, 1.0]));
    assert_eq!(job.data.feature_names, vec!["a".to_string(), "b".to_string()]);
    assert_eq!(job.evals.len(), 1);
    assert_eq!(job.evals[0].source.bin_at(0, 0), job.data.source.bin_at(1, 0));
    assert_eq!(job.evals[0].source.bin_at(0, 1), job.data.source.bin_at(1, 1));
}

#[test]
fn csv_jobs_find_the_label_by_its_number() {
    let job = open_csv_job(
        &texts(&["1,0,10\n2,1,20\n"]),
        &[],
        false,
        LabelArg::Index(1),
        args(Some(2), Some(DeviceMemory { free: 1 << 30, total: 1 << 31 })),
        READERS,
        &math(),
    )
    .unwrap_or_else(|_| panic!("refused"));
    assert!(job.job.deferred);
    assert_eq!(job.job.plan.effective, 2);
    assert_eq!(job.data.labels, floats(&[0.0, 1.0]));
    assert!(job.data.feature_names.is_empty());
}

#[test]
fn csv_jobs_say_why_they_cannot_start() {
    let run = |t: &[&str], evals: &[Vec<Vec<u8>>], header: bool, label: LabelArg, a: JobArgs| {
        open_csv_job(&texts(t), evals, header, label, a, READERS, &math()).err()
    };
    let y = || LabelArg::Name("y".to_string());
    let memory = DeviceMemory { free: 1 << 30, total: 1 << 31 };
    assert!(matches!(run(&[], &[], true, y(), args(None, None)), Some(CsvJobError::NoFile)));
    assert!(matches!(
        run(&[TRAIN], &[], true, LabelArg::Index(0), args(None, None)),
        Some(CsvJobError::Label(LabelError::NameWanted))
    ));
    assert!(matches!(
        run(&["1,2\n"], &[], false, LabelArg::Index(-1), args(None, None)),
        Some(CsvJobError::Label(LabelError::NegativeIndex { index: -1 }))
    ));
    assert!(matches!(
        run(&["1,2\n"], &[], false, LabelArg::Index(2), args(None, None)),
        Some(CsvJobError::Column(SchemaError::LabelPosition { index: 2, columns: 2 }))
    ));
    assert!(matches!(
        run(&["1\n2\n"], &[], false, LabelArg::Index(0), args(None, None)),
        Some(CsvJobError::Column(SchemaError::NoFeatures))
    ));
    assert!(matches!(
        run(&["a,b\n1,2\n"], &[], true, y(), args(None, None)),
        Some(CsvJobError::Column(SchemaError::NoLabel))
    ));
    assert!(matches!(
        run(&[TRAIN], &[], true, y(), args(None, Some(memory))),
        Some(CsvJobError::Plan(PlanFailure::WidthNeeded))
    ));
    assert!(matches!(
        run(&["a,y\n", ], &[], true, y(), args(None, None)),
        Some(CsvJobError::Open(_)) | Some(CsvJobError::Column(_))
    ));
    assert!(matches!(
        run(&[TRAIN], &[texts(&[TRAIN]), texts(&["a,y\n1,0\n"])], true, y(), args(None, None)),
        Some(CsvJobError::Eval {
            at: 1,
            error: CsvOpenError::Open(OpenError::Source(SourceError::ColumnCount {
                got: 1,
                expected: 2
            }))
        })
    ));
}

#[test]
fn columns_are_told_before_the_label_is_looked_at() {
    // A quoted field that is not text has no columns, whatever the label is.
    let broken = vec![b"a,y\n\xff,1\n".to_vec()];
    for label in [LabelArg::Index(0), LabelArg::Other, LabelArg::Name("nope".to_string())] {
        let r = open_csv_job(&broken, &[], true, label, args(None, None), READERS, &math());
        assert!(matches!(r.err(), Some(CsvJobError::Infer(_))));
    }
}

#[test]
fn csv_jobs_are_named_and_planned_from_their_columns() {
    let fields = csv_fields(TRAIN.as_bytes(), true).unwrap_or_else(|e| panic!("{e}"));
    let y = || LabelArg::Name("y".to_string());
    assert_eq!(name_job(&fields, true, y()), Ok(("y".to_string(), 2)));
    assert_eq!(
        name_job(&fields, false, y()),
        Err(JobNameError::Label(LabelError::IndexWanted))
    );
    assert_eq!(name_job(&fields, false, LabelArg::Index(2)), Ok(("b".to_string(), 2)));
    assert_eq!(
        name_job(&fields, true, LabelArg::Name("z".to_string())),
        Err(JobNameError::Column(SchemaError::NoLabel))
    );
    let p = match plan_csv_job(&fields, true, y(), &args(Some(1), None)) {
        Ok(p) => p,
        Err(e) => panic!("{e:?}"),
    };
    assert_eq!((p.label.as_str(), p.n_features), ("y", 2));
    assert_eq!((p.job.plan.effective, p.job.plan.n_blocks, p.job.deferred), (1, 2, false));
    let memory = DeviceMemory { free: 1 << 30, total: 1 << 31 };
    assert_eq!(
        plan_csv_job(&fields, true, y(), &args(None, Some(memory))).err(),
        Some(CsvPlanError::Plan(PlanFailure::WidthNeeded))
    );
    assert_eq!(
        plan_csv_job(&fields, true, LabelArg::Other, &args(None, Some(memory))).err(),
        Some(CsvPlanError::Label(LabelError::NameWanted))
    );
}

#[test]
fn plans_that_no_word_can_count_are_told_before() {
    let memory = DeviceMemory { free: 1 << 33, total: 1 << 34 };
    let g = geometry();
    assert!(planning_ok(&g, None, 100, 1_000_000, memory));
    assert!(blocking_ok(&g, None, Some(memory), 100, Some(1_000_000)));
    assert!(!planning_ok(&g, None, 100, u64::MAX / 37, memory));
    assert!(!blocking_ok(&g, None, Some(memory), 100, Some(u64::MAX / 37)));
    // Without rows, or on the host, nothing is counted.
    assert!(blocking_ok(&g, None, Some(memory), 100, None));
    assert!(blocking_ok(&g, None, None, 100, Some(u64::MAX)));
    let many = Geometry { hist_streams: Some(usize::MAX), ..g };
    assert!(!planning_ok(&many, None, 100, 1_000_000, memory));
    // What a block costs only counts where it is wide.
    let rows = 1u64 << 56;
    assert!(planning_ok(&g, None, 1 << 20, rows, memory));
    assert!(!planning_ok(&g, Some(1 << 20), 1 << 20, rows, memory));
}

#[test]
fn jobs_are_turned_down_in_words() {
    assert_eq!(
        LabelError::NegativeIndex { index: -12 }.message(),
        "label 列下标不能是负数,给的是 -12"
    );
    assert_eq!(
        LabelError::NegativeIndex { index: isize::MIN }.message(),
        format!("label 列下标不能是负数,给的是 {}", isize::MIN)
    );
    assert_eq!(LabelError::HeaderlessParquet.message(), "header=False 只适用于 CSV");
    assert_eq!(
        TableError::Labels { labels: 3, rows: 2 }.message(""),
        "标签有 3 个,特征矩阵有 2 行"
    );
    assert_eq!(
        TableError::Columns { got: 1, expected: 2 }.message("valid"),
        "验证集 valid 有 1 列,训练集是 2 列"
    );
    assert_eq!(
        PlanFailure::WidthChanged { opened: 4, planned: 5 }.message(),
        "deferred GPU planner changed source geometry from 4 to 5; explicit cols_per_block must be preserved"
    );
    let blocking = PlanFailure::Blocking(ferrisboost::job::blocking::BlockingError::RowsUnknown);
    assert!(blocking.message().starts_with("GPU 规划需要数据行数"));
}

#[test]
fn results_stand_in_the_order_of_first_appearance() {
    let entry = |e: &str, m: &str, x: f32| (e.to_string(), m.to_string(), f(x));
    let history = vec![
        RoundMetrics {
            round: 0,
            entries: vec![
                entry("valid", "rmse", 3.0),
                entry("train", "rmse", 2.0),
                entry("valid", "mae", 9.0),
            ],
        },
        RoundMetrics {
            round: 1,
            entries: vec![entry("train", "rmse", 1.0), entry("valid", "rmse", 2.5)],
        },
    ];
    let all = evals_result(&history);
    let told: Vec<(String, Vec<(String, Vec<f32>)>)> = all
        .into_iter()
        .map(|r| {
            let metrics = r
                .metrics
                .into_iter()
                .map(|m| (m.metric, m.values.into_iter().map(v).collect()))
                .collect();
            (r.eval, metrics)
        })
        .collect();
    assert_eq!(
        told,
        vec![
            (
                "valid".to_string(),
                vec![
                    ("rmse".to_string(), vec![3.0, 2.5]),
                    ("mae".to_string(), vec![9.0])
                ]
            ),
            ("train".to_string(), vec![("rmse".to_string(), vec![2.0, 1.0])]),
        ]
    );
    assert!(evals_result(&[]).is_empty());
}

#[test]
fn inputs_are_paths_or_a_matrix() {
    let none = || InputArg { is_matrix: false, text: None, texts: None, items: None, path: None };
    let s = |x: &str| x.to_string();
    let text = InputArg { text: Some(s("a.csv")), path: Some(s("b")), ..none() };
    assert_eq!(path_specs_of(text), Some(vec![s("a.csv")]));
    let list = InputArg { texts: Some(vec![s("a"), s("b")]), ..none() };
    assert_eq!(path_specs_of(list), Some(vec![s("a"), s("b")]));
    let items = InputArg {
        texts: Some(vec![]),
        items: Some(vec![Some(s("a")), Some(s("b"))]),
        ..none()
    };
    assert_eq!(path_specs_of(items), Some(vec![s("a"), s("b")]));
    let mixed = InputArg { items: Some(vec![Some(s("a")), None]), path: Some(s("p")), ..none() };
    assert_eq!(path_specs_of(mixed), Some(vec![s("p")]));
    let matrix = InputArg { is_matrix: true, text: Some(s("a")), ..none() };
    assert_eq!(path_specs_of(matrix), None);
    assert_eq!(path_specs_of(none()), None);
}

#[test]
fn settings_are_read_as_they_are_written() {
    let none = || EnvTexts {
        bucket_profile: None,
        hist_nodes_per_batch: None,
        row_major: None,
        resident_blocks: None,
        hist_streams: None,
        device_quantize: None,
        pinned: None,
    };
    let bare = TrainEnv::read(&none(), true);
    assert_eq!(bare.hist_nodes_per_batch, EnvNumber::Unset);
    assert_eq!(bare.row_major, EnvSwitch::Unset);
    assert!(!bare.bucket_profile && !bare.pinned && !bare.device_quantize_off);
    assert!(bare.tracks_events);
    let set = TrainEnv::read(
        &EnvTexts {
            bucket_profile: Some("1"),
            hist_nodes_per_batch: Some(" 8\n"),
            row_major: Some("\tfalse "),
            resident_blocks: Some("3"),
            hist_streams: Some(" 2"),
            device_quantize: Some("0"),
            pinned: Some("yes"),
        },
        false,
    );
    assert!(set.bucket_profile);
    assert_eq!(set.hist_nodes_per_batch, EnvNumber::Value(8));
    assert_eq!(set.row_major, EnvSwitch::Off);
    assert_eq!(set.resident_blocks, EnvNumber::Value(3));
    assert_eq!(set.hist_streams, EnvNumber::Invalid);
    assert!(set.device_quantize_off);
    assert!(!set.pinned);
    let on = TrainEnv::read(&EnvTexts { row_major: Some("1"), ..none() }, false);
    assert_eq!(on.row_major, EnvSwitch::On);
    let odd = TrainEnv::read(&EnvTexts { row_major: Some("on"), ..none() }, false);
    assert_eq!(odd.row_major, EnvSwitch::Invalid);
    assert!(is_on(Some("true")) && !is_on(Some(" true")) && !is_on(None));
    assert!(is_off(Some("false")) && !is_off(Some("no")) && !is_off(None));
}
