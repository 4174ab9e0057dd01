//! Decisions of training and prediction jobs.
use ferrisboost::float32::F32;
use ferrisboost::gpu_mem_plan::PlanError;
use ferrisboost::job::blocking::{
    apply_resolved_geometry, resolve_blocking, BlockingError, BlockingPlan, DeviceMemory, Geometry,
};
use ferrisboost::job::model_io::{advance, share_size, worker_parts, FilePart, Transfer};
use ferrisboost::job::params::{parse_device, parse_gpu_math, parse_objective, DeviceError};
use ferrisboost::job::predict::{
    check_binding, check_output, removes_output, settle, InputOutcome, OutputError, OutputWriter,
    SchemaError, Settlement, WriterMessage, WriterOutcome, WriterStep,
};
use ferrisboost::job::train::{
    check_columns, check_labels, eval_format_ok, finish, label_of, plan_after_open,
    plan_before_open, route, total_rows, LabelArg, LabelChoice, LabelError, PlanFailure, Route,
    TableError,
};
use ferrisboost::job::workers::{
    file_prediction_workers, gpu_prediction_selected, ingest_work, model_io_work,
    prediction_output_pipeline_workers, prediction_pipeline_workers, prediction_work_per_row,
    resolved_predict_workers, IngestShape, PipelineWorkers, CSV_CHUNK_BYTES,
};
use ferrisboost::source::input::InputFormat;
use ferrisboost::source::path::PathStyle;
use ferrisboost::tree::{longest_way, Model, Tree};
use ferrisboost::types::{GpuMath, Objective, SchemaMode};

fn f(x: f32) -> F32 {
    F32::from_bits(x.to_bits())
}

fn geometry() -> Geometry {
    Geometry {
        cols_per_block: 0,
        hist_streams: None,
        resident_blocks: None,
        gpu_memory_budget: None,
        nthread: 8,
        max_bin: 255,
        fast_math: false,
    }
}

const GB: u64 = 1024 * 1024 * 1024;

#[test]
fn an_explicit_width_stands() {
    let p = resolve_blocking(&geometry(), Some(32), None, 300, None, 8)
        .unwrap_or_else(|_| panic!("plan"));
    assert_eq!((p.requested, p.effective, p.n_blocks), (Some(32), 32, 10));
    let p = resolve_blocking(&geometry(), None, None, 300, None, 8)
        .unwrap_or_else(|_| panic!("plan"));
    assert_eq!((p.requested, p.effective, p.n_blocks), (None, 38, 8));
    let p = BlockingPlan::explicit(32, 300, 8);
    assert_eq!(p.n_blocks, 10);
}

#[test]
fn a_device_is_planned_for() {
    let device = DeviceMemory { free: 5 * GB, total: 6 * GB };
    let p = resolve_blocking(&geometry(), None, Some(device), 300, Some(1_000_000), 8)
        .unwrap_or_else(|_| panic!("plan"));
    assert!(p.effective >= 1 && p.hist_streams.is_some() && p.resident_blocks.is_some());
    let mut g = geometry();
    apply_resolved_geometry(&mut g, &p);
    assert_eq!(g.hist_streams, p.hist_streams);
    assert_eq!(g.resident_blocks, p.resident_blocks);
    let r = resolve_blocking(&geometry(), None, Some(device), 300, None, 8);
    assert!(matches!(r, Err(BlockingError::RowsUnknown)));
    let tiny = DeviceMemory { free: 1 << 20, total: GB };
    let r = resolve_blocking(&geometry(), None, Some(tiny), 300, Some(1_000_000), 8);
    assert!(matches!(r, Err(BlockingError::DoesNotFit(PlanError { .. }))));
}

#[test]
fn files_of_unknown_length_are_planned_after_opening() {
    let device = DeviceMemory { free: 5 * GB, total: 6 * GB };
    let r = plan_before_open(geometry(), None, Some(device), 300, None, 8);
    assert!(matches!(r, Err(PlanFailure::WidthNeeded)));
    let mut job = plan_before_open(geometry(), Some(64), Some(device), 300, None, 8)
        .unwrap_or_else(|_| panic!("job"));
    assert!(job.deferred);
    assert_eq!(job.geometry.cols_per_block, 64);
    assert!(plan_after_open(&mut job, Some(64), Some(device), 300, 1_000_000, 8).is_ok());
    assert_eq!(job.geometry.cols_per_block, 64);
    assert!(job.geometry.hist_streams.is_some());
}

#[test]
fn labels_are_named_or_numbered() {
    let name = |s: &str| LabelArg::Name(s.to_string());
    assert!(matches!(
        label_of(InputFormat::Csv, true, name("y")),
        Ok(LabelChoice::Name(n)) if n == "y"
    ));
    assert!(matches!(
        label_of(InputFormat::Csv, false, LabelArg::Index(3)),
        Ok(LabelChoice::Position(3))
    ));
    assert!(matches!(
        label_of(InputFormat::Csv, false, LabelArg::Index(-1)),
        Err(LabelError::NegativeIndex { index: -1 })
    ));
    assert!(matches!(
        label_of(InputFormat::Csv, false, name("y")),
        Err(LabelError::IndexWanted)
    ));
    assert!(matches!(
        label_of(InputFormat::Csv, true, LabelArg::Other),
        Err(LabelError::NameWanted)
    ));
    assert!(matches!(
        label_of(InputFormat::Parquet, false, name("y")),
        Err(LabelError::HeaderlessParquet)
    ));
}

#[test]
fn tables_have_to_match() {
    assert_eq!(total_rows(&[3, 4, 5]), 12);
    assert_eq!(check_labels(4, 4), Ok(()));
    assert_eq!(check_labels(3, 4), Err(TableError::Labels { labels: 3, rows: 4 }));
    assert_eq!(check_columns(4, 4), Ok(()));
    assert_eq!(check_columns(3, 4), Err(TableError::Columns { got: 3, expected: 4 }));
    assert!(eval_format_ok(InputFormat::Csv, InputFormat::Csv));
    assert!(!eval_format_ok(InputFormat::Csv, InputFormat::Parquet));
    assert_eq!(route(InputFormat::Parquet, 1), Route::BlockByBlock);
    assert_eq!(route(InputFormat::Parquet, 2), Route::InMemory);
    assert_eq!(route(InputFormat::Csv, 1), Route::InMemory);
}

fn model(trees: Vec<Tree>) -> Model {
    Model {
        trees,
        base_score: f(0.5),
        objective: Objective::SquaredError,
        n_features: 2,
        best_iteration: None,
        best_score: None,
        feature_names: vec![],
        schema_mode: None,
    }
}

#[test]
fn names_and_mode_are_settled_together() {
    let mut m = model(vec![]);
    finish(&mut m, vec!["a".to_string(), "b".to_string()]);
    assert_eq!(m.schema_mode, Some(SchemaMode::Named));
    assert_eq!(m.feature_names, vec!["a", "b"]);
    assert_eq!(
        check_binding(m.schema_mode, 2, InputFormat::Parquet, true),
        Ok(SchemaMode::Named)
    );
    finish(&mut m, vec![]);
    assert_eq!(m.schema_mode, Some(SchemaMode::Positional));
    assert_eq!(
        check_binding(m.schema_mode, 0, InputFormat::Csv, false),
        Ok(SchemaMode::Positional)
    );
}

#[test]
fn models_and_files_that_do_not_go_together_are_told() {
    let named = Some(SchemaMode::Named);
    let positional = Some(SchemaMode::Positional);
    assert_eq!(check_binding(None, 2, InputFormat::Csv, true), Err(SchemaError::Unknown));
    assert_eq!(check_binding(named, 0, InputFormat::Csv, true), Err(SchemaError::NoNames));
    assert_eq!(
        check_binding(named, 2, InputFormat::Parquet, false),
        Err(SchemaError::HeaderlessParquet)
    );
    assert_eq!(check_binding(named, 2, InputFormat::Csv, false), Err(SchemaError::NamesNeeded));
    assert_eq!(
        check_binding(positional, 0, InputFormat::Csv, true),
        Err(SchemaError::HeaderNotExpected)
    );
}

#[test]
fn parameters_are_parsed() {
    assert_eq!(parse_objective("binary:logistic"), Some(Objective::Logistic));
    assert_eq!(parse_objective("reg:squarederror"), Some(Objective::SquaredError));
    assert_eq!(parse_objective("rank"), None);
    assert_eq!(parse_device(None), Ok(None));
    assert_eq!(parse_device(Some("cpu")), Ok(None));
    assert_eq!(parse_device(Some("cuda")), Ok(Some(0)));
    assert_eq!(parse_device(Some("gpu")), Ok(Some(0)));
    assert_eq!(parse_device(Some("cuda:12")), Ok(Some(12)));
    assert_eq!(parse_device(Some("cuda:x")), Err(DeviceError::NotANumber));
    assert_eq!(parse_device(Some("tpu")), Err(DeviceError::Unknown));
}

#[test]
fn outputs_are_checked_before_anything_is_read() {
    assert_eq!(check_output("p", "out.parquet", PathStyle::Unix), Ok(()));
    assert_eq!(check_output(" \t", "out.parquet", PathStyle::Unix), Err(OutputError::BlankColumn));
    assert_eq!(check_output("p", "out.csv", PathStyle::Unix), Err(OutputError::Extension));
    assert_eq!(OutputError::BlankColumn.message(), "prediction_column 不能为空或只包含空白");
    assert_eq!(SchemaError::NoNames.message(), "模型标为命名模式但没有特征名单");
    assert_eq!(parse_gpu_math("exact"), Some(GpuMath::Exact));
    assert_eq!(parse_gpu_math("fast"), Some(GpuMath::Fast));
    assert_eq!(parse_gpu_math("Fast"), None);
    assert_eq!(DeviceError::NotANumber.message("cuda:x"), "device 解析不了:\"cuda:x\"");
    assert_eq!(
        DeviceError::Unknown.message("tpu"),
        "device 只支持 \"cpu\" / \"cuda\" / \"cuda:N\",收到 \"tpu\""
    );
}

#[test]
fn the_writer_commits_once_it_has_everything() {
    let mut w = OutputWriter::new();
    assert_eq!(w.take(WriterMessage::Batch(5)), WriterStep::Write);
    assert_eq!(w.take(WriterMessage::Batch(usize::MAX)), WriterStep::RowOverflow);
    assert_eq!(w.take(WriterMessage::Closed), WriterStep::Cancelled);
    assert!(!w.keeps_file());
    assert_eq!(w.take(WriterMessage::Finish), WriterStep::Commit);
    w.committed();
    assert!(w.keeps_file());
    assert_eq!(w.rows_written, 5);
}

#[test]
fn both_sides_of_a_pipeline_are_settled() {
    assert_eq!(
        settle(InputOutcome::Rows(5), true, WriterOutcome::Wrote(5)),
        Settlement::Done { rows: 5 }
    );
    assert_eq!(
        settle(InputOutcome::Rows(5), true, WriterOutcome::Wrote(4)),
        Settlement::RowsDiffer { read: 5, written: 4 }
    );
    assert_eq!(
        settle(InputOutcome::Failed, false, WriterOutcome::Failed),
        Settlement::InputFailed
    );
    assert_eq!(
        settle(InputOutcome::WriterGone, false, WriterOutcome::Failed),
        Settlement::WriterFailed
    );
    assert_eq!(
        settle(InputOutcome::Rows(5), true, WriterOutcome::Panicked),
        Settlement::WriterPanicked
    );
    assert!(!removes_output(Settlement::Done { rows: 5 }));
}

#[test]
fn workers_are_shared_between_the_stages() {
    assert_eq!(resolved_predict_workers(0, 8, 8, 10, 10), 1);
    assert_eq!(resolved_predict_workers(0, 8, 8, 1_000_000, 100), 8);
    assert_eq!(resolved_predict_workers(4, 4, 8, 10, 10), 4);
    assert_eq!(resolved_predict_workers(4, 4, 8, 2, 10), 2);
    let auto = prediction_pipeline_workers(0, 0, 8, 8, 8);
    assert!(auto.ingest + auto.predict <= 8 && !auto.oversubscribed);
    let asked = prediction_pipeline_workers(6, 6, 6, 6, 8);
    assert_eq!(asked, PipelineWorkers { ingest: 6, predict: 6, oversubscribed: true });
    let out = prediction_output_pipeline_workers(2, 3, usize::MAX, usize::MAX, 8);
    assert!(out.oversubscribed);
    let one = prediction_pipeline_workers(0, 3, usize::MAX, usize::MAX, 8);
    assert_eq!((one.ingest, one.predict, one.oversubscribed), (1, usize::MAX, false));
    let out = prediction_output_pipeline_workers(0, 0, 8, 8, 8);
    assert!(out.ingest + out.predict <= 7);
    assert_eq!(
        file_prediction_workers(Some(true), 0, 0, 5, 8, 8),
        PipelineWorkers { ingest: 5, predict: 1, oversubscribed: false }
    );
    assert!(gpu_prediction_selected(true, 1_000_000, 10, 100));
    assert!(!gpu_prediction_selected(true, 1_000_000, 101, 100));
    assert!(!gpu_prediction_selected(false, 1_000_000, 10, 100));
    assert!(!gpu_prediction_selected(true, 10, 10, 100));
}

#[test]
fn ingest_work_follows_the_files() {
    let parquet = IngestShape::Parquet { row_groups: vec![3, 4] };
    let (units, bytes) = ingest_work(&parquet, 10, 2);
    assert_eq!(units, 7);
    assert_eq!(bytes, 10 * 8192 * 8 + 16 * 1024 * 1024);
    let one = IngestShape::Csv { bytes: vec![10 * CSV_CHUNK_BYTES + 1] };
    assert_eq!(ingest_work(&one, 10, 2).0, 11);
    let many = IngestShape::Csv { bytes: vec![1, 2, 3] };
    assert_eq!(ingest_work(&many, 10, 2).0, 5);
    assert!(model_io_work(10).0 >= 1);
}

#[test]
fn work_per_row_is_the_longest_way_down() {
    let mut t = Tree { nodes: vec![] };
    let root = t.push_leaf(f(0.0));
    let (_, right) = t.split_leaf(root, 0, f(0.0), false, f(0.0), f(0.0));
    t.split_leaf(right, 1, f(0.0), false, f(0.0), f(0.0));
    let mut stump = Tree { nodes: vec![] };
    stump.push_leaf(f(1.0));
    let m = model(vec![t, stump]);
    assert_eq!(prediction_work_per_row(&m, 1), 3);
    assert_eq!(prediction_work_per_row(&m, 9), 4);
    assert_eq!(prediction_work_per_row(&m, 0), 1);
}

#[test]
fn work_per_row_goes_by_the_trees_that_are_asked_for() {
    // Two splits share a leaf, and a later tree goes in a circle.
    let mut shared = Tree { nodes: vec![] };
    let root = shared.push_leaf(f(0.0));
    let (left, right) = shared.split_leaf(root, 0, f(0.0), false, f(0.0), f(1.0));
    shared.split_leaf(left, 1, f(0.0), false, f(0.0), f(2.0));
    shared.nodes[left].right = right as i32;
    assert_eq!(longest_way(&shared.nodes), Some(2));
    let mut circle = Tree { nodes: vec![] };
    circle.push_leaf(f(0.0));
    circle.split_leaf(0, 0, f(0.0), false, f(0.0), f(0.0));
    circle.nodes[0].left = 0;
    assert_eq!(longest_way(&circle.nodes), None);
    let m = model(vec![shared, circle]);
    assert_eq!(prediction_work_per_row(&m, 1), 3);
}

#[test]
fn shares_cover_a_file() {
    for (total, workers) in [(10usize, 3usize), (0, 2), (5_000_000, 2), (7, 7)] {
        let mut seen = vec![0u8; total];
        for w in 0..workers {
            for p in worker_parts(total, workers, w) {
                for b in p.offset..p.offset + p.len {
                    seen[b] += 1;
                }
            }
        }
        assert!(seen.iter().all(|&n| n == 1), "{total} {workers}");
    }
    assert_eq!(share_size(10, 3), 4);
    let offsets: Vec<usize> = worker_parts(5_000_000, 2, 1).iter().map(|p| p.offset).collect();
    assert_eq!(offsets, vec![2_500_000, 2_500_000 + 1_048_576, 2_500_000 + 2 * 1_048_576]);
    let part = FilePart { offset: 4, len: 6 };
    assert_eq!(advance(part, 2), Transfer::Rest(FilePart { offset: 6, len: 4 }));
    assert_eq!(advance(part, 6), Transfer::Done);
    assert_eq!(advance(part, 0), Transfer::Stalled);
}
