//! Callbacks, metrics, communication, readers and profiles.
use ferrisboost::callback::{
    build_callbacks, evals_series, Callback, CallbackKind, EarlyStopping, RecordHistory,
    RoundMetrics, VerboseEval,
};
use ferrisboost::comm::{Comm, Local};
use ferrisboost::float32::F32;
use ferrisboost::metrics::{by_name, default_metric, Metric};
use ferrisboost::source::openprof::{cpu_ticks, read_kv, start, sub, OpenProfile, Reading};
use ferrisboost::source::parallel_reader::{reader_count, DrainStep, FileMessage, OrderedDrain};
use ferrisboost::source::path::{path_parts, place_paths, PathStyle, Place};
use ferrisboost::source::pipeline_threads;
use ferrisboost::source::predict_input::{batch_to_rows, bind, check_projection, plan_columns, BindError};
use ferrisboost::source::schema::{align_files, columns, feature_columns, SchemaError};
use ferrisboost::text::to_chars;
use ferrisboost::types::Objective;

fn f(x: f32) -> F32 {
    F32::from_bits(x.to_bits())
}

fn round(k: usize, x: f32) -> RoundMetrics {
    RoundMetrics {
        round: k,
        entries: vec![
            ("train".to_string(), "rmse".to_string(), f(x + 1.0)),
            ("valid".to_string(), "rmse".to_string(), f(x)),
        ],
    }
}

fn names(xs: &[&str]) -> Vec<String> {
    xs.iter().map(|s| s.to_string()).collect()
}

#[test]
fn training_stops_when_nothing_improves() {
    let mut e = EarlyStopping::new(2, true);
    let scores = [5.0, 4.0, 4.5, 4.0];
    let mut goes_on = Vec::new();
    for (k, s) in scores.iter().enumerate() {
        goes_on.push(e.after_iteration(&round(k, *s)));
    }
    assert_eq!(goes_on, vec![true, true, true, false]);
    assert_eq!(e.best_iteration, 1);
    assert_eq!(e.best, Some(f(4.0)));
    assert_eq!(e.best_iteration(), Some((1, f(4.0))));
    let up = EarlyStopping { best: Some(f(1.0)), ..EarlyStopping::new(2, false) };
    assert!(up.improved(f(2.0)) && !up.improved(f(1.0)) && !up.improved(f(f32::NAN)));
}

#[test]
fn only_early_stopping_chooses_a_round() {
    let mut v = VerboseEval { period: 3 };
    v.after_iteration(&round(0, 3.0));
    assert_eq!(v.best_iteration(), None);
    v.after_training();
    assert_eq!(v.period, 3);
    let mut r = RecordHistory::new();
    r.after_iteration(&round(0, 3.0));
    assert_eq!(r.best_iteration(), None);
    r.after_training();
    assert_eq!(r.handle().len(), 1);
    let mut e = EarlyStopping::new(2, true);
    e.after_iteration(&round(4, 1.0));
    e.after_training();
    assert_eq!(e.best_iteration(), Some((4, f(1.0))));
}

#[test]
fn rounds_are_recorded() {
    let mut r = RecordHistory::new();
    r.after_iteration(&round(0, 3.0));
    r.after_iteration(&round(1, 2.0));
    assert_eq!(r.handle().len(), 2);
    assert_eq!(evals_series(r.handle(), "valid", "rmse"), vec![f(3.0), f(2.0)]);
    assert_eq!(evals_series(r.handle(), "valid", "auc"), vec![]);
    let m = round(7, 1.5);
    assert_eq!(m.get("train", "rmse"), Some(f(2.5)));
    assert_eq!(m.get("test", "rmse"), None);
    assert_eq!(m.copy().round, 7);
}

#[test]
fn callbacks_run_in_a_fixed_order() {
    let v = VerboseEval { period: 3 };
    assert_eq!((0..7).filter(|&k| v.is_due(k)).collect::<Vec<_>>(), vec![0, 3, 6]);
    let kinds = build_callbacks(Some(5), Some(2), 2);
    assert!(kinds.contains(&CallbackKind::EarlyStopping { rounds: 5 }));
    assert!(kinds.contains(&CallbackKind::Verbose { period: 2 }));
    assert!(kinds.contains(&CallbackKind::User(1)));
    assert!(kinds.contains(&CallbackKind::Recorder));
    assert_eq!(build_callbacks(None, None, 0), vec![CallbackKind::Recorder]);
}

#[test]
fn metrics_go_by_name() {
    assert_eq!(default_metric(Objective::Logistic).name(), "logloss");
    assert_eq!(default_metric(Objective::SquaredError).name(), "rmse");
    assert!(by_name("auc").is_none());
    let m = by_name("rmse").unwrap_or_else(|| panic!("metric"));
    assert!(m.lower_is_better());
}

#[test]
fn one_process_keeps_what_it_has() {
    let c = Local;
    assert_eq!((c.rank(), c.size()), (0, 1));
    assert_eq!(c.allreduce_best_split(Some(3)), Some(3));
    let mut bits = vec![1u8, 0];
    c.broadcast_partition(0, &mut bits);
    assert_eq!(bits, vec![1, 0]);
    let mut sums = vec![4, 5];
    c.allreduce_gpair(&mut sums);
    assert_eq!(sums, vec![4, 5]);
}

#[test]
fn batches_come_in_file_order() {
    let mut d = OrderedDrain::new(2);
    assert_eq!(d.source(), Some(0));
    assert_eq!(d.take(FileMessage::Batch), DrainStep::Yield);
    assert_eq!(d.take(FileMessage::Done), DrainStep::Continue);
    assert_eq!(d.source(), Some(1));
    assert_eq!(d.take(FileMessage::Closed), DrainStep::Continue);
    assert_eq!(d.source(), None);
    assert_eq!(reader_count(8, 3), 3);
    assert_eq!(reader_count(0, 3), 1);
    assert_eq!(pipeline_threads(7, 1), (4, 3));
    assert_eq!(pipeline_threads(1, 8), (1, 1));
    assert_eq!(pipeline_threads(0, 8), (4, 4));
}

#[test]
fn inputs_are_bound_to_the_model() {
    let model = names(&["a", "b"]);
    assert_eq!(bind(&names(&["b", "x", "a"]), &model, 2), Ok(vec![2, 0]));
    assert_eq!(
        bind(&names(&["b", "x"]), &model, 2),
        Err(BindError::MissingFeature { feature: 0 })
    );
    assert_eq!(bind(&names(&["p", "q"]), &[], 2), Ok(vec![0, 1]));
    assert_eq!(
        bind(&names(&["p", "q", "r"]), &[], 2),
        Err(BindError::ColumnCount { columns: 3, features: 2 })
    );
    assert_eq!(check_projection(&[], 2), Err(BindError::EmptyProjection));
    assert_eq!(check_projection(&[2], 2), Err(BindError::BadProjection));
    let plan = plan_columns(&names(&["b", "x", "a"]), &model, 2, &[0, 1])
        .unwrap_or_else(|e| panic!("{e:?}"));
    assert_eq!(plan.mask, vec![0, 2]);
    assert_eq!(plan.order, vec![1, 0]);
    let rows = batch_to_rows(&[vec![f(1.0), f(2.0)], vec![f(3.0), f(4.0)]], 2);
    assert_eq!(rows, vec![vec![f(1.0), f(3.0)], vec![f(2.0), f(4.0)]]);
}

#[test]
fn the_label_is_no_feature() {
    let c = feature_columns(&names(&["a", "y", "b", "y"]), "y").unwrap_or_else(|e| panic!("{e:?}"));
    assert_eq!((c.features, c.label), (vec![0, 2], 1));
    let c = columns(&names(&["a", "y", "b", "y"]), "y").unwrap_or_else(|e| panic!("{e:?}"));
    assert_eq!((c.features, c.label), (vec![0, 2, 3], 1));
    assert_eq!(columns(&names(&["a"]), "y").err(), Some(SchemaError::NoLabel));
    assert_eq!(feature_columns(&names(&["y"]), "y").err(), Some(SchemaError::OnlyLabel));
    let files = [
        columns(&names(&["a", "b", "y"]), "y").unwrap_or_else(|e| panic!("{e:?}")),
        columns(&names(&["y", "b", "a"]), "y").unwrap_or_else(|e| panic!("{e:?}")),
    ];
    assert_eq!(align_files(&files, true), Ok(vec![vec![0, 1], vec![2, 1]]));
    assert_eq!(align_files(&files, false), Ok(vec![vec![0, 1], vec![1, 2]]));
    assert_eq!(align_files(&[], true), Err(SchemaError::NoFile));
}

#[test]
fn paths_are_ordered_part_by_part() {
    let order = |a: &str, b: &str| {
        let unix = PathStyle::Unix;
        place_paths(&path_parts(&to_chars(a), unix), &path_parts(&to_chars(b), unix))
    };
    assert_eq!(order("a/b", "a.b"), Place::Before);
    assert_eq!(order("a//b/", "a/b"), Place::Same);
    assert_eq!(order("b", "a/z"), Place::After);
    for (a, b) in [("a/b", "a.b"), ("/x", "x"), ("a/../b", "a/b"), ("./a", "a")] {
        let want = std::path::Path::new(a).cmp(std::path::Path::new(b));
        let got = order(a, b);
        assert_eq!(got == Place::Before, want.is_lt(), "{a} {b}");
        assert_eq!(got == Place::Same, want.is_eq(), "{a} {b}");
    }
}

#[test]
fn stages_of_opening_are_added_up() {
    let at = |wall_ns: u128, cpu_ticks: u64| Reading {
        wall_ns,
        cpu_ticks,
        rchar: 10 * cpu_ticks,
        vmrss_kb: 5,
        vmhwm_kb: 9,
    };
    let mut p = OpenProfile::new();
    assert!(start(false, "read".to_string(), at(0, 0)).is_none());
    for k in 0..2u64 {
        let g = start(true, "read".to_string(), at(100 * k as u128, k))
            .unwrap_or_else(|| panic!("guard"));
        p.finish(g, at(100 * k as u128 + 40, k + 3));
    }
    assert_eq!(p.stages.len(), 1);
    assert_eq!(p.stages[0].cost.wall_ns, 80);
    assert_eq!(p.stages[0].cost.cpu_ticks, 6);
    assert_eq!(p.stages[0].cost.calls, 2);
    let s = sub(true, "part".to_string(), 7).unwrap_or_else(|| panic!("part"));
    p.finish_sub(s, 10);
    assert_eq!((p.subs[0].wall_ns, p.subs[0].calls), (3, 1));
    p.shape(true, 1, 2, 3);
    assert_eq!(p.shape, Some((1, 2, 3)));
}

#[test]
fn process_figures_are_read_from_text() {
    assert_eq!(read_kv("VmHWM:\t  123 kB\nVmRSS:\t 45 kB\n", "VmRSS:"), 45);
    assert_eq!(read_kv("rchar: 77\nwchar: 5\n", "rchar:"), 77);
    assert_eq!(read_kv("rchar: 77\n", "none:"), 0);
    let stat = "42 (a b) c) S 1 2 3 4 5 6 7 8 9 10 11 12 13";
    let (user, system) = cpu_ticks(stat);
    assert_eq!(user + system, 11 + 12);
}
