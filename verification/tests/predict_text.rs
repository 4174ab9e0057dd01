//! Predictions for CSV texts, and blocks that are read on their own.
use ferrisboost::columns::{partition_features, ColumnBlock};
use ferrisboost::float32::F32;
use ferrisboost::inference::InferenceError;
use ferrisboost::job::predict::SchemaError;
use ferrisboost::job::predict_text::{predict_rows, predict_texts, PredictTextError, Wanted};
use ferrisboost::sketch::summary::RankMath;
use ferrisboost::source::arrow_source::{ArrowSource, Batch, CutsBuilder};
use ferrisboost::source::block_fill::{quantize_block, BlockFill, FillError};
use ferrisboost::source::csv_open::{label_values, Dataset};
use ferrisboost::source::csv_table::CsvError;
use ferrisboost::source::dense::DenseSource;
use ferrisboost::source::predict_input::BindError;
use ferrisboost::source::predict_text::{projected_rows, Asked, RowsError, TextFault};
use ferrisboost::source::schema::{columns, SchemaError as ColumnError};
use ferrisboost::tree::{Model, Tree};
use ferrisboost::types::{Objective, SchemaMode, MISSING_BIN};

fn f(x: f32) -> F32 {
    F32::from_bits(x.to_bits())
}

fn v(x: F32) -> f32 {
    f32::from_bits(x.to_bits())
}

fn floats(xs: &[f32]) -> Vec<F32> {
    xs.iter().map(|&x| f(x)).collect()
}

fn plus(a: F32, b: F32) -> F32 {
    f(v(a) + v(b))
}

fn sigmoid(x: F32) -> F32 {
    f(1.0 / (1.0 + (-v(x)).exp()))
}

/// Feature `b` of `a, b, c` decides: below 2.5 the left leaf, missing the left one too.
fn model(objective: Objective, named: bool) -> Model {
    let mut tree = Tree { nodes: vec![] };
    tree.push_leaf(f(0.0));
    tree.split_leaf(0, 1, f(2.5), true, f(-1.0), f(3.0));
    Model {
        trees: vec![tree],
        base_score: f(0.5),
        objective,
        n_features: 3,
        best_iteration: None,
        best_score: None,
        feature_names: if named {
            vec!["a".to_string(), "b".to_string(), "c".to_string()]
        } else {
            vec![]
        },
        schema_mode: Some(if named { SchemaMode::Named } else { SchemaMode::Positional }),
    }
}

fn texts(all: &[&str]) -> Vec<Vec<u8>> {
    all.iter().map(|t| t.as_bytes().to_vec()).collect()
}

fn wanted(output_margin: bool) -> Wanted {
    Wanted { output_margin, n_trees: 1, base_margin: f(0.25) }
}

fn run(m: &Model, all: &[&str], header: bool, w: Wanted, workers: usize) -> Result<Vec<f32>, PredictTextError> {
    predict_texts(&texts(all), m, header, workers, w, workers, plus, sigmoid)
        .map(|out| out.into_iter().map(v).collect())
}

#[test]
fn rows_of_texts_are_predicted_in_order() {
    let m = model(Objective::SquaredError, true);
    let out = run(
        &m,
        &["c,b,extra,a\n9,1.0,x,5\n9,3.0,y,5\n9,,z,5\n", "a,b,c\n0,2.5,0\n0,2,0\n"],
        true,
        wanted(false),
        1,
    );
    assert_eq!(out.ok(), Some(vec![-0.75, 3.25, -0.75, 3.25, -0.75]));
}

#[test]
fn workers_do_not_change_predictions() {
    let m = model(Objective::Logistic, true);
    let text: String = std::iter::once("b\n".to_string())
        .chain((0..500).map(|i| format!("{}.5,{i}\n", i % 5)))
        .collect();
    let text = text.replacen("b\n", "b,a\n", 1).replace("\n", ",0\n").replacen("b,a,0\n", "b,a,c\n", 1);
    let one = run(&m, &[&text], true, wanted(false), 1).ok();
    let many = run(&m, &[&text], true, wanted(false), 7).ok();
    assert!(one.is_some());
    assert_eq!(one.as_ref().map(|o| o.len()), Some(500));
    assert_eq!(one, many);
    assert_eq!(one.map(|o| o[0]), Some(1.0 / (1.0 + 0.75f32.exp())));
}

#[test]
fn rows_are_predicted_into_their_places() {
    let m = model(Objective::SquaredError, false);
    let rows = vec![floats(&[0.0, 1.0, 0.0]), floats(&[0.0, 9.0, 0.0]), floats(&[0.0, 2.0, 0.0])];
    for workers in [1, 2, 5] {
        let out = predict_rows(&rows, &m, wanted(false), workers, plus, sigmoid);
        assert_eq!(out, floats(&[-0.75, 3.25, -0.75]));
    }
    let none = Wanted { n_trees: 0, ..wanted(false) };
    assert_eq!(predict_rows(&rows, &m, none, 1, plus, sigmoid), floats(&[0.25; 3]));
}

#[test]
fn margins_are_not_linked() {
    let m = model(Objective::Logistic, false);
    let out = run(&m, &["0,1,0\n0,7,0\n"], false, wanted(true), 1);
    assert_eq!(out.ok(), Some(vec![-0.75, 3.25]));
}

#[test]
fn refused_inputs_say_why() {
    let named = model(Objective::SquaredError, true);
    assert!(matches!(
        run(&named, &["1,2,3\n"], false, wanted(false), 1),
        Err(PredictTextError::Schema(SchemaError::NamesNeeded))
    ));
    assert!(matches!(
        run(&named, &["a,b,c\n1,2,3\n", "a,c\n1,2\n"], true, wanted(false), 1),
        Err(PredictTextError::File {
            file: 1,
            fault: TextFault::Bind(BindError::MissingFeature { feature: 1 })
        })
    ));
    assert!(matches!(
        run(&named, &["a,b,c\n1,word,3\n"], true, wanted(false), 1),
        Err(PredictTextError::File {
            file: 0,
            fault: TextFault::Text(CsvError::NotNumeric { column: 1 })
        })
    ));
    let unnamed = model(Objective::SquaredError, false);
    assert!(matches!(
        run(&unnamed, &["1,2\n"], false, wanted(false), 1),
        Err(PredictTextError::File {
            file: 0,
            fault: TextFault::Bind(BindError::ColumnCount { columns: 2, features: 3 })
        })
    ));
    let mut empty = model(Objective::SquaredError, false);
    empty.trees.clear();
    empty.n_features = 0;
    assert!(matches!(
        run(&empty, &[], false, wanted(false), 1),
        Err(PredictTextError::Model(InferenceError::NoFeatures))
    ));
    // A tree that is not asked for need not be walked, but its features are looked at.
    let mut odd = model(Objective::SquaredError, false);
    let n = odd.trees.len();
    let mut far = Tree { nodes: vec![] };
    let root = far.push_leaf(f(0.0));
    far.split_leaf(root, 9, f(0.0), false, f(0.0), f(0.0));
    odd.trees.push(far);
    let first = Wanted { n_trees: n, ..wanted(false) };
    assert!(matches!(
        run(&odd, &["1,2,3\n"], false, first, 1),
        Err(PredictTextError::Model(InferenceError::FeatureOutOfRange { feat: 9 }))
    ));
    odd.trees[n].nodes[0].feat = 0;
    odd.trees[n].nodes[0].left = 0;
    let usual = run(&model(Objective::SquaredError, false), &["1,2,3\n"], false, first, 1);
    assert_eq!(run(&odd, &["1,2,3\n"], false, first, 1).ok(), usual.ok());
}

#[test]
fn names_beyond_the_features_only_have_to_be_there() {
    let names = vec!["a".to_string(), "b".to_string(), "c".to_string()];
    let asked = Asked {
        has_header: true,
        readers: 4,
        feature_names: &names,
        n_features: 2,
        projected: &[0, 1],
    };
    let rows = projected_rows(&texts(&["\nc,a,b\n30,10,20\n"]), &asked).ok();
    assert_eq!(rows, Some(vec![floats(&[10.0, 20.0])]));
    assert!(matches!(
        projected_rows(&texts(&["a,b\n10,20\n"]), &asked),
        Err(RowsError::File {
            file: 0,
            fault: TextFault::Bind(BindError::MissingFeature { feature: 2 })
        })
    ));
}

#[test]
fn asked_features_come_in_their_order() {
    let names = vec!["a".to_string(), "b".to_string(), "c".to_string()];
    let asked = |projected: &'static [usize]| Asked {
        has_header: true,
        readers: 1,
        feature_names: Box::leak(names.clone().into_boxed_slice()),
        n_features: 3,
        projected,
    };
    let all = texts(&["c,a,b\n30,10,20\n31,11,21\n", "b,c,a\n22,32,12\n"]);
    let rows = projected_rows(&all, &asked(&[0, 2])).ok();
    assert_eq!(
        rows,
        Some(vec![floats(&[10.0, 30.0]), floats(&[11.0, 31.0]), floats(&[12.0, 32.0])])
    );
    assert!(matches!(
        projected_rows(&all, &asked(&[])),
        Err(RowsError::Projection(BindError::EmptyProjection))
    ));
    assert!(matches!(
        projected_rows(&all, &asked(&[2, 0])),
        Err(RowsError::Projection(BindError::BadProjection))
    ));
    assert!(matches!(
        projected_rows(&all, &asked(&[0, 3])),
        Err(RowsError::Projection(BindError::BadProjection))
    ));
}

fn math() -> RankMath<
    impl Fn(F32, F32) -> F32 + Sync,
    impl Fn(F32, F32, F32, usize, usize) -> bool + Sync,
    impl Fn(F32, F32) -> F32 + Sync,
> {
    RankMath {
        plus,
        below: |rmin: F32, rmax: F32, total: F32, k: usize, n: usize| {
            0.5 * (v(rmin) + v(rmax)) < v(total) * (k as f32) / (n as f32)
        },
        half: |a: F32, b: F32| f(v(a) + (v(b) - v(a)) * 0.5),
    }
}

/// The features of the six rows that the block tests read, in two batches.
fn fixture() -> Vec<Batch> {
    let nan = f32::NAN;
    vec![
        Batch {
            columns: vec![
                floats(&[1.0, 2.0, 3.0]),
                floats(&[10.0, nan, 30.0]),
                floats(&[7.0, 8.0, 9.0]),
            ],
            n_rows: 3,
        },
        Batch {
            columns: vec![
                floats(&[4.0, 5.0, 6.0]),
                floats(&[40.0, 50.0, nan]),
                floats(&[1.0, 2.0, 3.0]),
            ],
            n_rows: 3,
        },
    ]
}

/// The columns of a group of features alone.
fn of_group(group: &[u32]) -> Vec<Batch> {
    fixture()
        .into_iter()
        .map(|b| Batch {
            columns: group.iter().map(|&g| b.columns[g as usize].clone()).collect(),
            n_rows: b.n_rows,
        })
        .collect()
}

/// The columns of a file with features and label, as they are read: `f0, target, f1, f2`.
fn file_batches() -> Vec<Batch> {
    let labels = [[0.0, 1.0, 0.0], [1.0, 1.0, 0.0]];
    fixture()
        .into_iter()
        .zip(labels)
        .map(|(mut b, y)| {
            b.columns.insert(1, floats(&y));
            b
        })
        .collect()
}

/// Some columns of the file.
fn read_columns(cols: &[usize]) -> Vec<Batch> {
    file_batches()
        .into_iter()
        .map(|b| Batch {
            columns: cols.iter().map(|&c| b.columns[c].clone()).collect(),
            n_rows: b.n_rows,
        })
        .collect()
}

#[test]
fn lazy_blocks_match_eager_blocks() {
    let names: Vec<String> = ["f0", "target", "f1", "f2"].iter().map(|s| s.to_string()).collect();
    let file = columns(&names, "target").unwrap_or_else(|e| panic!("{e:?}"));
    let eager = Dataset::assemble(
        ArrowSource::new(&read_columns(&file.features), 16, 2, &math())
            .unwrap_or_else(|e| panic!("{e:?}")),
        label_values(&read_columns(&[file.label])),
        file.names.clone(),
    )
    .unwrap_or_else(|e| panic!("{e:?}"));

    // The lazy side keeps the boundaries and how to read a block, but no features.
    let mut pass = CutsBuilder::new(16);
    for batch in &read_columns(&file.features) {
        pass.add_batch(batch, &math()).unwrap_or_else(|e| panic!("{e:?}"));
    }
    let cuts = pass.finish(&math()).unwrap_or_else(|e| panic!("{e:?}"));
    let labels = label_values(&read_columns(&[file.label]));
    let n_rows = labels.len();
    let groups = partition_features(file.features.len(), 2);

    assert_eq!(n_rows, eager.source.n_rows());
    assert_eq!(file.features.len(), eager.source.n_features());
    assert_eq!(groups.len(), eager.source.n_blocks());
    assert_eq!(labels, eager.labels);
    for k in 0..file.features.len() as u32 {
        assert_eq!(cuts.cuts_for(k), eager.source.cuts().cuts_for(k));
    }
    for (b, group) in groups.iter().enumerate() {
        let cols: Vec<usize> = group.iter().map(|&k| file.features[k as usize]).collect();
        let a = quantize_block(&read_columns(&cols), &cuts, group.clone(), n_rows)
            .unwrap_or_else(|e| panic!("{e:?}"));
        let e = eager.source.with_block(b).unwrap_or_else(|e| panic!("{e:?}"));
        assert_eq!(a.feat_ids, e.feat_ids, "块 {b} 的特征列表");
        assert_eq!(a.n_rows, e.n_rows);
        assert_eq!(a.data, e.data, "块 {b} 的 bin 数据");
    }
}

#[test]
fn blocks_match_dense_bin_for_bin() {
    let eager = ArrowSource::new(&fixture(), 16, 2, &math()).unwrap_or_else(|e| panic!("{e:?}"));
    let nan = f32::NAN;
    let row_major = floats(&[
        1.0, 10.0, 7.0, //
        2.0, nan, 8.0, //
        3.0, 30.0, 9.0, //
        4.0, 40.0, 1.0, //
        5.0, 50.0, 2.0, //
        6.0, nan, 3.0,
    ]);
    let dense = DenseSource::from_row_major(&row_major, 6, 3, 16, 2, &math())
        .unwrap_or_else(|| panic!("no cuts"));
    for group in partition_features(3, 2) {
        let block = quantize_block(&of_group(&group), eager.cuts(), group.clone(), 6)
            .unwrap_or_else(|e| panic!("{e:?}"));
        for (local, &feat) in group.iter().enumerate() {
            for row in 0..6 {
                assert_eq!(block.column(local)[row], dense.bin_at(row, feat), "行 {row} 特征 {feat}");
            }
        }
    }
}

#[test]
fn missing_label_column_says_what_is_available() {
    let names: Vec<String> = ["f0", "target", "f1", "f2"].iter().map(|s| s.to_string()).collect();
    let Err(e) = columns(&names, "nope") else { panic!("应该报错") };
    let msg = e.label_message("nope", &names).unwrap_or_default();
    assert!(msg.contains("nope") && msg.contains("f0"), "报错要列出有哪些列:{msg}");
    assert_eq!(msg, "文件里没有列 \"nope\",只有 [\"f0\", \"target\", \"f1\", \"f2\"]");
    let only = ColumnError::OnlyLabel.label_message("y", &[]);
    assert_eq!(only, Some("除了标签列 \"y\" 之外没有别的列了".to_string()));
    let far = ColumnError::LabelPosition { index: 7, columns: 3 }.label_message("y", &[]);
    assert_eq!(far, Some("label 列下标 7 越界:无表头 CSV 只有 3 列".to_string()));
    assert_eq!(ColumnError::NoFile.label_message("y", &[]), None);
}

fn whole() -> Vec<Batch> {
    let nan = f32::NAN;
    vec![
        Batch {
            columns: vec![floats(&[1.0, 2.0]), floats(&[10.0, nan]), floats(&[7.0, 8.0])],
            n_rows: 2,
        },
        Batch { columns: vec![floats(&[3.0]), floats(&[30.0]), floats(&[9.0])], n_rows: 1 },
    ]
}

#[test]
fn a_block_read_alone_has_the_bins_of_the_table() {
    let all = whole();
    let table = ArrowSource::new(&all, 16, 2, &math()).unwrap_or_else(|e| panic!("{e:?}"));
    let parts: Vec<Batch> = whole()
        .into_iter()
        .map(|mut b| {
            b.columns.remove(0);
            b
        })
        .collect();
    let block: ColumnBlock = quantize_block(&parts, table.cuts(), vec![1, 2], 3)
        .unwrap_or_else(|e| panic!("{e:?}"));
    assert_eq!(block.feat_ids, vec![1, 2]);
    for row in 0..3 {
        assert_eq!(block.column(0)[row], table.bin_at(row, 1));
        assert_eq!(block.column(1)[row], table.bin_at(row, 2));
    }
    assert_eq!(block.column(0)[1], MISSING_BIN);
    assert_eq!(
        quantize_block(&parts, table.cuts(), vec![1, 2], 4).err(),
        Some(FillError::Rows { read: 3, expected: 4 })
    );
    assert_eq!(
        quantize_block(&parts, table.cuts(), vec![1], 3).err(),
        Some(FillError::ColumnCount { got: 2, expected: 1 })
    );
    let empty = BlockFill::new(vec![]).finish(0).map(|b| b.data.len());
    assert_eq!(empty, Ok(0));
}

#[test]
fn inputs_are_refused_in_words() {
    assert_eq!(
        BindError::MissingFeature { feature: 1 }.message("d/x.csv", "b"),
        "d/x.csv 里缺少模型需要的特征列 \"b\""
    );
    assert_eq!(
        BindError::ColumnCount { columns: 2, features: 3 }.message("x.csv", ""),
        "x.csv 有 2 列,模型是按 3 个特征(位置模式)训的;位置模式下列数必须完全一致"
    );
    assert_eq!(BindError::EmptyProjection.message("", ""), "prediction feature projection 不能为空");
    assert_eq!(FillError::Rows { read: 3, expected: 4 }.message(), "读到 3 行,元数据说 4");
    assert_eq!(
        InferenceError::FeatureOutOfRange { feat: 9 }.message(),
        "CPU prediction model contains out-of-range feature 9"
    );
    assert_eq!(
        InferenceError::FeatureOutOfRange { feat: 9 }.compact_message(),
        "prediction 模型含越界 feature 9"
    );
    assert_eq!(
        InferenceError::InputLength { got: 5, rows: 2, features: 3, expected: 6 }.message(),
        "CPU prediction input contains 5 values, expected 2 rows x 3 = 6"
    );
}
