//! Prediction with trees.
use ferrisboost::float32::F32;
use ferrisboost::inference::{CompactInferenceModel, CpuInferenceModel, CpuInferenceTree, InferenceError};
use ferrisboost::job::array::{
    array_route, backend_text, can_walk_all, model_text, predict_margin_upto, predict_value,
    tree_value,
    ArrayError, ArrayRoute, ArrayShape,
};
use ferrisboost::job::score::{
    project_canonical_rows, rows_per_chunk, score_contiguous_rows, score_rows,
    transform_prediction_margins, ProjectError,
};
use ferrisboost::tree::{Model, Node, Tree};
use ferrisboost::types::{Objective, SchemaMode};

fn f(x: f32) -> F32 {
    F32::from_bits(x.to_bits())
}

fn v(x: F32) -> f32 {
    f32::from_bits(x.to_bits())
}

fn floats(xs: &[f32]) -> Vec<F32> {
    xs.iter().map(|&x| f(x)).collect()
}

fn plus(a: F32, b: F32) -> F32 {
    f(v(a) + v(b))
}

fn logit(p: f32) -> f32 {
    (p / (1.0 - p)).ln()
}

fn sigmoid(x: F32) -> F32 {
    f(1.0 / (1.0 + (-v(x)).exp()))
}

fn model(trees: Vec<Tree>, base_score: f32) -> Model {
    Model {
        trees,
        base_score: f(base_score),
        objective: Objective::Logistic,
        n_features: 5,
        best_iteration: None,
        best_score: None,
        feature_names: (0..5).map(|i| format!("f{i}")).collect(),
        schema_mode: Some(SchemaMode::Named),
    }
}

#[test]
fn remapping_is_private_and_prediction_is_bit_exact() {
    let mut root = Node::leaf(f(0.0));
    root.is_leaf = false;
    root.feat = 3;
    root.split_cond = f(1.5);
    root.left = 1;
    root.right = 2;
    root.default_left = true;
    let canonical = model(
        vec![Tree { nodes: vec![root, Node::leaf(f(-0.25)), Node::leaf(f(0.75))] }],
        0.5,
    );
    let before = canonical.trees[0].nodes.clone();
    let compact = CompactInferenceModel::new(&canonical).unwrap_or_else(|e| panic!("{e:?}"));

    assert_eq!(compact.canonical_features(), &[3]);
    assert_eq!(compact.model().trees[0].nodes[0].feat, 0);
    assert_eq!(canonical.trees[0].nodes[0].feat, 3);
    assert_eq!(canonical.trees[0].nodes, before);
    assert_eq!(compact.model().feature_names, vec!["f3"]);
    let base = f(logit(0.5));
    for row in [
        vec![0.0, 0.0, 0.0, 1.0, 0.0],
        vec![0.0, 0.0, 0.0, f32::NAN, 0.0],
    ] {
        let projected = [f(row[3])];
        assert_eq!(
            predict_margin_upto(&canonical, &floats(&row), 1, base, plus).to_bits(),
            predict_margin_upto(compact.model(), &projected, 1, base, plus).to_bits()
        );
    }
}

fn three_trees() -> Model {
    let mut shallow = Tree { nodes: vec![] };
    let shallow_root = shallow.push_leaf(f(0.0));
    shallow.split_leaf(shallow_root, 3, f(1.5), true, f(-0.25), f(0.75));

    let mut uneven = Tree { nodes: vec![] };
    let uneven_root = uneven.push_leaf(f(0.0));
    let (_, right) = uneven.split_leaf(uneven_root, 1, f(-0.5), false, f(0.125), f(-0.5));
    uneven.split_leaf(right, 4, f(2.0), true, f(0.625), f(-0.875));

    let mut deep = Tree { nodes: vec![] };
    let mut next = deep.push_leaf(f(0.0));
    for depth in 0..7 {
        let (_, right) =
            deep.split_leaf(next, 0, f(-10.0), false, f(depth as f32 * 0.03125), f(0.0));
        next = right;
    }
    model(vec![shallow, uneven, deep], 0.3)
}

fn many_rows() -> Vec<[f32; 5]> {
    let patterns = [
        [0.0, -1.0, 0.0, 1.0, 3.0],
        [0.0, 1.0, 0.0, 2.0, 1.0],
        [0.0, 1.0, 0.0, f32::NAN, f32::NAN],
        [0.0, f32::NAN, 0.0, 1.5, 4.0],
        [-20.0, 0.0, 0.0, 0.0, 0.0],
    ];
    (0..130).map(|row| patterns[row % patterns.len()]).collect()
}

#[test]
fn blocked_cpu_prediction_matches_row_wise_traversal_bit_exactly() {
    let model = three_trees();
    let base = f(logit(0.3));
    let predictor = CpuInferenceModel::new(&model, base).unwrap_or_else(|e| panic!("{e:?}"));
    let rows = many_rows();
    let flat: Vec<F32> = rows.iter().flatten().map(|&x| f(x)).collect();
    for n_trees in 0..=model.trees.len() + 1 {
        let mut actual = vec![f(f32::NAN); rows.len()];
        predictor
            .predict_margins(&flat, model.n_features, n_trees, plus, &mut actual)
            .unwrap_or_else(|e| panic!("{e:?}"));
        for (row, actual) in rows.iter().zip(&actual) {
            assert_eq!(
                actual.to_bits(),
                predict_margin_upto(&model, &floats(row), n_trees, base, plus).to_bits()
            );
        }
    }
}

#[test]
fn a_row_goes_left_below_the_threshold_only() {
    let mut t = Tree { nodes: vec![] };
    let root = t.push_leaf(f(0.0));
    t.split_leaf(root, 0, f(1.5), false, f(-1.0), f(1.0));
    assert_eq!(v(tree_value(&t, &floats(&[1.0]))), -1.0);
    assert_eq!(v(tree_value(&t, &floats(&[1.5]))), 1.0);
    assert_eq!(v(tree_value(&t, &floats(&[f32::NAN]))), 1.0);
}

#[test]
fn one_row_is_linked_where_the_model_is_logistic() {
    let model = three_trees();
    let base = f(logit(0.3));
    let row = floats(&[0.0, -1.0, 0.0, 1.0, 3.0]);
    let margin = logit(0.3) + -0.25 + 0.125 + 0.0;
    assert_eq!(v(predict_value(&model, &row, 3, true, base, plus, sigmoid)), margin);
    assert_eq!(
        predict_value(&model, &row, 3, false, base, plus, sigmoid),
        sigmoid(f(margin))
    );
}

#[test]
fn broken_trees_are_refused() {
    let mut t = Tree { nodes: vec![] };
    assert_eq!(CpuInferenceTree::new(&t, 2).err(), Some(InferenceError::EmptyTree));
    let root = t.push_leaf(f(0.0));
    t.split_leaf(root, 7, f(0.0), false, f(0.0), f(0.0));
    assert_eq!(
        CpuInferenceTree::new(&t, 2).err(),
        Some(InferenceError::FeatureOutOfRange { feat: 7 })
    );
    t.nodes[0].feat = 0;
    t.nodes[0].left = 9;
    assert_eq!(CpuInferenceTree::new(&t, 2).err(), Some(InferenceError::ChildOutOfRange));
    t.nodes[0].left = 0;
    assert_eq!(CpuInferenceTree::new(&t, 2).err(), Some(InferenceError::ChildCycle));
    let mut none = model(vec![], 0.5);
    none.n_features = 0;
    assert_eq!(
        CpuInferenceModel::new(&none, f(0.0)).err(),
        Some(InferenceError::NoFeatures)
    );
}

#[test]
fn trees_whose_ways_meet_can_be_walked() {
    let mut t = Tree { nodes: vec![] };
    let root = t.push_leaf(f(0.0));
    let (left, right) = t.split_leaf(root, 0, f(0.0), false, f(0.0), f(5.0));
    t.split_leaf(left, 1, f(0.0), true, f(3.0), f(4.0));
    t.nodes[left].right = right as i32;
    assert!(can_walk_all(&vec![Tree { nodes: t.nodes.clone() }], 1, 2));
    assert_eq!(tree_value(&t, &floats(&[-1.0, 1.0])), f(5.0));
    assert_eq!(tree_value(&t, &floats(&[-1.0, -1.0])), f(3.0));
    assert_eq!(tree_value(&t, &floats(&[-1.0, f32::NAN])), f(3.0));
    assert_eq!(tree_value(&t, &floats(&[1.0, 0.0])), f(5.0));
    let m = model(vec![Tree { nodes: t.nodes.clone() }], 0.5);
    assert_eq!(predict_margin_upto(&m, &floats(&[1.0, 0.0]), 1, f(1.0), plus), f(6.0));
    // A feature that is not there, a way without an end, and a tree without a root.
    assert!(!can_walk_all(&vec![Tree { nodes: t.nodes.clone() }], 9, 1));
    t.nodes[left].right = root as i32;
    assert!(can_walk_all(&vec![Tree { nodes: t.nodes.clone() }], 0, 2));
    assert!(!can_walk_all(&vec![t], 1, 2));
    assert!(!can_walk_all(&vec![Tree { nodes: vec![] }], 1, 2));
    assert!(can_walk_all(&vec![], 3, 0));
}

#[test]
fn whichever_nan_a_sum_gives_the_margin_is_the_same() {
    let leaf = |x: f32| Tree { nodes: vec![Node::leaf(f(x))] };
    let m = model(vec![leaf(f32::INFINITY), leaf(f32::NEG_INFINITY)], 0.5);
    let odd = |a: F32, b: F32| {
        let sum = v(a) + v(b);
        if sum.is_nan() {
            F32::from_bits(0xffc1_2345)
        } else {
            f(sum)
        }
    };
    let row = floats(&[0.0, 0.0, 0.0, 0.0, 0.0]);
    let usual = predict_margin_upto(&m, &row, 2, f(0.0), plus);
    assert!(v(usual).is_nan());
    assert_eq!(predict_margin_upto(&m, &row, 2, f(0.0), odd), usual);
    assert_eq!(usual, F32::from_bits(0x7fc0_0000));
}

#[test]
fn a_leaf_needs_no_feature() {
    let leaf = Tree { nodes: vec![Node::leaf(f(0.5))] };
    let t = CpuInferenceTree::new(&leaf, 0).unwrap_or_else(|e| panic!("{e:?}"));
    assert_eq!((t.max_depth, t.leaf_values.as_slice()), (0, [f(0.5)].as_slice()));
    let mut split = Tree { nodes: vec![] };
    split.push_leaf(f(0.0));
    split.split_leaf(0, 0, f(1.0), true, f(-1.0), f(1.0));
    assert_eq!(
        CpuInferenceTree::new(&split, 0).err(),
        Some(InferenceError::FeatureOutOfRange { feat: 0 })
    );
    let mut bare = model(vec![leaf], 0.5);
    bare.n_features = 0;
    assert_eq!(CpuInferenceModel::new(&bare, f(0.0)).err(), Some(InferenceError::NoFeatures));
}

#[test]
fn a_compact_layout_predicts_what_the_full_one_does() {
    let full = three_trees();
    let compact = CompactInferenceModel::new(&full).unwrap_or_else(|e| panic!("{e:?}"));
    let base = f(0.25);
    let wide = CpuInferenceModel::new(&full, base).unwrap_or_else(|e| panic!("{e:?}"));
    let narrow = CpuInferenceModel::new(compact.model(), base).unwrap_or_else(|e| panic!("{e:?}"));
    let rows = many_rows();
    let flat: Vec<F32> = rows.iter().flat_map(|r| floats(r)).collect();
    let picked: Vec<F32> = rows
        .iter()
        .flat_map(|r| compact.canonical_features().iter().map(|&k| f(r[k])).collect::<Vec<_>>())
        .collect();
    let (mut a, mut b) = (vec![f(9.0); rows.len()], vec![f(-9.0); rows.len()]);
    wide.predict_margins(&flat, 5, 99, plus, &mut a).unwrap_or_else(|e| panic!("{e:?}"));
    narrow
        .predict_margins(&picked, compact.n_features(), 99, plus, &mut b)
        .unwrap_or_else(|e| panic!("{e:?}"));
    assert_eq!(a, b);
}

#[test]
fn tables_of_the_wrong_shape_are_refused() {
    let predictor = CpuInferenceModel::new(&three_trees(), f(0.0)).unwrap_or_else(|e| panic!("{e:?}"));
    let mut out = vec![f(0.0); 2];
    assert_eq!(
        predictor.predict_margins(&floats(&[0.0; 8]), 4, 1, plus, &mut out),
        Err(InferenceError::InputFeatures { got: 4, expected: 5 })
    );
    assert!(predictor.predict_margins(&floats(&[0.0; 8]), 5, 1, plus, &mut out).is_err());
}

#[test]
fn chunks_and_workers_do_not_change_the_scores() {
    let model = three_trees();
    let predictor = CpuInferenceModel::new(&model, f(0.5)).unwrap_or_else(|e| panic!("{e:?}"));
    let rows = many_rows();
    let flat: Vec<F32> = rows.iter().flatten().map(|&x| f(x)).collect();
    let want: Vec<F32> = rows
        .iter()
        .map(|r| predict_margin_upto(&model, &floats(r), 3, f(0.5), plus))
        .collect();
    for workers in [1usize, 2, 7, 64] {
        let got = score_contiguous_rows(&predictor, &flat, rows.len(), 5, 3, workers, plus)
            .unwrap_or_else(|e| panic!("{e:?}"));
        assert_eq!(got, want, "{workers} workers");
        let got = score_rows(rows.len(), workers, |i: usize| {
            predict_margin_upto(&model, &floats(&rows[i]), 3, f(0.5), plus)
        });
        assert_eq!(got, want, "{workers} workers");
    }
    assert_eq!(rows_per_chunk(100, 5), 5);
    assert_eq!(rows_per_chunk(0, 5), 1);
}

#[test]
fn one_worker_sees_the_length_of_the_table() {
    let model = three_trees();
    let predictor = CpuInferenceModel::new(&model, f(0.5)).unwrap_or_else(|e| panic!("{e:?}"));
    let flat = floats(&[1.0; 12]);
    assert_eq!(
        score_contiguous_rows(&predictor, &flat, 2, 5, 3, 1, plus),
        Err(InferenceError::InputLength { got: 12, rows: 2, features: 5, expected: 10 })
    );
    assert_eq!(
        score_contiguous_rows(&predictor, &flat, usize::MAX, 5, 3, 1, plus),
        Err(InferenceError::InputOverflow)
    );
    assert_eq!(
        score_contiguous_rows(&predictor, &flat, 2, 4, 3, 1, plus),
        Err(InferenceError::InputFeatures { got: 4, expected: 5 })
    );
    let two = score_contiguous_rows(&predictor, &flat, 2, 5, 3, 4, plus);
    assert_eq!(two, score_contiguous_rows(&predictor, &flat[..10], 2, 5, 3, 1, plus));
    assert_eq!(score_contiguous_rows(&predictor, &flat, 0, 7, 3, 1, plus), Ok(Vec::new()));
}

#[test]
fn projecting_takes_the_used_columns() {
    let data = floats(&[1.0, 2.0, 3.0, 4.0, 5.0, 6.0]);
    let got = project_canonical_rows(&data, 2, 3, &[2, 0]);
    assert_eq!(got.ok(), Some(floats(&[3.0, 1.0, 6.0, 4.0])));
    let bad: Result<Vec<F32>, ProjectError> = project_canonical_rows(&data, 2, 4, &[0]);
    assert!(bad.is_err());
}

#[test]
fn margins_are_transformed_only_for_logistic_models() {
    let mut values = floats(&[0.0, 2.0]);
    transform_prediction_margins(Objective::SquaredError, &mut values, false, sigmoid);
    assert_eq!(values, floats(&[0.0, 2.0]));
    transform_prediction_margins(Objective::Logistic, &mut values, true, sigmoid);
    assert_eq!(values, floats(&[0.0, 2.0]));
    transform_prediction_margins(Objective::Logistic, &mut values, false, sigmoid);
    assert_eq!(v(values[0]), 0.5);
    assert_eq!(values[1], sigmoid(f(2.0)));
}

#[test]
fn arrays_take_the_fitting_route() {
    let shape = ArrayShape {
        n_rows: 1_000_000,
        n_features: 10,
        row_contiguous: true,
        model_features: 10,
        used_features: 8,
        uses_all: false,
        work_per_row: 1000,
    };
    assert_eq!(array_route(shape, true, true), Ok(ArrayRoute::DeviceProjected));
    assert_eq!(array_route(shape, true, false), Err(ArrayError::NoDevice));
    assert_eq!(array_route(shape, false, false), Ok(ArrayRoute::HostContiguous));
    let all = ArrayShape { uses_all: true, ..shape };
    assert_eq!(array_route(all, true, true), Ok(ArrayRoute::DeviceDirect));
    let columns = ArrayShape { row_contiguous: false, ..shape };
    assert_eq!(array_route(columns, true, true), Ok(ArrayRoute::DeviceGathered));
    assert_eq!(array_route(columns, false, true), Ok(ArrayRoute::HostByRow));
    let light = ArrayShape { work_per_row: 7, ..shape };
    assert_eq!(array_route(light, true, true), Ok(ArrayRoute::HostContiguous));
    let narrow = ArrayShape { n_features: 9, ..shape };
    assert_eq!(
        array_route(narrow, false, true),
        Err(ArrayError::Width { got: 9, expected: 10 })
    );
}

#[test]
fn models_and_backends_have_short_texts() {
    let mut m = three_trees();
    assert_eq!(model_text(&m), "<ferrisboost.Model 3 棵树,5 个特征>");
    m.best_iteration = Some(12);
    assert_eq!(model_text(&m), "<ferrisboost.Model 3 棵树,5 个特征,best_iteration=12>");
    assert_eq!(backend_text(None), "cpu");
    assert_eq!(backend_text(Some(3)), "cuda:3");
}
