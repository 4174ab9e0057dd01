//! Quantile sketches.
use ferrisboost::columns::BinCuts;
use ferrisboost::float32::F32;
use ferrisboost::sketch::summary::RankMath;
use ferrisboost::sketch::{FeatureSketch, SketchSet, SKETCH_RATIO};

fn f(x: f32) -> F32 {
    F32::from_bits(x.to_bits())
}

fn v(x: F32) -> f32 {
    f32::from_bits(x.to_bits())
}

fn math() -> RankMath<
    impl Fn(F32, F32) -> F32,
    impl Fn(F32, F32, F32, usize, usize) -> bool,
    impl Fn(F32, F32) -> F32,
> {
    RankMath {
        plus: |a: F32, b: F32| f(v(a) + v(b)),
        below: |rmin: F32, rmax: F32, total: F32, k: usize, n: usize| {
            0.5 * (v(rmin) + v(rmax)) < v(total) * (k as f32) / (n as f32)
        },
        half: |a: F32, b: F32| f(v(a) + (v(b) - v(a)) * 0.5),
    }
}

fn cuts_of(sk: &mut FeatureSketch, max_bins: usize) -> Vec<f32> {
    sk.cuts(max_bins, &math()).into_iter().map(v).collect()
}

fn find_bin(cuts: &[f32], x: f32) -> usize {
    cuts.partition_point(|&c| c <= x)
}

fn max_quantile_err(cuts: &[f32], max_bins: usize) -> f32 {
    cuts.iter()
        .enumerate()
        .map(|(k, &x)| (x - (k + 1) as f32 / max_bins as f32).abs())
        .fold(0.0, f32::max)
}

#[test]
fn low_cardinality_is_exact() {
    let m = math();
    let mut sk = FeatureSketch::new(256);
    for _ in 0..1000 {
        for x in [1.0, 2.0, 3.0, 5.0] {
            sk.push(f(x), f(1.0), &m);
        }
    }
    let cuts = cuts_of(&mut sk, 256);
    assert_eq!(cuts.len(), 3);
    let bins: Vec<usize> = [1.0, 2.0, 3.0, 5.0].iter().map(|&x| find_bin(&cuts, x)).collect();
    assert_eq!(bins, vec![0, 1, 2, 3]);
}

#[test]
fn uniform_quantiles_sorted_input() {
    let m = math();
    let n = 100_000;
    let max_bins = 16;
    let mut sk = FeatureSketch::new(max_bins);
    for i in 0..n {
        sk.push(f(i as f32 / n as f32), f(1.0), &m);
    }
    let cuts = cuts_of(&mut sk, max_bins);
    assert!(cuts.len() <= max_bins - 1);
    let e = max_quantile_err(&cuts, max_bins);
    assert!(e < 0.02, "{e}");
}

#[test]
fn uniform_quantiles_shuffled_input() {
    let m = math();
    let n = 100_000;
    let max_bins = 16;
    let mut sk = FeatureSketch::new(max_bins);
    for i in 0..n {
        let x = ((i * 7919) % n) as f32 / n as f32;
        sk.push(f(x), f(1.0), &m);
    }
    let cuts = cuts_of(&mut sk, max_bins);
    let e = max_quantile_err(&cuts, max_bins);
    assert!(e < 0.02, "{e}");
}

#[test]
fn merge_matches_single_pass() {
    let m = math();
    let n = 50_000;
    let max_bins = 32;
    let mut whole = FeatureSketch::new(max_bins);
    let mut a = FeatureSketch::new(max_bins);
    let mut b = FeatureSketch::new(max_bins);
    for i in 0..n {
        let x = ((i * 7919) % n) as f32 / n as f32;
        whole.push(f(x), f(1.0), &m);
        if i % 2 == 0 {
            a.push(f(x), f(1.0), &m);
        } else {
            b.push(f(x), f(1.0), &m);
        }
    }
    a.merge(&b, &m);
    let c_whole = cuts_of(&mut whole, max_bins);
    let c_merged = cuts_of(&mut a, max_bins);
    assert_eq!(c_whole.len(), c_merged.len());
    for (x, y) in c_whole.iter().zip(&c_merged) {
        assert!((x - y).abs() < 0.03, "{y} vs {x}");
    }
}

#[test]
fn merge_preserves_total_weight() {
    let m = math();
    let mut a = FeatureSketch::new(16);
    let mut b = FeatureSketch::new(16);
    for i in 0..100 {
        a.push(f(i as f32), f(1.0), &m);
        b.push(f(i as f32), f(2.0), &m);
    }
    a.merge(&b, &m);
    assert_eq!(v(a.total_weight()), 300.0);
}

#[test]
fn weights_shift_quantiles() {
    let m = math();
    let mut unweighted = FeatureSketch::new(8);
    let mut weighted = FeatureSketch::new(8);
    for i in 0..1000 {
        let x = i as f32;
        unweighted.push(f(x), f(1.0), &m);
        weighted.push(f(x), f(if x > 500.0 { 10.0 } else { 1.0 }), &m);
    }
    let cu = cuts_of(&mut unweighted, 8);
    let cw = cuts_of(&mut weighted, 8);
    assert!(cw[3] > cu[3], "{} vs {}", cw[3], cu[3]);
}

#[test]
fn nan_is_ignored() {
    let m = math();
    let mut sk = FeatureSketch::new(8);
    for i in 0..100 {
        sk.push(f(i as f32), f(1.0), &m);
        sk.push(f(f32::NAN), f(1.0), &m);
    }
    assert_eq!(v(sk.total_weight()), 100.0);
}

#[test]
fn compression_bounds_size() {
    let m = math();
    let max_bins = 16;
    let mut sk = FeatureSketch::new(max_bins);
    for i in 0..200_000 {
        sk.push(f((i % 99991) as f32), f(1.0), &m);
    }
    sk.collapse(&m);
    let n: usize = sk.levels.iter().flatten().map(|l| l.len()).sum();
    assert!(n <= max_bins * SKETCH_RATIO + 2, "{n}");
}

#[test]
fn constant_feature_has_no_cuts() {
    let m = math();
    let mut sk = FeatureSketch::new(256);
    for _ in 0..1000 {
        sk.push(f(42.0), f(1.0), &m);
    }
    assert!(cuts_of(&mut sk, 256).is_empty());
}

#[test]
fn cuts_are_strictly_increasing() {
    let m = math();
    let mut sk = FeatureSketch::new(16);
    for i in 0..100_000 {
        sk.push(f(if i % 100 == 0 { i as f32 } else { 0.0 }), f(1.0), &m);
    }
    let cuts = cuts_of(&mut sk, 16);
    for w in cuts.windows(2) {
        assert!(w[0] < w[1], "{:?}", cuts);
    }
}

#[test]
fn empty_sketch_is_safe() {
    let mut sk = FeatureSketch::new(16);
    assert!(cuts_of(&mut sk, 16).is_empty());
    assert_eq!(v(sk.total_weight()), 0.0);
}

fn three_features() -> BinCuts {
    let m = math();
    let mut set = SketchSet::new(3, 8);
    for i in 0..1000 {
        set.push_row(&[f(i as f32), f((i % 3) as f32), f(7.0)], f(1.0), &m);
    }
    set.finalize(&m).unwrap_or_else(|| panic!("cuts"))
}

#[test]
fn sketch_set_finalize() {
    let cuts = three_features();
    assert_eq!(cuts.n_feats(), 3);
    assert!(cuts.n_bins(0) > 4);
    assert_eq!(cuts.n_bins(1), 3);
    assert_eq!(cuts.n_bins(2), 1);
}

#[test]
fn columns_and_rows_give_the_same_cuts() {
    let m = math();
    let mut set = SketchSet::new(3, 8);
    let columns: Vec<Vec<F32>> = vec![
        (0..1000).map(|i| f(i as f32)).collect(),
        (0..1000).map(|i| f((i % 3) as f32)).collect(),
        (0..1000).map(|_| f(7.0)).collect(),
    ];
    for (k, c) in columns.iter().enumerate() {
        set.push_column(k as u32, c, None, &m);
    }
    let by_column = set.finalize(&m).unwrap_or_else(|| panic!("cuts"));
    let by_row = three_features();
    assert_eq!(by_column.offsets, by_row.offsets);
    assert_eq!(by_column.values, by_row.values);
}

#[test]
fn merged_sets_add_their_weights() {
    let m = math();
    let mut a = SketchSet::new(1, 4);
    let mut b = SketchSet::new(1, 4);
    a.push_column(0, &[f(1.0), f(2.0)], Some(&[f(0.5), f(1.5)]), &m);
    b.push_column(0, &[f(3.0)], None, &m);
    a.merge(&b, &m);
    assert_eq!(v(a.per_feat[0].total_weight()), 3.0);
    assert_eq!(a.n_feats(), 1);
}
