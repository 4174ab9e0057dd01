//! Sources over a matrix in memory.
use ferrisboost::columns::{BinCuts, BinningStrategy};
use ferrisboost::float32::F32;
use ferrisboost::sketch::summary::RankMath;
use ferrisboost::source::dense::DenseSource;
use ferrisboost::source::table::SourceError;
use ferrisboost::types::MISSING_BIN;

type FeatId = u32;
type Bin = u8;

fn f(x: f32) -> F32 {
    F32::from_bits(x.to_bits())
}

fn v(x: F32) -> f32 {
    f32::from_bits(x.to_bits())
}

fn floats(xs: &[f32]) -> Vec<F32> {
    xs.iter().map(|&x| f(x)).collect()
}

fn math() -> RankMath<
    impl Fn(F32, F32) -> F32 + Sync,
    impl Fn(F32, F32, F32, usize, usize) -> bool + Sync,
    impl Fn(F32, F32) -> F32 + Sync,
> {
    RankMath {
        plus: |a: F32, b: F32| f(v(a) + v(b)),
        below: |rmin: F32, rmax: F32, total: F32, k: usize, n: usize| {
            0.5 * (v(rmin) + v(rmax)) < v(total) * (k as f32) / (n as f32)
        },
        half: |a: F32, b: F32| f(v(a) + (v(b) - v(a)) * 0.5),
    }
}

fn source(data: &[f32], n_rows: usize, n_feats: usize, max_bins: u32, cols: usize) -> DenseSource {
    DenseSource::from_row_major(&floats(data), n_rows, n_feats, max_bins, cols, &math())
        .unwrap_or_else(|| panic!("source"))
}

fn toy() -> (Vec<f32>, usize, usize) {
    let data = vec![
        1.0, 10.0, 0.0, //
        2.0, 20.0, 0.0, //
        3.0, 30.0, 1.0, //
        4.0, 40.0, 1.0, //
    ];
    (data, 4, 3)
}

#[test]
fn blocks_cover_every_feature_once() {
    let (data, n_rows, n_feats) = toy();
    let src = source(&data, n_rows, n_feats, 16, 2);
    assert_eq!(src.n_blocks(), 2);
    let mut seen: Vec<FeatId> = src
        .blocks()
        .iter()
        .flat_map(|b| b.feat_ids.iter().copied())
        .collect();
    seen.sort_unstable();
    assert_eq!(seen, vec![0, 1, 2]);
    assert_eq!(src.n_rows(), 4);
    assert_eq!(src.n_features(), 3);
}

#[test]
fn layout_is_column_major() {
    let (data, n_rows, n_feats) = toy();
    let src = source(&data, n_rows, n_feats, 16, 2);
    let b = src.with_block(0).unwrap_or_else(|_| panic!("block"));
    assert_eq!(b.data.len(), b.n_feats() * n_rows);
    assert_eq!(b.column(0), &b.data[0..n_rows]);
    assert_eq!(b.column(1), &b.data[n_rows..2 * n_rows]);
}

#[test]
fn quantization_matches_find_bin() {
    let (data, n_rows, n_feats) = toy();
    let src = source(&data, n_rows, n_feats, 16, 2);
    for r in 0..n_rows {
        for k in 0..n_feats as FeatId {
            let x = data[r * n_feats + k as usize];
            assert_eq!(src.bin_at(r, k), src.cuts().find_bin(k, f(x)), "row {r} feat {k}");
        }
    }
}

#[test]
fn monotonic_values_give_monotonic_bins() {
    let (data, n_rows, n_feats) = toy();
    let src = source(&data, n_rows, n_feats, 16, 2);
    for r in 1..n_rows {
        assert!(src.bin_at(r, 0) >= src.bin_at(r - 1, 0));
    }
    assert_ne!(src.bin_at(0, 2), src.bin_at(3, 2));
}

#[test]
fn nan_becomes_missing_sentinel() {
    let data = vec![
        1.0, f32::NAN, //
        2.0, 5.0, //
        f32::NAN, 6.0, //
    ];
    let src = source(&data, 3, 2, 16, 8);
    assert_eq!(src.bin_at(0, 1), MISSING_BIN);
    assert_eq!(src.bin_at(2, 0), MISSING_BIN);
    assert_ne!(src.bin_at(0, 0), MISSING_BIN);
    assert_ne!(src.bin_at(1, 1), MISSING_BIN);
}

#[test]
fn binning_is_thread_count_independent() {
    let (n_rows, nf) = (2000usize, 12usize);
    let mut data = Vec::with_capacity(n_rows * nf);
    let mut state = 0x243f_6a88_85a3_08d3u64;
    for _ in 0..n_rows * nf {
        state = state.wrapping_mul(6364136223846793005).wrapping_add(1);
        data.push((state >> 40) as f32 / 1000.0);
    }
    let cuts_of = |threads: usize| {
        rayon::ThreadPoolBuilder::new()
            .num_threads(threads)
            .build()
            .unwrap()
            .install(|| source(&data, n_rows, nf, 64, 4).into_cuts())
    };
    let a = cuts_of(1);
    let b = cuts_of(8);
    for k in 0..nf as u32 {
        assert_eq!(a.cuts_for(k), b.cuts_for(k), "feature {k}");
    }
}

#[test]
fn provided_binning_uses_the_given_cuts_verbatim() {
    let data = floats(&[0.0, 10.0, 1.0, 20.0, 2.0, 30.0, 3.0, 40.0]);
    let cuts = BinCuts::new(floats(&[1.5, 2.5, 15.0]), vec![0, 2, 3]);
    let src = DenseSource::new(&data, 4, 2, BinningStrategy::Provided(&cuts), 2, &math())
        .unwrap_or_else(|| panic!("source"));
    assert_eq!(src.bin_at(0, 0), 0);
    assert_eq!(src.bin_at(1, 0), 0);
    assert_eq!(src.bin_at(2, 0), 1);
    assert_eq!(src.bin_at(3, 0), 2);
    assert_eq!(src.bin_at(0, 1), 0);
    assert_eq!(src.bin_at(1, 1), 1);
    assert_eq!(src.cuts().cuts_for(0), floats(&[1.5, 2.5]).as_slice());
}

#[test]
fn with_cuts_reuses_training_boundaries() {
    let (train, n_rows, n_feats) = toy();
    let src = source(&train, n_rows, n_feats, 16, 8);
    let cuts = src.cuts();
    let valid = vec![
        100.0, 1000.0, 1.0, //
        1.5, 15.0, 0.0, //
    ];
    let expected: Vec<Bin> = (0..2)
        .flat_map(|r| (0..n_feats as FeatId).map(move |k| (r, k)))
        .map(|(r, k)| cuts.find_bin(k, f(valid[r * n_feats + k as usize])))
        .collect();
    let cuts = source(&train, n_rows, n_feats, 16, 8).into_cuts();
    let vsrc = DenseSource::with_cuts(&floats(&valid), 2, n_feats, cuts, 8);
    let got: Vec<Bin> = (0..2)
        .flat_map(|r| (0..n_feats as FeatId).map(move |k| (r, k)))
        .map(|(r, k)| vsrc.bin_at(r, k))
        .collect();
    assert_eq!(got, expected);
}

#[test]
fn a_column_comes_out_of_its_block() {
    let (data, n_rows, n_feats) = toy();
    let src = source(&data, n_rows, n_feats, 16, 2);
    for k in 0..n_feats as FeatId {
        let column = src.feature_column(k).unwrap_or_else(|_| panic!("column"));
        let want: Vec<Bin> = (0..n_rows).map(|r| src.bin_at(r, k)).collect();
        assert_eq!(column, want);
    }
    assert!(matches!(src.with_block(2), Err(SourceError::NoBlock { block: 2, blocks: 2 })));
    assert!(src.feature_column(3).is_err());
}

#[test]
fn equal_values_share_a_bin() {
    let src = source(&[5.0, 1.0, 5.0, 2.0, -0.0, 0.0], 6, 1, 16, 1);
    assert_eq!(src.bin_at(0, 0), src.bin_at(2, 0));
    assert_eq!(src.bin_at(4, 0), src.bin_at(5, 0));
}
