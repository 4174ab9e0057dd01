//! Sources over batches of columns.
use ferrisboost::float32::F32;
use ferrisboost::sketch::summary::RankMath;
use ferrisboost::source::arrow_source::{build_cuts, ArrowSource, Batch, CutsFailure};
use ferrisboost::source::dense::{copy_cuts, DenseSource};
use ferrisboost::source::table::SourceError;
use ferrisboost::types::MISSING_BIN;

fn f(x: f32) -> F32 {
    F32::from_bits(x.to_bits())
}

fn v(x: F32) -> f32 {
    f32::from_bits(x.to_bits())
}

fn floats(xs: &[f32]) -> Vec<F32> {
    xs.iter().map(|&x| f(x)).collect()
}

fn math() -> RankMath<
    impl Fn(F32, F32) -> F32 + Sync,
    impl Fn(F32, F32, F32, usize, usize) -> bool + Sync,
    impl Fn(F32, F32) -> F32 + Sync,
> {
    RankMath {
        plus: |a: F32, b: F32| f(v(a) + v(b)),
        below: |rmin: F32, rmax: F32, total: F32, k: usize, n: usize| {
            0.5 * (v(rmin) + v(rmax)) < v(total) * (k as f32) / (n as f32)
        },
        half: |a: F32, b: F32| f(v(a) + (v(b) - v(a)) * 0.5),
    }
}

const NAN: f32 = f32::NAN;

fn batches() -> Vec<Batch> {
    let mk = |a: &[f32], b: &[f32], c: &[f32]| Batch {
        columns: vec![floats(a), floats(b), floats(c)],
        n_rows: a.len(),
    };
    vec![
        mk(&[1.0, 2.0, 3.0], &[10.0, NAN, 30.0], &[7.0, 8.0, 9.0]),
        mk(&[4.0, 5.0, 6.0], &[40.0, 50.0, NAN], &[1.0, 2.0, 3.0]),
    ]
}

fn source(bs: &[Batch], cols: usize) -> ArrowSource {
    ArrowSource::new(bs, 16, cols, &math()).unwrap_or_else(|e| panic!("{e:?}"))
}

#[test]
fn cut_sketch_is_thread_count_independent() {
    let bs = batches();
    let with = |threads: usize| {
        rayon::ThreadPoolBuilder::new()
            .num_threads(threads)
            .build()
            .unwrap()
            .install(|| build_cuts(&bs, 16, &math()).unwrap_or_else(|e| panic!("{e:?}")))
    };
    let one = with(1);
    let eight = with(8);
    let rayon_default = with(0);
    assert_eq!(one.offsets, eight.offsets);
    assert_eq!(one.values, eight.values);
    assert_eq!(one.offsets, rayon_default.offsets);
    assert_eq!(one.values, rayon_default.values);
}

#[test]
fn arrow_and_dense_agree_bin_for_bin() {
    let bs = batches();
    let src = source(&bs, 2);
    let row_major = floats(&[
        1.0, 10.0, 7.0, //
        2.0, NAN, 8.0, //
        3.0, 30.0, 9.0, //
        4.0, 40.0, 1.0, //
        5.0, 50.0, 2.0, //
        6.0, NAN, 3.0,
    ]);
    let dense = DenseSource::from_row_major(&row_major, 6, 3, 16, 2, &math())
        .unwrap_or_else(|| panic!("source"));
    assert_eq!(src.n_rows(), 6);
    assert_eq!(src.n_features(), 3);
    assert_eq!(src.n_blocks(), dense.n_blocks());
    for row in 0..6 {
        for k in 0..3u32 {
            assert_eq!(src.bin_at(row, k), dense.bin_at(row, k), "row {row} feature {k}");
        }
    }
    for k in 0..3u32 {
        assert_eq!(src.cuts().cuts_for(k), dense.cuts().cuts_for(k), "feature {k}");
    }
}

#[test]
fn nulls_become_the_missing_sentinel() {
    let src = source(&batches(), 3);
    assert_eq!(src.bin_at(1, 1), MISSING_BIN);
    assert_eq!(src.bin_at(5, 1), MISSING_BIN);
    for row in [0usize, 2, 3, 4] {
        assert_ne!(src.bin_at(row, 1), MISSING_BIN, "row {row}");
    }
}

#[test]
fn batch_boundaries_do_not_change_anything() {
    let bs = batches();
    let split = source(&bs, 2);
    let merged = Batch {
        columns: (0..3)
            .map(|k| bs.iter().flat_map(|b| b.columns[k].iter().copied()).collect())
            .collect(),
        n_rows: 6,
    };
    let whole = source(&[merged], 2);
    assert_eq!(split.n_rows(), whole.n_rows());
    for row in 0..6 {
        for k in 0..3u32 {
            assert_eq!(split.bin_at(row, k), whole.bin_at(row, k), "row {row} feature {k}");
        }
    }
}

#[test]
fn with_cuts_reuses_the_given_boundaries() {
    let bs = batches();
    let train = source(&bs, 2);
    let cuts = copy_cuts(train.cuts());
    let valid = ArrowSource::with_cuts(&bs[1..], cuts, 2).unwrap_or_else(|e| panic!("{e:?}"));
    assert_eq!(valid.n_rows(), 3);
    for k in 0..3u32 {
        assert_eq!(valid.cuts().cuts_for(k), train.cuts().cuts_for(k));
    }
    for k in 0..3u32 {
        assert_eq!(valid.bin_at(0, k), train.bin_at(3, k), "feature {k}");
    }
}

#[test]
fn mismatched_column_counts_are_caught() {
    let mut bs = batches();
    bs.truncate(1);
    bs.push(Batch { columns: vec![floats(&[1.0])], n_rows: 1 });
    assert!(matches!(
        build_cuts(&bs, 16, &math()),
        Err(CutsFailure::ColumnCount { got: 1, expected: 3 })
    ));
}

#[test]
fn empty_parallel_cut_input_is_rejected() {
    assert!(matches!(build_cuts(&[], 16, &math()), Err(CutsFailure::NoBatch)));
}

#[test]
fn batches_must_fit_the_given_cuts() {
    let bs = batches();
    let cuts = copy_cuts(source(&bs, 2).cuts());
    let odd = [Batch { columns: vec![floats(&[1.0])], n_rows: 1 }];
    assert!(ArrowSource::with_cuts(&odd, cuts, 2).is_err());
    assert!(matches!(
        source(&bs, 2).with_block(5),
        Err(SourceError::NoBlock { block: 5, blocks: 2 })
    ));
}
