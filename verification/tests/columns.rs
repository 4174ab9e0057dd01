//! Column blocks and cuts.
use ferrisboost::columns::{
    auto_cols_per_block, join_cuts, partition_features, BinCuts, ColumnBlock, CutsError,
};
use ferrisboost::float32::F32;

fn f(x: f32) -> F32 {
    F32::from_bits(x.to_bits())
}

fn floats(xs: &[f32]) -> Vec<F32> {
    xs.iter().map(|&x| f(x)).collect()
}

#[test]
fn wide_data_aligns_block_count_to_thread_count() {
    let cols = auto_cols_per_block(300, 8, 255);
    assert_eq!(cols, 38);
    assert_eq!(300_usize.div_ceil(cols), 8);
}

#[test]
fn cache_bound_wins_when_alignment_would_make_blocks_too_wide() {
    let cols = auto_cols_per_block(300, 1, 255);
    assert!(cols <= 64, "{cols}");
    assert_eq!(300_usize.div_ceil(cols) % 1, 0);
}

#[test]
fn narrow_data_still_produces_at_least_thread_count_blocks() {
    let cols = auto_cols_per_block(28, 8, 255);
    assert!(cols <= 4, "{cols}");
    assert!(28_usize.div_ceil(cols) >= 7);
}

#[test]
fn smaller_max_bin_allows_wider_blocks() {
    assert!(auto_cols_per_block(300, 1, 32) >= auto_cols_per_block(300, 1, 255));
}

#[test]
fn degenerate_inputs_never_return_zero() {
    for (f, t, b) in [(1, 1, 255), (1, 64, 255), (0, 0, 0), (7, 1000, 255)] {
        assert!(auto_cols_per_block(f, t, b) >= 1);
    }
}

#[test]
fn xgboost_edges_convert_to_interior_cuts() {
    let indptr = vec![0u32, 9, 11];
    let edges = floats(&[
        f32::NEG_INFINITY, 1.0, 2.0, 3.0, 4.0, 5.0, 6.0, 7.0, 14.0, f32::NEG_INFINITY, 6.0,
    ]);
    let cuts = BinCuts::from_xgboost_edges(&indptr, &edges).unwrap_or_else(|_| panic!("edges"));
    assert_eq!(cuts.cuts_for(0), floats(&[1.0, 2.0, 3.0, 4.0, 5.0, 6.0, 7.0]).as_slice());
    assert_eq!(cuts.n_bins(0), 8);
    assert_eq!(cuts.cuts_for(1), floats(&[]).as_slice());
    assert_eq!(cuts.n_bins(1), 1);
    for v in 0..8 {
        assert_eq!(cuts.find_bin(0, f(v as f32)), v as u8);
    }
    assert!(
        BinCuts::from_xgboost_edges(&[0, 4], &floats(&[f32::NEG_INFINITY, 2.0, 1.0, 9.0])).is_err()
    );
}

#[test]
fn edges_out_of_bounds_are_reported() {
    let r = BinCuts::from_xgboost_edges(&[0, 3], &floats(&[f32::NEG_INFINITY, 2.0]));
    assert!(matches!(r, Err(CutsError::OutOfBounds { feat: 0, lo: 0, hi: 3 })));
}

#[test]
fn bins_split_at_the_cuts() {
    let cuts = BinCuts::new(floats(&[-1.0, 0.0, 2.5]), vec![0, 3]);
    for (v, bin) in [(-5.0, 0), (-1.0, 1), (-0.5, 1), (-0.0, 2), (0.0, 2), (2.0, 2), (2.5, 3), (9.0, 3)] {
        assert_eq!(cuts.find_bin(0, f(v)), bin, "{v}");
    }
    assert_eq!(cuts.total_bins(), 4);
    assert_eq!(cuts.n_feats(), 1);
    assert_eq!(cuts.hist_offset(0), 0);
    assert_eq!(cuts.hist_offset(1), 4);
}

#[test]
fn block_offsets_follow_the_listed_features() {
    let cuts = BinCuts::new(floats(&[1.0, 2.0, 3.0, 5.0]), vec![0, 2, 3, 4]);
    assert_eq!(cuts.block_hist_offsets(&[2, 0]), vec![0, 2, 5]);
    assert_eq!(cuts.block_hist_offsets(&[0, 1, 2]), vec![0, 3, 5, 7]);
}

#[test]
fn features_are_cut_into_blocks_of_the_width() {
    assert_eq!(partition_features(5, 2), vec![vec![0, 1], vec![2, 3], vec![4]]);
    assert_eq!(partition_features(0, 3), Vec::<Vec<u32>>::new());
}

#[test]
fn joined_cuts_keep_every_feature() {
    let cuts = join_cuts(&vec![floats(&[1.0, 2.0]), floats(&[]), floats(&[7.0])]);
    let cuts = cuts.unwrap_or_else(|| panic!("cuts"));
    assert_eq!(cuts.n_feats(), 3);
    assert_eq!(cuts.cuts_for(2), floats(&[7.0]).as_slice());
    assert!(join_cuts(&vec![floats(&[2.0, 1.0])]).is_none());
}

#[test]
fn a_column_is_one_piece_of_a_block() {
    let b = ColumnBlock { feat_ids: vec![4, 9], data: vec![1, 2, 3, 4, 5, 6], n_rows: 3 };
    assert_eq!(b.n_feats(), 2);
    assert_eq!(b.column(1), &[4, 5, 6]);
}

#[test]
fn bins_follow_one_another() {
    let c = BinCuts::new(floats(&[1.0, 2.0, 5.0]), vec![0, 2, 2, 3]);
    let starts: Vec<usize> = (0..3).map(|k| c.hist_offset(k)).collect();
    let bins: Vec<usize> = (0..3).map(|k| c.n_bins(k)).collect();
    assert_eq!((starts, bins), (vec![0, 3, 4], vec![3, 1, 2]));
    assert_eq!((c.total_bins(), c.n_feats()), (6, 3));
}
