//! Sampling features per tree.
use ferrisboost::colsample::{required_blocks, sample_features, sampled_count, SplitMix64};
use ferrisboost::float32::F32;

type FeatId = u32;

fn f(x: f32) -> F32 {
    F32::from_bits(x.to_bits())
}

#[test]
fn count_truncates_and_keeps_at_least_one() {
    assert_eq!(sampled_count(300, f(0.1)), 30);
    assert_eq!(sampled_count(300, f(0.3)), 90);
    assert_eq!(sampled_count(28, f(0.7)), 19);
    assert_eq!(sampled_count(10, f(0.99)), 9);
    assert_eq!(sampled_count(300, f(0.0001)), 1);
    assert_eq!(sampled_count(300, f(0.0)), 1);
    assert_eq!(sampled_count(1, f(0.5)), 1);
}

#[test]
fn rate_one_returns_every_feature_in_order() {
    let all = sample_features(64, f(1.0), 7, 3);
    assert_eq!(all, (0..64u32).collect::<Vec<_>>());
}

#[test]
fn sample_is_sorted_deduplicated_and_right_sized() {
    for round in 0..8 {
        let s = sample_features(300, f(0.1), 42, round);
        assert_eq!(s.len(), 30);
        assert!(s.windows(2).all(|w| w[0] < w[1]));
        assert!(s.iter().all(|&f| f < 300));
    }
}

#[test]
fn same_seed_and_round_reproduce_exactly() {
    assert_eq!(
        sample_features(300, f(0.3), 11, 5),
        sample_features(300, f(0.3), 11, 5)
    );
}

#[test]
fn different_seed_or_round_changes_the_set() {
    let a = sample_features(300, f(0.3), 11, 5);
    assert_ne!(a, sample_features(300, f(0.3), 12, 5));
    assert_ne!(a, sample_features(300, f(0.3), 11, 6));
}

#[test]
fn required_blocks_skips_blocks_without_sampled_features() {
    let blocks: Vec<Vec<FeatId>> = vec![
        vec![0, 1, 2],
        vec![3, 4, 5],
        vec![6, 7, 8],
        vec![9, 10, 11],
    ];
    let sampled: Vec<FeatId> = vec![1, 6, 8];
    let req = required_blocks(&sampled, &blocks);
    assert_eq!(req, vec![(0, vec![1]), (2, vec![0, 2])]);
}

#[test]
fn sampled_ids_do_not_depend_on_block_layout() {
    let s = sample_features(300, f(0.1), 99, 2);
    let wide: Vec<Vec<FeatId>> = (0..3).map(|b| (b * 100..(b + 1) * 100).collect()).collect();
    let narrow: Vec<Vec<FeatId>> = (0..30).map(|b| (b * 10..(b + 1) * 10).collect()).collect();
    let resolve = |layout: &[Vec<FeatId>]| -> Vec<FeatId> {
        let mut out = Vec::new();
        for (b, local) in required_blocks(&s, layout) {
            for i in local {
                out.push(layout[b][i]);
            }
        }
        out
    };
    let from_wide = resolve(&wide);
    let from_narrow = resolve(&narrow);
    assert_eq!(from_wide, s);
    assert_eq!(from_narrow, s);
}

#[test]
fn generator_gives_the_published_sequence() {
    let mut g = SplitMix64 { state: 0 };
    assert_eq!(g.next_u64(), 0xE220_A839_7B1D_CDAF);
    assert_eq!(g.next_u64(), 0x6E78_9E6A_A1B9_65F4);
}

#[test]
fn drawn_numbers_stay_below_the_bound() {
    let mut g = SplitMix64 { state: 5 };
    for n in [1u64, 2, 3, 7, 1000, u64::MAX] {
        assert!(g.below(n) < n);
    }
}

#[test]
fn odd_rates_are_clamped() {
    assert_eq!(sampled_count(10, f(f32::NAN)), 1);
    assert_eq!(sampled_count(10, f(-1.0)), 1);
    assert_eq!(sampled_count(10, f(2.0)), 10);
    assert_eq!(sampled_count(0, f(1.0)), 0);
}
