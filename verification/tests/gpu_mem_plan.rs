//! Planning device memory.
use ferrisboost::gpu_mem_plan::{
    default_safety_reserve, knee_width, resolve_gpu_streaming_cols_per_block,
    resolve_gpu_streaming_plan, Resolution, StreamingMemModel,
};

fn higgs_model() -> StreamingMemModel {
    StreamingMemModel::new(10_500_000, 255, 1, 16, true, true, true, 32 * 1024 * 1024)
}

#[test]
fn model_matches_measured_preallocation_within_a_few_percent() {
    let m = higgs_model();
    let mib = |b: u64| b as f64 / (1024.0 * 1024.0);
    for (cols, measured) in [(4u64, 533.3), (7.0 as u64, 563.5), (14, 633.9), (28, 774.8)] {
        let est = mib(m.peak_for(cols));
        let err = (est - measured).abs() / measured;
        assert!(
            err < 0.05,
            "cols={cols}: 估计 {est:.1} MiB vs 实测 {measured} MiB,误差 {:.1}%",
            err * 100.0
        );
    }
}

#[test]
fn per_col_slope_matches_the_measured_slope() {
    let m = higgs_model();
    let slope = m.per_col_bytes as f64 / (1024.0 * 1024.0);
    assert!(
        (slope - 10.06).abs() < 0.5,
        "每列斜率 {slope:.2} MiB 与实测 10.06 MiB 不符"
    );
}

#[test]
fn solve_picks_the_widest_block_that_fits() {
    let m = higgs_model();
    let budget = m.peak_for(10) + m.per_col_bytes / 2; // 刚好够 10 列多一点
    assert_eq!(m.solve_cols(budget, 300), Some(10));
}

#[test]
fn solve_clamps_to_feature_count() {
    let m = higgs_model();
    assert_eq!(m.solve_cols(m.peak_for(1000), 28), Some(28));
}

#[test]
fn solve_fails_clearly_when_even_one_column_does_not_fit() {
    let m = higgs_model();
    assert_eq!(m.solve_cols(m.fixed_bytes / 2, 300), None);
}

#[test]
fn solve_fails_where_the_fixed_bytes_alone_do_not_fit() {
    let m = StreamingMemModel { fixed_bytes: 100, per_col_bytes: 0, slot_col_bytes: 0 };
    assert_eq!(m.peak_for(1), 100);
    assert_eq!(m.solve_cols(50, 4), None);
    assert_eq!(m.solve_cols(99, 4), None);
    assert_eq!(m.solve_cols(100, 4), Some(4));
    assert_eq!(m.solve_cols(100, 0), Some(1));
    let free = 1u64 << 30;
    let big = StreamingMemModel { fixed_bytes: free, per_col_bytes: 0, slot_col_bytes: 0 };
    let e = resolve_gpu_streaming_cols_per_block(None, 4, free, free, big).err();
    assert_eq!(e.map(|e| e.needed), Some(free));
    assert!(resolve_gpu_streaming_plan(None, None, None, 4, free, free, |_| big).is_err());
}

#[test]
fn two_streams_that_do_not_fit_fall_back_to_one() {
    // One stream fits exactly one column, two streams fit none.
    let free = 1u64 << 32;
    let budget = free - default_safety_reserve(free);
    let make = |s: u64| StreamingMemModel {
        fixed_bytes: 0,
        per_col_bytes: budget * s,
        slot_col_bytes: budget,
    };
    assert!(resolve_gpu_streaming_cols_per_block(None, 4, free, free, make(2)).is_err());
    let p = resolve_gpu_streaming_plan(None, None, None, 4, free, free, make)
        .unwrap_or_else(|e| panic!("{}", e.message()));
    assert_eq!((p.resolved_hist_streams, p.resolved_cols_per_block), (1, 1));
    assert_eq!((p.resident_blocks, p.estimated_peak), (0, budget));
}

#[test]
fn an_automatic_plan_fills_the_budget_and_not_more() {
    let make = |s: u64| StreamingMemModel::new(1_000_000, 255, s, 16, true, false, true, 1 << 20);
    for free in [1u64 << 30, 3 << 30, 1 << 33] {
        let p = resolve_gpu_streaming_plan(None, None, None, 300, free, free, make)
            .unwrap_or_else(|e| panic!("{}", e.message()));
        let m = make(p.resolved_hist_streams);
        let peak =
            |r: u64| m.peak_for_layout(p.resolved_cols_per_block, p.resolved_hist_streams, r);
        let budget = free - p.reserve;
        assert_eq!(p.estimated_peak, peak(p.resident_blocks));
        assert!(p.estimated_peak <= budget && p.resident_blocks <= p.physical_blocks);
        assert!(p.resident_blocks == p.physical_blocks || peak(p.resident_blocks + 1) > budget);
        let one = resolve_gpu_streaming_cols_per_block(None, 300, free, free, make(1))
            .unwrap_or_else(|e| panic!("{}", e.message()));
        assert!(p.resolved_cols_per_block >= one.resolved_cols_per_block);
    }
}

#[test]
fn knee_width_targets_block_count_and_matches_both_measured_shapes() {
    assert_eq!(knee_width(28, 128, 10_500_000), 8);
    assert_eq!(knee_width(300, 128, 10_000_000), 64);
}

#[test]
fn byte_target_would_have_been_wrong_on_wide() {
    let by_blocks = knee_width(300, 64, 10_000_000);
    let by_bytes_would_be = 8u64;
    assert!(
        by_blocks > by_bytes_would_be,
        "块数规则必须比字节规则给出更宽的块:{by_blocks} vs {by_bytes_would_be}"
    );
}

#[test]
fn knee_width_respects_the_budget_ceiling_and_feature_count() {
    assert_eq!(knee_width(28, 4, 10_500_000), 4);
    assert_eq!(knee_width(5, 128, 10_500_000), 4);
    assert!(knee_width(3, 128, 10_500_000) <= 3);
}

#[test]
fn safety_reserve_never_drops_below_half_a_gigabyte() {
    assert_eq!(default_safety_reserve(100 * 1024 * 1024), 512 * 1024 * 1024);
    assert_eq!(
        default_safety_reserve(10 * 1024 * 1024 * 1024),
        10 * 1024 * 1024 * 1024 / 100 * 15
    );
}


fn higgs() -> StreamingMemModel {
    StreamingMemModel::new(10_500_000, 255, 1, 16, true, true, true, 32 * 1024 * 1024)
}
fn wide() -> StreamingMemModel {
    StreamingMemModel::new(10_000_000, 255, 1, 16, true, true, true, 32 * 1024 * 1024)
}
const GB: u64 = 1024 * 1024 * 1024;

fn wide_model(streams: u64) -> StreamingMemModel {
    StreamingMemModel::new(
        10_000_000,
        255,
        streams,
        16,
        true,
        false,
        true,
        32 * 1024 * 1024,
    )
}

#[test]
fn spare_vram_is_spent_on_residency() {
    let p = resolve_gpu_streaming_plan(
        None,
        None,
        None,
        300,
        5118 * 1024 * 1024,
        6 * GB,
        wide_model,
    )
    .unwrap();
    assert!(
        p.resident_blocks > 0,
        "5 GB 空闲还全 streaming,等于白白每层重传所有列块:{}",
        p.report()
    );
    assert!(
        p.estimated_peak <= p.free_vram - p.reserve,
        "峰值不能越过安全预算"
    );
}

#[test]
fn residency_is_clamped_to_the_physical_block_count() {
    let p = resolve_gpu_streaming_plan(
        None,
        None,
        Some(9999),
        300,
        5118 * 1024 * 1024,
        6 * GB,
        wide_model,
    )
    .unwrap();
    assert_eq!(
        p.resident_blocks, p.physical_blocks,
        "常驻块不能超过物理块数"
    );
    assert_eq!(p.residency_label(), "full resident");
}

#[test]
fn tight_budget_falls_back_to_pure_streaming() {
    let model = wide_model(1);
    let budget = model.peak_for_layout(64, 1, 0) + 8 * 1024 * 1024;
    let free = budget + default_safety_reserve(budget * 2);
    let p = resolve_gpu_streaming_plan(None, Some(1), None, 300, free, 6 * GB, wide_model);
    if let Ok(p) = p {
        assert_eq!(
            p.resident_blocks,
            0,
            "预算不够时不能还去常驻:{}",
            p.report()
        );
        assert_eq!(p.residency_label(), "pure streaming");
    }
}

#[test]
fn resident_and_streaming_slots_cost_the_same() {
    let m = wide_model(1);
    let one_stream_two_resident = m.peak_for_layout(64, 1, 2);
    let three_streams_no_resident = m.peak_for_layout(64, 3, 0);
    assert_eq!(
        one_stream_two_resident, three_streams_no_resident,
        "resident slot 和 stream slot 的单价必须一致,否则预算和实际分配对不上"
    );
}

#[test]
fn higgs_auto_resolves_to_the_measured_knee() {
    let p = resolve_gpu_streaming_cols_per_block(None, 28, 4500 * 1024 * 1024, 6 * GB, higgs())
        .unwrap();
    assert_eq!(p.resolved_cols_per_block, 8);
    assert_eq!(p.physical_blocks, 4);
    assert_eq!(p.how, Resolution::BlockCountTarget);
}

#[test]
fn wide_auto_resolves_near_five_blocks_without_collapsing_to_one() {
    let p = resolve_gpu_streaming_cols_per_block(None, 300, 4500 * 1024 * 1024, 6 * GB, wide())
        .unwrap();
    assert!(
        p.resolved_cols_per_block <= 128,
        "不该超过候选集上限:{}",
        p.resolved_cols_per_block
    );
    assert!(
        p.physical_blocks >= 2,
        "不该塌成 1 块:{} 块",
        p.physical_blocks
    );
}

#[test]
fn explicit_width_disables_only_geometry_auto_sizing() {
    let p =
        resolve_gpu_streaming_cols_per_block(Some(4), 28, 4500 * 1024 * 1024, 6 * GB, higgs())
            .unwrap();
    assert_eq!(p.resolved_cols_per_block, 4);
    assert_eq!(p.how, Resolution::ExplicitOverride);
    assert_eq!(p.physical_blocks, 7);
}

#[test]
fn explicit_width_still_plans_streams_and_residency() {
    let epsilon_model = |streams| {
        StreamingMemModel::new(
            400_000,
            255,
            streams,
            16,
            true,
            false,
            true,
            32 * 1024 * 1024,
        )
    };
    let p = resolve_gpu_streaming_plan(
        Some(128),
        None,
        None,
        2_000,
        5_118 * 1024 * 1024,
        6 * GB,
        epsilon_model,
    )
    .unwrap();
    assert_eq!(p.resolved_cols_per_block, 128);
    assert_eq!(p.physical_blocks, 16);
    assert_eq!(p.resolved_hist_streams, 1);
    assert_eq!(p.resident_blocks, 16, "显式块宽不能关闭 residency planning");
    assert_eq!(p.residency_label(), "full resident");
    assert_eq!(p.how, Resolution::ExplicitOverride);
}

#[test]
fn tight_vram_clamps_the_width_and_says_so() {
    let m = higgs();
    let free = m.fixed_bytes + m.per_col_bytes * 5 + default_safety_reserve(2 * GB);
    let p = resolve_gpu_streaming_cols_per_block(None, 28, free, 6 * GB, m).unwrap();
    assert!(p.resolved_cols_per_block < 8, "应被夹小");
    assert_eq!(p.how, Resolution::VramClamped);
}

#[test]
fn fails_before_training_when_the_minimum_does_not_fit() {
    let err = resolve_gpu_streaming_cols_per_block(None, 28, 64 * 1024 * 1024, 6 * GB, higgs())
        .unwrap_err()
        .message();
    assert!(err.contains("放不下"), "错误信息要说清楚:{err}");
}

#[test]
fn estimated_peak_stays_within_the_calibrated_tolerance() {
    let p = resolve_gpu_streaming_cols_per_block(None, 28, 4500 * 1024 * 1024, 6 * GB, higgs())
        .unwrap();
    assert!(p.estimated_peak <= p.free_vram - p.reserve);
}

