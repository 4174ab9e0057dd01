//! Numbers and plans in words.
use ferrisboost::gpu_mem_plan::{GpuStreamingPlan, PlanError, Resolution};
use ferrisboost::report::{bool_text, decimal_text, megabytes_text};
use ferrisboost::text::{parse_u64, to_chars};

#[test]
fn numbers_are_written_in_decimal() {
    for n in [0u64, 7, 10, 99, 100, 123_456_789, u64::MAX] {
        assert_eq!(decimal_text(n), n.to_string());
    }
    assert_eq!(bool_text(true), "true");
    assert_eq!(bool_text(false), "false");
}

#[test]
fn written_numbers_are_read_back() {
    for n in [0u64, 1, 42, u64::MAX] {
        assert_eq!(parse_u64(&to_chars(&decimal_text(n))), Some(n));
    }
    assert_eq!(parse_u64(&to_chars("+5")), Some(5));
    assert_eq!(parse_u64(&to_chars("18446744073709551616")), None);
    assert_eq!(parse_u64(&to_chars("")), None);
    assert_eq!(parse_u64(&to_chars("1x")), None);
}

#[test]
fn megabytes_round_as_double_precision_does() {
    let mut samples: Vec<u64> = vec![
        0, 1, 52_428, 52_429, 262_144, 786_432, 1_048_575, 1_048_576, 5_118 * 1024 * 1024,
        (1 << 53) - 1, 1 << 53, (1 << 53) + 1, (1 << 53) + 3, u64::MAX, u64::MAX - 1024,
    ];
    let mut state = 88172645463325252u64;
    for shift in 0..64 {
        for _ in 0..20 {
            state ^= state << 13;
            state ^= state >> 7;
            state ^= state << 17;
            samples.push(state >> shift);
        }
    }
    for b in samples {
        let mb = b as f64 / (1024.0 * 1024.0);
        assert_eq!(megabytes_text(b, 1), format!("{mb:.1}"), "{b}");
        assert_eq!(megabytes_text(b, 2), format!("{mb:.2}"), "{b}");
        assert_eq!(megabytes_text(b, 3), format!("{mb:.3}"), "{b}");
    }
}

#[test]
fn ties_go_to_the_even_digit() {
    assert_eq!(megabytes_text(262_144, 1), "0.2");
    assert_eq!(megabytes_text(786_432, 1), "0.8");
}

#[test]
fn a_plan_is_told_line_by_line() {
    let plan = GpuStreamingPlan {
        free_vram: 5_118 * 1024 * 1024,
        total_vram: 6 * 1024 * 1024 * 1024,
        reserve: 767 * 1024 * 1024,
        fixed_bytes: 500 * 1024 * 1024,
        per_col_bytes: 10_500_000,
        max_safe_cols: 300,
        target_blocks: 5,
        target_cols: 60,
        resolved_cols_per_block: 64,
        resolved_hist_streams: 1,
        resident_blocks: 2,
        physical_blocks: 5,
        estimated_peak: 4_000_000_000,
        how: Resolution::BlockCountTarget,
    };
    let lines: Vec<String> = plan.report().split('\n').map(|l| l.trim().to_string()).collect();
    assert_eq!(
        lines,
        vec![
            "GPU streaming memory plan:",
            "free_vram:        5118.0 MB / 6144.0 MB",
            "reserve:          767.0 MB",
            "fixed_bytes:      500.0 MB",
            "per_col_bytes:    10.01 MB",
            "max_safe_cols:    300",
            "target_blocks:    5",
            "target_cols:      60",
            "resolved:         64 cols/block  [block-count auto target]",
            "hist_streams:     1",
            "physical_blocks:  5",
            "resident/stream:  2 resident + 3 streamed  [hybrid partial resident]",
            "estimated_peak:   3814.7 MB",
        ]
    );
    assert_eq!(Resolution::ExplicitOverride.label(), "explicit manual override");
    assert_eq!(Resolution::VramClamped.label(), "VRAM-clamped auto target");
}

#[test]
fn a_failed_plan_says_what_is_short() {
    let e = PlanError {
        needed: 600 * 1024 * 1024,
        budget: 100 * 1024 * 1024,
        free_vram: 612 * 1024 * 1024,
        reserve: 512 * 1024 * 1024,
    };
    assert_eq!(
        e.message(),
        "GPU 显存放不下最小的 streaming 配置:需要约 600.0 MB,预算只有 100.0 MB(空闲 612.0 MB − 保留 512.0 MB)"
    );
}
