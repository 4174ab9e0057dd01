//! Launch shapes, budgets and bookkeeping of the device backend.
use ferrisboost::backend::cuda::batch::{
    batch_index, max_tile_bins, pack_pairs, unpack_batch, unpack_pairs, BatchError,
};
use ferrisboost::backend::cuda::gradient::{ColumnEcho, GradientError, RowValues};
use ferrisboost::backend::cuda::histogram::{
    build_histogram, build_histogram_shared, build_histogram_shared_with_config, feature_tiles,
    is_monotone, plan_rows, tile_limit, validate_inputs, DeviceLimits, FeatureTile, HistogramError,
    SharedHistogramConfig, SharedHistogramLayout,
};
use ferrisboost::backend::cuda::inference::{FlattenError, GpuInferenceModel, PredictError};
use ferrisboost::backend::cuda::message::authority_message;
use ferrisboost::backend::cuda::partition::{
    block_size_ok, partition_rows_gpu, partition_rows_gpu_with_profile, GpuRowSpan, PartitionArena,
    PartitionError,
};
use ferrisboost::backend::cuda::session::{
    gradient_grid, objective_code, reduced_sum, selection_ok, stage_chunk, to_row_major,
    upload_chunks, BlockError, GpuSegmentTiming, HistSlotPool, ResidentColumn, ResidentError,
    SlotState,
};
use ferrisboost::backend::cuda::span::SpanError;
use ferrisboost::backend::cuda::train_ctx::{
    context_ok, EnvNumber, EnvSwitch, GpuTrainCtx, TrainCtxError, TrainEnv, TrainShape,
};
use ferrisboost::float32::F32;
use ferrisboost::hist::{build, GradPairFixed};
use ferrisboost::inference::CompactInferenceModel;
use ferrisboost::tree::{Model, Tree};
use ferrisboost::types::{GpuMath, Objective, PredictionAuthority, MISSING_BIN};

fn f(x: f32) -> F32 {
    F32::from_bits(x.to_bits())
}

const LIMITS: DeviceLimits = DeviceLimits { shared_bytes_per_block: 49152, static_shared_bytes: 0 };

fn env() -> TrainEnv {
    TrainEnv {
        bucket_profile: false,
        hist_nodes_per_batch: EnvNumber::Unset,
        row_major: EnvSwitch::Off,
        resident_blocks: EnvNumber::Unset,
        hist_streams: EnvNumber::Unset,
        device_quantize_off: false,
        pinned: false,
        tracks_events: true,
    }
}

fn shape() -> TrainShape {
    TrainShape { n_rows: 1000, max_block_feats: 8, max_hist_bins: 64, n_blocks: 3, partition_threads: 256 }
}

fn context_with(config: SharedHistogramConfig, env: TrainEnv) -> GpuTrainCtx {
    match GpuTrainCtx::new(1, shape(), config, env, LIMITS, false) {
        Ok(c) => c,
        Err(e) => panic!("{e:?}"),
    }
}

fn context() -> GpuTrainCtx {
    context_with(SharedHistogramConfig::default(), env())
}

fn fixture() -> (Vec<u8>, usize, usize, Vec<u32>, Vec<GradPairFixed>) {
    let block = vec![
        0, 1, 2, 3, 0, 1, 2, 3, //
        0, 0, 1, 1, 2, 2, 3, 3, //
        MISSING_BIN, 1, MISSING_BIN, 2, 0, 0, 3, 1,
    ];
    let gpair = (0..8).map(|i| GradPairFixed { grad: i * i - 9, hess: i + 1 }).collect();
    (block, 8, 3, vec![0, 4, 8, 12], gpair)
}

#[test]
fn device_histograms_are_the_host_histograms() {
    let (block, n_rows, n_feats, offs, gpair) = fixture();
    for rows in [None, Some(vec![7u32, 1, 2, 2]), Some(vec![])] {
        let rows = rows.as_deref();
        let mut want = vec![GradPairFixed::zero(); 12];
        build(&block, n_rows, n_feats, &offs, &gpair, rows, &mut want);
        assert_eq!(build_histogram(&block, n_rows, n_feats, &offs, &gpair, rows), Ok(want.clone()));
        let shared = build_histogram_shared(LIMITS, &block, n_rows, n_feats, &offs, &gpair, rows);
        assert_eq!(shared, Ok(want.clone()));
        let config = SharedHistogramConfig {
            threads_per_block: 3,
            shared_memory_budget_bytes: Some(64),
            ..SharedHistogramConfig::default()
        };
        let (got, profile) = build_histogram_shared_with_config(
            LIMITS, &block, n_rows, n_feats, &offs, &gpair, rows, config,
        )
        .unwrap_or_else(|e| panic!("{e:?}"));
        assert_eq!(got, want);
        if rows.is_none() {
            assert_eq!(profile.feature_tiles, 3);
            assert_eq!(profile.row_launches_per_feature_tile, 2);
        }
    }
}

#[test]
fn bad_histogram_inputs_are_refused() {
    let (block, n, m, offs, gpair) = fixture();
    let check = |b: &[u8], o: &[u32], g: &[GradPairFixed], r: Option<&[u32]>| {
        validate_inputs(b, n, m, o, g, r)
    };
    assert_eq!(check(&block, &offs, &gpair, None), Ok(()));
    assert_eq!(check(&block[1..], &offs, &gpair, None), Err(HistogramError::BinsLength));
    assert_eq!(check(&block, &offs[1..], &gpair, None), Err(HistogramError::OffsetsShape));
    assert_eq!(check(&block, &[0, 8, 4, 12], &gpair, None), Err(HistogramError::OffsetsNotMonotone));
    assert_eq!(check(&block, &offs, &gpair[1..], None), Err(HistogramError::GpairLength));
    assert_eq!(check(&block, &offs, &gpair, Some(&[8])), Err(HistogramError::RowOutOfRange));
    assert_eq!(
        check(&block, &[0, 3, 7, 11], &gpair, None),
        Err(HistogramError::BinOutOfRange { feat: 0 })
    );
    assert!(is_monotone(&[0, 1, 1]));
    assert!(!is_monotone(&[1, 0]));
}

#[test]
fn tiles_take_every_feature_once() {
    let offs = [0u32, 3, 5, 9, 10];
    let tiles = feature_tiles(&offs, 4, 5).unwrap_or_else(|e| panic!("{e:?}"));
    assert_eq!(
        tiles,
        vec![FeatureTile { begin: 0, end: 2 }, FeatureTile { begin: 2, end: 4 }]
    );
    assert_eq!(max_tile_bins(&offs, 4, 5), 5);
    assert_eq!(
        feature_tiles(&offs, 4, 3),
        Err(HistogramError::TileTooWide { feat: 2, bins: 4, max_bins: 3 })
    );
    assert_eq!(tile_limit(Some(100), LIMITS), Ok((100, 6)));
    assert_eq!(tile_limit(Some(15), LIMITS), Err(HistogramError::SharedTooSmall));
    let broken = DeviceLimits { shared_bytes_per_block: 1, static_shared_bytes: 2 };
    assert_eq!(tile_limit(None, broken), Err(HistogramError::SharedLimitInvalid));
}

#[test]
fn row_plans_take_every_row_once() {
    for (n, threads, four) in [(0usize, 32u32, true), (1000, 32, true), (1000, 32, false), (5, 64, true)] {
        let plan = plan_rows(n, threads, four);
        let mut next = 0;
        for l in &plan {
            assert_eq!(l.begin, next);
            assert_eq!(l.rows, l.grid as usize * l.block as usize * l.rows_per_thread as usize);
            next += l.rows;
        }
        assert_eq!(next, n);
    }
    let plan = plan_rows(1000, 32, true);
    assert_eq!(plan.len(), 3);
    assert_eq!((plan[0].rows, plan[1].rows, plan[2].rows), (896, 96, 8));
}

#[test]
fn partitions_are_stable_and_complete() {
    let (block, n, _, _, _) = fixture();
    let rows = [7u32, 0, 3, 2, 5];
    let (left, right) =
        partition_rows_gpu(&block, n, 2, &rows, 1, true, 4).unwrap_or_else(|e| panic!("{e:?}"));
    assert_eq!(left, vec![7, 0, 2, 5]);
    assert_eq!(right, vec![3]);
    let (sides, profile) = partition_rows_gpu_with_profile(&block, n, 2, &rows, 1, false, 4)
        .unwrap_or_else(|e| panic!("{e:?}"));
    assert_eq!(sides, (vec![7, 5], vec![0, 3, 2]));
    assert_eq!(profile.blocks, 2);
    let refused = |feature: usize, rows: &[u32], threads: u32| {
        partition_rows_gpu(&block, n, feature, rows, 1, true, threads).err()
    };
    assert_eq!(refused(3, &rows, 4), Some(PartitionError::FeatureOutOfRange));
    assert_eq!(refused(0, &rows, 3), Some(PartitionError::Threads));
    assert_eq!(refused(0, &[8], 4), Some(PartitionError::RowOutOfRange));
    assert!(block_size_ok(1024) && !block_size_ok(2048) && !block_size_ok(0));
}

#[test]
fn a_level_fills_the_arena_without_overlap() {
    let mut a = PartitionArena::new(10);
    let all = a.begin_tree_rows();
    assert_eq!(all, GpuRowSpan { offset: 0, len: 10 });
    let l = a.partition(all, 4).unwrap_or_else(|e| panic!("{e:?}"));
    assert_eq!((l.token, l.out_offset, l.blocks), (0, 0, 3));
    let children = a.resolve_partitions(&[4, 6]);
    assert_eq!(
        children,
        vec![(GpuRowSpan { offset: 0, len: 4 }, GpuRowSpan { offset: 4, len: 6 })]
    );
    a.finish_partition_level();
    let l = a.partition(children[0].1, 4).unwrap_or_else(|e| panic!("{e:?}"));
    assert_eq!(l.out_offset, 0);
    let empty = a.partition(GpuRowSpan { offset: 3, len: 0 }, 4).unwrap_or_else(|e| panic!("{e:?}"));
    assert_eq!((empty.token, empty.out_offset, empty.blocks), (1, 3, 0));
    let spans = a.resolve_partitions(&[1, 5, 0, 0]);
    assert_eq!(spans[1].0, GpuRowSpan { offset: 3, len: 0 });
    assert_eq!(
        a.partition(GpuRowSpan { offset: 8, len: 3 }, 4),
        Err(PartitionError::SpanOutOfRange { offset: 8, len: 3 })
    );
    assert_eq!(a.partition(GpuRowSpan { offset: 0, len: 5 }, 4), Err(PartitionError::ArenaOverflow));
}

#[test]
fn a_level_has_room_for_so_many_nodes() {
    let mut a = PartitionArena::new(1);
    let none = GpuRowSpan { offset: 0, len: 0 };
    for _ in 0..8192 {
        assert!(a.partition(none, 1).is_ok());
    }
    assert_eq!(a.partition(none, 1), Err(PartitionError::LevelFull));
}

#[test]
fn the_context_resolves_its_choices() {
    let c = context();
    assert!(c.choices.fused);
    assert_eq!(c.choices.hist_nodes_per_batch, 16);
    assert_eq!(c.choices.max_bins_per_tile, 2048);
    assert_eq!(c.hist_nodes_batch_capacity(), 16);
    assert_eq!(c.prediction_authority(), PredictionAuthority::Host);
    assert!(c.ensure_host_authority().is_ok());
    assert_eq!(c.budget().total(), c.budget.total());
    assert!(c.budget().per_row_bytes() <= c.budget().total());
    assert_eq!(c.host_budget().total(), c.host_budget.total());
    assert!(!c.timing_enabled());

    let fast = SharedHistogramConfig { gpu_math: GpuMath::Fast, ..SharedHistogramConfig::default() };
    let c = context_with(fast, env());
    assert!(c.fast_math_enabled() && c.device_quantize_enabled());
    assert_eq!(c.ensure_host_authority(), Err(PredictionAuthority::Device));
}

#[test]
fn contexts_that_cannot_work_are_refused() {
    let plain = SharedHistogramConfig::default();
    let refuse = |s: TrainShape, c: SharedHistogramConfig, e: TrainEnv, l: DeviceLimits| {
        GpuTrainCtx::new(0, s, c, e, l, false).err()
    };
    let s = shape();
    assert_eq!(refuse(TrainShape { n_rows: 0, ..s }, plain, env(), LIMITS), Some(TrainCtxError::NoRows));
    assert_eq!(
        refuse(TrainShape { n_rows: 1 << 33, ..s }, plain, env(), LIMITS),
        Some(TrainCtxError::TooManyRows)
    );
    assert_eq!(
        refuse(TrainShape { partition_threads: 3, ..s }, plain, env(), LIMITS),
        Some(TrainCtxError::PartitionThreads)
    );
    assert_eq!(
        refuse(s, SharedHistogramConfig { threads_per_block: 0, ..plain }, env(), LIMITS),
        Some(TrainCtxError::HistThreads)
    );
    assert_eq!(
        refuse(s, SharedHistogramConfig { hist_nodes_per_batch: Some(0), ..plain }, env(), LIMITS),
        Some(TrainCtxError::NodesPerBatchZero)
    );
    assert_eq!(
        refuse(s, SharedHistogramConfig { hist_nodes_per_batch: Some(33), ..plain }, env(), LIMITS),
        Some(TrainCtxError::NodesPerBatchTooLarge { nodes: 33 })
    );
    assert_eq!(
        refuse(s, plain, TrainEnv { hist_nodes_per_batch: EnvNumber::Invalid, ..env() }, LIMITS),
        Some(TrainCtxError::NodesPerBatchNotANumber)
    );
    assert_eq!(
        refuse(s, plain, TrainEnv { row_major: EnvSwitch::Invalid, ..env() }, LIMITS),
        Some(TrainCtxError::RowMajorNotASwitch)
    );
    assert_eq!(
        refuse(s, plain, TrainEnv { resident_blocks: EnvNumber::Invalid, ..env() }, LIMITS),
        Some(TrainCtxError::ResidentBlocksNotANumber)
    );
    assert_eq!(
        refuse(s, plain, TrainEnv { hist_streams: EnvNumber::Invalid, ..env() }, LIMITS),
        Some(TrainCtxError::HistStreamsNotANumber)
    );
    assert_eq!(
        refuse(s, SharedHistogramConfig { hist_streams: Some(3), ..plain }, env(), LIMITS),
        Some(TrainCtxError::HistStreams { streams: 3 })
    );
    assert_eq!(
        refuse(
            s,
            SharedHistogramConfig {
                gpu_math: GpuMath::Fast,
                device_quantize: Some(false),
                ..plain
            },
            env(),
            LIMITS
        ),
        Some(TrainCtxError::FastNeedsDeviceQuantize)
    );
    assert_eq!(
        refuse(
            s,
            plain,
            TrainEnv { row_major: EnvSwitch::On, pinned: true, tracks_events: false, ..env() },
            LIMITS
        ),
        Some(TrainCtxError::PinnedNeedsEventTracking)
    );
    let tiny = DeviceLimits { shared_bytes_per_block: 15, static_shared_bytes: 0 };
    assert_eq!(refuse(s, plain, env(), tiny), Some(TrainCtxError::SharedTooSmall));
    let broken = DeviceLimits { shared_bytes_per_block: 0, static_shared_bytes: 1 };
    assert_eq!(refuse(s, plain, env(), broken), Some(TrainCtxError::SharedLimitInvalid));
}

#[test]
fn the_path_is_told_by_what_was_chosen() {
    assert_eq!(
        context().path_summary(),
        "GPU_PATH device=cuda:1 fused=true layout=planar32 pinned=false hist_streams=1 \
         resident_blocks=0 partition_threads=256 threads_per_block=512 rows_per_thread=4 \
         hist_nodes_per_batch=16 layout_gpu=col_major hist_map=row_per_lane gpu_math=exact \
         quantize=device gpu_mem_budget=auto(free_vram) residency=pure_streaming \
         resident_blocks=0/3 streamed_blocks=3 block_upload=colmajor_pageable \
         rm_stage_per_slot=0 max_bins_per_tile=2048"
    );
    let config = SharedHistogramConfig {
        gpu_memory_budget: Some(3 << 20),
        resident_blocks: Some(2),
        gpu_math: GpuMath::Fast,
        ..SharedHistogramConfig::default()
    };
    let e = TrainEnv { row_major: EnvSwitch::On, pinned: true, bucket_profile: false, ..env() };
    let text = context_with(config, e).path_summary();
    for part in [
        " pinned=true",
        " layout_gpu=row_major",
        " gpu_math=fast",
        " gpu_mem_budget=3.0MB",
        " residency=hybrid_partial_resident resident_blocks=2/3 streamed_blocks=1",
        " block_upload=rm_chunked_pinned_async_x2",
    ] {
        assert!(text.contains(part), "{part} in {text}");
    }
}

#[test]
fn budgets_are_told_part_by_part() {
    let c = context();
    let text = c.budget().report();
    assert!(text.starts_with("预分配显存 "), "{text}");
    assert!(text.contains(" 条 histogram stream) = gpair "), "{text}");
    assert!(text.ends_with(" MB"), "{text}");
    let host = c.host_budget().report();
    assert!(host.starts_with("pinned host "), "{host}");
    assert!(host.contains(" + gpair staging "), "{host}");
}

#[test]
fn sessions_keep_track_of_resident_blocks() {
    let config = SharedHistogramConfig { resident_blocks: Some(1), ..SharedHistogramConfig::default() };
    let c = context_with(config, env());
    let offs = [0u32, 4, 8];
    let slot = SlotState::empty();
    let s = c.block_session(0, 2000, 1000, 2, &offs, None, slot).unwrap_or_else(|e| panic!("{e:?}"));
    assert!(!s.cache_hit && s.resident_slot.is_some());
    assert_eq!((s.n_hist, s.h2d_calls, s.h2d_bytes), (8, 2, 2012));
    let slot = slot.after(0, &s);
    assert_eq!(slot, SlotState { resident_block: Some(0), resident_feats: 2 });
    let s = c.block_session(0, 2000, 1000, 2, &offs, None, slot).unwrap_or_else(|e| panic!("{e:?}"));
    assert!(s.cache_hit);
    assert_eq!(slot.after(0, &s), slot);
    assert_eq!((s.h2d_calls, s.h2d_bytes), (1, 12));
    let one = [0u32, 4];
    let s = c
        .block_session(1, 2000, 1000, 2, &one, Some(&[1]), SlotState::empty())
        .unwrap_or_else(|e| panic!("{e:?}"));
    assert!(s.selection_active && s.resident_slot.is_none());
    assert_eq!(SlotState::empty().after(1, &s), SlotState::empty());
    assert_eq!((s.h2d_calls, s.h2d_bytes), (3, 2012));
    assert!(c.requires_batched_hist(&s));
    let refuse = |len: usize, rows: usize, feats: usize, offs: &[u32], sel: Option<&[usize]>| {
        c.block_session(0, len, rows, feats, offs, sel, SlotState::empty()).err()
    };
    assert_eq!(
        refuse(2002, 1001, 2, &offs, None),
        Some(BlockError::TooManyRows { rows: 1001, limit: 1000 })
    );
    assert_eq!(refuse(1999, 1000, 2, &offs, None), Some(BlockError::BinsLength));
    assert_eq!(refuse(2000, 1000, 2, &[1, 4, 8], None), Some(BlockError::OffsetsShape));
    assert_eq!(refuse(2000, 1000, 2, &[0, 9, 8], None), Some(BlockError::OffsetsNotMonotone));
    assert_eq!(refuse(2000, 1000, 2, &offs, Some(&[1, 0])), Some(BlockError::Selection));
    assert_eq!(refuse(2000, 1000, 2, &one, None), Some(BlockError::BlockWidth));
    assert_eq!(refuse(2000, 1000, 2, &offs, Some(&[1])), Some(BlockError::SelectedWidth));
    let rows_first = context_with(
        SharedHistogramConfig::default(),
        TrainEnv { row_major: EnvSwitch::On, ..env() },
    );
    assert_eq!(
        rows_first.block_session(0, 2000, 1000, 2, &one, Some(&[1]), SlotState::empty()).err(),
        Some(BlockError::RowMajorWidth)
    );
    assert_eq!(
        refuse(9000, 1000, 9, &[0, 1, 2, 3, 4, 5, 6, 7, 8, 9], None),
        Some(BlockError::BlockTooLarge { len: 9000, capacity: 8000 })
    );
    assert_eq!(
        refuse(2000, 1000, 2, &[0, 4, 4000], None),
        Some(BlockError::HistogramTooLarge { bins: 4000 })
    );
    assert!(selection_ok(&[0, 2], 3) && !selection_ok(&[2, 2], 3) && !selection_ok(&[3], 3));
}

#[test]
fn resident_columns_are_found_in_their_slot() {
    let config = SharedHistogramConfig { resident_blocks: Some(1), ..SharedHistogramConfig::default() };
    let c = context_with(config, env());
    let held = |b: Option<usize>, w: usize| SlotState { resident_block: b, resident_feats: w };
    assert_eq!(
        c.partition_session_resident(0, 1, held(Some(0), 2)),
        Ok(Some(ResidentColumn::Column { slot: c.hist_stream_count(), start: 1000 }))
    );
    assert_eq!(c.partition_session_resident(0, 1, held(None, 2)), Ok(None));
    assert_eq!(c.partition_session_resident(2, 1, held(Some(2), 2)), Ok(None));
    assert_eq!(
        c.partition_session_resident(0, 8, held(Some(0), 2)),
        Err(ResidentError::BeyondBuffer { feat: 8 })
    );
    assert_eq!(
        c.partition_session_resident(0, 1, held(Some(0), 9)),
        Err(ResidentError::Width { block: 0, feats: 9 })
    );
    assert_eq!(
        c.partition_session_resident(0, usize::MAX, held(Some(0), 2)),
        Err(ResidentError::Overflow)
    );
    let config = SharedHistogramConfig { resident_blocks: Some(1), ..SharedHistogramConfig::default() };
    let rows_first = context_with(config, TrainEnv { row_major: EnvSwitch::On, ..env() });
    assert_eq!(
        rows_first.partition_session_resident(0, 2, held(Some(0), 2)),
        Err(ResidentError::BeyondRow { feat: 2, feats: 2 })
    );
    let s = c
        .block_session(0, 2000, 1000, 2, &[0, 4, 8], None, SlotState::empty())
        .unwrap_or_else(|e| panic!("{e:?}"));
    assert_eq!(
        c.partition_session_resident(0, 0, SlotState::empty().after(0, &s)),
        Ok(Some(ResidentColumn::Column { slot: c.hist_stream_count(), start: 0 }))
    );
    assert_eq!(c.partition_session(1000), Ok(1000));
    assert_eq!(c.partition_session(999), Err(PartitionError::ColumnLength { len: 999, rows: 1000 }));
}

#[test]
fn node_launches_take_rows_and_features_once() {
    let c = context();
    let offs = [0u32, 2000, 3000, 4096];
    let s = ferrisboost::backend::cuda::session::GpuBlockSession {
        resident_slot: None,
        cache_hit: false,
        physical_n_feats: 3,
        n_feats: 3,
        n_hist: 4096,
        selection_active: false,
        row_major_feat_mask: u32::MAX,
        h2d_calls: 0,
        h2d_bytes: 0,
    };
    let span = GpuRowSpan { offset: 100, len: 900 };
    for profile in [false, true] {
        let c = context_with(
            SharedHistogramConfig { threads_per_block: 64, ..SharedHistogramConfig::default() },
            TrainEnv { bucket_profile: profile, ..env() },
        );
        let plan = match c.histogram_device(&s, &offs, span) {
            Ok(Some(p)) => p,
            _ => panic!("a plan is wanted"),
        };
        assert_eq!(plan.feature_tiles, if profile { 3 } else { 1 });
        assert_eq!(plan.d2h_bytes, 65536);
        for position in span.offset..span.offset + span.len {
            for feat in 0..3usize {
                let n = plan
                    .launches
                    .iter()
                    .filter(|l| {
                        l.first_row <= position
                            && position < l.first_row + l.rows
                            && l.feats.begin <= feat
                            && feat < l.feats.end
                    })
                    .count();
                assert_eq!(n, 1);
            }
        }
        assert_eq!(plan.launches[0].shared_bytes, 2000 * 16);
    }
    assert!(matches!(c.histogram_device(&s, &offs, GpuRowSpan { offset: 5, len: 0 }), Ok(None)));
    assert!(matches!(
        c.histogram_device(&s, &offs, GpuRowSpan { offset: 500, len: 501 }),
        Err(SpanError::SpanOutOfRange { offset: 500, len: 501 })
    ));
    assert!(matches!(
        c.histogram_device(&s, &[0, 10, 20, 4096], span),
        Err(SpanError::TileTooWide { feat: 2, bins: 4076, max_bins: 2048 })
    ));
}

#[test]
fn batches_give_every_node_its_blocks() {
    let spans = [
        GpuRowSpan { offset: 0, len: 1025 },
        GpuRowSpan { offset: 1025, len: 0 },
        GpuRowSpan { offset: 1025, len: 3 },
    ];
    let index = match batch_index(&spans, 3, true, 16, 2000, 256, 8) {
        Ok(Some(i)) => i,
        _ => panic!("a table is wanted"),
    };
    assert_eq!(index.blk_ptr, vec![0, 2, 2, 3]);
    assert_eq!(index.packed(), vec![0, 2, 2, 3, 0, 1025, 1025, 1025, 0, 3]);
    let error = |n_outs: usize, available: bool, capacity: usize, n_rows: usize| {
        batch_index(&spans, n_outs, available, capacity, n_rows, 256, 8).err()
    };
    assert_eq!(error(2, true, 16, 2000), Some(BatchError::OutputCount { spans: 3, outs: 2 }));
    assert_eq!(error(3, false, 16, 2000), Some(BatchError::Unavailable));
    assert_eq!(error(3, true, 2, 2000), Some(BatchError::TooManyNodes { nodes: 3, capacity: 2 }));
    assert_eq!(
        error(3, true, 16, 1026),
        Some(BatchError::SpanOutOfRange { offset: 1025, len: 3 })
    );
    assert!(matches!(batch_index(&spans[1..2], 1, true, 16, 2000, 256, 8), Ok(None)));

    let c = context();
    let s = c.block_session(0, 2000, 1000, 2, &[0, 4, 8], None, SlotState::empty()).unwrap_or_else(|e| panic!("{e:?}"));
    let spans = [GpuRowSpan { offset: 0, len: 600 }, GpuRowSpan { offset: 600, len: 400 }];
    let plan = match c.histogram_device_batch(&s, &[0, 4, 8], &spans, 2) {
        Ok(Some(p)) => p,
        _ => panic!("a plan is wanted"),
    };
    assert_eq!((plan.grid, plan.block, plan.shared_bytes), (2, 512, 128));
    assert_eq!((plan.hist_stride, plan.d2h_bytes, plan.feat_mask), (16, 256, None));
}

#[test]
fn packed_pairs_come_back() {
    let pairs: Vec<GradPairFixed> = (0..6).map(|i| GradPairFixed { grad: i, hess: -i }).collect();
    let words = pack_pairs(&pairs);
    assert_eq!(unpack_pairs(&words), pairs);
    let nodes = unpack_batch(&words, 2, 3);
    assert_eq!(nodes.len(), 3);
    assert_eq!(nodes[1], pairs[2..4].to_vec());
    assert_eq!(reduced_sum(&words), GradPairFixed { grad: 15, hess: -15 });
}

#[test]
fn blocks_are_transposed_chunk_by_chunk() {
    let block: Vec<u8> = vec![1, 2, 3, 4, 5, 6, 7, 8, 9, 10];
    assert_eq!(to_row_major(&block, 5, 2, 2), vec![1, 6, 2, 7, 3, 8, 4, 9, 5, 10]);
    assert_eq!(stage_chunk(&block, 5, 2, 1, 3), vec![2, 3, 7, 8]);
    let chunks = upload_chunks(5, 2, 2);
    assert_eq!(
        chunks.iter().map(|c| (c.begin, c.end, c.buffer)).collect::<Vec<_>>(),
        vec![(0, 2, 0), (2, 4, 1), (4, 5, 0)]
    );
}

#[test]
fn slots_are_lent_once() {
    let mut pool = HistSlotPool::new(2);
    let a = pool.acquire();
    let b = pool.acquire();
    assert!(a.is_some() && b.is_some() && a != b);
    assert_eq!(pool.acquire(), None);
    pool.release(b.unwrap());
    assert_eq!(pool.acquire(), b);
}

#[test]
fn gradients_are_asked_for_where_they_are() {
    let c = context();
    let pairs: Vec<GradPairFixed> = (0..1000).map(|i| GradPairFixed { grad: i, hess: 7 }).collect();
    let words = c.upload_gpair(&pairs).unwrap_or_else(|e| panic!("{e:?}"));
    assert_eq!(words[..4], [0, 7, 1, 7]);
    assert_eq!(
        c.upload_gpair(&pairs[..9]),
        Err(GradientError::Length { of: RowValues::Gradients, got: 9, rows: 1000 })
    );
    assert_eq!(
        c.sync_prediction_to_host(9),
        Err(GradientError::Length { of: RowValues::Prediction, got: 9, rows: 1000 })
    );
    assert_eq!(
        c.init_fast_math(9, f(0.5)),
        Err(GradientError::Length { of: RowValues::Labels, got: 9, rows: 1000 })
    );
    assert_eq!(c.upload_and_quantize_gpair(1000), Ok(()));
    assert_eq!(c.fast_gradient_and_quantize(Objective::Logistic), Err(GradientError::FastMathOff));
    assert_eq!(c.sync_prediction_to_host(1000), Err(GradientError::NoResidentPrediction));
    assert_eq!(c.init_fast_math(1000, f(0.5)).err(), Some(GradientError::NoLabelBuffer));
    let off = TrainEnv { device_quantize_off: true, ..env() };
    let host = context_with(SharedHistogramConfig::default(), off);
    assert_eq!(host.upload_and_quantize_gpair(1000), Err(GradientError::QuantizationOff));
    let fast = SharedHistogramConfig { gpu_math: GpuMath::Fast, ..SharedHistogramConfig::default() };
    let c = context_with(fast, env());
    let l = c.fast_gradient_and_quantize(Objective::Logistic).unwrap_or_else(|e| panic!("{e:?}"));
    assert_eq!((l.n_rows, l.blocks, l.objective), (1000, 4, 1));
    assert_eq!(c.sync_prediction_to_host(1000), Ok(()));
    assert_eq!(c.init_fast_math(1000, f(0.5)), Ok(vec![f(0.5); 1000]));
    assert_eq!(gradient_grid(1 << 40), 65535);
    assert_eq!(objective_code(Objective::SquaredError), 0);
}

#[test]
fn leaves_write_their_own_rows() {
    let rows = [4u32, 0, 2, 1, 3];
    let small = TrainShape { n_rows: 5, ..shape() };
    let c = match GpuTrainCtx::new(0, small, SharedHistogramConfig::default(), env(), LIMITS, false) {
        Ok(c) => c,
        Err(e) => panic!("{e:?}"),
    };
    let mut delta = vec![f(0.0); 5];
    let left = GpuRowSpan { offset: 0, len: 2 };
    let right = GpuRowSpan { offset: 2, len: 3 };
    assert_eq!(c.assign_leaf_value(&rows, right, f(2.0), &mut delta), Ok(()));
    assert_eq!(c.assign_leaf_value(&rows, left, f(1.0), &mut delta), Ok(()));
    assert_eq!(delta, vec![f(1.0), f(2.0), f(2.0), f(2.0), f(1.0)]);
    let wrong = GpuRowSpan { offset: 4, len: 2 };
    let e = PartitionError::LeafOutOfRange { offset: 4, len: 2 };
    assert_eq!(c.assign_leaf_value(&rows, wrong, f(9.0), &mut delta), Err(e));
    assert_eq!(c.leaf_launch(wrong), Err(e));
    assert_eq!(c.download_rows(&rows, right), Ok(vec![2, 1, 3]));
    let e = PartitionError::RowsOutOfRange { offset: 4, len: 2 };
    assert_eq!(c.download_rows(&rows, wrong), Err(e));
    assert_eq!(context().leaf_launch(GpuRowSpan { offset: 0, len: 257 }), Ok(2));
    assert_eq!(context().leaf_launch(GpuRowSpan { offset: 5, len: 0 }), Ok(0));
}

#[test]
fn each_column_source_is_reported_once() {
    let mut e = ColumnEcho { resident: false, upload: false };
    assert_eq!(e.echo(false, true), None);
    assert_eq!(e.echo(true, true), Some("PART_COL_SOURCE=resident"));
    assert_eq!(e.echo(true, true), None);
    assert_eq!(e.echo(true, false), Some("PART_COL_SOURCE=upload"));
}

#[test]
fn segment_counts_add_up() {
    let plus = |a: F32, b: F32| f(f32::from_bits(a.to_bits()) + f32::from_bits(b.to_bits()));
    let mut a = GpuSegmentTiming {
        kernel_ms: f(0.5),
        block_h2d_ms: f(1.0),
        rows_h2d_ms: f(2.0),
        d2h_ms: f(3.0),
        block_h2d_calls: 1,
        rows_h2d_calls: 2,
        d2h_calls: 3,
        block_h2d_bytes: 4,
        rows_h2d_bytes: 5,
        d2h_bytes: 6,
        kernel_calls: 7,
    };
    let b = a;
    assert_eq!(a.h2d_ms(plus), f(3.0));
    a.add(&b, plus);
    assert_eq!((a.kernel_ms, a.d2h_ms), (f(1.0), f(6.0)));
    assert_eq!((a.block_h2d_calls, a.d2h_bytes, a.kernel_calls), (2, 12, 14));
}

#[test]
fn layouts_have_names() {
    assert_eq!(SharedHistogramLayout::all().len(), 3);
    assert_eq!(SharedHistogramLayout::Planar32.label(), "planar32");
    assert_eq!(SharedHistogramLayout::Planar32.kernel_name(), "hist_build_shared_planar32");
}

#[test]
fn device_models_hold_every_node() {
    let mut t = Tree { nodes: vec![] };
    let root = t.push_leaf(f(0.0));
    t.split_leaf(root, 2, f(1.5), true, f(-1.0), f(1.0));
    let m = Model {
        trees: vec![t],
        base_score: f(0.5),
        objective: Objective::Logistic,
        n_features: 3,
        best_iteration: None,
        best_score: None,
        feature_names: vec![],
        schema_mode: None,
    };
    let compact = CompactInferenceModel::new(&m).unwrap_or_else(|e| panic!("{e:?}"));
    let g = GpuInferenceModel::from_compact(&compact, f(0.0)).unwrap_or_else(|e| panic!("{e:?}"));
    assert_eq!(g.tree_offsets, vec![0, 3]);
    assert_eq!(g.input_features(), &[2]);
    assert_eq!(g.leaf_values[1..], [f(-1.0), f(1.0)]);
    let plan = g.plan_batches(1000, 1000, 1, 1 << 30).unwrap_or_else(|e| panic!("{e:?}"));
    assert_eq!(plan.iter().map(|b| b.rows).sum::<usize>(), 1000);
    assert_eq!(
        g.plan_batches(999, 1000, 1, 1 << 30).err(),
        Some(PredictError::InputLength { got: 999, rows: 1000, features: 1, expected: 1000 })
    );
}

#[test]
fn device_refusals_are_told_in_words() {
    let train = |e: TrainCtxError| e.message("yes");
    assert_eq!(train(TrainCtxError::NoRows), "GPU 训练上下文需要非空数据");
    assert_eq!(
        train(TrainCtxError::NodesPerBatchTooLarge { nodes: 33 }),
        "hist_nodes_per_batch 上限是 32,收到 33"
    );
    assert_eq!(
        train(TrainCtxError::RowMajorNotASwitch),
        "FB_ROW_MAJOR 只接受 0/1/true/false,收到 \"yes\""
    );
    assert_eq!(
        train(TrainCtxError::FastNeedsDeviceQuantize),
        "gpu_math=\"fast\" 需要 device quantization,不能同时 device_quantize=false"
    );
    assert_eq!(
        BlockError::TooManyRows { rows: 1001, limit: 1000 }.message(),
        "列块行数 1001 超过训练行数 1000"
    );
    assert_eq!(
        BlockError::SelectedWidth.message(),
        "column-major selected_local 必须与紧凑 histogram 特征数相等"
    );
    assert_eq!(
        ResidentError::Width { block: 2, feats: 9 }.message(),
        "resident 块 2 的特征数 9 和 buffer 对不上"
    );
    assert_eq!(
        SpanError::SpanOutOfRange { offset: 500, len: 501 }.message(),
        "histogram device row span 越界:GpuRowSpan { offset: 500, len: 501 }"
    );
    assert_eq!(
        SpanError::TileTooWide { feat: 2, bins: 4076, max_bins: 2048 }.message(),
        "特征 2 的 4076 个 bin 超过 shared-memory tile 上限 2048"
    );
    assert_eq!(
        PartitionError::ColumnLength { len: 999, rows: 1000 }.message(),
        "partition 列长度 999 与训练行数 1000 不符"
    );
    assert_eq!(PartitionError::LevelFull.message(), "一层的 partition 节点数超过 8192");
    assert_eq!(
        PartitionError::LeafOutOfRange { offset: 4, len: 2 }.message(),
        "leaf row span 越界:GpuRowSpan { offset: 4, len: 2 }"
    );
    assert_eq!(HistogramError::BinOutOfRange { feat: 3 }.message(), "特征 3 含超出 feat_offsets 宽度的 bin");
    assert_eq!(HistogramError::GridTooLarge.message(), "CUDA histogram grid 超过 u32");
    assert_eq!(
        BatchError::OutputCount { spans: 3, outs: 2 }.message(),
        "histogram batch:spans 3 与 outs 2 不等长"
    );
    assert_eq!(BatchError::Unavailable.message(), "histogram batch 需要 hist_nodes_per_batch > 1");
    let length = GradientError::Length { of: RowValues::Labels, got: 9, rows: 1000 };
    assert_eq!(length.message(), "label 长度 9 与训练行数 1000 不符");
    assert_eq!(GradientError::FastMathOff.message(), "gpu_math=fast 未启用");
    assert_eq!(
        FlattenError::FeatureOutOfRange { feat: 7 }.message(),
        "GPU prediction 模型含越界 feature 7"
    );
    assert_eq!(
        PredictError::InputLength { got: 999, rows: 500, features: 2, expected: 1000 }.message(),
        "GPU prediction 输入有 999 个值,预期 500 × 2 = 1000"
    );
    assert!(authority_message("download_prediction_delta")
        .starts_with("download_prediction_delta:gpu_math=\"fast\" 下 device 才是"));
}

#[test]
fn contexts_that_no_word_can_count_are_told_before() {
    let plain = SharedHistogramConfig::default();
    assert!(context_ok(shape(), plain, env(), LIMITS));
    let wide = TrainShape { max_block_feats: usize::MAX / 500, ..shape() };
    assert!(!context_ok(wide, plain, env(), LIMITS));
    let deep = TrainShape { max_hist_bins: usize::MAX / 2, ..shape() };
    assert!(!context_ok(deep, plain, env(), LIMITS));
    // A context that is refused for another reason has no budget.
    let none = TrainShape { n_rows: 0, max_block_feats: usize::MAX, ..shape() };
    assert!(context_ok(none, plain, env(), LIMITS));
}

#[test]
fn a_batch_of_nodes_has_the_histograms_of_each_node() {
    let c = context();
    let rows: Vec<u32> = (0..1000).map(|i| (i * 7) % 1000).collect();
    let bins: Vec<u8> = (0..1000).map(|i| (i % 5) as u8).collect();
    let gpair: Vec<GradPairFixed> =
        (0..1000).map(|i| GradPairFixed { grad: i * i - 300, hess: i + 1 }).collect();
    let offsets = [0u32, 5];
    let spans = [GpuRowSpan { offset: 0, len: 600 }, GpuRowSpan { offset: 600, len: 400 }];
    let s = c
        .block_session(0, 1000, 1000, 1, &offsets, None, SlotState::empty())
        .unwrap_or_else(|e| panic!("{e:?}"));
    let plan = match c.histogram_device_batch(&s, &offsets, &spans, 2) {
        Ok(Some(p)) => p,
        _ => panic!("a plan is wanted"),
    };
    let rows_per_block = plan.block as usize * 4;
    let index = match batch_index(&spans, 2, true, 16, 1000, plan.block, 5) {
        Ok(Some(i)) => i,
        _ => panic!("a table is wanted"),
    };
    for (node, span) in spans.iter().enumerate() {
        let listed = &rows[span.offset..span.offset + span.len];
        let alone = build_histogram(&bins, 1000, 1, &offsets, &gpair, Some(listed))
            .unwrap_or_else(|e| panic!("{e:?}"));
        let mut joined = vec![GradPairFixed::zero(); 5];
        let blocks = (index.blk_ptr[node + 1] - index.blk_ptr[node]) as usize;
        for b in 0..blocks {
            let end = ((b + 1) * rows_per_block).min(span.len);
            for &r in &listed[b * rows_per_block..end] {
                let slot = &mut joined[bins[r as usize] as usize];
                slot.grad += gpair[r as usize].grad;
                slot.hess += gpair[r as usize].hess;
            }
        }
        assert_eq!(joined, alone);
    }
}
