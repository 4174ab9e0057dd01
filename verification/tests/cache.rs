//! Caches of quantized blocks.
use ferrisboost::columns::{BinCuts, ColumnBlock};
use ferrisboost::float32::F32;
use ferrisboost::source::parquet_source::{
    cache_bytes, cache_open, check_given_cuts, check_manifest, check_sizes, column_in, cuts_hash,
    default_cache_budget, hash_of_block, manifest, placement, select_columns, CacheError,
    CacheManifest, CacheOpen, CacheRequest, DiskCache, Placement, ReadPlan, SourceIdentity,
};

fn cuts() -> BinCuts {
    let f = |x: f32| F32::from_bits(x.to_bits());
    BinCuts::new(vec![f(1.0), f(2.0), f(5.0)], vec![0, 2, 2, 3])
}

fn blocks() -> Vec<ColumnBlock> {
    vec![
        ColumnBlock { feat_ids: vec![0, 1], data: vec![0, 1, 2, 0, 0, 0, 0, 0], n_rows: 4 },
        ColumnBlock { feat_ids: vec![2], data: vec![1, 0, 1, 255], n_rows: 4 },
    ]
}

fn identity() -> SourceIdentity {
    SourceIdentity { path: "/d/a.parquet".to_string(), len: 99, mtime_ns: 7 }
}

fn request() -> CacheRequest {
    CacheRequest {
        source: identity(),
        label: "y".to_string(),
        max_bins: 16,
        cols_per_block: 2,
        n_features: 3,
    }
}

fn written() -> CacheManifest {
    let hashes = blocks().iter().map(hash_of_block).collect();
    manifest(identity(), "y".to_string(), 16, 2, 4, &cuts(), hashes)
}

fn refusal(m: &CacheManifest, q: &CacheRequest) -> CacheError {
    match check_manifest(m, q) {
        Ok(_) => panic!("an error is wanted"),
        Err(e) => e,
    }
}

#[test]
fn a_written_cache_is_accepted() {
    let m = written();
    let c = check_manifest(&m, &request()).unwrap_or_else(|e| panic!("{e:?}"));
    assert_eq!(c.values, cuts().values);
    assert_eq!(c.offsets, cuts().offsets);
    assert_eq!(m.groups, vec![vec![0, 1], vec![2]]);
    assert_eq!(check_sizes(&m, 4, &[8, 4]), Ok(()));
    assert_eq!(check_given_cuts(&cuts(), &c), Ok(()));
}

#[test]
fn a_cache_of_something_else_is_refused() {
    let q = request();
    let changed = |change: &dyn Fn(&mut CacheManifest)| {
        let mut m = written();
        change(&mut m);
        refusal(&m, &q)
    };
    assert_eq!(changed(&|m| m.version = 1), CacheError::Version { found: 1 });
    assert_eq!(changed(&|m| m.source.mtime_ns = 8), CacheError::SourceChanged);
    assert_eq!(changed(&|m| m.source.len = 1), CacheError::SourceChanged);
    assert_eq!(changed(&|m| m.label = "z".to_string()), CacheError::Label);
    assert_eq!(changed(&|m| m.cols_per_block = 3), CacheError::BlockWidth);
    assert_eq!(changed(&|m| m.max_bins = 8), CacheError::MaxBin);
    assert_eq!(changed(&|m| m.n_features = 4), CacheError::FeatureCount);
    assert_eq!(changed(&|m| m.groups = vec![vec![0], vec![1, 2]]), CacheError::Groups);
    assert_eq!(
        changed(&|m| {
            m.block_hashes.pop();
        }),
        CacheError::HashCount
    );
    assert_eq!(changed(&|m| m.cuts_hash = "0".to_string()), CacheError::CutsHash);
    let m = written();
    assert_eq!(check_sizes(&m, 5, &[8, 4]), Err(CacheError::Rows));
    assert_eq!(check_sizes(&m, 4, &[8, 3]), Err(CacheError::BlockLength { block: 1 }));
    let other = BinCuts::new(vec![F32::from_bits(1.0f32.to_bits())], vec![0, 1, 1, 1]);
    assert_eq!(check_given_cuts(&other, &cuts()), Err(CacheError::OtherCuts));
}

#[test]
fn hashes_tell_blocks_and_cuts_apart() {
    let empty = ColumnBlock { feat_ids: vec![], data: vec![], n_rows: 0 };
    assert_eq!(
        hash_of_block(&empty),
        "af1349b9f5f9a1a6a0404dea36dcc9499bcb25c9adc112b7cc9a93cae41f3262"
    );
    assert_ne!(hash_of_block(&blocks()[0]), hash_of_block(&blocks()[1]));
    let a = cuts_hash(&vec![1, 2], &vec![0, 2]);
    assert_eq!(a.len(), 16);
    assert_ne!(a, cuts_hash(&vec![1, 3], &vec![0, 2]));
}

fn cache() -> DiskCache {
    let m = written();
    DiskCache::new(m.groups, 4, 3, m.block_hashes)
}

#[test]
fn blocks_come_back_as_they_were_written() {
    let mut c = cache();
    assert!(matches!(c.read_plan(0, 1), Ok(ReadPlan::WholeThenSelect)));
    let b = c.take_block(0, blocks()[0].data.clone()).unwrap_or_else(|e| panic!("{e:?}"));
    assert_eq!(b.feat_ids, vec![0, 1]);
    assert_eq!(b.data, blocks()[0].data);
    assert!(matches!(c.read_plan(0, 1), Ok(ReadPlan::Columns)));
    assert!(matches!(c.read_plan(0, 2), Ok(ReadPlan::Whole)));
    let whole = select_columns(&b, &[1], 0).unwrap_or_else(|e| panic!("{e:?}"));
    let (from, len) = c.column_range(0, 1).unwrap_or_else(|e| panic!("{e:?}"));
    let part = blocks()[0].data[from..from + len].to_vec();
    let partial = c.take_columns(0, &[1], part).unwrap_or_else(|e| panic!("{e:?}"));
    assert_eq!(partial.data, whole.data);
    assert_eq!(partial.feat_ids, whole.feat_ids);
}

#[test]
fn the_asked_columns_come_out_at_every_read() {
    let file = blocks()[0].data.clone();
    let mut c = cache();
    let plan = c.read_plan(0, 1).unwrap_or_else(|e| panic!("{e:?}"));
    assert_eq!(plan, ReadPlan::WholeThenSelect);
    let mut damaged = file.clone();
    damaged[7] ^= 1;
    assert_eq!(c.take_read(0, &[1], plan, damaged).err(), Some(CacheError::Checksum { block: 0 }));
    let first = c.take_read(0, &[1], plan, file.clone()).unwrap_or_else(|e| panic!("{e:?}"));
    let plan = c.read_plan(0, 1).unwrap_or_else(|e| panic!("{e:?}"));
    assert_eq!(plan, ReadPlan::Columns);
    let run = file[4..8].to_vec();
    let later = c.take_read(0, &[1], plan, run.clone()).unwrap_or_else(|e| panic!("{e:?}"));
    assert_eq!(first.feat_ids, vec![1]);
    assert_eq!((first.data, first.n_rows), (run.clone(), 4));
    assert_eq!((later.feat_ids, later.data), (vec![1], run));
    assert_eq!(
        c.take_read(0, &[3], plan, vec![0; 4]).err(),
        Some(CacheError::NoColumn { block: 0, column: 3 })
    );
    let whole = c.take_read(0, &[], ReadPlan::Whole, file.clone()).unwrap_or_else(|e| panic!("{e:?}"));
    assert_eq!((whole.feat_ids, whole.data), (vec![0, 1], file));
}

#[test]
fn a_block_is_taken_by_its_hash_once() {
    let data = || blocks()[1].data.clone();
    let mut c = cache();
    let hash = c.block_hashes[1].clone();
    assert_eq!(c.take_hashed(1, data(), "").err(), Some(CacheError::Checksum { block: 1 }));
    assert!(c.take_hashed(1, data(), &hash).is_ok());
    assert!(c.take_hashed(1, data(), "").is_ok());
    assert_eq!(c.cache_reads, 3);
    assert_eq!(c.source_bytes, 3 * data().len() as u64);
}

#[test]
fn damaged_blocks_are_refused_on_the_first_read() {
    let mut c = cache();
    let mut data = blocks()[1].data.clone();
    data[0] ^= 1;
    assert_eq!(c.take_block(1, data).err(), Some(CacheError::Checksum { block: 1 }));
    assert_eq!(c.take_block(1, vec![1]).err(), Some(CacheError::BlockLength { block: 1 }));
    assert_eq!(c.take_block(2, vec![]).err(), Some(CacheError::NoBlock { block: 2 }));
    assert_eq!(
        c.column_range(0, 2).err(),
        Some(CacheError::NoColumn { block: 0, column: 2 })
    );
    assert_eq!(c.locate(2), Ok((1, 0)));
    assert_eq!(c.locate(9), Err(CacheError::NoFeature { feat: 9, features: 3 }));
}

#[test]
fn a_cache_goes_where_there_is_room() {
    assert_eq!(placement(false, None, 100, 100), Placement::Memory);
    assert_eq!(placement(false, None, 100, 101), Placement::Disk { delete_on_drop: true });
    assert_eq!(placement(true, None, 100, 1), Placement::Disk { delete_on_drop: false });
    assert_eq!(placement(false, Some(0), 100, 0), Placement::Disk { delete_on_drop: true });
    assert_eq!(placement(false, Some(50), 0, 50), Placement::Memory);
    assert_eq!(cache_bytes(10, 7), Some(70));
    assert_eq!(cache_bytes(usize::MAX, 2), None);
    assert_eq!(column_in(3, 1), 1);
    assert!(default_cache_budget(Some(1 << 20)) > 0);
    for given in [false, true] {
        assert_eq!(cache_open(true, true, given), CacheOpen::Reuse);
        assert_eq!(cache_open(false, false, given), CacheOpen::Build);
    }
    assert_eq!(cache_open(false, true, false), CacheOpen::Refuse);
    assert_eq!(cache_open(false, true, true), CacheOpen::Build);
}

#[test]
fn unused_caches_are_told_in_words() {
    let told = |e: CacheError| e.message("aa", "bb");
    assert_eq!(
        told(CacheError::Version { found: 1 }),
        "不支持的量化缓存版本 1（payload checksum 从版本 2 开始；请重建旧缓存）"
    );
    assert_eq!(told(CacheError::Label), "缓存标签列不一致");
    assert!(told(CacheError::OtherCuts).contains("拒绝使用旧量化数据"));
    assert_eq!(told(CacheError::BlockLength { block: 3 }), "缓存块 3 长度不一致");
    assert_eq!(
        told(CacheError::Checksum { block: 0 }),
        "缓存块 0 payload checksum 不一致:期望 aa,实际 bb"
    );
    assert_eq!(told(CacheError::NoColumn { block: 1, column: 7 }), "列块 1 没有局部特征 7");
    assert_eq!(told(CacheError::NoFeature { feat: 9, features: 4 }), "特征 9 越界,共 4 列");
}
