//! Histogram launches: input checks, feature tiles and row launches.
use vstd::prelude::*;

use crate::hist::{
    accumulate_features, advance, at_progress, build, build_inputs_ok, column_of,
    even_progress, is_histogram, lemma_full_sums_are_histogram, lemma_zeros_are_empty_sums,
    monotone, rows_of, GradPairFixed, Histogram,
};
use crate::columns::lemma_column_in_bounds;
use crate::math::{imin, min_usize};
use crate::types::{Bin, GpuMath, RowId, MISSING_BIN};

verus! {

/// How a block's partial histogram lies in shared memory.
#[derive(Clone, Copy, Debug, PartialEq, Eq, Structural)]
pub enum SharedHistogramLayout {
    /// One interleaved 16-byte pair per bin.
    Interleaved16,
    /// Gradients and Hessians in two arrays of 8-byte words.
    Split8,
    /// Four planes of 32-bit words, so that every bank is used.
    Planar32,
}

impl SharedHistogramLayout {
    /// The name of the kernel that uses this layout.
    pub open spec fn spec_kernel_name(self) -> &'static str {
        match self {
            SharedHistogramLayout::Interleaved16 => "hist_build_shared",
            SharedHistogramLayout::Split8 => "hist_build_shared_split",
            SharedHistogramLayout::Planar32 => "hist_build_shared_planar32",
        }
    }

    /// The name of the layout.
    pub open spec fn spec_label(self) -> &'static str {
        match self {
            SharedHistogramLayout::Interleaved16 => "interleaved16",
            SharedHistogramLayout::Split8 => "split8",
            SharedHistogramLayout::Planar32 => "planar32",
        }
    }

    /// Every layout.
    pub fn all() -> (r: [SharedHistogramLayout; 3])
        ensures
            r@ == seq![
                SharedHistogramLayout::Interleaved16,
                SharedHistogramLayout::Split8,
                SharedHistogramLayout::Planar32,
            ],
    {
        [
            SharedHistogramLayout::Interleaved16,
            SharedHistogramLayout::Split8,
            SharedHistogramLayout::Planar32,
        ]
    }

    /// The name of the kernel that uses this layout.
    pub fn kernel_name(self) -> (r: &'static str)
        ensures
            r@ == self.spec_kernel_name()@,
    {
        match self {
            SharedHistogramLayout::Interleaved16 => "hist_build_shared",
            SharedHistogramLayout::Split8 => "hist_build_shared_split",
            SharedHistogramLayout::Planar32 => "hist_build_shared_planar32",
        }
    }

    /// The name of the layout.
    pub fn label(self) -> (r: &'static str)
        ensures
            r@ == self.spec_label()@,
    {
        match self {
            SharedHistogramLayout::Interleaved16 => "interleaved16",
            SharedHistogramLayout::Split8 => "split8",
            SharedHistogramLayout::Planar32 => "planar32",
        }
    }
}

/// How histograms are launched.
#[derive(Clone, Copy, Debug)]
pub struct SharedHistogramConfig {
    /// Whether the chosen path is reported at run time.
    pub runtime_log: bool,
    /// Threads per row block.
    pub threads_per_block: u32,
    /// Bound on the shared memory of a feature tile; the device's own bound where absent.
    pub shared_memory_budget_bytes: Option<usize>,
    pub layout: SharedHistogramLayout,
    /// Histogram streams, 1 or 2; a given value is never overridden.
    pub hist_streams: Option<usize>,
    /// Whether gradients are quantized on the device.
    pub device_quantize: Option<bool>,
    /// How many nodes one launch takes together.
    pub hist_nodes_per_batch: Option<usize>,
    /// Where gradients are computed.
    pub gpu_math: GpuMath,
    /// The memory budget that the planner used, for the report.
    pub gpu_memory_budget: Option<usize>,
    /// Blocks that stay on the device.
    pub resident_blocks: Option<usize>,
}

impl SharedHistogramConfig {
    /// The configuration where nothing was chosen.
    pub open spec fn spec_default() -> SharedHistogramConfig {
        SharedHistogramConfig {
            runtime_log: true,
            threads_per_block: 512,
            shared_memory_budget_bytes: Some(32768),
            layout: SharedHistogramLayout::Planar32,
            hist_streams: None,
            device_quantize: None,
            hist_nodes_per_batch: None,
            gpu_math: GpuMath::Exact,
            gpu_memory_budget: None,
            resident_blocks: None,
        }
    }
}

impl Default for SharedHistogramConfig {
    fn default() -> (c: Self)
        ensures
            c == SharedHistogramConfig::spec_default(),
    {
        SharedHistogramConfig {
            runtime_log: true,
            threads_per_block: 512,
            shared_memory_budget_bytes: Some(32768),
            layout: SharedHistogramLayout::Planar32,
            hist_streams: None,
            device_quantize: None,
            hist_nodes_per_batch: None,
            gpu_math: GpuMath::Exact,
            gpu_memory_budget: None,
            resident_blocks: None,
        }
    }
}

/// Why a histogram is refused.
#[derive(Clone, Copy, Debug, PartialEq, Eq, Structural)]
pub enum HistogramError {
    /// The bins are not `n_feats * n_rows` long.
    BinsLength,
    /// The offsets do not start at 0 or are not `n_feats + 1` long.
    OffsetsShape,
    /// The offsets fall somewhere.
    OffsetsNotMonotone,
    /// There is not one gradient pair per row.
    GpairLength,
    /// A listed row does not exist.
    RowOutOfRange,
    /// A bin of this feature has no slot.
    BinOutOfRange { feat: usize },
    /// The thread count is not in 1..=1024.
    Threads,
    /// The block has more rows than a 32-bit index holds.
    TooManyRows,
    /// More rows are selected than a 32-bit index holds.
    TooManySelected,
    /// More features than a 32-bit index holds.
    TooManyFeatures,
    /// The device reports less shared memory than the kernel takes.
    SharedLimitInvalid,
    /// Not one pair fits into shared memory.
    SharedTooSmall,
    /// More blocks of threads than a 32-bit grid holds.
    GridTooLarge,
    /// One feature has more bins than a tile holds.
    TileTooWide { feat: usize, bins: u32, max_bins: usize },
}

/// A feature with a bin, among the rows, that has no slot.
pub open spec fn has_bad_bin(
    block_data: Seq<Bin>,
    n_rows: int,
    offsets: Seq<u32>,
    rows: Seq<int>,
    f: int,
) -> bool {
    exists|k: int|
        0 <= k < rows.len() && {
            let b = #[trigger] column_of(block_data, n_rows, f)[rows[k]];
            b != MISSING_BIN && b >= offsets[f + 1] - offsets[f]
        }
}

/// All listed rows exist.
pub open spec fn rows_exist(rows: Seq<int>, n_rows: int) -> bool {
    forall|k: int| 0 <= k < rows.len() ==> 0 <= #[trigger] rows[k] < n_rows
}

/// The offsets start at 0 and have one entry more than there are features.
pub open spec fn offsets_shape_ok(offsets: Seq<u32>, n_feats: int) -> bool {
    offsets.len() == n_feats + 1 && offsets[0] == 0
}

/// The first check that the inputs fail, in the order in which they are made.
pub open spec fn is_input_error(
    block_data: Seq<Bin>,
    n_rows: int,
    n_feats: int,
    offsets: Seq<u32>,
    gpair_len: int,
    rows: Seq<int>,
    e: HistogramError,
) -> bool {
    if block_data.len() != n_feats * n_rows {
        e == HistogramError::BinsLength
    } else if !offsets_shape_ok(offsets, n_feats) {
        e == HistogramError::OffsetsShape
    } else if !monotone(offsets) {
        e == HistogramError::OffsetsNotMonotone
    } else if gpair_len != n_rows {
        e == HistogramError::GpairLength
    } else if !rows_exist(rows, n_rows) {
        e == HistogramError::RowOutOfRange
    } else {
        e matches HistogramError::BinOutOfRange { feat } && feat < n_feats && has_bad_bin(
            block_data,
            n_rows,
            offsets,
            rows,
            feat as int,
        ) && forall|g: int|
            0 <= g < feat ==> !#[trigger] has_bad_bin(block_data, n_rows, offsets, rows, g)
    }
}

/// Do the offsets never fall?
pub fn is_monotone(offsets: &[u32]) -> (r: bool)
    ensures
        r == monotone(offsets@),
{
    let n: usize = offsets.len();
    let mut i: usize = 1;
    while i < n
        invariant
            n == offsets@.len(),
            1 <= i,
            i <= n || n == 0,
            forall|a: int, b: int| 0 <= a <= b < i && b < n ==> offsets@[a] <= offsets@[b],
        decreases n - i,
    {
        if offsets[i - 1] > offsets[i] {
            assert(!(offsets@[i - 1] <= offsets@[i as int]));
            return false;
        }
        assert forall|a: int, b: int| 0 <= a <= b < i + 1 && b < n implies offsets@[a]
            <= offsets@[b] by {
            if b == i {
                if a < i {
                    assert(offsets@[a] <= offsets@[i - 1]);
                }
            }
        }
        i += 1;
    }
    true
}

/// Do all rows of a node exist?
pub fn rows_in_range(row_idx: Option<&[RowId]>, n_rows: usize) -> (r: bool)
    ensures
        r == rows_exist(rows_of(row_idx, n_rows as int), n_rows as int),
{
    match row_idx {
        None => true,
        Some(list) => {
            let ghost rows = rows_of(row_idx, n_rows as int);
            let mut k: usize = 0;
            while k < list.len()
                invariant
                    k <= list@.len(),
                    rows == rows_of(Some(list), n_rows as int),
                    row_idx == Some(list),
                    forall|q: int| 0 <= q < k ==> 0 <= #[trigger] rows[q] < n_rows,
                decreases list.len() - k,
            {
                assert(rows[k as int] == list@[k as int]);
                if list[k] as usize >= n_rows {
                    return false;
                }
                k += 1;
            }
            true
        },
    }
}

/// Checks the inputs of a histogram.
pub fn validate_inputs(
    block_data: &[Bin],
    block_n_rows: usize,
    n_feats: usize,
    feat_offsets: &[u32],
    gpair: &[GradPairFixed],
    row_idx: Option<&[RowId]>,
) -> (r: Result<(), HistogramError>)
    requires
        n_feats < usize::MAX,
    ensures
        r is Ok <==> build_inputs_ok(
            block_data@,
            block_n_rows as int,
            n_feats as int,
            feat_offsets@,
            gpair@.len() as int,
            rows_of(row_idx, block_n_rows as int),
        ) && feat_offsets@[0] == 0,
        r matches Err(e) ==> is_input_error(
            block_data@,
            block_n_rows as int,
            n_feats as int,
            feat_offsets@,
            gpair@.len() as int,
            rows_of(row_idx, block_n_rows as int),
            e,
        ),
{
    let ghost rows = rows_of(row_idx, block_n_rows as int);
    let ghost nr = block_n_rows as int;
    let ghost nf = n_feats as int;
    let data_len: usize = block_data.len();
    match n_feats.checked_mul(block_n_rows) {
        Some(p) => {
            if data_len != p {
                return Err(HistogramError::BinsLength);
            }
        },
        None => {
            return Err(HistogramError::BinsLength);
        },
    }
    if feat_offsets.len() != n_feats + 1 || feat_offsets[0] != 0 {
        return Err(HistogramError::OffsetsShape);
    }
    if !is_monotone(feat_offsets) {
        return Err(HistogramError::OffsetsNotMonotone);
    }
    if gpair.len() != block_n_rows {
        return Err(HistogramError::GpairLength);
    }
    if !rows_in_range(row_idx, block_n_rows) {
        return Err(HistogramError::RowOutOfRange);
    }
    let n_sel: usize = match row_idx {
        None => block_n_rows,
        Some(list) => list.len(),
    };
    assert(n_sel == rows.len());
    assert(rows_exist(rows, nr));
    let mut f: usize = 0;
    while f < n_feats
        invariant
            nr == block_n_rows,
            nf == n_feats,
            f <= n_feats,
            rows == rows_of(row_idx, nr),
            n_sel == rows.len(),
            data_len == block_data@.len(),
            data_len == nf * nr,
            offsets_shape_ok(feat_offsets@, nf),
            monotone(feat_offsets@),
            gpair@.len() == nr,
            rows_exist(rows, nr),
            forall|g: int|
                0 <= g < f ==> !#[trigger] has_bad_bin(block_data@, nr, feat_offsets@, rows, g),
        decreases n_feats - f,
    {
        let n_bins: u32 = feat_offsets[f + 1] - feat_offsets[f];
        proof {
            lemma_column_in_bounds(f as int, nf, nr);
        }
        let col_start: usize = f * block_n_rows;
        let mut k: usize = 0;
        while k < n_sel
            invariant
                nr == block_n_rows,
                nf == n_feats,
                f < n_feats,
                k <= n_sel,
                rows == rows_of(row_idx, nr),
                n_sel == rows.len(),
                data_len == block_data@.len(),
                data_len == nf * nr,
                offsets_shape_ok(feat_offsets@, nf),
                monotone(feat_offsets@),
                gpair@.len() == nr,
                rows_exist(rows, nr),
                col_start == f * block_n_rows,
                col_start + block_n_rows <= data_len,
                n_bins == feat_offsets@[f + 1] - feat_offsets@[f as int],
                forall|g: int|
                    0 <= g < f ==> !#[trigger] has_bad_bin(block_data@, nr, feat_offsets@, rows, g),
                forall|q: int|
                    0 <= q < k ==> {
                        let b = #[trigger] column_of(block_data@, nr, f as int)[rows[q]];
                        b == MISSING_BIN || b < n_bins
                    },
            decreases n_sel - k,
        {
            let row: usize = match row_idx {
                None => k,
                Some(list) => list[k] as usize,
            };
            assert(row == rows[k as int]);
            let b: Bin = block_data[col_start + row];
            assert(b == column_of(block_data@, nr, f as int)[rows[k as int]]);
            if b != MISSING_BIN && b as u32 >= n_bins {
                assert(has_bad_bin(block_data@, nr, feat_offsets@, rows, f as int));
                return Err(HistogramError::BinOutOfRange { feat: f });
            }
            k += 1;
        }
        f += 1;
    }
    proof {
        assert forall|g: int, k: int|
            #![trigger column_of(block_data@, nr, g)[rows[k]]]
            0 <= g < nf && 0 <= k < rows.len() implies {
            let b = column_of(block_data@, nr, g)[rows[k]];
            b == MISSING_BIN || b < feat_offsets@[g + 1] - feat_offsets@[g]
        } by {
            assert(!has_bad_bin(block_data@, nr, feat_offsets@, rows, g));
        }
    }
    Ok(())
}

/// What a device offers to one block of threads.
#[derive(Clone, Copy, Debug, PartialEq, Eq, Structural)]
pub struct DeviceLimits {
    /// Shared memory per block.
    pub shared_bytes_per_block: i32,
    /// Shared memory that the kernel takes by itself.
    pub static_shared_bytes: i32,
}

/// Bytes of one gradient pair.
pub const PAIR_BYTES: usize = 16;

/// The shared memory that a tile may take.
pub open spec fn shared_limit(budget: Option<usize>, limits: DeviceLimits) -> int {
    let device = limits.shared_bytes_per_block - limits.static_shared_bytes;
    match budget {
        Some(b) => imin(b as int, device),
        None => device,
    }
}

/// The shared memory that a tile may take, and how many bins that is.
pub fn tile_limit(budget: Option<usize>, limits: DeviceLimits) -> (r: Result<
    (usize, usize),
    HistogramError,
>)
    ensures
        match r {
            Ok((bytes, bins)) => bytes == shared_limit(budget, limits) && bins == bytes / 16 && bins
                >= 1,
            Err(HistogramError::SharedLimitInvalid) => limits.shared_bytes_per_block
                < limits.static_shared_bytes,
            Err(HistogramError::SharedTooSmall) => 0 <= shared_limit(budget, limits) < 16
                && limits.shared_bytes_per_block >= limits.static_shared_bytes,
            Err(_) => false,
        },
{
    let device: i64 = limits.shared_bytes_per_block as i64 - limits.static_shared_bytes as i64;
    if device < 0 {
        return Err(HistogramError::SharedLimitInvalid);
    }
    let device_limit: usize = device as usize;
    let bytes: usize = match budget {
        Some(b) => min_usize(b, device_limit),
        None => device_limit,
    };
    let bins: usize = bytes / PAIR_BYTES;
    if bins == 0 {
        return Err(HistogramError::SharedTooSmall);
    }
    Ok((bytes, bins))
}

/// The features `begin .. end`.
#[derive(Clone, Copy, Debug, PartialEq, Eq, Structural)]
pub struct FeatureTile {
    pub begin: usize,
    pub end: usize,
}

/// The bins of the features `a .. b`.
pub open spec fn span_bins(offsets: Seq<u32>, a: int, b: int) -> int {
    offsets[b] - offsets[a]
}

/// The tiles are consecutive, cover the features below `upto`, hold at most `max_bins`
/// bins each, and each takes as many features as it can.
pub open spec fn is_tiling(
    tiles: Seq<FeatureTile>,
    offsets: Seq<u32>,
    n_feats: int,
    max_bins: int,
    upto: int,
) -> bool {
    &&& tiles.len() == 0 <==> upto == 0
    &&& tiles.len() > 0 ==> tiles[0].begin == 0 && tiles.last().end == upto
    &&& forall|i: int|
        0 <= i < tiles.len() ==> {
            &&& (#[trigger] tiles[i]).begin < tiles[i].end <= upto
            &&& span_bins(offsets, tiles[i].begin as int, tiles[i].end as int) <= max_bins
            &&& tiles[i].end < n_feats ==> span_bins(
                offsets,
                tiles[i].begin as int,
                tiles[i].end + 1,
            ) > max_bins
        }
    &&& forall|i: int, j: int|
        0 <= i && j == i + 1 && j < tiles.len() ==> (#[trigger] tiles[i]).end == (
        #[trigger] tiles[j]).begin
}

/// Some feature alone exceeds a tile; `f` is the first.
pub open spec fn is_first_wide(offsets: Seq<u32>, n_feats: int, max_bins: int, f: int) -> bool {
    &&& 0 <= f < n_feats
    &&& span_bins(offsets, f, f + 1) > max_bins
    &&& forall|g: int| 0 <= g < f ==> #[trigger] feature_fits(offsets, max_bins, g)
}

/// One feature fits into a tile.
pub open spec fn feature_fits(offsets: Seq<u32>, max_bins: int, f: int) -> bool {
    span_bins(offsets, f, f + 1) <= max_bins
}

/// Where the tile that starts at `begin` ends.
fn tile_end(feat_offsets: &[u32], n_feats: usize, begin: usize, max_bins: usize) -> (end: usize)
    requires
        feat_offsets@.len() == n_feats + 1,
        monotone(feat_offsets@),
        begin < n_feats,
    ensures
        begin <= end <= n_feats,
        span_bins(feat_offsets@, begin as int, end as int) <= max_bins,
        end < n_feats ==> span_bins(feat_offsets@, begin as int, end + 1) > max_bins,
{
    let hist_begin: usize = feat_offsets[begin] as usize;
    let mut end: usize = begin;
    while end < n_feats && feat_offsets[end + 1] as usize - hist_begin <= max_bins
        invariant
            feat_offsets@.len() == n_feats + 1,
            monotone(feat_offsets@),
            begin <= end <= n_feats,
            begin < n_feats,
            hist_begin == feat_offsets@[begin as int],
            span_bins(feat_offsets@, begin as int, end as int) <= max_bins,
        decreases n_feats - end,
    {
        end += 1;
    }
    end
}

/// Cuts the features greedily into tiles of at most `max_bins` bins.
pub fn feature_tiles(feat_offsets: &[u32], n_feats: usize, max_bins: usize) -> (r: Result<
    Vec<FeatureTile>,
    HistogramError,
>)
    requires
        feat_offsets@.len() == n_feats + 1,
        monotone(feat_offsets@),
    ensures
        r is Ok <==> forall|f: int|
            0 <= f < n_feats ==> #[trigger] feature_fits(feat_offsets@, max_bins as int, f),
        r matches Ok(tiles) ==> is_tiling(
            tiles@,
            feat_offsets@,
            n_feats as int,
            max_bins as int,
            n_feats as int,
        ),
        r matches Err(e) ==> e matches HistogramError::TileTooWide { feat, bins, max_bins: m }
            && is_first_wide(feat_offsets@, n_feats as int, max_bins as int, feat as int) && bins
            == span_bins(feat_offsets@, feat as int, feat + 1) && m == max_bins,
{
    let mut tiles: Vec<FeatureTile> = Vec::new();
    let mut begin: usize = 0;
    while begin < n_feats
        invariant
            feat_offsets@.len() == n_feats + 1,
            monotone(feat_offsets@),
            begin <= n_feats,
            is_tiling(
                tiles@,
                feat_offsets@,
                n_feats as int,
                max_bins as int,
                begin as int,
            ),
            forall|f: int|
                0 <= f < begin ==> #[trigger] feature_fits(feat_offsets@, max_bins as int, f),
        decreases n_feats - begin,
    {
        let end: usize = tile_end(feat_offsets, n_feats, begin, max_bins);
        if end == begin {
            assert(!feature_fits(feat_offsets@, max_bins as int, begin as int));
            return Err(
                HistogramError::TileTooWide {
                    feat: begin,
                    bins: feat_offsets[begin + 1] - feat_offsets[begin],
                    max_bins,
                },
            );
        }
        let ghost before = tiles@;
        tiles.push(FeatureTile { begin, end });
        proof {
            assert forall|f: int| 0 <= f < end implies #[trigger] feature_fits(
                feat_offsets@,
                max_bins as int,
                f,
            ) by {
                if f >= begin {
                    assert(feat_offsets@[begin as int] <= feat_offsets@[f]);
                    assert(feat_offsets@[f + 1] <= feat_offsets@[end as int]);
                }
            }
            assert(tiles@.last() == FeatureTile { begin, end });
            assert(before.len() > 0 ==> before.last() == before[before.len() - 1]);
        }
        begin = end;
    }
    Ok(tiles)
}

/// Every feature lies in exactly one tile.
pub proof fn law_tiles_take_every_feature_once(
    tiles: Seq<FeatureTile>,
    offsets: Seq<u32>,
    n_feats: int,
    max_bins: int,
    f: int,
)
    requires
        is_tiling(tiles, offsets, n_feats, max_bins, n_feats),
        0 <= f < n_feats,
    ensures
        exists|i: int| 0 <= i < tiles.len() && (#[trigger] tiles[i]).begin <= f < tiles[i].end,
        forall|i: int, j: int|
            0 <= i < j < tiles.len() ==> (#[trigger] tiles[i]).end <= (#[trigger] tiles[j]).begin,
{
    lemma_tiles_ordered(tiles, offsets, n_feats, max_bins, n_feats);
    let i = lemma_tile_of(tiles, offsets, n_feats, max_bins, n_feats, f, tiles.len() as int);
    assert(tiles[i].begin <= f < tiles[i].end);
}

proof fn lemma_tiles_ordered(
    tiles: Seq<FeatureTile>,
    offsets: Seq<u32>,
    n_feats: int,
    max_bins: int,
    upto: int,
)
    requires
        is_tiling(tiles, offsets, n_feats, max_bins, upto),
    ensures
        forall|i: int, j: int|
            0 <= i < j < tiles.len() ==> (#[trigger] tiles[i]).end <= (#[trigger] tiles[j]).begin,
{
    assert forall|i: int, j: int| 0 <= i < j < tiles.len() implies (#[trigger] tiles[i]).end <= (
    #[trigger] tiles[j]).begin by {
        lemma_tile_pair_ordered(tiles, offsets, n_feats, max_bins, upto, i, j);
    }
}

proof fn lemma_tile_pair_ordered(
    tiles: Seq<FeatureTile>,
    offsets: Seq<u32>,
    n_feats: int,
    max_bins: int,
    upto: int,
    i: int,
    j: int,
)
    requires
        is_tiling(tiles, offsets, n_feats, max_bins, upto),
        0 <= i < j < tiles.len(),
    ensures
        tiles[i].end <= tiles[j].begin,
    decreases j,
{
    assert(tiles[j - 1].end == tiles[j].begin);
    if i < j - 1 {
        lemma_tile_pair_ordered(tiles, offsets, n_feats, max_bins, upto, i, j - 1);
        assert(tiles[j - 1].begin < tiles[j - 1].end);
    }
}

proof fn lemma_tile_of(
    tiles: Seq<FeatureTile>,
    offsets: Seq<u32>,
    n_feats: int,
    max_bins: int,
    upto: int,
    f: int,
    k: int,
) -> (i: int)
    requires
        is_tiling(tiles, offsets, n_feats, max_bins, upto),
        0 < k <= tiles.len(),
        0 <= f < tiles[k - 1].end,
    ensures
        0 <= i < k,
        tiles[i].begin <= f < tiles[i].end,
    decreases k,
{
    if tiles[k - 1].begin <= f {
        k - 1
    } else {
        assert(k - 1 > 0);
        assert(tiles[k - 2].end == tiles[k - 1].begin);
        lemma_tile_of(tiles, offsets, n_feats, max_bins, upto, f, k - 1)
    }
}

/// One launch over consecutive rows of a node.
#[derive(Clone, Copy, Debug, PartialEq, Eq, Structural)]
pub struct RowLaunch {
    /// The first row, counted from the start of the node.
    pub begin: usize,
    pub rows: usize,
    /// Blocks of threads.
    pub grid: u32,
    /// Threads per block.
    pub block: u32,
    /// Rows that each thread takes.
    pub rows_per_thread: u32,
}

/// The largest multiple of `unit` that is at most `n`.
pub open spec fn whole_units(n: int, unit: int) -> int {
    n / unit * unit
}

/// A launch over `rows` rows, or none where there are no rows.
pub open spec fn launch_seq(
    begin: int,
    rows: int,
    grid: int,
    block: int,
    rows_per_thread: int,
) -> Seq<RowLaunch> {
    if rows > 0 {
        seq![
            RowLaunch {
                begin: begin as usize,
                rows: rows as usize,
                grid: grid as u32,
                block: block as u32,
                rows_per_thread: rows_per_thread as u32,
            },
        ]
    } else {
        seq![]
    }
}

/// The launches of one node: whole blocks with four rows per thread where that kernel is
/// used, then whole blocks with one row per thread, then one block for the rest.
pub open spec fn row_plan(n: int, threads: int, four_rows: bool) -> Seq<RowLaunch> {
    let r4 = if four_rows {
        whole_units(n, threads * 4)
    } else {
        0
    };
    let full = r4 + whole_units(n - r4, threads);
    launch_seq(0, r4, r4 / (threads * 4), threads, 4) + launch_seq(
        r4,
        full - r4,
        (full - r4) / threads,
        threads,
        1,
    ) + launch_seq(full, n - full, 1, n - full, 1)
}

/// The launches take the rows `0 .. n` one after the other, and every launch has exactly
/// one thread slot per row.
pub open spec fn covers_rows(launches: Seq<RowLaunch>, n: int, threads: int) -> bool {
    &&& launches.len() == 0 <==> n == 0
    &&& launches.len() > 0 ==> launches[0].begin == 0 && launches.last().begin
        + launches.last().rows == n
    &&& forall|i: int|
        0 <= i < launches.len() ==> {
            let l = #[trigger] launches[i];
            &&& l.rows > 0
            &&& l.rows == l.grid * l.block * l.rows_per_thread
            &&& 1 <= l.block <= threads
        }
    &&& forall|i: int, j: int|
        0 <= i && j == i + 1 && j < launches.len() ==> (#[trigger] launches[i]).begin
            + launches[i].rows == (#[trigger] launches[j]).begin
}

proof fn lemma_whole_units(n: int, unit: int)
    requires
        0 <= n,
        0 < unit,
    ensures
        0 <= whole_units(n, unit) <= n,
        n - whole_units(n, unit) < unit,
        whole_units(n, unit) / unit * unit == whole_units(n, unit),
        whole_units(n, unit) / unit == n / unit,
        0 <= n / unit <= n,
{
    vstd::arithmetic::div_mod::lemma_fundamental_div_mod(n, unit);
    let q = n / unit;
    assert(q * unit == unit * q) by (nonlinear_arith);
    assert(0 <= q <= n) by (nonlinear_arith)
        requires
            n == unit * q + n % unit,
            0 <= n % unit < unit,
            n >= 0,
            unit >= 1,
    ;
    vstd::arithmetic::div_mod::lemma_div_multiples_vanish(q, unit);
    assert(q * unit >= 0) by (nonlinear_arith)
        requires
            q >= 0,
            unit > 0,
    ;
}

/// The launches of a node take each of its rows exactly once.
pub proof fn law_row_plan_takes_every_row_once(n: int, threads: int, four_rows: bool)
    requires
        0 <= n <= usize::MAX,
        1 <= threads <= 1024,
        n / threads <= u32::MAX,
    ensures
        covers_rows(row_plan(n, threads, four_rows), n, threads),
{
    let r4 = if four_rows {
        whole_units(n, threads * 4)
    } else {
        0
    };
    lemma_whole_units(n, threads * 4);
    lemma_whole_units(n - r4, threads);
    let full = r4 + whole_units(n - r4, threads);
    let plan = row_plan(n, threads, four_rows);
    let a = launch_seq(0, r4, r4 / (threads * 4), threads, 4);
    let b = launch_seq(r4, full - r4, (full - r4) / threads, threads, 1);
    let c = launch_seq(full, n - full, 1, n - full, 1);
    let g4 = r4 / (threads * 4);
    let g1 = (full - r4) / threads;
    assert(r4 == g4 * (threads * 4)) by {
        if !four_rows {
            assert(g4 == 0) by {
                vstd::arithmetic::div_mod::lemma_div_of0(threads * 4);
            }
        }
    }
    assert(g4 * (threads * 4) == g4 * threads * 4) by (nonlinear_arith);
    assert(full - r4 == g1 * threads);
    assert(g1 >= 0 && g4 >= 0) by {
        vstd::arithmetic::div_mod::lemma_div_pos_is_pos(r4, threads * 4);
        vstd::arithmetic::div_mod::lemma_div_pos_is_pos(full - r4, threads);
    }
    lemma_whole_units(n, threads);
    let q = n / threads;
    assert(g4 <= q && g1 <= q) by (nonlinear_arith)
        requires
            r4 == g4 * (threads * 4),
            full - r4 == g1 * threads,
            0 <= r4 <= full <= n,
            n < q * threads + threads,
            threads >= 1,
            g4 >= 0,
            g1 >= 0,
    ;
    assert(1 * (n - full) * 1 == n - full);
    assert forall|i: int| 0 <= i < plan.len() implies {
        let l = #[trigger] plan[i];
        &&& l.rows > 0
        &&& l.rows == l.grid * l.block * l.rows_per_thread
        &&& 1 <= l.block <= threads
    } by {
        if i < a.len() {
            assert(plan[i] == a[i]);
        } else if i < a.len() + b.len() {
            assert(plan[i] == b[i - a.len()]);
            assert(g1 * threads * 1 == g1 * threads);
        } else {
            assert(plan[i] == c[i - a.len() - b.len()]);
        }
    }
}

/// The launches of one node.
pub fn plan_rows(n_selected: usize, threads_per_block: u32, four_rows: bool) -> (r: Vec<RowLaunch>)
    requires
        1 <= threads_per_block <= 1024,
        n_selected as int / threads_per_block as int <= u32::MAX,
    ensures
        r@ == row_plan(n_selected as int, threads_per_block as int, four_rows),
{
    let threads: usize = threads_per_block as usize;
    let mut r: Vec<RowLaunch> = Vec::new();
    proof {
        lemma_whole_units(n_selected as int, threads * 4);
    }
    let r4: usize = if four_rows {
        n_selected / (threads * 4) * (threads * 4)
    } else {
        0
    };
    proof {
        lemma_whole_units(n_selected - r4, threads as int);
    }
    let rest: usize = (n_selected - r4) / threads * threads;
    let full: usize = r4 + rest;
    let tail: usize = n_selected - full;
    proof {
        lemma_whole_units(n_selected as int, threads as int);
        lemma_whole_units(r4 as int, threads * 4);
        lemma_whole_units(rest as int, threads as int);
        let q = n_selected as int / threads as int;
        let g4 = r4 as int / (threads * 4);
        let g1 = rest as int / threads as int;
        assert(g4 <= q && g1 <= q) by (nonlinear_arith)
            requires
                g4 * (threads * 4) <= r4,
                g1 * threads <= rest,
                r4 + rest <= n_selected,
                n_selected < q * threads + threads,
                threads >= 1,
                0 <= g4,
                0 <= g1,
                0 <= r4,
                0 <= rest,
        ;
    }
    if r4 > 0 {
        r.push(
            RowLaunch {
                begin: 0,
                rows: r4,
                grid: (r4 / (threads * 4)) as u32,
                block: threads_per_block,
                rows_per_thread: 4,
            },
        );
    }
    if rest > 0 {
        r.push(
            RowLaunch {
                begin: r4,
                rows: rest,
                grid: (rest / threads) as u32,
                block: threads_per_block,
                rows_per_thread: 1,
            },
        );
    }
    if tail > 0 {
        r.push(
            RowLaunch { begin: full, rows: tail, grid: 1, block: tail as u32, rows_per_thread: 1 },
        );
    }
    assert(r@ =~= row_plan(n_selected as int, threads_per_block as int, four_rows));
    r
}

/// The histogram of a node, with one row per launch.
pub fn build_histogram(
    block_data: &[Bin],
    block_n_rows: usize,
    n_feats: usize,
    feat_offsets: &[u32],
    gpair: &[GradPairFixed],
    row_idx: Option<&[RowId]>,
) -> (r: Result<Vec<GradPairFixed>, HistogramError>)
    requires
        n_feats < usize::MAX,
    ensures
        ({
            let rows = rows_of(row_idx, block_n_rows as int);
            let ok = build_inputs_ok(
                block_data@,
                block_n_rows as int,
                n_feats as int,
                feat_offsets@,
                gpair@.len() as int,
                rows,
            ) && feat_offsets@[0] == 0;
            let empty = feat_offsets@[n_feats as int] == 0 || rows.len() == 0;
            match r {
                Ok(out) => ok && is_histogram(
                    out@,
                    block_data@,
                    block_n_rows as int,
                    n_feats as int,
                    feat_offsets@,
                    gpair@,
                    rows,
                ) && (empty || block_n_rows <= u32::MAX && n_feats <= u32::MAX && rows.len()
                    <= u32::MAX),
                Err(e) => if !ok {
                    is_input_error(
                        block_data@,
                        block_n_rows as int,
                        n_feats as int,
                        feat_offsets@,
                        gpair@.len() as int,
                        rows,
                        e,
                    )
                } else {
                    !empty && if block_n_rows > u32::MAX {
                        e == HistogramError::TooManyRows
                    } else if n_feats > u32::MAX {
                        e == HistogramError::TooManyFeatures
                    } else {
                        rows.len() > u32::MAX && e == HistogramError::TooManySelected
                    }
                },
            }
        }),
{
    match validate_inputs(block_data, block_n_rows, n_feats, feat_offsets, gpair, row_idx) {
        Err(e) => {
            return Err(e);
        },
        Ok(()) => {},
    }
    let n_hist: usize = feat_offsets[n_feats] as usize;
    let n_selected: usize = match row_idx {
        None => block_n_rows,
        Some(list) => list.len(),
    };
    let mut hist: Histogram = Histogram::zeros(n_hist);
    if n_hist > 0 && n_selected > 0 {
        if block_n_rows > 0xffff_ffff {
            return Err(HistogramError::TooManyRows);
        }
        if n_feats > 0xffff_ffff {
            return Err(HistogramError::TooManyFeatures);
        }
        if n_selected > 0xffff_ffff {
            return Err(HistogramError::TooManySelected);
        }
    }
    build(block_data, block_n_rows, n_feats, feat_offsets, gpair, row_idx, &mut hist.bins);
    Ok(hist.bins)
}

/// How a histogram was launched.
#[derive(Clone, Copy, Debug, PartialEq, Eq, Structural)]
pub struct SharedHistogramProfile {
    pub feature_tiles: usize,
    pub row_launches_per_feature_tile: usize,
    pub threads_per_block: u32,
    pub shared_memory_budget_bytes: usize,
    pub layout: SharedHistogramLayout,
}

/// The check that a launch configuration fails, after the inputs have passed.
pub open spec fn is_launch_error(
    n_rows: int,
    n_feats: int,
    offsets: Seq<u32>,
    n_selected: int,
    config: SharedHistogramConfig,
    limits: DeviceLimits,
    e: HistogramError,
) -> bool {
    if config.threads_per_block == 0 || config.threads_per_block > 1024 {
        e == HistogramError::Threads
    } else if n_rows > u32::MAX {
        e == HistogramError::TooManyRows
    } else if limits.shared_bytes_per_block < limits.static_shared_bytes {
        e == HistogramError::SharedLimitInvalid
    } else if shared_limit(config.shared_memory_budget_bytes, limits) < 16 {
        e == HistogramError::SharedTooSmall
    } else if n_selected / config.threads_per_block as int > u32::MAX {
        e == HistogramError::GridTooLarge
    } else {
        let max_bins = shared_limit(config.shared_memory_budget_bytes, limits) / 16;
        e matches HistogramError::TileTooWide { feat, bins, max_bins: m } && is_first_wide(
            offsets,
            n_feats,
            max_bins,
            feat as int,
        ) && bins == span_bins(offsets, feat as int, feat + 1) && m == max_bins
    }
}

/// The launch configuration works for these inputs.
pub open spec fn launch_ok(
    n_rows: int,
    n_feats: int,
    offsets: Seq<u32>,
    n_selected: int,
    config: SharedHistogramConfig,
    limits: DeviceLimits,
) -> bool {
    &&& 1 <= config.threads_per_block <= 1024
    &&& n_rows <= u32::MAX
    &&& limits.shared_bytes_per_block >= limits.static_shared_bytes
    &&& shared_limit(config.shared_memory_budget_bytes, limits) >= 16
    &&& n_selected / config.threads_per_block as int <= u32::MAX
    &&& forall|f: int|
        0 <= f < n_feats ==> #[trigger] feature_fits(
            offsets,
            shared_limit(config.shared_memory_budget_bytes, limits) / 16,
            f,
        )
}

/// What a histogram call returns: the histogram where inputs and launch are in order, the
/// first failed check otherwise. Nothing is launched for an empty node or no bins.
pub open spec fn is_outcome(
    out: Result<Seq<GradPairFixed>, HistogramError>,
    limits: DeviceLimits,
    block_data: Seq<Bin>,
    n_rows: int,
    n_feats: int,
    offsets: Seq<u32>,
    gpair: Seq<GradPairFixed>,
    rows: Seq<int>,
    config: SharedHistogramConfig,
) -> bool {
    let ok = build_inputs_ok(block_data, n_rows, n_feats, offsets, gpair.len() as int, rows)
        && offsets[0] == 0;
    let empty = offsets[n_feats] == 0 || rows.len() == 0;
    let n_selected = rows.len() as int;
    let fits = launch_ok(n_rows, n_feats, offsets, n_selected, config, limits);
    match out {
        Ok(h) => ok && (empty || fits) && is_histogram(
            h,
            block_data,
            n_rows,
            n_feats,
            offsets,
            gpair,
            rows,
        ),
        Err(e) => if !ok {
            is_input_error(block_data, n_rows, n_feats, offsets, gpair.len() as int, rows, e)
        } else {
            !empty && !fits && is_launch_error(
                n_rows,
                n_feats,
                offsets,
                n_selected,
                config,
                limits,
                e,
            )
        },
    }
}

/// What the profile of a histogram says.
pub open spec fn is_profile(
    profile: SharedHistogramProfile,
    limits: DeviceLimits,
    n_feats: int,
    offsets: Seq<u32>,
    n_selected: int,
    config: SharedHistogramConfig,
) -> bool {
    let limit = shared_limit(config.shared_memory_budget_bytes, limits);
    &&& profile.threads_per_block == config.threads_per_block
    &&& profile.layout == config.layout
    &&& if offsets[n_feats] == 0 || n_selected == 0 {
        profile.feature_tiles == 0 && profile.row_launches_per_feature_tile == 0
            && profile.shared_memory_budget_bytes == 0
    } else {
        &&& profile.shared_memory_budget_bytes == limit
        &&& profile.row_launches_per_feature_tile == row_plan(
            n_selected,
            config.threads_per_block as int,
            false,
        ).len()
        &&& exists|tiles: Seq<FeatureTile>|
            #[trigger] is_tiling(tiles, offsets, n_feats, limit / 16, n_feats) && tiles.len()
                == profile.feature_tiles
    }
}

/// What is launched for a histogram: each launch of rows for each tile of features.
pub struct HistogramPlan {
    /// Bins of the histogram.
    pub n_hist: usize,
    pub tiles: Vec<FeatureTile>,
    pub launches: Vec<RowLaunch>,
    /// Shared memory that a tile may take.
    pub shared_limit_bytes: usize,
}

/// The plan of a histogram: nothing for an empty node or no bins, else every row of every feature.
pub open spec fn is_histogram_plan(
    plan: HistogramPlan,
    limits: DeviceLimits,
    n_feats: int,
    offsets: Seq<u32>,
    n_selected: int,
    config: SharedHistogramConfig,
) -> bool {
    let limit = shared_limit(config.shared_memory_budget_bytes, limits);
    &&& plan.n_hist == offsets[n_feats]
    &&& if offsets[n_feats] == 0 || n_selected == 0 {
        plan.tiles@.len() == 0 && plan.launches@.len() == 0 && plan.shared_limit_bytes == 0
    } else {
        &&& plan.shared_limit_bytes == limit
        &&& is_tiling(plan.tiles@, offsets, n_feats, limit / 16, n_feats)
        &&& plan.launches@ == row_plan(n_selected, config.threads_per_block as int, false)
    }
}

/// Checks the inputs and the launch configuration of a histogram and plans its launches.
pub fn plan_histogram(
    limits: DeviceLimits,
    block_data: &[Bin],
    block_n_rows: usize,
    n_feats: usize,
    feat_offsets: &[u32],
    gpair: &[GradPairFixed],
    row_idx: Option<&[RowId]>,
    config: SharedHistogramConfig,
) -> (r: Result<HistogramPlan, HistogramError>)
    requires
        n_feats < usize::MAX,
    ensures
        ({
            let nr = block_n_rows as int;
            let nf = n_feats as int;
            let rows = rows_of(row_idx, nr);
            let n_selected = rows.len() as int;
            let ok = build_inputs_ok(
                block_data@,
                nr,
                nf,
                feat_offsets@,
                gpair@.len() as int,
                rows,
            ) && feat_offsets@[0] == 0;
            let empty = feat_offsets@[nf] == 0 || n_selected == 0;
            let fits = launch_ok(nr, nf, feat_offsets@, n_selected, config, limits);
            match r {
                Ok(plan) => ok && (empty || fits) && is_histogram_plan(
                    plan,
                    limits,
                    nf,
                    feat_offsets@,
                    n_selected,
                    config,
                ),
                Err(e) => if !ok {
                    is_input_error(
                        block_data@,
                        nr,
                        nf,
                        feat_offsets@,
                        gpair@.len() as int,
                        rows,
                        e,
                    )
                } else {
                    !empty && !fits && is_launch_error(
                        nr,
                        nf,
                        feat_offsets@,
                        n_selected,
                        config,
                        limits,
                        e,
                    )
                },
            }
        }),
{
    match validate_inputs(block_data, block_n_rows, n_feats, feat_offsets, gpair, row_idx) {
        Err(e) => {
            return Err(e);
        },
        Ok(()) => {},
    }
    let n_hist: usize = feat_offsets[n_feats] as usize;
    let n_selected: usize = match row_idx {
        None => block_n_rows,
        Some(list) => list.len(),
    };
    assert(n_selected == rows_of(row_idx, block_n_rows as int).len());
    if n_hist == 0 || n_selected == 0 {
        return Ok(
            HistogramPlan {
                n_hist,
                tiles: Vec::new(),
                launches: Vec::new(),
                shared_limit_bytes: 0,
            },
        );
    }
    if config.threads_per_block == 0 || config.threads_per_block > 1024 {
        return Err(HistogramError::Threads);
    }
    if block_n_rows > 0xffff_ffff {
        return Err(HistogramError::TooManyRows);
    }
    let (shared_limit_bytes, max_bins): (usize, usize) = match tile_limit(
        config.shared_memory_budget_bytes,
        limits,
    ) {
        Ok(v) => v,
        Err(e) => {
            return Err(e);
        },
    };
    if n_selected / config.threads_per_block as usize > 0xffff_ffff {
        return Err(HistogramError::GridTooLarge);
    }
    let tiles: Vec<FeatureTile> = match feature_tiles(feat_offsets, n_feats, max_bins) {
        Ok(t) => t,
        Err(e) => {
            proof {
                let f = e->TileTooWide_feat as int;
                assert(!feature_fits(feat_offsets@, max_bins as int, f));
            }
            return Err(e);
        },
    };
    let launches: Vec<RowLaunch> = plan_rows(n_selected, config.threads_per_block, false);
    Ok(HistogramPlan { n_hist, tiles, launches, shared_limit_bytes })
}

/// The histogram of a node, built feature tile by feature tile and launch by launch.
pub fn build_histogram_shared_with_config(
    limits: DeviceLimits,
    block_data: &[Bin],
    block_n_rows: usize,
    n_feats: usize,
    feat_offsets: &[u32],
    gpair: &[GradPairFixed],
    row_idx: Option<&[RowId]>,
    config: SharedHistogramConfig,
) -> (r: Result<(Vec<GradPairFixed>, SharedHistogramProfile), HistogramError>)
    requires
        n_feats < usize::MAX,
    ensures
        is_outcome(
            match r {
                Ok((out, _)) => Ok(out@),
                Err(e) => Err(e),
            },
            limits,
            block_data@,
            block_n_rows as int,
            n_feats as int,
            feat_offsets@,
            gpair@,
            rows_of(row_idx, block_n_rows as int),
            config,
        ),
        r matches Ok((_, profile)) ==> is_profile(
            profile,
            limits,
            n_feats as int,
            feat_offsets@,
            rows_of(row_idx, block_n_rows as int).len() as int,
            config,
        ),
{
    let plan: HistogramPlan = match plan_histogram(
        limits,
        block_data,
        block_n_rows,
        n_feats,
        feat_offsets,
        gpair,
        row_idx,
        config,
    ) {
        Err(e) => {
            return Err(e);
        },
        Ok(plan) => plan,
    };
    let ghost rows = rows_of(row_idx, block_n_rows as int);
    let ghost nr = block_n_rows as int;
    let ghost nf = n_feats as int;
    let n_hist: usize = plan.n_hist;
    let n_selected: usize = match row_idx {
        None => block_n_rows,
        Some(list) => list.len(),
    };
    assert(n_selected == rows.len());
    let mut hist: Histogram = Histogram::zeros(n_hist);
    proof {
        lemma_zeros_are_empty_sums(hist.bins@, block_data@, nr, nf, feat_offsets@, gpair@, rows);
    }
    if n_hist == 0 || n_selected == 0 {
        proof {
            lemma_empty_histogram(hist.bins@, block_data@, nr, nf, feat_offsets@, gpair@, rows);
        }
        return Ok(
            (
                hist.bins,
                SharedHistogramProfile {
                    feature_tiles: 0,
                    row_launches_per_feature_tile: 0,
                    threads_per_block: config.threads_per_block,
                    shared_memory_budget_bytes: 0,
                    layout: config.layout,
                },
            ),
        );
    }
    let tiles: Vec<FeatureTile> = plan.tiles;
    let launches: Vec<RowLaunch> = plan.launches;
    let ghost max_bins = shared_limit(config.shared_memory_budget_bytes, limits) / 16;
    let ghost threads = config.threads_per_block as int;
    proof {
        law_row_plan_takes_every_row_once(n_selected as int, threads, false);
    }
    let mut t: usize = 0;
    let ghost mut progress = even_progress(nf, 0);
    let ghost mut done_feats: int = 0;
    while t < tiles.len()
        invariant
            nr == block_n_rows,
            nf == n_feats,
            rows == rows_of(row_idx, nr),
            n_selected == rows.len(),
            n_selected > 0,
            t <= tiles@.len(),
            is_tiling(tiles@, feat_offsets@, nf, max_bins, nf),
            covers_rows(launches@, n_selected as int, threads),
            build_inputs_ok(block_data@, nr, nf, feat_offsets@, gpair@.len() as int, rows),
            done_feats == if t == 0 {
                0
            } else {
                tiles@[t - 1].end as int
            },
            progress.len() == nf,
            forall|g: int| 0 <= g < done_feats ==> #[trigger] progress[g] == n_selected,
            forall|g: int| done_feats <= g < nf ==> #[trigger] progress[g] == 0,
            at_progress(hist.bins@, block_data@, nr, nf, feat_offsets@, gpair@, rows, progress),
        decreases tiles.len() - t,
    {
        let tile: FeatureTile = tiles[t];
        assert(tile.begin == done_feats) by {
            if t > 0 {
                assert(tiles@[t - 1].end == tiles@[t as int].begin);
            }
        }
        let mut l: usize = 0;
        let ghost mut taken: int = 0;
        while l < launches.len()
            invariant
                nr == block_n_rows,
                nf == n_feats,
                rows == rows_of(row_idx, nr),
                n_selected == rows.len(),
                n_selected > 0,
                l <= launches@.len(),
                tile.begin < tile.end <= n_feats,
                covers_rows(launches@, n_selected as int, threads),
                build_inputs_ok(block_data@, nr, nf, feat_offsets@, gpair@.len() as int, rows),
                taken == if l == 0 {
                    0
                } else {
                    launches@[l - 1].begin + launches@[l - 1].rows
                },
                progress.len() == nf,
                forall|g: int| 0 <= g < tile.begin ==> #[trigger] progress[g] == n_selected,
                forall|g: int| tile.begin <= g < tile.end ==> #[trigger] progress[g] == taken,
                forall|g: int| tile.end <= g < nf ==> #[trigger] progress[g] == 0,
                at_progress(hist.bins@, block_data@, nr, nf, feat_offsets@, gpair@, rows, progress),
            decreases launches.len() - l,
        {
            let piece: RowLaunch = launches[l];
            proof {
                lemma_launch_in_range(launches@, n_selected as int, threads, l as int);
                if l > 0 {
                    assert(launches@[l - 1].begin + launches@[l - 1].rows
                        == launches@[l as int].begin);
                }
            }
            accumulate_features(
                block_data,
                block_n_rows,
                n_feats,
                tile.begin,
                tile.end,
                feat_offsets,
                gpair,
                row_idx,
                piece.begin,
                piece.begin + piece.rows,
                Ghost(progress),
                &mut hist.bins,
            );
            proof {
                progress = advance(
                    progress,
                    tile.begin as int,
                    tile.end as int,
                    piece.begin + piece.rows,
                );
                taken = piece.begin + piece.rows;
            }
            l += 1;
        }
        proof {
            done_feats = tile.end as int;
        }
        t += 1;
    }
    proof {
        lemma_full_sums_are_histogram(
            hist.bins@,
            block_data@,
            nr,
            nf,
            feat_offsets@,
            gpair@,
            rows,
            progress,
        );
        assert(is_tiling(tiles@, feat_offsets@, nf, max_bins, nf));
    }
    Ok(
        (
            hist.bins,
            SharedHistogramProfile {
                feature_tiles: tiles.len(),
                row_launches_per_feature_tile: launches.len(),
                threads_per_block: config.threads_per_block,
                shared_memory_budget_bytes: plan.shared_limit_bytes,
                layout: config.layout,
            },
        ),
    )
}

proof fn lemma_launch_in_range(launches: Seq<RowLaunch>, n: int, threads: int, i: int)
    requires
        covers_rows(launches, n, threads),
        0 <= i < launches.len(),
    ensures
        launches[i].begin + launches[i].rows <= n,
    decreases launches.len() - i,
{
    if i < launches.len() - 1 {
        lemma_launch_in_range(launches, n, threads, i + 1);
        assert(launches[i].begin + launches[i].rows == launches[i + 1].begin);
    }
}

proof fn lemma_empty_histogram(
    out: Seq<GradPairFixed>,
    block_data: Seq<Bin>,
    n_rows: int,
    n_feats: int,
    offsets: Seq<u32>,
    gpair: Seq<GradPairFixed>,
    rows: Seq<int>,
)
    requires
        0 <= n_feats,
        offsets.len() == n_feats + 1,
        monotone(offsets),
        out.len() == offsets[n_feats],
        rows.len() == 0 || offsets[n_feats] == 0,
        at_progress(
            out,
            block_data,
            n_rows,
            n_feats,
            offsets,
            gpair,
            rows,
            even_progress(n_feats, 0),
        ),
    ensures
        is_histogram(out, block_data, n_rows, n_feats, offsets, gpair, rows),
{
    if rows.len() == 0 {
        lemma_full_sums_are_histogram(
            out,
            block_data,
            n_rows,
            n_feats,
            offsets,
            gpair,
            rows,
            even_progress(n_feats, 0),
        );
    } else {
        assert(offsets[0] <= offsets[n_feats]);
        assert forall|f: int, b: int|
            #![trigger out[offsets[f] + b]]
            0 <= f < n_feats && 0 <= b < offsets[f + 1] - offsets[f] implies false by {
            assert(offsets[f + 1] <= offsets[n_feats]);
        }
    }
}

/// The histogram of a node with the default launch configuration.
pub fn build_histogram_shared(
    limits: DeviceLimits,
    block_data: &[Bin],
    block_n_rows: usize,
    n_feats: usize,
    feat_offsets: &[u32],
    gpair: &[GradPairFixed],
    row_idx: Option<&[RowId]>,
) -> (r: Result<Vec<GradPairFixed>, HistogramError>)
    requires
        n_feats < usize::MAX,
    ensures
        is_outcome(
            match r {
                Ok(out) => Ok(out@),
                Err(e) => Err(e),
            },
            limits,
            block_data@,
            block_n_rows as int,
            n_feats as int,
            feat_offsets@,
            gpair@,
            rows_of(row_idx, block_n_rows as int),
            SharedHistogramConfig::spec_default(),
        ),
{
    match build_histogram_shared_with_config(
        limits,
        block_data,
        block_n_rows,
        n_feats,
        feat_offsets,
        gpair,
        row_idx,
        SharedHistogramConfig::default(),
    ) {
        Ok((out, _profile)) => Ok(out),
        Err(e) => Err(e),
    }
}

} // verus!
