//! How many workers the stages of a job get.
//!
//! Zero asks for as many as fit the machine. What the machine offers comes in as a number.
use vstd::prelude::*;

use crate::math::{div_ceil_usize, max_usize, min_usize};
use crate::tree::{children_ok, longest_way, walks_end, Model};

verus! {

/// Bytes of one chunk of CSV records: 2 MiB.
pub const CSV_CHUNK_BYTES: usize = 2_097_152;

/// Bytes that each reader may take on top of its batch: 16 MiB.
pub const READER_SLACK_BYTES: usize = 16_777_216;

/// Bytes of one part of a model file: 1 MiB.
pub const MODEL_IO_CHUNK: usize = 1_048_576;

/// Below this much work a prediction that was not asked to be parallel stays serial.
pub const AUTO_PREDICT_MIN_WORK: usize = 262_144;

/// Below this much work a prediction stays on the host.
pub const AUTO_GPU_PREDICT_MIN_WORK: usize = 8_388_608;

/// A sum that stops at the largest `usize`.
pub open spec fn sat_sum(a: int, b: int) -> int {
    crate::math::imin(a + b, usize::MAX as int)
}

/// A product that stops at the largest `usize`.
pub open spec fn sat_product(a: int, b: int) -> int {
    crate::math::imin(a * b, usize::MAX as int)
}

/// A sum that stops at the largest `usize`.
pub fn sat_add_usize(a: usize, b: usize) -> (r: usize)
    ensures
        r == sat_sum(a as int, b as int),
{
    match a.checked_add(b) {
        Some(s) => s,
        None => usize::MAX,
    }
}

/// A product that stops at the largest `usize`.
pub fn sat_mul_usize(a: usize, b: usize) -> (r: usize)
    ensures
        r == sat_product(a as int, b as int),
{
    match a.checked_mul(b) {
        Some(p) => p,
        None => usize::MAX,
    }
}

/// What is to be read, as far as it decides how much can be read at once.
pub enum IngestShape {
    /// The number of row groups of each file.
    Parquet { row_groups: Vec<usize> },
    /// The bytes of each file.
    Csv { bytes: Vec<usize> },
}

/// The sum of counts.
pub open spec fn total(s: Seq<usize>) -> int
    decreases s.len(),
{
    if s.len() == 0 {
        0
    } else {
        total(s.drop_last()) + s.last()
    }
}

/// The pieces that can be worked on at once: row groups of Parquet files, chunks of a single CSV
/// file, several CSV files each as one; and never fewer than the column blocks.
pub open spec fn work_units(shape: IngestShape, n_features: int, cols_per_block: int) -> int {
    let blocks = super::blocking::blocks_of(n_features, cols_per_block);
    match shape {
        IngestShape::Parquet { row_groups } => crate::math::imax(total(row_groups@), blocks),
        IngestShape::Csv { bytes } => if bytes@.len() == 1 {
            crate::math::imax(
                crate::math::ceil_div(
                    crate::math::imax(bytes@[0] as int, 1),
                    CSV_CHUNK_BYTES as int,
                ),
                blocks,
            )
        } else {
            crate::math::imax(bytes@.len() as int, blocks)
        },
    }
}

/// Bytes that one reader holds: a decoded batch of 8192 rows of 8 bytes, or a chunk of records
/// eight times over; and the slack.
pub open spec fn reader_bytes(shape: IngestShape, n_features: int) -> int {
    match shape {
        IngestShape::Parquet { .. } => sat_sum(
            sat_product(sat_product(n_features, 8192), 8),
            READER_SLACK_BYTES as int,
        ),
        IngestShape::Csv { .. } => CSV_CHUNK_BYTES * 8 + READER_SLACK_BYTES,
    }
}

/// Counts add up: those of two lots together are those of the one and of the other.
pub proof fn law_counts_add_up(a: Seq<usize>, b: Seq<usize>, one: usize)
    ensures
        total(a + b) == total(a) + total(b),
        total(seq![one]) == one,
    decreases b.len(),
{
    assert(seq![one].drop_last() =~= Seq::<usize>::empty());
    assert(total(seq![one].drop_last()) == 0);
    if b.len() == 0 {
        assert(a + b =~= a);
    } else {
        assert((a + b).drop_last() =~= a + b.drop_last());
        law_counts_add_up(a, b.drop_last(), one);
    }
}

/// There is a unit of work for every row group, for every file and for every column block, and in a
/// single CSV file for every chunk; and there are no more than the most of these.
pub proof fn law_every_piece_is_a_unit_of_work(
    shape: IngestShape,
    n_features: int,
    cols_per_block: int,
)
    requires
        0 <= n_features,
        0 <= cols_per_block,
    ensures
        ({
            let units = work_units(shape, n_features, cols_per_block);
            let blocks = super::blocking::blocks_of(n_features, cols_per_block);
            let pieces = match shape {
                IngestShape::Parquet { row_groups } => total(row_groups@),
                IngestShape::Csv { bytes } => bytes@.len() as int,
            };
            &&& units >= blocks
            &&& units >= pieces
            &&& (shape matches IngestShape::Csv { bytes } && bytes@.len() == 1) ==> units
                * CSV_CHUNK_BYTES >= shape->bytes@[0] && (units > blocks && units > 1 ==> (units - 1)
                * CSV_CHUNK_BYTES < shape->bytes@[0])
            &&& !(shape matches IngestShape::Csv { bytes } && bytes@.len() == 1) ==> units == blocks
                || units == pieces
        }),
{
    if let IngestShape::Csv { ref bytes } = shape {
        if bytes@.len() == 1 {
            let n = crate::math::imax(bytes@[0] as int, 1);
            let chunk = CSV_CHUNK_BYTES as int;
            crate::math::lemma_ceil_div(n, chunk);
            let q = crate::math::ceil_div(n, chunk);
            let units = work_units(shape, n_features, cols_per_block);
            assert(units * chunk >= q * chunk) by (nonlinear_arith)
                requires
                    units >= q,
                    chunk > 0,
            ;
        }
    }
}

proof fn lemma_total_prefix(s: Seq<usize>, k: int)
    requires
        0 <= k <= s.len(),
    ensures
        0 <= total(s.take(k)) <= total(s),
    decreases s.len(),
{
    if k == s.len() {
        assert(s.take(k) =~= s);
        if k > 0 {
            lemma_total_prefix(s.drop_last(), k - 1);
            assert(s.drop_last().take(k - 1) =~= s.drop_last());
        }
    } else {
        lemma_total_prefix(s.drop_last(), k);
        assert(s.drop_last().take(k) =~= s.take(k));
    }
}

/// What bounds the readers of an input: how many pieces there are, and what each reader holds.
pub fn ingest_work(shape: &IngestShape, n_features: usize, cols_per_block: usize) -> (r: (
    usize,
    usize,
))
    requires
        shape matches IngestShape::Parquet { row_groups } ==> total(row_groups@) <= usize::MAX,
    ensures
        r.0 == work_units(*shape, n_features as int, cols_per_block as int),
        r.1 == reader_bytes(*shape, n_features as int),
{
    let blocks: usize = div_ceil_usize(max_usize(n_features, 1), max_usize(cols_per_block, 1));
    match shape {
        IngestShape::Parquet { row_groups } => {
            let mut sum: usize = 0;
            let mut i: usize = 0;
            assert(row_groups@.take(0) =~= Seq::<usize>::empty());
            while i < row_groups.len()
                invariant
                    i <= row_groups@.len(),
                    sum == total(row_groups@.take(i as int)),
                    total(row_groups@) <= usize::MAX,
                decreases row_groups.len() - i,
            {
                proof {
                    let next = row_groups@.take(i + 1);
                    assert(next.drop_last() =~= row_groups@.take(i as int));
                    lemma_total_prefix(row_groups@, i + 1);
                }
                sum = sum + row_groups[i];
                i += 1;
            }
            assert(row_groups@.take(i as int) =~= row_groups@);
            let batch: usize = sat_mul_usize(sat_mul_usize(n_features, 8192), 8);
            (max_usize(sum, blocks), sat_add_usize(batch, READER_SLACK_BYTES))
        },
        IngestShape::Csv { bytes } => {
            let units: usize = if bytes.len() == 1 {
                div_ceil_usize(max_usize(bytes[0], 1), CSV_CHUNK_BYTES)
            } else {
                bytes.len()
            };
            (max_usize(units, blocks), CSV_CHUNK_BYTES * 8 + READER_SLACK_BYTES)
        },
    }
}

/// What bounds the workers on a model file: how many parts it has, and what each worker holds.
pub fn model_io_work(bytes: usize) -> (r: (usize, usize))
    ensures
        r.0 == crate::math::ceil_div(crate::math::imax(bytes as int, 1), MODEL_IO_CHUNK as int),
        r.1 == MODEL_IO_CHUNK,
{
    (div_ceil_usize(max_usize(bytes, 1), MODEL_IO_CHUNK), MODEL_IO_CHUNK)
}

/// The nodes on the longest way through each of the first `k` trees, added up.
pub open spec fn path_lengths(m: Model, k: int) -> int
    decreases k,
{
    if k <= 0 {
        0
    } else {
        path_lengths(m, k - 1) + longest_path(m, k - 1)
    }
}

/// The nodes on the longest way through a tree.
pub open spec fn longest_path(m: Model, t: int) -> int {
    if m.trees@[t].nodes@.len() == 0 {
        0
    } else {
        crate::tree::height(m.trees@[t].nodes@, 0, m.trees@[t].nodes@.len() as int) + 1
    }
}

/// The work on one row: the longest way through each tree, at least one.
pub open spec fn row_work(m: Model, n_trees: int) -> int {
    crate::math::imax(
        path_lengths(m, crate::math::imin(n_trees, m.trees@.len() as int)),
        1,
    )
}

/// Every way through each of the first `k` trees ends.
pub open spec fn walkable(m: Model, k: int) -> bool {
    forall|t: int|
        0 <= t < k ==> {
            let nodes = (#[trigger] m.trees@[t]).nodes@;
            nodes.len() > 0 ==> children_ok(nodes) && walks_end(nodes)
        }
}

proof fn lemma_path_lengths_grow(m: Model, k: int, n: int)
    requires
        0 <= k <= n <= m.trees@.len(),
    ensures
        0 <= path_lengths(m, k) <= path_lengths(m, n),
    decreases n,
{
    if n > 0 {
        if m.trees@[n - 1].nodes@.len() > 0 {
            lemma_height_nonnegative(m.trees@[n - 1].nodes@, 0, m.trees@[n - 1].nodes@.len() as int);
        }
        if k < n {
            lemma_path_lengths_grow(m, k, n - 1);
        } else {
            lemma_path_lengths_grow(m, k - 1, n - 1);
        }
    }
}

proof fn lemma_height_nonnegative(nodes: Seq<crate::tree::Node>, id: int, d: int)
    ensures
        crate::tree::height(nodes, id, d) >= 0,
    decreases d,
{
    if d > 0 && !nodes[id].is_leaf {
        lemma_height_nonnegative(nodes, nodes[id].left as int, d - 1);
        lemma_height_nonnegative(nodes, nodes[id].right as int, d - 1);
    }
}

/// The work on one row: the longest way through each of the first trees.
pub fn prediction_work_per_row(m: &Model, n_trees: usize) -> (r: usize)
    requires
        walkable(*m, crate::math::imin(n_trees as int, m.trees@.len() as int)),
        path_lengths(*m, crate::math::imin(n_trees as int, m.trees@.len() as int)) <= usize::MAX,
    ensures
        r == row_work(*m, n_trees as int),
{
    let n: usize = min_usize(n_trees, m.trees.len());
    let mut sum: usize = 0;
    let mut t: usize = 0;
    while t < n
        invariant
            t <= n <= m.trees@.len(),
            walkable(*m, n as int),
            path_lengths(*m, n as int) <= usize::MAX,
            sum == path_lengths(*m, t as int),
        decreases n - t,
    {
        proof {
            lemma_path_lengths_grow(*m, t + 1, n as int);
            assert(path_lengths(*m, t + 1) == sum + longest_path(*m, t as int));
        }
        if m.trees[t].nodes.len() > 0 {
            match longest_way(&m.trees[t].nodes) {
                Some(h) => {
                    sum = sum + (h + 1);
                },
                None => {},
            }
        }
        t += 1;
    }
    max_usize(sum, 1)
}

/// How many workers score rows. What was not asked for stays serial where the work is small;
/// else as many as asked for, no more than the cap and no more than rows, and at least one.
/// `effective` is the number that the request stands for.
pub fn resolved_predict_workers(
    requested: usize,
    effective: usize,
    worker_cap: usize,
    n_rows: usize,
    work_per_row: usize,
) -> (r: usize)
    ensures
        r == if requested == 0 && sat_product(n_rows as int, work_per_row as int)
            < AUTO_PREDICT_MIN_WORK {
            1
        } else {
            crate::math::imax(
                1,
                crate::math::imin(
                    crate::math::imin(effective as int, crate::math::imax(worker_cap as int, 1)),
                    crate::math::imax(n_rows as int, 1),
                ),
            )
        },
        r >= 1,
        r > 1 ==> r <= effective && r <= worker_cap && r <= n_rows,
        requested == 0 && n_rows * work_per_row < 262_144 ==> r == 1,
        requested > 0 || n_rows * work_per_row >= 262_144 ==> r >= effective || r >= worker_cap
            || r >= n_rows,
{
    let resolved: usize = min_usize(
        min_usize(effective, max_usize(worker_cap, 1)),
        max_usize(n_rows, 1),
    );
    if requested == 0 && sat_mul_usize(n_rows, work_per_row) < AUTO_PREDICT_MIN_WORK {
        1
    } else {
        max_usize(1, resolved)
    }
}

/// The workers of a file prediction.
#[derive(Clone, Copy, Debug, PartialEq, Eq, Structural)]
pub struct PipelineWorkers {
    pub ingest: usize,
    pub predict: usize,
    /// Explicit requests ask for more than there is.
    pub oversubscribed: bool,
}

/// Divides the machine between reading and scoring. Stages that were not asked for share what is
/// there; explicit requests stand as they are. `available` is what the machine offers,
/// `resolved_ingest` the readers that were settled for the request, `resolved_predict` the
/// number that an explicit request for scorers stands for, and `reserved` what is kept back for
/// other stages.
pub fn prediction_pipeline_workers_with_reserve(
    ingest_requested: usize,
    predict_requested: usize,
    resolved_ingest: usize,
    resolved_predict: usize,
    available: usize,
    reserved: usize,
) -> (r: PipelineWorkers)
    requires
        reserved == 0 && ingest_requested > 0 && predict_requested > 0 ==> resolved_ingest
            + resolved_predict <= usize::MAX,
    ensures
        r == shared(
            ingest_requested,
            predict_requested,
            resolved_ingest as int,
            resolved_predict as int,
            available as int,
            reserved as int,
        ),
{
    let all: usize = max_usize(available, 1);
    let budget: usize = max_usize(all.saturating_sub(reserved), 1);
    let (ingest, predict): (usize, usize) = if ingest_requested == 0 && predict_requested == 0 {
        if budget > 1 {
            let i: usize = min_usize(resolved_ingest, max_usize(budget / 2, 1));
            (i, max_usize(budget.saturating_sub(i), 1))
        } else {
            (1, 1)
        }
    } else if ingest_requested == 0 {
        (
            min_usize(resolved_ingest, max_usize(budget.saturating_sub(resolved_predict), 1)),
            resolved_predict,
        )
    } else if predict_requested == 0 {
        (resolved_ingest, max_usize(budget.saturating_sub(resolved_ingest), 1))
    } else {
        (resolved_ingest, resolved_predict)
    };
    let oversubscribed: bool = if reserved == 0 {
        ingest_requested > 0 && predict_requested > 0 && ingest + predict > all
    } else {
        (ingest_requested > 0 || predict_requested > 0) && sat_add_usize(
            sat_add_usize(ingest, predict),
            reserved,
        ) > all
    };
    PipelineWorkers { ingest: max_usize(ingest, 1), predict: max_usize(predict, 1), oversubscribed }
}

/// How the machine is divided.
pub open spec fn shared(
    ingest_requested: usize,
    predict_requested: usize,
    resolved_ingest: int,
    resolved_predict: int,
    available: int,
    reserved: int,
) -> PipelineWorkers {
    let all = crate::math::imax(available, 1);
    let budget = crate::math::imax(all - reserved, 1);
    let ingest = if ingest_requested > 0 {
        resolved_ingest
    } else if predict_requested > 0 {
        crate::math::imin(resolved_ingest, crate::math::imax(budget - resolved_predict, 1))
    } else if budget > 1 {
        crate::math::imin(resolved_ingest, crate::math::imax(budget / 2, 1))
    } else {
        1
    };
    let predict = if predict_requested > 0 {
        resolved_predict
    } else {
        crate::math::imax(budget - ingest, 1)
    };
    PipelineWorkers {
        ingest: crate::math::imax(ingest, 1) as usize,
        predict: crate::math::imax(predict, 1) as usize,
        oversubscribed: if reserved == 0 {
            ingest_requested > 0 && predict_requested > 0 && ingest + predict > all
        } else {
            (ingest_requested > 0 || predict_requested > 0) && sat_sum(
                sat_sum(ingest, predict),
                reserved,
            ) > all
        },
    }
}

/// Divides the machine between reading and scoring.
pub fn prediction_pipeline_workers(
    ingest_requested: usize,
    predict_requested: usize,
    resolved_ingest: usize,
    resolved_predict: usize,
    available: usize,
) -> (r: PipelineWorkers)
    requires
        ingest_requested > 0 && predict_requested > 0 ==> resolved_ingest + resolved_predict
            <= usize::MAX,
    ensures
        r == shared(
            ingest_requested,
            predict_requested,
            resolved_ingest as int,
            resolved_predict as int,
            available as int,
            0,
        ),
{
    prediction_pipeline_workers_with_reserve(
        ingest_requested,
        predict_requested,
        resolved_ingest,
        resolved_predict,
        available,
        0,
    )
}

/// Divides the machine between reading, scoring and the one writer of an output file.
pub fn prediction_output_pipeline_workers(
    ingest_requested: usize,
    predict_requested: usize,
    resolved_ingest: usize,
    resolved_predict: usize,
    available: usize,
) -> (r: PipelineWorkers)
    ensures
        r == shared(
            ingest_requested,
            predict_requested,
            resolved_ingest as int,
            resolved_predict as int,
            available as int,
            1,
        ),
{
    prediction_pipeline_workers_with_reserve(
        ingest_requested,
        predict_requested,
        resolved_ingest,
        resolved_predict,
        available,
        1,
    )
}

/// Stages that were not asked for never take more than the machine has left: where it offers at
/// least one worker for each stage, the stages together stay within it, and no warning comes.
pub proof fn law_automatic_stages_fit_the_machine(
    resolved_ingest: int,
    resolved_predict: int,
    available: int,
    reserved: int,
)
    requires
        resolved_ingest >= 1,
        reserved >= 0,
        available >= 2 + reserved,
        available <= usize::MAX,
    ensures
        ({
            let w = shared(0, 0, resolved_ingest, resolved_predict, available, reserved);
            &&& w.ingest >= 1
            &&& w.predict >= 1
            &&& w.ingest + w.predict + reserved == available
            &&& !w.oversubscribed
        }),
{
}

/// Explicit requests are never rewritten.
pub proof fn law_explicit_requests_stand(
    ingest_requested: usize,
    predict_requested: usize,
    resolved_ingest: int,
    resolved_predict: int,
    available: int,
    reserved: int,
)
    requires
        1 <= resolved_ingest <= usize::MAX,
        1 <= resolved_predict <= usize::MAX,
    ensures
        ({
            let w = shared(
                ingest_requested,
                predict_requested,
                resolved_ingest,
                resolved_predict,
                available,
                reserved,
            );
            &&& ingest_requested > 0 ==> w.ingest == resolved_ingest
            &&& predict_requested > 0 ==> w.predict == resolved_predict
        }),
{
}

/// Does a prediction go to the device? Only where it was asked to, where the walk through the
/// trees is at least as much work as moving the features, and where there is enough of it.
pub fn gpu_prediction_selected(
    use_gpu: bool,
    n_rows: usize,
    n_features: usize,
    work_per_row: usize,
) -> (r: bool)
    ensures
        r == (use_gpu && work_per_row >= n_features && sat_product(
            n_rows as int,
            work_per_row as int,
        ) >= AUTO_GPU_PREDICT_MIN_WORK),
        r ==> use_gpu && n_features <= work_per_row && n_rows * work_per_row >= 8_388_608,
        use_gpu && !r ==> n_features > work_per_row || n_rows * work_per_row < 8_388_608,
{
    use_gpu && work_per_row >= n_features && sat_mul_usize(n_rows, work_per_row)
        >= AUTO_GPU_PREDICT_MIN_WORK
}

/// The workers of a file prediction whose number of rows may be known: where the rows are known
/// to go to the device, the readers get what was settled for them and one worker feeds the
/// device.
pub fn file_prediction_workers(
    known_gpu_selection: Option<bool>,
    ingest_requested: usize,
    predict_requested: usize,
    resolved_ingest: usize,
    resolved_predict: usize,
    available: usize,
) -> (r: PipelineWorkers)
    requires
        known_gpu_selection != Some(true) && ingest_requested > 0 && predict_requested > 0
            ==> resolved_ingest + resolved_predict <= usize::MAX,
    ensures
        r == if known_gpu_selection == Some(true) {
            PipelineWorkers { ingest: resolved_ingest, predict: 1, oversubscribed: false }
        } else {
            shared(
                ingest_requested,
                predict_requested,
                resolved_ingest as int,
                resolved_predict as int,
                available as int,
                0,
            )
        },
{
    match known_gpu_selection {
        Some(true) => PipelineWorkers { ingest: resolved_ingest, predict: 1, oversubscribed: false },
        _ => prediction_pipeline_workers(
            ingest_requested,
            predict_requested,
            resolved_ingest,
            resolved_predict,
            available,
        ),
    }
}

} // verus!
