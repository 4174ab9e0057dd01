//! Scoring rows in chunks that do not depend on one another.
use vstd::prelude::*;
use vstd::slice::slice_subrange;

use super::workers::sat_mul_usize;
use crate::float32::F32;
use crate::inference::{CpuInferenceModel, InferenceError};
use crate::math::{div_ceil_usize, max_usize, min_usize};
use crate::parallel::map_indices;
use crate::types::Objective;

verus! {

/// How many rows a chunk has: four chunks for each worker, and at least one row.
pub open spec fn chunk_rows(n_rows: int, workers: int) -> int {
    crate::math::imax(
        crate::math::ceil_div(
            n_rows,
            crate::math::imax(super::workers::sat_product(workers, 4), 1),
        ),
        1,
    )
}

/// How many rows a chunk has.
pub fn rows_per_chunk(n_rows: usize, workers: usize) -> (r: usize)
    ensures
        r == chunk_rows(n_rows as int, workers as int),
{
    max_usize(div_ceil_usize(n_rows, max_usize(sat_mul_usize(workers, 4), 1)), 1)
}

/// Chunks of `rows` rows each, the last one perhaps shorter, take every row once and in order.
pub proof fn law_chunks_take_every_row_once(n_rows: int, rows: int, row: int)
    requires
        0 <= row < n_rows,
        rows >= 1,
    ensures
        ({
            let chunk = row / rows;
            &&& 0 <= chunk < crate::math::ceil_div(n_rows, rows)
            &&& chunk * rows <= row < crate::math::imin((chunk + 1) * rows, n_rows)
        }),
        forall|other: int|
            #![trigger chunk_start(other, rows)]
            chunk_start(other, rows) <= row < chunk_start(other, rows) + rows ==> other == row
                / rows,
{
    let chunk = row / rows;
    assert(chunk * rows <= row < chunk * rows + rows && chunk >= 0) by (nonlinear_arith)
        requires
            rows >= 1,
            row >= 0,
            chunk == row / rows,
    ;
    assert((chunk + 1) * rows == chunk * rows + rows) by (nonlinear_arith);
    assert(!(crate::math::ceil_div(n_rows, rows) <= chunk)) by {
        crate::math::lemma_ceil_div_least(n_rows, rows, chunk);
    }
    assert forall|other: int|
        #![trigger chunk_start(other, rows)]
        chunk_start(other, rows) <= row < chunk_start(other, rows) + rows implies other == row
        / rows by {
        assert(other == chunk) by (nonlinear_arith)
            requires
                rows >= 1,
                other * rows <= row < other * rows + rows,
                chunk * rows <= row < chunk * rows + rows,
        ;
    }
}

/// The first row of a chunk.
pub open spec fn chunk_start(chunk: int, rows: int) -> int {
    chunk * rows
}

/// Scores `len` rows from `first` on.
pub fn score_chunk<F: Fn(usize) -> F32>(first: usize, len: usize, score_row: &F) -> (out: Vec<F32>)
    requires
        first + len <= usize::MAX,
        forall|i: usize| first <= i < first + len ==> #[trigger] score_row.requires((i,)),
    ensures
        out@.len() == len,
        forall|i: int|
            0 <= i < len ==> score_row.ensures(((first + i) as usize,), #[trigger] out@[i]),
{
    let mut out: Vec<F32> = Vec::new();
    let mut i: usize = 0;
    while i < len
        invariant
            i <= len,
            first + len <= usize::MAX,
            forall|k: usize| first <= k < first + len ==> #[trigger] score_row.requires((k,)),
            out@.len() == i,
            forall|k: int|
                0 <= k < i ==> score_row.ensures(((first + k) as usize,), #[trigger] out@[k]),
        decreases len - i,
    {
        out.push(score_row(first + i));
        i += 1;
    }
    out
}

/// How many rows chunk `c` has.
pub open spec fn chunk_len(n_rows: int, rows: int, c: int) -> int {
    crate::math::imin(rows, n_rows - c * rows)
}

proof fn lemma_chunk_fits(n_rows: int, rows: int, c: int)
    requires
        n_rows >= 0,
        rows >= 1,
        0 <= c < crate::math::ceil_div(n_rows, rows),
    ensures
        0 <= c * rows < n_rows,
        1 <= chunk_len(n_rows, rows, c) <= rows,
        c * rows + chunk_len(n_rows, rows, c) == crate::math::imin((c + 1) * rows, n_rows),
{
    crate::math::lemma_ceil_div_least(n_rows, rows, c);
    assert(c * rows >= 0) by (nonlinear_arith)
        requires
            c >= 0,
            rows >= 1,
    ;
    assert((c + 1) * rows == c * rows + rows) by (nonlinear_arith);
}

/// Scores every row into its own place. The rows are cut into chunks for `workers` workers, which
/// run over the threads of the pool; what comes out does not depend on the cut.
pub fn score_rows<F: Fn(usize) -> F32 + Sync>(n_rows: usize, workers: usize, score_row: F) -> (out:
    Vec<F32>)
    requires
        forall|i: usize| i < n_rows ==> #[trigger] score_row.requires((i,)),
    ensures
        out@.len() == n_rows,
        forall|i: int| 0 <= i < n_rows ==> score_row.ensures((i as usize,), #[trigger] out@[i]),
{
    if workers <= 1 {
        return score_chunk(0, n_rows, &score_row);
    }
    let rows: usize = rows_per_chunk(n_rows, workers);
    let n_chunks: usize = div_ceil_usize(n_rows, rows);
    let score: &F = &score_row;
    let one = |c: usize| -> (part: Vec<F32>)
        requires
            c < n_chunks,
            rows >= 1,
            n_chunks == crate::math::ceil_div(n_rows as int, rows as int),
            forall|i: usize| i < n_rows ==> #[trigger] score.requires((i,)),
        ensures
            part@.len() == chunk_len(n_rows as int, rows as int, c as int),
            forall|i: int|
                0 <= i < part@.len() ==> score.ensures(
                    ((c * rows + i) as usize,),
                    #[trigger] part@[i],
                ),
        {
            proof {
                lemma_chunk_fits(n_rows as int, rows as int, c as int);
            }
            let first: usize = c * rows;
            score_chunk(first, min_usize(rows, n_rows - first), score)
        };
    let parts: Vec<Vec<F32>> = map_indices(n_chunks, one);
    let out: Vec<F32> = join_parts(&parts, n_rows, rows);
    proof {
        assert forall|i: int| 0 <= i < n_rows implies score_row.ensures(
            (i as usize,),
            #[trigger] out@[i],
        ) by {
            law_chunks_take_every_row_once(n_rows as int, rows as int, i);
            let k = i / (rows as int);
            lemma_chunk_fits(n_rows as int, rows as int, k);
            assert(k * rows + (i - k * rows) == i);
            assert(out@[k * rows + (i - k * rows)] == parts@[k]@[i - k * rows]);
            assert(one.ensures((k as usize,), parts@[k]));
        }
    }
    out
}

/// The chunks one after the other.
fn join_parts(parts: &Vec<Vec<F32>>, n_rows: usize, rows: usize) -> (out: Vec<F32>)
    requires
        rows >= 1,
        parts@.len() == crate::math::ceil_div(n_rows as int, rows as int),
        forall|k: int|
            0 <= k < parts@.len() ==> (#[trigger] parts@[k])@.len() == chunk_len(
                n_rows as int,
                rows as int,
                k,
            ),
    ensures
        out@.len() == n_rows,
        forall|k: int, i: int|
            0 <= k < parts@.len() && 0 <= i < parts@[k]@.len() ==> out@[k * rows + i] == (
            #[trigger] parts@[k]@[i]),
{
    let n_chunks: usize = parts.len();
    let mut out: Vec<F32> = Vec::new();
    let mut c: usize = 0;
    while c < n_chunks
        invariant
            c <= n_chunks,
            rows >= 1,
            n_chunks == parts@.len(),
            n_chunks == crate::math::ceil_div(n_rows as int, rows as int),
            forall|k: int|
                0 <= k < n_chunks ==> (#[trigger] parts@[k])@.len() == chunk_len(
                    n_rows as int,
                    rows as int,
                    k,
                ),
            out@.len() == crate::math::imin(c * rows, n_rows as int),
            forall|k: int, i: int|
                0 <= k < c && 0 <= i < parts@[k]@.len() ==> out@[k * rows + i] == (
                #[trigger] parts@[k]@[i]),
        decreases n_chunks - c,
    {
        proof {
            lemma_chunk_fits(n_rows as int, rows as int, c as int);
        }
        let ghost before = out@;
        let ghost added = parts@[c as int]@;
        let part: &Vec<F32> = &parts[c];
        let mut i: usize = 0;
        assert(before + added.take(0) =~= before);
        while i < part.len()
            invariant
                i <= part@.len(),
                part@ == added,
                out@ == before + added.take(i as int),
            decreases part.len() - i,
        {
            out.push(part[i]);
            assert(before + added.take(i + 1) =~= (before + added.take(i as int)).push(
                added[i as int],
            ));
            i += 1;
        }
        proof {
            assert(added.take(i as int) =~= added);
            assert forall|k: int, q: int|
                0 <= k < c + 1 && 0 <= q < parts@[k]@.len() implies out@[k * rows + q] == (
            #[trigger] parts@[k]@[q]) by {
                if k < c {
                    lemma_chunk_fits(n_rows as int, rows as int, k);
                    assert((k + 1) * rows <= c * rows) by (nonlinear_arith)
                        requires
                            k < c,
                            rows >= 1,
                    ;
                    assert(k * rows + q < before.len());
                    assert(out@[k * rows + q] == before[k * rows + q]);
                }
            }
        }
        c += 1;
    }
    proof {
        crate::math::lemma_ceil_div(n_rows as int, rows as int);
    }
    out
}

/// The margin of row `i` of a table after the first trees.
pub open spec fn table_margin<F: Fn(F32, F32) -> F32>(
    model: CpuInferenceModel,
    plus: F,
    data: Seq<F32>,
    n_features: int,
    n_trees: int,
    i: int,
) -> F32 {
    crate::inference::margin_after(
        model.trees@,
        model.base_margin,
        plus,
        crate::inference::row_of(data, n_features, i),
        crate::math::imin(n_trees, model.trees@.len() as int),
    )
}

/// Why the rows of a table are not scored. One worker takes the table as a whole and so sees its
/// length; several take their rows out of it.
pub open spec fn is_score_error(
    model: CpuInferenceModel,
    len: int,
    n_rows: usize,
    n_features: usize,
    workers: usize,
    e: InferenceError,
) -> bool {
    let size = n_rows * n_features;
    &&& n_rows > 0
    &&& if n_features != model.n_features {
        e == InferenceError::InputFeatures { got: n_features, expected: model.n_features }
    } else if workers > 1 {
        false
    } else if size > usize::MAX {
        e == InferenceError::InputOverflow
    } else {
        len != size && e == InferenceError::InputLength {
            got: len as usize,
            rows: n_rows,
            features: n_features,
            expected: size as usize,
        }
    }
}

/// The rows of a table are scored.
pub open spec fn can_score(
    model: CpuInferenceModel,
    len: int,
    n_rows: usize,
    n_features: usize,
    workers: usize,
) -> bool {
    n_rows == 0 || n_features == model.n_features && (workers > 1 || len == n_rows * n_features)
}

/// Scores the rows of a row-major table chunk by chunk. What comes out does not depend on the
/// number of workers that the chunks are cut for.
pub fn score_contiguous_rows<F: Fn(F32, F32) -> F32 + Copy + Sync + Send>(
    model: &CpuInferenceModel,
    data: &[F32],
    n_rows: usize,
    n_features: usize,
    n_trees: usize,
    workers: usize,
    plus: F,
) -> (r: Result<Vec<F32>, InferenceError>)
    requires
        model.wf(),
        crate::inference::is_addition(plus),
        workers > 1 ==> data@.len() >= n_rows * n_features,
    ensures
        match r {
            Ok(out) => can_score(*model, data@.len() as int, n_rows, n_features, workers)
                && out@.len() == n_rows && forall|i: int|
                0 <= i < n_rows ==> (#[trigger] out@[i]) == table_margin(
                    *model,
                    plus,
                    data@,
                    n_features as int,
                    n_trees as int,
                    i,
                ),
            Err(e) => is_score_error(
                *model,
                data@.len() as int,
                n_rows,
                n_features,
                workers,
                e,
            ),
        },
{
    if n_rows == 0 {
        return Ok(Vec::new());
    }
    if n_features != model.n_features {
        return Err(
            InferenceError::InputFeatures { got: n_features, expected: model.n_features },
        );
    }
    if workers <= 1 {
        match n_rows.checked_mul(n_features) {
            None => {
                return Err(InferenceError::InputOverflow);
            },
            Some(expected) => {
                if data.len() != expected {
                    return Err(
                        InferenceError::InputLength {
                            got: data.len(),
                            rows: n_rows,
                            features: n_features,
                            expected,
                        },
                    );
                }
            },
        }
    }
    let rows: usize = if workers <= 1 {
        n_rows
    } else {
        rows_per_chunk(n_rows, workers)
    };
    let n_chunks: usize = div_ceil_usize(n_rows, rows);
    let one = |c: usize| -> (part: Vec<F32>)
        requires
            c < n_chunks,
            rows >= 1,
            n_chunks == crate::math::ceil_div(n_rows as int, rows as int),
            model.wf(),
            crate::inference::is_addition(plus),
            data@.len() >= n_rows * n_features,
            n_features == model.n_features,
        ensures
            part@.len() == chunk_len(n_rows as int, rows as int, c as int),
            forall|i: int|
                0 <= i < part@.len() ==> (#[trigger] part@[i]) == table_margin(
                    *model,
                    plus,
                    data@,
                    n_features as int,
                    n_trees as int,
                    c * rows + i,
                ),
        {
            proof {
                lemma_chunk_fits(n_rows as int, rows as int, c as int);
            }
            let first: usize = c * rows;
            score_table_chunk(
                model,
                data,
                n_rows,
                n_features,
                n_trees,
                first,
                min_usize(rows, n_rows - first),
                plus,
            )
        };
    let parts: Vec<Vec<F32>> = map_indices(n_chunks, one);
    let out: Vec<F32> = join_parts(&parts, n_rows, rows);
    proof {
        assert forall|i: int| 0 <= i < n_rows implies (#[trigger] out@[i]) == table_margin(
            *model,
            plus,
            data@,
            n_features as int,
            n_trees as int,
            i,
        ) by {
            law_chunks_take_every_row_once(n_rows as int, rows as int, i);
            let k = i / (rows as int);
            lemma_chunk_fits(n_rows as int, rows as int, k);
            assert(k * rows + (i - k * rows) == i);
            assert(out@[k * rows + (i - k * rows)] == parts@[k]@[i - k * rows]);
            assert(one.ensures((k as usize,), parts@[k]));
        }
    }
    Ok(out)
}

/// The margins of `len` rows of a table from `first` on.
fn score_table_chunk<F: Fn(F32, F32) -> F32 + Copy>(
    model: &CpuInferenceModel,
    data: &[F32],
    n_rows: usize,
    n_features: usize,
    n_trees: usize,
    first: usize,
    len: usize,
    plus: F,
) -> (part: Vec<F32>)
    requires
        model.wf(),
        crate::inference::is_addition(plus),
        data@.len() >= n_rows * n_features,
        n_features == model.n_features,
        first + len <= n_rows,
    ensures
        part@.len() == len,
        forall|i: int|
            0 <= i < part@.len() ==> (#[trigger] part@[i]) == table_margin(
                *model,
                plus,
                data@,
                n_features as int,
                n_trees as int,
                first + i,
            ),
{
    let size: usize = data.len();
    proof {
        lemma_chunk_in_table(first as int, len as int, n_rows as int, n_features as int);
    }
    let value_first: usize = first * n_features;
    let value_last: usize = value_first + len * n_features;
    let chunk: &[F32] = slice_subrange(data, value_first, value_last);
    let mut part: Vec<F32> = blank(len);
    match model.predict_margins(chunk, n_features, n_trees, plus, &mut part) {
        Ok(()) => {},
        Err(_) => {
            assert(false);
        },
    }
    proof {
        assert forall|i: int| 0 <= i < len implies (#[trigger] part@[i]) == table_margin(
            *model,
            plus,
            data@,
            n_features as int,
            n_trees as int,
            first + i,
        ) by {
            lemma_chunk_row(
                data@,
                first as int,
                len as int,
                n_rows as int,
                n_features as int,
                i,
            );
        }
    }
    part
}

/// Places for `len` scores.
fn blank(len: usize) -> (out: Vec<F32>)
    ensures
        out@.len() == len,
{
    let mut out: Vec<F32> = Vec::new();
    let mut i: usize = 0;
    while i < len
        invariant
            i <= len,
            out@.len() == i,
        decreases len - i,
    {
        out.push(F32 { bits: 0 });
        i += 1;
    }
    out
}

proof fn lemma_chunk_in_table(first: int, len: int, n_rows: int, n_features: int)
    requires
        0 <= first,
        0 <= len,
        first + len <= n_rows,
        0 <= n_features,
    ensures
        0 <= first * n_features,
        0 <= len * n_features,
        first * n_features + len * n_features <= n_rows * n_features,
{
    assert(0 <= first * n_features) by (nonlinear_arith)
        requires
            0 <= first,
            0 <= n_features,
    ;
    assert(0 <= len * n_features) by (nonlinear_arith)
        requires
            0 <= len,
            0 <= n_features,
    ;
    assert(first * n_features + len * n_features <= n_rows * n_features) by (nonlinear_arith)
        requires
            first + len <= n_rows,
            0 <= n_features,
    ;
}

proof fn lemma_chunk_row(
    data: Seq<F32>,
    first: int,
    len: int,
    n_rows: int,
    n_features: int,
    k: int,
)
    requires
        0 <= first,
        0 <= k < len,
        first + len <= n_rows,
        0 <= n_features,
        data.len() >= n_rows * n_features,
    ensures
        crate::inference::row_of(
            data.subrange(first * n_features, first * n_features + len * n_features),
            n_features,
            k,
        ) == crate::inference::row_of(data, n_features, first + k),
{
    lemma_chunk_in_table(first, len, n_rows, n_features);
    let chunk = data.subrange(first * n_features, first * n_features + len * n_features);
    assert((first + k) * n_features == first * n_features + k * n_features) by (nonlinear_arith);
    assert(0 <= k * n_features && k * n_features + n_features <= len * n_features)
        by (nonlinear_arith)
        requires
            0 <= k < len,
            0 <= n_features,
    ;
    assert(crate::inference::row_of(chunk, n_features, k) =~= crate::inference::row_of(
        data,
        n_features,
        first + k,
    ));
}

/// Why a table cannot be projected.
#[derive(Clone, Copy, Debug, PartialEq, Eq, Structural)]
pub enum ProjectError {
    InputOverflow,
    InputLength { got: usize, expected: usize },
    OutputOverflow,
}

/// The asked features of each row of a row-major table, row by row.
pub fn project_canonical_rows(
    row_major: &[F32],
    n_rows: usize,
    canonical_width: usize,
    features: &[usize],
) -> (r: Result<Vec<F32>, ProjectError>)
    requires
        canonical_width > 0,
        forall|i: int| 0 <= i < features@.len() ==> (#[trigger] features@[i]) < canonical_width,
    ensures
        match r {
            Ok(out) => {
                &&& row_major@.len() == n_rows * canonical_width
                &&& out@.len() == n_rows * features@.len()
                &&& forall|i: int|
                    0 <= i < n_rows ==> #[trigger] crate::inference::row_of(
                        out@,
                        features@.len() as int,
                        i,
                    ) == crate::inference::projected(
                        crate::inference::row_of(row_major@, canonical_width as int, i),
                        features@,
                    )
            },
            Err(e) => if n_rows * canonical_width > usize::MAX {
                e == ProjectError::InputOverflow
            } else if row_major@.len() != n_rows * canonical_width {
                e == ProjectError::InputLength {
                    got: row_major@.len() as usize,
                    expected: (n_rows * canonical_width) as usize,
                }
            } else {
                n_rows * features@.len() > usize::MAX && e == ProjectError::OutputOverflow
            },
        },
{
    let len: usize = row_major.len();
    let nf: usize = features.len();
    let expected: usize = match n_rows.checked_mul(canonical_width) {
        None => {
            return Err(ProjectError::InputOverflow);
        },
        Some(e) => e,
    };
    if len != expected {
        return Err(ProjectError::InputLength { got: len, expected });
    }
    if n_rows.checked_mul(nf).is_none() {
        return Err(ProjectError::OutputOverflow);
    }
    let mut out: Vec<F32> = Vec::new();
    let mut r: usize = 0;
    while r < n_rows
        invariant
            r <= n_rows,
            nf == features@.len(),
            canonical_width > 0,
            forall|i: int|
                0 <= i < features@.len() ==> (#[trigger] features@[i]) < canonical_width,
            len == row_major@.len(),
            row_major@.len() == n_rows * canonical_width,
            n_rows * canonical_width <= usize::MAX,
            n_rows * nf <= usize::MAX,
            out@.len() == r * nf,
            forall|i: int|
                0 <= i < r ==> #[trigger] crate::inference::row_of(out@, nf as int, i)
                    == crate::inference::projected(
                    crate::inference::row_of(row_major@, canonical_width as int, i),
                    features@,
                ),
        decreases n_rows - r,
    {
        proof {
            lemma_chunk_in_table(r as int, 1, n_rows as int, canonical_width as int);
        }
        let base: usize = r * canonical_width;
        let ghost row = crate::inference::row_of(row_major@, canonical_width as int, r as int);
        let ghost before = out@;
        let mut i: usize = 0;
        while i < nf
            invariant
                i <= nf,
                nf == features@.len(),
                base == r * canonical_width,
                base + canonical_width <= len,
                len == row_major@.len(),
                row == crate::inference::row_of(row_major@, canonical_width as int, r as int),
                forall|k: int|
                    0 <= k < features@.len() ==> (#[trigger] features@[k]) < canonical_width,
                before.len() == r * nf,
                out@.len() == before.len() + i,
                out@.take(before.len() as int) == before,
                forall|k: int|
                    0 <= k < i ==> (#[trigger] out@[before.len() + k]) == row[features@[k] as int],
            decreases nf - i,
        {
            let f: usize = features[i];
            assert(features@[i as int] < canonical_width);
            assert(row[f as int] == row_major@[base + f]);
            let ghost prior = out@;
            out.push(row_major[base + f]);
            proof {
                assert(out@.take(before.len() as int) =~= prior.take(before.len() as int));
                assert forall|k: int| 0 <= k < i + 1 implies (#[trigger] out@[before.len() + k])
                    == row[features@[k] as int] by {
                    if k < i {
                        assert(out@[before.len() + k] == prior[before.len() + k]);
                    }
                }
            }
            i += 1;
        }
        proof {
            assert((r + 1) * nf == r * nf + nf) by (nonlinear_arith);
            assert forall|k: int| 0 <= k < r + 1 implies #[trigger] crate::inference::row_of(
                out@,
                nf as int,
                k,
            ) == crate::inference::projected(
                crate::inference::row_of(row_major@, canonical_width as int, k),
                features@,
            ) by {
                if k < r {
                    assert(k * nf >= 0 && k * nf + nf <= r * nf) by (nonlinear_arith)
                        requires
                            0 <= k < r,
                            0 <= nf,
                    ;
                    assert(crate::inference::row_of(out@, nf as int, k)
                        =~= crate::inference::row_of(before, nf as int, k)) by {
                        assert forall|j: int| 0 <= j < nf implies (#[trigger] out@[k * nf + j])
                            == before[k * nf + j] by {
                            assert(out@.take(before.len() as int)[k * nf + j] == before[k * nf
                                + j]);
                        }
                    }
                } else {
                    assert(k == r);
                    assert(k * nf == before.len());
                    let got = crate::inference::row_of(out@, nf as int, k);
                    let want = crate::inference::projected(row, features@);
                    assert forall|j: int| 0 <= j < nf implies got[j] == want[j] by {
                        assert(got[j] == out@[before.len() + j]);
                    }
                    assert(got =~= want);
                }
            }
        }
        r += 1;
    }
    Ok(out)
}

/// Turns margins into predictions. Only a logistic model has a link other than the identity;
/// `link` is that function in the caller's arithmetic.
pub fn transform_prediction_margins<F: Fn(F32) -> F32>(
    objective: Objective,
    values: &mut Vec<F32>,
    output_margin: bool,
    link: F,
)
    requires
        forall|v: F32| #[trigger] link.requires((v,)),
    ensures
        final(values)@.len() == old(values)@.len(),
        if !output_margin && objective == Objective::Logistic {
            forall|i: int|
                0 <= i < old(values)@.len() ==> link.ensures(
                    (old(values)@[i],),
                    #[trigger] final(values)@[i],
                )
        } else {
            final(values)@ == old(values)@
        },
{
    if output_margin {
        return ;
    }
    match objective {
        Objective::SquaredError => {},
        Objective::Logistic => {
            let n: usize = values.len();
            let ghost before = values@;
            let mut i: usize = 0;
            while i < n
                invariant
                    n == before.len(),
                    values@.len() == n,
                    i <= n,
                    forall|v: F32| #[trigger] link.requires((v,)),
                    forall|k: int|
                        0 <= k < i ==> link.ensures((before[k],), #[trigger] values@[k]),
                    forall|k: int| i <= k < n ==> (#[trigger] values@[k]) == before[k],
                decreases n - i,
            {
                let v: F32 = link(values[i]);
                values.set(i, v);
                i += 1;
            }
        },
    }
}

} // verus!
