//! A dense row-major matrix in memory as a source of column blocks.
use vstd::prelude::*;

use super::table::{BlockTable, QuantizeBuilder, SourceError};
use crate::columns::{BinCuts, BinningStrategy, ColumnBlock};
use crate::float32::F32;
use crate::parallel::map_indices;
use crate::sketch::summary::RankMath;
use crate::sketch::{FeatureSketch, SketchView};
use crate::types::{Bin, FeatId};

verus! {

/// A quantized matrix.
pub struct DenseSource {
    pub table: BlockTable,
}

/// The values of one feature of a row-major matrix.
pub open spec fn feature_values(data: Seq<F32>, n_rows: int, n_features: int, f: int) -> Seq<F32> {
    Seq::new(n_rows as nat, |r: int| data[r * n_features + f])
}

/// Every feature is quantized by the boundaries.
pub open spec fn holds(t: BlockTable, data: Seq<F32>, n_rows: int, n_features: int) -> bool {
    forall|f: int|
        0 <= f < n_features ==> #[trigger] t.column(f) == super::table::bins_of(
            t.cuts,
            f,
            feature_values(data, n_rows, n_features, f),
        )
}

/// An empty sketch.
pub open spec fn fresh(limit_bins: usize) -> SketchView {
    SketchView {
        buffer: seq![],
        levels: seq![],
        limit: crate::math::imax(limit_bins * crate::sketch::SKETCH_RATIO, 32),
        total_weight: F32 { bits: 0 },
    }
}

/// The cuts of one feature: a sketch took its values one by one with weight one, and gave the
/// cuts. No other sketch takes part, so nothing is merged, and the cuts do not depend on how
/// features are divided among threads.
pub open spec fn is_feature_cuts<
    P: Fn(F32, F32) -> F32,
    B: Fn(F32, F32, F32, usize, usize) -> bool,
    M: Fn(F32, F32) -> F32,
>(math: RankMath<P, B, M>, values: Seq<F32>, max_bins: usize, cuts: Seq<F32>) -> bool {
    exists|v: SketchView| #[trigger]
        crate::sketch::is_cuts(math, v, max_bins, cuts) && crate::sketch::took_all(
            math,
            fresh(max_bins),
            values,
            Seq::new(values.len(), |i: int| crate::sketch::one()),
            v,
        )
}

/// The cuts of every feature of a matrix.
pub open spec fn are_matrix_cuts<
    P: Fn(F32, F32) -> F32,
    B: Fn(F32, F32, F32, usize, usize) -> bool,
    M: Fn(F32, F32) -> F32,
>(
    math: RankMath<P, B, M>,
    data: Seq<F32>,
    n_rows: int,
    n_features: int,
    max_bins: usize,
    per_feat: Seq<Vec<F32>>,
) -> bool {
    &&& per_feat.len() == n_features
    &&& forall|f: int|
        0 <= f < n_features ==> is_feature_cuts(
            math,
            feature_values(data, n_rows, n_features, f),
            max_bins,
            (#[trigger] per_feat[f])@,
        )
}

/// The boundaries that the cuts of every feature make, or none where they are not valid.
pub open spec fn is_sketch_cuts<
    P: Fn(F32, F32) -> F32,
    B: Fn(F32, F32, F32, usize, usize) -> bool,
    M: Fn(F32, F32) -> F32,
>(
    math: RankMath<P, B, M>,
    data: Seq<F32>,
    n_rows: int,
    n_features: int,
    max_bins: usize,
    r: Option<BinCuts>,
) -> bool {
    exists|per_feat: Seq<Vec<F32>>| #[trigger]
        are_matrix_cuts(math, data, n_rows, n_features, max_bins, per_feat) && match r {
            None => !crate::columns::joinable(per_feat),
            Some(c) => crate::columns::joinable(per_feat) && c.wf() && c.spec_n_feats()
                == per_feat.len() && forall|f: int|
                0 <= f < per_feat.len() ==> #[trigger] c.spec_cuts(f) == per_feat[f]@,
        }
}

/// The values of one feature of a row-major matrix.
fn column_of(data: &[F32], n_rows: usize, n_features: usize, f: usize) -> (r: Vec<F32>)
    requires
        data@.len() == n_rows * n_features,
        f < n_features,
    ensures
        r@ == feature_values(data@, n_rows as int, n_features as int, f as int),
{
    let len: usize = data.len();
    let mut r: Vec<F32> = Vec::new();
    let mut i: usize = 0;
    while i < n_rows
        invariant
            i <= n_rows,
            f < n_features,
            len == data@.len(),
            len == n_rows * n_features,
            r@.len() == i,
            forall|k: int| 0 <= k < i ==> (#[trigger] r@[k]) == data@[k * n_features + f],
        decreases n_rows - i,
    {
        assert(0 <= i * n_features && i * n_features + n_features <= n_rows * n_features)
            by (nonlinear_arith)
            requires
                0 <= i < n_rows,
                0 <= n_features,
        ;
        r.push(data[i * n_features + f]);
        i += 1;
    }
    assert(r@ =~= feature_values(data@, n_rows as int, n_features as int, f as int));
    r
}

/// The cuts of one feature.
fn feature_cuts<
    P: Fn(F32, F32) -> F32,
    B: Fn(F32, F32, F32, usize, usize) -> bool,
    M: Fn(F32, F32) -> F32,
>(values: &Vec<F32>, max_bins: usize, math: &RankMath<P, B, M>) -> (cuts: Vec<F32>)
    requires
        max_bins * crate::sketch::SKETCH_RATIO <= usize::MAX,
        math.ok(),
    ensures
        is_feature_cuts(*math, values@, max_bins, cuts@),
{
    let mut sketch: FeatureSketch = FeatureSketch::new(max_bins);
    let ghost weights = Seq::new(values@.len(), |i: int| crate::sketch::one());
    let ghost mut states: Seq<SketchView> = seq![sketch.view()];
    let mut i: usize = 0;
    while i < values.len()
        invariant
            i <= values@.len(),
            math.ok(),
            sketch.wf(),
            weights == Seq::new(values@.len(), |k: int| crate::sketch::one()),
            states.len() == i + 1,
            states[0] == fresh(max_bins),
            states[i as int] == sketch.view(),
            forall|k: int|
                0 <= k < i ==> crate::sketch::is_pushed(
                    *math,
                    states[k],
                    #[trigger] values@[k],
                    weights[k],
                    states[k + 1],
                ),
        decreases values.len() - i,
    {
        sketch.push(values[i], F32 { bits: 0x3F80_0000 }, math);
        proof {
            let grown = states.push(sketch.view());
            assert forall|k: int| 0 <= k < i + 1 implies crate::sketch::is_pushed(
                *math,
                grown[k],
                #[trigger] values@[k],
                weights[k],
                grown[k + 1],
            ) by {
                if k < i {
                    assert(grown[k] == states[k] && grown[k + 1] == states[k + 1]);
                }
            }
            states = grown;
        }
        i += 1;
    }
    let ghost full = sketch.view();
    assert(crate::sketch::is_run(*math, states, values@, weights));
    let cuts: Vec<F32> = sketch.cuts(max_bins, math);
    assert(crate::sketch::is_cuts(*math, full, max_bins, cuts@));
    cuts
}

/// The boundaries that sketches of a matrix give. Features are sketched over the threads of the
/// pool.
pub fn sketch_cuts<
    P: Fn(F32, F32) -> F32 + Sync,
    B: Fn(F32, F32, F32, usize, usize) -> bool + Sync,
    M: Fn(F32, F32) -> F32 + Sync,
>(
    data: &[F32],
    n_rows: usize,
    n_features: usize,
    max_bins: usize,
    math: &RankMath<P, B, M>,
) -> (r: Option<BinCuts>)
    requires
        data@.len() == n_rows * n_features,
        max_bins * crate::sketch::SKETCH_RATIO <= usize::MAX,
        math.ok(),
    ensures
        is_sketch_cuts(*math, data@, n_rows as int, n_features as int, max_bins, r),
        r matches Some(c) ==> c.wf() && c.spec_n_feats() == n_features,
{
    let one = |f: usize| -> (cuts: Vec<F32>)
        requires
            f < n_features,
            data@.len() == n_rows * n_features,
            max_bins * crate::sketch::SKETCH_RATIO <= usize::MAX,
            math.ok(),
        ensures
            is_feature_cuts(
                *math,
                feature_values(data@, n_rows as int, n_features as int, f as int),
                max_bins,
                cuts@,
            ),
        {
            let values: Vec<F32> = column_of(data, n_rows, n_features, f);
            feature_cuts(&values, max_bins, math)
        };
    let per_feat: Vec<Vec<F32>> = map_indices(n_features, one);
    proof {
        assert forall|f: int| 0 <= f < n_features implies is_feature_cuts(
            *math,
            feature_values(data@, n_rows as int, n_features as int, f),
            max_bins,
            (#[trigger] per_feat@[f])@,
        ) by {
            assert(one.ensures((f as usize,), per_feat@[f]));
        }
        assert(are_matrix_cuts(
            *math,
            data@,
            n_rows as int,
            n_features as int,
            max_bins,
            per_feat@,
        ));
    }
    crate::columns::join_cuts(&per_feat)
}

impl DenseSource {
    /// Quantizes a row-major matrix: `data[row * n_features + feat]`.
    ///
    /// The boundaries come from a sketch of the data or from outside. `None`: the sketch gave cuts
    /// that are not finite or do not rise.
    pub fn new<
        P: Fn(F32, F32) -> F32 + Sync,
        B: Fn(F32, F32, F32, usize, usize) -> bool + Sync,
        M: Fn(F32, F32) -> F32 + Sync,
    >(
        data: &[F32],
        n_rows: usize,
        n_features: usize,
        binning: BinningStrategy,
        cols_per_block: usize,
        math: &RankMath<P, B, M>,
    ) -> (r: Option<Self>)
        requires
            data@.len() == n_rows * n_features,
            n_features <= u32::MAX,
            cols_per_block > 0,
            math.ok(),
            binning matches BinningStrategy::Sketch { max_bins } ==> max_bins
                <= crate::types::MAX_BIN_LIMIT,
            binning matches BinningStrategy::Provided(c) ==> c.wf() && c.spec_n_feats()
                == n_features,
        ensures
            r matches Some(s) ==> s.table.wf() && s.table.n_rows == n_rows && s.table.n_features
                == n_features && s.table.cols_per_block == cols_per_block && holds(
                s.table,
                data@,
                n_rows as int,
                n_features as int,
            ),
            match binning {
                BinningStrategy::Provided(c) => r matches Some(s) && same_cuts(s.table.cuts, *c),
                BinningStrategy::Sketch { max_bins } => is_sketch_cuts(
                    *math,
                    data@,
                    n_rows as int,
                    n_features as int,
                    max_bins,
                    match r {
                        None => None,
                        Some(s) => Some(s.table.cuts),
                    },
                ),
            },
    {
        match binning {
            BinningStrategy::Provided(c) => {
                let cuts: BinCuts = copy_cuts(c);
                Some(Self::quantize_row_major(data, n_rows, n_features, cuts, cols_per_block))
            },
            BinningStrategy::Sketch { max_bins } => {
                match sketch_cuts(data, n_rows, n_features, max_bins, math) {
                    None => None,
                    Some(cuts) => Some(
                        Self::quantize_row_major(data, n_rows, n_features, cuts, cols_per_block),
                    ),
                }
            },
        }
    }

    /// Quantizes a row-major matrix with boundaries from a sketch of the data.
    pub fn from_row_major<
        P: Fn(F32, F32) -> F32 + Sync,
        B: Fn(F32, F32, F32, usize, usize) -> bool + Sync,
        M: Fn(F32, F32) -> F32 + Sync,
    >(
        data: &[F32],
        n_rows: usize,
        n_features: usize,
        max_bins: u32,
        cols_per_block: usize,
        math: &RankMath<P, B, M>,
    ) -> (r: Option<Self>)
        requires
            data@.len() == n_rows * n_features,
            n_features <= u32::MAX,
            cols_per_block > 0,
            math.ok(),
            max_bins <= crate::types::MAX_BIN_LIMIT,
        ensures
            r matches Some(s) ==> s.table.wf() && s.table.n_rows == n_rows && s.table.n_features
                == n_features && s.table.cols_per_block == cols_per_block && holds(
                s.table,
                data@,
                n_rows as int,
                n_features as int,
            ),
            is_sketch_cuts(
                *math,
                data@,
                n_rows as int,
                n_features as int,
                max_bins as usize,
                match r {
                    None => None,
                    Some(s) => Some(s.table.cuts),
                },
            ),
    {
        Self::new(
            data,
            n_rows,
            n_features,
            BinningStrategy::Sketch { max_bins: max_bins as usize },
            cols_per_block,
            math,
        )
    }

    /// Quantizes a row-major matrix with given boundaries. Data that a model is evaluated on has
    /// to be quantized with the boundaries of its training data.
    pub fn with_cuts(
        data: &[F32],
        n_rows: usize,
        n_features: usize,
        cuts: BinCuts,
        cols_per_block: usize,
    ) -> (s: Self)
        requires
            data@.len() == n_rows * n_features,
            cuts.wf(),
            cuts.spec_n_feats() == n_features,
            cols_per_block > 0,
        ensures
            s.table.wf(),
            s.table.cuts == cuts,
            s.table.n_rows == n_rows,
            s.table.n_features == n_features,
            s.table.cols_per_block == cols_per_block,
            holds(s.table, data@, n_rows as int, n_features as int),
    {
        Self::quantize_row_major(data, n_rows, n_features, cuts, cols_per_block)
    }

    fn quantize_row_major(
        data: &[F32],
        n_rows: usize,
        n_features: usize,
        cuts: BinCuts,
        cols_per_block: usize,
    ) -> (s: Self)
        requires
            data@.len() == n_rows * n_features,
            cuts.wf(),
            cuts.spec_n_feats() == n_features,
            cols_per_block > 0,
        ensures
            s.table.wf(),
            s.table.cuts == cuts,
            s.table.n_rows == n_rows,
            s.table.n_features == n_features,
            s.table.cols_per_block == cols_per_block,
            holds(s.table, data@, n_rows as int, n_features as int),
    {
        let mut columns: Vec<Vec<F32>> = Vec::new();
        let mut f: usize = 0;
        while f < n_features
            invariant
                f <= n_features,
                data@.len() == n_rows * n_features,
                columns@.len() == f,
                forall|k: int|
                    0 <= k < f ==> (#[trigger] columns@[k])@ == feature_values(
                        data@,
                        n_rows as int,
                        n_features as int,
                        k,
                    ),
            decreases n_features - f,
        {
            columns.push(column_of(data, n_rows, n_features, f));
            f += 1;
        }
        let mut builder: QuantizeBuilder = QuantizeBuilder::new(cuts);
        let ghost start = builder;
        proof {
            assert forall|k: int| 0 <= k < columns@.len() implies (#[trigger] columns@[k])@.len()
                == n_rows by {
                assert(columns@[k]@ == feature_values(
                    data@,
                    n_rows as int,
                    n_features as int,
                    k,
                ));
            }
        }
        match builder.add_batch(columns.as_slice(), n_rows) {
            Ok(()) => {},
            Err(_) => {
                assert(false);
            },
        }
        let ghost filled = builder;
        let table: BlockTable = builder.finish(cols_per_block);
        proof {
            assert forall|k: int| 0 <= k < n_features implies #[trigger] table.column(k)
                == super::table::bins_of(
                table.cuts,
                k,
                feature_values(data@, n_rows as int, n_features as int, k),
            ) by {
                assert(table.column(k) == filled.columns@[k]@);
                assert(start.columns@[k]@ == Seq::<Bin>::empty());
                assert(filled.columns@[k]@ =~= super::table::bins_of(
                    table.cuts,
                    k,
                    columns@[k]@,
                ));
            }
        }
        DenseSource { table }
    }

    /// The boundaries, for another source.
    pub fn into_cuts(self) -> (c: BinCuts)
        ensures
            c == self.table.cuts,
    {
        self.table.cuts
    }

    /// The boundaries.
    pub fn cuts(&self) -> (c: &BinCuts)
        ensures
            *c == self.table.cuts,
    {
        &self.table.cuts
    }

    /// The blocks.
    pub fn blocks(&self) -> (b: &[ColumnBlock])
        ensures
            b@ == self.table.blocks@,
    {
        self.table.blocks.as_slice()
    }

    /// The bin of one feature in one row.
    pub fn bin_at(&self, row: usize, feat: FeatId) -> (r: Bin)
        requires
            self.table.wf(),
            row < self.table.n_rows,
            feat < self.table.n_features,
        ensures
            r == self.table.column(feat as int)[row as int],
    {
        self.table.bin_at(row, feat)
    }

    /// How many blocks there are.
    pub fn n_blocks(&self) -> (r: usize)
        ensures
            r == self.table.blocks@.len(),
    {
        self.table.n_blocks()
    }

    /// How many rows there are.
    pub fn n_rows(&self) -> (r: usize)
        ensures
            r == self.table.n_rows,
    {
        self.table.n_rows
    }

    /// How many features there are.
    pub fn n_features(&self) -> (r: usize)
        ensures
            r == self.table.n_features,
    {
        self.table.n_features
    }

    /// A block, without copying it.
    pub fn with_block(&self, i: usize) -> (r: Result<&ColumnBlock, SourceError>)
        ensures
            match r {
                Ok(b) => i < self.table.blocks@.len() && *b == self.table.blocks@[i as int],
                Err(e) => i >= self.table.blocks@.len() && e == SourceError::NoBlock {
                    block: i,
                    blocks: self.table.blocks@.len() as usize,
                },
            },
    {
        self.table.block(i)
    }

    /// The bins of one feature.
    pub fn feature_column(&self, feat: FeatId) -> (r: Result<Vec<Bin>, SourceError>)
        requires
            self.table.wf(),
        ensures
            match r {
                Ok(c) => feat < self.table.n_features && c@ == self.table.column(feat as int),
                Err(e) => feat >= self.table.n_features && e == SourceError::NoFeature {
                    feat,
                    features: self.table.n_features,
                },
            },
    {
        self.table.feature_column(feat)
    }
}

/// The same boundaries.
pub open spec fn same_cuts(a: BinCuts, b: BinCuts) -> bool {
    &&& a.values@ == b.values@
    &&& a.offsets@ == b.offsets@
    &&& a.hist_offsets@ == b.hist_offsets@
}

/// A copy of boundaries.
pub fn copy_cuts(c: &BinCuts) -> (r: BinCuts)
    requires
        c.wf(),
    ensures
        r.wf(),
        same_cuts(r, *c),
{
    let mut values: Vec<F32> = Vec::new();
    let mut i: usize = 0;
    while i < c.values.len()
        invariant
            i <= c.values@.len(),
            values@ == c.values@.take(i as int),
        decreases c.values.len() - i,
    {
        values.push(c.values[i]);
        assert(c.values@.take(i + 1) =~= c.values@.take(i as int).push(c.values@[i as int]));
        i += 1;
    }
    assert(c.values@.take(i as int) =~= c.values@);
    let mut offsets: Vec<u32> = Vec::new();
    let mut k: usize = 0;
    while k < c.offsets.len()
        invariant
            k <= c.offsets@.len(),
            offsets@ == c.offsets@.take(k as int),
        decreases c.offsets.len() - k,
    {
        offsets.push(c.offsets[k]);
        assert(c.offsets@.take(k + 1) =~= c.offsets@.take(k as int).push(c.offsets@[k as int]));
        k += 1;
    }
    assert(c.offsets@.take(k as int) =~= c.offsets@);
    let r: BinCuts = BinCuts::new(values, offsets);
    assert(r.hist_offsets@ =~= c.hist_offsets@);
    r
}

/// Two matrices quantized with the same boundaries agree: equal values of a feature have equal
/// bins, wherever they stand.
pub proof fn law_equal_values_have_equal_bins(
    a: BlockTable,
    a_data: Seq<F32>,
    a_rows: int,
    b: BlockTable,
    b_data: Seq<F32>,
    b_rows: int,
    n_features: int,
    f: int,
    i: int,
    j: int,
)
    requires
        holds(a, a_data, a_rows, n_features),
        holds(b, b_data, b_rows, n_features),
        a.cuts.spec_cuts(f) == b.cuts.spec_cuts(f),
        0 <= f < n_features,
        0 <= i < a_rows,
        0 <= j < b_rows,
        a_data[i * n_features + f] == b_data[j * n_features + f],
    ensures
        a.column(f)[i] == b.column(f)[j],
{
    assert(a.column(f) == super::table::bins_of(
        a.cuts,
        f,
        feature_values(a_data, a_rows, n_features, f),
    ));
    assert(b.column(f) == super::table::bins_of(
        b.cuts,
        f,
        feature_values(b_data, b_rows, n_features, f),
    ));
}

/// Every cell of a quantized matrix says where its value lies among the cuts of its feature; only
/// what is not a number is missing.
pub proof fn law_cells_of_a_matrix_tell_their_values(
    t: BlockTable,
    data: Seq<F32>,
    n_rows: int,
    n_features: int,
    f: int,
    row: int,
)
    requires
        t.cuts.wf(),
        t.cuts.spec_n_feats() == n_features,
        holds(t, data, n_rows, n_features),
        0 <= f < n_features,
        0 <= row < n_rows,
        t.cuts.spec_cuts(f).len() < 255,
    ensures
        super::table::tells(
            t.cuts.spec_cuts(f),
            data[row * n_features + f],
            t.column(f)[row],
        ),
{
    let v = data[row * n_features + f];
    assert(t.column(f) == super::table::bins_of(
        t.cuts,
        f,
        feature_values(data, n_rows, n_features, f),
    ));
    super::table::law_bins_tell_where_values_lie(t.cuts, f, v);
}

} // verus!
