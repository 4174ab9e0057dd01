//! Column blocks from batches of columns.
//!
//! The data is read twice: once to settle the boundaries, once to quantize. Both passes take one
//! batch at a time, so no pass holds the whole data.
use vstd::prelude::*;

use super::table::{BlockTable, QuantizeBuilder, SourceError};
use crate::columns::{BinCuts, ColumnBlock};
use crate::float32::F32;
use crate::sketch::summary::RankMath;
use crate::parallel::map_items;
use crate::sketch::{FeatureSketch, SketchSet, SketchView};
use crate::types::{Bin, FeatId};

verus! {

/// A batch of rows, column by column. A missing value is NaN.
pub struct Batch {
    pub columns: Vec<Vec<F32>>,
    pub n_rows: usize,
}

impl Batch {
    /// Every column has a value for each row.
    pub open spec fn wf(&self) -> bool {
        forall|f: int|
            0 <= f < self.columns@.len() ==> (#[trigger] self.columns@[f])@.len() == self.n_rows
    }
}

/// Why no boundaries come out.
#[derive(Clone, Copy, Debug, PartialEq, Eq, Structural)]
pub enum CutsFailure {
    /// There was no batch.
    NoBatch,
    /// Batches have different numbers of columns.
    ColumnCount { got: usize, expected: usize },
    /// The cuts are not finite or do not rise.
    Invalid,
}

/// Boundaries in the making.
pub struct CutsBuilder {
    pub max_bins: usize,
    pub set: Option<SketchSet>,
}

impl CutsBuilder {
    /// The sketches, once there are any, are for this number of bins.
    pub open spec fn wf(&self) -> bool {
        &&& self.max_bins <= crate::types::MAX_BIN_LIMIT
        &&& self.set matches Some(s) ==> s.wf() && s.max_bins == self.max_bins
    }

    /// The sketch of a feature so far: an empty one before the first batch.
    pub open spec fn sketch_of(&self, f: int) -> SketchView {
        match self.set {
            None => super::dense::fresh(self.max_bins),
            Some(s) => s.per_feat@[f].view(),
        }
    }

    /// No batch yet.
    pub fn new(max_bins: usize) -> (r: Self)
        requires
            max_bins <= crate::types::MAX_BIN_LIMIT,
        ensures
            r.wf(),
            r.max_bins == max_bins,
            r.set is None,
    {
        CutsBuilder { max_bins, set: None }
    }

    /// Takes a batch. The first one settles how many columns there are. Each feature goes into a
    /// sketch of its own, batch after batch.
    pub fn add_batch<
        P: Fn(F32, F32) -> F32 + Sync,
        B: Fn(F32, F32, F32, usize, usize) -> bool + Sync,
        M: Fn(F32, F32) -> F32 + Sync,
    >(&mut self, batch: &Batch, math: &RankMath<P, B, M>) -> (r: Result<(), CutsFailure>)
        requires
            old(self).wf(),
            batch.wf(),
            batch.columns@.len() <= u32::MAX,
            math.ok(),
        ensures
            final(self).wf(),
            final(self).max_bins == old(self).max_bins,
            match r {
                Ok(()) => {
                    &&& old(self).set matches Some(s) ==> s.per_feat@.len() == batch.columns@.len()
                    &&& final(self).set matches Some(s) && s.per_feat@.len()
                        == batch.columns@.len()
                    &&& forall|f: int|
                        0 <= f < batch.columns@.len() ==> crate::sketch::took_all(
                            *math,
                            old(self).sketch_of(f),
                            (#[trigger] batch.columns@[f])@,
                            Seq::new(batch.n_rows as nat, |i: int| crate::sketch::one()),
                            final(self).sketch_of(f),
                        )
                },
                Err(e) => {
                    &&& old(self).set matches Some(s) && s.per_feat@.len()
                        != batch.columns@.len() && e == CutsFailure::ColumnCount {
                        got: batch.columns@.len() as usize,
                        expected: s.per_feat@.len() as usize,
                    }
                    &&& *final(self) == *old(self)
                },
            },
    {
        let n: usize = batch.columns.len();
        let ghost before = *self;
        let mut slot: Option<SketchSet> = None;
        match &self.set {
            None => {},
            Some(s) => {
                let expected: usize = s.n_feats();
                if expected != n {
                    return Err(CutsFailure::ColumnCount { got: n, expected });
                }
            },
        }
        std::mem::swap(&mut self.set, &mut slot);
        let set: SketchSet = match slot {
            Some(s) => s,
            None => SketchSet::new(n, self.max_bins),
        };
        let SketchSet { per_feat, max_bins } = set;
        let ghost sketches = per_feat@;
        let one = |f: usize, s: FeatureSketch| -> (r: FeatureSketch)
            requires
                f < batch.columns@.len(),
                s.wf(),
                math.ok(),
            ensures
                r.wf(),
                crate::sketch::took_all(
                    *math,
                    s.view(),
                    batch.columns@[f as int]@,
                    Seq::new(batch.columns@[f as int]@.len(), |i: int| crate::sketch::one()),
                    r.view(),
                ),
            {
                let mut s: FeatureSketch = s;
                s.push_all(batch.columns[f].as_slice(), None, math);
                s
            };
        let per_feat: Vec<FeatureSketch> = map_items(per_feat, one);
        proof {
            assert forall|k: int| 0 <= k < n implies (#[trigger] per_feat@[k]).wf()
                && crate::sketch::took_all(
                *math,
                before.sketch_of(k),
                batch.columns@[k]@,
                Seq::new(batch.n_rows as nat, |i: int| crate::sketch::one()),
                per_feat@[k].view(),
            ) by {
                assert(one.ensures((k as usize, sketches[k]), per_feat@[k]));
                assert(sketches[k].view() == before.sketch_of(k));
                assert(batch.columns@[k]@.len() == batch.n_rows);
            }
        }
        let set: SketchSet = SketchSet { per_feat, max_bins };
        self.set = Some(set);
        proof {
            assert forall|k: int| 0 <= k < batch.columns@.len() implies crate::sketch::took_all(
                *math,
                before.sketch_of(k),
                (#[trigger] batch.columns@[k])@,
                Seq::new(batch.n_rows as nat, |i: int| crate::sketch::one()),
                self.sketch_of(k),
            ) by {
                assert(set.per_feat@[k].view() == self.sketch_of(k));
            }
        }
        Ok(())
    }

    /// The boundaries.
    pub fn finish<
        P: Fn(F32, F32) -> F32 + Sync,
        B: Fn(F32, F32, F32, usize, usize) -> bool + Sync,
        M: Fn(F32, F32) -> F32 + Sync,
    >(self, math: &RankMath<P, B, M>) -> (r: Result<BinCuts, CutsFailure>)
        requires
            self.wf(),
            math.ok(),
        ensures
            match self.set {
                None => r == Err::<BinCuts, CutsFailure>(CutsFailure::NoBatch),
                Some(set) => exists|per_feat: Seq<Vec<F32>>| #[trigger]
                    crate::sketch::are_cuts(*math, set, per_feat) && match r {
                        Err(e) => e == CutsFailure::Invalid && !crate::columns::joinable(per_feat),
                        Ok(c) => crate::columns::joinable(per_feat) && c.wf() && c.spec_n_feats()
                            == per_feat.len() && forall|f: int|
                            0 <= f < per_feat.len() ==> #[trigger] c.spec_cuts(f)
                                == per_feat[f]@,
                    },
            },
    {
        match self.set {
            None => Err(CutsFailure::NoBatch),
            Some(set) => match set.finalize(math) {
                None => Err(CutsFailure::Invalid),
                Some(c) => Ok(c),
            },
        }
    }
}

/// The values of a feature in the first `k` batches, one after the other.
pub open spec fn rows_of(batches: Seq<Batch>, f: int, k: int) -> Seq<F32>
    decreases k,
{
    if k <= 0 {
        seq![]
    } else {
        rows_of(batches, f, k - 1) + batches[k - 1].columns@[f]@
    }
}

/// The rows of the first `k` batches.
pub open spec fn count_rows(batches: Seq<Batch>, k: int) -> int
    decreases k,
{
    if k <= 0 {
        0
    } else {
        count_rows(batches, k - 1) + batches[k - 1].n_rows
    }
}

/// The first batch that does not have `n` columns.
pub open spec fn first_odd(batches: Seq<Batch>, n: int, k: int) -> bool {
    &&& 0 <= k < batches.len()
    &&& batches[k].columns@.len() != n
    &&& forall|j: int| 0 <= j < k ==> (#[trigger] batches[j]).columns@.len() == n
}

pub(crate) proof fn lemma_rows_grow(batches: Seq<Batch>, k: int, n: int)
    requires
        0 <= k <= n,
    ensures
        0 <= count_rows(batches, k) <= count_rows(batches, n),
    decreases n,
{
    if n > 0 {
        if k < n {
            lemma_rows_grow(batches, k, n - 1);
        } else {
            lemma_rows_grow(batches, k - 1, n - 1);
        }
    }
}

/// The sketches between batches: feature `f` is in state `trace[i][f]` after `i` batches.
pub open spec fn is_trace<
    P: Fn(F32, F32) -> F32 + Sync,
    B: Fn(F32, F32, F32, usize, usize) -> bool + Sync,
    M: Fn(F32, F32) -> F32 + Sync,
>(
    math: RankMath<P, B, M>,
    trace: Seq<Seq<SketchView>>,
    batches: Seq<Batch>,
    max_bins: usize,
    n_features: int,
) -> bool {
    &&& trace.len() > 0
    &&& forall|f: int| 0 <= f < n_features ==> (#[trigger] trace[0][f]) == super::dense::fresh(max_bins)
    &&& forall|i: int, f: int|
        0 <= i < trace.len() - 1 && 0 <= f < n_features ==> crate::sketch::took_all(
            math,
            #[trigger] trace[i][f],
            batches[i].columns@[f]@,
            Seq::new(batches[i].n_rows as nat, |r: int| crate::sketch::one()),
            trace[i + 1][f],
        )
}

/// The sketches that took all batches in order.
pub open spec fn sketched<
    P: Fn(F32, F32) -> F32 + Sync,
    B: Fn(F32, F32, F32, usize, usize) -> bool + Sync,
    M: Fn(F32, F32) -> F32 + Sync,
>(
    math: RankMath<P, B, M>,
    batches: Seq<Batch>,
    max_bins: usize,
    set: SketchSet,
) -> bool {
    &&& set.max_bins == max_bins
    &&& set.per_feat@.len() == batches[0].columns@.len()
    &&& exists|trace: Seq<Seq<SketchView>>| #[trigger]
        is_trace(math, trace, batches, max_bins, set.per_feat@.len() as int) && trace.len()
            == batches.len() + 1 && forall|f: int|
            0 <= f < set.per_feat@.len() ==> trace[batches.len() as int][f] == (
            #[trigger] set.per_feat@[f]).view()
}

/// The boundaries that sketches of batches give.
pub fn build_cuts<
    P: Fn(F32, F32) -> F32 + Sync,
    B: Fn(F32, F32, F32, usize, usize) -> bool + Sync,
    M: Fn(F32, F32) -> F32 + Sync,
>(batches: &[Batch], max_bins: usize, math: &RankMath<P, B, M>) -> (r: Result<BinCuts, CutsFailure>)
    requires
        max_bins <= crate::types::MAX_BIN_LIMIT,
        forall|k: int|
            0 <= k < batches@.len() ==> (#[trigger] batches@[k]).wf()
                && batches@[k].columns@.len() <= u32::MAX,
        math.ok(),
    ensures
        batches@.len() == 0 ==> r == Err::<BinCuts, CutsFailure>(CutsFailure::NoBatch),
        batches@.len() > 0 ==> match r {
            Err(CutsFailure::NoBatch) => false,
            Err(CutsFailure::ColumnCount { got, expected }) => expected
                == batches@[0].columns@.len() && exists|k: int| #[trigger]
                first_odd(batches@, batches@[0].columns@.len() as int, k) && got
                    == batches@[k].columns@.len(),
            Err(CutsFailure::Invalid) => exists|set: SketchSet, per_feat: Seq<Vec<F32>>|
                sketched(*math, batches@, max_bins, set) && #[trigger] crate::sketch::are_cuts(
                    *math,
                    set,
                    per_feat,
                ) && !crate::columns::joinable(per_feat),
            Ok(c) => exists|set: SketchSet, per_feat: Seq<Vec<F32>>|
                sketched(*math, batches@, max_bins, set) && #[trigger] crate::sketch::are_cuts(
                    *math,
                    set,
                    per_feat,
                ) && c.wf() && c.spec_n_feats() == per_feat.len() && forall|f: int|
                    0 <= f < per_feat.len() ==> #[trigger] c.spec_cuts(f) == per_feat[f]@,
        },
        r matches Ok(c) ==> c.wf() && c.spec_n_feats() == batches@[0].columns@.len(),
{
    let mut builder: CutsBuilder = CutsBuilder::new(max_bins);
    let ghost n_features = batches@[0].columns@.len() as int;
    let ghost mut trace: Seq<Seq<SketchView>> = seq![
        Seq::new(n_features as nat, |f: int| super::dense::fresh(max_bins)),
    ];
    let mut k: usize = 0;
    while k < batches.len()
        invariant
            k <= batches@.len(),
            builder.wf(),
            builder.max_bins == max_bins,
            math.ok(),
            forall|j: int|
                0 <= j < batches@.len() ==> (#[trigger] batches@[j]).wf()
                    && batches@[j].columns@.len() <= u32::MAX,
            n_features == batches@[0].columns@.len(),
            builder.set is Some <==> k > 0,
            builder.set matches Some(s) ==> s.per_feat@.len() == n_features,
            forall|j: int| 0 <= j < k ==> (#[trigger] batches@[j]).columns@.len() == n_features,
            trace.len() == k + 1,
            is_trace(*math, trace, batches@, max_bins, n_features),
            forall|f: int|
                0 <= f < n_features ==> (#[trigger] trace[k as int][f]) == builder.sketch_of(f),
        decreases batches.len() - k,
    {
        let ghost before = builder;
        match builder.add_batch(&batches[k], math) {
            Err(e) => {
                assert(first_odd(batches@, n_features, k as int));
                return Err(e);
            },
            Ok(()) => {},
        }
        proof {
            let now = Seq::new(n_features as nat, |f: int| builder.sketch_of(f));
            let grown = trace.push(now);
            assert forall|i: int, f: int|
                0 <= i < grown.len() - 1 && 0 <= f < n_features implies crate::sketch::took_all(
                *math,
                #[trigger] grown[i][f],
                batches@[i].columns@[f]@,
                Seq::new(batches@[i].n_rows as nat, |r: int| crate::sketch::one()),
                grown[i + 1][f],
            ) by {
                assert(grown[i] == trace[i]);
                if i < k {
                    assert(grown[i + 1] == trace[i + 1]);
                    assert(crate::sketch::took_all(
                        *math,
                        trace[i][f],
                        batches@[i].columns@[f]@,
                        Seq::new(batches@[i].n_rows as nat, |r: int| crate::sketch::one()),
                        trace[i + 1][f],
                    ));
                } else {
                    assert(trace[k as int][f] == before.sketch_of(f));
                    assert(batches@[k as int].columns@[f]@.len() == batches@[k as int].n_rows);
                }
            }
            assert forall|f: int| 0 <= f < n_features implies (#[trigger] grown[0][f])
                == super::dense::fresh(max_bins) by {
                assert(grown[0][f] == trace[0][f]);
            }
            trace = grown;
        }
        k += 1;
    }
    let ghost full = builder;
    proof {
        if batches@.len() > 0 {
            let set = full.set->0;
            assert forall|f: int| 0 <= f < set.per_feat@.len() implies trace[batches@.len() as int][f]
                == (#[trigger] set.per_feat@[f]).view() by {
                assert(trace[k as int][f] == full.sketch_of(f));
            }
            assert(sketched(*math, batches@, max_bins, set));
        }
    }
    builder.finish(math)
}

/// A quantized table from batches.
pub struct ArrowSource {
    pub table: BlockTable,
}

/// Every feature is quantized by the boundaries, batch after batch.
pub open spec fn holds_batches(t: BlockTable, batches: Seq<Batch>) -> bool {
    &&& t.n_rows == count_rows(batches, batches.len() as int)
    &&& forall|f: int|
        0 <= f < t.n_features ==> #[trigger] t.column(f) == super::table::bins_of(
            t.cuts,
            f,
            rows_of(batches, f, batches.len() as int),
        )
}

/// Quantizes batches one after the other.
pub fn quantize(batches: &[Batch], cuts: BinCuts, cols_per_block: usize) -> (r: Result<
    BlockTable,
    SourceError,
>)
    requires
        cuts.wf(),
        cols_per_block > 0,
        forall|k: int| 0 <= k < batches@.len() ==> (#[trigger] batches@[k]).wf(),
        count_rows(batches@, batches@.len() as int) <= usize::MAX,
    ensures
        match r {
            Ok(t) => {
                &&& t.wf()
                &&& t.cuts == cuts
                &&& t.cols_per_block == cols_per_block
                &&& forall|k: int|
                    0 <= k < batches@.len() ==> (#[trigger] batches@[k]).columns@.len()
                        == cuts.spec_n_feats()
                &&& holds_batches(t, batches@)
            },
            Err(e) => exists|k: int| #[trigger]
                first_odd(batches@, cuts.spec_n_feats(), k) && e == SourceError::ColumnCount {
                    got: batches@[k].columns@.len() as usize,
                    expected: cuts.spec_n_feats() as usize,
                },
        },
{
    let ghost n_feats = cuts.spec_n_feats();
    let mut builder: QuantizeBuilder = QuantizeBuilder::new(cuts);
    let mut k: usize = 0;
    while k < batches.len()
        invariant
            k <= batches@.len(),
            builder.wf(),
            builder.cuts == cuts,
            n_feats == cuts.spec_n_feats(),
            forall|j: int| 0 <= j < batches@.len() ==> (#[trigger] batches@[j]).wf(),
            count_rows(batches@, batches@.len() as int) <= usize::MAX,
            builder.n_rows == count_rows(batches@, k as int),
            forall|j: int| 0 <= j < k ==> (#[trigger] batches@[j]).columns@.len() == n_feats,
            forall|f: int|
                0 <= f < n_feats ==> (#[trigger] builder.columns@[f])@ == super::table::bins_of(
                    cuts,
                    f,
                    rows_of(batches@, f, k as int),
                ),
        decreases batches.len() - k,
    {
        let batch: &Batch = &batches[k];
        proof {
            lemma_rows_grow(batches@, k + 1, batches@.len() as int);
            assert(batches@[k as int].wf());
        }
        let ghost before = builder;
        match builder.add_batch(batch.columns.as_slice(), batch.n_rows) {
            Err(e) => {
                assert(first_odd(batches@, n_feats, k as int));
                return Err(e);
            },
            Ok(()) => {},
        }
        proof {
            assert forall|f: int| 0 <= f < n_feats implies (#[trigger] builder.columns@[f])@
                == super::table::bins_of(cuts, f, rows_of(batches@, f, k + 1)) by {
                assert(builder.columns@[f]@ == before.columns@[f]@ + super::table::bins_of(
                    cuts,
                    f,
                    batch.columns@[f]@,
                ));
                assert(before.columns@[f]@ == super::table::bins_of(
                    cuts,
                    f,
                    rows_of(batches@, f, k as int),
                ));
                super::table::law_batch_boundaries_do_not_matter(
                    cuts,
                    f,
                    rows_of(batches@, f, k as int),
                    batch.columns@[f]@,
                );
            }
        }
        k += 1;
    }
    let ghost filled = builder;
    let t: BlockTable = builder.finish(cols_per_block);
    proof {
        assert forall|f: int| 0 <= f < t.n_features implies #[trigger] t.column(f)
            == super::table::bins_of(t.cuts, f, rows_of(batches@, f, batches@.len() as int)) by {
            assert(t.column(f) == filled.columns@[f]@);
        }
    }
    Ok(t)
}

impl ArrowSource {
    /// Quantizes batches with boundaries from a sketch of them.
    pub fn new<
        P: Fn(F32, F32) -> F32 + Sync,
        B: Fn(F32, F32, F32, usize, usize) -> bool + Sync,
        M: Fn(F32, F32) -> F32 + Sync,
    >(
        batches: &[Batch],
        max_bins: u32,
        cols_per_block: usize,
        math: &RankMath<P, B, M>,
    ) -> (r: Result<Self, CutsFailure>)
        requires
            max_bins <= crate::types::MAX_BIN_LIMIT,
            cols_per_block > 0,
            forall|k: int|
                0 <= k < batches@.len() ==> (#[trigger] batches@[k]).wf()
                    && batches@[k].columns@.len() <= u32::MAX,
            count_rows(batches@, batches@.len() as int) <= usize::MAX,
            math.ok(),
        ensures
            batches@.len() == 0 ==> r matches Err(CutsFailure::NoBatch),
            batches@.len() > 0 ==> match r {
                Err(CutsFailure::NoBatch) => false,
                Err(CutsFailure::ColumnCount { got, expected }) => expected
                    == batches@[0].columns@.len() && exists|k: int| #[trigger]
                    first_odd(batches@, batches@[0].columns@.len() as int, k) && got
                        == batches@[k].columns@.len(),
                Err(CutsFailure::Invalid) => exists|set: SketchSet, per_feat: Seq<Vec<F32>>|
                    sketched(*math, batches@, max_bins as usize, set)
                        && #[trigger] crate::sketch::are_cuts(*math, set, per_feat)
                        && !crate::columns::joinable(per_feat),
                Ok(s) => s.table.wf() && s.table.cols_per_block == cols_per_block
                    && s.table.n_features == batches@[0].columns@.len() && holds_batches(
                    s.table,
                    batches@,
                ) && exists|set: SketchSet, per_feat: Seq<Vec<F32>>|
                    sketched(*math, batches@, max_bins as usize, set)
                        && #[trigger] crate::sketch::are_cuts(*math, set, per_feat)
                        && s.table.cuts.spec_n_feats() == per_feat.len() && forall|f: int|
                        0 <= f < per_feat.len() ==> #[trigger] s.table.cuts.spec_cuts(f)
                            == per_feat[f]@,
            },
    {
        let cuts: BinCuts = match build_cuts(batches, max_bins as usize, math) {
            Err(e) => {
                return Err(e);
            },
            Ok(c) => c,
        };
        match quantize(batches, cuts, cols_per_block) {
            Ok(table) => Ok(ArrowSource { table }),
            Err(e) => match e {
                SourceError::ColumnCount { got, expected } => Err(
                    CutsFailure::ColumnCount { got, expected },
                ),
                _ => Err(CutsFailure::Invalid),
            },
        }
    }

    /// Quantizes batches with given boundaries.
    pub fn with_cuts(batches: &[Batch], cuts: BinCuts, cols_per_block: usize) -> (r: Result<
        Self,
        SourceError,
    >)
        requires
            cuts.wf(),
            cols_per_block > 0,
            forall|k: int| 0 <= k < batches@.len() ==> (#[trigger] batches@[k]).wf(),
            count_rows(batches@, batches@.len() as int) <= usize::MAX,
        ensures
            match r {
                Ok(s) => {
                    &&& s.table.wf()
                    &&& s.table.cuts == cuts
                    &&& s.table.cols_per_block == cols_per_block
                    &&& forall|k: int|
                        0 <= k < batches@.len() ==> (#[trigger] batches@[k]).columns@.len()
                            == cuts.spec_n_feats()
                    &&& holds_batches(s.table, batches@)
                },
                Err(e) => exists|k: int| #[trigger]
                    first_odd(batches@, cuts.spec_n_feats(), k) && e == SourceError::ColumnCount {
                        got: batches@[k].columns@.len() as usize,
                        expected: cuts.spec_n_feats() as usize,
                    },
            },
    {
        match quantize(batches, cuts, cols_per_block) {
            Ok(table) => Ok(ArrowSource { table }),
            Err(e) => Err(e),
        }
    }

    /// The boundaries.
    pub fn cuts(&self) -> (c: &BinCuts)
        ensures
            *c == self.table.cuts,
    {
        &self.table.cuts
    }

    /// The boundaries, for another source.
    pub fn into_cuts(self) -> (c: BinCuts)
        ensures
            c == self.table.cuts,
    {
        self.table.cuts
    }

    /// The bin of one feature in one row.
    pub fn bin_at(&self, row: usize, feat: FeatId) -> (r: Bin)
        requires
            self.table.wf(),
            row < self.table.n_rows,
            feat < self.table.n_features,
        ensures
            r == self.table.column(feat as int)[row as int],
    {
        self.table.bin_at(row, feat)
    }

    /// How many rows there are.
    pub fn n_rows(&self) -> (r: usize)
        ensures
            r == self.table.n_rows,
    {
        self.table.n_rows
    }

    /// How many features there are.
    pub fn n_features(&self) -> (r: usize)
        ensures
            r == self.table.n_features,
    {
        self.table.n_features
    }

    /// How many blocks there are.
    pub fn n_blocks(&self) -> (r: usize)
        ensures
            r == self.table.blocks@.len(),
    {
        self.table.n_blocks()
    }

    /// A block, without copying it.
    pub fn with_block(&self, i: usize) -> (r: Result<&ColumnBlock, SourceError>)
        ensures
            match r {
                Ok(b) => i < self.table.blocks@.len() && *b == self.table.blocks@[i as int],
                Err(e) => i >= self.table.blocks@.len() && e == SourceError::NoBlock {
                    block: i,
                    blocks: self.table.blocks@.len() as usize,
                },
            },
    {
        self.table.block(i)
    }

    /// The bins of one feature.
    pub fn feature_column(&self, feat: FeatId) -> (r: Result<Vec<Bin>, SourceError>)
        requires
            self.table.wf(),
        ensures
            match r {
                Ok(c) => feat < self.table.n_features && c@ == self.table.column(feat as int),
                Err(e) => feat >= self.table.n_features && e == SourceError::NoFeature {
                    feat,
                    features: self.table.n_features,
                },
            },
    {
        self.table.feature_column(feat)
    }
}

/// Batches and a matrix with the same values and the same boundaries have the same bins.
pub proof fn law_batches_and_matrix_agree(
    a: BlockTable,
    batches: Seq<Batch>,
    b: BlockTable,
    data: Seq<F32>,
    n_rows: int,
    n_features: int,
    f: int,
)
    requires
        holds_batches(a, batches),
        super::dense::holds(b, data, n_rows, n_features),
        a.n_features == n_features,
        0 <= f < n_features,
        a.cuts.spec_cuts(f) == b.cuts.spec_cuts(f),
        rows_of(batches, f, batches.len() as int) == super::dense::feature_values(
            data,
            n_rows,
            n_features,
            f,
        ),
    ensures
        a.column(f) == b.column(f),
{
    let values = rows_of(batches, f, batches.len() as int);
    assert(a.column(f) == super::table::bins_of(a.cuts, f, values));
    assert(b.column(f) == super::table::bins_of(b.cuts, f, values));
    assert(super::table::bins_of(a.cuts, f, values) =~= super::table::bins_of(b.cuts, f, values));
}

proof fn lemma_row_of_batch(batches: Seq<Batch>, f: int, n: int, k: int, row: int)
    requires
        0 <= k < n <= batches.len(),
        forall|i: int|
            0 <= i < n ==> (#[trigger] batches[i]).columns@[f]@.len() == batches[i].n_rows,
        0 <= row < batches[k].n_rows,
    ensures
        rows_of(batches, f, n).len() == count_rows(batches, n),
        0 <= count_rows(batches, k) + row < count_rows(batches, n),
        rows_of(batches, f, n)[count_rows(batches, k) + row] == batches[k].columns@[f]@[row],
    decreases n,
{
    assert(batches[n - 1].columns@[f]@.len() == batches[n - 1].n_rows);
    lemma_rows_len(batches, f, n - 1);
    if k < n - 1 {
        lemma_row_of_batch(batches, f, n - 1, k, row);
    } else {
        lemma_rows_grow(batches, k, k);
    }
}

proof fn lemma_rows_len(batches: Seq<Batch>, f: int, n: int)
    requires
        0 <= n <= batches.len(),
        forall|i: int|
            0 <= i < n ==> (#[trigger] batches[i]).columns@[f]@.len() == batches[i].n_rows,
    ensures
        rows_of(batches, f, n).len() == count_rows(batches, n),
    decreases n,
{
    if n > 0 {
        lemma_rows_len(batches, f, n - 1);
        assert(batches[n - 1].columns@[f]@.len() == batches[n - 1].n_rows);
    }
}

/// Every cell of a table from batches says where its value lies among the cuts of its feature: the
/// rows of a batch follow those of the batches before it, and only what is not a number is
/// missing.
pub proof fn law_cells_of_batches_tell_their_values(
    t: BlockTable,
    batches: Seq<Batch>,
    f: int,
    k: int,
    row: int,
)
    requires
        t.wf(),
        holds_batches(t, batches),
        0 <= f < t.n_features,
        0 <= k < batches.len(),
        forall|i: int|
            0 <= i < batches.len() ==> (#[trigger] batches[i]).wf() && batches[i].columns@.len()
                == t.n_features,
        0 <= row < batches[k].n_rows,
        t.cuts.spec_cuts(f).len() < 255,
    ensures
        0 <= count_rows(batches, k) + row < t.n_rows,
        super::table::tells(
            t.cuts.spec_cuts(f),
            batches[k].columns@[f]@[row],
            t.column(f)[count_rows(batches, k) + row],
        ),
{
    let n = batches.len() as int;
    let values = rows_of(batches, f, n);
    assert forall|i: int| 0 <= i < n implies (#[trigger] batches[i]).columns@[f]@.len()
        == batches[i].n_rows by {
        assert(batches[i].wf());
    }
    lemma_row_of_batch(batches, f, n, k, row);
    assert(t.column(f) == super::table::bins_of(t.cuts, f, values));
    super::table::law_bins_tell_where_values_lie(t.cuts, f, batches[k].columns@[f]@[row]);
}

} // verus!
