//! A data set in the making.
//!
//! Batches are read in passes: one over the features to settle the boundaries, where none are
//! given, one over the features to quantize them, and one over the labels. Each pass takes one
//! batch at a time, so the data is never held as a whole.
use vstd::prelude::*;

use super::arrow_source::{
    count_rows, holds_batches, is_trace, rows_of, ArrowSource, Batch, CutsBuilder, CutsFailure,
};
use super::csv_open::{
    first_column, has_sketched_cuts, is_cuts_failure, is_label_error, well_shaped, Dataset,
};
use super::schema::LabelsError;
use super::table::{bins_of, QuantizeBuilder, SourceError};
use crate::columns::BinCuts;
use crate::float32::F32;
use crate::sketch::summary::RankMath;
use crate::sketch::SketchView;

verus! {

/// What the batches of a pass are for.
#[derive(Clone, Copy, Debug, PartialEq, Eq, Structural)]
pub enum Pass {
    Cuts,
    Table,
    Labels,
}

/// What a pass has made so far.
pub enum Stage {
    Cuts(CutsBuilder),
    Table(QuantizeBuilder),
    Labels { source: ArrowSource, labels: Vec<F32> },
}

/// A data set in the making, and the batches that each pass has taken.
pub struct DatasetBuilder {
    pub max_bins: u32,
    pub cols_per_block: usize,
    pub stage: Stage,
    pub given: Ghost<Option<BinCuts>>,
    pub sketched: Ghost<Seq<Batch>>,
    pub quantized: Ghost<Seq<Batch>>,
    pub labelled: Ghost<Seq<Batch>>,
}

/// Why a batch is not taken, or a pass gives nothing.
#[derive(Clone, Copy, Debug, PartialEq, Eq, Structural)]
pub enum BuildError {
    Cuts(CutsFailure),
    Source(SourceError),
    TooManyRows,
}

/// The sketches went through the batches one after the other.
pub open spec fn has_trace<
    P: Fn(F32, F32) -> F32 + Sync,
    B: Fn(F32, F32, F32, usize, usize) -> bool + Sync,
    M: Fn(F32, F32) -> F32 + Sync,
>(math: RankMath<P, B, M>, b: CutsBuilder, seen: Seq<Batch>) -> bool {
    let width = seen[0].columns@.len() as int;
    exists|trace: Seq<Seq<SketchView>>| #[trigger]
        is_trace(math, trace, seen, b.max_bins, width) && trace.len() == seen.len() + 1
            && forall|f: int|
            0 <= f < width ==> (#[trigger] trace[seen.len() as int][f]) == b.sketch_of(f)
}

/// The sketches are those of the batches.
pub open spec fn sketches<
    P: Fn(F32, F32) -> F32 + Sync,
    B: Fn(F32, F32, F32, usize, usize) -> bool + Sync,
    M: Fn(F32, F32) -> F32 + Sync,
>(math: RankMath<P, B, M>, b: CutsBuilder, seen: Seq<Batch>) -> bool {
    &&& b.wf()
    &&& b.set is Some <==> seen.len() > 0
    &&& seen.len() > 0 ==> {
        &&& well_shaped(seen, seen[0].columns@.len() as int)
        &&& b.set->0.per_feat@.len() == seen[0].columns@.len()
        &&& has_trace(math, b, seen)
    }
}

/// The bins are those of the batches.
pub open spec fn quantizes(b: QuantizeBuilder, seen: Seq<Batch>) -> bool {
    &&& b.wf()
    &&& well_shaped(seen, b.cuts.spec_n_feats())
    &&& b.n_rows == count_rows(seen, seen.len() as int)
    &&& forall|f: int|
        0 <= f < b.cuts.spec_n_feats() ==> (#[trigger] b.columns@[f])@ == bins_of(
            b.cuts,
            f,
            rows_of(seen, f, seen.len() as int),
        )
}

impl DatasetBuilder {
    /// The boundaries are the given ones, or those of a sketch of the first pass.
    pub open spec fn settled<
        P: Fn(F32, F32) -> F32 + Sync,
        B: Fn(F32, F32, F32, usize, usize) -> bool + Sync,
        M: Fn(F32, F32) -> F32 + Sync,
    >(&self, math: RankMath<P, B, M>, cuts: BinCuts) -> bool {
        match self.given@ {
            Some(c) => cuts == c,
            None => {
                &&& self.sketched@.len() > 0
                &&& has_sketched_cuts(math, self.sketched@, self.max_bins, cuts)
                &&& cuts.spec_n_feats() == self.sketched@[0].columns@.len()
            },
        }
    }

    /// What was made is made of the batches that were taken.
    pub open spec fn wf<
        P: Fn(F32, F32) -> F32 + Sync,
        B: Fn(F32, F32, F32, usize, usize) -> bool + Sync,
        M: Fn(F32, F32) -> F32 + Sync,
    >(&self, math: RankMath<P, B, M>) -> bool {
        &&& self.given@ is None ==> self.max_bins <= crate::types::MAX_BIN_LIMIT
        &&& self.cols_per_block > 0
        &&& match self.stage {
            Stage::Cuts(b) => {
                &&& self.given@ is None && b.max_bins == self.max_bins
                &&& sketches(math, b, self.sketched@)
                &&& self.quantized@.len() == 0 && self.labelled@.len() == 0
            },
            Stage::Table(b) => {
                &&& self.settled(math, b.cuts)
                &&& quantizes(b, self.quantized@)
                &&& self.labelled@.len() == 0
            },
            Stage::Labels { source, labels } => {
                &&& self.settled(math, source.table.cuts)
                &&& source.table.wf() && source.table.cols_per_block == self.cols_per_block
                &&& well_shaped(self.quantized@, source.table.cuts.spec_n_feats())
                &&& holds_batches(source.table, self.quantized@)
                &&& well_shaped(self.labelled@, 1)
                &&& labels@ == first_column(self.labelled@, self.labelled@.len() as int)
            },
        }
    }

    /// The batches that the pass of this stage has taken.
    pub open spec fn taken(&self) -> Seq<Batch> {
        match self.stage {
            Stage::Cuts(_) => self.sketched@,
            Stage::Table(_) => self.quantized@,
            Stage::Labels { .. } => self.labelled@,
        }
    }

    /// The pass of this stage.
    pub open spec fn spec_pass(&self) -> Pass {
        match self.stage {
            Stage::Cuts(_) => Pass::Cuts,
            Stage::Table(_) => Pass::Table,
            Stage::Labels { .. } => Pass::Labels,
        }
    }

    /// The same data set, and the other passes have taken the same batches.
    pub open spec fn goes_on(&self, n: DatasetBuilder, pass: Pass) -> bool {
        &&& n.max_bins == self.max_bins && n.cols_per_block == self.cols_per_block
        &&& n.given@ == self.given@
        &&& n.spec_pass() == pass
        &&& pass == Pass::Cuts || n.sketched@ == self.sketched@
        &&& pass == Pass::Table || n.quantized@ == self.quantized@
        &&& pass == Pass::Labels || n.labelled@ == self.labelled@
    }

    /// What is left after more batches of the same pass.
    pub open spec fn fed(&self, n: DatasetBuilder, more: Seq<Batch>) -> bool {
        self.goes_on(n, self.spec_pass()) && n.taken() == self.taken() + more
    }

    /// Why a batch is not taken.
    pub open spec fn refuses(&self, batch: Batch, e: BuildError) -> bool {
        let got = batch.columns@.len();
        match (self.stage, e) {
            (Stage::Cuts(_), BuildError::Cuts(c)) => {
                let expected = self.sketched@[0].columns@.len();
                &&& self.sketched@.len() > 0 && got != expected
                &&& c == CutsFailure::ColumnCount {
                    got: got as usize,
                    expected: expected as usize,
                }
            },
            (Stage::Table(b), BuildError::Source(s)) => {
                let expected = b.cuts.spec_n_feats();
                &&& got != expected
                &&& s == SourceError::ColumnCount {
                    got: got as usize,
                    expected: expected as usize,
                }
            },
            (Stage::Table(_), BuildError::TooManyRows) => count_rows(
                self.quantized@,
                self.quantized@.len() as int,
            ) + batch.n_rows > usize::MAX,
            _ => false,
        }
    }

    /// Nothing was read yet. Without boundaries, the first pass settles them.
    pub fn new<
        P: Fn(F32, F32) -> F32 + Sync,
        B: Fn(F32, F32, F32, usize, usize) -> bool + Sync,
        M: Fn(F32, F32) -> F32 + Sync,
    >(
        cuts: Option<BinCuts>,
        max_bins: u32,
        cols_per_block: usize,
        math: &RankMath<P, B, M>,
    ) -> (r: Self)
        requires
            cuts is None ==> max_bins <= crate::types::MAX_BIN_LIMIT,
            cols_per_block > 0,
            cuts matches Some(c) ==> c.wf(),
        ensures
            r.wf(*math),
            r.max_bins == max_bins,
            r.cols_per_block == cols_per_block,
            r.given@ == cuts,
            r.sketched@ == Seq::<Batch>::empty(),
            r.quantized@ == Seq::<Batch>::empty(),
            r.labelled@ == Seq::<Batch>::empty(),
            r.spec_pass() == (if cuts is None {
                Pass::Cuts
            } else {
                Pass::Table
            }),
    {
        let ghost given = cuts;
        let stage: Stage = match cuts {
            None => Stage::Cuts(CutsBuilder::new(max_bins as usize)),
            Some(c) => Stage::Table(QuantizeBuilder::new(c)),
        };
        let r: DatasetBuilder = DatasetBuilder {
            max_bins,
            cols_per_block,
            stage,
            given: Ghost(given),
            sketched: Ghost(Seq::empty()),
            quantized: Ghost(Seq::empty()),
            labelled: Ghost(Seq::empty()),
        };
        proof {
            if let Stage::Table(ref b) = r.stage {
                let none = Seq::<Batch>::empty();
                assert forall|f: int| 0 <= f < b.cuts.spec_n_feats() implies (
                #[trigger] b.columns@[f])@ == bins_of(b.cuts, f, rows_of(none, f, 0)) by {
                    assert(b.columns@[f]@ =~= bins_of(b.cuts, f, rows_of(none, f, 0)));
                }
            }
        }
        r
    }

    /// What batches are read for next.
    pub fn pass(&self) -> (r: Pass)
        ensures
            r == self.spec_pass(),
    {
        match self.stage {
            Stage::Cuts(_) => Pass::Cuts,
            Stage::Table(_) => Pass::Table,
            Stage::Labels { .. } => Pass::Labels,
        }
    }

    /// Takes the next batch of a pass.
    pub fn take<
        P: Fn(F32, F32) -> F32 + Sync,
        B: Fn(F32, F32, F32, usize, usize) -> bool + Sync,
        M: Fn(F32, F32) -> F32 + Sync,
    >(self, batch: &Batch, math: &RankMath<P, B, M>) -> (r: Result<Self, BuildError>)
        requires
            self.wf(*math),
            math.ok(),
            batch.wf(),
            batch.columns@.len() <= u32::MAX,
            self.spec_pass() == Pass::Labels ==> batch.columns@.len() == 1,
        ensures
            match r {
                Ok(n) => n.wf(*math) && self.fed(n, seq![*batch]),
                Err(e) => self.refuses(*batch, e),
            },
    {
        let ghost before = self;
        let ghost more = seq![*batch];
        let DatasetBuilder {
            max_bins,
            cols_per_block,
            stage,
            given,
            sketched,
            quantized,
            labelled,
        } = self;
        match stage {
            Stage::Cuts(b) => {
                let mut b: CutsBuilder = b;
                let ghost old = b;
                match b.add_batch(batch, math) {
                    Err(e) => {
                        return Err(BuildError::Cuts(e));
                    },
                    Ok(()) => {},
                }
                proof {
                    lemma_sketch_step(*math, old, b, sketched@, *batch);
                }
                Ok(
                    DatasetBuilder {
                        max_bins,
                        cols_per_block,
                        stage: Stage::Cuts(b),
                        given,
                        sketched: Ghost(before.sketched@ + more),
                        quantized,
                        labelled,
                    },
                )
            },
            Stage::Table(b) => {
                let mut b: QuantizeBuilder = b;
                let ghost old = b;
                if b.n_rows.checked_add(batch.n_rows).is_none() {
                    return Err(BuildError::TooManyRows);
                }
                match b.add_batch(batch.columns.as_slice(), batch.n_rows) {
                    Err(e) => {
                        return Err(BuildError::Source(e));
                    },
                    Ok(()) => {},
                }
                proof {
                    lemma_table_step(old, b, quantized@, *batch);
                }
                Ok(
                    DatasetBuilder {
                        max_bins,
                        cols_per_block,
                        stage: Stage::Table(b),
                        given,
                        sketched,
                        quantized: Ghost(before.quantized@ + more),
                        labelled,
                    },
                )
            },
            Stage::Labels { source, labels } => {
                let mut labels: Vec<F32> = labels;
                let ghost old = labels@;
                let column: &Vec<F32> = &batch.columns[0];
                let mut i: usize = 0;
                assert(old + column@.take(0) =~= old);
                while i < column.len()
                    invariant
                        i <= column@.len(),
                        labels@ == old + column@.take(i as int),
                    decreases column.len() - i,
                {
                    labels.push(column[i]);
                    assert(old + column@.take(i + 1) =~= (old + column@.take(i as int)).push(
                        column@[i as int],
                    ));
                    i += 1;
                }
                proof {
                    assert(column@.take(i as int) =~= column@);
                    let seen = labelled@;
                    let now = seen + more;
                    lemma_column_prefix(seen, now, seen.len() as int);
                    assert(now[seen.len() as int] == *batch);
                }
                Ok(
                    DatasetBuilder {
                        max_bins,
                        cols_per_block,
                        stage: Stage::Labels { source, labels },
                        given,
                        sketched,
                        quantized,
                        labelled: Ghost(before.labelled@ + more),
                    },
                )
            },
        }
    }

    /// Ends a pass over the features and goes on to the next.
    pub fn pass_done<
        P: Fn(F32, F32) -> F32 + Sync,
        B: Fn(F32, F32, F32, usize, usize) -> bool + Sync,
        M: Fn(F32, F32) -> F32 + Sync,
    >(self, math: &RankMath<P, B, M>) -> (r: Result<Self, CutsFailure>)
        requires
            self.wf(*math),
            math.ok(),
            self.spec_pass() != Pass::Labels,
        ensures
            match r {
                Ok(n) => {
                    &&& n.wf(*math)
                    &&& self.goes_on(n, if self.spec_pass() == Pass::Cuts {
                        Pass::Table
                    } else {
                        Pass::Labels
                    })
                    &&& n.taken() == Seq::<Batch>::empty()
                    &&& n.sketched@ == self.sketched@
                    &&& self.spec_pass() == Pass::Table ==> n.quantized@ == self.quantized@
                },
                Err(e) => self.spec_pass() == Pass::Cuts && is_cuts_failure(
                    *math,
                    self.sketched@,
                    self.max_bins,
                    e,
                ),
            },
    {
        let ghost before = self;
        let DatasetBuilder {
            max_bins,
            cols_per_block,
            stage,
            given,
            sketched,
            quantized,
            labelled,
        } = self;
        let stage: Stage = match stage {
            Stage::Cuts(b) => {
                let ghost set = b.set;
                proof {
                    if set is Some {
                        lemma_sketched(*math, b, sketched@);
                    }
                }
                let cuts: BinCuts = match b.finish(math) {
                    Err(e) => {
                        return Err(e);
                    },
                    Ok(c) => c,
                };
                assert(has_sketched_cuts(*math, sketched@, max_bins, cuts));
                let b: QuantizeBuilder = QuantizeBuilder::new(cuts);
                proof {
                    let none = quantized@;
                    assert(none =~= Seq::<Batch>::empty());
                    assert forall|f: int| 0 <= f < b.cuts.spec_n_feats() implies (
                    #[trigger] b.columns@[f])@ == bins_of(b.cuts, f, rows_of(none, f, 0)) by {
                        assert(b.columns@[f]@ =~= bins_of(b.cuts, f, rows_of(none, f, 0)));
                    }
                }
                Stage::Table(b)
            },
            Stage::Table(b) => {
                let ghost filled = b;
                let source: ArrowSource = ArrowSource { table: b.finish(cols_per_block) };
                let labels: Vec<F32> = Vec::new();
                proof {
                    let t = source.table;
                    assert forall|f: int| 0 <= f < t.n_features implies #[trigger] t.column(f)
                        == bins_of(t.cuts, f, rows_of(quantized@, f, quantized@.len() as int)) by {
                        assert(t.column(f) == filled.columns@[f]@);
                    }
                    assert(labelled@ =~= Seq::<Batch>::empty());
                    assert(labels@ =~= first_column(labelled@, 0));
                }
                Stage::Labels { source, labels }
            },
            Stage::Labels { source, labels } => Stage::Labels { source, labels },
        };
        Ok(
            DatasetBuilder {
                max_bins,
                cols_per_block,
                stage,
                given,
                sketched,
                quantized,
                labelled,
            },
        )
    }

    /// Puts features and labels together.
    pub fn finish<
        P: Fn(F32, F32) -> F32 + Sync,
        B: Fn(F32, F32, F32, usize, usize) -> bool + Sync,
        M: Fn(F32, F32) -> F32 + Sync,
    >(self, names: Vec<String>, math: &RankMath<P, B, M>) -> (r: Result<Dataset, LabelsError>)
        requires
            self.wf(*math),
            self.spec_pass() == Pass::Labels,
        ensures
            ({
                let labels = first_column(self.labelled@, self.labelled@.len() as int);
                let rows = count_rows(self.quantized@, self.quantized@.len() as int);
                match r {
                    Ok(d) => {
                        &&& self.settled(*math, d.source.table.cuts)
                        &&& d.source.table.wf()
                        &&& d.source.table.cols_per_block == self.cols_per_block
                        &&& holds_batches(d.source.table, self.quantized@)
                        &&& d.labels@ == labels && labels.len() == rows
                        &&& forall|i: int| 0 <= i < labels.len() ==> !(#[trigger] labels[i]).nan()
                        &&& d.feature_names == names
                    },
                    Err(e) => rows <= usize::MAX && is_label_error(labels, rows as usize, e),
                }
            }),
    {
        match self.stage {
            Stage::Labels { source, labels } => Dataset::assemble(source, labels, names),
            _ => {
                assert(false);
                Err(LabelsError::Missing)
            },
        }
    }
}

/// Takes all batches of a pass.
pub fn feed<
    P: Fn(F32, F32) -> F32 + Sync,
    B: Fn(F32, F32, F32, usize, usize) -> bool + Sync,
    M: Fn(F32, F32) -> F32 + Sync,
>(builder: DatasetBuilder, batches: &[Batch], math: &RankMath<P, B, M>) -> (r: Result<
    DatasetBuilder,
    BuildError,
>)
    requires
        builder.wf(*math),
        math.ok(),
        forall|k: int|
            0 <= k < batches@.len() ==> (#[trigger] batches@[k]).wf()
                && batches@[k].columns@.len() <= u32::MAX,
        builder.spec_pass() == Pass::Labels ==> well_shaped(batches@, 1),
    ensures
        match r {
            Ok(n) => n.wf(*math) && builder.fed(n, batches@),
            Err(e) => exists|mid: DatasetBuilder, k: int|
                0 <= k < batches@.len() && mid.wf(*math) && #[trigger] builder.fed(
                    mid,
                    batches@.take(k),
                ) && mid.refuses(batches@[k], e),
        },
{
    let ghost start = builder;
    let mut b: DatasetBuilder = builder;
    let mut k: usize = 0;
    assert(b.taken() =~= start.taken() + batches@.take(0));
    while k < batches.len()
        invariant
            k <= batches@.len(),
            b.wf(*math),
            math.ok(),
            start == builder,
            start.fed(b, batches@.take(k as int)),
            forall|j: int|
                0 <= j < batches@.len() ==> (#[trigger] batches@[j]).wf()
                    && batches@[j].columns@.len() <= u32::MAX,
            start.spec_pass() == Pass::Labels ==> well_shaped(batches@, 1),
        decreases batches.len() - k,
    {
        let ghost mid = b;
        b = match b.take(&batches[k], math) {
            Err(e) => {
                assert(mid.refuses(batches@[k as int], e));
                return Err(e);
            },
            Ok(n) => n,
        };
        assert(b.taken() =~= start.taken() + batches@.take(k + 1));
        k += 1;
    }
    assert(batches@.take(k as int) =~= batches@);
    Ok(b)
}

pub(crate) proof fn lemma_count_prefix(a: Seq<Batch>, b: Seq<Batch>, k: int)
    requires
        0 <= k <= a.len(),
        k <= b.len(),
        forall|i: int| 0 <= i < k ==> a[i] == b[i],
    ensures
        count_rows(a, k) == count_rows(b, k),
    decreases k,
{
    if k > 0 {
        lemma_count_prefix(a, b, k - 1);
    }
}

proof fn lemma_rows_prefix(a: Seq<Batch>, b: Seq<Batch>, f: int, k: int)
    requires
        0 <= k <= a.len(),
        k <= b.len(),
        forall|i: int| 0 <= i < k ==> a[i] == b[i],
    ensures
        rows_of(a, f, k) == rows_of(b, f, k),
    decreases k,
{
    if k > 0 {
        lemma_rows_prefix(a, b, f, k - 1);
    }
}

proof fn lemma_column_prefix(a: Seq<Batch>, b: Seq<Batch>, k: int)
    requires
        0 <= k <= a.len(),
        k <= b.len(),
        forall|i: int| 0 <= i < k ==> a[i] == b[i],
    ensures
        first_column(a, k) == first_column(b, k),
    decreases k,
{
    if k > 0 {
        lemma_column_prefix(a, b, k - 1);
    }
}

/// The sketches after one more batch are those of one more batch.
proof fn lemma_sketch_step<
    P: Fn(F32, F32) -> F32 + Sync,
    B: Fn(F32, F32, F32, usize, usize) -> bool + Sync,
    M: Fn(F32, F32) -> F32 + Sync,
>(math: RankMath<P, B, M>, old: CutsBuilder, new: CutsBuilder, seen: Seq<Batch>, batch: Batch)
    requires
        sketches(math, old, seen),
        batch.wf(),
        new.wf(),
        new.max_bins == old.max_bins,
        old.set matches Some(s) ==> s.per_feat@.len() == batch.columns@.len(),
        new.set matches Some(s) && s.per_feat@.len() == batch.columns@.len(),
        forall|f: int|
            0 <= f < batch.columns@.len() ==> crate::sketch::took_all(
                math,
                old.sketch_of(f),
                (#[trigger] batch.columns@[f])@,
                Seq::new(batch.n_rows as nat, |i: int| crate::sketch::one()),
                new.sketch_of(f),
            ),
    ensures
        sketches(math, new, seen + seq![batch]),
{
    let now = seen + seq![batch];
    let n = seen.len() as int;
    let width = now[0].columns@.len() as int;
    let bins = old.max_bins;
    assert(now[n] == batch);
    let trace: Seq<Seq<SketchView>> = if n > 0 {
        choose|trace: Seq<Seq<SketchView>>| #[trigger]
            is_trace(math, trace, seen, bins, width) && trace.len() == n + 1 && forall|f: int|
                0 <= f < width ==> (#[trigger] trace[n][f]) == old.sketch_of(f)
    } else {
        seq![Seq::new(width as nat, |f: int| super::dense::fresh(bins))]
    };
    let grown = trace.push(Seq::new(width as nat, |f: int| new.sketch_of(f)));
    assert forall|f: int| 0 <= f < width implies (#[trigger] grown[0][f]) == super::dense::fresh(
        bins,
    ) by {
        assert(grown[0] == trace[0]);
        assert(trace[0][f] == super::dense::fresh(bins));
    }
    assert forall|i: int, f: int|
        0 <= i < grown.len() - 1 && 0 <= f < width implies crate::sketch::took_all(
        math,
        #[trigger] grown[i][f],
        now[i].columns@[f]@,
        Seq::new(now[i].n_rows as nat, |r: int| crate::sketch::one()),
        grown[i + 1][f],
    ) by {
        assert(grown[i] == trace[i]);
        if i < n {
            assert(grown[i + 1] == trace[i + 1]);
            assert(now[i] == seen[i]);
            assert(crate::sketch::took_all(
                math,
                trace[i][f],
                seen[i].columns@[f]@,
                Seq::new(seen[i].n_rows as nat, |r: int| crate::sketch::one()),
                trace[i + 1][f],
            ));
        } else {
            assert(trace[n][f] == old.sketch_of(f));
            assert(grown[i + 1][f] == new.sketch_of(f));
            assert(Seq::new(batch.n_rows as nat, |r: int| crate::sketch::one()) =~= Seq::new(
                batch.n_rows as nat,
                |i: int| crate::sketch::one(),
            ));
            assert(batch.columns@[f]@.len() == batch.n_rows);
        }
    }
    assert(is_trace(math, grown, now, bins, width));
    assert(has_trace(math, new, now));
    assert(well_shaped(now, width)) by {
        assert forall|i: int| 0 <= i < now.len() implies (#[trigger] now[i]).wf()
            && now[i].columns@.len() == width by {
            if i < n {
                assert(now[i] == seen[i]);
            }
        }
    }
}

/// Sketches of some batches are what boundaries are settled by.
proof fn lemma_sketched<
    P: Fn(F32, F32) -> F32 + Sync,
    B: Fn(F32, F32, F32, usize, usize) -> bool + Sync,
    M: Fn(F32, F32) -> F32 + Sync,
>(math: RankMath<P, B, M>, b: CutsBuilder, seen: Seq<Batch>)
    requires
        sketches(math, b, seen),
        seen.len() > 0,
    ensures
        super::arrow_source::sketched(math, seen, b.max_bins, b.set->0),
{
    let set = b.set->0;
    let width = seen[0].columns@.len() as int;
    let n = seen.len() as int;
    let trace = choose|trace: Seq<Seq<SketchView>>| #[trigger]
        is_trace(math, trace, seen, b.max_bins, width) && trace.len() == n + 1 && forall|f: int|
            0 <= f < width ==> (#[trigger] trace[n][f]) == b.sketch_of(f);
    assert forall|f: int| 0 <= f < set.per_feat@.len() implies trace[n][f] == (
    #[trigger] set.per_feat@[f]).view() by {
        assert(trace[n][f] == b.sketch_of(f));
    }
}

/// The bins after one more batch are those of one more batch.
proof fn lemma_table_step(
    old: QuantizeBuilder,
    new: QuantizeBuilder,
    seen: Seq<Batch>,
    batch: Batch,
)
    requires
        quantizes(old, seen),
        batch.wf(),
        new.wf(),
        new.cuts == old.cuts,
        batch.columns@.len() == old.columns@.len(),
        new.n_rows == old.n_rows + batch.n_rows,
        forall|f: int|
            0 <= f < batch.columns@.len() ==> (#[trigger] new.columns@[f])@ == old.columns@[f]@
                + bins_of(old.cuts, f, batch.columns@[f]@),
    ensures
        quantizes(new, seen + seq![batch]),
{
    let now = seen + seq![batch];
    let n = seen.len() as int;
    assert(now[n] == batch);
    lemma_count_prefix(seen, now, n);
    assert forall|f: int| 0 <= f < new.cuts.spec_n_feats() implies (#[trigger] new.columns@[f])@
        == bins_of(new.cuts, f, rows_of(now, f, n + 1)) by {
        lemma_rows_prefix(seen, now, f, n);
        assert(old.columns@[f]@ == bins_of(old.cuts, f, rows_of(seen, f, n)));
        super::table::law_batch_boundaries_do_not_matter(
            old.cuts,
            f,
            rows_of(seen, f, n),
            batch.columns@[f]@,
        );
    }
    assert forall|i: int| 0 <= i < now.len() implies (#[trigger] now[i]).wf()
        && now[i].columns@.len() == new.cuts.spec_n_feats() by {
        if i < n {
            assert(now[i] == seen[i]);
        }
    }
}

} // verus!
