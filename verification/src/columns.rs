//! Column blocks and bin boundaries.
//!
//! Quantized data is stored flat and column-major, so that accumulating a histogram feature
//! by feature reads consecutive memory.
use vstd::prelude::*;

use crate::float32::{strictly_increasing, F32};
use crate::math::{
    ceil_div, div_ceil_usize, imax, imin, lemma_ceil_div, lemma_ceil_div_least, max_usize,
    min_usize,
};
use crate::types::{Bin, FeatId};

verus! {

/// The quantized values of a group of features: `data[local_feat * n_rows + row]`.
pub struct ColumnBlock {
    /// The global numbers of the features in the block.
    pub feat_ids: Vec<FeatId>,
    /// One column after the other, `feat_ids.len() * n_rows` in all.
    pub data: Vec<Bin>,
    pub n_rows: usize,
}

impl ColumnBlock {
    /// The data has one column of `n_rows` bins per feature.
    pub open spec fn wf(&self) -> bool {
        self.data.len() == self.feat_ids.len() * self.n_rows
    }

    /// The bins of one local feature.
    pub open spec fn spec_column(&self, local_feat: int) -> Seq<Bin> {
        self.data@.subrange(local_feat * self.n_rows, local_feat * self.n_rows + self.n_rows)
    }

    /// How many features the block holds.
    pub fn n_feats(&self) -> (n: usize)
        ensures
            n == self.feat_ids.len(),
    {
        self.feat_ids.len()
    }

    /// One local feature's column.
    pub fn column(&self, local_feat: usize) -> (c: &[Bin])
        requires
            self.wf(),
            local_feat < self.feat_ids.len(),
        ensures
            c@ == self.spec_column(local_feat as int),
            c@.len() == self.n_rows,
            forall|row: int|
                0 <= row < self.n_rows ==> #[trigger] c@[row] == self.data@[local_feat * self.n_rows
                    + row],
    {
        proof {
            lemma_column_in_bounds(
                local_feat as int,
                self.feat_ids@.len() as int,
                self.n_rows as int,
            );
        }
        let start: usize = local_feat * self.n_rows;
        vstd::slice::slice_subrange(self.data.as_slice(), start, start + self.n_rows)
    }
}

/// Column `f` of `n` columns of `rows` values lies within `n * rows` values.
pub proof fn lemma_column_in_bounds(f: int, n: int, rows: int)
    requires
        0 <= f < n,
        0 <= rows,
    ensures
        0 <= f * rows,
        f * rows + rows <= n * rows,
{
    assert(f * rows + rows == (f + 1) * rows) by (nonlinear_arith);
    assert((f + 1) * rows <= n * rows) by (nonlinear_arith)
        requires
            f + 1 <= n,
            0 <= rows,
    ;
    assert(0 <= f * rows) by (nonlinear_arith)
        requires
            0 <= f,
            0 <= rows,
    ;
}

/// Bin boundaries of every feature. Feature `f` has the cuts
/// `values[offsets[f] .. offsets[f + 1]]` and one bin more than cuts.
pub struct BinCuts {
    pub values: Vec<F32>,
    pub offsets: Vec<u32>,
    /// `hist_offsets[f]` is the number of bins of all features before `f`.
    pub hist_offsets: Vec<u32>,
}

/// The cuts of one feature.
pub open spec fn cuts_of(values: Seq<F32>, offsets: Seq<u32>, f: int) -> Seq<F32> {
    values.subrange(offsets[f] as int, offsets[f + 1] as int)
}

/// Offsets start at 0, never fall and end at the number of values.
pub open spec fn offsets_ok(values: Seq<F32>, offsets: Seq<u32>) -> bool {
    &&& offsets.len() > 0
    &&& offsets[0] == 0
    &&& offsets[offsets.len() - 1] == values.len()
    &&& forall|i: int, j: int| 0 <= i <= j < offsets.len() ==> offsets[i] <= offsets[j]
}

/// What the boundaries of a data set must satisfy.
pub open spec fn cuts_valid(values: Seq<F32>, offsets: Seq<u32>) -> bool {
    &&& offsets_ok(values, offsets)
    &&& forall|f: int|
        0 <= f < offsets.len() - 1 ==> strictly_increasing(#[trigger] cuts_of(values, offsets, f))
    &&& values.len() + offsets.len() - 1 <= u32::MAX
}

impl BinCuts {
    /// The boundaries are valid and the histogram offsets count bins:
    /// one more per feature than there are cuts before it.
    pub open spec fn wf(&self) -> bool {
        &&& cuts_valid(self.values@, self.offsets@)
        &&& self.hist_offsets.len() == self.offsets.len()
        &&& forall|f: int|
            0 <= f < self.offsets.len() ==> #[trigger] self.hist_offsets[f] == self.offsets[f] + f
    }

    /// The number of features.
    pub open spec fn spec_n_feats(&self) -> int {
        self.offsets.len() - 1
    }

    /// The cuts of a feature.
    pub open spec fn spec_cuts(&self, f: int) -> Seq<F32> {
        cuts_of(self.values@, self.offsets@, f)
    }

    /// The number of bins of a feature.
    pub open spec fn spec_n_bins(&self, f: int) -> int {
        self.offsets[f + 1] - self.offsets[f] + 1
    }

    /// Boundaries from flat values and offsets.
    pub fn new(values: Vec<F32>, offsets: Vec<u32>) -> (c: Self)
        requires
            cuts_valid(values@, offsets@),
        ensures
            c.wf(),
            c.values == values,
            c.offsets == offsets,
    {
        let n_feats: usize = offsets.len() - 1;
        let mut hist_offsets: Vec<u32> = Vec::with_capacity(n_feats + 1);
        hist_offsets.push(0);
        let mut acc: u32 = 0;
        let mut f: usize = 0;
        while f < n_feats
            invariant
                cuts_valid(values@, offsets@),
                n_feats == offsets.len() - 1,
                f <= n_feats,
                acc == offsets[f as int] + f,
                hist_offsets.len() == f + 1,
                forall|k: int| 0 <= k <= f ==> #[trigger] hist_offsets[k] == offsets[k] + k,
            decreases n_feats - f,
        {
            let n_cuts: u32 = offsets[f + 1] - offsets[f];
            assert(offsets[f + 1] <= offsets[n_feats as int]);
            acc = acc + (n_cuts + 1);
            hist_offsets.push(acc);
            f += 1;
        }
        BinCuts { values, offsets, hist_offsets }
    }

    /// The number of bins of all features together.
    pub fn total_bins(&self) -> (n: usize)
        requires
            self.wf(),
        ensures
            n == self.values.len() + self.spec_n_feats(),
    {
        self.hist_offsets[self.hist_offsets.len() - 1] as usize
    }

    /// The number of features.
    pub fn n_feats(&self) -> (n: usize)
        requires
            self.wf(),
        ensures
            n == self.spec_n_feats(),
    {
        self.offsets.len() - 1
    }

    /// The cuts of one feature.
    pub fn cuts_for(&self, feat: FeatId) -> (c: &[F32])
        requires
            self.wf(),
            feat < self.spec_n_feats(),
        ensures
            c@ == self.spec_cuts(feat as int),
            strictly_increasing(c@),
            c@.len() == self.spec_n_bins(feat as int) - 1,
    {
        let f: usize = feat as usize;
        let a: usize = self.offsets[f] as usize;
        let b: usize = self.offsets[f + 1] as usize;
        assert(self.offsets[f + 1] <= self.offsets[self.offsets.len() - 1]);
        assert(strictly_increasing(cuts_of(self.values@, self.offsets@, feat as int)));
        vstd::slice::slice_subrange(self.values.as_slice(), a, b)
    }

    /// The number of bins of one feature.
    pub fn n_bins(&self, feat: FeatId) -> (n: usize)
        requires
            self.wf(),
            feat < self.spec_n_feats(),
        ensures
            n == self.spec_n_bins(feat as int),
    {
        self.cuts_for(feat).len() + 1
    }

    /// Where the bins of a feature start in a histogram over all features.
    pub fn hist_offset(&self, feat: FeatId) -> (n: usize)
        requires
            self.wf(),
            feat < self.offsets.len(),
        ensures
            n == self.offsets[feat as int] + feat,
    {
        self.hist_offsets[feat as usize] as usize
    }

    /// The bins of the first `k` of these features.
    pub open spec fn spec_block_bins(&self, feat_ids: Seq<FeatId>, k: int) -> int
        decreases k,
    {
        if k <= 0 {
            0
        } else {
            self.spec_block_bins(feat_ids, k - 1) + self.spec_n_bins(feat_ids[k - 1] as int)
        }
    }

    /// The histogram offsets within a block of features, with the block's total at the end.
    pub fn block_hist_offsets(&self, feat_ids: &[FeatId]) -> (r: Vec<u32>)
        requires
            self.wf(),
            forall|i: int| 0 <= i < feat_ids@.len() ==> #[trigger] feat_ids@[i] < self.spec_n_feats(),
            self.spec_block_bins(feat_ids@, feat_ids@.len() as int) <= u32::MAX,
        ensures
            r.len() == feat_ids@.len() + 1,
            forall|k: int|
                0 <= k <= feat_ids@.len() ==> #[trigger] r[k] == self.spec_block_bins(feat_ids@, k),
    {
        let n: usize = feat_ids.len();
        let mut r: Vec<u32> = Vec::new();
        let mut acc: u32 = 0;
        r.push(0);
        let mut i: usize = 0;
        while i < n
            invariant
                self.wf(),
                n == feat_ids@.len(),
                i <= n,
                forall|i: int|
                    0 <= i < feat_ids@.len() ==> #[trigger] feat_ids@[i] < self.spec_n_feats(),
                self.spec_block_bins(feat_ids@, feat_ids@.len() as int) <= u32::MAX,
                acc == self.spec_block_bins(feat_ids@, i as int),
                r.len() == i + 1,
                forall|k: int| 0 <= k <= i ==> #[trigger] r[k] == self.spec_block_bins(feat_ids@, k),
            decreases n - i,
        {
            proof {
                lemma_block_bins_monotone(*self, feat_ids@, i + 1, n as int);
            }
            let bins: usize = self.n_bins(feat_ids[i]);
            acc = acc + bins as u32;
            r.push(acc);
            i += 1;
        }
        r
    }

    /// The bin of a value: the number of cuts that are not above it. A cut is an upper bound,
    /// so this is the first bin whose cut lies above the value. The count is kept in the
    /// width of a bin code.
    pub fn find_bin(&self, feat: FeatId, value: F32) -> (b: Bin)
        requires
            self.wf(),
            feat < self.spec_n_feats(),
        ensures
            b == bin_of(self.spec_cuts(feat as int), value) as u8,
            self.spec_n_bins(feat as int) <= 256 ==> b == bin_of(
                self.spec_cuts(feat as int),
                value,
            ),
    {
        let cuts: &[F32] = self.cuts_for(feat);
        let mut lo: usize = 0;
        let mut hi: usize = cuts.len();
        while lo < hi
            invariant
                strictly_increasing(cuts@),
                lo <= hi <= cuts@.len(),
                forall|i: int| 0 <= i < lo ==> (#[trigger] cuts@[i]).le(value),
                forall|i: int| hi <= i < cuts@.len() ==> !(#[trigger] cuts@[i]).le(value),
            decreases hi - lo,
        {
            let mid: usize = lo + (hi - lo) / 2;
            if cuts[mid].less_eq(value) {
                lo = mid + 1;
            } else {
                hi = mid;
            }
        }
        proof {
            lemma_bin_of_boundary(cuts@, value, lo as int);
        }
        #[verifier::truncate]
        (lo as u8)
    }
}

/// The offsets of neighbouring features do not fall.
pub open spec fn steps_up(offsets: Seq<u32>, f: int) -> bool {
    offsets[f] <= offsets[f + 1]
}

/// Value number `i` is below the next one.
pub open spec fn is_below_next(values: Seq<F32>, i: int) -> bool {
    values[i].lt(values[i + 1])
}

proof fn lemma_steps_climb(offsets: Seq<u32>, i: int, j: int)
    requires
        forall|f: int| 0 <= f < offsets.len() - 1 ==> #[trigger] steps_up(offsets, f),
        0 <= i <= j < offsets.len(),
    ensures
        offsets[i] <= offsets[j],
    decreases j - i,
{
    if i < j {
        lemma_steps_climb(offsets, i, j - 1);
        assert(steps_up(offsets, j - 1));
    }
}

proof fn lemma_neighbours_climb(values: Seq<F32>, lo: int, i: int, j: int, hi: int)
    requires
        forall|k: int| lo <= k < hi - 1 ==> #[trigger] is_below_next(values, k),
        lo <= i < j < hi,
    ensures
        values[i].key() < values[j].key(),
    decreases j - i,
{
    assert(is_below_next(values, j - 1));
    if i < j - 1 {
        lemma_neighbours_climb(values, lo, i, j - 1, hi);
    }
}

/// The offsets start at 0, never fall and end at the number of values; every value is finite; the
/// values of one feature rise; and the bins of all features can be counted.
pub open spec fn are_boundaries(values: Seq<F32>, offsets: Seq<u32>) -> bool {
    &&& offsets.len() > 0
    &&& offsets[0] == 0
    &&& offsets[offsets.len() - 1] == values.len()
    &&& forall|f: int| 0 <= f < offsets.len() - 1 ==> #[trigger] steps_up(offsets, f)
    &&& forall|i: int| 0 <= i < values.len() ==> (#[trigger] values[i]).finite()
    &&& forall|f: int, i: int|
        0 <= f < offsets.len() - 1 && #[trigger] in_feature(offsets, f, i) && i + 1 < offsets[f + 1]
            ==> is_below_next(values, i)
    &&& values.len() + offsets.len() - 1 <= u32::MAX
}

/// Boundaries are valid exactly where every offset, every value and every two neighbouring values
/// of a feature are.
pub proof fn law_what_makes_boundaries_valid(values: Seq<F32>, offsets: Seq<u32>)
    ensures
        cuts_valid(values, offsets) <==> are_boundaries(values, offsets),
{
    let n = offsets.len() - 1;
    if are_boundaries(values, offsets) {
        assert forall|i: int, j: int| 0 <= i <= j < offsets.len() implies offsets[i]
            <= offsets[j] by {
            lemma_steps_climb(offsets, i, j);
        }
        assert forall|f: int| 0 <= f < n implies strictly_increasing(
            #[trigger] cuts_of(values, offsets, f),
        ) by {
            let c = cuts_of(values, offsets, f);
            let lo = offsets[f] as int;
            let hi = offsets[f + 1] as int;
            assert(offsets[f + 1] <= offsets[n]);
            assert forall|k: int| lo <= k < hi - 1 implies #[trigger] is_below_next(values, k) by {
                assert(in_feature(offsets, f, k));
            }
            assert forall|i: int, j: int| 0 <= i < j < c.len() implies (#[trigger] c[i]).key() < (
            #[trigger] c[j]).key() by {
                lemma_neighbours_climb(values, lo, lo + i, lo + j, hi);
            }
        }
        assert(cuts_valid(values, offsets));
    }
    if cuts_valid(values, offsets) {
        assert forall|f: int| 0 <= f < n implies #[trigger] steps_up(offsets, f) by {
            assert(offsets[f] <= offsets[f + 1]);
        }
        assert forall|i: int| 0 <= i < values.len() implies (#[trigger] values[i]).finite() by {
            let f = lemma_feature_of(offsets, i, n);
            let c = cuts_of(values, offsets, f);
            assert(offsets[f + 1] <= offsets[n]);
            assert(strictly_increasing(c));
            assert(c[i - offsets[f]] == values[i]);
        }
        assert forall|f: int, i: int|
            0 <= f < n && #[trigger] in_feature(offsets, f, i) && i + 1 < offsets[f + 1]
                implies is_below_next(values, i) by {
            let c = cuts_of(values, offsets, f);
            assert(offsets[f + 1] <= offsets[n]);
            assert(strictly_increasing(c));
            let k = i - offsets[f];
            assert(c[k] == values[i] && c[k + 1] == values[i + 1]);
            assert(c[k].finite() && c[k + 1].finite());
        }
        assert(are_boundaries(values, offsets));
    }
}

/// Value number `i` belongs to feature `f`.
pub open spec fn in_feature(offsets: Seq<u32>, f: int, i: int) -> bool {
    offsets[f] <= i < offsets[f + 1]
}

proof fn lemma_feature_of(offsets: Seq<u32>, i: int, k: int) -> (f: int)
    requires
        0 <= k < offsets.len(),
        offsets[0] == 0,
        0 <= i < offsets[k],
    ensures
        0 <= f < k,
        in_feature(offsets, f, i),
    decreases k,
{
    if offsets[k - 1] <= i {
        k - 1
    } else {
        lemma_feature_of(offsets, i, k - 1)
    }
}

/// The bins of a histogram over all features: those of a feature start behind one bin more than
/// there are cuts for each feature before it, and there are as many as values and features.
pub proof fn law_bins_follow_one_another(c: BinCuts)
    requires
        c.wf(),
    ensures
        c.hist_offsets@[0] == 0,
        forall|f: int|
            0 <= f < c.spec_n_feats() ==> (#[trigger] c.hist_offsets@[f]) == c.offsets@[f] + f
                && c.hist_offsets@[f + 1] == c.hist_offsets@[f] + c.spec_n_bins(f),
        c.hist_offsets@[c.spec_n_feats()] == c.values@.len() + c.spec_n_feats(),
{
    assert forall|f: int| 0 <= f < c.spec_n_feats() implies (#[trigger] c.hist_offsets@[f])
        == c.offsets@[f] + f && c.hist_offsets@[f + 1] == c.hist_offsets@[f] + c.spec_n_bins(f) by {
        assert(c.hist_offsets[f] == c.offsets[f] + f);
        assert(c.hist_offsets[f + 1] == c.offsets[f + 1] + (f + 1));
    }
    assert(c.hist_offsets[0] == c.offsets[0]);
    assert(c.hist_offsets[c.spec_n_feats()] == c.offsets[c.spec_n_feats()] + c.spec_n_feats());
}

/// How many of the first cuts lie at or below the value.
pub open spec fn bin_of(cuts: Seq<F32>, value: F32) -> int
    decreases cuts.len(),
{
    if cuts.len() == 0 {
        0
    } else {
        bin_of(cuts.drop_last(), value) + if cuts.last().le(value) {
            1int
        } else {
            0
        }
    }
}

/// Where the cuts at or below the value end, the bin is found.
pub proof fn lemma_bin_of_boundary(cuts: Seq<F32>, value: F32, p: int)
    requires
        0 <= p <= cuts.len(),
        forall|i: int| 0 <= i < p ==> (#[trigger] cuts[i]).le(value),
        forall|i: int| p <= i < cuts.len() ==> !(#[trigger] cuts[i]).le(value),
    ensures
        bin_of(cuts, value) == p,
    decreases cuts.len(),
{
    if cuts.len() > 0 {
        let rest = cuts.drop_last();
        assert(forall|i: int| 0 <= i < rest.len() ==> rest[i] == cuts[i]);
        if p == cuts.len() {
            lemma_bin_of_boundary(rest, value, p - 1);
        } else {
            lemma_bin_of_boundary(rest, value, p);
        }
    }
}

/// The bin lies between 0 and the number of cuts.
pub proof fn lemma_bin_of_bounds(cuts: Seq<F32>, value: F32)
    ensures
        0 <= bin_of(cuts, value) <= cuts.len(),
    decreases cuts.len(),
{
    if cuts.len() > 0 {
        lemma_bin_of_bounds(cuts.drop_last(), value);
    }
}

/// A value lies in bin `b` exactly when the cut before `b` is not above it and the cut
/// at `b` is.
pub proof fn law_bin_is_first_cut_above(cuts: Seq<F32>, value: F32)
    requires
        strictly_increasing(cuts),
        !value.nan(),
    ensures
        ({
            let b = bin_of(cuts, value);
            &&& 0 <= b <= cuts.len()
            &&& b < cuts.len() ==> value.lt(cuts[b])
            &&& b > 0 ==> cuts[b - 1].le(value)
        }),
    decreases cuts.len(),
{
    if cuts.len() > 0 {
        let rest = cuts.drop_last();
        assert(forall|i: int| 0 <= i < rest.len() ==> rest[i] == cuts[i]);
        law_bin_is_first_cut_above(rest, value);
        let b = bin_of(rest, value);
        let last = cuts[cuts.len() - 1];
        assert(last.finite());
        if b < rest.len() {
            assert(rest[b].key() < last.key());
        }
    }
}

/// A larger value never gets a smaller bin.
pub proof fn law_bins_are_monotone(cuts: Seq<F32>, a: F32, b: F32)
    requires
        strictly_increasing(cuts),
        a.le(b),
    ensures
        bin_of(cuts, a) <= bin_of(cuts, b),
    decreases cuts.len(),
{
    if cuts.len() > 0 {
        let rest = cuts.drop_last();
        assert(forall|i: int| 0 <= i < rest.len() ==> rest[i] == cuts[i]);
        law_bins_are_monotone(rest, a, b);
    }
}

/// The running bin count of a block never falls.
pub proof fn lemma_block_bins_monotone(c: BinCuts, feat_ids: Seq<FeatId>, i: int, j: int)
    requires
        c.wf(),
        0 <= i <= j <= feat_ids.len(),
        forall|k: int| 0 <= k < feat_ids.len() ==> #[trigger] feat_ids[k] < c.spec_n_feats(),
    ensures
        0 <= c.spec_block_bins(feat_ids, i) <= c.spec_block_bins(feat_ids, j),
    decreases j,
{
    if i < j {
        lemma_block_bins_monotone(c, feat_ids, i, j - 1);
        let f = feat_ids[j - 1] as int;
        assert(c.offsets[f] <= c.offsets[f + 1]);
    } else if i > 0 {
        lemma_block_bins_monotone(c, feat_ids, i - 1, i - 1);
        let f = feat_ids[i - 1] as int;
        assert(c.offsets[f] <= c.offsets[f + 1]);
    }
}

/// A block that holds every feature in order has the offsets of the whole histogram.
pub proof fn law_whole_block_has_global_offsets(c: BinCuts, feat_ids: Seq<FeatId>, k: int)
    requires
        c.wf(),
        feat_ids.len() == c.spec_n_feats(),
        forall|i: int| 0 <= i < feat_ids.len() ==> #[trigger] feat_ids[i] == i,
        0 <= k <= feat_ids.len(),
    ensures
        c.spec_block_bins(feat_ids, k) == c.hist_offsets[k],
    decreases k,
{
    if k > 0 {
        law_whole_block_has_global_offsets(c, feat_ids, k - 1);
        assert(c.hist_offsets[k] == c.offsets[k] + k);
        assert(c.hist_offsets[k - 1] == c.offsets[k - 1] + (k - 1));
        assert(feat_ids[k - 1] == k - 1);
    }
}

/// Where bin boundaries come from.
pub enum BinningStrategy<'a> {
    /// Computed from a sketch of the data.
    Sketch { max_bins: usize },
    /// Given from outside.
    Provided(&'a BinCuts),
}

/// Why bin edges cannot be turned into cuts.
#[derive(Clone, Copy, Debug, PartialEq, Eq, Structural)]
pub enum CutsError {
    /// The range of a feature does not lie within the edges.
    OutOfBounds { feat: usize, lo: u32, hi: u32 },
    /// A cut is infinite or NaN.
    NotFinite { feat: usize, index: usize, value: F32 },
    /// A cut does not lie above the one before it.
    NotIncreasing { feat: usize, index: usize, previous: F32, value: F32 },
}

/// The edges of one feature.
pub open spec fn edge_slice(indptr: Seq<u32>, edges: Seq<F32>, f: int) -> Seq<F32> {
    edges.subrange(indptr[f] as int, indptr[f + 1] as int)
}

/// The range of a feature lies within the edges.
pub open spec fn edges_in_bounds(indptr: Seq<u32>, edges: Seq<F32>, f: int) -> bool {
    indptr[f] <= indptr[f + 1] <= edges.len()
}

/// The cuts among bin edges: without an infinite first edge and without the upper sentinel.
pub open spec fn interior(slice: Seq<F32>) -> Seq<F32> {
    let rest = if slice.len() > 0 && !slice[0].finite() {
        slice.skip(1)
    } else {
        slice
    };
    if rest.len() == 0 {
        rest
    } else {
        rest.drop_last()
    }
}

/// The cuts are the edges between the ends: the last edge only closes the last bin, whatever it is,
/// and a first edge that is not finite only opens the first.
pub proof fn law_cuts_are_the_edges_between_the_ends(cuts: Seq<F32>, first: F32, last: F32)
    requires
        cuts.len() > 0 ==> cuts[0].finite(),
        !first.finite(),
    ensures
        cuts.len() > 0 ==> interior(cuts.push(last)) == cuts,
        interior((seq![first] + cuts).push(last)) == cuts,
        last.finite() ==> interior(cuts.push(last)) == cuts,
        interior(Seq::<F32>::empty()) == Seq::<F32>::empty(),
        interior(seq![first]) == Seq::<F32>::empty(),
{
    let closed = cuts.push(last);
    let opened = (seq![first] + cuts).push(last);
    assert(closed.drop_last() =~= cuts);
    assert(opened[0] == first);
    assert(opened.skip(1) =~= closed);
    assert(seq![first].skip(1) =~= Seq::<F32>::empty());
    if cuts.len() > 0 {
        assert(closed[0] == cuts[0]);
    } else {
        assert(closed[0] == last);
        assert(closed.drop_last() =~= Seq::<F32>::empty());
    }
}

/// A cut that is not finite or not above the one before it.
pub open spec fn bad_cut(s: Seq<F32>, i: int) -> bool {
    !s[i].finite() || (i > 0 && s[i].le(s[i - 1]))
}

/// A feature whose edges give cuts.
pub open spec fn edges_ok(indptr: Seq<u32>, edges: Seq<F32>, f: int) -> bool {
    edges_in_bounds(indptr, edges, f) && strictly_increasing(
        interior(edge_slice(indptr, edges, f)),
    )
}

/// How many cuts the first `k` features have together.
pub open spec fn interior_total(indptr: Seq<u32>, edges: Seq<F32>, k: int) -> int
    decreases k,
{
    if k <= 0 {
        0
    } else {
        interior_total(indptr, edges, k - 1) + if edges_in_bounds(indptr, edges, k - 1) {
            interior(edge_slice(indptr, edges, k - 1)).len() as int
        } else {
            0
        }
    }
}

/// The first cut of `s` that is bad is the one the error names.
pub open spec fn is_cut_error(s: Seq<F32>, feat: int, e: CutsError) -> bool {
    match e {
        CutsError::OutOfBounds { .. } => false,
        CutsError::NotFinite { feat: f, index, value } => {
            &&& f == feat
            &&& index < s.len()
            &&& forall|i: int| 0 <= i < index ==> !#[trigger] bad_cut(s, i)
            &&& value == s[index as int]
            &&& !value.finite()
        },
        CutsError::NotIncreasing { feat: f, index, previous, value } => {
            &&& f == feat
            &&& 0 < index < s.len()
            &&& forall|i: int| 0 <= i < index ==> !#[trigger] bad_cut(s, i)
            &&& value == s[index as int]
            &&& previous == s[index - 1]
            &&& value.finite()
            &&& value.le(previous)
        },
    }
}

/// The error names the first feature whose edges give no cuts, and why.
pub open spec fn is_cuts_error(indptr: Seq<u32>, edges: Seq<F32>, e: CutsError) -> bool {
    exists|f: int|
        {
            &&& 0 <= f < indptr.len() - 1
            &&& !#[trigger] edges_ok(indptr, edges, f)
            &&& forall|g: int| 0 <= g < f ==> #[trigger] edges_ok(indptr, edges, g)
            &&& if edges_in_bounds(indptr, edges, f) {
                is_cut_error(interior(edge_slice(indptr, edges, f)), f, e)
            } else {
                e matches CutsError::OutOfBounds { feat, lo, hi } && feat == f && lo == indptr[f]
                    && hi == indptr[f + 1]
            }
        }
}

/// Cuts without a bad one increase strictly, and only those.
pub proof fn lemma_no_bad_cut(s: Seq<F32>)
    ensures
        strictly_increasing(s) <==> forall|i: int| 0 <= i < s.len() ==> !#[trigger] bad_cut(s, i),
    decreases s.len(),
{
    if s.len() > 0 {
        let rest = s.drop_last();
        let last = s.len() - 1;
        assert(forall|i: int| 0 <= i < rest.len() ==> rest[i] == s[i]);
        assert(forall|i: int|
            0 <= i < rest.len() ==> (#[trigger] bad_cut(rest, i) <==> bad_cut(s, i)));
        lemma_no_bad_cut(rest);
        if forall|i: int| 0 <= i < s.len() ==> !#[trigger] bad_cut(s, i) {
            assert(!bad_cut(s, last));
            assert(strictly_increasing(rest));
            if last > 0 {
                assert(rest[last - 1] == s[last - 1]);
                assert(s[last - 1].finite());
            }
            assert forall|i: int, j: int| 0 <= i < j < s.len() implies (#[trigger] s[i]).key() < (
            #[trigger] s[j]).key() by {
                if j == last {
                    assert(rest[i] == s[i]);
                    assert(rest[last - 1] == s[last - 1]);
                } else {
                    assert(rest[i] == s[i] && rest[j] == s[j]);
                }
            }
            assert forall|i: int| 0 <= i < s.len() implies (#[trigger] s[i]).finite() by {
                if i < last {
                    assert(rest[i] == s[i]);
                }
            }
        }
        if strictly_increasing(s) {
            assert forall|i: int| 0 <= i < s.len() implies !#[trigger] bad_cut(s, i) by {
                assert(s[i].finite());
                if i > 0 {
                    assert(s[i - 1].key() < s[i].key());
                }
            }
        }
    }
}

/// Reports the first cut that is not finite or not above the one before it.
fn check_cuts(feat: usize, s: &[F32]) -> (r: Option<CutsError>)
    ensures
        match r {
            None => strictly_increasing(s@),
            Some(e) => is_cut_error(s@, feat as int, e) && !strictly_increasing(s@),
        },
{
    let mut i: usize = 0;
    while i < s.len()
        invariant
            i <= s@.len(),
            forall|k: int| 0 <= k < i ==> !#[trigger] bad_cut(s@, k),
        decreases s.len() - i,
    {
        let v: F32 = s[i];
        if !v.is_finite() {
            assert(bad_cut(s@, i as int));
            proof {
                lemma_no_bad_cut(s@);
            }
            return Some(CutsError::NotFinite { feat, index: i, value: v });
        }
        if i > 0 && v.less_eq(s[i - 1]) {
            assert(bad_cut(s@, i as int));
            proof {
                lemma_no_bad_cut(s@);
            }
            return Some(CutsError::NotIncreasing { feat, index: i, previous: s[i - 1], value: v });
        }
        i += 1;
    }
    proof {
        lemma_no_bad_cut(s@);
    }
    None
}

/// Cuts off the infinite first edge and the last edge.
fn interior_of(slice: &[F32]) -> (r: &[F32])
    ensures
        r@ == interior(slice@),
{
    let n: usize = slice.len();
    let start: usize = if n > 0 && !slice[0].is_finite() {
        1
    } else {
        0
    };
    let end: usize = if start < n {
        n - 1
    } else {
        start
    };
    vstd::slice::slice_subrange(slice, start, end)
}

/// Appends every value.
fn append_all(values: &mut Vec<F32>, s: &[F32])
    ensures
        final(values)@ == old(values)@ + s@,
{
    let mut i: usize = 0;
    let ghost before = values@;
    while i < s.len()
        invariant
            i <= s@.len(),
            values@ == before + s@.take(i as int),
        decreases s.len() - i,
    {
        values.push(s[i]);
        assert(s@.take(i + 1) == s@.take(i as int).push(s@[i as int]));
        i += 1;
    }
    assert(s@.take(i as int) == s@);
}

/// A longer prefix has at least as many cuts.
proof fn lemma_interior_total_monotone(indptr: Seq<u32>, edges: Seq<F32>, i: int, j: int)
    requires
        0 <= i <= j,
    ensures
        0 <= interior_total(indptr, edges, i) <= interior_total(indptr, edges, j),
    decreases j,
{
    if i < j {
        lemma_interior_total_monotone(indptr, edges, i, j - 1);
    } else if i > 0 {
        lemma_interior_total_monotone(indptr, edges, i - 1, i - 1);
    }
}

impl BinCuts {
    /// Cuts from bin edges that carry an infinite lower edge and an upper sentinel per
    /// feature: both are dropped, and what is left has to be finite and strictly increasing.
    pub fn from_xgboost_edges(indptr: &[u32], edges: &[F32]) -> (r: Result<BinCuts, CutsError>)
        requires
            interior_total(indptr@, edges@, indptr@.len() - 1) + indptr@.len() <= u32::MAX,
        ensures
            r is Ok <==> forall|f: int|
                0 <= f < indptr@.len() - 1 ==> #[trigger] edges_ok(indptr@, edges@, f),
            r matches Ok(c) ==> {
                &&& c.wf()
                &&& c.offsets.len() == imax(indptr@.len() as int, 1)
                &&& forall|f: int|
                    0 <= f < indptr@.len() - 1 ==> #[trigger] c.spec_cuts(f) == interior(
                        edge_slice(indptr@, edges@, f),
                    )
            },
            r matches Err(e) ==> is_cuts_error(indptr@, edges@, e),
    {
        let n_feats: usize = if indptr.len() == 0 {
            0
        } else {
            indptr.len() - 1
        };
        let mut values: Vec<F32> = Vec::new();
        let mut offsets: Vec<u32> = Vec::new();
        offsets.push(0);
        let mut f: usize = 0;
        while f < n_feats
            invariant
                n_feats == imax(indptr@.len() - 1, 0),
                f <= n_feats,
                interior_total(indptr@, edges@, indptr@.len() - 1) + indptr@.len() <= u32::MAX,
                values@.len() == interior_total(indptr@, edges@, f as int),
                offsets@.len() == f + 1,
                offsets_ok(values@, offsets@),
                forall|g: int| 0 <= g < f ==> #[trigger] edges_ok(indptr@, edges@, g),
                forall|g: int|
                    0 <= g < f ==> #[trigger] cuts_of(values@, offsets@, g) == interior(
                        edge_slice(indptr@, edges@, g),
                    ),
            decreases n_feats - f,
        {
            let lo: u32 = indptr[f];
            let hi: u32 = indptr[f + 1];
            if lo > hi || hi as usize > edges.len() {
                assert(!edges_ok(indptr@, edges@, f as int));
                return Err(CutsError::OutOfBounds { feat: f, lo, hi });
            }
            let slice: &[F32] = vstd::slice::slice_subrange(edges, lo as usize, hi as usize);
            let inner: &[F32] = interior_of(slice);
            match check_cuts(f, inner) {
                Some(e) => {
                    assert(!edges_ok(indptr@, edges@, f as int));
                    return Err(e);
                },
                None => {},
            }
            let ghost old_values = values@;
            let ghost old_offsets = offsets@;
            append_all(&mut values, inner);
            proof {
                lemma_interior_total_monotone(indptr@, edges@, f + 1, indptr@.len() - 1);
                assert(edges_ok(indptr@, edges@, f as int));
            }
            offsets.push(values.len() as u32);
            proof {
                assert forall|g: int| 0 <= g < f + 1 implies #[trigger] cuts_of(
                    values@,
                    offsets@,
                    g,
                ) == interior(edge_slice(indptr@, edges@, g)) by {
                    if g < f {
                        assert(offsets@[g + 1] == old_offsets[g + 1]);
                        assert(offsets@[g] == old_offsets[g]);
                        assert(old_offsets[g + 1] <= old_offsets[f as int]);
                        assert(cuts_of(values@, offsets@, g) =~= cuts_of(
                            old_values,
                            old_offsets,
                            g,
                        ));
                    } else {
                        assert(cuts_of(values@, offsets@, g) =~= inner@);
                    }
                }
            }
            f += 1;
        }
        assert forall|g: int| 0 <= g < offsets@.len() - 1 implies strictly_increasing(
            #[trigger] cuts_of(values@, offsets@, g),
        ) by {
            assert(edges_ok(indptr@, edges@, g));
        }
        let c: BinCuts = BinCuts::new(values, offsets);
        assert(forall|g: int|
            0 <= g < n_feats ==> #[trigger] c.spec_cuts(g) == cuts_of(c.values@, c.offsets@, g));
        Ok(c)
    }
}

/// Bytes of histogram that one column block may take.
pub const HIST_BUDGET_BYTES: usize = 262_144;

/// Bytes of one histogram bin: two 64-bit sums.
pub const BYTES_PER_BIN: usize = 16;

/// How many columns' histograms fit the budget, at least one.
pub open spec fn cache_cap(max_bin: int) -> int {
    imax(HIST_BUDGET_BYTES as int / ((imax(max_bin, 1) + 1) * 16), 1)
}

/// As many columns as the budget holds: their histograms fit, and those of one column more do not;
/// one column is always taken.
pub proof fn law_columns_fill_the_budget(max_bin: int)
    requires
        0 <= max_bin,
    ensures
        cache_cap(max_bin) >= 1,
        cache_cap(max_bin) > 1 ==> cache_cap(max_bin) * ((imax(max_bin, 1) + 1) * 16) <= 262_144,
        (cache_cap(max_bin) + 1) * ((imax(max_bin, 1) + 1) * 16) > 262_144,
{
    let w = (imax(max_bin, 1) + 1) * 16;
    let q = 262_144int / w;
    vstd::arithmetic::div_mod::lemma_fundamental_div_mod(262_144, w);
    let c = cache_cap(max_bin);
    assert(q * w <= 262_144 < (q + 1) * w) by (nonlinear_arith)
        requires
            262_144 == w * q + 262_144int % w,
            0 <= 262_144int % w < w,
    ;
    assert((c + 1) * w >= (q + 1) * w) by (nonlinear_arith)
        requires
            c >= q,
            w > 0,
    ;
}

/// The block count that is a multiple `mult` of the threads gives blocks of this width.
pub open spec fn aligned_cols(n_features: int, nthread: int, mult: int) -> int {
    ceil_div(imax(n_features, 1), imax(nthread, 1) * mult)
}

/// A block width such that the number of blocks is the smallest multiple of the thread
/// count at which a block's histogram stays within the budget.
pub fn auto_cols_per_block(n_features: usize, nthread: usize, max_bin: usize) -> (cols: usize)
    requires
        (imax(max_bin as int, 1) + 1) * 16 <= usize::MAX,
    ensures
        1 <= cols <= imax(n_features as int, 1),
        cols <= cache_cap(max_bin as int),
        exists|m: int|
            {
                &&& 1 <= m <= imax(n_features as int, 1)
                &&& cols == #[trigger] aligned_cols(n_features as int, nthread as int, m)
                &&& forall|k: int|
                    1 <= k < m ==> #[trigger] aligned_cols(n_features as int, nthread as int, k)
                        > cache_cap(max_bin as int)
            },
{
    let n: usize = max_usize(n_features, 1);
    let t: usize = max_usize(nthread, 1);
    let bytes_per_feature: usize = (max_usize(max_bin, 1) + 1) * BYTES_PER_BIN;
    let cap: usize = max_usize(HIST_BUDGET_BYTES / bytes_per_feature, 1);
    let mut mult: usize = 1;
    loop
        invariant
            n == imax(n_features as int, 1),
            t == imax(nthread as int, 1),
            cap == cache_cap(max_bin as int),
            1 <= mult <= n,
            forall|k: int|
                1 <= k < mult ==> #[trigger] aligned_cols(n_features as int, nthread as int, k)
                    > cache_cap(max_bin as int),
        decreases n - mult,
    {
        proof {
            assert(t * mult >= mult) by (nonlinear_arith)
                requires
                    t >= 1,
                    mult >= 1,
            ;
            lemma_ceil_div(n as int, t * mult);
            lemma_ceil_div_least(n as int, t * mult, 1);
        }
        let cols: usize = match t.checked_mul(mult) {
            Some(blocks) => div_ceil_usize(n, blocks),
            None => 1,
        };
        assert(cols == aligned_cols(n_features as int, nthread as int, mult as int));
        if cols <= cap {
            return cols;
        }
        mult += 1;
    }
}

/// The features of block `b` when `n_feats` features are cut into blocks of `cols`.
pub open spec fn block_feats(n_feats: int, cols: int, b: int) -> Seq<FeatId> {
    Seq::new(imin(cols, n_feats - b * cols) as nat, |i: int| (b * cols + i) as FeatId)
}

/// Cuts the features into consecutive blocks of `cols_per_block`, the last one possibly
/// narrower.
pub fn partition_features(n_feats: usize, cols_per_block: usize) -> (r: Vec<Vec<FeatId>>)
    requires
        n_feats <= u32::MAX,
        cols_per_block > 0,
    ensures
        r.len() == ceil_div(n_feats as int, cols_per_block as int),
        forall|b: int|
            0 <= b < r.len() ==> #[trigger] r[b]@ == block_feats(
                n_feats as int,
                cols_per_block as int,
                b,
            ),
{
    let mut r: Vec<Vec<FeatId>> = Vec::new();
    let mut start: usize = 0;
    proof {
        lemma_ceil_div(n_feats as int, cols_per_block as int);
        assert(0 * cols_per_block == 0) by (nonlinear_arith);
    }
    while start < n_feats
        invariant
            n_feats <= u32::MAX,
            cols_per_block > 0,
            start <= n_feats,
            start == imin(r.len() * cols_per_block, n_feats as int),
            start < n_feats ==> start == r.len() * cols_per_block,
            r.len() <= ceil_div(n_feats as int, cols_per_block as int),
            start == n_feats ==> r.len() == ceil_div(n_feats as int, cols_per_block as int),
            forall|b: int|
                0 <= b < r.len() ==> #[trigger] r[b]@ == block_feats(
                    n_feats as int,
                    cols_per_block as int,
                    b,
                ),
        decreases n_feats - start,
    {
        let width: usize = min_usize(cols_per_block, n_feats - start);
        let mut block: Vec<FeatId> = Vec::new();
        let mut i: usize = 0;
        while i < width
            invariant
                i <= width,
                n_feats <= u32::MAX,
                start + width <= n_feats,
                block@ == Seq::new(i as nat, |k: int| (start + k) as FeatId),
            decreases width - i,
        {
            block.push((start + i) as FeatId);
            i += 1;
        }
        let ghost b = r.len() as int;
        assert(block@ =~= block_feats(n_feats as int, cols_per_block as int, b));
        proof {
            let c = cols_per_block as int;
            assert((b + 1) * c == b * c + c) by (nonlinear_arith);
            lemma_ceil_div_least(n_feats as int, c, b);
            lemma_ceil_div_least(n_feats as int, c, b + 1);
        }
        r.push(block);
        start = start + width;
    }
    r
}

/// Every feature lies in exactly one block, at the place its number gives.
pub proof fn law_blocks_cover_every_feature_once(n_feats: int, cols: int, f: int)
    requires
        0 <= f < n_feats,
        n_feats <= u32::MAX,
        0 < cols,
    ensures
        0 <= f / cols < ceil_div(n_feats, cols),
        0 <= f % cols < block_feats(n_feats, cols, f / cols).len(),
        block_feats(n_feats, cols, f / cols)[f % cols] == f,
        forall|b: int, i: int|
            0 <= b < ceil_div(n_feats, cols) && 0 <= i < block_feats(n_feats, cols, b).len()
                && #[trigger] block_feats(n_feats, cols, b)[i] == f ==> b == f / cols && i == f
                % cols,
{
    vstd::arithmetic::div_mod::lemma_fundamental_div_mod(f, cols);
    let q = f / cols;
    let rem = f % cols;
    assert(q * cols == cols * q) by (nonlinear_arith);
    assert(q >= 0) by (nonlinear_arith)
        requires
            f == cols * q + rem,
            rem < cols,
            f >= 0,
            cols > 0,
    ;
    lemma_ceil_div_least(n_feats, cols, q);
    assert forall|b: int, i: int|
        0 <= b < ceil_div(n_feats, cols) && 0 <= i < block_feats(n_feats, cols, b).len()
            && #[trigger] block_feats(n_feats, cols, b)[i] == f implies b == f / cols && i == f
        % cols by {
        assert(b * cols >= 0) by (nonlinear_arith)
            requires
                b >= 0,
                cols > 0,
        ;
        lemma_ceil_div_least(n_feats, cols, b);
        assert(f == b * cols + i);
        vstd::arithmetic::div_mod::lemma_fundamental_div_mod_converse(f, cols, b, i);
    }
}

/// The cuts of the first `k` features, one after the other.
pub open spec fn joined_values(per_feat: Seq<Vec<F32>>, k: int) -> Seq<F32>
    decreases k,
{
    if k <= 0 {
        seq![]
    } else {
        joined_values(per_feat, k - 1) + per_feat[k - 1]@
    }
}

/// Cuts that make valid boundaries: each feature's are finite and rise, and all bins can be
/// numbered.
pub open spec fn joinable(per_feat: Seq<Vec<F32>>) -> bool {
    &&& joined_values(per_feat, per_feat.len() as int).len() + per_feat.len() <= u32::MAX
    &&& forall|f: int| 0 <= f < per_feat.len() ==> strictly_increasing((#[trigger] per_feat[f])@)
}

proof fn lemma_joined_grows(per_feat: Seq<Vec<F32>>, k: int, n: int)
    requires
        0 <= k <= n <= per_feat.len(),
    ensures
        joined_values(per_feat, k).len() <= joined_values(per_feat, n).len(),
        joined_values(per_feat, n).take(joined_values(per_feat, k).len() as int)
            == joined_values(per_feat, k),
    decreases n - k,
{
    let a = joined_values(per_feat, k);
    let b = joined_values(per_feat, n);
    if k < n {
        lemma_joined_grows(per_feat, k, n - 1);
        let m = joined_values(per_feat, n - 1);
        assert(b.take(a.len() as int) =~= m.take(a.len() as int));
    } else {
        assert(b.take(a.len() as int) =~= a);
    }
}

/// Are the numbers finite, each larger than the one before?
fn rises(s: &Vec<F32>) -> (r: bool)
    ensures
        r == strictly_increasing(s@),
{
    let mut i: usize = 0;
    while i < s.len()
        invariant
            i <= s@.len(),
            forall|k: int| 0 <= k < i ==> (#[trigger] s@[k]).finite(),
            forall|p: int, q: int|
                0 <= p < q < i ==> (#[trigger] s@[p]).key() < (#[trigger] s@[q]).key(),
        decreases s.len() - i,
    {
        if !s[i].is_finite() {
            assert(!s@[i as int].finite());
            return false;
        }
        if i > 0 && !s[i - 1].less(s[i]) {
            assert(s@[i - 1].finite());
            assert(!(s@[i - 1].key() < s@[i as int].key()));
            return false;
        }
        i += 1;
    }
    true
}

/// Boundaries from the cuts of each feature, or `None` where those are not valid.
pub fn join_cuts(per_feat: &Vec<Vec<F32>>) -> (r: Option<BinCuts>)
    ensures
        match r {
            None => !joinable(per_feat@),
            Some(c) => {
                &&& joinable(per_feat@)
                &&& c.wf()
                &&& c.spec_n_feats() == per_feat@.len()
                &&& forall|f: int|
                    0 <= f < per_feat@.len() ==> #[trigger] c.spec_cuts(f) == per_feat@[f]@
            },
        },
{
    let n: usize = per_feat.len();
    let mut values: Vec<F32> = Vec::new();
    let mut offsets: Vec<u32> = Vec::new();
    offsets.push(0);
    let mut f: usize = 0;
    while f < n
        invariant
            n == per_feat@.len(),
            f <= n,
            values@ == joined_values(per_feat@, f as int),
            offsets@.len() == f + 1,
            forall|k: int|
                0 <= k <= f ==> (#[trigger] offsets@[k]) == joined_values(per_feat@, k).len(),
            values@.len() <= u32::MAX,
            forall|k: int| 0 <= k < f ==> strictly_increasing((#[trigger] per_feat@[k])@),
        decreases n - f,
    {
        if !rises(&per_feat[f]) {
            return None;
        }
        let len: usize = per_feat[f].len();
        proof {
            lemma_joined_grows(per_feat@, f + 1, n as int);
        }
        if len > (u32::MAX as usize) - values.len() {
            return None;
        }
        let mut i: usize = 0;
        let ghost before = values@;
        while i < len
            invariant
                len == per_feat@[f as int]@.len(),
                f < per_feat@.len(),
                i <= len,
                before.len() + len <= u32::MAX,
                values@ == before + per_feat@[f as int]@.take(i as int),
            decreases len - i,
        {
            values.push(per_feat[f][i]);
            assert(per_feat@[f as int]@.take(i + 1) =~= per_feat@[f as int]@.take(i as int).push(
                per_feat@[f as int]@[i as int],
            ));
            i += 1;
        }
        assert(per_feat@[f as int]@.take(i as int) =~= per_feat@[f as int]@);
        offsets.push(values.len() as u32);
        f += 1;
    }
    if n > (u32::MAX as usize) - values.len() {
        return None;
    }
    proof {
        assert forall|i: int, j: int| 0 <= i <= j < offsets@.len() implies offsets@[i]
            <= offsets@[j] by {
            lemma_joined_grows(per_feat@, i, j);
        }
        assert forall|g: int| 0 <= g < offsets@.len() - 1 implies (#[trigger] cuts_of(
            values@,
            offsets@,
            g,
        )) == per_feat@[g]@ by {
            lemma_joined_grows(per_feat@, g + 1, n as int);
            let upto = joined_values(per_feat@, g + 1);
            let start = joined_values(per_feat@, g).len() as int;
            assert(offsets@[g] == start && offsets@[g + 1] == upto.len());
            assert(values@.take(upto.len() as int) == upto);
            assert(cuts_of(values@, offsets@, g) =~= upto.subrange(start, upto.len() as int));
            assert(upto.subrange(start, upto.len() as int) =~= per_feat@[g]@);
        }
    }
    Some(BinCuts::new(values, offsets))
}

} // verus!
