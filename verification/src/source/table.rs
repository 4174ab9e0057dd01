//! Quantized tables: the bins of every feature, cut into column blocks.
use vstd::prelude::*;

use crate::columns::{partition_features, BinCuts, ColumnBlock};
use crate::float32::{
    law_order_is_that_of_the_values, law_what_is_not_a_number, strictly_increasing, value_of, F32,
};
use crate::parallel::map_items;
use crate::types::{Bin, FeatId, MISSING_BIN};

verus! {

/// The bin of a value. A missing value has a code of its own; it is neither zero nor left out.
pub open spec fn bin_value(cuts: BinCuts, f: int, v: F32) -> Bin {
    if v.nan() {
        MISSING_BIN
    } else {
        crate::columns::bin_of(cuts.spec_cuts(f), v) as u8
    }
}

/// The bins of values of one feature.
pub open spec fn bins_of(cuts: BinCuts, f: int, values: Seq<F32>) -> Seq<Bin> {
    values.map_values(|v: F32| bin_value(cuts, f, v))
}

/// The bin of a value.
pub fn quantize_value(cuts: &BinCuts, f: FeatId, v: F32) -> (b: Bin)
    requires
        cuts.wf(),
        f < cuts.spec_n_feats(),
    ensures
        b == bin_value(*cuts, f as int, v),
{
    if v.is_nan() {
        MISSING_BIN
    } else {
        cuts.find_bin(f, v)
    }
}

/// The bin says where a value lies: only what is not a number has the code for missing, and of
/// every other value, negative or zero too, the bin is the number of cuts that are not above it,
/// so the cuts before the bin are at most the value and the cuts from the bin on are above it.
pub proof fn law_bins_tell_where_values_lie(cuts: BinCuts, f: int, v: F32)
    requires
        cuts.wf(),
        0 <= f < cuts.spec_n_feats(),
        cuts.spec_cuts(f).len() < 255,
    ensures
        ({
            let b = bin_value(cuts, f, v);
            let c = cuts.spec_cuts(f);
            let missing = (v.bits / 0x80_0000) % 256 == 255 && v.bits % 0x80_0000 != 0;
            &&& b == 255 <==> missing
            &&& !missing ==> b <= c.len()
            &&& !missing ==> forall|i: int|
                0 <= i < c.len() ==> (i < b <==> value_of(#[trigger] c[i]) <= value_of(v))
        }),
{
    let c = cuts.spec_cuts(f);
    law_what_is_not_a_number(v, v);
    if !v.nan() {
        assert(strictly_increasing(c));
        crate::columns::law_bin_is_first_cut_above(c, v);
        let b = crate::columns::bin_of(c, v);
        assert forall|i: int| 0 <= i < c.len() implies (i < b <==> value_of(#[trigger] c[i])
            <= value_of(v)) by {
            assert(c[i].finite());
            law_order_is_that_of_the_values(c[i], v);
            law_order_is_that_of_the_values(v, c[i]);
            if i < b {
                if i < b - 1 {
                    assert(c[i].key() < c[b - 1].key());
                }
            } else if i > b {
                assert(c[b].key() < c[i].key());
            }
        }
    }
}

/// Bins keep the order of values: of two numbers the smaller never has the larger bin, and both
/// have the same bin exactly where no cut lies between them.
pub proof fn law_bins_keep_the_order(cuts: BinCuts, f: int, a: F32, b: F32)
    requires
        cuts.wf(),
        0 <= f < cuts.spec_n_feats(),
        cuts.spec_cuts(f).len() < 255,
        !a.nan(),
        !b.nan(),
        value_of(a) <= value_of(b),
    ensures
        bin_value(cuts, f, a) <= bin_value(cuts, f, b) < 255,
        bin_value(cuts, f, a) == bin_value(cuts, f, b) <==> forall|i: int|
            0 <= i < cuts.spec_cuts(f).len() ==> !(value_of(a) < value_of(
                #[trigger] cuts.spec_cuts(f)[i],
            ) <= value_of(b)),
{
    let c = cuts.spec_cuts(f);
    law_bins_tell_where_values_lie(cuts, f, a);
    law_bins_tell_where_values_lie(cuts, f, b);
    law_what_is_not_a_number(a, b);
    law_what_is_not_a_number(b, a);
    let x = bin_value(cuts, f, a) as int;
    let y = bin_value(cuts, f, b) as int;
    if x > y {
        assert(value_of(c[y]) <= value_of(a));
        assert(false);
    }
    if x < y {
        assert(value_of(a) < value_of(c[x]) <= value_of(b));
    }
}

/// A bin says where a value lies among the cuts of its feature: it is the code for missing where
/// the value is not a number, and else as many cuts are not above the value as the bin says.
pub open spec fn tells(cuts: Seq<F32>, v: F32, b: Bin) -> bool {
    if (v.bits / 0x80_0000) % 256 == 255 && v.bits % 0x80_0000 != 0 {
        b == 255
    } else {
        b < 255 && b <= cuts.len() && forall|i: int|
            0 <= i < cuts.len() ==> (i < b <==> value_of(#[trigger] cuts[i]) <= value_of(v))
    }
}

/// The bin of a row and a feature lies where the blocks say: blocks of so many features each,
/// features one after the other in a block, and rows one after the other in a feature.
pub proof fn law_place_of_a_cell(t: BlockTable, f: int, row: int)
    requires
        t.wf(),
        0 <= f < t.n_features,
        0 <= row < t.n_rows,
    ensures
        ({
            let block = t.blocks@[f / (t.cols_per_block as int)];
            let local = f % (t.cols_per_block as int);
            &&& 0 <= f / (t.cols_per_block as int) < t.blocks@.len()
            &&& block.feat_ids@[local] == f
            &&& 0 <= local * t.n_rows + row < block.data@.len()
            &&& t.column(f).len() == t.n_rows
            &&& t.column(f)[row] == block.data@[local * t.n_rows + row]
        }),
{
    let c = t.cols_per_block as int;
    crate::columns::law_blocks_cover_every_feature_once(t.n_features as int, c, f);
    let b = f / c;
    let l = f % c;
    let block = t.blocks@[b];
    assert(is_block(block, t.n_features as int, c, b, t.n_rows as int));
    let n = block.feat_ids@.len() as int;
    let rows = t.n_rows as int;
    assert(0 <= l * rows && l * rows + rows <= n * rows) by (nonlinear_arith)
        requires
            0 <= l < n,
            0 <= rows,
    ;
    assert((l + 1) * rows == l * rows + rows) by (nonlinear_arith);
}

/// Where data is asked for that there is not.
#[derive(Clone, Copy, Debug, PartialEq, Eq, Structural)]
pub enum SourceError {
    NoBlock { block: usize, blocks: usize },
    NoFeature { feat: FeatId, features: usize },
    /// A batch has another number of columns than the boundaries have features.
    ColumnCount { got: usize, expected: usize },
}

/// A quantized table in column blocks.
pub struct BlockTable {
    pub cuts: BinCuts,
    pub blocks: Vec<ColumnBlock>,
    pub n_rows: usize,
    pub n_features: usize,
    pub cols_per_block: usize,
}

/// A block holds its group of features.
pub open spec fn is_block(b: ColumnBlock, n_features: int, cols: int, at: int, n_rows: int) -> bool {
    &&& b.wf()
    &&& b.n_rows == n_rows
    &&& b.feat_ids@ == crate::columns::block_feats(n_features, cols, at)
}

impl BlockTable {
    /// The blocks cover the features of the boundaries, each once.
    pub open spec fn wf(&self) -> bool {
        &&& self.cuts.wf()
        &&& self.cuts.spec_n_feats() == self.n_features
        &&& self.n_features <= u32::MAX
        &&& self.cols_per_block > 0
        &&& self.blocks@.len() == crate::math::ceil_div(
            self.n_features as int,
            self.cols_per_block as int,
        )
        &&& forall|b: int|
            0 <= b < self.blocks@.len() ==> is_block(
                #[trigger] self.blocks@[b],
                self.n_features as int,
                self.cols_per_block as int,
                b,
                self.n_rows as int,
            )
    }

    /// The bins of one feature.
    pub open spec fn column(&self, f: int) -> Seq<Bin> {
        self.blocks@[f / (self.cols_per_block as int)].spec_column(f % (self.cols_per_block as int))
    }

    /// How many blocks there are.
    pub fn n_blocks(&self) -> (r: usize)
        ensures
            r == self.blocks@.len(),
    {
        self.blocks.len()
    }

    /// The features of a block.
    pub fn block_features(&self, i: usize) -> (r: Result<Vec<FeatId>, SourceError>)
        ensures
            match r {
                Ok(f) => i < self.blocks@.len() && f@ == self.blocks@[i as int].feat_ids@,
                Err(e) => i >= self.blocks@.len() && e == SourceError::NoBlock {
                    block: i,
                    blocks: self.blocks@.len() as usize,
                },
            },
    {
        if i >= self.blocks.len() {
            return Err(SourceError::NoBlock { block: i, blocks: self.blocks.len() });
        }
        let mut f: Vec<FeatId> = Vec::new();
        let mut k: usize = 0;
        let ids: &Vec<FeatId> = &self.blocks[i].feat_ids;
        while k < ids.len()
            invariant
                k <= ids@.len(),
                f@ == ids@.take(k as int),
            decreases ids.len() - k,
        {
            f.push(ids[k]);
            assert(ids@.take(k + 1) =~= ids@.take(k as int).push(ids@[k as int]));
            k += 1;
        }
        assert(ids@.take(k as int) =~= ids@);
        Ok(f)
    }

    /// A block, without copying it.
    pub fn block(&self, i: usize) -> (r: Result<&ColumnBlock, SourceError>)
        ensures
            match r {
                Ok(b) => i < self.blocks@.len() && *b == self.blocks@[i as int],
                Err(e) => i >= self.blocks@.len() && e == SourceError::NoBlock {
                    block: i,
                    blocks: self.blocks@.len() as usize,
                },
            },
    {
        if i >= self.blocks.len() {
            return Err(SourceError::NoBlock { block: i, blocks: self.blocks.len() });
        }
        Ok(&self.blocks[i])
    }

    /// The bins of one feature.
    pub fn feature_column(&self, feat: FeatId) -> (r: Result<Vec<Bin>, SourceError>)
        requires
            self.wf(),
        ensures
            match r {
                Ok(c) => feat < self.n_features && c@ == self.column(feat as int),
                Err(e) => feat >= self.n_features && e == SourceError::NoFeature {
                    feat,
                    features: self.n_features,
                },
            },
    {
        let f: usize = feat as usize;
        if f >= self.n_features {
            return Err(SourceError::NoFeature { feat, features: self.n_features });
        }
        proof {
            crate::columns::law_blocks_cover_every_feature_once(
                self.n_features as int,
                self.cols_per_block as int,
                feat as int,
            );
        }
        let b: usize = f / self.cols_per_block;
        let local: usize = f % self.cols_per_block;
        assert(is_block(
            self.blocks@[b as int],
            self.n_features as int,
            self.cols_per_block as int,
            b as int,
            self.n_rows as int,
        ));
        let column: &[Bin] = self.blocks[b].column(local);
        let mut out: Vec<Bin> = Vec::new();
        let mut i: usize = 0;
        while i < column.len()
            invariant
                i <= column@.len(),
                out@ == column@.take(i as int),
            decreases column.len() - i,
        {
            out.push(column[i]);
            assert(column@.take(i + 1) =~= column@.take(i as int).push(column@[i as int]));
            i += 1;
        }
        assert(column@.take(i as int) =~= column@);
        Ok(out)
    }

    /// The bin of one feature in one row.
    pub fn bin_at(&self, row: usize, feat: FeatId) -> (r: Bin)
        requires
            self.wf(),
            row < self.n_rows,
            feat < self.n_features,
        ensures
            r == self.column(feat as int)[row as int],
    {
        proof {
            crate::columns::law_blocks_cover_every_feature_once(
                self.n_features as int,
                self.cols_per_block as int,
                feat as int,
            );
        }
        let f: usize = feat as usize;
        let b: usize = f / self.cols_per_block;
        let local: usize = f % self.cols_per_block;
        assert(is_block(
            self.blocks@[b as int],
            self.n_features as int,
            self.cols_per_block as int,
            b as int,
            self.n_rows as int,
        ));
        self.blocks[b].column(local)[row]
    }
}

/// Columns that are quantized batch by batch.
pub struct QuantizeBuilder {
    pub cuts: BinCuts,
    /// The bins so far of each feature.
    pub columns: Vec<Vec<Bin>>,
    pub n_rows: usize,
}

impl QuantizeBuilder {
    /// Every feature of the boundaries has the same number of bins so far.
    pub open spec fn wf(&self) -> bool {
        &&& self.cuts.wf()
        &&& self.columns@.len() == self.cuts.spec_n_feats()
        &&& forall|f: int|
            0 <= f < self.columns@.len() ==> (#[trigger] self.columns@[f])@.len() == self.n_rows
    }

    /// No rows yet.
    pub fn new(cuts: BinCuts) -> (r: Self)
        requires
            cuts.wf(),
        ensures
            r.wf(),
            r.cuts == cuts,
            r.n_rows == 0,
            forall|f: int|
                0 <= f < r.columns@.len() ==> (#[trigger] r.columns@[f])@ == Seq::<Bin>::empty(),
    {
        let n: usize = cuts.n_feats();
        let mut columns: Vec<Vec<Bin>> = Vec::new();
        let mut f: usize = 0;
        while f < n
            invariant
                f <= n,
                columns@.len() == f,
                forall|k: int|
                    0 <= k < f ==> (#[trigger] columns@[k])@ == Seq::<Bin>::empty(),
            decreases n - f,
        {
            let empty: Vec<Bin> = Vec::new();
            assert(empty@ =~= Seq::<Bin>::empty());
            columns.push(empty);
            f += 1;
        }
        QuantizeBuilder { cuts, columns, n_rows: 0 }
    }

    /// Takes a batch of `n` rows: a column for each feature. Rows follow those that are there.
    pub fn add_batch(&mut self, batch: &[Vec<F32>], n: usize) -> (r: Result<(), SourceError>)
        requires
            old(self).wf(),
            forall|f: int| 0 <= f < batch@.len() ==> (#[trigger] batch@[f])@.len() == n,
            old(self).n_rows + n <= usize::MAX,
        ensures
            final(self).wf(),
            final(self).cuts == old(self).cuts,
            match r {
                Ok(()) => {
                    &&& batch@.len() == old(self).columns@.len()
                    &&& final(self).n_rows == old(self).n_rows + n
                    &&& forall|f: int|
                        0 <= f < batch@.len() ==> (#[trigger] final(self).columns@[f])@ == old(
                            self,
                        ).columns@[f]@ + bins_of(old(self).cuts, f, batch@[f]@)
                },
                Err(e) => {
                    &&& batch@.len() != old(self).columns@.len()
                    &&& *final(self) == *old(self)
                    &&& e == SourceError::ColumnCount {
                        got: batch@.len() as usize,
                        expected: old(self).columns@.len() as usize,
                    }
                },
            },
    {
        let n_feats: usize = self.columns.len();
        let got: usize = batch.len();
        if got != n_feats {
            return Err(SourceError::ColumnCount { got, expected: n_feats });
        }
        let ghost before = *self;
        let mut columns: Vec<Vec<Bin>> = Vec::new();
        std::mem::swap(&mut columns, &mut self.columns);
        let cuts: &BinCuts = &self.cuts;
        let one = |f: usize, c: Vec<Bin>| -> (r: Vec<Bin>)
            requires
                f < batch@.len(),
                batch@.len() == cuts.spec_n_feats(),
                cuts.wf(),
            ensures
                r@ == c@ + bins_of(*cuts, f as int, batch@[f as int]@),
            {
                let mut c: Vec<Bin> = c;
                extend_bins(&mut c, cuts, f as FeatId, &batch[f]);
                c
            };
        let mut columns: Vec<Vec<Bin>> = map_items(columns, one);
        proof {
            assert forall|k: int| 0 <= k < n_feats implies (#[trigger] columns@[k])@
                == before.columns@[k]@ + bins_of(before.cuts, k, batch@[k]@) by {
                assert(one.ensures((k as usize, before.columns@[k]), columns@[k]));
            }
        }
        std::mem::swap(&mut columns, &mut self.columns);
        self.n_rows = self.n_rows + n;
        proof {
            assert forall|k: int| 0 <= k < self.columns@.len() implies (
            #[trigger] self.columns@[k])@.len() == self.n_rows by {
                assert(self.columns@[k]@ == before.columns@[k]@ + bins_of(
                    before.cuts,
                    k,
                    batch@[k]@,
                ));
                assert(before.columns@[k]@.len() == before.n_rows);
                assert(batch@[k]@.len() == n);
            }
        }
        Ok(())
    }

    /// Cuts the columns into blocks.
    pub fn finish(self, cols_per_block: usize) -> (t: BlockTable)
        requires
            self.wf(),
            cols_per_block > 0,
        ensures
            t.wf(),
            t.cuts == self.cuts,
            t.n_rows == self.n_rows,
            t.cols_per_block == cols_per_block,
            forall|f: int|
                0 <= f < self.columns@.len() ==> #[trigger] t.column(f) == self.columns@[f]@,
    {
        let n_features: usize = self.columns.len();
        let groups: Vec<Vec<FeatId>> = partition_features(n_features, cols_per_block);
        let n_rows: usize = self.n_rows;
        let mut blocks: Vec<ColumnBlock> = Vec::new();
        let mut b: usize = 0;
        while b < groups.len()
            invariant
                b <= groups@.len(),
                cols_per_block > 0,
                self.wf(),
                n_rows == self.n_rows,
                n_features == self.columns@.len(),
                n_features <= u32::MAX,
                groups@.len() == crate::math::ceil_div(n_features as int, cols_per_block as int),
                forall|k: int|
                    0 <= k < groups@.len() ==> (#[trigger] groups@[k])@
                        == crate::columns::block_feats(
                        n_features as int,
                        cols_per_block as int,
                        k,
                    ),
                blocks@.len() == b,
                forall|k: int|
                    0 <= k < b ==> is_block(
                        #[trigger] blocks@[k],
                        n_features as int,
                        cols_per_block as int,
                        k,
                        n_rows as int,
                    ),
                forall|k: int, l: int|
                    0 <= k < b && 0 <= l < groups@[k]@.len() ==> #[trigger] blocks@[k].spec_column(l)
                        == self.columns@[groups@[k]@[l] as int]@,
            decreases groups.len() - b,
        {
            proof {
                assert(groups@[b as int]@ == crate::columns::block_feats(
                    n_features as int,
                    cols_per_block as int,
                    b as int,
                ));
                assert forall|l: int| 0 <= l < groups@[b as int]@.len() implies (
                #[trigger] groups@[b as int]@[l]) < n_features by {
                    lemma_block_feat_in_range(
                        n_features as int,
                        cols_per_block as int,
                        b as int,
                        l,
                    );
                }
            }
            let block: ColumnBlock = gather(&groups[b], &self.columns, n_rows);
            let ghost done = blocks@;
            blocks.push(block);
            proof {
                assert forall|k: int, l: int|
                    0 <= k < b + 1 && 0 <= l < groups@[k]@.len() implies #[trigger] blocks@[k].spec_column(
                    l,
                ) == self.columns@[groups@[k]@[l] as int]@ by {
                    if k < b {
                        assert(blocks@[k] == done[k]);
                    }
                }
                assert forall|k: int| 0 <= k < b + 1 implies is_block(
                    #[trigger] blocks@[k],
                    n_features as int,
                    cols_per_block as int,
                    k,
                    n_rows as int,
                ) by {
                    if k < b {
                        assert(blocks@[k] == done[k]);
                    }
                }
            }
            b += 1;
        }
        let t: BlockTable = BlockTable {
            cuts: self.cuts,
            blocks,
            n_rows,
            n_features,
            cols_per_block,
        };
        proof {
            assert forall|f: int| 0 <= f < self.columns@.len() implies #[trigger] t.column(f)
                == self.columns@[f]@ by {
                crate::columns::law_blocks_cover_every_feature_once(
                    n_features as int,
                    cols_per_block as int,
                    f,
                );
                let k = f / (cols_per_block as int);
                let l = f % (cols_per_block as int);
                assert(groups@[k]@[l] == f);
                assert(t.blocks@[k].spec_column(l) == self.columns@[groups@[k]@[l] as int]@);
            }
        }
        t
    }
}

proof fn lemma_block_feat_in_range(n_features: int, cols: int, b: int, l: int)
    requires
        0 <= n_features <= u32::MAX,
        cols > 0,
        0 <= b < crate::math::ceil_div(n_features, cols),
        0 <= l < crate::columns::block_feats(n_features, cols, b).len(),
    ensures
        crate::columns::block_feats(n_features, cols, b)[l] < n_features,
{
    assert(b * cols >= 0) by (nonlinear_arith)
        requires
            b >= 0,
            cols > 0,
    ;
    crate::math::lemma_ceil_div_least(n_features, cols, b);
}

/// Puts the bins of more values behind a column.
pub(crate) fn extend_bins(column: &mut Vec<Bin>, cuts: &BinCuts, f: FeatId, values: &Vec<F32>)
    requires
        cuts.wf(),
        f < cuts.spec_n_feats(),
    ensures
        final(column)@ == old(column)@ + bins_of(*cuts, f as int, values@),
{
    let ghost before = column@;
    let ghost bins = bins_of(*cuts, f as int, values@);
    let mut k: usize = 0;
    assert(column@ =~= before + bins.take(0));
    while k < values.len()
        invariant
            cuts.wf(),
            f < cuts.spec_n_feats(),
            k <= values@.len(),
            bins == bins_of(*cuts, f as int, values@),
            column@ == before + bins.take(k as int),
        decreases values.len() - k,
    {
        let b: Bin = quantize_value(cuts, f, values[k]);
        assert(bins[k as int] == b);
        column.push(b);
        assert(before + bins.take(k + 1) =~= (before + bins.take(k as int)).push(b));
        k += 1;
    }
    assert(bins.take(k as int) =~= bins);
}

/// A block of some columns.
fn gather(feats: &Vec<FeatId>, columns: &Vec<Vec<Bin>>, n_rows: usize) -> (r: ColumnBlock)
    requires
        forall|l: int| 0 <= l < feats@.len() ==> (#[trigger] feats@[l]) < columns@.len(),
        forall|f: int| 0 <= f < columns@.len() ==> (#[trigger] columns@[f])@.len() == n_rows,
    ensures
        r.wf(),
        r.n_rows == n_rows,
        r.feat_ids@ == feats@,
        forall|l: int|
            0 <= l < feats@.len() ==> #[trigger] r.spec_column(l) == columns@[feats@[l] as int]@,
{
    let mut feat_ids: Vec<FeatId> = Vec::new();
    let mut data: Vec<Bin> = Vec::new();
    let mut l: usize = 0;
    while l < feats.len()
        invariant
            l <= feats@.len(),
            forall|k: int| 0 <= k < feats@.len() ==> (#[trigger] feats@[k]) < columns@.len(),
            forall|f: int| 0 <= f < columns@.len() ==> (#[trigger] columns@[f])@.len() == n_rows,
            feat_ids@ == feats@.take(l as int),
            data@.len() == l * n_rows,
            forall|k: int|
                0 <= k < l ==> #[trigger] data@.subrange(k * n_rows, k * n_rows + n_rows)
                    == columns@[feats@[k] as int]@,
        decreases feats.len() - l,
    {
        assert(feats@[l as int] < columns@.len());
        let column: &Vec<Bin> = &columns[feats[l] as usize];
        assert(columns@[feats@[l as int] as int]@.len() == n_rows);
        let ghost before = data@;
        let mut i: usize = 0;
        assert(before + column@.take(0) =~= before);
        while i < column.len()
            invariant
                i <= column@.len(),
                data@ == before + column@.take(i as int),
            decreases column.len() - i,
        {
            data.push(column[i]);
            assert(before + column@.take(i + 1) =~= (before + column@.take(i as int)).push(
                column@[i as int],
            ));
            i += 1;
        }
        feat_ids.push(feats[l]);
        proof {
            assert(column@.take(i as int) =~= column@);
            assert(feats@.take(l + 1) =~= feats@.take(l as int).push(feats@[l as int]));
            assert((l + 1) * n_rows == l * n_rows + n_rows) by (nonlinear_arith);
            assert forall|k: int| 0 <= k < l + 1 implies #[trigger] data@.subrange(
                k * n_rows,
                k * n_rows + n_rows,
            ) == columns@[feats@[k] as int]@ by {
                if k < l {
                    assert(0 <= k * n_rows && k * n_rows + n_rows <= l * n_rows)
                        by (nonlinear_arith)
                        requires
                            0 <= k < l,
                            0 <= n_rows,
                    ;
                    assert(data@.subrange(k * n_rows, k * n_rows + n_rows) =~= before.subrange(
                        k * n_rows,
                        k * n_rows + n_rows,
                    ));
                } else {
                    assert(k == l);
                    assert(data@.subrange(k * n_rows, k * n_rows + n_rows) =~= column@);
                }
            }
        }
        l += 1;
    }
    assert(feats@.take(l as int) =~= feats@);
    let r: ColumnBlock = ColumnBlock { feat_ids, data, n_rows };
    assert forall|k: int| 0 <= k < feats@.len() implies #[trigger] r.spec_column(k)
        == columns@[feats@[k] as int]@ by {
        assert(data@.subrange(k * n_rows, k * n_rows + n_rows) == columns@[feats@[k] as int]@);
    }
    r
}

/// How a column is cut into batches does not matter: the bins of two parts, one after the other,
/// are the bins of the whole.
pub proof fn law_batch_boundaries_do_not_matter(cuts: BinCuts, f: int, a: Seq<F32>, b: Seq<F32>)
    ensures
        bins_of(cuts, f, a + b) == bins_of(cuts, f, a) + bins_of(cuts, f, b),
{
    assert(bins_of(cuts, f, a + b) =~= bins_of(cuts, f, a) + bins_of(cuts, f, b));
}

} // verus!
