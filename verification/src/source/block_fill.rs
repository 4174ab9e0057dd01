//! One column block, quantized from batches that hold its columns alone.
//!
//! A block whose data does not stay in memory is made on its own: only its columns are read, so
//! no other column is decoded.
use vstd::prelude::*;

use super::arrow_source::{count_rows, holds_batches, lemma_rows_grow, rows_of, Batch};
use super::table::{bins_of, extend_bins, BlockTable};
use crate::columns::{BinCuts, ColumnBlock};
use crate::types::{Bin, FeatId};

verus! {

/// Why no block comes out.
#[derive(Clone, Copy, Debug, PartialEq, Eq, Structural)]
pub enum FillError {
    /// A batch has another number of columns than the block.
    ColumnCount { got: usize, expected: usize },
    /// The batches have another number of rows than the block.
    Rows { read: usize, expected: usize },
}

/// A block in the making.
pub struct BlockFill {
    /// The global numbers of the features in the block.
    pub feat_ids: Vec<FeatId>,
    /// The bins so far of each feature.
    pub columns: Vec<Vec<Bin>>,
    pub n_rows: usize,
}

impl BlockFill {
    /// Every feature of the block has the same number of bins so far.
    pub open spec fn wf(&self) -> bool {
        &&& self.columns@.len() == self.feat_ids@.len()
        &&& forall|l: int|
            0 <= l < self.columns@.len() ==> (#[trigger] self.columns@[l])@.len() == self.n_rows
    }

    /// No rows yet.
    pub fn new(feat_ids: Vec<FeatId>) -> (r: Self)
        ensures
            r.wf(),
            r.feat_ids == feat_ids,
            r.n_rows == 0,
            forall|l: int|
                0 <= l < r.columns@.len() ==> (#[trigger] r.columns@[l])@ == Seq::<Bin>::empty(),
    {
        let mut columns: Vec<Vec<Bin>> = Vec::new();
        let mut l: usize = 0;
        while l < feat_ids.len()
            invariant
                l <= feat_ids@.len(),
                columns@.len() == l,
                forall|k: int|
                    0 <= k < l ==> (#[trigger] columns@[k])@ == Seq::<Bin>::empty(),
            decreases feat_ids.len() - l,
        {
            let empty: Vec<Bin> = Vec::new();
            assert(empty@ =~= Seq::<Bin>::empty());
            columns.push(empty);
            l += 1;
        }
        BlockFill { feat_ids, columns, n_rows: 0 }
    }

    /// Takes a batch: a column for each feature of the block. Rows follow those that are there.
    pub fn add_batch(&mut self, cuts: &BinCuts, batch: &Batch) -> (r: Result<(), FillError>)
        requires
            old(self).wf(),
            batch.wf(),
            cuts.wf(),
            forall|l: int|
                0 <= l < old(self).feat_ids@.len() ==> (#[trigger] old(self).feat_ids@[l])
                    < cuts.spec_n_feats(),
            old(self).n_rows + batch.n_rows <= usize::MAX,
        ensures
            final(self).wf(),
            final(self).feat_ids == old(self).feat_ids,
            match r {
                Ok(()) => {
                    &&& batch.columns@.len() == old(self).feat_ids@.len()
                    &&& final(self).n_rows == old(self).n_rows + batch.n_rows
                    &&& forall|l: int|
                        0 <= l < batch.columns@.len() ==> (#[trigger] final(self).columns@[l])@
                            == old(self).columns@[l]@ + bins_of(
                            *cuts,
                            old(self).feat_ids@[l] as int,
                            batch.columns@[l]@,
                        )
                },
                Err(e) => {
                    &&& batch.columns@.len() != old(self).feat_ids@.len()
                    &&& *final(self) == *old(self)
                    &&& e == FillError::ColumnCount {
                        got: batch.columns@.len() as usize,
                        expected: old(self).feat_ids@.len() as usize,
                    }
                },
            },
    {
        let n: usize = self.feat_ids.len();
        if batch.columns.len() != n {
            return Err(FillError::ColumnCount { got: batch.columns.len(), expected: n });
        }
        let ghost before = *self;
        let mut l: usize = 0;
        while l < n
            invariant
                before.wf(),
                batch.wf(),
                cuts.wf(),
                self.feat_ids == before.feat_ids,
                self.n_rows == before.n_rows,
                self.columns@.len() == n,
                n == before.feat_ids@.len(),
                n == batch.columns@.len(),
                l <= n,
                forall|k: int|
                    0 <= k < before.feat_ids@.len() ==> (#[trigger] before.feat_ids@[k])
                        < cuts.spec_n_feats(),
                forall|k: int|
                    0 <= k < l ==> (#[trigger] self.columns@[k])@ == before.columns@[k]@ + bins_of(
                        *cuts,
                        before.feat_ids@[k] as int,
                        batch.columns@[k]@,
                    ),
                forall|k: int|
                    l <= k < n ==> (#[trigger] self.columns@[k])@ == before.columns@[k]@,
            decreases n - l,
        {
            let f: FeatId = self.feat_ids[l];
            extend_bins(&mut self.columns[l], cuts, f, &batch.columns[l]);
            l += 1;
        }
        self.n_rows = self.n_rows + batch.n_rows;
        proof {
            assert forall|k: int| 0 <= k < self.columns@.len() implies (
            #[trigger] self.columns@[k])@.len() == self.n_rows by {
                assert(before.columns@[k]@.len() == before.n_rows);
                assert(batch.columns@[k]@.len() == batch.n_rows);
            }
        }
        Ok(())
    }

    /// The block, if as many rows came as it should have.
    pub fn finish(self, n_rows: usize) -> (r: Result<ColumnBlock, FillError>)
        requires
            self.wf(),
        ensures
            match r {
                Ok(b) => {
                    &&& self.n_rows == n_rows
                    &&& b.wf()
                    &&& b.n_rows == n_rows
                    &&& b.feat_ids == self.feat_ids
                    &&& forall|l: int|
                        0 <= l < self.columns@.len() ==> #[trigger] b.spec_column(l)
                            == self.columns@[l]@
                },
                Err(e) => self.n_rows != n_rows && e == (FillError::Rows {
                    read: self.n_rows,
                    expected: n_rows,
                }),
            },
    {
        if self.n_rows != n_rows {
            return Err(FillError::Rows { read: self.n_rows, expected: n_rows });
        }
        let data: Vec<Bin> = stack(&self.columns, n_rows);
        let b: ColumnBlock = ColumnBlock { feat_ids: self.feat_ids, data, n_rows };
        proof {
            assert forall|l: int| 0 <= l < self.columns@.len() implies #[trigger] b.spec_column(l)
                == self.columns@[l]@ by {
                assert(b.data@.subrange(l * n_rows, l * n_rows + n_rows) == self.columns@[l]@);
            }
        }
        Ok(b)
    }
}

/// Columns of equal length, one after the other.
fn stack(columns: &Vec<Vec<Bin>>, n_rows: usize) -> (data: Vec<Bin>)
    requires
        forall|l: int| 0 <= l < columns@.len() ==> (#[trigger] columns@[l])@.len() == n_rows,
    ensures
        data@.len() == columns@.len() * n_rows,
        forall|l: int|
            0 <= l < columns@.len() ==> #[trigger] data@.subrange(l * n_rows, l * n_rows + n_rows)
                == columns@[l]@,
{
    let mut data: Vec<Bin> = Vec::new();
    let mut l: usize = 0;
    while l < columns.len()
        invariant
            l <= columns@.len(),
            forall|k: int| 0 <= k < columns@.len() ==> (#[trigger] columns@[k])@.len() == n_rows,
            data@.len() == l * n_rows,
            forall|k: int|
                0 <= k < l ==> #[trigger] data@.subrange(k * n_rows, k * n_rows + n_rows)
                    == columns@[k]@,
        decreases columns.len() - l,
    {
        let column: &Vec<Bin> = &columns[l];
        assert(column@.len() == n_rows);
        let ghost before = data@;
        let mut i: usize = 0;
        assert(before + column@.take(0) =~= before);
        while i < column.len()
            invariant
                i <= column@.len(),
                data@ == before + column@.take(i as int),
            decreases column.len() - i,
        {
            data.push(column[i]);
            assert(before + column@.take(i + 1) =~= (before + column@.take(i as int)).push(
                column@[i as int],
            ));
            i += 1;
        }
        proof {
            assert(column@.take(i as int) =~= column@);
            assert((l + 1) * n_rows == l * n_rows + n_rows) by (nonlinear_arith);
            assert forall|k: int| 0 <= k < l + 1 implies #[trigger] data@.subrange(
                k * n_rows,
                k * n_rows + n_rows,
            ) == columns@[k]@ by {
                if k < l {
                    crate::columns::lemma_column_in_bounds(k, l as int, n_rows as int);
                    assert(data@.subrange(k * n_rows, k * n_rows + n_rows) =~= before.subrange(
                        k * n_rows,
                        k * n_rows + n_rows,
                    ));
                } else {
                    assert(data@.subrange(k * n_rows, k * n_rows + n_rows) =~= column@);
                }
            }
        }
        l += 1;
    }
    data
}

/// A block holds the bins of the batches' columns, batch after batch.
pub open spec fn block_holds(
    b: ColumnBlock,
    cuts: BinCuts,
    feats: Seq<FeatId>,
    batches: Seq<Batch>,
) -> bool {
    &&& b.wf()
    &&& b.feat_ids@ == feats
    &&& b.n_rows == count_rows(batches, batches.len() as int)
    &&& forall|l: int|
        0 <= l < feats.len() ==> #[trigger] b.spec_column(l) == bins_of(
            cuts,
            feats[l] as int,
            rows_of(batches, l, batches.len() as int),
        )
}

/// Batch `k` is the first whose number of columns is not `width`.
pub open spec fn odd_batch(batches: Seq<Batch>, width: int, k: int) -> bool {
    &&& 0 <= k < batches.len()
    &&& batches[k].columns@.len() != width
    &&& forall|j: int| 0 <= j < k ==> (#[trigger] batches[j]).columns@.len() == width
}

/// The first batch whose number of columns is not `width` has `got`.
pub open spec fn first_odd_width(batches: Seq<Batch>, width: int, got: int) -> bool {
    exists|k: int| #[trigger] odd_batch(batches, width, k) && got == batches[k].columns@.len()
}

/// Quantizes the columns of one block, batch after batch.
pub fn quantize_block(batches: &[Batch], cuts: &BinCuts, feat_ids: Vec<FeatId>, n_rows: usize) -> (r:
    Result<ColumnBlock, FillError>)
    requires
        cuts.wf(),
        forall|l: int|
            0 <= l < feat_ids@.len() ==> (#[trigger] feat_ids@[l]) < cuts.spec_n_feats(),
        forall|k: int| 0 <= k < batches@.len() ==> (#[trigger] batches@[k]).wf(),
        count_rows(batches@, batches@.len() as int) <= usize::MAX,
    ensures
        match r {
            Ok(b) => {
                &&& forall|k: int|
                    0 <= k < batches@.len() ==> (#[trigger] batches@[k]).columns@.len()
                        == feat_ids@.len()
                &&& b.n_rows == n_rows
                &&& block_holds(b, *cuts, feat_ids@, batches@)
            },
            Err(FillError::ColumnCount { got, expected }) => expected == feat_ids@.len()
                && first_odd_width(batches@, feat_ids@.len() as int, got as int),
            Err(FillError::Rows { read, expected }) => {
                &&& forall|k: int|
                    0 <= k < batches@.len() ==> (#[trigger] batches@[k]).columns@.len()
                        == feat_ids@.len()
                &&& read == count_rows(batches@, batches@.len() as int)
                &&& expected == n_rows
                &&& read != expected
            },
        },
{
    let ghost feats = feat_ids@;
    let mut fill: BlockFill = BlockFill::new(feat_ids);
    let mut k: usize = 0;
    proof {
        assert forall|l: int| 0 <= l < feats.len() implies (#[trigger] fill.columns@[l])@
            == bins_of(*cuts, feats[l] as int, rows_of(batches@, l, 0)) by {
            assert(bins_of(*cuts, feats[l] as int, rows_of(batches@, l, 0)) =~= Seq::<Bin>::empty());
        }
    }
    while k < batches.len()
        invariant
            k <= batches@.len(),
            cuts.wf(),
            fill.wf(),
            fill.feat_ids@ == feats,
            feats == feat_ids@,
            forall|l: int| 0 <= l < feats.len() ==> (#[trigger] feats[l]) < cuts.spec_n_feats(),
            forall|j: int| 0 <= j < batches@.len() ==> (#[trigger] batches@[j]).wf(),
            count_rows(batches@, batches@.len() as int) <= usize::MAX,
            fill.n_rows == count_rows(batches@, k as int),
            forall|j: int|
                0 <= j < k ==> (#[trigger] batches@[j]).columns@.len() == feats.len(),
            forall|l: int|
                0 <= l < feats.len() ==> (#[trigger] fill.columns@[l])@ == bins_of(
                    *cuts,
                    feats[l] as int,
                    rows_of(batches@, l, k as int),
                ),
        decreases batches.len() - k,
    {
        let batch: &Batch = &batches[k];
        proof {
            lemma_rows_grow(batches@, k + 1, batches@.len() as int);
            assert(batches@[k as int].wf());
        }
        let ghost before = fill;
        match fill.add_batch(cuts, batch) {
            Err(e) => {
                proof {
                    assert(odd_batch(batches@, feats.len() as int, k as int));
                    assert(first_odd_width(
                        batches@,
                        feats.len() as int,
                        batch.columns@.len() as int,
                    ));
                    assert(before.feat_ids.len() == feats.len());
                    assert(batch.columns.len() == batch.columns@.len());
                }
                return Err(e);
            },
            Ok(()) => {},
        }
        proof {
            assert forall|l: int| 0 <= l < feats.len() implies (#[trigger] fill.columns@[l])@
                == bins_of(*cuts, feats[l] as int, rows_of(batches@, l, k + 1)) by {
                assert(before.columns@[l]@ == bins_of(
                    *cuts,
                    feats[l] as int,
                    rows_of(batches@, l, k as int),
                ));
                super::table::law_batch_boundaries_do_not_matter(
                    *cuts,
                    feats[l] as int,
                    rows_of(batches@, l, k as int),
                    batch.columns@[l]@,
                );
            }
        }
        k += 1;
    }
    fill.finish(n_rows)
}

/// Batches that hold the columns `feats` of other batches.
pub open spec fn are_columns_of(parts: Seq<Batch>, whole: Seq<Batch>, feats: Seq<FeatId>) -> bool {
    &&& parts.len() == whole.len()
    &&& forall|k: int, l: int|
        0 <= k < parts.len() && 0 <= l < feats.len() ==> #[trigger] parts[k].columns@[l]@
            == whole[k].columns@[feats[l] as int]@
}

proof fn lemma_same_rows(parts: Seq<Batch>, whole: Seq<Batch>, feats: Seq<FeatId>, l: int, n: int)
    requires
        are_columns_of(parts, whole, feats),
        0 <= l < feats.len(),
        0 <= n <= parts.len(),
    ensures
        rows_of(parts, l, n) == rows_of(whole, feats[l] as int, n),
    decreases n,
{
    if n > 0 {
        lemma_same_rows(parts, whole, feats, l, n - 1);
        assert(parts[n - 1].columns@[l]@ == whole[n - 1].columns@[feats[l] as int]@);
    }
}

/// A block that is read on its own has the bins that the whole table has for its features: which
/// columns are read together does not matter.
pub proof fn law_block_matches_the_table(
    b: ColumnBlock,
    parts: Seq<Batch>,
    feats: Seq<FeatId>,
    t: BlockTable,
    whole: Seq<Batch>,
    l: int,
)
    requires
        block_holds(b, t.cuts, feats, parts),
        holds_batches(t, whole),
        are_columns_of(parts, whole, feats),
        0 <= l < feats.len(),
        feats[l] < t.n_features,
    ensures
        b.spec_column(l) == t.column(feats[l] as int),
{
    lemma_same_rows(parts, whole, feats, l, parts.len() as int);
}

} // verus!
