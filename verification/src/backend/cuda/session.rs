//! Sessions on a training context: which slot a block goes to, what is uploaded, and how a
//! block is staged into row-major order.
use vstd::prelude::*;

use crate::backend::cuda::batch::unpack_pairs;
use crate::backend::cuda::histogram::is_monotone;
use crate::backend::cuda::partition::PartitionError;
use crate::backend::cuda::train_ctx::{GpuHostMemoryBudget, GpuMemoryBudget, GpuTrainCtx};
use crate::columns::lemma_column_in_bounds;
use crate::float32::F32;
use crate::hist::{monotone, node_sum, row_sum, rows_of, GradPairFixed};
use crate::inference::is_addition;
use crate::math::{ceil_div, div_ceil, imax, imin, max_usize, min_u64, min_usize};
use crate::types::{Bin, Objective, PredictionAuthority};

verus! {

/// Why a block cannot be taken into a session.
#[derive(Clone, Copy, Debug, PartialEq, Eq, Structural)]
pub enum BlockError {
    /// More rows than the context was made for.
    TooManyRows { rows: usize, limit: usize },
    /// The bins are not `n_feats * n_rows` long.
    BinsLength,
    /// There are no offsets, or they do not start at 0.
    OffsetsShape,
    /// The offsets fall somewhere.
    OffsetsNotMonotone,
    /// The selected features are not strictly increasing features of the block.
    Selection,
    /// The block is kept column by column, and the offsets are not those of the selected features.
    SelectedWidth,
    /// The block is kept column by column, and without a selection the offsets are not those of
    /// its features.
    BlockWidth,
    /// The block is kept row by row, and the offsets are not those of all its features.
    RowMajorWidth,
    /// The block is larger than its buffer.
    BlockTooLarge { len: usize, capacity: usize },
    /// The histogram is larger than its buffer.
    HistogramTooLarge { bins: usize },
}

/// Strictly increasing numbers below `n`.
pub open spec fn is_selection(selected: Seq<usize>, n: int) -> bool {
    &&& forall|i: int, j: int| 0 <= i < j < selected.len() ==> selected[i] < selected[j]
    &&& forall|i: int| 0 <= i < selected.len() ==> #[trigger] selected[i] < n
}

/// Are these strictly increasing numbers below `n`?
pub fn selection_ok(selected: &[usize], n: usize) -> (r: bool)
    ensures
        r == is_selection(selected@, n as int),
{
    let len: usize = selected.len();
    let mut i: usize = 0;
    while i < len
        invariant
            len == selected@.len(),
            i <= len,
            forall|a: int, b: int| 0 <= a < b < i ==> selected@[a] < selected@[b],
            forall|a: int| 0 <= a < i ==> #[trigger] selected@[a] < n,
        decreases len - i,
    {
        if selected[i] >= n {
            return false;
        }
        if i > 0 && selected[i - 1] >= selected[i] {
            assert(!(selected@[i - 1] < selected@[i as int]));
            return false;
        }
        assert forall|a: int, b: int| 0 <= a < b < i + 1 implies selected@[a] < selected@[b] by {
            if b == i {
                if a < i - 1 {
                    assert(selected@[a] < selected@[i - 1]);
                }
            }
        }
        i += 1;
    }
    true
}

/// A block in a session.
#[derive(Clone, Copy, Debug, PartialEq, Eq, Structural)]
pub struct GpuBlockSession {
    /// The slot of a resident block; any free streaming slot otherwise.
    pub resident_slot: Option<usize>,
    /// The slot already holds the block, so nothing of it is uploaded.
    pub cache_hit: bool,
    /// Features of the block as it is stored.
    pub physical_n_feats: usize,
    /// Features of the histogram.
    pub n_feats: usize,
    /// Bins of the histogram.
    pub n_hist: usize,
    /// Only some features are accumulated.
    pub selection_active: bool,
    /// The features that a row-major kernel accumulates, one bit each.
    pub row_major_feat_mask: u32,
    /// Uploads for the block.
    pub h2d_calls: u64,
    /// Bytes uploaded for the block.
    pub h2d_bytes: u64,
}

/// What a slot keeps from one session to the next: the block that stays in it, and that block's
/// width. The two are written together, so that the width never has to be guessed from the block.
#[derive(Clone, Copy, Debug, PartialEq, Eq, Structural)]
pub struct SlotState {
    pub resident_block: Option<usize>,
    pub resident_feats: usize,
}

impl SlotState {
    /// A slot that holds no block yet.
    pub fn empty() -> (r: SlotState)
        ensures
            r.resident_block is None,
            r.resident_feats == 0,
    {
        SlotState { resident_block: None, resident_feats: 0 }
    }

    /// The slot after a session: a resident block that was uploaded stays, with its width.
    pub open spec fn spec_after(self, block_index: usize, session: GpuBlockSession) -> SlotState {
        if session.resident_slot is Some && !session.cache_hit {
            SlotState {
                resident_block: Some(block_index),
                resident_feats: session.physical_n_feats,
            }
        } else {
            self
        }
    }

    /// The slot after a session on block `block_index` has uploaded what it needs.
    pub fn after(self, block_index: usize, session: &GpuBlockSession) -> (r: SlotState)
        ensures
            r == self.spec_after(block_index, *session),
    {
        if session.resident_slot.is_some() && !session.cache_hit {
            SlotState {
                resident_block: Some(block_index),
                resident_feats: session.physical_n_feats,
            }
        } else {
            self
        }
    }
}

/// Some, but not all, features are selected.
pub open spec fn selects_some(selected: Option<&[usize]>, n_feats: int) -> bool {
    selected matches Some(s) && s@.len() < n_feats
}

/// Bit `g` of a mask.
pub open spec fn has_bit(mask: u32, g: int) -> bool {
    0 <= g < 32 && (mask >> (g as u32)) & 1u32 == 1u32
}

/// A mask of the selected features among the first 32; all bits where nothing is selected.
pub open spec fn is_feature_mask(mask: u32, selected: Option<&[usize]>, n_feats: int) -> bool {
    if selects_some(selected, n_feats) {
        forall|g: int|
            0 <= g < 32 ==> (#[trigger] has_bit(mask, g) <==> selected->0@.contains(g as usize))
    } else {
        mask == 0xffff_ffffu32
    }
}

/// The mask of the listed features below 32.
fn mask_of(selected: &[usize]) -> (mask: u32)
    ensures
        forall|g: int|
            0 <= g < 32 ==> (#[trigger] has_bit(mask, g) <==> selected@.contains(g as usize)),
{
    let mut mask: u32 = 0;
    let mut i: usize = 0;
    assert forall|g: int| 0 <= g < 32 implies !#[trigger] has_bit(0u32, g) by {
        let h = g as u32;
        assert((0u32 >> h) & 1u32 == 0u32) by (bit_vector)
            requires
                h < 32,
        ;
    }
    while i < selected.len()
        invariant
            i <= selected@.len(),
            forall|g: int|
                0 <= g < 32 ==> (#[trigger] has_bit(mask, g) <==> selected@.take(i as int).contains(
                    g as usize,
                )),
        decreases selected.len() - i,
    {
        let f: usize = selected[i];
        let ghost before = mask;
        let ghost head = selected@.take(i as int);
        if f < 32 {
            let bit: u32 = f as u32;
            mask = mask | (1u32 << bit);
        }
        proof {
            assert(selected@.take(i + 1) =~= head.push(f));
            assert forall|g: int| 0 <= g < 32 implies (#[trigger] has_bit(mask, g)
                <==> selected@.take(i + 1).contains(g as usize)) by {
                let h = g as u32;
                if f < 32 {
                    let bit = f as u32;
                    assert(((before | (1u32 << bit)) >> h) & 1u32 == 1u32 <==> ((before >> h) & 1u32
                        == 1u32 || h == bit)) by (bit_vector)
                        requires
                            h < 32,
                            bit < 32,
                    ;
                }
                assert(has_bit(before, g) <==> head.contains(g as usize));
                if head.contains(g as usize) {
                    let w = choose|w: int| 0 <= w < head.len() && head[w] == g as usize;
                    assert(head.push(f)[w] == g as usize);
                }
                if f == g as usize {
                    assert(head.push(f)[head.len() as int] == g as usize);
                }
                if head.push(f).contains(g as usize) {
                    let w = choose|w: int|
                        0 <= w < head.push(f).len() && head.push(f)[w] == g as usize;
                    if w < head.len() {
                        assert(head[w] == g as usize);
                    }
                }
            }
        }
        i += 1;
    }
    assert(selected@.take(i as int) =~= selected@);
    mask
}

impl GpuTrainCtx {
    /// The check that a block fails first, if any.
    pub open spec fn spec_block_error(
        &self,
        data_len: int,
        block_n_rows: int,
        n_feats: int,
        offsets: Seq<u32>,
        selected: Option<&[usize]>,
    ) -> Option<BlockError> {
        let row_major = self.choices.row_major;
        let hist_n = offsets.len() - 1;
        let width_ok = if row_major || selected is None {
            hist_n == n_feats
        } else {
            selected->0@.len() == hist_n
        };
        let bins_capacity = imax(self.bins_len as int, 1);
        let hist_capacity = imax(self.hist_words * self.choices.hist_nodes_per_batch, 1);
        if block_n_rows > self.shape.n_rows {
            Some(
                BlockError::TooManyRows {
                    rows: block_n_rows as usize,
                    limit: self.shape.n_rows,
                },
            )
        } else if data_len != n_feats * block_n_rows {
            Some(BlockError::BinsLength)
        } else if offsets.len() == 0 || offsets[0] != 0 {
            Some(BlockError::OffsetsShape)
        } else if !monotone(offsets) {
            Some(BlockError::OffsetsNotMonotone)
        } else if selected is Some && !is_selection(selected->0@, n_feats) {
            Some(BlockError::Selection)
        } else if !width_ok {
            Some(
                if row_major {
                    BlockError::RowMajorWidth
                } else if selected is Some {
                    BlockError::SelectedWidth
                } else {
                    BlockError::BlockWidth
                },
            )
        } else if data_len > bins_capacity {
            Some(
                BlockError::BlockTooLarge {
                    len: data_len as usize,
                    capacity: bins_capacity as usize,
                },
            )
        } else if offsets[hist_n] * 2 > hist_capacity {
            Some(BlockError::HistogramTooLarge { bins: offsets[hist_n] as usize })
        } else {
            None
        }
    }

    /// A session on a block whose slot is in this state, or the check that the block fails first.
    pub open spec fn is_session(
        &self,
        block_index: usize,
        data_len: usize,
        block_n_rows: usize,
        n_feats: usize,
        offsets: Seq<u32>,
        selected: Option<&[usize]>,
        slot: SlotState,
        r: Result<GpuBlockSession, BlockError>,
    ) -> bool {
        match self.spec_block_error(
            data_len as int,
            block_n_rows as int,
            n_feats as int,
            offsets,
            selected,
        ) {
            Some(e) => r == Err::<GpuBlockSession, BlockError>(e),
            None => r matches Ok(s) && {
                let resident = block_index < self.choices.resident_blocks;
                let hit = resident && slot.resident_block == Some(block_index);
                let some = selects_some(selected, n_feats as int);
                &&& s.resident_slot == if resident {
                    Some((self.choices.hist_streams + block_index) as usize)
                } else {
                    None
                }
                &&& s.cache_hit == hit
                &&& s.physical_n_feats == n_feats
                &&& s.n_feats == offsets.len() - 1
                &&& s.n_hist == offsets[offsets.len() - 1]
                &&& s.selection_active == some
                &&& is_feature_mask(s.row_major_feat_mask, selected, n_feats as int)
                &&& s.h2d_calls == (if hit {
                    1int
                } else {
                    2
                }) + (if some {
                    1int
                } else {
                    0
                })
                &&& s.h2d_bytes == (if hit {
                    0
                } else {
                    data_len as int
                }) + offsets.len() * 4 + (if some {
                    selected->0@.len() * 4
                } else {
                    0
                })
            },
        }
    }

    /// Takes a block into a session. The first `resident_blocks` blocks have slots of their
    /// own behind the streaming slots, and are uploaded once.
    pub fn block_session(
        &self,
        block_index: usize,
        data_len: usize,
        block_n_rows: usize,
        n_feats: usize,
        feat_offsets: &[u32],
        selected_local: Option<&[usize]>,
        slot: SlotState,
    ) -> (r: Result<GpuBlockSession, BlockError>)
        requires
            self.wf(),
            feat_offsets@.len() <= u64::MAX / 16,
            data_len <= u64::MAX / 4,
        ensures
            self.is_session(
                block_index,
                data_len,
                block_n_rows,
                n_feats,
                feat_offsets@,
                selected_local,
                slot,
                r,
            ),
    {
        proof {
            let c = self.choices;
            let words = self.hist_words as int;
            assert(words * c.hist_nodes_per_batch <= self.shape.max_hist_bins * 2 * 8
                * c.hist_nodes_per_batch) by (nonlinear_arith)
                requires
                    words == self.shape.max_hist_bins * 2,
                    c.hist_nodes_per_batch >= 0,
            ;
            assert(self.shape.max_hist_bins * 2 * 8 * c.hist_nodes_per_batch
                <= crate::backend::cuda::train_ctx::hist_out_bytes(self.shape, c))
                by (nonlinear_arith)
                requires
                    c.slots() >= 1,
                    crate::backend::cuda::train_ctx::hist_out_bytes(self.shape, c)
                        == self.shape.max_hist_bins * 2 * 8 * c.hist_nodes_per_batch * c.slots(),
                    self.shape.max_hist_bins >= 0,
                    c.hist_nodes_per_batch >= 0,
            ;
            assert(0 <= words * c.hist_nodes_per_batch) by (nonlinear_arith)
                requires
                    words >= 0,
                    c.hist_nodes_per_batch >= 0,
            ;
        }
        if block_n_rows > self.shape.n_rows {
            return Err(
                BlockError::TooManyRows { rows: block_n_rows, limit: self.shape.n_rows },
            );
        }
        match n_feats.checked_mul(block_n_rows) {
            Some(p) => {
                if data_len != p {
                    return Err(BlockError::BinsLength);
                }
            },
            None => {
                return Err(BlockError::BinsLength);
            },
        }
        let n_off: usize = feat_offsets.len();
        if n_off == 0 || feat_offsets[0] != 0 {
            return Err(BlockError::OffsetsShape);
        }
        let hist_n: usize = n_off - 1;
        if !is_monotone(feat_offsets) {
            return Err(BlockError::OffsetsNotMonotone);
        }
        if let Some(selected) = selected_local {
            if !selection_ok(selected, n_feats) {
                return Err(BlockError::Selection);
            }
        }
        if self.choices.row_major {
            if hist_n != n_feats {
                return Err(BlockError::RowMajorWidth);
            }
        } else {
            match selected_local {
                Some(selected) => {
                    if selected.len() != hist_n {
                        return Err(BlockError::SelectedWidth);
                    }
                },
                None => {
                    if hist_n != n_feats {
                        return Err(BlockError::BlockWidth);
                    }
                },
            }
        }
        let n_hist: usize = feat_offsets[hist_n] as usize;
        let bins_capacity: usize = max_usize(self.bins_len, 1);
        if data_len > bins_capacity {
            return Err(BlockError::BlockTooLarge { len: data_len, capacity: bins_capacity });
        }
        let hist_capacity: usize = max_usize(
            self.hist_words * self.choices.hist_nodes_per_batch,
            1,
        );
        if n_hist > hist_capacity / 2 {
            return Err(BlockError::HistogramTooLarge { bins: n_hist });
        }
        let resident: bool = block_index < self.choices.resident_blocks;
        let cache_hit: bool = resident && match slot.resident_block {
            Some(b) => b == block_index,
            None => false,
        };
        let selected_len: usize = match selected_local {
            Some(selected) => selected.len(),
            None => n_feats,
        };
        let selection_active: bool = selected_len < n_feats;
        let row_major_feat_mask: u32 = match selected_local {
            Some(selected) => if selected.len() < n_feats {
                mask_of(selected)
            } else {
                0xffff_ffff
            },
            None => 0xffff_ffff,
        };
        let resident_slot: Option<usize> = if resident {
            Some(self.choices.hist_streams + block_index)
        } else {
            None
        };
        proof {
            if let Some(selected) = selected_local {
                lemma_selection_len(selected@, n_feats as int);
            }
        }
        let block_calls: u64 = if cache_hit {
            0
        } else {
            1
        };
        let select_calls: u64 = if selection_active {
            1
        } else {
            0
        };
        let block_bytes: u64 = if cache_hit {
            0
        } else {
            data_len as u64
        };
        let select_bytes: u64 = if selection_active {
            if self.choices.row_major {
                assert(selected_len < n_off);
            }
            selected_len as u64 * 4
        } else {
            0
        };
        Ok(
            GpuBlockSession {
                resident_slot,
                cache_hit,
                physical_n_feats: n_feats,
                n_feats: hist_n,
                n_hist,
                selection_active,
                row_major_feat_mask,
                h2d_calls: block_calls + 1 + select_calls,
                h2d_bytes: block_bytes + n_off as u64 * 4 + select_bytes,
            },
        )
    }
}

/// Strictly increasing numbers below `n` are at most `n` in number.
pub proof fn lemma_selection_len(selected: Seq<usize>, n: int)
    requires
        is_selection(selected, n),
        n >= 0,
    ensures
        selected.len() <= n,
    decreases selected.len(),
{
    if selected.len() > 0 {
        let last = selected.len() - 1;
        let rest = selected.drop_last();
        assert forall|i: int| 0 <= i < rest.len() implies #[trigger] rest[i] < selected[last] by {
            assert(rest[i] == selected[i]);
        }
        assert(forall|i: int, j: int| 0 <= i < j < rest.len() ==> rest[i] < rest[j]) by {
            assert(forall|i: int| 0 <= i < rest.len() ==> rest[i] == selected[i]);
        }
        lemma_selection_len(rest, selected[last] as int);
    }
}

/// Free streaming slots, taken from the end.
pub struct HistSlotPool {
    pub available: Vec<usize>,
    pub slots: usize,
}

impl HistSlotPool {
    /// The free slots are distinct slots of the pool.
    pub open spec fn wf(&self) -> bool {
        &&& self.available@.no_duplicates()
        &&& forall|i: int|
            0 <= i < self.available@.len() ==> #[trigger] self.available@[i] < self.slots
    }

    /// A pool with all slots free, of which 0 is taken first.
    pub fn new(n: usize) -> (p: HistSlotPool)
        ensures
            p.wf(),
            p.slots == n,
            p.available@ == Seq::new(n as nat, |i: int| (n - 1 - i) as usize),
    {
        let mut available: Vec<usize> = Vec::new();
        let mut i: usize = 0;
        while i < n
            invariant
                i <= n,
                available@ == Seq::new(i as nat, |k: int| (n - 1 - k) as usize),
            decreases n - i,
        {
            available.push(n - 1 - i);
            i += 1;
        }
        HistSlotPool { available, slots: n }
    }

    /// Takes a free slot, if there is one.
    pub fn acquire(&mut self) -> (slot: Option<usize>)
        requires
            old(self).wf(),
        ensures
            final(self).wf(),
            final(self).slots == old(self).slots,
            match slot {
                None => old(self).available@.len() == 0 && final(self).available@ == old(
                    self,
                ).available@,
                Some(s) => old(self).available@ == final(self).available@.push(s) && s < old(
                    self,
                ).slots && !final(self).available@.contains(s),
            },
    {
        let slot: Option<usize> = self.available.pop();
        proof {
            if slot is Some {
                assert(old(self).available@ =~= self.available@.push(slot->0));
            }
        }
        slot
    }

    /// Gives a slot back.
    pub fn release(&mut self, slot: usize)
        requires
            old(self).wf(),
            slot < old(self).slots,
            !old(self).available@.contains(slot),
        ensures
            final(self).wf(),
            final(self).slots == old(self).slots,
            final(self).available@ == old(self).available@.push(slot),
    {
        self.available.push(slot);
    }
}

/// One chunk of rows on its way through a staging buffer.
#[derive(Clone, Copy, Debug, PartialEq, Eq, Structural)]
pub struct UploadChunk {
    pub begin: usize,
    pub end: usize,
    /// The staging buffer, taken in turn.
    pub buffer: usize,
}

/// The chunk with number `i`.
pub open spec fn chunk_at(n_rows: int, chunk: int, n_bufs: int, i: int) -> UploadChunk {
    UploadChunk {
        begin: (i * chunk) as usize,
        end: imin((i + 1) * chunk, n_rows) as usize,
        buffer: (i % n_bufs) as usize,
    }
}

/// Cuts the rows of a block into chunks that go through the staging buffers in turn.
pub fn upload_chunks(n_rows: usize, chunk_rows: usize, n_bufs: usize) -> (r: Vec<UploadChunk>)
    requires
        n_bufs > 0,
    ensures
        r@.len() == ceil_div(n_rows as int, imax(chunk_rows as int, 1)),
        forall|i: int|
            0 <= i < r@.len() ==> #[trigger] r@[i] == chunk_at(
                n_rows as int,
                imax(chunk_rows as int, 1),
                n_bufs as int,
                i,
            ),
{
    let chunk: usize = max_usize(chunk_rows, 1);
    let mut r: Vec<UploadChunk> = Vec::new();
    let mut begin: usize = 0;
    let mut turn: usize = 0;
    proof {
        crate::math::lemma_ceil_div(n_rows as int, chunk as int);
        assert(0 * chunk == 0) by (nonlinear_arith);
    }
    while begin < n_rows
        invariant
            n_bufs > 0,
            chunk == imax(chunk_rows as int, 1),
            begin <= n_rows,
            begin == imin(r@.len() * chunk, n_rows as int),
            begin < n_rows ==> begin == r@.len() * chunk,
            turn < n_bufs,
            turn == r@.len() as int % n_bufs as int,
            r@.len() <= ceil_div(n_rows as int, chunk as int),
            begin == n_rows ==> r@.len() == ceil_div(n_rows as int, chunk as int),
            forall|i: int|
                0 <= i < r@.len() ==> #[trigger] r@[i] == chunk_at(
                    n_rows as int,
                    chunk as int,
                    n_bufs as int,
                    i,
                ),
        decreases n_rows - begin,
    {
        let end: usize = begin + min_usize(chunk, n_rows - begin);
        let ghost i = r@.len() as int;
        proof {
            let c = chunk as int;
            assert((i + 1) * c == i * c + c) by (nonlinear_arith);
            crate::math::lemma_ceil_div_least(n_rows as int, c, i);
            crate::math::lemma_ceil_div_least(n_rows as int, c, i + 1);
            lemma_next_turn(i, n_bufs as int);
        }
        r.push(UploadChunk { begin, end, buffer: turn });
        begin = end;
        turn = if turn + 1 == n_bufs {
            0
        } else {
            turn + 1
        };
    }
    r
}

proof fn lemma_next_turn(i: int, n: int)
    requires
        0 <= i,
        0 < n,
    ensures
        (i + 1) % n == if i % n + 1 == n {
            0
        } else {
            i % n + 1
        },
{
    vstd::arithmetic::div_mod::lemma_fundamental_div_mod(i, n);
    let q = i / n;
    assert(n * q == q * n) by (nonlinear_arith);
    assert(0 <= i % n < n) by {
        vstd::arithmetic::div_mod::lemma_mod_bound(i, n);
    }
    if i % n + 1 == n {
        assert((q + 1) * n == q * n + n) by (nonlinear_arith);
        vstd::arithmetic::div_mod::lemma_fundamental_div_mod_converse(i + 1, n, q + 1, 0);
    } else {
        vstd::arithmetic::div_mod::lemma_fundamental_div_mod_converse(i + 1, n, q, i % n + 1);
    }
}

/// The rows `r0 .. r1` of every column, one column after the other.
pub open spec fn is_staged(
    staged: Seq<Bin>,
    block_data: Seq<Bin>,
    n_rows: int,
    n_feats: int,
    r0: int,
    r1: int,
) -> bool {
    &&& staged.len() == n_feats * (r1 - r0)
    &&& forall|f: int, i: int|
        #![trigger staged[f * (r1 - r0) + i]]
        0 <= f < n_feats && 0 <= i < r1 - r0 ==> staged[f * (r1 - r0) + i] == block_data[f * n_rows
            + r0 + i]
}

/// Copies a chunk of rows into a staging buffer.
pub fn stage_chunk(
    block_data: &[Bin],
    n_rows: usize,
    n_feats: usize,
    r0: usize,
    r1: usize,
) -> (staged: Vec<Bin>)
    requires
        block_data@.len() == n_feats * n_rows,
        r0 <= r1 <= n_rows,
    ensures
        is_staged(
            staged@,
            block_data@,
            n_rows as int,
            n_feats as int,
            r0 as int,
            r1 as int,
        ),
{
    let data_len: usize = block_data.len();
    let len: usize = r1 - r0;
    let mut staged: Vec<Bin> = Vec::new();
    let mut f: usize = 0;
    assert(0 * len == 0) by (nonlinear_arith);
    while f < n_feats
        invariant
            data_len == block_data@.len(),
            data_len == n_feats * n_rows,
            r0 <= r1 <= n_rows,
            len == r1 - r0,
            f <= n_feats,
            staged@.len() == f * len,
            forall|g: int, i: int|
                #![trigger staged@[g * len + i]]
                0 <= g < f && 0 <= i < len ==> staged@[g * len + i] == block_data@[g * n_rows + r0
                    + i],
        decreases n_feats - f,
    {
        proof {
            lemma_column_in_bounds(f as int, n_feats as int, n_rows as int);
        }
        let start: usize = f * n_rows + r0;
        let mut i: usize = 0;
        while i < len
            invariant
                data_len == block_data@.len(),
                start == f * n_rows + r0,
                start + len <= data_len,
                i <= len,
                f < n_feats,
                staged@.len() == f * len + i,
                forall|g: int, k: int|
                    #![trigger staged@[g * len + k]]
                    0 <= g < f && 0 <= k < len ==> staged@[g * len + k] == block_data@[g * n_rows
                        + r0 + k],
                forall|k: int|
                    #![trigger staged@[f * len + k]]
                    0 <= k < i ==> staged@[f * len + k] == block_data@[f * n_rows + r0 + k],
            decreases len - i,
        {
            let ghost before = staged@;
            staged.push(block_data[start + i]);
            proof {
                assert forall|g: int, k: int|
                    #![trigger staged@[g * len + k]]
                    0 <= g < f && 0 <= k < len implies staged@[g * len + k] == block_data@[g
                    * n_rows + r0 + k] by {
                    lemma_column_in_bounds(g, f as int, len as int);
                    assert(before[g * len + k] == staged@[g * len + k]);
                }
                assert forall|k: int|
                    #![trigger staged@[f * len + k]]
                    0 <= k < i + 1 implies staged@[f * len + k] == block_data@[f * n_rows + r0
                    + k] by {
                    if k < i {
                        assert(f * len >= 0) by (nonlinear_arith);
                        assert(before[f * len + k] == staged@[f * len + k]);
                    }
                }
            }
            i += 1;
        }
        proof {
            assert((f + 1) * len == f * len + len) by (nonlinear_arith);
            assert forall|g: int, k: int|
                #![trigger staged@[g * len + k]]
                0 <= g < f + 1 && 0 <= k < len implies staged@[g * len + k] == block_data@[g
                * n_rows + r0 + k] by {
                if g == f {
                    assert(staged@[f * len + k] == block_data@[f * n_rows + r0 + k]);
                }
            }
        }
        f += 1;
    }
    staged
}

/// The first `rows` rows of a block in row-major order.
pub open spec fn is_row_major(
    out: Seq<Bin>,
    block_data: Seq<Bin>,
    n_rows: int,
    n_feats: int,
    rows: int,
) -> bool {
    &&& out.len() == rows * n_feats
    &&& forall|r: int, f: int|
        #![trigger out[r * n_feats + f]]
        0 <= r < rows && 0 <= f < n_feats ==> out[r * n_feats + f] == block_data[f * n_rows + r]
}

/// Appends the rows of a staged chunk, row by row.
fn append_transposed(
    out: &mut Vec<Bin>,
    staged: &[Bin],
    n_feats: usize,
    r0: usize,
    r1: usize,
    n_rows: usize,
    Ghost(block_data): Ghost<Seq<Bin>>,
)
    requires
        r0 <= r1 <= n_rows,
        is_staged(
            staged@,
            block_data,
            n_rows as int,
            n_feats as int,
            r0 as int,
            r1 as int,
        ),
        is_row_major(old(out)@, block_data, n_rows as int, n_feats as int, r0 as int),
    ensures
        is_row_major(final(out)@, block_data, n_rows as int, n_feats as int, r1 as int),
{
    let staged_len: usize = staged.len();
    let len: usize = r1 - r0;
    let mut i: usize = 0;
    while i < len
        invariant
            staged_len == staged@.len(),
            r0 <= r1 <= n_rows,
            len == r1 - r0,
            i <= len,
            is_staged(
                staged@,
                block_data,
                n_rows as int,
                n_feats as int,
                r0 as int,
                r1 as int,
            ),
            is_row_major(out@, block_data, n_rows as int, n_feats as int, r0 + i),
        decreases len - i,
    {
        let ghost row = r0 + i;
        let mut f: usize = 0;
        while f < n_feats
            invariant
                staged_len == staged@.len(),
                r0 <= r1 <= n_rows,
                len == r1 - r0,
                i < len,
                row == r0 + i,
                f <= n_feats,
                is_staged(
                    staged@,
                    block_data,
                    n_rows as int,
                    n_feats as int,
                    r0 as int,
                    r1 as int,
                ),
                out@.len() == row * n_feats + f,
                forall|r: int, g: int|
                    #![trigger out@[r * n_feats + g]]
                    0 <= r < row && 0 <= g < n_feats ==> out@[r * n_feats + g] == block_data[g
                        * n_rows + r],
                forall|g: int|
                    #![trigger out@[row * n_feats + g]]
                    0 <= g < f ==> out@[row * n_feats + g] == block_data[g * n_rows + row],
            decreases n_feats - f,
        {
            proof {
                lemma_column_in_bounds(f as int, n_feats as int, len as int);
            }
            let ghost before = out@;
            out.push(staged[f * len + i]);
            proof {
                assert(staged@[f * len + i] == block_data[f * n_rows + r0 + i]);
                assert forall|r: int, g: int|
                    #![trigger out@[r * n_feats + g]]
                    0 <= r < row && 0 <= g < n_feats implies out@[r * n_feats + g] == block_data[g
                    * n_rows + r] by {
                    lemma_column_in_bounds(r, row, n_feats as int);
                    assert(before[r * n_feats + g] == out@[r * n_feats + g]);
                }
                assert forall|g: int|
                    #![trigger out@[row * n_feats + g]]
                    0 <= g < f + 1 implies out@[row * n_feats + g] == block_data[g * n_rows
                    + row] by {
                    if g < f {
                        assert(row * n_feats >= 0) by (nonlinear_arith)
                            requires
                                row >= 0,
                                n_feats >= 0,
                        ;
                        assert(before[row * n_feats + g] == out@[row * n_feats + g]);
                    }
                }
            }
            f += 1;
        }
        proof {
            assert((row + 1) * n_feats == row * n_feats + n_feats) by (nonlinear_arith);
            assert forall|r: int, g: int|
                #![trigger out@[r * n_feats + g]]
                0 <= r < row + 1 && 0 <= g < n_feats implies out@[r * n_feats + g] == block_data[g
                * n_rows + r] by {
                if r == row {
                    assert(out@[row * n_feats + g] == block_data[g * n_rows + row]);
                }
            }
        }
        i += 1;
    }
}

/// A column-major block in row-major order, brought over chunk by chunk: each chunk is staged
/// column by column and then transposed. The result does not depend on the chunk size.
pub fn to_row_major(
    block_data: &[Bin],
    n_rows: usize,
    n_feats: usize,
    chunk_rows: usize,
) -> (out: Vec<Bin>)
    requires
        block_data@.len() == n_feats * n_rows,
    ensures
        is_row_major(out@, block_data@, n_rows as int, n_feats as int, n_rows as int),
{
    let chunk: usize = max_usize(chunk_rows, 1);
    let mut out: Vec<Bin> = Vec::new();
    let mut begin: usize = 0;
    assert(0 * n_feats == 0) by (nonlinear_arith);
    while begin < n_rows
        invariant
            block_data@.len() == n_feats * n_rows,
            chunk > 0,
            begin <= n_rows,
            is_row_major(out@, block_data@, n_rows as int, n_feats as int, begin as int),
        decreases n_rows - begin,
    {
        let end: usize = begin + min_usize(chunk, n_rows - begin);
        let staged: Vec<Bin> = stage_chunk(block_data, n_rows, n_feats, begin, end);
        append_transposed(
            &mut out,
            staged.as_slice(),
            n_feats,
            begin,
            end,
            n_rows,
            Ghost(block_data@),
        );
        begin = end;
    }
    out
}

/// Where a partition finds a resident feature.
#[derive(Clone, Copy, Debug, PartialEq, Eq, Structural)]
pub enum ResidentColumn {
    /// A contiguous column of the slot's buffer.
    Column { slot: usize, start: usize },
    /// Every `stride`-th bin from `first` on.
    Strided { slot: usize, first: usize, stride: usize },
}

/// Why a resident column is refused.
#[derive(Clone, Copy, Debug, PartialEq, Eq, Structural)]
pub enum ResidentError {
    /// The stored width does not fit the buffer.
    Width { block: usize, feats: usize },
    /// The block is kept row by row, and its rows do not have this feature.
    BeyondRow { feat: usize, feats: usize },
    /// The place of this feature's column does not fit a machine word.
    Overflow,
    /// The column of this feature lies beyond the buffer.
    BeyondBuffer { feat: usize },
}

/// A resident block is uploaded once. The session that uploads it leaves it in its slot with its
/// width, the next session on it finds it there and uploads nothing of it, and leaves the slot as
/// it was. A block that is not resident leaves its slot as it was.
pub proof fn law_resident_block_is_uploaded_once(
    ctx: GpuTrainCtx,
    block_index: usize,
    data_len: usize,
    block_n_rows: usize,
    n_feats: usize,
    offsets: Seq<u32>,
    selected: Option<&[usize]>,
    slot: SlotState,
    s: GpuBlockSession,
    next_offsets: Seq<u32>,
    next_selected: Option<&[usize]>,
    next: GpuBlockSession,
)
    requires
        ctx.is_session(
            block_index,
            data_len,
            block_n_rows,
            n_feats,
            offsets,
            selected,
            slot,
            Ok(s),
        ),
        ctx.is_session(
            block_index,
            data_len,
            block_n_rows,
            n_feats,
            next_offsets,
            next_selected,
            slot.spec_after(block_index, s),
            Ok(next),
        ),
    ensures
        block_index < ctx.choices.resident_blocks ==> {
            &&& slot.spec_after(block_index, s).resident_block == Some(block_index)
            &&& !s.cache_hit ==> slot.spec_after(block_index, s).resident_feats == n_feats
            &&& next.cache_hit
            &&& next.h2d_bytes == next_offsets.len() * 4 + (if next.selection_active {
                next_selected->0@.len() * 4
            } else {
                0
            })
            &&& slot.spec_after(block_index, s).spec_after(block_index, next) == slot.spec_after(
                block_index,
                s,
            )
        },
        block_index >= ctx.choices.resident_blocks ==> slot.spec_after(block_index, s) == slot
            && !next.cache_hit,
{
}

/// Every feature of a resident block with all rows is found on the device once a session has
/// uploaded the block, in a column of its own or at the width of the block.
pub proof fn law_uploaded_block_is_found(
    ctx: GpuTrainCtx,
    block_index: usize,
    data_len: usize,
    n_feats: usize,
    offsets: Seq<u32>,
    selected: Option<&[usize]>,
    slot: SlotState,
    s: GpuBlockSession,
    local_feat: usize,
    r: Result<Option<ResidentColumn>, ResidentError>,
)
    requires
        ctx.wf(),
        block_index < ctx.choices.resident_blocks,
        ctx.is_session(
            block_index,
            data_len,
            ctx.shape.n_rows,
            n_feats,
            offsets,
            selected,
            slot,
            Ok(s),
        ),
        !s.cache_hit,
        local_feat < n_feats,
        ctx.is_resident_column(block_index, local_feat, slot.spec_after(block_index, s), r),
    ensures
        r matches Ok(Some(c)) && match c {
            ResidentColumn::Column { slot: at, start } => !ctx.choices.row_major && Some(at)
                == s.resident_slot && start == local_feat * ctx.shape.n_rows,
            ResidentColumn::Strided { slot: at, first, stride } => ctx.choices.row_major && Some(
                at,
            ) == s.resident_slot && first == local_feat && stride == n_feats,
        },
{
    let n = ctx.shape.n_rows as int;
    let capacity = imax(ctx.bins_len as int, 1);
    assert(n_feats <= capacity / n) by {
        vstd::arithmetic::div_mod::lemma_div_is_ordered(n_feats * n, capacity, n);
        vstd::arithmetic::div_mod::lemma_div_multiples_vanish(n_feats as int, n);
        assert(n_feats * n == n * n_feats) by (nonlinear_arith);
    }
    assert((local_feat + 1) * n <= n_feats * n) by (nonlinear_arith)
        requires
            local_feat + 1 <= n_feats,
            n >= 0,
    ;
    assert(local_feat * n <= (local_feat + 1) * n) by (nonlinear_arith)
        requires
            n >= 0,
    ;
    assert(0 <= local_feat * n) by (nonlinear_arith)
        requires
            n >= 0,
    ;
}

impl GpuTrainCtx {
    /// Where a feature of a resident block is found in a slot of this state; nothing where the
    /// block is not there.
    pub open spec fn is_resident_column(
        &self,
        block_index: usize,
        local_feat: usize,
        slot: SlotState,
        r: Result<Option<ResidentColumn>, ResidentError>,
    ) -> bool {
        let capacity = imax(self.bins_len as int, 1);
        let n = self.shape.n_rows as int;
        let there = block_index < self.choices.resident_blocks && slot.resident_block == Some(
            block_index,
        );
        let at = self.choices.hist_streams + block_index;
        if !there {
            r == Ok::<Option<ResidentColumn>, ResidentError>(None)
        } else if slot.resident_feats == 0 || slot.resident_feats > capacity / n {
            r == Err::<Option<ResidentColumn>, ResidentError>(
                ResidentError::Width { block: block_index, feats: slot.resident_feats },
            )
        } else if self.choices.row_major {
            if local_feat >= slot.resident_feats {
                r == Err::<Option<ResidentColumn>, ResidentError>(
                    ResidentError::BeyondRow { feat: local_feat, feats: slot.resident_feats },
                )
            } else {
                r == Ok::<Option<ResidentColumn>, ResidentError>(
                    Some(
                        ResidentColumn::Strided {
                            slot: at as usize,
                            first: local_feat,
                            stride: slot.resident_feats,
                        },
                    ),
                )
            }
        } else if (local_feat + 1) * n > usize::MAX {
            r == Err::<Option<ResidentColumn>, ResidentError>(ResidentError::Overflow)
        } else if (local_feat + 1) * n > capacity {
            r == Err::<Option<ResidentColumn>, ResidentError>(
                ResidentError::BeyondBuffer { feat: local_feat },
            )
        } else {
            r == Ok::<Option<ResidentColumn>, ResidentError>(
                Some(
                    ResidentColumn::Column {
                        slot: at as usize,
                        start: (local_feat * n) as usize,
                    },
                ),
            )
        }
    }

    /// Finds a feature of a resident block on the device; nothing where the block is not
    /// there (yet).
    pub fn partition_session_resident(
        &self,
        block_index: usize,
        local_feat: usize,
        slot: SlotState,
    ) -> (r: Result<Option<ResidentColumn>, ResidentError>)
        requires
            self.wf(),
        ensures
            self.is_resident_column(block_index, local_feat, slot, r),
    {
        if block_index >= self.choices.resident_blocks {
            return Ok(None);
        }
        match slot.resident_block {
            Some(b) => if b != block_index {
                return Ok(None);
            },
            None => {
                return Ok(None);
            },
        }
        let resident_feats: usize = slot.resident_feats;
        let slot: usize = self.choices.hist_streams + block_index;
        let capacity: usize = max_usize(self.bins_len, 1);
        let n: usize = self.shape.n_rows;
        if resident_feats == 0 || resident_feats > capacity / n {
            return Err(ResidentError::Width { block: block_index, feats: resident_feats });
        }
        if self.choices.row_major {
            if local_feat >= resident_feats {
                return Err(ResidentError::BeyondRow { feat: local_feat, feats: resident_feats });
            }
            return Ok(
                Some(
                    ResidentColumn::Strided { slot, first: local_feat, stride: resident_feats },
                ),
            );
        }
        proof {
            assert((local_feat + 1) * n >= local_feat + 1) by (nonlinear_arith)
                requires
                    n >= 1,
                    local_feat >= 0,
            ;
            assert((local_feat + 1) * n == local_feat * n + n) by (nonlinear_arith);
        }
        if local_feat == usize::MAX {
            return Err(ResidentError::Overflow);
        }
        match (local_feat + 1).checked_mul(n) {
            Some(end) => {
                if end > capacity {
                    return Err(ResidentError::BeyondBuffer { feat: local_feat });
                }
            },
            None => {
                return Err(ResidentError::Overflow);
            },
        }
        Ok(Some(ResidentColumn::Column { slot, start: local_feat * n }))
    }

    /// Checks a column that is uploaded for a partition; its bytes are what is uploaded.
    pub fn partition_session(&self, col_len: usize) -> (r: Result<u64, PartitionError>)
        ensures
            r == if col_len == self.shape.n_rows {
                Ok::<u64, PartitionError>(col_len as u64)
            } else {
                Err(
                    PartitionError::ColumnLength { len: col_len, rows: self.shape.n_rows },
                )
            },
    {
        if col_len != self.shape.n_rows {
            return Err(PartitionError::ColumnLength { len: col_len, rows: self.shape.n_rows });
        }
        Ok(col_len as u64)
    }

    /// The device budget.
    pub fn budget(&self) -> (b: GpuMemoryBudget)
        ensures
            b == self.budget,
    {
        self.budget
    }

    /// The host budget.
    pub fn host_budget(&self) -> (b: GpuHostMemoryBudget)
        ensures
            b == self.host_budget,
    {
        self.host_budget
    }

    /// Are segments timed?
    pub fn timing_enabled(&self) -> (r: bool)
        ensures
            r == self.timing,
    {
        self.timing
    }

    /// How many blocks stay on the device.
    pub fn resident_block_count(&self) -> (r: usize)
        ensures
            r == self.choices.resident_blocks,
    {
        self.choices.resident_blocks
    }

    /// How many streams build histograms.
    pub fn hist_stream_count(&self) -> (r: usize)
        ensures
            r == self.choices.hist_streams,
    {
        self.choices.hist_streams
    }

    /// Can selected features be accumulated compactly? Only on the batched column-major path.
    pub fn supports_compact_column_histogram(&self) -> (r: bool)
        ensures
            r == (!self.choices.row_major && self.choices.fused),
    {
        !self.choices.row_major && self.choices.fused
    }

    /// Are gradients quantized on the device?
    pub fn device_quantize_enabled(&self) -> (r: bool)
        ensures
            r == self.choices.device_quantize,
    {
        self.choices.device_quantize
    }

    /// Are gradients computed on the device?
    pub fn fast_math_enabled(&self) -> (r: bool)
        ensures
            r == self.choices.fast_math,
    {
        self.choices.fast_math
    }

    /// Which side holds the current predictions.
    pub open spec fn spec_authority(&self) -> PredictionAuthority {
        if self.choices.fast_math {
            PredictionAuthority::Device
        } else {
            PredictionAuthority::Host
        }
    }

    /// Which side holds the current predictions.
    pub fn prediction_authority(&self) -> (r: PredictionAuthority)
        ensures
            r == self.spec_authority(),
    {
        if self.choices.fast_math {
            PredictionAuthority::Device
        } else {
            PredictionAuthority::Host
        }
    }

    /// May predictions be read from the host's copy?
    pub fn ensure_host_authority(&self) -> (r: Result<(), PredictionAuthority>)
        ensures
            r is Ok <==> self.spec_authority() == PredictionAuthority::Host,
            r matches Err(a) ==> a == PredictionAuthority::Device,
    {
        if self.choices.fast_math {
            Err(PredictionAuthority::Device)
        } else {
            Ok(())
        }
    }

    /// How many nodes one launch takes together; 1 where launches are not batched.
    pub fn hist_nodes_batch_capacity(&self) -> (r: usize)
        ensures
            r == if self.choices.fused || self.choices.row_major {
                self.choices.hist_nodes_per_batch
            } else {
                1
            },
    {
        if self.choices.fused || self.choices.row_major {
            self.choices.hist_nodes_per_batch
        } else {
            1
        }
    }

    /// Must histograms go through the batched launch? Row-major blocks have no other, and
    /// neither have selected features.
    pub fn requires_batched_hist(&self, session: &GpuBlockSession) -> (r: bool)
        ensures
            r == (self.choices.row_major || session.selection_active),
    {
        self.choices.row_major || session.selection_active
    }
}

/// Blocks of the gradient kernel.
pub fn gradient_grid(n_rows: u64) -> (r: u64)
    ensures
        r == imin(ceil_div(n_rows as int, 256), 65535),
{
    min_u64(div_ceil(n_rows, 256), 65535)
}

/// The number by which the gradient kernel knows an objective.
pub fn objective_code(objective: Objective) -> (r: u32)
    ensures
        r == match objective {
            Objective::SquaredError => 0u32,
            Objective::Logistic => 1u32,
        },
{
    match objective {
        Objective::SquaredError => 0,
        Objective::Logistic => 1,
    }
}

/// Adds up the partial sums of a gradient reduction, two words per block.
pub fn reduced_sum(words: &[i64]) -> (r: GradPairFixed)
    ensures
        exists|pairs: Seq<GradPairFixed>|
            #[trigger] crate::backend::cuda::batch::is_unpacked(words@, pairs) && r.represents(
                row_sum(pairs, Seq::new(pairs.len(), |i: int| i), pairs.len() as int),
            ),
{
    let pairs: Vec<GradPairFixed> = unpack_pairs(words);
    assert(rows_of(None, pairs@.len() as int) =~= Seq::new(pairs@.len(), |i: int| i));
    node_sum(pairs.as_slice(), None)
}

/// What a segment of device work took: milliseconds, and the transfers and launches that they
/// were spent on.
#[derive(Clone, Copy, Debug, PartialEq, Eq, Structural)]
pub struct GpuSegmentTiming {
    pub kernel_ms: F32,
    /// Uploads of blocks and columns.
    pub block_h2d_ms: F32,
    /// Uploads of row numbers.
    pub rows_h2d_ms: F32,
    pub d2h_ms: F32,
    pub block_h2d_calls: u64,
    pub rows_h2d_calls: u64,
    pub d2h_calls: u64,
    pub block_h2d_bytes: u64,
    pub rows_h2d_bytes: u64,
    pub d2h_bytes: u64,
    pub kernel_calls: u64,
}

impl GpuSegmentTiming {
    /// The milliseconds of all uploads, added up by `plus`.
    pub fn h2d_ms<F: Fn(F32, F32) -> F32>(&self, plus: F) -> (r: F32)
        requires
            is_addition(plus),
        ensures
            plus.ensures((self.block_h2d_ms, self.rows_h2d_ms), r),
    {
        plus(self.block_h2d_ms, self.rows_h2d_ms)
    }

    /// Adds another segment; milliseconds are added up by `plus`.
    pub fn add<F: Fn(F32, F32) -> F32>(&mut self, other: &GpuSegmentTiming, plus: F)
        requires
            is_addition(plus),
            old(self).block_h2d_calls + other.block_h2d_calls <= u64::MAX,
            old(self).rows_h2d_calls + other.rows_h2d_calls <= u64::MAX,
            old(self).d2h_calls + other.d2h_calls <= u64::MAX,
            old(self).block_h2d_bytes + other.block_h2d_bytes <= u64::MAX,
            old(self).rows_h2d_bytes + other.rows_h2d_bytes <= u64::MAX,
            old(self).d2h_bytes + other.d2h_bytes <= u64::MAX,
            old(self).kernel_calls + other.kernel_calls <= u64::MAX,
        ensures
            plus.ensures((old(self).kernel_ms, other.kernel_ms), final(self).kernel_ms),
            plus.ensures((old(self).block_h2d_ms, other.block_h2d_ms), final(self).block_h2d_ms),
            plus.ensures((old(self).rows_h2d_ms, other.rows_h2d_ms), final(self).rows_h2d_ms),
            plus.ensures((old(self).d2h_ms, other.d2h_ms), final(self).d2h_ms),
            final(self).block_h2d_calls == old(self).block_h2d_calls + other.block_h2d_calls,
            final(self).rows_h2d_calls == old(self).rows_h2d_calls + other.rows_h2d_calls,
            final(self).d2h_calls == old(self).d2h_calls + other.d2h_calls,
            final(self).block_h2d_bytes == old(self).block_h2d_bytes + other.block_h2d_bytes,
            final(self).rows_h2d_bytes == old(self).rows_h2d_bytes + other.rows_h2d_bytes,
            final(self).d2h_bytes == old(self).d2h_bytes + other.d2h_bytes,
            final(self).kernel_calls == old(self).kernel_calls + other.kernel_calls,
    {
        self.kernel_ms = plus(self.kernel_ms, other.kernel_ms);
        self.block_h2d_ms = plus(self.block_h2d_ms, other.block_h2d_ms);
        self.rows_h2d_ms = plus(self.rows_h2d_ms, other.rows_h2d_ms);
        self.d2h_ms = plus(self.d2h_ms, other.d2h_ms);
        self.block_h2d_calls = self.block_h2d_calls + other.block_h2d_calls;
        self.rows_h2d_calls = self.rows_h2d_calls + other.rows_h2d_calls;
        self.d2h_calls = self.d2h_calls + other.d2h_calls;
        self.block_h2d_bytes = self.block_h2d_bytes + other.block_h2d_bytes;
        self.rows_h2d_bytes = self.rows_h2d_bytes + other.rows_h2d_bytes;
        self.d2h_bytes = self.d2h_bytes + other.d2h_bytes;
        self.kernel_calls = self.kernel_calls + other.kernel_calls;
    }
}

} // verus!
