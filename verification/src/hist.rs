//! Histogram construction.
//!
//! Gradients are fixed-point 64-bit integers. Their addition is exact modulo 2^64, so a sum
//! does not depend on the order in which rows, tiles, threads or devices add it up.
use vstd::prelude::*;

use crate::columns::lemma_column_in_bounds;
use crate::math::{div_ceil_usize, min_usize};
use crate::parallel::map_indices;
use crate::text::{parse_usize, to_chars};
use crate::types::{Bin, RowId, MISSING_BIN};

verus! {

/// A fixed-point gradient pair.
#[derive(Clone, Copy, Debug, PartialEq, Eq, Structural)]
pub struct GradPairFixed {
    pub grad: i64,
    pub hess: i64,
}

/// A pair of exact sums.
pub struct PairSum {
    pub grad: int,
    pub hess: int,
}

/// The 64-bit two's complement representative of an integer.
pub open spec fn wrapped(x: int) -> int {
    (x + 0x8000_0000_0000_0000) % 0x1_0000_0000_0000_0000 - 0x8000_0000_0000_0000
}

impl PairSum {
    pub open spec fn zero() -> PairSum {
        PairSum { grad: 0, hess: 0 }
    }

    pub open spec fn plus(self, other: PairSum) -> PairSum {
        PairSum { grad: self.grad + other.grad, hess: self.hess + other.hess }
    }

    pub open spec fn minus(self, other: PairSum) -> PairSum {
        PairSum { grad: self.grad - other.grad, hess: self.hess - other.hess }
    }
}

impl GradPairFixed {
    /// The pair as exact integers.
    pub open spec fn exact(self) -> PairSum {
        PairSum { grad: self.grad as int, hess: self.hess as int }
    }

    /// Is it this sum, modulo 2^64?
    pub open spec fn represents(self, sum: PairSum) -> bool {
        self.grad == wrapped(sum.grad) && self.hess == wrapped(sum.hess)
    }

    /// The neutral pair.
    pub fn zero() -> (z: GradPairFixed)
        ensures
            z.exact() == PairSum::zero(),
            z.represents(PairSum::zero()),
    {
        GradPairFixed { grad: 0, hess: 0 }
    }

    /// The sum, modulo 2^64.
    pub fn plus(self, other: GradPairFixed) -> (r: GradPairFixed)
        ensures
            r.represents(self.exact().plus(other.exact())),
    {
        proof {
            lemma_wrapping_add(self.grad, other.grad);
            lemma_wrapping_add(self.hess, other.hess);
        }
        GradPairFixed {
            grad: self.grad.wrapping_add(other.grad),
            hess: self.hess.wrapping_add(other.hess),
        }
    }

    /// The difference, modulo 2^64.
    pub fn minus(self, other: GradPairFixed) -> (r: GradPairFixed)
        ensures
            r.represents(self.exact().minus(other.exact())),
    {
        proof {
            lemma_wrapping_sub(self.grad, other.grad);
            lemma_wrapping_sub(self.hess, other.hess);
        }
        GradPairFixed {
            grad: self.grad.wrapping_sub(other.grad),
            hess: self.hess.wrapping_sub(other.hess),
        }
    }
}

impl Default for GradPairFixed {
    fn default() -> (r: Self)
        ensures
            r.exact() == PairSum::zero(),
    {
        GradPairFixed { grad: 0, hess: 0 }
    }
}

/// Wrapping is determined by the value modulo 2^64.
pub proof fn lemma_wrapped_shift(x: int, k: int)
    ensures
        wrapped(x + k * 0x1_0000_0000_0000_0000) == wrapped(x),
        -0x8000_0000_0000_0000 <= wrapped(x) < 0x8000_0000_0000_0000,
        exists|j: int| wrapped(x) == x + #[trigger] (j * 0x1_0000_0000_0000_0000),
{
    let m = 0x1_0000_0000_0000_0000int;
    let h = 0x8000_0000_0000_0000int;
    vstd::arithmetic::div_mod::lemma_mod_multiples_vanish(k, x + h, m);
    assert(m * k + (x + h) == x + k * m + h) by (nonlinear_arith);
    vstd::arithmetic::div_mod::lemma_fundamental_div_mod(x + h, m);
    let q = (x + h) / m;
    assert((-q) * m == -(m * q)) by (nonlinear_arith);
    assert(wrapped(x) == x + (-q) * m);
}

/// A number within 64 bits is its own representative.
pub proof fn lemma_wrapped_small(x: int)
    requires
        -0x8000_0000_0000_0000 <= x < 0x8000_0000_0000_0000,
    ensures
        wrapped(x) == x,
{
}

/// Adding a wrapped number and then wrapping loses nothing.
pub proof fn lemma_wrapped_add(a: int, b: int)
    ensures
        wrapped(wrapped(a) + b) == wrapped(a + b),
        wrapped(a + wrapped(b)) == wrapped(a + b),
        wrapped(wrapped(a) - b) == wrapped(a - b),
        wrapped(a - wrapped(b)) == wrapped(a - b),
{
    let m = 0x1_0000_0000_0000_0000int;
    lemma_wrapped_shift(a, 0);
    lemma_wrapped_shift(b, 0);
    let i = choose|j: int| wrapped(a) == a + #[trigger] (j * m);
    let k = choose|j: int| wrapped(b) == b + #[trigger] (j * m);
    lemma_wrapped_shift(a + b, i);
    lemma_wrapped_shift(a + b, k);
    lemma_wrapped_shift(a - b, i);
    lemma_wrapped_shift(a - b, -k);
    assert((-k) * m == -(k * m)) by (nonlinear_arith);
}

proof fn lemma_wrapping_add(a: i64, b: i64)
    ensures
        a.wrapping_add(b) == wrapped(a + b),
{
    lemma_wrapped_shift(a + b, 1);
    lemma_wrapped_shift(a + b, -1);
    if a + b > i64::MAX {
        lemma_wrapped_small(a + b - 0x1_0000_0000_0000_0000);
    } else if a + b < i64::MIN {
        lemma_wrapped_small(a + b + 0x1_0000_0000_0000_0000);
    } else {
        lemma_wrapped_small(a + b);
    }
}

proof fn lemma_wrapping_sub(a: i64, b: i64)
    ensures
        a.wrapping_sub(b) == wrapped(a - b),
{
    lemma_wrapped_shift(a - b, 1);
    lemma_wrapped_shift(a - b, -1);
    if a - b > i64::MAX {
        lemma_wrapped_small(a - b - 0x1_0000_0000_0000_0000);
    } else if a - b < i64::MIN {
        lemma_wrapped_small(a - b + 0x1_0000_0000_0000_0000);
    } else {
        lemma_wrapped_small(a - b);
    }
}

/// Adding a pair to a represented sum represents the larger sum.
pub proof fn lemma_represents_plus(acc: GradPairFixed, sum: PairSum, x: GradPairFixed, r: GradPairFixed, add: PairSum)
    requires
        acc.represents(sum),
        x.represents(add),
        r.represents(acc.exact().plus(x.exact())),
    ensures
        r.represents(sum.plus(add)),
{
    lemma_wrapped_add(sum.grad, x.grad as int);
    lemma_wrapped_add(sum.hess, x.hess as int);
    lemma_wrapped_add(sum.grad, add.grad);
    lemma_wrapped_add(sum.hess, add.hess);
}

/// Subtracting represented sums represents their difference.
pub proof fn lemma_represents_minus(a: GradPairFixed, sa: PairSum, b: GradPairFixed, sb: PairSum, r: GradPairFixed)
    requires
        a.represents(sa),
        b.represents(sb),
        r.represents(a.exact().minus(b.exact())),
    ensures
        r.represents(sa.minus(sb)),
{
    lemma_wrapped_add(sa.grad, b.grad as int);
    lemma_wrapped_add(sa.hess, b.hess as int);
    lemma_wrapped_add(sa.grad, sb.grad);
    lemma_wrapped_add(sa.hess, sb.hess);
}

/// A pair represents itself.
pub proof fn lemma_represents_self(x: GradPairFixed)
    ensures
        x.represents(x.exact()),
{
    lemma_wrapped_small(x.grad as int);
    lemma_wrapped_small(x.hess as int);
}

/// The rows of a node: those listed, or all of them.
pub open spec fn rows_of(row_idx: Option<&[RowId]>, n_rows: int) -> Seq<int> {
    match row_idx {
        None => Seq::new(n_rows as nat, |i: int| i),
        Some(rows) => rows@.map_values(|row: RowId| row as int),
    }
}

/// The gradients of the first `k` rows, added up.
pub open spec fn row_sum(gpair: Seq<GradPairFixed>, rows: Seq<int>, k: int) -> PairSum
    decreases k,
{
    if k <= 0 {
        PairSum::zero()
    } else {
        row_sum(gpair, rows, k - 1).plus(gpair[rows[k - 1]].exact())
    }
}

/// The gradients of those of the first `k` rows whose bin is `b`, added up. Missing values
/// have no bin.
pub open spec fn bin_sum(
    col: Seq<Bin>,
    gpair: Seq<GradPairFixed>,
    rows: Seq<int>,
    b: int,
    k: int,
) -> PairSum
    decreases k,
{
    if k <= 0 {
        PairSum::zero()
    } else {
        let rest = bin_sum(col, gpair, rows, b, k - 1);
        let row = rows[k - 1];
        if col[row] == b && b != MISSING_BIN {
            rest.plus(gpair[row].exact())
        } else {
            rest
        }
    }
}

/// The column of one feature of a block.
pub open spec fn column_of(block_data: Seq<Bin>, n_rows: int, f: int) -> Seq<Bin> {
    block_data.subrange(f * n_rows, f * n_rows + n_rows)
}

/// Histogram offsets that never fall.
pub open spec fn monotone(offsets: Seq<u32>) -> bool {
    forall|i: int, j: int| 0 <= i <= j < offsets.len() ==> offsets[i] <= offsets[j]
}

/// Every bin of the given rows has a slot or is missing.
pub open spec fn bins_in_range(
    block_data: Seq<Bin>,
    n_rows: int,
    n_feats: int,
    offsets: Seq<u32>,
    rows: Seq<int>,
) -> bool {
    forall|f: int, k: int|
        #![trigger column_of(block_data, n_rows, f)[rows[k]]]
        0 <= f < n_feats && 0 <= k < rows.len() ==> {
            let b = column_of(block_data, n_rows, f)[rows[k]];
            b == MISSING_BIN || b < offsets[f + 1] - offsets[f]
        }
}

/// What the inputs of a histogram must satisfy.
pub open spec fn build_inputs_ok(
    block_data: Seq<Bin>,
    n_rows: int,
    n_feats: int,
    offsets: Seq<u32>,
    gpair_len: int,
    rows: Seq<int>,
) -> bool {
    &&& block_data.len() == n_feats * n_rows
    &&& offsets.len() == n_feats + 1
    &&& monotone(offsets)
    &&& gpair_len == n_rows
    &&& forall|k: int| 0 <= k < rows.len() ==> 0 <= #[trigger] rows[k] < n_rows
    &&& bins_in_range(block_data, n_rows, n_feats, offsets, rows)
}

/// Slot `offsets[f] + b` holds the sum of bin `b` of feature `f` over the rows.
pub open spec fn is_histogram(
    out: Seq<GradPairFixed>,
    block_data: Seq<Bin>,
    n_rows: int,
    n_feats: int,
    offsets: Seq<u32>,
    gpair: Seq<GradPairFixed>,
    rows: Seq<int>,
) -> bool {
    &&& out.len() == offsets[n_feats]
    &&& forall|f: int, b: int|
        #![trigger out[offsets[f] + b]]
        0 <= f < n_feats && 0 <= b < offsets[f + 1] - offsets[f] ==> out[offsets[f] + b].represents(
            bin_sum(column_of(block_data, n_rows, f), gpair, rows, b, rows.len() as int),
        )
    &&& forall|i: int| 0 <= i < offsets[0] ==> #[trigger] out[i].represents(PairSum::zero())
}

/// One row more adds its gradients to the sum of a node, and without rows the sum is zero.
pub proof fn law_a_row_adds_its_gradients(gpair: Seq<GradPairFixed>, rows: Seq<int>, row: int)
    ensures
        ({
            let n = rows.len() as int;
            let before = row_sum(gpair, rows, n);
            let after = row_sum(gpair, rows.push(row), n + 1);
            &&& after.grad == before.grad + gpair[row].grad
            &&& after.hess == before.hess + gpair[row].hess
            &&& n == 0 ==> before.grad == 0 && before.hess == 0
        }),
{
    let n = rows.len() as int;
    lemma_row_sum_of_fewer(gpair, rows, row, n);
    assert(rows.push(row)[n] == row);
}

proof fn lemma_row_sum_of_fewer(gpair: Seq<GradPairFixed>, rows: Seq<int>, row: int, k: int)
    requires
        0 <= k <= rows.len(),
    ensures
        row_sum(gpair, rows.push(row), k) == row_sum(gpair, rows, k),
    decreases k,
{
    if k > 0 {
        lemma_row_sum_of_fewer(gpair, rows, row, k - 1);
        assert(rows.push(row)[k - 1] == rows[k - 1]);
    }
}

/// One row more changes one slot of each feature, that of the row's bin, by the row's gradients, and
/// no slot of a feature that the row has no value of. Of no rows every slot is zero.
pub proof fn law_a_row_changes_its_bins(
    before: Seq<GradPairFixed>,
    after: Seq<GradPairFixed>,
    block_data: Seq<Bin>,
    n_rows: int,
    n_feats: int,
    offsets: Seq<u32>,
    gpair: Seq<GradPairFixed>,
    rows: Seq<int>,
    row: int,
    f: int,
    b: int,
)
    requires
        is_histogram(before, block_data, n_rows, n_feats, offsets, gpair, rows),
        is_histogram(after, block_data, n_rows, n_feats, offsets, gpair, rows.push(row)),
        0 <= row < n_rows,
        0 <= f < n_feats,
        0 <= b < offsets[f + 1] - offsets[f],
        0 <= f * n_rows,
        f * n_rows + n_rows <= block_data.len(),
    ensures
        ({
            let x = before[offsets[f] + b];
            let y = after[offsets[f] + b];
            let bin = block_data[f * n_rows + row];
            if bin == b && bin < 255 {
                &&& (x.grad + gpair[row].grad - y.grad) % 0x1_0000_0000_0000_0000 == 0
                &&& (x.hess + gpair[row].hess - y.hess) % 0x1_0000_0000_0000_0000 == 0
            } else {
                y == x
            }
        }),
        rows.len() == 0 ==> before[offsets[f] + b] == (GradPairFixed { grad: 0, hess: 0 }),
{
    let more = rows.push(row);
    let col = column_of(block_data, n_rows, f);
    let n = rows.len() as int;
    lemma_bin_sum_of_fewer(col, gpair, rows, row, b, n);
    let x = before[offsets[f] + b];
    let y = after[offsets[f] + b];
    assert(col[row] == block_data[f * n_rows + row]);
    assert(more[n] == row);
    let old = bin_sum(col, gpair, rows, b, n);
    let new = bin_sum(col, gpair, more, b, n + 1);
    if col[row] == b && b != MISSING_BIN {
        let g = gpair[row];
        assert(new == old.plus(g.exact()));
        lemma_wrapped_add(old.grad, g.grad as int);
        lemma_wrapped_add(old.hess, g.hess as int);
        lemma_wrapped_differs_by_words(x.grad + g.grad);
        lemma_wrapped_differs_by_words(x.hess + g.hess);
    } else {
        assert(new == old);
    }
    assert(n == 0 ==> old == PairSum::zero());
}

proof fn lemma_wrapped_differs_by_words(x: int)
    ensures
        (x - wrapped(x)) % 0x1_0000_0000_0000_0000 == 0,
{
}

proof fn lemma_bin_sum_of_fewer(
    col: Seq<Bin>,
    gpair: Seq<GradPairFixed>,
    rows: Seq<int>,
    row: int,
    b: int,
    k: int,
)
    requires
        0 <= k <= rows.len(),
    ensures
        bin_sum(col, gpair, rows.push(row), b, k) == bin_sum(col, gpair, rows, b, k),
    decreases k,
{
    if k > 0 {
        lemma_bin_sum_of_fewer(col, gpair, rows, row, b, k - 1);
        assert(rows.push(row)[k - 1] == rows[k - 1]);
    }
}

/// One node's histogram over one column block: `bins[hist_offset(feat) + bin]`.
pub struct Histogram {
    pub bins: Vec<GradPairFixed>,
}

impl Histogram {
    /// A histogram of zeros.
    pub fn zeros(total_bins: usize) -> (h: Self)
        ensures
            h.bins.len() == total_bins,
            forall|i: int| 0 <= i < total_bins ==> #[trigger] h.bins[i].exact() == PairSum::zero(),
    {
        let mut bins: Vec<GradPairFixed> = Vec::with_capacity(total_bins);
        let mut i: usize = 0;
        while i < total_bins
            invariant
                i <= total_bins,
                bins.len() == i,
                forall|k: int| 0 <= k < i ==> #[trigger] bins[k].exact() == PairSum::zero(),
            decreases total_bins - i,
        {
            bins.push(GradPairFixed::zero());
            i += 1;
        }
        Histogram { bins }
    }

    /// The number of slots.
    pub fn len(&self) -> (n: usize)
        ensures
            n == self.bins.len(),
    {
        self.bins.len()
    }

    /// Has it no slots?
    pub fn is_empty(&self) -> (r: bool)
        ensures
            r == (self.bins.len() == 0),
    {
        self.bins.len() == 0
    }
}

/// Rows per tile: one tile's gradients stay in cache while every feature reads them.
pub const DEFAULT_TILE_ROWS: usize = 4096;

/// Rows of one tile: the number that a setting writes, if it is one above zero.
pub fn tile_rows(setting: Option<&str>) -> (t: usize)
    ensures
        t == match setting {
            None => DEFAULT_TILE_ROWS,
            Some(s) => match crate::text::parsed_usize(s@) {
                Some(v) => if v > 0 {
                    v
                } else {
                    DEFAULT_TILE_ROWS
                },
                None => DEFAULT_TILE_ROWS,
            },
        },
        t > 0,
{
    match setting {
        None => DEFAULT_TILE_ROWS,
        Some(s) => match parse_usize(to_chars(s).as_slice()) {
            Some(v) => if v > 0 {
                v
            } else {
                DEFAULT_TILE_ROWS
            },
            None => DEFAULT_TILE_ROWS,
        },
    }
}

fn row_at(row_idx: Option<&[RowId]>, k: usize) -> (row: usize)
    requires
        row_idx matches Some(rows) ==> k < rows@.len(),
    ensures
        row_idx matches Some(rows) ==> row == rows@[k as int],
        row_idx is None ==> row == k,
{
    match row_idx {
        None => k,
        Some(rows) => rows[k] as usize,
    }
}

/// The slots of feature `f` hold the sums over the first `k` rows.
pub open spec fn feature_at(
    out: Seq<GradPairFixed>,
    block_data: Seq<Bin>,
    n_rows: int,
    offsets: Seq<u32>,
    gpair: Seq<GradPairFixed>,
    rows: Seq<int>,
    f: int,
    k: int,
) -> bool {
    forall|b: int|
        #![trigger out[offsets[f] + b]]
        0 <= b < offsets[f + 1] - offsets[f] ==> out[offsets[f] + b].represents(
            bin_sum(column_of(block_data, n_rows, f), gpair, rows, b, k),
        )
}

/// Slots outside feature `f` are the same.
pub open spec fn same_outside(
    a: Seq<GradPairFixed>,
    b: Seq<GradPairFixed>,
    offsets: Seq<u32>,
    f: int,
) -> bool {
    &&& a.len() == b.len()
    &&& forall|i: int|
        0 <= i < a.len() && !(offsets[f] <= i < offsets[f + 1]) ==> #[trigger] a[i] == b[i]
}

/// Changing one feature's slots leaves another feature's sums alone.
pub proof fn lemma_other_feature_kept(
    a: Seq<GradPairFixed>,
    b: Seq<GradPairFixed>,
    block_data: Seq<Bin>,
    n_rows: int,
    offsets: Seq<u32>,
    gpair: Seq<GradPairFixed>,
    rows: Seq<int>,
    f: int,
    g: int,
    k: int,
)
    requires
        monotone(offsets),
        0 <= f < offsets.len() - 1,
        0 <= g < offsets.len() - 1,
        f != g,
        a.len() == offsets[offsets.len() - 1],
        same_outside(a, b, offsets, f),
        feature_at(a, block_data, n_rows, offsets, gpair, rows, g, k),
    ensures
        feature_at(b, block_data, n_rows, offsets, gpair, rows, g, k),
{
    assert forall|c: int|
        #![trigger b[offsets[g] + c]]
        0 <= c < offsets[g + 1] - offsets[g] implies b[offsets[g] + c].represents(
        bin_sum(column_of(block_data, n_rows, g), gpair, rows, c, k),
    ) by {
        assert(offsets[g + 1] <= offsets[offsets.len() - 1]);
        if f < g {
            assert(offsets[f + 1] <= offsets[g]);
        } else {
            assert(offsets[g + 1] <= offsets[f]);
        }
        assert(a[offsets[g] + c] == b[offsets[g] + c]);
    }
}

/// Adds the rows `k0 .. k1` of one feature.
pub(crate) fn accumulate_column(
    block_data: &[Bin],
    block_n_rows: usize,
    n_feats: usize,
    f: usize,
    feat_offsets: &[u32],
    gpair: &[GradPairFixed],
    row_idx: Option<&[RowId]>,
    k0: usize,
    k1: usize,
    out: &mut Vec<GradPairFixed>,
)
    requires
        build_inputs_ok(
            block_data@,
            block_n_rows as int,
            n_feats as int,
            feat_offsets@,
            gpair@.len() as int,
            rows_of(row_idx, block_n_rows as int),
        ),
        f < n_feats,
        k0 <= k1 <= rows_of(row_idx, block_n_rows as int).len(),
        old(out)@.len() == feat_offsets@[n_feats as int],
        feature_at(
            old(out)@,
            block_data@,
            block_n_rows as int,
            feat_offsets@,
            gpair@,
            rows_of(row_idx, block_n_rows as int),
            f as int,
            k0 as int,
        ),
    ensures
        feature_at(
            final(out)@,
            block_data@,
            block_n_rows as int,
            feat_offsets@,
            gpair@,
            rows_of(row_idx, block_n_rows as int),
            f as int,
            k1 as int,
        ),
        same_outside(old(out)@, final(out)@, feat_offsets@, f as int),
{
    let ghost rows = rows_of(row_idx, block_n_rows as int);
    let ghost nr = block_n_rows as int;
    let ghost nf = n_feats as int;
    let data_len: usize = block_data.len();
    proof {
        lemma_column_in_bounds(f as int, nf, nr);
        assert(feat_offsets@[f + 1] <= feat_offsets@[nf]);
    }
    let col_start: usize = f * block_n_rows;
    let hist_start: usize = feat_offsets[f] as usize;
    let mut k: usize = k0;
    while k < k1
        invariant
            nr == block_n_rows,
            nf == n_feats,
            rows == rows_of(row_idx, nr),
            k0 <= k <= k1 <= rows.len(),
            f < n_feats,
            col_start == f * block_n_rows,
            col_start + block_n_rows <= data_len,
            data_len == block_data@.len(),
            hist_start == feat_offsets@[f as int],
            feat_offsets@[f + 1] <= feat_offsets@[nf],
            build_inputs_ok(block_data@, nr, nf, feat_offsets@, gpair@.len() as int, rows),
            out@.len() == feat_offsets@[nf],
            feature_at(
                out@,
                block_data@,
                nr,
                feat_offsets@,
                gpair@,
                rows,
                f as int,
                k as int,
            ),
            same_outside(old(out)@, out@, feat_offsets@, f as int),
        decreases k1 - k,
    {
        let row: usize = row_at(row_idx, k);
        assert(row == rows[k as int]);
        let b: Bin = block_data[col_start + row];
        let ghost col = column_of(block_data@, nr, f as int);
        assert(b == col[rows[k as int]]);
        let ghost before = out@;
        if b != MISSING_BIN {
            let slot: usize = hist_start + b as usize;
            let old_pair: GradPairFixed = out[slot];
            let new_pair: GradPairFixed = old_pair.plus(gpair[row]);
            out.set(slot, new_pair);
            proof {
                let sum = bin_sum(col, gpair@, rows, b as int, k as int);
                assert(before[feat_offsets@[f as int] + b].represents(sum));
                lemma_represents_self(gpair@[row as int]);
                lemma_represents_plus(
                    old_pair,
                    sum,
                    gpair@[row as int],
                    new_pair,
                    gpair@[row as int].exact(),
                );
            }
        }
        proof {
            assert forall|c: int|
                #![trigger out@[feat_offsets@[f as int] + c]]
                0 <= c < feat_offsets@[f + 1]
                    - feat_offsets@[f as int] implies out@[feat_offsets@[f as int]
                + c].represents(bin_sum(col, gpair@, rows, c, k + 1)) by {
                if b != MISSING_BIN && c == b {
                } else {
                    assert(out@[feat_offsets@[f as int] + c] == before[feat_offsets@[f as int]
                        + c]);
                }
            }
        }
        k += 1;
    }
}

/// Each feature `g` holds the sums over its first `progress[g]` rows.
pub open spec fn at_progress(
    out: Seq<GradPairFixed>,
    block_data: Seq<Bin>,
    n_rows: int,
    n_feats: int,
    offsets: Seq<u32>,
    gpair: Seq<GradPairFixed>,
    rows: Seq<int>,
    progress: Seq<int>,
) -> bool {
    &&& out.len() == offsets[n_feats]
    &&& progress.len() == n_feats
    &&& forall|g: int|
        #![trigger progress[g]]
        0 <= g < n_feats ==> feature_at(
            out,
            block_data,
            n_rows,
            offsets,
            gpair,
            rows,
            g,
            progress[g],
        )
    &&& forall|i: int| 0 <= i < offsets[0] ==> #[trigger] out[i].represents(PairSum::zero())
}

/// The same progress for every feature.
pub open spec fn even_progress(n_feats: int, k: int) -> Seq<int> {
    Seq::new(n_feats as nat, |g: int| k)
}

/// Zeros are the sums over no rows.
pub proof fn lemma_zeros_are_empty_sums(
    out: Seq<GradPairFixed>,
    block_data: Seq<Bin>,
    n_rows: int,
    n_feats: int,
    offsets: Seq<u32>,
    gpair: Seq<GradPairFixed>,
    rows: Seq<int>,
)
    requires
        0 <= n_feats,
        offsets.len() == n_feats + 1,
        monotone(offsets),
        out.len() == offsets[n_feats],
        forall|i: int| 0 <= i < out.len() ==> (#[trigger] out[i]).exact() == PairSum::zero(),
    ensures
        at_progress(
            out,
            block_data,
            n_rows,
            n_feats,
            offsets,
            gpair,
            rows,
            even_progress(n_feats, 0),
        ),
{
    assert(offsets[0] <= offsets[n_feats]);
    assert forall|i: int| 0 <= i < out.len() implies #[trigger] out[i].represents(
        PairSum::zero(),
    ) by {
        assert(out[i].exact() == PairSum::zero());
    }
    assert forall|g: int| 0 <= g < n_feats implies #[trigger] feature_at(
        out,
        block_data,
        n_rows,
        offsets,
        gpair,
        rows,
        g,
        0,
    ) by {
        assert(offsets[g + 1] <= offsets[n_feats]);
    }
}

/// Sums over all rows make a histogram.
pub proof fn lemma_full_sums_are_histogram(
    out: Seq<GradPairFixed>,
    block_data: Seq<Bin>,
    n_rows: int,
    n_feats: int,
    offsets: Seq<u32>,
    gpair: Seq<GradPairFixed>,
    rows: Seq<int>,
    progress: Seq<int>,
)
    requires
        at_progress(out, block_data, n_rows, n_feats, offsets, gpair, rows, progress),
        forall|g: int| 0 <= g < n_feats ==> #[trigger] progress[g] == rows.len(),
    ensures
        is_histogram(out, block_data, n_rows, n_feats, offsets, gpair, rows),
{
    assert forall|f: int, b: int|
        #![trigger out[offsets[f] + b]]
        0 <= f < n_feats && 0 <= b < offsets[f + 1] - offsets[f] implies out[offsets[f]
        + b].represents(
        bin_sum(column_of(block_data, n_rows, f), gpair, rows, b, rows.len() as int),
    ) by {
        assert(progress[f] == rows.len());
    }
}

/// One feature has moved on, the others have stayed.
pub proof fn lemma_progress_step(
    before: Seq<GradPairFixed>,
    after: Seq<GradPairFixed>,
    block_data: Seq<Bin>,
    n_rows: int,
    n_feats: int,
    offsets: Seq<u32>,
    gpair: Seq<GradPairFixed>,
    rows: Seq<int>,
    progress: Seq<int>,
    f: int,
    k: int,
)
    requires
        0 <= f < n_feats,
        offsets.len() == n_feats + 1,
        monotone(offsets),
        at_progress(before, block_data, n_rows, n_feats, offsets, gpair, rows, progress),
        same_outside(before, after, offsets, f),
        feature_at(after, block_data, n_rows, offsets, gpair, rows, f, k),
    ensures
        at_progress(
            after,
            block_data,
            n_rows,
            n_feats,
            offsets,
            gpair,
            rows,
            progress.update(f, k),
        ),
{
    let next = progress.update(f, k);
    assert forall|g: int| #![trigger next[g]] 0 <= g < n_feats implies feature_at(
        after,
        block_data,
        n_rows,
        offsets,
        gpair,
        rows,
        g,
        next[g],
    ) by {
        if g != f {
            assert(next[g] == progress[g]);
            lemma_other_feature_kept(
                before,
                after,
                block_data,
                n_rows,
                offsets,
                gpair,
                rows,
                f,
                g,
                progress[g],
            );
        }
    }
    assert forall|i: int| 0 <= i < offsets[0] implies #[trigger] after[i].represents(
        PairSum::zero(),
    ) by {
        assert(offsets[0] <= offsets[f]);
        assert(offsets[0] <= offsets[n_feats]);
        assert(before[i] == after[i]);
    }
}

/// Adds the rows `k0 .. k1` of the features `f0 .. f1`; the others stay as they are.
pub(crate) fn accumulate_features(
    block_data: &[Bin],
    block_n_rows: usize,
    n_feats: usize,
    f0: usize,
    f1: usize,
    feat_offsets: &[u32],
    gpair: &[GradPairFixed],
    row_idx: Option<&[RowId]>,
    k0: usize,
    k1: usize,
    Ghost(progress): Ghost<Seq<int>>,
    out: &mut Vec<GradPairFixed>,
)
    requires
        build_inputs_ok(
            block_data@,
            block_n_rows as int,
            n_feats as int,
            feat_offsets@,
            gpair@.len() as int,
            rows_of(row_idx, block_n_rows as int),
        ),
        f0 <= f1 <= n_feats,
        k0 <= k1 <= rows_of(row_idx, block_n_rows as int).len(),
        at_progress(
            old(out)@,
            block_data@,
            block_n_rows as int,
            n_feats as int,
            feat_offsets@,
            gpair@,
            rows_of(row_idx, block_n_rows as int),
            progress,
        ),
        forall|g: int| f0 <= g < f1 ==> #[trigger] progress[g] == k0,
    ensures
        at_progress(
            final(out)@,
            block_data@,
            block_n_rows as int,
            n_feats as int,
            feat_offsets@,
            gpair@,
            rows_of(row_idx, block_n_rows as int),
            advance(progress, f0 as int, f1 as int, k1 as int),
        ),
{
    let ghost rows = rows_of(row_idx, block_n_rows as int);
    let ghost nr = block_n_rows as int;
    let ghost nf = n_feats as int;
    let mut f: usize = f0;
    assert(advance(progress, f0 as int, f0 as int, k1 as int) =~= progress);
    while f < f1
        invariant
            nr == block_n_rows,
            nf == n_feats,
            rows == rows_of(row_idx, nr),
            f0 <= f <= f1 <= n_feats,
            k0 <= k1 <= rows.len(),
            build_inputs_ok(block_data@, nr, nf, feat_offsets@, gpair@.len() as int, rows),
            progress.len() == nf,
            forall|g: int| f0 <= g < f1 ==> #[trigger] progress[g] == k0,
            at_progress(
                out@,
                block_data@,
                nr,
                nf,
                feat_offsets@,
                gpair@,
                rows,
                advance(progress, f0 as int, f as int, k1 as int),
            ),
        decreases f1 - f,
    {
        let ghost before = out@;
        let ghost now = advance(progress, f0 as int, f as int, k1 as int);
        assert(now[f as int] == progress[f as int]);
        accumulate_column(
            block_data,
            block_n_rows,
            n_feats,
            f,
            feat_offsets,
            gpair,
            row_idx,
            k0,
            k1,
            out,
        );
        proof {
            lemma_progress_step(
                before,
                out@,
                block_data@,
                nr,
                nf,
                feat_offsets@,
                gpair@,
                rows,
                now,
                f as int,
                k1 as int,
            );
            assert(now.update(f as int, k1 as int) =~= advance(
                progress,
                f0 as int,
                f + 1,
                k1 as int,
            ));
        }
        f += 1;
    }
}

/// Progress with the features `f0 .. f1` brought to `k`.
pub open spec fn advance(progress: Seq<int>, f0: int, f1: int, k: int) -> Seq<int> {
    Seq::new(
        progress.len(),
        |g: int|
            if f0 <= g < f1 {
                k
            } else {
                progress[g]
            },
    )
}

/// Accumulates the gradients of a node's rows into `out`, which comes in as zeros.
///
/// Rows are taken tile by tile, and within a tile feature by feature; the result does not
/// depend on `tile`. Missing values are skipped.
pub fn build_tiled(
    block_data: &[Bin],
    block_n_rows: usize,
    n_feats: usize,
    feat_offsets: &[u32],
    gpair: &[GradPairFixed],
    row_idx: Option<&[RowId]>,
    tile: usize,
    out: &mut Vec<GradPairFixed>,
)
    requires
        tile > 0,
        build_inputs_ok(
            block_data@,
            block_n_rows as int,
            n_feats as int,
            feat_offsets@,
            gpair@.len() as int,
            rows_of(row_idx, block_n_rows as int),
        ),
        old(out)@.len() == feat_offsets@[n_feats as int],
        forall|i: int|
            0 <= i < old(out)@.len() ==> #[trigger] old(out)@[i].exact() == PairSum::zero(),
    ensures
        is_histogram(
            final(out)@,
            block_data@,
            block_n_rows as int,
            n_feats as int,
            feat_offsets@,
            gpair@,
            rows_of(row_idx, block_n_rows as int),
        ),
{
    let ghost rows = rows_of(row_idx, block_n_rows as int);
    let ghost nr = block_n_rows as int;
    let ghost nf = n_feats as int;
    let n_sel: usize = match row_idx {
        None => block_n_rows,
        Some(r) => r.len(),
    };
    assert(n_sel == rows.len());
    let mut start: usize = 0;
    proof {
        lemma_zeros_are_empty_sums(out@, block_data@, nr, nf, feat_offsets@, gpair@, rows);
    }
    while start < n_sel
        invariant
            tile > 0,
            nr == block_n_rows,
            nf == n_feats,
            rows == rows_of(row_idx, nr),
            n_sel == rows.len(),
            start <= n_sel,
            build_inputs_ok(block_data@, nr, nf, feat_offsets@, gpair@.len() as int, rows),
            at_progress(
                out@,
                block_data@,
                nr,
                nf,
                feat_offsets@,
                gpair@,
                rows,
                even_progress(nf, start as int),
            ),
        decreases n_sel - start,
    {
        let width: usize = min_usize(tile, n_sel - start);
        let end: usize = start + width;
        let ghost progress = even_progress(nf, start as int);
        accumulate_features(
            block_data,
            block_n_rows,
            n_feats,
            0,
            n_feats,
            feat_offsets,
            gpair,
            row_idx,
            start,
            end,
            Ghost(progress),
            out,
        );
        assert(advance(progress, 0, nf, end as int) =~= even_progress(nf, end as int));
        start = end;
    }
    proof {
        lemma_full_sums_are_histogram(
            out@,
            block_data@,
            nr,
            nf,
            feat_offsets@,
            gpair@,
            rows,
            even_progress(nf, n_sel as int),
        );
    }
}

/// Accumulates the gradients of a node's rows into `out`, which comes in as zeros.
pub fn build(
    block_data: &[Bin],
    block_n_rows: usize,
    n_feats: usize,
    feat_offsets: &[u32],
    gpair: &[GradPairFixed],
    row_idx: Option<&[RowId]>,
    out: &mut Vec<GradPairFixed>,
)
    requires
        build_inputs_ok(
            block_data@,
            block_n_rows as int,
            n_feats as int,
            feat_offsets@,
            gpair@.len() as int,
            rows_of(row_idx, block_n_rows as int),
        ),
        old(out)@.len() == feat_offsets@[n_feats as int],
        forall|i: int|
            0 <= i < old(out)@.len() ==> #[trigger] old(out)@[i].exact() == PairSum::zero(),
    ensures
        is_histogram(
            final(out)@,
            block_data@,
            block_n_rows as int,
            n_feats as int,
            feat_offsets@,
            gpair@,
            rows_of(row_idx, block_n_rows as int),
        ),
{
    build_tiled(
        block_data,
        block_n_rows,
        n_feats,
        feat_offsets,
        gpair,
        row_idx,
        DEFAULT_TILE_ROWS,
        out,
    )
}

/// The histograms of every node over one column block.
pub fn build_all_nodes(
    block_data: &[Bin],
    block_n_rows: usize,
    n_feats: usize,
    feat_offsets: &[u32],
    gpair: &[GradPairFixed],
    node_rows: &[Vec<RowId>],
    out: &mut Vec<Histogram>,
)
    requires
        node_rows@.len() == old(out)@.len(),
        forall|i: int|
            0 <= i < node_rows@.len() ==> build_inputs_ok(
                block_data@,
                block_n_rows as int,
                n_feats as int,
                feat_offsets@,
                gpair@.len() as int,
                (#[trigger] node_rows@[i])@.map_values(|row: RowId| row as int),
            ),
        forall|i: int, j: int|
            0 <= i < node_rows@.len() && 0 <= j < old(out)@[i].bins@.len()
                ==> #[trigger] old(out)@[i].bins@[j].exact() == PairSum::zero(),
        forall|i: int|
            0 <= i < node_rows@.len() ==> (#[trigger] old(out)@[i]).bins@.len()
                == feat_offsets@[n_feats as int],
    ensures
        final(out)@.len() == node_rows@.len(),
        forall|i: int|
            #![trigger final(out)@[i]]
            0 <= i < node_rows@.len() ==> is_histogram(
                final(out)@[i].bins@,
                block_data@,
                block_n_rows as int,
                n_feats as int,
                feat_offsets@,
                gpair@,
                node_rows@[i]@.map_values(|row: RowId| row as int),
            ),
{
    let mut i: usize = 0;
    while i < node_rows.len()
        invariant
            i <= node_rows@.len(),
            out@.len() == node_rows@.len(),
            forall|k: int|
                0 <= k < node_rows@.len() ==> build_inputs_ok(
                    block_data@,
                    block_n_rows as int,
                    n_feats as int,
                    feat_offsets@,
                    gpair@.len() as int,
                    (#[trigger] node_rows@[k])@.map_values(|row: RowId| row as int),
                ),
            forall|k: int, j: int|
                i <= k < node_rows@.len() && 0 <= j < out@[k].bins@.len()
                    ==> #[trigger] out@[k].bins@[j].exact() == PairSum::zero(),
            forall|k: int|
                i <= k < node_rows@.len() ==> (#[trigger] out@[k]).bins@.len()
                    == feat_offsets@[n_feats as int],
            forall|k: int|
                #![trigger out@[k]]
                0 <= k < i ==> is_histogram(
                    out@[k].bins@,
                    block_data@,
                    block_n_rows as int,
                    n_feats as int,
                    feat_offsets@,
                    gpair@,
                    node_rows@[k]@.map_values(|row: RowId| row as int),
                ),
        decreases node_rows.len() - i,
    {
        let mut hist: Histogram = Histogram { bins: Vec::new() };
        core::mem::swap(&mut hist, &mut out[i]);
        build(
            block_data,
            block_n_rows,
            n_feats,
            feat_offsets,
            gpair,
            Some(node_rows[i].as_slice()),
            &mut hist.bins,
        );
        out.set(i, hist);
        i += 1;
    }
}

/// Rows from which a node's sum is split over threads.
pub const PARALLEL_MIN_ROWS: usize = 65_536;

/// Rows that one thread adds up at a time.
pub const SUM_PART_ROWS: usize = 16_384;

/// The gradients of rows `lo` to `hi`, added up.
pub open spec fn range_sum(gpair: Seq<GradPairFixed>, rows: Seq<int>, lo: int, hi: int) -> PairSum {
    row_sum(gpair, rows, hi).minus(row_sum(gpair, rows, lo))
}

/// The rows of a node all exist.
pub open spec fn rows_exist(rows: Seq<int>, n_rows: int) -> bool {
    forall|k: int| 0 <= k < rows.len() ==> 0 <= #[trigger] rows[k] < n_rows
}

/// Adds up the gradients of rows `lo` to `hi` of a node.
fn sum_range(gpair: &[GradPairFixed], row_idx: Option<&[RowId]>, lo: usize, hi: usize) -> (r:
    GradPairFixed)
    requires
        lo <= hi <= rows_of(row_idx, gpair@.len() as int).len(),
        rows_exist(rows_of(row_idx, gpair@.len() as int), gpair@.len() as int),
    ensures
        r.represents(
            range_sum(gpair@, rows_of(row_idx, gpair@.len() as int), lo as int, hi as int),
        ),
{
    let ghost rows = rows_of(row_idx, gpair@.len() as int);
    let mut acc: GradPairFixed = GradPairFixed::zero();
    let mut k: usize = lo;
    while k < hi
        invariant
            rows == rows_of(row_idx, gpair@.len() as int),
            lo <= k <= hi <= rows.len(),
            rows_exist(rows, gpair@.len() as int),
            acc.represents(range_sum(gpair@, rows, lo as int, k as int)),
        decreases hi - k,
    {
        let row: usize = row_at(row_idx, k);
        assert(row == rows[k as int]);
        let next: GradPairFixed = acc.plus(gpair[row]);
        proof {
            lemma_represents_self(gpair@[row as int]);
            lemma_represents_plus(
                acc,
                range_sum(gpair@, rows, lo as int, k as int),
                gpair@[row as int],
                next,
                gpair@[row as int].exact(),
            );
        }
        acc = next;
        k += 1;
    }
    acc
}

/// Adds up the gradients of a node over the threads of the pool: parts of the rows are added up
/// at once, and the sums of the parts one after the other. The sum is exact modulo 2^64, so where
/// the parts are cut does not matter.
fn parallel_sum(gpair: &[GradPairFixed], row_idx: Option<&[RowId]>, n: usize) -> (r: GradPairFixed)
    requires
        n == rows_of(row_idx, gpair@.len() as int).len(),
        rows_exist(rows_of(row_idx, gpair@.len() as int), gpair@.len() as int),
    ensures
        r.represents(row_sum(gpair@, rows_of(row_idx, gpair@.len() as int), n as int)),
{
    let ghost rows = rows_of(row_idx, gpair@.len() as int);
    let n_parts: usize = div_ceil_usize(n, SUM_PART_ROWS);
    let one = |c: usize| -> (r: GradPairFixed)
        requires
            c < n_parts,
            n_parts == crate::math::ceil_div(n as int, SUM_PART_ROWS as int),
            n == rows_of(row_idx, gpair@.len() as int).len(),
            rows_exist(rows_of(row_idx, gpair@.len() as int), gpair@.len() as int),
        ensures
            r.represents(
                range_sum(
                    gpair@,
                    rows_of(row_idx, gpair@.len() as int),
                    c * SUM_PART_ROWS,
                    crate::math::imin((c + 1) * SUM_PART_ROWS, n as int),
                ),
            ),
        {
            proof {
                crate::math::lemma_ceil_div_least(n as int, SUM_PART_ROWS as int, c as int);
            }
            let lo: usize = c * SUM_PART_ROWS;
            let hi: usize = lo + min_usize(SUM_PART_ROWS, n - lo);
            sum_range(gpair, row_idx, lo, hi)
        };
    let parts: Vec<GradPairFixed> = map_indices(n_parts, one);
    let mut acc: GradPairFixed = GradPairFixed::zero();
    let mut c: usize = 0;
    while c < n_parts
        invariant
            c <= n_parts,
            n_parts == crate::math::ceil_div(n as int, SUM_PART_ROWS as int),
            parts@.len() == n_parts,
            rows == rows_of(row_idx, gpair@.len() as int),
            forall|i: int|
                0 <= i < n_parts ==> one.ensures((i as usize,), #[trigger] parts@[i]),
            forall|i: usize, s: GradPairFixed| #[trigger]
                one.ensures((i,), s) ==> s.represents(
                    range_sum(
                        gpair@,
                        rows,
                        i * SUM_PART_ROWS,
                        crate::math::imin((i + 1) * SUM_PART_ROWS, n as int),
                    ),
                ),
            acc.represents(
                row_sum(
                    gpair@,
                    rows,
                    crate::math::imin(c * SUM_PART_ROWS, n as int),
                ),
            ),
        decreases n_parts - c,
    {
        let part: GradPairFixed = parts[c];
        let next: GradPairFixed = acc.plus(part);
        proof {
            crate::math::lemma_ceil_div_least(n as int, SUM_PART_ROWS as int, c as int);
            let lo = c * SUM_PART_ROWS;
            let hi = crate::math::imin((c + 1) * SUM_PART_ROWS, n as int);
            assert(one.ensures((c,), parts@[c as int]));
            lemma_represents_plus(
                acc,
                row_sum(gpair@, rows, lo),
                part,
                next,
                range_sum(gpair@, rows, lo, hi),
            );
        }
        acc = next;
        c += 1;
    }
    proof {
        crate::math::lemma_ceil_div(n as int, SUM_PART_ROWS as int);
    }
    acc
}

/// Adds up the gradients of a node, missing values included.
pub fn node_sum(gpair: &[GradPairFixed], row_idx: Option<&[RowId]>) -> (r: GradPairFixed)
    requires
        rows_exist(rows_of(row_idx, gpair@.len() as int), gpair@.len() as int),
    ensures
        r.represents(
            row_sum(
                gpair@,
                rows_of(row_idx, gpair@.len() as int),
                rows_of(row_idx, gpair@.len() as int).len() as int,
            ),
        ),
{
    let n: usize = match row_idx {
        None => gpair.len(),
        Some(r) => r.len(),
    };
    if n >= PARALLEL_MIN_ROWS {
        return parallel_sum(gpair, row_idx, n);
    }
    let sum: GradPairFixed = sum_range(gpair, row_idx, 0, n);
    proof {
        let rows = rows_of(row_idx, gpair@.len() as int);
        assert(range_sum(gpair@, rows, 0, n as int) == row_sum(gpair@, rows, n as int));
    }
    sum
}

/// `out = parent - child`, slot by slot.
pub fn subtract(parent: &Histogram, child: &Histogram, out: &mut Histogram)
    requires
        old(out).bins@.len() <= parent.bins@.len(),
        old(out).bins@.len() <= child.bins@.len(),
    ensures
        final(out).bins@.len() == old(out).bins@.len(),
        forall|i: int|
            0 <= i < final(out).bins@.len() ==> (#[trigger] final(out).bins@[i]).represents(
                parent.bins@[i].exact().minus(child.bins@[i].exact()),
            ),
{
    let n: usize = out.bins.len();
    let mut i: usize = 0;
    while i < n
        invariant
            i <= n,
            n == out.bins@.len(),
            n == old(out).bins@.len(),
            n <= parent.bins@.len(),
            n <= child.bins@.len(),
            forall|k: int|
                0 <= k < i ==> (#[trigger] out.bins@[k]).represents(
                    parent.bins@[k].exact().minus(child.bins@[k].exact()),
                ),
        decreases n - i,
    {
        let d: GradPairFixed = parent.bins[i].minus(child.bins[i]);
        out.bins.set(i, d);
        i += 1;
    }
}

/// `parent = parent - child`, slot by slot, in the parent's storage.
pub fn subtract_in_place(parent: &mut Histogram, child: &Histogram)
    requires
        old(parent).bins@.len() == child.bins@.len(),
    ensures
        final(parent).bins@.len() == old(parent).bins@.len(),
        forall|i: int|
            0 <= i < final(parent).bins@.len() ==> (#[trigger] final(parent).bins@[i]).represents(
                old(parent).bins@[i].exact().minus(child.bins@[i].exact()),
            ),
{
    let n: usize = parent.bins.len();
    let mut i: usize = 0;
    while i < n
        invariant
            i <= n,
            n == parent.bins@.len(),
            n == old(parent).bins@.len(),
            n == child.bins@.len(),
            forall|k: int|
                0 <= k < i ==> (#[trigger] parent.bins@[k]).represents(
                    old(parent).bins@[k].exact().minus(child.bins@[k].exact()),
                ),
            forall|k: int| i <= k < n ==> #[trigger] parent.bins@[k] == old(parent).bins@[k],
        decreases n - i,
    {
        let d: GradPairFixed = parent.bins[i].minus(child.bins[i]);
        parent.bins.set(i, d);
        i += 1;
    }
}

/// A sum of weights over rows.
pub open spec fn weight_sum(rows: Seq<int>, w: spec_fn(int) -> PairSum) -> PairSum
    decreases rows.len(),
{
    if rows.len() == 0 {
        PairSum::zero()
    } else {
        weight_sum(rows.drop_last(), w).plus(w(rows.last()))
    }
}

/// What a row adds to a bin.
pub open spec fn bin_weight(col: Seq<Bin>, gpair: Seq<GradPairFixed>, b: int) -> spec_fn(
    int,
) -> PairSum {
    |row: int|
        if col[row] == b && b != MISSING_BIN {
            gpair[row].exact()
        } else {
            PairSum::zero()
        }
}

/// What a row adds to a node's sum.
pub open spec fn row_weight(gpair: Seq<GradPairFixed>) -> spec_fn(int) -> PairSum {
    |row: int| gpair[row].exact()
}

proof fn lemma_bin_sum_is_weight_sum(
    col: Seq<Bin>,
    gpair: Seq<GradPairFixed>,
    rows: Seq<int>,
    b: int,
    k: int,
)
    requires
        0 <= k <= rows.len(),
    ensures
        bin_sum(col, gpair, rows, b, k) == weight_sum(rows.take(k), bin_weight(col, gpair, b)),
    decreases k,
{
    if k > 0 {
        lemma_bin_sum_is_weight_sum(col, gpair, rows, b, k - 1);
        assert(rows.take(k).drop_last() =~= rows.take(k - 1));
    }
}

proof fn lemma_row_sum_is_weight_sum(gpair: Seq<GradPairFixed>, rows: Seq<int>, k: int)
    requires
        0 <= k <= rows.len(),
    ensures
        row_sum(gpair, rows, k) == weight_sum(rows.take(k), row_weight(gpair)),
    decreases k,
{
    if k > 0 {
        lemma_row_sum_is_weight_sum(gpair, rows, k - 1);
        assert(rows.take(k).drop_last() =~= rows.take(k - 1));
    }
}

proof fn lemma_weight_sum_remove(rows: Seq<int>, w: spec_fn(int) -> PairSum, i: int)
    requires
        0 <= i < rows.len(),
    ensures
        weight_sum(rows, w) == weight_sum(rows.remove(i), w).plus(w(rows[i])),
    decreases rows.len(),
{
    if i == rows.len() - 1 {
        assert(rows.remove(i) =~= rows.drop_last());
    } else {
        lemma_weight_sum_remove(rows.drop_last(), w, i);
        assert(rows.remove(i).drop_last() =~= rows.drop_last().remove(i));
        assert(rows.remove(i).last() == rows.last());
    }
}

proof fn lemma_weight_sum_of_permutation(a: Seq<int>, b: Seq<int>, w: spec_fn(int) -> PairSum)
    requires
        a.to_multiset() =~= b.to_multiset(),
    ensures
        weight_sum(a, w) == weight_sum(b, w),
    decreases a.len(),
{
    broadcast use vstd::seq_lib::group_to_multiset_ensures;

    assert(a.len() == a.to_multiset().len());
    assert(b.len() == b.to_multiset().len());
    if a.len() > 0 {
        let x = a.last();
        assert(a[a.len() - 1] == x);
        assert(a.contains(x));
        assert(a.to_multiset().count(x) > 0);
        assert(b.contains(x));
        let i = choose|i: int| 0 <= i < b.len() && b[i] == x;
        lemma_weight_sum_remove(b, w, i);
        assert(a.drop_last() =~= a.remove(a.len() - 1));
        assert(a.drop_last().to_multiset() =~= b.remove(i).to_multiset());
        lemma_weight_sum_of_permutation(a.drop_last(), b.remove(i), w);
    }
}

proof fn lemma_weight_sum_concat(a: Seq<int>, b: Seq<int>, w: spec_fn(int) -> PairSum)
    ensures
        weight_sum(a + b, w) == weight_sum(a, w).plus(weight_sum(b, w)),
    decreases b.len(),
{
    if b.len() == 0 {
        assert(a + b =~= a);
    } else {
        lemma_weight_sum_concat(a, b.drop_last(), w);
        assert((a + b).drop_last() =~= a + b.drop_last());
    }
}

/// Rows one after the other add to a bin what the first and the second part of them add.
pub proof fn lemma_bin_sum_concat(
    col: Seq<Bin>,
    gpair: Seq<GradPairFixed>,
    a: Seq<int>,
    b: Seq<int>,
    bin: int,
)
    ensures
        bin_sum(col, gpair, a + b, bin, (a + b).len() as int) == bin_sum(
            col,
            gpair,
            a,
            bin,
            a.len() as int,
        ).plus(bin_sum(col, gpair, b, bin, b.len() as int)),
{
    let all = a + b;
    lemma_bin_sum_is_weight_sum(col, gpair, all, bin, all.len() as int);
    lemma_bin_sum_is_weight_sum(col, gpair, a, bin, a.len() as int);
    lemma_bin_sum_is_weight_sum(col, gpair, b, bin, b.len() as int);
    assert(all.take(all.len() as int) =~= all);
    assert(a.take(a.len() as int) =~= a);
    assert(b.take(b.len() as int) =~= b);
    lemma_weight_sum_concat(a, b, bin_weight(col, gpair, bin));
}

/// The order of the rows changes neither a bin nor a node's sum.
pub proof fn law_row_order_does_not_matter(
    col: Seq<Bin>,
    gpair: Seq<GradPairFixed>,
    a: Seq<int>,
    b: Seq<int>,
    bin: int,
)
    requires
        a.to_multiset() =~= b.to_multiset(),
    ensures
        bin_sum(col, gpair, a, bin, a.len() as int) == bin_sum(col, gpair, b, bin, b.len() as int),
        row_sum(gpair, a, a.len() as int) == row_sum(gpair, b, b.len() as int),
{
    lemma_bin_sum_is_weight_sum(col, gpair, a, bin, a.len() as int);
    lemma_bin_sum_is_weight_sum(col, gpair, b, bin, b.len() as int);
    lemma_row_sum_is_weight_sum(gpair, a, a.len() as int);
    lemma_row_sum_is_weight_sum(gpair, b, b.len() as int);
    assert(a.take(a.len() as int) =~= a);
    assert(b.take(b.len() as int) =~= b);
    lemma_weight_sum_of_permutation(a, b, bin_weight(col, gpair, bin));
    lemma_weight_sum_of_permutation(a, b, row_weight(gpair));
}

/// Where a parent's rows are those of its two children, in any order, each bin of the
/// parent is the sum of the children's bins.
pub proof fn law_children_add_up_to_parent(
    col: Seq<Bin>,
    gpair: Seq<GradPairFixed>,
    parent: Seq<int>,
    left: Seq<int>,
    right: Seq<int>,
    bin: int,
)
    requires
        parent.to_multiset() =~= (left + right).to_multiset(),
    ensures
        bin_sum(col, gpair, parent, bin, parent.len() as int) == bin_sum(
            col,
            gpair,
            left,
            bin,
            left.len() as int,
        ).plus(bin_sum(col, gpair, right, bin, right.len() as int)),
{
    let both = left + right;
    let w = bin_weight(col, gpair, bin);
    law_row_order_does_not_matter(col, gpair, parent, both, bin);
    lemma_bin_sum_is_weight_sum(col, gpair, both, bin, both.len() as int);
    lemma_bin_sum_is_weight_sum(col, gpair, left, bin, left.len() as int);
    lemma_bin_sum_is_weight_sum(col, gpair, right, bin, right.len() as int);
    assert(both.take(both.len() as int) =~= both);
    assert(left.take(left.len() as int) =~= left);
    assert(right.take(right.len() as int) =~= right);
    lemma_weight_sum_concat(left, right, w);
}

/// Subtracting one child's histogram from the parent's gives the other child's, bit for bit.
pub proof fn law_siblings_subtract_to_parent(
    parent: Seq<GradPairFixed>,
    child: Seq<GradPairFixed>,
    diff: Seq<GradPairFixed>,
    block_data: Seq<Bin>,
    n_rows: int,
    n_feats: int,
    offsets: Seq<u32>,
    gpair: Seq<GradPairFixed>,
    parent_rows: Seq<int>,
    child_rows: Seq<int>,
    sibling_rows: Seq<int>,
)
    requires
        0 <= n_feats,
        offsets.len() == n_feats + 1,
        monotone(offsets),
        is_histogram(parent, block_data, n_rows, n_feats, offsets, gpair, parent_rows),
        is_histogram(child, block_data, n_rows, n_feats, offsets, gpair, child_rows),
        parent_rows.to_multiset() =~= (child_rows + sibling_rows).to_multiset(),
        diff.len() == parent.len(),
        forall|i: int|
            0 <= i < diff.len() ==> (#[trigger] diff[i]).represents(
                parent[i].exact().minus(child[i].exact()),
            ),
    ensures
        is_histogram(diff, block_data, n_rows, n_feats, offsets, gpair, sibling_rows),
{
    assert forall|f: int, b: int|
        #![trigger diff[offsets[f] + b]]
        0 <= f < n_feats && 0 <= b < offsets[f + 1] - offsets[f] implies diff[offsets[f]
        + b].represents(
        bin_sum(
            column_of(block_data, n_rows, f),
            gpair,
            sibling_rows,
            b,
            sibling_rows.len() as int,
        ),
    ) by {
        let i = offsets[f] + b;
        assert(offsets[f + 1] <= offsets[n_feats]);
        let col = column_of(block_data, n_rows, f);
        let sp = bin_sum(col, gpair, parent_rows, b, parent_rows.len() as int);
        let sc = bin_sum(col, gpair, child_rows, b, child_rows.len() as int);
        law_children_add_up_to_parent(col, gpair, parent_rows, child_rows, sibling_rows, b);
        assert(parent[offsets[f] + b].represents(sp));
        assert(child[offsets[f] + b].represents(sc));
        lemma_represents_minus(parent[i], sp, child[i], sc, diff[i]);
    }
    assert forall|i: int| 0 <= i < offsets[0] implies #[trigger] diff[i].represents(
        PairSum::zero(),
    ) by {
        assert(offsets[0] <= offsets[n_feats]);
        assert(parent[i].represents(PairSum::zero()));
        assert(child[i].represents(PairSum::zero()));
        lemma_represents_minus(parent[i], PairSum::zero(), child[i], PairSum::zero(), diff[i]);
    }
}

/// The first `nb` bins of a feature, added up.
pub open spec fn bins_sum(
    col: Seq<Bin>,
    gpair: Seq<GradPairFixed>,
    rows: Seq<int>,
    nb: int,
) -> PairSum
    decreases nb,
{
    if nb <= 0 {
        PairSum::zero()
    } else {
        bins_sum(col, gpair, rows, nb - 1).plus(
            bin_sum(col, gpair, rows, nb - 1, rows.len() as int),
        )
    }
}

/// The gradients of the rows whose value is missing, added up.
pub open spec fn missing_sum(
    col: Seq<Bin>,
    gpair: Seq<GradPairFixed>,
    rows: Seq<int>,
    k: int,
) -> PairSum
    decreases k,
{
    if k <= 0 {
        PairSum::zero()
    } else {
        let rest = missing_sum(col, gpair, rows, k - 1);
        if col[rows[k - 1]] == MISSING_BIN {
            rest.plus(gpair[rows[k - 1]].exact())
        } else {
            rest
        }
    }
}

proof fn lemma_bins_sum_push(
    col: Seq<Bin>,
    gpair: Seq<GradPairFixed>,
    rows: Seq<int>,
    row: int,
    nb: int,
)
    requires
        0 <= nb <= MISSING_BIN,
    ensures
        bins_sum(col, gpair, rows.push(row), nb) == bins_sum(col, gpair, rows, nb).plus(
            if col[row] < nb {
                gpair[row].exact()
            } else {
                PairSum::zero()
            },
        ),
    decreases nb,
{
    if nb > 0 {
        lemma_bins_sum_push(col, gpair, rows, row, nb - 1);
        let longer = rows.push(row);
        let b = nb - 1;
        lemma_bin_sum_is_weight_sum(col, gpair, longer, b, rows.len() as int);
        lemma_bin_sum_is_weight_sum(col, gpair, rows, b, rows.len() as int);
        assert(longer.take(rows.len() as int) =~= rows.take(rows.len() as int));
    }
}

/// What a node's sum holds beyond the bins of a feature is what is missing there.
pub proof fn law_missing_is_the_node_sum_without_the_bins(
    col: Seq<Bin>,
    gpair: Seq<GradPairFixed>,
    rows: Seq<int>,
    n_bins: int,
)
    requires
        0 <= n_bins <= MISSING_BIN,
        forall|k: int|
            0 <= k < rows.len() ==> col[#[trigger] rows[k]] == MISSING_BIN || col[rows[k]] < n_bins,
    ensures
        row_sum(gpair, rows, rows.len() as int).minus(bins_sum(col, gpair, rows, n_bins))
            == missing_sum(col, gpair, rows, rows.len() as int),
    decreases rows.len(),
{
    if rows.len() == 0 {
        lemma_bins_sum_empty(col, gpair, rows, n_bins);
    } else {
        let rest = rows.drop_last();
        let row = rows.last();
        assert(forall|k: int| 0 <= k < rest.len() ==> rest[k] == rows[k]);
        law_missing_is_the_node_sum_without_the_bins(col, gpair, rest, n_bins);
        assert(rest.push(row) =~= rows);
        lemma_bins_sum_push(col, gpair, rest, row, n_bins);
        let n = rest.len() as int;
        lemma_row_sum_is_weight_sum(gpair, rows, n);
        lemma_row_sum_is_weight_sum(gpair, rest, n);
        assert(rows.take(n) =~= rest.take(n));
        lemma_missing_sum_prefix(col, gpair, rows, rest, n);
        assert(rows[rows.len() - 1] == row);
    }
}

proof fn lemma_bins_sum_empty(col: Seq<Bin>, gpair: Seq<GradPairFixed>, rows: Seq<int>, nb: int)
    requires
        rows.len() == 0,
    ensures
        bins_sum(col, gpair, rows, nb) == PairSum::zero(),
    decreases nb,
{
    if nb > 0 {
        lemma_bins_sum_empty(col, gpair, rows, nb - 1);
    }
}

proof fn lemma_missing_sum_prefix(
    col: Seq<Bin>,
    gpair: Seq<GradPairFixed>,
    a: Seq<int>,
    b: Seq<int>,
    k: int,
)
    requires
        0 <= k <= a.len(),
        k <= b.len(),
        forall|i: int| 0 <= i < k ==> a[i] == b[i],
    ensures
        missing_sum(col, gpair, a, k) == missing_sum(col, gpair, b, k),
    decreases k,
{
    if k > 0 {
        lemma_missing_sum_prefix(col, gpair, a, b, k - 1);
    }
}

proof fn lemma_slot_has_feature(offsets: Seq<u32>, n_feats: int, i: int) -> (f: int)
    requires
        0 <= n_feats,
        offsets.len() >= n_feats + 1,
        offsets[0] <= i < offsets[n_feats],
    ensures
        0 <= f < n_feats,
        offsets[f] <= i < offsets[f + 1],
    decreases n_feats,
{
    if offsets[n_feats - 1] <= i {
        n_feats - 1
    } else {
        lemma_slot_has_feature(offsets, n_feats - 1, i)
    }
}

/// The inputs determine every slot: two histograms of the same rows are equal, whatever the
/// tile size or the buffer they were built in.
pub proof fn law_histogram_is_determined(
    a: Seq<GradPairFixed>,
    b: Seq<GradPairFixed>,
    block_data: Seq<Bin>,
    n_rows: int,
    n_feats: int,
    offsets: Seq<u32>,
    gpair: Seq<GradPairFixed>,
    rows: Seq<int>,
)
    requires
        0 <= n_feats,
        offsets.len() == n_feats + 1,
        monotone(offsets),
        is_histogram(a, block_data, n_rows, n_feats, offsets, gpair, rows),
        is_histogram(b, block_data, n_rows, n_feats, offsets, gpair, rows),
    ensures
        a == b,
{
    assert forall|i: int| 0 <= i < a.len() implies a[i] == b[i] by {
        if i < offsets[0] {
            assert(a[i].represents(PairSum::zero()));
            assert(b[i].represents(PairSum::zero()));
        } else {
            let f = lemma_slot_has_feature(offsets, n_feats, i);
            let c = i - offsets[f];
            assert(a[offsets[f] + c].represents(
                bin_sum(column_of(block_data, n_rows, f), gpair, rows, c, rows.len() as int),
            ));
            assert(b[offsets[f] + c].represents(
                bin_sum(column_of(block_data, n_rows, f), gpair, rows, c, rows.len() as int),
            ));
        }
    }
    assert(a =~= b);
}

/// All rows and the list of all rows are the same rows.
pub proof fn law_no_list_means_all_rows(rows: &[RowId], n_rows: int)
    requires
        rows@.len() == n_rows,
        forall|i: int| 0 <= i < n_rows ==> #[trigger] rows@[i] == i,
    ensures
        rows_of(None, n_rows) == rows_of(Some(rows), n_rows),
{
    assert(rows_of(None, n_rows) =~= rows_of(Some(rows), n_rows));
}

} // verus!
