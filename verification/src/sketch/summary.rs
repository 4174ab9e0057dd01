//! Summaries of observations: values with the weight below and up to each.
//!
//! Ranks are sums of weights in the caller's arithmetic, which comes in as functions. What is
//! decided here is which values stay and in what order.
use vstd::prelude::*;

use super::sort::{all_known, sort_pairs};
use crate::float32::{law_order_is_that_of_the_values, value_of, F32};

verus! {

/// One value of a summary. `rmin` is the weight below the value, `rmax` the weight up to and with
/// it.
#[derive(Clone, Copy, Debug, PartialEq, Eq, Structural)]
pub struct Entry {
    pub value: F32,
    pub weight: F32,
    pub rmin: F32,
    pub rmax: F32,
}

/// The zero from which sums start.
pub open spec fn zero() -> F32 {
    F32 { bits: 0 }
}

/// The arithmetic of ranks.
///
/// `plus` adds; `below` tells whether the middle of two ranks lies below the share `k` of `n` of
/// a total; `half` is the point half way between two values.
pub struct RankMath<P, B, M> {
    pub plus: P,
    pub below: B,
    pub half: M,
}

impl<
    P: Fn(F32, F32) -> F32,
    B: Fn(F32, F32, F32, usize, usize) -> bool,
    M: Fn(F32, F32) -> F32,
> RankMath<P, B, M> {
    /// Each function takes anything and has one result for it, up to which NaN it is.
    pub open spec fn ok(&self) -> bool {
        &&& crate::inference::is_addition(self.plus)
        &&& crate::inference::is_addition(self.half)
        &&& forall|a: F32, b: F32, t: F32, k: usize, n: usize| #[trigger]
            self.below.requires((a, b, t, k, n))
        &&& forall|a: F32, b: F32, t: F32, k: usize, n: usize, x: bool, y: bool|
            #[trigger] self.below.ensures((a, b, t, k, n), x) && #[trigger] self.below.ensures(
                (a, b, t, k, n),
                y,
            ) ==> x == y
    }

    /// A sum.
    pub open spec fn sum(&self, a: F32, b: F32) -> F32 {
        crate::inference::sum_of(self.plus, a, b)
    }

    /// The middle of an entry's ranks lies below share `k` of `n` of the total.
    pub open spec fn under(&self, e: Entry, total: F32, k: int, n: int) -> bool {
        self.answer(e.rmin, e.rmax, total, k as usize, n as usize)
    }

    /// What `below` tells.
    pub open spec fn answer(&self, rmin: F32, rmax: F32, total: F32, k: usize, n: usize) -> bool {
        choose|b: bool| #[trigger] self.below.ensures((rmin, rmax, total, k, n), b)
    }

    /// Whether an entry lies below a share is what the given comparison tells of its ranks, the total
    /// and the share.
    pub proof fn law_comparison_is_asked(
        &self,
        e: Entry,
        total: F32,
        k: usize,
        n: usize,
        told: bool,
    )
        requires
            self.ok(),
            self.below.ensures((e.rmin, e.rmax, total, k, n), told),
        ensures
            self.under(e, total, k as int, n as int) == told,
    {
    }

    /// The cut between two values: half way, or the right value where half way is not above the
    /// left one.
    pub open spec fn between(&self, a: F32, b: F32) -> F32 {
        let m = crate::inference::sum_of(self.half, a, b);
        if m.le(a) {
            b
        } else {
            m
        }
    }

    /// A sum.
    pub fn add_up(&self, a: F32, b: F32) -> (r: F32)
        requires
            self.ok(),
        ensures
            r == self.sum(a, b),
    {
        crate::inference::add_settled(&self.plus, a, b)
    }

    /// Does the middle of an entry's ranks lie below share `k` of `n` of the total?
    pub fn is_under(&self, e: &Entry, total: F32, k: usize, n: usize) -> (r: bool)
        requires
            self.ok(),
        ensures
            r == self.under(*e, total, k as int, n as int),
    {
        (self.below)(e.rmin, e.rmax, total, k, n)
    }

    /// The cut between two values.
    pub fn midpoint(&self, a: F32, b: F32) -> (r: F32)
        requires
            self.ok(),
        ensures
            r == self.between(a, b),
    {
        let m: F32 = crate::inference::add_settled(&self.half, a, b);
        if m.less_eq(a) {
            b
        } else {
            m
        }
    }

    // ---- building ----

    /// The end of the run of equal values that starts at `i`.
    pub open spec fn run_end(p: Seq<(F32, F32)>, i: int, j: int) -> int
        decreases p.len() - j,
    {
        if j < p.len() && p[j].0.key() == p[i].0.key() {
            Self::run_end(p, i, j + 1)
        } else {
            j
        }
    }

    /// The weights from `i` to `j`, added to `w` one after the other.
    pub open spec fn weights(&self, p: Seq<(F32, F32)>, i: int, j: int, w: F32) -> F32
        decreases j - i,
    {
        if i >= j {
            w
        } else {
            self.weights(p, i + 1, j, self.sum(w, p[i].1))
        }
    }

    /// Sorted observations from `i` on as entries, one for each value; `acc` is the weight so
    /// far.
    pub open spec fn grouped(&self, p: Seq<(F32, F32)>, i: int, acc: F32) -> Seq<Entry>
        decreases p.len() - i,
        when 0 <= i
        via Self::grouped_decreases
    {
        if i >= p.len() {
            seq![]
        } else {
            let j = Self::run_end(p, i, i);
            let w = self.weights(p, i, j, zero());
            let next = self.sum(acc, w);
            seq![Entry { value: p[i].0, weight: w, rmin: acc, rmax: next }] + self.grouped(
                p,
                j,
                next,
            )
        }
    }

    #[via_fn]
    proof fn grouped_decreases(&self, p: Seq<(F32, F32)>, i: int, acc: F32) {
        if i < p.len() {
            Self::lemma_run_end(p, i, i + 1);
        }
    }

    /// A run ends past its start and past nothing of another value.
    pub(crate) proof fn lemma_run_end(p: Seq<(F32, F32)>, i: int, j: int)
        requires
            0 <= i <= j <= p.len(),
        ensures
            j <= Self::run_end(p, i, j) <= p.len(),
            forall|k: int| j <= k < Self::run_end(p, i, j) ==> (#[trigger] p[k]).0.key() == p[i].0.key(),
            Self::run_end(p, i, j) < p.len() ==> p[Self::run_end(p, i, j)].0.key()
                != p[i].0.key(),
        decreases p.len() - j,
    {
        if j < p.len() && p[j].0.key() == p[i].0.key() {
            Self::lemma_run_end(p, i, j + 1);
        }
    }

    /// A summary of observations: some sorting of them, grouped by value.
    pub open spec fn is_summary(&self, s: Seq<Entry>, pairs: Seq<(F32, F32)>) -> bool {
        exists|p: Seq<(F32, F32)>| #[trigger]
            super::sort::is_sorting(p, pairs) && s == self.grouped(p, 0, zero())
    }

    /// A summary of observations.
    pub fn build_summary(&self, pairs: &Vec<(F32, F32)>) -> (out: Vec<Entry>)
        requires
            self.ok(),
            all_known(pairs@),
        ensures
            self.is_summary(out@, pairs@),
    {
        let p: Vec<(F32, F32)> = sort_pairs(pairs);
        proof {
            super::sort::lemma_sorting_is_known(p@, pairs@);
        }
        let mut out: Vec<Entry> = Vec::new();
        let mut acc: F32 = F32 { bits: 0 };
        let mut i: usize = 0;
        while i < p.len()
            invariant
                self.ok(),
                all_known(p@),
                i <= p@.len(),
                self.grouped(p@, 0, zero()) == out@ + self.grouped(p@, i as int, acc),
            decreases p.len() - i,
        {
            let start: usize = i;
            let v: F32 = p[i].0;
            let mut w: F32 = F32 { bits: 0 };
            let ghost end = Self::run_end(p@, start as int, start as int);
            proof {
                Self::lemma_run_end(p@, start as int, start as int);
                assert(end > start);
            }
            while i < p.len() && p[i].0.less_eq(v) && v.less_eq(p[i].0)
                invariant
                    self.ok(),
                    all_known(p@),
                    start <= i <= end <= p@.len(),
                    start < p@.len(),
                    v == p@[start as int].0,
                    forall|k: int|
                        start <= k < end ==> (#[trigger] p@[k]).0.key() == p@[start as int].0.key(),
                    end < p@.len() ==> p@[end].0.key() != p@[start as int].0.key(),
                    self.weights(p@, start as int, end, zero()) == self.weights(
                        p@,
                        i as int,
                        end,
                        w,
                    ),
                decreases p.len() - i,
            {
                assert(!p@[start as int].0.nan());
                w = self.add_up(w, p[i].1);
                i += 1;
            }
            proof {
                assert(!p@[start as int].0.nan());
                if i < p@.len() {
                    assert(!p@[i as int].0.nan());
                }
                assert(i == end);
            }
            let next: F32 = self.add_up(acc, w);
            let ghost before = out@;
            let e: Entry = Entry { value: v, weight: w, rmin: acc, rmax: next };
            out.push(e);
            proof {
                assert(self.grouped(p@, start as int, acc) == seq![e] + self.grouped(
                    p@,
                    end,
                    next,
                ));
                assert(before + (seq![e] + self.grouped(p@, end, next)) =~= out@ + self.grouped(
                    p@,
                    end,
                    next,
                ));
            }
            acc = next;
        }
        assert(out@ + self.grouped(p@, i as int, acc) =~= out@);
        out
    }

    // ---- merging ----

    /// An entry moved up by the weight that the other side has passed.
    pub open spec fn shifted(&self, e: Entry, passed: F32) -> Entry {
        Entry {
            value: e.value,
            weight: e.weight,
            rmin: self.sum(e.rmin, passed),
            rmax: self.sum(e.rmax, passed),
        }
    }

    /// Two summaries from `i` and `j` on, in the order of values; `pa` and `pb` are the weights
    /// that each side has passed. At equal values the first side goes first.
    pub open spec fn interleaved(
        &self,
        a: Seq<Entry>,
        b: Seq<Entry>,
        i: int,
        j: int,
        pa: F32,
        pb: F32,
    ) -> Seq<Entry>
        decreases a.len() - i + b.len() - j,
        when 0 <= i <= a.len() && 0 <= j <= b.len()
    {
        if i >= a.len() && j >= b.len() {
            seq![]
        } else if i < a.len() && (j >= b.len() || a[i].value.le(b[j].value)) {
            seq![self.shifted(a[i], pb)] + self.interleaved(a, b, i + 1, j, a[i].rmax, pb)
        } else {
            seq![self.shifted(b[j], pa)] + self.interleaved(a, b, i, j + 1, pa, b[j].rmax)
        }
    }

    /// Two entries of one value as one.
    pub open spec fn joined(&self, a: Entry, b: Entry) -> Entry {
        Entry {
            value: a.value,
            weight: self.sum(a.weight, b.weight),
            rmin: smaller(a.rmin, b.rmin),
            rmax: larger(a.rmax, b.rmax),
        }
    }

    /// Entries with neighbours of one value joined.
    pub open spec fn distinct(&self, s: Seq<Entry>) -> Seq<Entry>
        decreases s.len(),
    {
        if s.len() == 0 {
            seq![]
        } else {
            let rest = self.distinct(s.drop_last());
            let e = s.last();
            if rest.len() > 0 && same_value(rest.last().value, e.value) {
                rest.drop_last().push(self.joined(rest.last(), e))
            } else {
                rest.push(e)
            }
        }
    }

    /// Two summaries as one.
    pub open spec fn merged(&self, a: Seq<Entry>, b: Seq<Entry>) -> Seq<Entry> {
        if a.len() == 0 {
            b
        } else if b.len() == 0 {
            a
        } else {
            self.distinct(self.interleaved(a, b, 0, 0, zero(), zero()))
        }
    }

    fn interleave(&self, a: &Vec<Entry>, b: &Vec<Entry>) -> (out: Vec<Entry>)
        requires
            self.ok(),
        ensures
            out@ == self.interleaved(a@, b@, 0, 0, zero(), zero()),
    {
        let mut out: Vec<Entry> = Vec::new();
        let mut i: usize = 0;
        let mut j: usize = 0;
        let mut pass_a: F32 = F32 { bits: 0 };
        let mut pass_b: F32 = F32 { bits: 0 };
        assert(out@ + self.interleaved(a@, b@, 0, 0, zero(), zero()) =~= self.interleaved(
            a@,
            b@,
            0,
            0,
            zero(),
            zero(),
        ));
        while i < a.len() || j < b.len()
            invariant
                self.ok(),
                i <= a@.len(),
                j <= b@.len(),
                self.interleaved(a@, b@, 0, 0, zero(), zero()) == out@ + self.interleaved(
                    a@,
                    b@,
                    i as int,
                    j as int,
                    pass_a,
                    pass_b,
                ),
            decreases a.len() - i + (b.len() - j),
        {
            let take_a: bool = if i < a.len() && j < b.len() {
                a[i].value.less_eq(b[j].value)
            } else {
                i < a.len()
            };
            let ghost before = out@;
            if take_a {
                let e: Entry = a[i];
                let s: Entry = Entry {
                    value: e.value,
                    weight: e.weight,
                    rmin: self.add_up(e.rmin, pass_b),
                    rmax: self.add_up(e.rmax, pass_b),
                };
                out.push(s);
                proof {
                    let rest = self.interleaved(a@, b@, i + 1, j as int, e.rmax, pass_b);
                    assert(before + (seq![s] + rest) =~= out@ + rest);
                }
                pass_a = e.rmax;
                i += 1;
            } else {
                let e: Entry = b[j];
                let s: Entry = Entry {
                    value: e.value,
                    weight: e.weight,
                    rmin: self.add_up(e.rmin, pass_a),
                    rmax: self.add_up(e.rmax, pass_a),
                };
                out.push(s);
                proof {
                    let rest = self.interleaved(a@, b@, i as int, j + 1, pass_a, e.rmax);
                    assert(before + (seq![s] + rest) =~= out@ + rest);
                }
                pass_b = e.rmax;
                j += 1;
            }
        }
        assert(out@ + self.interleaved(a@, b@, i as int, j as int, pass_a, pass_b) =~= out@);
        out
    }

    fn dedup_same_value(&self, entries: &Vec<Entry>) -> (out: Vec<Entry>)
        requires
            self.ok(),
        ensures
            out@ == self.distinct(entries@),
    {
        let mut out: Vec<Entry> = Vec::new();
        let mut i: usize = 0;
        assert(entries@.take(0) =~= Seq::<Entry>::empty());
        while i < entries.len()
            invariant
                self.ok(),
                i <= entries@.len(),
                out@ == self.distinct(entries@.take(i as int)),
            decreases entries.len() - i,
        {
            let e: Entry = entries[i];
            let n: usize = out.len();
            proof {
                assert(entries@.take(i + 1).drop_last() =~= entries@.take(i as int));
                assert(entries@.take(i + 1).last() == e);
            }
            if n > 0 && equal_values(out[n - 1].value, e.value) {
                let last: Entry = out[n - 1];
                let both: Entry = Entry {
                    value: last.value,
                    weight: self.add_up(last.weight, e.weight),
                    rmin: min_of(last.rmin, e.rmin),
                    rmax: max_of(last.rmax, e.rmax),
                };
                let ghost before = out@;
                out.set(n - 1, both);
                assert(out@ =~= before.drop_last().push(both));
            } else {
                out.push(e);
            }
            i += 1;
        }
        assert(entries@.take(i as int) =~= entries@);
        out
    }

    /// Two summaries as one.
    pub fn merge_entries(&self, a: &Vec<Entry>, b: &Vec<Entry>) -> (out: Vec<Entry>)
        requires
            self.ok(),
        ensures
            out@ == self.merged(a@, b@),
    {
        if a.len() == 0 {
            return copy_entries(b);
        }
        if b.len() == 0 {
            return copy_entries(a);
        }
        let both: Vec<Entry> = self.interleave(a, b);
        self.dedup_same_value(&both)
    }

    // ---- compressing ----

    /// The first entry from `j` on whose middle rank is not below share `k`, or the last entry.
    pub open spec fn first_not_under(
        &self,
        s: Seq<Entry>,
        j: int,
        k: int,
        slots: int,
    ) -> int
        decreases s.len() - j,
    {
        if j < s.len() - 1 && self.under(s[j], s[s.len() - 1].rmax, k, slots) {
            self.first_not_under(s, j + 1, k, slots)
        } else {
            j
        }
    }

    /// The entry that is kept for share `k` of the total: the first whose middle rank reaches it,
    /// but past the one kept before, and with enough entries left for the shares to come.
    pub open spec fn kept_at(&self, s: Seq<Entry>, k: int, slots: int) -> int
        decreases k,
    {
        if k <= 0 {
            0
        } else {
            crate::math::imin(
                self.first_not_under(s, self.kept_at(s, k - 1, slots) + 1, k, slots),
                s.len() - 1 - (slots - 1 - k),
            )
        }
    }

    /// A summary with at most `max_size` entries. The first and the last entry stay.
    pub open spec fn compressed(&self, s: Seq<Entry>, max_size: int) -> Seq<Entry> {
        if s.len() <= max_size {
            s
        } else {
            let slots = max_size - 1;
            let kept = Seq::new(slots as nat, |k: int| s[self.kept_at(s, k, slots)]);
            if self.kept_at(s, slots - 1, slots) < s.len() - 1 {
                kept.push(s[s.len() - 1])
            } else {
                kept
            }
        }
    }

    proof fn lemma_first_not_under(&self, s: Seq<Entry>, j: int, k: int, slots: int)
        requires
            0 <= j,
        ensures
            self.first_not_under(s, j, k, slots) >= j,
            j <= s.len() - 1 ==> self.first_not_under(s, j, k, slots) <= s.len() - 1,
        decreases s.len() - j,
    {
        if j < s.len() - 1 && self.under(s[j], s[s.len() - 1].rmax, k, slots) {
            self.lemma_first_not_under(s, j + 1, k, slots);
        }
    }

    /// The kept entries lie further and further on, and leave room for those to come.
    pub proof fn lemma_kept_rise(&self, s: Seq<Entry>, k: int, slots: int)
        requires
            0 <= k < slots,
            slots + 1 < s.len(),
        ensures
            0 <= self.kept_at(s, k, slots) <= s.len() - slots + k,
            self.kept_at(s, k, slots) <= s.len() - 1,
            k > 0 ==> self.kept_at(s, k, slots) > self.kept_at(s, k - 1, slots),
        decreases k,
    {
        if k > 0 {
            self.lemma_kept_rise(s, k - 1, slots);
            self.lemma_first_not_under(s, self.kept_at(s, k - 1, slots) + 1, k, slots);
        }
    }

    /// A summary with at most `max_size` entries.
    pub fn compress(&self, entries: &Vec<Entry>, max_size: usize) -> (out: Vec<Entry>)
        requires
            self.ok(),
            max_size >= 2,
        ensures
            out@ == self.compressed(entries@, max_size as int),
    {
        let n: usize = entries.len();
        if n <= max_size {
            return copy_entries(entries);
        }
        let total: F32 = entries[n - 1].rmax;
        let slots: usize = max_size - 1;
        let mut out: Vec<Entry> = Vec::new();
        out.push(entries[0]);
        let mut taken: usize = 0;
        let mut k: usize = 1;
        while k < slots
            invariant
                self.ok(),
                n == entries@.len(),
                n > slots + 1,
                slots >= 1,
                1 <= k <= slots,
                total == entries@[n - 1].rmax,
                taken == self.kept_at(entries@, k - 1, slots as int),
                out@.len() == k,
                forall|q: int|
                    0 <= q < k ==> (#[trigger] out@[q]) == entries@[self.kept_at(
                        entries@,
                        q,
                        slots as int,
                    )],
            decreases slots - k,
        {
            proof {
                self.lemma_kept_rise(entries@, k - 1, slots as int);
                self.lemma_kept_rise(entries@, k as int, slots as int);
            }
            let mut j: usize = taken + 1;
            while j < n - 1 && self.is_under(&entries[j], total, k, slots)
                invariant
                    self.ok(),
                    n == entries@.len(),
                    n > 1,
                    taken < n - 1,
                    taken + 1 <= j <= n - 1,
                    total == entries@[n - 1].rmax,
                    self.first_not_under(entries@, taken + 1, k as int, slots as int)
                        == self.first_not_under(entries@, j as int, k as int, slots as int),
                decreases n - j,
            {
                j += 1;
            }
            let ceiling: usize = n - 1 - (slots - 1 - k);
            let at: usize = if j < ceiling {
                j
            } else {
                ceiling
            };
            assert(at == self.kept_at(entries@, k as int, slots as int));
            out.push(entries[at]);
            taken = at;
            k += 1;
        }
        proof {
            self.lemma_kept_rise(entries@, slots - 1, slots as int);
        }
        let ghost kept = Seq::new(
            slots as nat,
            |q: int| entries@[self.kept_at(entries@, q, slots as int)],
        );
        assert(out@ =~= kept);
        if taken < n - 1 {
            out.push(entries[n - 1]);
        }
        out
    }

    // ---- cuts ----

    /// The first entry from `j` on whose middle rank is not below share `k` of `n`, or the number
    /// of entries.
    pub open spec fn reaches(&self, s: Seq<Entry>, j: int, k: int, n: int) -> int
        decreases s.len() - j,
    {
        if j < s.len() && self.under(s[j], s[s.len() - 1].rmax, k, n) {
            self.reaches(s, j + 1, k, n)
        } else {
            j
        }
    }

    /// The value at share `k` of `n`.
    pub open spec fn quantile(&self, s: Seq<Entry>, k: int, n: int) -> F32 {
        s[crate::math::imin(self.reaches(s, 0, k, n), s.len() - 1)].value
    }

    /// The values at the first `k` shares, without those that do not exceed the one before.
    pub open spec fn quantiles(&self, s: Seq<Entry>, k: int, n: int) -> Seq<F32>
        decreases k,
    {
        if k <= 0 {
            seq![]
        } else {
            let rest = self.quantiles(s, k - 1, n);
            let v = self.quantile(s, k, n);
            if rest.len() == 0 || rest.last().lt(v) {
                rest.push(v)
            } else {
                rest
            }
        }
    }

    /// The cuts of a summary: half way between neighbours where there are no more values than
    /// bins, and else the values at equal shares of the weight.
    pub open spec fn cuts_of(&self, s: Seq<Entry>, max_bins: int) -> Seq<F32> {
        if max_bins <= 1 || s.len() == 0 {
            seq![]
        } else if s.len() <= max_bins - 1 {
            Seq::new(
                (s.len() - 1) as nat,
                |i: int| self.between(s[i].value, s[i + 1].value),
            )
        } else {
            self.quantiles(s, max_bins - 1, max_bins)
        }
    }

    /// The cuts of a summary.
    pub fn cuts_from(&self, s: &Vec<Entry>, max_bins: usize) -> (cuts: Vec<F32>)
        requires
            self.ok(),
        ensures
            cuts@ == self.cuts_of(s@, max_bins as int),
    {
        let mut cuts: Vec<F32> = Vec::new();
        let len: usize = s.len();
        if max_bins <= 1 || len == 0 {
            return cuts;
        }
        if len <= max_bins - 1 {
            let mut i: usize = 0;
            while i < len - 1
                invariant
                    self.ok(),
                    len == s@.len(),
                    len > 0,
                    i <= len - 1,
                    cuts@.len() == i,
                    forall|k: int|
                        0 <= k < i ==> (#[trigger] cuts@[k]) == self.between(
                            s@[k].value,
                            s@[k + 1].value,
                        ),
                decreases len - i,
            {
                cuts.push(self.midpoint(s[i].value, s[i + 1].value));
                i += 1;
            }
            assert(cuts@ =~= self.cuts_of(s@, max_bins as int));
            return cuts;
        }
        let total: F32 = s[len - 1].rmax;
        let mut k: usize = 1;
        while k < max_bins
            invariant
                self.ok(),
                len == s@.len(),
                len > 0,
                total == s@[len - 1].rmax,
                1 <= k <= max_bins,
                cuts@ == self.quantiles(s@, k - 1, max_bins as int),
            decreases max_bins - k,
        {
            let mut j: usize = 0;
            while j < len && self.is_under(&s[j], total, k, max_bins)
                invariant
                    self.ok(),
                    len == s@.len(),
                    len > 0,
                    j <= len,
                    total == s@[len - 1].rmax,
                    self.reaches(s@, 0, k as int, max_bins as int) == self.reaches(
                        s@,
                        j as int,
                        k as int,
                        max_bins as int,
                    ),
                decreases len - j,
            {
                j += 1;
            }
            let at: usize = if j < len {
                j
            } else {
                len - 1
            };
            let v: F32 = s[at].value;
            assert(v == self.quantile(s@, k as int, max_bins as int));
            let n: usize = cuts.len();
            if n == 0 || cuts[n - 1].less(v) {
                cuts.push(v);
            }
            k += 1;
        }
        cuts
    }
}

/// The smaller of two ranks; a number where only one is.
pub open spec fn smaller(a: F32, b: F32) -> F32 {
    if a.nan() || b.lt(a) {
        b
    } else {
        a
    }
}

/// The larger of two ranks; a number where only one is.
pub open spec fn larger(a: F32, b: F32) -> F32 {
    if a.nan() || a.lt(b) {
        b
    } else {
        a
    }
}

fn min_of(a: F32, b: F32) -> (r: F32)
    ensures
        r == smaller(a, b),
{
    if a.is_nan() || b.less(a) {
        b
    } else {
        a
    }
}

fn max_of(a: F32, b: F32) -> (r: F32)
    ensures
        r == larger(a, b),
{
    if a.is_nan() || a.less(b) {
        b
    } else {
        a
    }
}

/// Two values are equal as numbers.
pub open spec fn same_value(a: F32, b: F32) -> bool {
    a.le(b) && b.le(a)
}

fn equal_values(a: F32, b: F32) -> (r: bool)
    ensures
        r == same_value(a, b),
{
    a.less_eq(b) && b.less_eq(a)
}

/// A copy of entries.
pub fn copy_entries(s: &Vec<Entry>) -> (r: Vec<Entry>)
    ensures
        r@ == s@,
{
    let mut r: Vec<Entry> = Vec::new();
    let mut i: usize = 0;
    while i < s.len()
        invariant
            i <= s@.len(),
            r@ == s@.take(i as int),
        decreases s.len() - i,
    {
        r.push(s[i]);
        assert(s@.take(i + 1) =~= s@.take(i as int).push(s@[i as int]));
        i += 1;
    }
    assert(s@.take(i as int) =~= s@);
    r
}

/// Values are known and rise.
pub open spec fn ordered(s: Seq<Entry>) -> bool {
    &&& forall|i: int| 0 <= i < s.len() ==> !(#[trigger] s[i]).value.nan()
    &&& forall|i: int, j: int|
        0 <= i < j < s.len() ==> (#[trigger] s[i]).value.key() < (#[trigger] s[j]).value.key()
}

/// Values are known and do not fall.
spec fn level_or_rising(s: Seq<Entry>) -> bool {
    &&& forall|i: int| 0 <= i < s.len() ==> !(#[trigger] s[i]).value.nan()
    &&& forall|i: int, j: int|
        0 <= i < j < s.len() ==> (#[trigger] s[i]).value.key() <= (#[trigger] s[j]).value.key()
}

/// No value lies below a bound.
spec fn at_least(s: Seq<Entry>, bound: int) -> bool {
    forall|i: int| 0 <= i < s.len() ==> (#[trigger] s[i]).value.key() >= bound
}

proof fn lemma_front(e: Entry, rest: Seq<Entry>)
    requires
        !e.value.nan(),
        level_or_rising(rest),
        at_least(rest, e.value.key()),
    ensures
        level_or_rising(seq![e] + rest),
        at_least(seq![e] + rest, e.value.key()),
{
    let s = seq![e] + rest;
    assert forall|i: int| 0 <= i < s.len() implies !(#[trigger] s[i]).value.nan() && s[i].value.key()
        >= e.value.key() by {
        if i > 0 {
            assert(s[i] == rest[i - 1]);
        }
    }
    assert forall|i: int, j: int| 0 <= i < j < s.len() implies (#[trigger] s[i]).value.key()
        <= (#[trigger] s[j]).value.key() by {
        assert(s[j] == rest[j - 1]);
        if i > 0 {
            assert(s[i] == rest[i - 1]);
        }
    }
}

impl<
    P: Fn(F32, F32) -> F32,
    B: Fn(F32, F32, F32, usize, usize) -> bool,
    M: Fn(F32, F32) -> F32,
> RankMath<P, B, M> {
    proof fn lemma_grouped(&self, p: Seq<(F32, F32)>, i: int, acc: F32)
        requires
            super::sort::in_value_order(p),
            all_known(p),
            0 <= i <= p.len(),
        ensures
            ordered(self.grouped(p, i, acc)),
            self.grouped(p, i, acc).len() <= p.len() - i,
            i < p.len() ==> at_least(self.grouped(p, i, acc), p[i].0.key()),
        decreases p.len() - i,
    {
        if i < p.len() {
            Self::lemma_run_end(p, i, i);
            let j = Self::run_end(p, i, i);
            assert(Self::run_end(p, i, i) == Self::run_end(p, i, i + 1));
            Self::lemma_run_end(p, i, i + 1);
            let w = self.weights(p, i, j, zero());
            let next = self.sum(acc, w);
            let e = Entry { value: p[i].0, weight: w, rmin: acc, rmax: next };
            let rest = self.grouped(p, j, next);
            self.lemma_grouped(p, j, next);
            let s = seq![e] + rest;
            assert(self.grouped(p, i, acc) == s);
            assert forall|t: int| 0 <= t < s.len() implies !(#[trigger] s[t]).value.nan()
                && s[t].value.key() >= p[i].0.key() by {
                if t > 0 {
                    assert(s[t] == rest[t - 1]);
                    assert(j < p.len());
                    assert(p[j].0.key() >= p[i].0.key());
                }
            }
            assert forall|t: int, u: int| 0 <= t < u < s.len() implies (#[trigger] s[t]).value.key()
                < (#[trigger] s[u]).value.key() by {
                assert(s[u] == rest[u - 1]);
                if t > 0 {
                    assert(s[t] == rest[t - 1]);
                } else {
                    assert(j < p.len());
                    assert(p[j].0.key() > p[i].0.key());
                }
            }
        }
    }

    /// A summary has each value once, in rising order, and no more entries than observations.
    pub proof fn law_summary_is_ordered(&self, s: Seq<Entry>, pairs: Seq<(F32, F32)>)
        requires
            self.is_summary(s, pairs),
            all_known(pairs),
        ensures
            ordered(s),
            s.len() <= pairs.len(),
    {
        let p = choose|p: Seq<(F32, F32)>| #[trigger]
            super::sort::is_sorting(p, pairs) && s == self.grouped(p, 0, zero());
        super::sort::lemma_sorting_is_known(p, pairs);
        self.lemma_grouped(p, 0, zero());
    }

    proof fn lemma_interleaved(
        &self,
        a: Seq<Entry>,
        b: Seq<Entry>,
        i: int,
        j: int,
        pa: F32,
        pb: F32,
        bound: int,
    )
        requires
            ordered(a),
            ordered(b),
            0 <= i <= a.len(),
            0 <= j <= b.len(),
            i < a.len() ==> a[i].value.key() >= bound,
            j < b.len() ==> b[j].value.key() >= bound,
        ensures
            level_or_rising(self.interleaved(a, b, i, j, pa, pb)),
            at_least(self.interleaved(a, b, i, j, pa, pb), bound),
            self.interleaved(a, b, i, j, pa, pb).len() == a.len() - i + b.len() - j,
        decreases a.len() - i + b.len() - j,
    {
        if i >= a.len() && j >= b.len() {
        } else if i < a.len() && (j >= b.len() || a[i].value.le(b[j].value)) {
            let e = self.shifted(a[i], pb);
            self.lemma_interleaved(a, b, i + 1, j, a[i].rmax, pb, a[i].value.key());
            lemma_front(e, self.interleaved(a, b, i + 1, j, a[i].rmax, pb));
        } else {
            let e = self.shifted(b[j], pa);
            if i < a.len() {
                assert(!a[i].value.nan() && !b[j].value.nan());
            }
            self.lemma_interleaved(a, b, i, j + 1, pa, b[j].rmax, b[j].value.key());
            lemma_front(e, self.interleaved(a, b, i, j + 1, pa, b[j].rmax));
        }
    }

    proof fn lemma_distinct(&self, s: Seq<Entry>)
        requires
            level_or_rising(s),
        ensures
            ordered(self.distinct(s)),
            self.distinct(s).len() <= s.len(),
            s.len() > 0 ==> self.distinct(s).len() > 0 && self.distinct(s).last().value.key()
                == s.last().value.key(),
        decreases s.len(),
    {
        if s.len() > 0 {
            let front = s.drop_last();
            assert(level_or_rising(front));
            self.lemma_distinct(front);
            let rest = self.distinct(front);
            let e = s.last();
            let d = self.distinct(s);
            assert(!s[s.len() - 1].value.nan());
            if rest.len() > 0 {
                assert(front.len() > 0);
                assert(s[front.len() - 1].value.key() <= s[s.len() - 1].value.key());
                assert(front.last() == s[front.len() - 1]);
                assert(!rest[rest.len() - 1].value.nan());
            }
            assert forall|i: int| 0 <= i < d.len() implies !(#[trigger] d[i]).value.nan() by {
                if i < rest.len() {
                    assert(!rest[i].value.nan());
                }
            }
            assert forall|i: int, j: int| 0 <= i < j < d.len() implies (#[trigger] d[i]).value.key()
                < (#[trigger] d[j]).value.key() by {
                assert(d[i].value == rest[i].value);
                if j < rest.len() {
                    assert(d[j].value == rest[j].value);
                    assert(rest[i].value.key() < rest[j].value.key());
                } else if i < rest.len() - 1 {
                    assert(rest[i].value.key() < rest[rest.len() - 1].value.key());
                }
            }
        }
    }

    /// Merging keeps the order: of two summaries with each value once and in rising order comes
    /// another, with no more entries than both.
    pub proof fn law_merging_keeps_the_order(&self, a: Seq<Entry>, b: Seq<Entry>)
        requires
            ordered(a),
            ordered(b),
        ensures
            ordered(self.merged(a, b)),
            self.merged(a, b).len() <= a.len() + b.len(),
    {
        if a.len() > 0 && b.len() > 0 {
            let bound = if a[0].value.key() <= b[0].value.key() {
                a[0].value.key()
            } else {
                b[0].value.key()
            };
            self.lemma_interleaved(a, b, 0, 0, zero(), zero(), bound);
            self.lemma_distinct(self.interleaved(a, b, 0, 0, zero(), zero()));
        }
    }

    proof fn lemma_kept_apart(&self, s: Seq<Entry>, p: int, q: int, slots: int)
        requires
            0 <= p < q < slots,
            slots + 1 < s.len(),
        ensures
            self.kept_at(s, p, slots) < self.kept_at(s, q, slots),
        decreases q - p,
    {
        self.lemma_kept_rise(s, q, slots);
        if p < q - 1 {
            self.lemma_kept_apart(s, p, q - 1, slots);
        }
    }

    /// Compressing bounds the size, keeps the order, and keeps the first and the last entry: the
    /// smallest and the largest value are never lost.
    pub proof fn law_compression_keeps_the_ends(&self, s: Seq<Entry>, max_size: int)
        requires
            ordered(s),
            max_size >= 2,
        ensures
            self.compressed(s, max_size).len() <= max_size,
            ordered(self.compressed(s, max_size)),
            s.len() > 0 ==> {
                &&& self.compressed(s, max_size).len() > 0
                &&& self.compressed(s, max_size)[0] == s[0]
                &&& self.compressed(s, max_size).last() == s.last()
            },
            forall|i: int|
                0 <= i < self.compressed(s, max_size).len() ==> s.contains(
                    #[trigger] self.compressed(s, max_size)[i],
                ),
    {
        let c = self.compressed(s, max_size);
        if s.len() > max_size {
            let slots = max_size - 1;
            let n = s.len() - 1;
            self.lemma_kept_rise(s, slots - 1, slots);
            let top = self.kept_at(s, slots - 1, slots);
            assert(c[0] == s[0]);
            assert forall|i: int| 0 <= i < c.len() implies s.contains(#[trigger] c[i])
                && !c[i].value.nan() by {
                if i < slots {
                    self.lemma_kept_rise(s, i, slots);
                    assert(c[i] == s[self.kept_at(s, i, slots)]);
                } else {
                    assert(c[i] == s[n]);
                }
            }
            assert forall|i: int, j: int| 0 <= i < j < c.len() implies (#[trigger] c[i]).value.key()
                < (#[trigger] c[j]).value.key() by {
                self.lemma_kept_rise(s, i, slots);
                assert(c[i] == s[self.kept_at(s, i, slots)]);
                if j < slots {
                    self.lemma_kept_rise(s, j, slots);
                    self.lemma_kept_apart(s, i, j, slots);
                    assert(c[j] == s[self.kept_at(s, j, slots)]);
                } else {
                    assert(c[j] == s[n]);
                    if i < slots - 1 {
                        self.lemma_kept_apart(s, i, slots - 1, slots);
                    }
                }
            }
        } else {
            assert forall|i: int| 0 <= i < c.len() implies s.contains(#[trigger] c[i]) by {
                assert(c[i] == s[i]);
            }
        }
    }

    proof fn lemma_quantiles(&self, s: Seq<Entry>, k: int, n: int)
        requires
            0 <= k,
        ensures
            self.quantiles(s, k, n).len() <= k,
            forall|i: int, j: int|
                0 <= i < j < self.quantiles(s, k, n).len() ==> (#[trigger] self.quantiles(
                    s,
                    k,
                    n,
                )[i]).lt(#[trigger] self.quantiles(s, k, n)[j]),
        decreases k,
    {
        if k > 0 {
            self.lemma_quantiles(s, k - 1, n);
            let rest = self.quantiles(s, k - 1, n);
            let all = self.quantiles(s, k, n);
            let v = self.quantile(s, k, n);
            assert forall|i: int, j: int| 0 <= i < j < all.len() implies (#[trigger] all[i]).lt(
                #[trigger] all[j],
            ) by {
                assert(all[i] == rest[i]);
                if j < rest.len() {
                    assert(rest[i].lt(rest[j]));
                } else if i < rest.len() - 1 {
                    assert(rest[i].lt(rest[rest.len() - 1]));
                }
            }
        }
    }

    /// There are fewer cuts than bins, and where the cuts are quantiles, each lies above the one
    /// before.
    pub proof fn law_cuts_rise(&self, s: Seq<Entry>, max_bins: int)
        requires
            max_bins >= 1,
        ensures
            self.cuts_of(s, max_bins).len() <= max_bins - 1,
            s.len() >= max_bins ==> forall|i: int, j: int|
                0 <= i < j < self.cuts_of(s, max_bins).len() ==> (#[trigger] self.cuts_of(
                    s,
                    max_bins,
                )[i]).lt(#[trigger] self.cuts_of(s, max_bins)[j]),
    {
        if max_bins > 1 && s.len() >= max_bins {
            self.lemma_quantiles(s, max_bins - 1, max_bins);
        }
    }

    /// The cut between two values lies half way, where the middle can be computed exactly.
    pub proof fn law_cut_lies_half_way(&self, s: Seq<Entry>, max_bins: int, k: int)
        requires
            ordered(s),
            0 < s.len() < max_bins,
            0 <= k < s.len() - 1,
            ({
                let m = crate::inference::sum_of(self.half, s[k].value, s[k + 1].value);
                !m.nan() && 2 * value_of(m) == value_of(s[k].value) + value_of(s[k + 1].value)
            }),
        ensures
            2 * value_of(self.cuts_of(s, max_bins)[k]) == value_of(s[k].value) + value_of(
                s[k + 1].value,
            ),
    {
        let m = crate::inference::sum_of(self.half, s[k].value, s[k + 1].value);
        assert(!s[k].value.nan() && !s[k + 1].value.nan());
        assert(s[k].value.key() < s[k + 1].value.key());
        law_order_is_that_of_the_values(s[k].value, s[k + 1].value);
        law_order_is_that_of_the_values(m, s[k].value);
    }

    /// Few values are told apart exactly: where there are fewer values than bins and the middle
    /// between neighbours is a number not above the right one, each value falls into a bin of its
    /// own.
    pub proof fn law_few_values_get_a_bin_each(&self, s: Seq<Entry>, max_bins: int, i: int)
        requires
            ordered(s),
            0 < s.len() < max_bins,
            forall|k: int|
                0 <= k < s.len() - 1 ==> {
                    let m = crate::inference::sum_of(
                        self.half,
                        (#[trigger] s[k]).value,
                        s[k + 1].value,
                    );
                    !m.nan() && m.le(s[k + 1].value)
                },
            0 <= i < s.len(),
        ensures
            self.cuts_of(s, max_bins).len() == s.len() - 1,
            forall|k: int|
                0 <= k < s.len() - 1 ==> (if k < i {
                    (#[trigger] self.cuts_of(s, max_bins)[k]).le(s[i].value)
                } else {
                    s[i].value.lt(self.cuts_of(s, max_bins)[k])
                }),
    {
        let cuts = self.cuts_of(s, max_bins);
        assert forall|k: int| 0 <= k < s.len() - 1 implies (if k < i {
            (#[trigger] cuts[k]).le(s[i].value)
        } else {
            s[i].value.lt(cuts[k])
        }) by {
            assert(cuts[k] == self.between(s[k].value, s[k + 1].value));
            assert(!s[k].value.nan() && !s[k + 1].value.nan() && !s[i].value.nan());
            let m = crate::inference::sum_of(self.half, s[k].value, s[k + 1].value);
            assert(!m.nan() && m.le(s[k + 1].value));
            assert(s[k].value.key() < s[k + 1].value.key());
            if k + 1 < i {
                assert(s[k + 1].value.key() < s[i].value.key());
            }
            if i < k {
                assert(s[i].value.key() < s[k].value.key());
            }
        }
    }
}

} // verus!
