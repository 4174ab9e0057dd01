//! Weighted quantile sketches.
//!
//! A sketch takes observations one at a time and keeps a bounded summary. Full buffers become
//! summaries; two summaries of one level are merged, compressed and move up a level. So a value
//! is compressed as often as there are levels, not as often as there are buffers.
use vstd::prelude::*;
use vstd::pervasive::VecAdditionalExecFns;

use crate::columns::BinCuts;
use crate::float32::F32;
use crate::math::max_usize;
use crate::sketch::summary::{copy_entries, Entry, RankMath};
use crate::types::FeatId;

pub mod holding;
pub mod ranks;
pub mod sort;
pub mod summary;

verus! {

/// Entries of a summary for each bin.
pub const SKETCH_RATIO: usize = 16;

/// The sketch of one feature.
pub struct FeatureSketch {
    /// Observations that are in no summary yet.
    pub buffer: Vec<(F32, F32)>,
    /// A summary at each level, or none.
    pub levels: Vec<Option<Vec<Entry>>>,
    /// Entries that a summary keeps.
    pub limit: usize,
    pub total_weight: F32,
}

/// A level as a sequence.
pub open spec fn level_view(l: Option<Vec<Entry>>) -> Option<Seq<Entry>> {
    match l {
        None => None,
        Some(s) => Some(s@),
    }
}

/// Levels as sequences.
pub open spec fn level_views(l: Seq<Option<Vec<Entry>>>) -> Seq<Option<Seq<Entry>>> {
    l.map_values(|o: Option<Vec<Entry>>| level_view(o))
}

/// What a sketch holds.
pub struct SketchView {
    pub buffer: Seq<(F32, F32)>,
    pub levels: Seq<Option<Seq<Entry>>>,
    pub limit: int,
    pub total_weight: F32,
}

/// The levels after a summary comes in at `lvl`: into a free place, or merged with the one there
/// and on to the next level.
pub open spec fn inserted<
    P: Fn(F32, F32) -> F32,
    B: Fn(F32, F32, F32, usize, usize) -> bool,
    M: Fn(F32, F32) -> F32,
>(
    math: RankMath<P, B, M>,
    levels: Seq<Option<Seq<Entry>>>,
    cur: Seq<Entry>,
    lvl: int,
    limit: int,
) -> Seq<Option<Seq<Entry>>>
    decreases levels.len() - lvl,
{
    if lvl < 0 || lvl >= levels.len() {
        levels.push(Some(cur))
    } else {
        match levels[lvl] {
            None => levels.update(lvl, Some(cur)),
            Some(there) => inserted(
                math,
                levels.update(lvl, None),
                math.compressed(math.merged(there, cur), limit),
                lvl + 1,
                limit,
            ),
        }
    }
}

/// The first `k` levels merged into one summary.
pub open spec fn united<
    P: Fn(F32, F32) -> F32,
    B: Fn(F32, F32, F32, usize, usize) -> bool,
    M: Fn(F32, F32) -> F32,
>(math: RankMath<P, B, M>, levels: Seq<Option<Seq<Entry>>>, k: int) -> Seq<Entry>
    decreases k,
{
    if k <= 0 {
        seq![]
    } else {
        let rest = united(math, levels, k - 1);
        match levels[k - 1] {
            None => rest,
            Some(l) => if rest.len() == 0 {
                l
            } else {
                math.merged(rest, l)
            },
        }
    }
}

/// The buffer became a summary: nothing changes where it is empty.
pub open spec fn is_drained<
    P: Fn(F32, F32) -> F32,
    B: Fn(F32, F32, F32, usize, usize) -> bool,
    M: Fn(F32, F32) -> F32,
>(math: RankMath<P, B, M>, before: SketchView, after: SketchView) -> bool {
    &&& after.limit == before.limit
    &&& after.total_weight == before.total_weight
    &&& after.buffer == Seq::<(F32, F32)>::empty()
    &&& if before.buffer.len() == 0 {
        after.levels == before.levels
    } else {
        exists|s: Seq<Entry>| #[trigger]
            math.is_summary(s, before.buffer) && after.levels == inserted(
                math,
                before.levels,
                math.compressed(s, before.limit),
                0,
                before.limit,
            )
    }
}

/// What remains of levels that were united: one compressed summary, or nothing.
pub open spec fn one_level<
    P: Fn(F32, F32) -> F32,
    B: Fn(F32, F32, F32, usize, usize) -> bool,
    M: Fn(F32, F32) -> F32,
>(math: RankMath<P, B, M>, all: Seq<Entry>, limit: int) -> Seq<Option<Seq<Entry>>> {
    if all.len() == 0 {
        seq![]
    } else {
        seq![Some(math.compressed(all, limit))]
    }
}

/// The sketch became one summary.
pub open spec fn is_collapsed<
    P: Fn(F32, F32) -> F32,
    B: Fn(F32, F32, F32, usize, usize) -> bool,
    M: Fn(F32, F32) -> F32,
>(math: RankMath<P, B, M>, before: SketchView, after: SketchView) -> bool {
    exists|mid: SketchView| #[trigger]
        is_drained(math, before, mid) && after == (SketchView {
            levels: one_level(
                math,
                united(math, mid.levels, mid.levels.len() as int),
                mid.limit,
            ),
            ..mid
        })
}

/// The summary of a sketch that was collapsed.
pub open spec fn summary_of(v: SketchView) -> Seq<Entry> {
    if v.levels.len() == 0 || v.levels[0] is None {
        seq![]
    } else {
        v.levels[0]->0
    }
}

/// The observation counts: it has a value, and its weight is not zero or less.
pub open spec fn counts(value: F32, weight: F32) -> bool {
    !value.nan() && !weight.le(F32 { bits: 0 })
}

/// The sketch took an observation.
pub open spec fn is_pushed<
    P: Fn(F32, F32) -> F32,
    B: Fn(F32, F32, F32, usize, usize) -> bool,
    M: Fn(F32, F32) -> F32,
>(
    math: RankMath<P, B, M>,
    before: SketchView,
    value: F32,
    weight: F32,
    after: SketchView,
) -> bool {
    if !counts(value, weight) {
        after == before
    } else {
        let grown = SketchView {
            buffer: before.buffer.push((value, weight)),
            total_weight: math.sum(before.total_weight, weight),
            ..before
        };
        if grown.buffer.len() >= before.limit {
            is_drained(math, grown, after)
        } else {
            after == grown
        }
    }
}

impl FeatureSketch {
    /// What the sketch holds.
    pub open spec fn view(&self) -> SketchView {
        SketchView {
            buffer: self.buffer@,
            levels: level_views(self.levels@),
            limit: self.limit as int,
            total_weight: self.total_weight,
        }
    }

    /// Observations have values, and summaries have room for both ends.
    pub open spec fn wf(&self) -> bool {
        &&& sort::all_known(self.buffer@)
        &&& self.limit >= 2
    }

    /// An empty sketch for a number of bins.
    pub fn new(max_bins: usize) -> (r: Self)
        requires
            max_bins * SKETCH_RATIO <= usize::MAX,
        ensures
            r.wf(),
            r.view() == (SketchView {
                buffer: seq![],
                levels: seq![],
                limit: crate::math::imax(max_bins * SKETCH_RATIO, 32),
                total_weight: F32 { bits: 0 },
            }),
            r.limit >= 16 * max_bins && r.limit >= 32,
            r.limit == 16 * max_bins || r.limit == 32,
    {
        let r: FeatureSketch = FeatureSketch {
            buffer: Vec::new(),
            levels: Vec::new(),
            limit: max_usize(max_bins * SKETCH_RATIO, 32),
            total_weight: F32 { bits: 0 },
        };
        assert(level_views(r.levels@) =~= seq![]);
        r
    }

    /// The weight of all observations that counted.
    pub fn total_weight(&self) -> (r: F32)
        ensures
            r == self.total_weight,
    {
        self.total_weight
    }

    /// Takes an observation. One without a value, or without weight, does not count.
    pub fn push<
        P: Fn(F32, F32) -> F32,
        B: Fn(F32, F32, F32, usize, usize) -> bool,
        M: Fn(F32, F32) -> F32,
    >(&mut self, value: F32, weight: F32, math: &RankMath<P, B, M>)
        requires
            old(self).wf(),
            math.ok(),
        ensures
            final(self).wf(),
            is_pushed(*math, old(self).view(), value, weight, final(self).view()),
    {
        if value.is_nan() || weight.less_eq(F32 { bits: 0 }) {
            return ;
        }
        self.total_weight = math.add_up(self.total_weight, weight);
        self.buffer.push((value, weight));
        if self.buffer.len() >= self.limit {
            self.drain_buffer(math);
        }
    }

    /// Takes values, each with its weight or with weight one.
    pub fn push_all<
        P: Fn(F32, F32) -> F32,
        B: Fn(F32, F32, F32, usize, usize) -> bool,
        M: Fn(F32, F32) -> F32,
    >(&mut self, values: &[F32], weights: Option<&[F32]>, math: &RankMath<P, B, M>)
        requires
            old(self).wf(),
            math.ok(),
            weights is Some ==> weights->0@.len() == values@.len(),
        ensures
            final(self).wf(),
            took_all(
                *math,
                old(self).view(),
                values@,
                weights_of(weights, values@.len()),
                final(self).view(),
            ),
    {
        let ghost w = weights_of(weights, values@.len());
        let ghost mut states: Seq<SketchView> = seq![self.view()];
        let ghost first = self.view();
        let mut i: usize = 0;
        while i < values.len()
            invariant
                i <= values@.len(),
                math.ok(),
                self.wf(),
                weights is Some ==> weights->0@.len() == values@.len(),
                w == weights_of(weights, values@.len()),
                states.len() == i + 1,
                states[0] == first,
                states[i as int] == self.view(),
                forall|k: int|
                    0 <= k < i ==> is_pushed(
                        *math,
                        states[k],
                        #[trigger] values@[k],
                        w[k],
                        states[k + 1],
                    ),
            decreases values.len() - i,
        {
            let wt: F32 = match weights {
                Some(ws) => ws[i],
                None => F32 { bits: 0x3F80_0000 },
            };
            assert(wt == w[i as int]);
            self.push(values[i], wt, math);
            proof {
                let grown = states.push(self.view());
                assert forall|k: int| 0 <= k < i + 1 implies is_pushed(
                    *math,
                    grown[k],
                    #[trigger] values@[k],
                    w[k],
                    grown[k + 1],
                ) by {
                    if k < i {
                        assert(grown[k] == states[k] && grown[k + 1] == states[k + 1]);
                    }
                }
                states = grown;
            }
            i += 1;
        }
        assert(is_run(*math, states, values@, w));
    }

    /// Makes a summary of the buffer.
    pub fn drain_buffer<
        P: Fn(F32, F32) -> F32,
        B: Fn(F32, F32, F32, usize, usize) -> bool,
        M: Fn(F32, F32) -> F32,
    >(&mut self, math: &RankMath<P, B, M>)
        requires
            old(self).wf(),
            math.ok(),
        ensures
            final(self).wf(),
            is_drained(*math, old(self).view(), final(self).view()),
    {
        if self.buffer.len() == 0 {
            assert(self.buffer@ =~= Seq::<(F32, F32)>::empty());
            return ;
        }
        let ghost before = self.view();
        let raw: Vec<Entry> = math.build_summary(&self.buffer);
        let summary: Vec<Entry> = math.compress(&raw, self.limit);
        self.buffer = Vec::new();
        self.insert_level(summary, math);
        proof {
            assert(self.buffer@ =~= Seq::<(F32, F32)>::empty());
            assert(math.is_summary(raw@, before.buffer));
        }
    }

    /// Puts a summary into the levels.
    fn insert_level<
        P: Fn(F32, F32) -> F32,
        B: Fn(F32, F32, F32, usize, usize) -> bool,
        M: Fn(F32, F32) -> F32,
    >(&mut self, summary: Vec<Entry>, math: &RankMath<P, B, M>)
        requires
            old(self).wf(),
            math.ok(),
        ensures
            final(self).wf(),
            final(self).view() == (SketchView {
                levels: inserted(
                    *math,
                    old(self).view().levels,
                    summary@,
                    0,
                    old(self).limit as int,
                ),
                ..old(self).view()
            }),
    {
        let mut cur: Vec<Entry> = summary;
        let mut lvl: usize = 0;
        let ghost goal = inserted(*math, level_views(self.levels@), cur@, 0, self.limit as int);
        let ghost start = *self;
        loop
            invariant_except_break
                lvl <= self.levels@.len(),
                inserted(*math, level_views(self.levels@), cur@, lvl as int, self.limit as int)
                    == goal,
            invariant
                math.ok(),
                self.wf(),
                self.limit == start.limit,
                self.buffer == start.buffer,
                self.total_weight == start.total_weight,
            ensures
                self.wf(),
                self.limit == start.limit,
                self.buffer == start.buffer,
                self.total_weight == start.total_weight,
                level_views(self.levels@) == goal,
            decreases self.levels@.len() - lvl,
        {
            let ghost before = self.levels@;
            if lvl == self.levels.len() {
                let ghost c = cur@;
                self.levels.push(Some(cur));
                assert(level_views(self.levels@) =~= level_views(before).push(Some(c)));
                break;
            }
            assert(level_views(before)[lvl as int] == level_view(before[lvl as int]));
            let mut there: Option<Vec<Entry>> = None;
            self.levels.set_and_swap(lvl, &mut there);
            assert(level_views(self.levels@) =~= level_views(before).update(lvl as int, None));
            match there {
                None => {
                    let ghost c = cur@;
                    self.levels.set(lvl, Some(cur));
                    assert(level_views(self.levels@) =~= level_views(before).update(
                        lvl as int,
                        Some(c),
                    ));
                    break;
                },
                Some(existing) => {
                    let both: Vec<Entry> = math.merge_entries(&existing, &cur);
                    cur = math.compress(&both, self.limit);
                    lvl = lvl + 1;
                },
            }
        }
    }

    /// Makes one summary of everything.
    pub fn collapse<
        P: Fn(F32, F32) -> F32,
        B: Fn(F32, F32, F32, usize, usize) -> bool,
        M: Fn(F32, F32) -> F32,
    >(&mut self, math: &RankMath<P, B, M>)
        requires
            old(self).wf(),
            math.ok(),
        ensures
            final(self).wf(),
            is_collapsed(*math, old(self).view(), final(self).view()),
    {
        self.drain_buffer(math);
        let ghost mid = self.view();
        let mut acc: Vec<Entry> = Vec::new();
        let mut i: usize = 0;
        let n: usize = self.levels.len();
        while i < n
            invariant
                math.ok(),
                n == self.levels@.len(),
                i <= n,
                mid == self.view(),
                mid.levels == level_views(self.levels@),
                acc@ == united(*math, mid.levels, i as int),
            decreases n - i,
        {
            assert(mid.levels[i as int] == level_view(self.levels@[i as int]));
            match &self.levels[i] {
                None => {},
                Some(l) => {
                    if acc.len() == 0 {
                        acc = copy_entries(l);
                    } else {
                        acc = math.merge_entries(&acc, l);
                    }
                },
            }
            i += 1;
        }
        let mut levels: Vec<Option<Vec<Entry>>> = Vec::new();
        if acc.len() > 0 {
            let one: Vec<Entry> = math.compress(&acc, self.limit);
            let ghost o = one@;
            levels.push(Some(one));
            assert(level_views(levels@) =~= seq![Some(o)]);
        } else {
            assert(level_views(levels@) =~= seq![]);
        }
        self.levels = levels;
    }

    /// The summary of a sketch that was collapsed.
    fn summary(&self) -> (r: Vec<Entry>)
        ensures
            r@ == summary_of(self.view()),
    {
        if self.levels.len() == 0 {
            return Vec::new();
        }
        assert(level_views(self.levels@)[0] == level_view(self.levels@[0]));
        match &self.levels[0] {
            None => Vec::new(),
            Some(s) => copy_entries(s),
        }
    }

    /// A copy with the same observations and no weight.
    fn snapshot(&self) -> (r: Self)
        requires
            self.wf(),
        ensures
            r.wf(),
            r.view() == (SketchView { total_weight: F32 { bits: 0 }, ..self.view() }),
    {
        let mut buffer: Vec<(F32, F32)> = Vec::new();
        let mut i: usize = 0;
        while i < self.buffer.len()
            invariant
                i <= self.buffer@.len(),
                buffer@ == self.buffer@.take(i as int),
            decreases self.buffer.len() - i,
        {
            buffer.push(self.buffer[i]);
            assert(self.buffer@.take(i + 1) =~= self.buffer@.take(i as int).push(
                self.buffer@[i as int],
            ));
            i += 1;
        }
        assert(self.buffer@.take(i as int) =~= self.buffer@);
        let mut levels: Vec<Option<Vec<Entry>>> = Vec::new();
        let mut k: usize = 0;
        while k < self.levels.len()
            invariant
                k <= self.levels@.len(),
                levels@.len() == k,
                forall|q: int|
                    0 <= q < k ==> level_view(#[trigger] levels@[q]) == level_view(
                        self.levels@[q],
                    ),
            decreases self.levels.len() - k,
        {
            match &self.levels[k] {
                None => {
                    levels.push(None);
                },
                Some(s) => {
                    let c: Vec<Entry> = copy_entries(s);
                    levels.push(Some(c));
                },
            }
            k += 1;
        }
        assert(level_views(levels@) =~= level_views(self.levels@)) by {
            assert forall|q: int| 0 <= q < levels@.len() implies level_views(levels@)[q]
                == level_views(self.levels@)[q] by {
                assert(level_view(levels@[q]) == level_view(self.levels@[q]));
            }
        }
        FeatureSketch { buffer, levels, limit: self.limit, total_weight: F32 { bits: 0 } }
    }

    /// Takes in all that another sketch holds. The other stays as it is.
    pub fn merge<
        P: Fn(F32, F32) -> F32,
        B: Fn(F32, F32, F32, usize, usize) -> bool,
        M: Fn(F32, F32) -> F32,
    >(&mut self, other: &FeatureSketch, math: &RankMath<P, B, M>)
        requires
            old(self).wf(),
            other.wf(),
            math.ok(),
        ensures
            final(self).wf(),
            is_merged(*math, old(self).view(), other.view(), final(self).view()),
    {
        let ghost before = self.view();
        let mut copy: FeatureSketch = other.snapshot();
        let ghost taken = copy.view();
        copy.collapse(math);
        let ghost b_view = copy.view();
        let b: Vec<Entry> = copy.summary();
        self.collapse(math);
        let ghost a_view = self.view();
        let a: Vec<Entry> = self.summary();
        let mut levels: Vec<Option<Vec<Entry>>> = Vec::new();
        if a.len() > 0 || b.len() > 0 {
            let both: Vec<Entry> = math.merge_entries(&a, &b);
            let one: Vec<Entry> = math.compress(&both, self.limit);
            let ghost o = one@;
            levels.push(Some(one));
            assert(level_views(levels@) =~= seq![Some(o)]);
        } else {
            assert(level_views(levels@) =~= seq![]);
        }
        self.levels = levels;
        self.total_weight = math.add_up(self.total_weight, other.total_weight);
        proof {
            assert(is_collapsed(*math, before, a_view));
            assert(is_collapsed(*math, taken, b_view));
            assert(one_of_two(*math, a_view, b_view, before, other.view(), self.view()));
        }
    }

    /// The cuts of the feature, fewer than `max_bins`.
    pub fn cuts<
        P: Fn(F32, F32) -> F32,
        B: Fn(F32, F32, F32, usize, usize) -> bool,
        M: Fn(F32, F32) -> F32,
    >(&mut self, max_bins: usize, math: &RankMath<P, B, M>) -> (r: Vec<F32>)
        requires
            old(self).wf(),
            math.ok(),
        ensures
            final(self).wf(),
            max_bins <= 1 ==> final(self).view() == old(self).view() && r@ == Seq::<F32>::empty(),
            max_bins > 1 ==> is_collapsed(*math, old(self).view(), final(self).view()) && r@
                == math.cuts_of(summary_of(final(self).view()), max_bins as int),
    {
        if max_bins <= 1 {
            let none: Vec<F32> = Vec::new();
            assert(none@ =~= Seq::<F32>::empty());
            return none;
        }
        self.collapse(math);
        let s: Vec<Entry> = self.summary();
        math.cuts_from(&s, max_bins)
    }
}

/// Two collapsed sketches became one.
pub open spec fn one_of_two<
    P: Fn(F32, F32) -> F32,
    B: Fn(F32, F32, F32, usize, usize) -> bool,
    M: Fn(F32, F32) -> F32,
>(
    math: RankMath<P, B, M>,
    a: SketchView,
    b: SketchView,
    before: SketchView,
    other: SketchView,
    after: SketchView,
) -> bool {
    &&& is_collapsed(math, before, a)
    &&& is_collapsed(math, SketchView { total_weight: F32 { bits: 0 }, ..other }, b)
    &&& after.levels == if summary_of(a).len() == 0 && summary_of(b).len() == 0 {
        Seq::<Option<Seq<Entry>>>::empty()
    } else {
        seq![
            Some(math.compressed(math.merged(summary_of(a), summary_of(b)), before.limit)),
        ]
    }
    &&& after.buffer == Seq::<(F32, F32)>::empty()
    &&& after.limit == before.limit
    &&& after.total_weight == math.sum(before.total_weight, other.total_weight)
}

/// One sketch took in another.
pub open spec fn is_merged<
    P: Fn(F32, F32) -> F32,
    B: Fn(F32, F32, F32, usize, usize) -> bool,
    M: Fn(F32, F32) -> F32,
>(math: RankMath<P, B, M>, before: SketchView, other: SketchView, after: SketchView) -> bool {
    exists|a: SketchView, b: SketchView| #[trigger]
        one_of_two(math, a, b, before, other, after)
}

/// Every summary has each value once, in order, and is within its bound.
pub open spec fn tidy(v: SketchView) -> bool {
    &&& sort::all_known(v.buffer)
    &&& v.limit >= 2
    &&& v.buffer.len() < v.limit
    &&& forall|i: int|
        0 <= i < v.levels.len() ==> ((#[trigger] v.levels[i]) matches Some(s) ==> summary::ordered(s)
            && s.len() <= v.limit)
}

proof fn lemma_inserted_tidy<
    P: Fn(F32, F32) -> F32,
    B: Fn(F32, F32, F32, usize, usize) -> bool,
    M: Fn(F32, F32) -> F32,
>(
    math: RankMath<P, B, M>,
    levels: Seq<Option<Seq<Entry>>>,
    cur: Seq<Entry>,
    lvl: int,
    limit: int,
)
    requires
        limit >= 2,
        0 <= lvl <= levels.len(),
        summary::ordered(cur),
        cur.len() <= limit,
        forall|i: int|
            0 <= i < levels.len() ==> ((#[trigger] levels[i]) matches Some(s) ==> summary::ordered(s)
                && s.len() <= limit),
    ensures
        forall|i: int|
            0 <= i < inserted(math, levels, cur, lvl, limit).len() ==> ((#[trigger] inserted(
                math,
                levels,
                cur,
                lvl,
                limit,
            )[i]) matches Some(s) ==> summary::ordered(s) && s.len() <= limit),
    decreases levels.len() - lvl,
{
    if lvl < levels.len() {
        match levels[lvl] {
            None => {},
            Some(there) => {
                math.law_merging_keeps_the_order(there, cur);
                math.law_compression_keeps_the_ends(math.merged(there, cur), limit);
                lemma_inserted_tidy(
                    math,
                    levels.update(lvl, None),
                    math.compressed(math.merged(there, cur), limit),
                    lvl + 1,
                    limit,
                );
            },
        }
    }
}

/// A sketch stays small and in order whatever is pushed: its buffer stays below the limit, and
/// every summary has each value once, in rising order, and no more entries than the limit.
pub proof fn law_sketch_stays_tidy<
    P: Fn(F32, F32) -> F32,
    B: Fn(F32, F32, F32, usize, usize) -> bool,
    M: Fn(F32, F32) -> F32,
>(math: RankMath<P, B, M>, before: SketchView, value: F32, weight: F32, after: SketchView)
    requires
        tidy(before),
        is_pushed(math, before, value, weight, after),
    ensures
        tidy(after),
{
    if counts(value, weight) {
        let grown = SketchView {
            buffer: before.buffer.push((value, weight)),
            total_weight: math.sum(before.total_weight, weight),
            ..before
        };
        assert(sort::all_known(grown.buffer));
        if grown.buffer.len() >= before.limit {
            let s = choose|s: Seq<Entry>| #[trigger]
                math.is_summary(s, grown.buffer) && after.levels == inserted(
                    math,
                    grown.levels,
                    math.compressed(s, grown.limit),
                    0,
                    grown.limit,
                );
            math.law_summary_is_ordered(s, grown.buffer);
            math.law_compression_keeps_the_ends(s, grown.limit);
            lemma_inserted_tidy(
                math,
                grown.levels,
                math.compressed(s, grown.limit),
                0,
                grown.limit,
            );
        }
    }
}

/// The sketches of all features.
pub struct SketchSet {
    pub per_feat: Vec<FeatureSketch>,
    pub max_bins: usize,
}

/// A sketch took observations one after the other: the states between them.
pub open spec fn is_run<
    P: Fn(F32, F32) -> F32,
    B: Fn(F32, F32, F32, usize, usize) -> bool,
    M: Fn(F32, F32) -> F32,
>(
    math: RankMath<P, B, M>,
    states: Seq<SketchView>,
    values: Seq<F32>,
    weights: Seq<F32>,
) -> bool {
    &&& states.len() == values.len() + 1
    &&& weights.len() == values.len()
    &&& forall|i: int|
        0 <= i < values.len() ==> is_pushed(
            math,
            states[i],
            #[trigger] values[i],
            weights[i],
            states[i + 1],
        )
}

/// A sketch took observations one after the other.
pub open spec fn took_all<
    P: Fn(F32, F32) -> F32,
    B: Fn(F32, F32, F32, usize, usize) -> bool,
    M: Fn(F32, F32) -> F32,
>(
    math: RankMath<P, B, M>,
    before: SketchView,
    values: Seq<F32>,
    weights: Seq<F32>,
    after: SketchView,
) -> bool {
    exists|states: Seq<SketchView>| #[trigger]
        is_run(math, states, values, weights) && states[0] == before && states[values.len() as int]
            == after
}

/// The given weights, or a weight of one for each value.
pub open spec fn weights_of(weights: Option<&[F32]>, n: nat) -> Seq<F32> {
    match weights {
        Some(w) => w@,
        None => Seq::new(n, |i: int| one()),
    }
}

/// The number one.
pub open spec fn one() -> F32 {
    F32 { bits: 0x3F80_0000 }
}

/// The cuts that came out of a sketch.
pub open spec fn is_cuts<
    P: Fn(F32, F32) -> F32,
    B: Fn(F32, F32, F32, usize, usize) -> bool,
    M: Fn(F32, F32) -> F32,
>(math: RankMath<P, B, M>, v: SketchView, max_bins: usize, cuts: Seq<F32>) -> bool {
    if max_bins <= 1 {
        cuts == Seq::<F32>::empty()
    } else {
        exists|after: SketchView| #[trigger]
            is_collapsed(math, v, after) && cuts == math.cuts_of(
                summary_of(after),
                max_bins as int,
            )
    }
}

impl SketchSet {
    /// Every sketch is well-formed.
    pub open spec fn wf(&self) -> bool {
        forall|f: int| 0 <= f < self.per_feat@.len() ==> (#[trigger] self.per_feat@[f]).wf()
    }

    /// An empty sketch for each feature.
    pub fn new(n_feats: usize, max_bins: usize) -> (r: Self)
        requires
            max_bins * SKETCH_RATIO <= usize::MAX,
        ensures
            r.wf(),
            r.max_bins == max_bins,
            r.per_feat@.len() == n_feats,
            forall|f: int|
                0 <= f < n_feats ==> (#[trigger] r.per_feat@[f]).view() == (SketchView {
                    buffer: seq![],
                    levels: seq![],
                    limit: crate::math::imax(max_bins * SKETCH_RATIO, 32),
                    total_weight: F32 { bits: 0 },
                }),
    {
        let mut per_feat: Vec<FeatureSketch> = Vec::new();
        let mut f: usize = 0;
        while f < n_feats
            invariant
                f <= n_feats,
                max_bins * SKETCH_RATIO <= usize::MAX,
                per_feat@.len() == f,
                forall|k: int| 0 <= k < f ==> (#[trigger] per_feat@[k]).wf(),
                forall|k: int|
                    0 <= k < f ==> (#[trigger] per_feat@[k]).view() == (SketchView {
                        buffer: seq![],
                        levels: seq![],
                        limit: crate::math::imax(max_bins * SKETCH_RATIO, 32),
                        total_weight: F32 { bits: 0 },
                    }),
            decreases n_feats - f,
        {
            per_feat.push(FeatureSketch::new(max_bins));
            f += 1;
        }
        SketchSet { per_feat, max_bins }
    }

    /// How many features there are.
    pub fn n_feats(&self) -> (r: usize)
        ensures
            r == self.per_feat@.len(),
    {
        self.per_feat.len()
    }

    /// Takes a row: one value for each feature.
    pub fn push_row<
        P: Fn(F32, F32) -> F32,
        B: Fn(F32, F32, F32, usize, usize) -> bool,
        M: Fn(F32, F32) -> F32,
    >(&mut self, row: &[F32], weight: F32, math: &RankMath<P, B, M>)
        requires
            old(self).wf(),
            math.ok(),
            row@.len() == old(self).per_feat@.len(),
        ensures
            final(self).wf(),
            final(self).max_bins == old(self).max_bins,
            final(self).per_feat@.len() == old(self).per_feat@.len(),
            forall|f: int|
                0 <= f < row@.len() ==> is_pushed(
                    *math,
                    old(self).per_feat@[f].view(),
                    row@[f],
                    weight,
                    (#[trigger] final(self).per_feat@[f]).view(),
                ),
    {
        let n: usize = self.per_feat.len();
        let ghost before = self.per_feat@;
        let ghost bins = self.max_bins;
        let mut f: usize = 0;
        while f < n
            invariant
                n == self.per_feat@.len(),
                n == before.len(),
                n == row@.len(),
                f <= n,
                math.ok(),
                self.wf(),
                self.max_bins == bins,
                forall|k: int|
                    0 <= k < f ==> is_pushed(
                        *math,
                        before[k].view(),
                        row@[k],
                        weight,
                        (#[trigger] self.per_feat@[k]).view(),
                    ),
                forall|k: int| f <= k < n ==> (#[trigger] self.per_feat@[k]) == before[k],
            decreases n - f,
        {
            let ghost now = self.per_feat@;
            self.per_feat[f].push(row[f], weight, math);
            assert forall|k: int| 0 <= k < n && k != f implies (#[trigger] self.per_feat@[k])
                == now[k] by {}
            assert(now[f as int] == before[f as int]);
            f += 1;
        }
    }

    /// Takes a column: the values of one feature, each with its weight or with weight one.
    pub fn push_column<
        P: Fn(F32, F32) -> F32,
        B: Fn(F32, F32, F32, usize, usize) -> bool,
        M: Fn(F32, F32) -> F32,
    >(&mut self, feat: FeatId, values: &[F32], weights: Option<&[F32]>, math: &RankMath<P, B, M>)
        requires
            old(self).wf(),
            math.ok(),
            feat < old(self).per_feat@.len(),
            weights is Some ==> weights->0@.len() == values@.len(),
        ensures
            final(self).wf(),
            final(self).max_bins == old(self).max_bins,
            final(self).per_feat@ == old(self).per_feat@.update(
                feat as int,
                final(self).per_feat@[feat as int],
            ),
            took_all(
                *math,
                old(self).per_feat@[feat as int].view(),
                values@,
                weights_of(weights, values@.len()),
                final(self).per_feat@[feat as int].view(),
            ),
    {
        let at: usize = feat as usize;
        let ghost before = self.per_feat@;
        self.per_feat[at].push_all(values, weights, math);
        assert(self.per_feat@ =~= before.update(at as int, self.per_feat@[at as int]));
    }

    /// Takes in all that another set holds, feature by feature.
    pub fn merge<
        P: Fn(F32, F32) -> F32,
        B: Fn(F32, F32, F32, usize, usize) -> bool,
        M: Fn(F32, F32) -> F32,
    >(&mut self, other: &SketchSet, math: &RankMath<P, B, M>)
        requires
            old(self).wf(),
            other.wf(),
            math.ok(),
            old(self).per_feat@.len() == other.per_feat@.len(),
        ensures
            final(self).wf(),
            final(self).max_bins == old(self).max_bins,
            final(self).per_feat@.len() == old(self).per_feat@.len(),
            forall|f: int|
                0 <= f < other.per_feat@.len() ==> is_merged(
                    *math,
                    old(self).per_feat@[f].view(),
                    other.per_feat@[f].view(),
                    (#[trigger] final(self).per_feat@[f]).view(),
                ),
    {
        let n: usize = self.per_feat.len();
        let ghost before = self.per_feat@;
        let ghost bins = self.max_bins;
        let mut f: usize = 0;
        while f < n
            invariant
                n == self.per_feat@.len(),
                n == before.len(),
                n == other.per_feat@.len(),
                f <= n,
                math.ok(),
                self.wf(),
                other.wf(),
                self.max_bins == bins,
                forall|k: int|
                    0 <= k < f ==> is_merged(
                        *math,
                        before[k].view(),
                        other.per_feat@[k].view(),
                        (#[trigger] self.per_feat@[k]).view(),
                    ),
                forall|k: int| f <= k < n ==> (#[trigger] self.per_feat@[k]) == before[k],
            decreases n - f,
        {
            let ghost now = self.per_feat@;
            assert(other.per_feat@[f as int].wf());
            self.per_feat[f].merge(&other.per_feat[f], math);
            assert forall|k: int| 0 <= k < n && k != f implies (#[trigger] self.per_feat@[k])
                == now[k] by {}
            assert(now[f as int] == before[f as int]);
            f += 1;
        }
    }

    /// The boundaries of all features; `None` where the cuts that came out are not finite or do
    /// not rise.
    pub fn finalize<
        P: Fn(F32, F32) -> F32,
        B: Fn(F32, F32, F32, usize, usize) -> bool,
        M: Fn(F32, F32) -> F32,
    >(self, math: &RankMath<P, B, M>) -> (r: Option<BinCuts>)
        requires
            self.wf(),
            math.ok(),
        ensures
            exists|per_feat: Seq<Vec<F32>>| #[trigger]
                are_cuts(*math, self, per_feat) && match r {
                    None => !crate::columns::joinable(per_feat),
                    Some(c) => crate::columns::joinable(per_feat) && c.wf() && c.spec_n_feats()
                        == per_feat.len() && forall|f: int|
                        0 <= f < per_feat.len() ==> #[trigger] c.spec_cuts(f) == per_feat[f]@,
                },
    {
        let mut set: SketchSet = self;
        let n: usize = set.per_feat.len();
        let max_bins: usize = set.max_bins;
        let ghost before = set.per_feat@;
        let mut per_feat: Vec<Vec<F32>> = Vec::new();
        let mut f: usize = 0;
        while f < n
            invariant
                n == set.per_feat@.len(),
                n == before.len(),
                f <= n,
                math.ok(),
                set.wf(),
                per_feat@.len() == f,
                forall|k: int|
                    0 <= k < f ==> is_cuts(
                        *math,
                        before[k].view(),
                        max_bins,
                        (#[trigger] per_feat@[k])@,
                    ),
                forall|k: int| f <= k < n ==> (#[trigger] set.per_feat@[k]) == before[k],
            decreases n - f,
        {
            let ghost now = set.per_feat@;
            assert(now[f as int] == before[f as int]);
            let cuts: Vec<F32> = set.per_feat[f].cuts(max_bins, math);
            assert forall|k: int| 0 <= k < n && k != f implies (#[trigger] set.per_feat@[k])
                == now[k] by {}
            assert(is_cuts(*math, before[f as int].view(), max_bins, cuts@));
            per_feat.push(cuts);
            f += 1;
        }
        assert(are_cuts(*math, self, per_feat@));
        crate::columns::join_cuts(&per_feat)
    }
}

/// The cuts that came out of a set of sketches.
pub open spec fn are_cuts<
    P: Fn(F32, F32) -> F32,
    B: Fn(F32, F32, F32, usize, usize) -> bool,
    M: Fn(F32, F32) -> F32,
>(math: RankMath<P, B, M>, set: SketchSet, per_feat: Seq<Vec<F32>>) -> bool {
    &&& per_feat.len() == set.per_feat@.len()
    &&& forall|f: int|
        0 <= f < per_feat.len() ==> is_cuts(
            math,
            set.per_feat@[f].view(),
            set.max_bins,
            (#[trigger] per_feat[f])@,
        )
}

} // verus!
