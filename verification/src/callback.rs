//! What happens after each round of training.
use vstd::prelude::*;
use vstd::string::*;

use crate::float32::{law_order_is_that_of_the_values, value_of, F32};
use crate::text::same_text;

verus! {

/// The results of one round: evaluation set, metric and value, with the metrics of a set one
/// after the other.
pub struct RoundMetrics {
    pub round: usize,
    pub entries: Vec<(String, String, F32)>,
}

/// An entry of a metric on an evaluation set.
pub open spec fn is_of(e: (String, String, F32), eval: Seq<char>, metric: Seq<char>) -> bool {
    e.0@ == eval && e.1@ == metric
}

/// The first entry of a metric on an evaluation set.
pub open spec fn first_of(
    entries: Seq<(String, String, F32)>,
    eval: Seq<char>,
    metric: Seq<char>,
    i: int,
) -> bool {
    &&& 0 <= i < entries.len()
    &&& is_of(entries[i], eval, metric)
    &&& forall|k: int| 0 <= k < i ==> !is_of(#[trigger] entries[k], eval, metric)
}

impl RoundMetrics {
    /// The place of the watched entry, if there is one: the first of the last evaluation set. It
    /// is not the last entry: a set may have several metrics.
    pub open spec fn watched_at(&self, i: int) -> bool {
        &&& 0 <= i < self.entries@.len()
        &&& self.entries@[i].0@ == self.entries@.last().0@
        &&& forall|k: int| 0 <= k < i ==> (#[trigger] self.entries@[k]).0@ != self.entries@.last().0@
    }

    /// Entries stand set by set. Then the watched one is the first entry of the last set: how many
    /// metrics that set has, and what stands before it, makes no difference.
    pub proof fn law_first_metric_of_the_last_set_is_watched(&self, from: int, i: int)
        requires
            0 <= from < self.entries@.len(),
            forall|k: int|
                from <= k < self.entries@.len() ==> (#[trigger] self.entries@[k]).0@
                    == self.entries@[from].0@,
            forall|k: int|
                0 <= k < from ==> (#[trigger] self.entries@[k]).0@ != self.entries@[from].0@,
        ensures
            self.watched_at(i) <==> i == from,
    {
        let n = self.entries@.len() - 1;
        assert(self.entries@[n].0@ == self.entries@[from].0@);
        assert(self.entries@.last() == self.entries@[n]);
        if self.watched_at(i) {
            if i > from {
                assert(self.entries@[from].0@ != self.entries@.last().0@);
            }
        }
    }

    /// The value of a metric on an evaluation set.
    pub fn get(&self, eval_name: &str, metric_name: &str) -> (r: Option<F32>)
        ensures
            match r {
                Some(v) => exists|i: int| #[trigger]
                    first_of(self.entries@, eval_name@, metric_name@, i) && self.entries@[i].2 == v,
                None => forall|k: int|
                    0 <= k < self.entries@.len() ==> !is_of(
                        #[trigger] self.entries@[k],
                        eval_name@,
                        metric_name@,
                    ),
            },
    {
        let mut i: usize = 0;
        while i < self.entries.len()
            invariant
                i <= self.entries@.len(),
                forall|k: int|
                    0 <= k < i ==> !is_of(
                        #[trigger] self.entries@[k],
                        eval_name@,
                        metric_name@,
                    ),
            decreases self.entries.len() - i,
        {
            if same_text(self.entries[i].0.as_str(), eval_name) && same_text(
                self.entries[i].1.as_str(),
                metric_name,
            ) {
                assert(first_of(self.entries@, eval_name@, metric_name@, i as int));
                return Some(self.entries[i].2);
            }
            i += 1;
        }
        None
    }

    /// The watched entry: the first metric of the last evaluation set.
    pub fn watched(&self) -> (r: Option<&(String, String, F32)>)
        ensures
            match r {
                Some(e) => exists|i: int| #[trigger] self.watched_at(i) && self.entries@[i] == *e,
                None => self.entries@.len() == 0,
            },
    {
        let n: usize = self.entries.len();
        if n == 0 {
            return None;
        }
        let mut i: usize = 0;
        while i < n
            invariant
                n == self.entries@.len(),
                n > 0,
                i <= n,
                forall|k: int|
                    0 <= k < i ==> (#[trigger] self.entries@[k]).0@ != self.entries@.last().0@,
            decreases n - i,
        {
            if same_text(self.entries[i].0.as_str(), self.entries[n - 1].0.as_str()) {
                assert(self.watched_at(i as int));
                return Some(&self.entries[i]);
            }
            i += 1;
        }
        assert(self.entries@[n - 1].0@ != self.entries@.last().0@);
        None
    }

    /// The last entry.
    pub fn last(&self) -> (r: Option<&(String, String, F32)>)
        ensures
            match r {
                Some(e) => self.entries@.len() > 0 && *e == self.entries@.last(),
                None => self.entries@.len() == 0,
            },
    {
        let n: usize = self.entries.len();
        if n == 0 {
            None
        } else {
            Some(&self.entries[n - 1])
        }
    }

    /// A copy of the results.
    pub fn copy(&self) -> (r: Self)
        ensures
            same_results(r, *self),
    {
        let mut entries: Vec<(String, String, F32)> = Vec::new();
        let mut i: usize = 0;
        while i < self.entries.len()
            invariant
                i <= self.entries@.len(),
                entries@.len() == i,
                forall|k: int|
                    0 <= k < i ==> same_entry(#[trigger] entries@[k], self.entries@[k]),
            decreases self.entries.len() - i,
        {
            let e: String = self.entries[i].0.clone();
            let m: String = self.entries[i].1.clone();
            entries.push((e, m, self.entries[i].2));
            i += 1;
        }
        RoundMetrics { round: self.round, entries }
    }
}

/// Two entries that say the same.
pub open spec fn same_entry(a: (String, String, F32), b: (String, String, F32)) -> bool {
    a.0@ == b.0@ && a.1@ == b.1@ && a.2 == b.2
}

/// Results that say the same.
pub open spec fn same_results(a: RoundMetrics, b: RoundMetrics) -> bool {
    &&& a.round == b.round
    &&& a.entries@.len() == b.entries@.len()
    &&& forall|k: int|
        0 <= k < a.entries@.len() ==> same_entry(#[trigger] a.entries@[k], b.entries@[k])
}

/// What is called after each round.
pub trait Callback {
    /// Takes the results of a round. Does training go on?
    fn after_iteration(&mut self, m: &RoundMetrics) -> (r: bool);

    /// The round that was chosen and its value, where the callback chooses one.
    fn best_iteration(&self) -> (r: Option<(usize, F32)>)
        default_ensures
            r is None,
    {
        None
    }

    /// Called once when training is over. Nothing is left to do unless the callback says so.
    fn after_training(&mut self) where Self: Sized
        default_ensures
            *final(self) == *old(self),
    {
    }
}

/// Stops after a number of rounds without improvement of the watched metric.
pub struct EarlyStopping {
    pub rounds: usize,
    pub lower_is_better: bool,
    pub best: Option<F32>,
    pub best_iteration: usize,
    pub since_improve: usize,
}

/// What early stopping knows.
pub struct Watch {
    pub rounds: usize,
    pub lower_is_better: bool,
    pub best: Option<F32>,
    pub best_iteration: usize,
    pub since_improve: usize,
}

/// One value is better than another.
pub open spec fn better(lower_is_better: bool, v: F32, than: F32) -> bool {
    if lower_is_better {
        v.lt(than)
    } else {
        than.lt(v)
    }
}

/// What early stopping knows after a value.
pub open spec fn seen(w: Watch, round: usize, v: F32) -> Watch {
    if w.best is None || better(w.lower_is_better, v, w.best->0) {
        Watch { best: Some(v), best_iteration: round, since_improve: 0, ..w }
    } else {
        Watch {
            since_improve: crate::math::imin(w.since_improve + 1, usize::MAX as int) as usize,
            ..w
        }
    }
}

/// Training goes on: the last improvement is fewer values ago than allowed.
pub open spec fn goes_on(w: Watch) -> bool {
    w.since_improve < w.rounds
}

impl EarlyStopping {
    /// What is known.
    pub open spec fn view(&self) -> Watch {
        Watch {
            rounds: self.rounds,
            lower_is_better: self.lower_is_better,
            best: self.best,
            best_iteration: self.best_iteration,
            since_improve: self.since_improve,
        }
    }

    /// Nothing seen yet.
    pub fn new(rounds: usize, lower_is_better: bool) -> (r: Self)
        ensures
            r.view() == (Watch {
                rounds,
                lower_is_better,
                best: None,
                best_iteration: 0,
                since_improve: 0,
            }),
    {
        EarlyStopping { rounds, lower_is_better, best: None, best_iteration: 0, since_improve: 0 }
    }

    /// Is a value better than the best so far? The first one is.
    pub fn improved(&self, v: F32) -> (r: bool)
        ensures
            r == (self.best is None || better(self.lower_is_better, v, self.best->0)),
    {
        match self.best {
            None => true,
            Some(b) => if self.lower_is_better {
                v.less(b)
            } else {
                b.less(v)
            },
        }
    }
}

impl Callback for EarlyStopping {
    /// Training goes on while there is nothing to watch, or while the last improvement is fewer
    /// rounds ago than allowed.
    fn after_iteration(&mut self, m: &RoundMetrics) -> (r: bool)
        ensures
            m.entries@.len() == 0 ==> r && final(self).view() == old(self).view(),
            m.entries@.len() > 0 ==> exists|i: int| #[trigger]
                m.watched_at(i) && final(self).view() == seen(
                    old(self).view(),
                    m.round,
                    m.entries@[i].2,
                ) && r == (final(self).since_improve < old(self).rounds) && r == goes_on(
                    final(self).view(),
                ),
    {
        let v: F32 = match m.watched() {
            None => {
                return true;
            },
            Some(e) => e.2,
        };
        let ghost at = choose|i: int| #[trigger] m.watched_at(i) && m.entries@[i].2 == v;
        assert(m.watched_at(at) && m.entries@[at].2 == v);
        if self.improved(v) {
            self.best = Some(v);
            self.best_iteration = m.round;
            self.since_improve = 0;
        } else if self.since_improve < usize::MAX {
            self.since_improve = self.since_improve + 1;
        }
        self.since_improve < self.rounds
    }

    fn best_iteration(&self) -> (r: Option<(usize, F32)>)
        ensures
            r == match self.best {
                None => None::<(usize, F32)>,
                Some(s) => Some((self.best_iteration, s)),
            },
    {
        match self.best {
            None => None,
            Some(s) => Some((self.best_iteration, s)),
        }
    }
}

/// What early stopping knows after the first `k` values.
pub open spec fn seen_all(w: Watch, rounds: Seq<usize>, values: Seq<F32>, k: int) -> Watch
    decreases k,
{
    if k <= 0 {
        w
    } else {
        seen(seen_all(w, rounds, values, k - 1), rounds[k - 1], values[k - 1])
    }
}

/// The chosen round is the first that no other beats: its value is one of those seen, none seen
/// is better, and none seen before it is as good.
pub proof fn law_best_round_is_never_beaten(
    w: Watch,
    rounds: Seq<usize>,
    values: Seq<F32>,
    k: int,
)
    requires
        w.best is None,
        rounds.len() == values.len(),
        0 < k <= values.len(),
        forall|i: int| 0 <= i < values.len() ==> !(#[trigger] values[i]).nan(),
    ensures
        ({
            let s = seen_all(w, rounds, values, k);
            &&& s.best is Some
            &&& s.lower_is_better == w.lower_is_better
            &&& forall|i: int|
                0 <= i < k ==> !better(w.lower_is_better, #[trigger] values[i], s.best->0)
            &&& exists|j: int|
                0 <= j < k && (#[trigger] values[j]) == s.best->0 && rounds[j] == s.best_iteration
                    && forall|i: int|
                    0 <= i < j ==> better(w.lower_is_better, values[j], #[trigger] values[i])
        }),
    decreases k,
{
    let s = seen_all(w, rounds, values, k);
    let v = values[k - 1];
    if k == 1 {
        assert(seen_all(w, rounds, values, 0) == w);
        assert(values[0] == s.best->0 && rounds[0] == s.best_iteration);
    } else {
        law_best_round_is_never_beaten(w, rounds, values, k - 1);
        let t = seen_all(w, rounds, values, k - 1);
        let j = choose|j: int|
            0 <= j < k - 1 && (#[trigger] values[j]) == t.best->0 && rounds[j] == t.best_iteration
                && forall|i: int|
                0 <= i < j ==> better(w.lower_is_better, values[j], #[trigger] values[i]);
        assert(!values[j].nan() && !v.nan());
        if better(w.lower_is_better, v, t.best->0) {
            assert(s.best == Some(v));
            assert forall|i: int| 0 <= i < k - 1 implies better(
                w.lower_is_better,
                v,
                #[trigger] values[i],
            ) by {
                assert(!values[i].nan());
                assert(!better(w.lower_is_better, values[i], t.best->0));
            }
            assert(values[k - 1] == s.best->0 && rounds[k - 1] == s.best_iteration);
            assert forall|i: int| 0 <= i < k implies !better(
                w.lower_is_better,
                #[trigger] values[i],
                s.best->0,
            ) by {
                if i < k - 1 {
                    assert(better(w.lower_is_better, v, values[i]));
                }
            }
        } else {
            assert(s.best == t.best && s.best_iteration == t.best_iteration);
            assert(values[j] == s.best->0 && rounds[j] == s.best_iteration);
        }
    }
}

/// The value at `j` is the one that early stopping settles on among the first `k`: it is better
/// than every number before it, and nothing after it is better. Nothing is better than a first
/// value that is not a number.
pub open spec fn is_choice(lower_is_better: bool, values: Seq<F32>, k: int, j: int) -> bool {
    &&& 0 <= j < k
    &&& j > 0 ==> !values[0].nan() && !values[j].nan()
    &&& forall|i: int|
        0 <= i < j && !(#[trigger] values[i]).nan() ==> if lower_is_better {
            value_of(values[j]) < value_of(values[i])
        } else {
            value_of(values[i]) < value_of(values[j])
        }
    &&& forall|i: int|
        j < i < k && !(#[trigger] values[i]).nan() && !values[j].nan() ==> if lower_is_better {
            value_of(values[j]) <= value_of(values[i])
        } else {
            value_of(values[i]) <= value_of(values[j])
        }
}

/// Early stopping counts the values since the chosen one, and no others: an improvement starts
/// the count anew. Training goes on exactly where the choice is among the last `rounds` values,
/// so it stops once so many values in a row were no improvement.
pub proof fn law_training_stops_after_rounds_in_a_row(
    w: Watch,
    rounds: Seq<usize>,
    values: Seq<F32>,
    k: int,
)
    requires
        w.best is None,
        rounds.len() == values.len(),
        0 < k <= values.len(),
        k <= usize::MAX,
    ensures
        exists|j: int|
            {
                let s = seen_all(w, rounds, values, k);
                &&& #[trigger] is_choice(w.lower_is_better, values, k, j)
                &&& s.best == Some(values[j])
                &&& s.best_iteration == rounds[j]
                &&& s.since_improve == k - 1 - j
                &&& goes_on(s) <==> k - w.rounds <= j
                &&& s.rounds == w.rounds
                &&& s.lower_is_better == w.lower_is_better
            },
    decreases k,
{
    let s = seen_all(w, rounds, values, k);
    let low = w.lower_is_better;
    let v = values[k - 1];
    if k == 1 {
        assert(seen_all(w, rounds, values, 0) == w);
        assert(is_choice(low, values, k, 0));
    } else {
        law_training_stops_after_rounds_in_a_row(w, rounds, values, k - 1);
        let t = seen_all(w, rounds, values, k - 1);
        let j = choose|j: int|
            {
                &&& #[trigger] is_choice(low, values, k - 1, j)
                &&& t.best == Some(values[j])
                &&& t.best_iteration == rounds[j]
                &&& t.since_improve == k - 2 - j
                &&& goes_on(t) <==> k - 1 - w.rounds <= j
                &&& t.rounds == w.rounds
                &&& t.lower_is_better == low
            };
        let b = values[j];
        if !v.nan() && !b.nan() {
            law_order_is_that_of_the_values(v, b);
            law_order_is_that_of_the_values(b, v);
        }
        if better(low, v, b) {
            assert(j > 0 ==> !values[0].nan());
            assert(j == 0 ==> values[0] == b);
            assert forall|i: int| 0 <= i < k - 1 && !(#[trigger] values[i]).nan() implies if low {
                value_of(v) < value_of(values[i])
            } else {
                value_of(values[i]) < value_of(v)
            } by {
                if i < j {
                } else if i > j {
                }
            }
            assert(is_choice(low, values, k, k - 1));
        } else {
            assert(is_choice(low, values, k, j));
        }
    }
}

/// There is one choice: two values cannot both be better than all before and not beaten after.
pub proof fn law_the_choice_is_unique(
    lower_is_better: bool,
    values: Seq<F32>,
    k: int,
    i: int,
    j: int,
)
    requires
        is_choice(lower_is_better, values, k, i),
        is_choice(lower_is_better, values, k, j),
    ensures
        i == j,
{
    if i < j {
        assert(!values[0].nan());
        if i > 0 {
            assert(!values[i].nan());
        }
    } else if j < i {
        assert(!values[0].nan());
        if j > 0 {
            assert(!values[j].nan());
        }
    }
}

/// Prints every so many rounds.
#[derive(Clone, Copy, Debug, PartialEq, Eq, Structural)]
pub struct VerboseEval {
    pub period: usize,
}

impl VerboseEval {
    /// Is a round printed? Never where the period is zero.
    pub fn is_due(&self, round: usize) -> (r: bool)
        ensures
            r == (self.period > 0 && round % self.period == 0),
    {
        self.period > 0 && round % self.period == 0
    }
}

impl Callback for VerboseEval {
    /// Printing never stops training.
    fn after_iteration(&mut self, m: &RoundMetrics) -> (r: bool)
        ensures
            r,
            *final(self) == *old(self),
    {
        true
    }
}

/// Keeps the results of every round.
pub struct RecordHistory {
    pub history: Vec<RoundMetrics>,
}

impl RecordHistory {
    /// No round yet.
    pub fn new() -> (r: Self)
        ensures
            r.history@ == Seq::<RoundMetrics>::empty(),
    {
        let history: Vec<RoundMetrics> = Vec::new();
        assert(history@ =~= Seq::<RoundMetrics>::empty());
        RecordHistory { history }
    }

    /// The rounds so far.
    pub fn handle(&self) -> (r: &Vec<RoundMetrics>)
        ensures
            *r == self.history,
    {
        &self.history
    }
}

impl Callback for RecordHistory {
    /// Recording never stops training.
    fn after_iteration(&mut self, m: &RoundMetrics) -> (r: bool)
        ensures
            r,
            final(self).history@.len() == old(self).history@.len() + 1,
            final(self).history@.drop_last() == old(self).history@,
            same_results(final(self).history@.last(), *m),
    {
        let ghost before = self.history@;
        let copy: RoundMetrics = m.copy();
        self.history.push(copy);
        assert(self.history@.drop_last() =~= before);
        true
    }
}

/// The values of a metric on an evaluation set in the first `n` entries of a round.
pub open spec fn picked(
    entries: Seq<(String, String, F32)>,
    eval: Seq<char>,
    metric: Seq<char>,
    n: int,
) -> Seq<F32>
    decreases n,
{
    if n <= 0 {
        seq![]
    } else {
        let rest = picked(entries, eval, metric, n - 1);
        let e = entries[n - 1];
        if e.0@ == eval && e.1@ == metric {
            rest.push(e.2)
        } else {
            rest
        }
    }
}

/// The values of a metric on an evaluation set are those of the entries with both names, each of
/// them once, in their order: `places` tells where they stand.
pub proof fn law_values_come_from_the_entries_with_both_names(
    entries: Seq<(String, String, F32)>,
    eval: Seq<char>,
    metric: Seq<char>,
    n: int,
) -> (places: Seq<int>)
    requires
        0 <= n <= entries.len(),
    ensures
        places.len() == picked(entries, eval, metric, n).len(),
        forall|i: int|
            0 <= i < places.len() ==> 0 <= #[trigger] places[i] < n && entries[places[i]].0@ == eval
                && entries[places[i]].1@ == metric && picked(entries, eval, metric, n)[i]
                == entries[places[i]].2,
        forall|i: int, j: int| 0 <= i < j < places.len() ==> places[i] < places[j],
        forall|p: int|
            0 <= p < n && (#[trigger] entries[p]).0@ == eval && entries[p].1@ == metric
                ==> places.contains(p),
    decreases n,
{
    if n == 0 {
        seq![]
    } else {
        let rest = law_values_come_from_the_entries_with_both_names(entries, eval, metric, n - 1);
        let e = entries[n - 1];
        if e.0@ == eval && e.1@ == metric {
            let places = rest.push(n - 1);
            assert forall|p: int| 0 <= p < n && (#[trigger] entries[p]).0@ == eval
                && entries[p].1@ == metric implies places.contains(p) by {
                if p < n - 1 {
                    assert(rest.contains(p));
                    let i = choose|i: int| 0 <= i < rest.len() && rest[i] == p;
                    assert(places[i] == p);
                } else {
                    assert(places[rest.len() as int] == p);
                }
            }
            places
        } else {
            rest
        }
    }
}

/// The values of a metric on an evaluation set over the first `k` rounds.
pub open spec fn series_of(
    history: Seq<RoundMetrics>,
    eval: Seq<char>,
    metric: Seq<char>,
    k: int,
) -> Seq<F32>
    decreases k,
{
    if k <= 0 {
        seq![]
    } else {
        series_of(history, eval, metric, k - 1) + picked(
            history[k - 1].entries@,
            eval,
            metric,
            history[k - 1].entries@.len() as int,
        )
    }
}

/// Where every round has one value of a metric on an evaluation set, the series is those values in
/// the order of the rounds; a round without one leaves no gap.
pub proof fn law_series_follows_the_rounds(
    history: Seq<RoundMetrics>,
    eval: Seq<char>,
    metric: Seq<char>,
    k: int,
)
    requires
        0 <= k <= history.len(),
        forall|r: int|
            0 <= r < k ==> picked(
                (#[trigger] history[r]).entries@,
                eval,
                metric,
                history[r].entries@.len() as int,
            ).len() == 1,
    ensures
        series_of(history, eval, metric, k).len() == k,
        forall|r: int|
            0 <= r < k ==> (#[trigger] series_of(history, eval, metric, k)[r]) == picked(
                history[r].entries@,
                eval,
                metric,
                history[r].entries@.len() as int,
            )[0],
        k < history.len() && (forall|a: int|
            0 <= a < history[k].entries@.len() ==> (#[trigger] history[k].entries@[a]).0@ != eval
                || history[k].entries@[a].1@ != metric) ==> series_of(history, eval, metric, k + 1)
            == series_of(history, eval, metric, k),
    decreases k,
{
    if k > 0 {
        law_series_follows_the_rounds(history, eval, metric, k - 1);
        let rest = series_of(history, eval, metric, k - 1);
        let all = series_of(history, eval, metric, k);
        let last = history[k - 1];
        assert forall|r: int| 0 <= r < k implies (#[trigger] all[r]) == picked(
            history[r].entries@,
            eval,
            metric,
            history[r].entries@.len() as int,
        )[0] by {
            if r < k - 1 {
                assert(all[r] == rest[r]);
            }
        }
    }
    if k < history.len() && (forall|a: int|
        0 <= a < history[k].entries@.len() ==> (#[trigger] history[k].entries@[a]).0@ != eval
            || history[k].entries@[a].1@ != metric) {
        let entries = history[k].entries@;
        let places = law_values_come_from_the_entries_with_both_names(
            entries,
            eval,
            metric,
            entries.len() as int,
        );
        if places.len() > 0 {
            assert(0 <= places[0] < entries.len());
            assert(entries[places[0]].0@ == eval);
        }
        assert(series_of(history, eval, metric, k + 1) =~= series_of(history, eval, metric, k));
    }
}

/// The values of a metric on an evaluation set over all rounds.
pub fn evals_series(history: &[RoundMetrics], eval: &str, metric: &str) -> (r: Vec<F32>)
    ensures
        r@ == series_of(history@, eval@, metric@, history@.len() as int),
{
    let mut r: Vec<F32> = Vec::new();
    let mut k: usize = 0;
    while k < history.len()
        invariant
            k <= history@.len(),
            r@ == series_of(history@, eval@, metric@, k as int),
        decreases history.len() - k,
    {
        let entries: &Vec<(String, String, F32)> = &history[k].entries;
        let ghost before = r@;
        let mut i: usize = 0;
        assert(before + picked(entries@, eval@, metric@, 0) =~= before);
        while i < entries.len()
            invariant
                i <= entries@.len(),
                r@ == before + picked(entries@, eval@, metric@, i as int),
            decreases entries.len() - i,
        {
            if same_text(entries[i].0.as_str(), eval) && same_text(entries[i].1.as_str(), metric) {
                r.push(entries[i].2);
            }
            assert(r@ =~= before + picked(entries@, eval@, metric@, i + 1));
            i += 1;
        }
        k += 1;
    }
    r
}

/// A name joins the names that are there, unless it is one of them.
pub open spec fn noted(names: Seq<Seq<char>>, name: Seq<char>) -> Seq<Seq<char>> {
    if names.contains(name) {
        names
    } else {
        names.push(name)
    }
}

/// The evaluation sets of the first `i` entries, behind those that are known.
pub open spec fn evals_in(
    entries: Seq<(String, String, F32)>,
    known: Seq<Seq<char>>,
    i: int,
) -> Seq<Seq<char>>
    decreases i,
{
    if i <= 0 {
        known
    } else {
        noted(evals_in(entries, known, i - 1), entries[i - 1].0@)
    }
}

/// The evaluation sets of the first `k` rounds, in the order in which they first appear.
pub open spec fn evals_seen(history: Seq<RoundMetrics>, k: int) -> Seq<Seq<char>>
    decreases k,
{
    if k <= 0 {
        seq![]
    } else {
        evals_in(
            history[k - 1].entries@,
            evals_seen(history, k - 1),
            history[k - 1].entries@.len() as int,
        )
    }
}

/// The metrics of an evaluation set among the first `i` entries, behind those that are known.
pub open spec fn metrics_in(
    entries: Seq<(String, String, F32)>,
    eval: Seq<char>,
    known: Seq<Seq<char>>,
    i: int,
) -> Seq<Seq<char>>
    decreases i,
{
    if i <= 0 {
        known
    } else if entries[i - 1].0@ == eval {
        noted(metrics_in(entries, eval, known, i - 1), entries[i - 1].1@)
    } else {
        metrics_in(entries, eval, known, i - 1)
    }
}

/// The metrics of an evaluation set in the first `k` rounds, in the order in which they first
/// appear.
pub open spec fn metrics_seen(history: Seq<RoundMetrics>, eval: Seq<char>, k: int) -> Seq<Seq<char>>
    decreases k,
{
    if k <= 0 {
        seq![]
    } else {
        metrics_in(
            history[k - 1].entries@,
            eval,
            metrics_seen(history, eval, k - 1),
            history[k - 1].entries@.len() as int,
        )
    }
}

/// Names as sequences.
pub open spec fn names_in(names: Seq<String>) -> Seq<Seq<char>> {
    names.map_values(|n: String| n@)
}

fn note(names: &mut Vec<String>, name: &String)
    ensures
        names_in(final(names)@) == noted(names_in(old(names)@), name@),
{
    let ghost before = names@;
    let mut i: usize = 0;
    while i < names.len()
        invariant
            i <= names@.len(),
            names@ == before,
            forall|k: int| 0 <= k < i ==> (#[trigger] names@[k])@ != name@,
        decreases names.len() - i,
    {
        if same_text(names[i].as_str(), name.as_str()) {
            assert(names_in(names@)[i as int] == name@);
            return;
        }
        i += 1;
    }
    proof {
        assert forall|k: int| 0 <= k < before.len() implies names_in(before)[k] != name@ by {
            assert(before[k]@ != name@);
        }
    }
    names.push(name.clone());
    assert(names_in(names@) =~= names_in(before).push(name@));
}

fn eval_names(history: &[RoundMetrics]) -> (r: Vec<String>)
    ensures
        names_in(r@) == evals_seen(history@, history@.len() as int),
{
    let mut r: Vec<String> = Vec::new();
    assert(names_in(r@) =~= evals_seen(history@, 0));
    let mut k: usize = 0;
    while k < history.len()
        invariant
            k <= history@.len(),
            names_in(r@) == evals_seen(history@, k as int),
        decreases history.len() - k,
    {
        let entries: &Vec<(String, String, F32)> = &history[k].entries;
        let ghost known = names_in(r@);
        let mut i: usize = 0;
        while i < entries.len()
            invariant
                i <= entries@.len(),
                names_in(r@) == evals_in(entries@, known, i as int),
            decreases entries.len() - i,
        {
            note(&mut r, &entries[i].0);
            i += 1;
        }
        k += 1;
    }
    r
}

fn metric_names(history: &[RoundMetrics], eval: &str) -> (r: Vec<String>)
    ensures
        names_in(r@) == metrics_seen(history@, eval@, history@.len() as int),
{
    let mut r: Vec<String> = Vec::new();
    assert(names_in(r@) =~= metrics_seen(history@, eval@, 0));
    let mut k: usize = 0;
    while k < history.len()
        invariant
            k <= history@.len(),
            names_in(r@) == metrics_seen(history@, eval@, k as int),
        decreases history.len() - k,
    {
        let entries: &Vec<(String, String, F32)> = &history[k].entries;
        let ghost known = names_in(r@);
        let mut i: usize = 0;
        while i < entries.len()
            invariant
                i <= entries@.len(),
                names_in(r@) == metrics_in(entries@, eval@, known, i as int),
            decreases entries.len() - i,
        {
            if same_text(entries[i].0.as_str(), eval) {
                note(&mut r, &entries[i].1);
            }
            i += 1;
        }
        k += 1;
    }
    r
}

/// The values of one metric over all rounds.
pub struct MetricSeries {
    pub metric: String,
    pub values: Vec<F32>,
}

/// All metrics of one evaluation set.
pub struct EvalRecord {
    pub eval: String,
    pub metrics: Vec<MetricSeries>,
}

impl EvalRecord {
    /// The record tells of an evaluation set all that the history holds.
    pub open spec fn is_of(&self, history: Seq<RoundMetrics>) -> bool {
        let n = history.len() as int;
        let seen = metrics_seen(history, self.eval@, n);
        &&& self.metrics@.len() == seen.len()
        &&& forall|j: int|
            0 <= j < seen.len() ==> (#[trigger] self.metrics@[j]).metric@ == seen[j]
                && self.metrics@[j].values@ == series_of(history, self.eval@, seen[j], n)
    }
}

fn eval_record(history: &[RoundMetrics], eval: String) -> (r: EvalRecord)
    ensures
        r.eval == eval,
        r.is_of(history@),
{
    let names: Vec<String> = metric_names(history, eval.as_str());
    let ghost seen = names_in(names@);
    let mut metrics: Vec<MetricSeries> = Vec::new();
    let mut j: usize = 0;
    while j < names.len()
        invariant
            j <= names@.len(),
            seen == names_in(names@),
            metrics@.len() == j,
            forall|i: int|
                0 <= i < j ==> (#[trigger] metrics@[i]).metric@ == seen[i] && metrics@[i].values@
                    == series_of(history@, eval@, seen[i], history@.len() as int),
        decreases names.len() - j,
    {
        let values: Vec<F32> = evals_series(history, eval.as_str(), names[j].as_str());
        assert(seen[j as int] == names@[j as int]@);
        metrics.push(MetricSeries { metric: names[j].clone(), values });
        j += 1;
    }
    EvalRecord { eval, metrics }
}

/// The history of training by evaluation set and metric. Sets and metrics stand in the order in
/// which they first appear.
pub fn evals_result(history: &[RoundMetrics]) -> (r: Vec<EvalRecord>)
    ensures
        r@.len() == evals_seen(history@, history@.len() as int).len(),
        forall|i: int|
            0 <= i < r@.len() ==> (#[trigger] r@[i]).eval@ == evals_seen(
                history@,
                history@.len() as int,
            )[i] && r@[i].is_of(history@),
{
    let names: Vec<String> = eval_names(history);
    let ghost seen = names_in(names@);
    let mut r: Vec<EvalRecord> = Vec::new();
    let mut i: usize = 0;
    while i < names.len()
        invariant
            i <= names@.len(),
            seen == names_in(names@),
            r@.len() == i,
            forall|k: int|
                0 <= k < i ==> (#[trigger] r@[k]).eval@ == seen[k] && r@[k].is_of(history@),
        decreases names.len() - i,
    {
        assert(seen[i as int] == names@[i as int]@);
        r.push(eval_record(history, names[i].clone()));
        i += 1;
    }
    r
}

proof fn lemma_evals_in_keep(
    entries: Seq<(String, String, F32)>,
    known: Seq<Seq<char>>,
    name: Seq<char>,
    i: int,
)
    requires
        known.contains(name),
    ensures
        evals_in(entries, known, i).contains(name),
    decreases i,
{
    if i > 0 {
        lemma_evals_in_keep(entries, known, name, i - 1);
        lemma_noted_keeps(evals_in(entries, known, i - 1), entries[i - 1].0@, name);
    }
}

proof fn lemma_noted_keeps(names: Seq<Seq<char>>, more: Seq<char>, name: Seq<char>)
    ensures
        names.contains(name) ==> noted(names, more).contains(name),
        noted(names, more).contains(more),
{
    if names.contains(name) {
        let p = choose|p: int| 0 <= p < names.len() && names[p] == name;
        assert(noted(names, more)[p] == name);
    }
    if !names.contains(more) {
        assert(noted(names, more)[names.len() as int] == more);
    }
}

proof fn lemma_evals_in_has(
    entries: Seq<(String, String, F32)>,
    known: Seq<Seq<char>>,
    at: int,
    i: int,
)
    requires
        0 <= at < i <= entries.len(),
    ensures
        evals_in(entries, known, i).contains(entries[at].0@),
    decreases i,
{
    let before = evals_in(entries, known, i - 1);
    lemma_noted_keeps(before, entries[i - 1].0@, entries[at].0@);
    if at < i - 1 {
        lemma_evals_in_has(entries, known, at, i - 1);
    }
}

proof fn lemma_metrics_in_keep(
    entries: Seq<(String, String, F32)>,
    eval: Seq<char>,
    known: Seq<Seq<char>>,
    name: Seq<char>,
    i: int,
)
    requires
        known.contains(name),
    ensures
        metrics_in(entries, eval, known, i).contains(name),
    decreases i,
{
    if i > 0 {
        lemma_metrics_in_keep(entries, eval, known, name, i - 1);
        lemma_noted_keeps(metrics_in(entries, eval, known, i - 1), entries[i - 1].1@, name);
    }
}

proof fn lemma_metrics_in_has(
    entries: Seq<(String, String, F32)>,
    known: Seq<Seq<char>>,
    at: int,
    i: int,
)
    requires
        0 <= at < i <= entries.len(),
    ensures
        metrics_in(entries, entries[at].0@, known, i).contains(entries[at].1@),
    decreases i,
{
    let eval = entries[at].0@;
    let before = metrics_in(entries, eval, known, i - 1);
    lemma_noted_keeps(before, entries[i - 1].1@, entries[at].1@);
    if at < i - 1 {
        lemma_metrics_in_has(entries, known, at, i - 1);
    }
}

/// Nothing of the history is lost: the evaluation set and the metric of every entry of every
/// round are among those that the result tells of.
pub proof fn law_every_entry_is_recorded(history: Seq<RoundMetrics>, round: int, at: int, k: int)
    requires
        0 <= round < k <= history.len(),
        0 <= at < history[round].entries@.len(),
    ensures
        evals_seen(history, k).contains(history[round].entries@[at].0@),
        metrics_seen(history, history[round].entries@[at].0@, k).contains(
            history[round].entries@[at].1@,
        ),
    decreases k,
{
    let entry = history[round].entries@[at];
    let entries = history[k - 1].entries@;
    let n = entries.len() as int;
    let evals = evals_seen(history, k - 1);
    let metrics = metrics_seen(history, entry.0@, k - 1);
    if round == k - 1 {
        lemma_evals_in_has(entries, evals, at, n);
        lemma_metrics_in_has(entries, metrics, at, n);
    } else {
        law_every_entry_is_recorded(history, round, at, k - 1);
        lemma_evals_in_keep(entries, evals, entry.0@, n);
        lemma_metrics_in_keep(entries, entry.0@, metrics, entry.1@, n);
    }
}

/// One of the callbacks of a run.
#[derive(Clone, Copy, Debug, PartialEq, Eq, Structural)]
pub enum CallbackKind {
    EarlyStopping { rounds: usize },
    Verbose { period: usize },
    /// The caller's own callback of this number.
    User(usize),
    Recorder,
}

/// The callbacks of a run in order: early stopping and printing where asked for, the caller's own,
/// and last the record of all rounds. A period of zero asks for no printing.
pub fn build_callbacks(
    early_stopping_rounds: Option<usize>,
    verbose_eval: Option<usize>,
    n_user: usize,
) -> (r: Vec<CallbackKind>)
    ensures
        r@ == (match early_stopping_rounds {
            Some(rounds) => seq![CallbackKind::EarlyStopping { rounds }],
            None => seq![],
        }) + (if verbose_eval is Some && verbose_eval->0 > 0 {
            seq![CallbackKind::Verbose { period: verbose_eval->0 }]
        } else {
            seq![]
        }) + Seq::new(n_user as nat, |i: int| CallbackKind::User(i as usize)) + seq![
            CallbackKind::Recorder,
        ],
{
    let mut r: Vec<CallbackKind> = Vec::new();
    if let Some(rounds) = early_stopping_rounds {
        r.push(CallbackKind::EarlyStopping { rounds });
    }
    if let Some(period) = verbose_eval {
        if period > 0 {
            r.push(CallbackKind::Verbose { period });
        }
    }
    let ghost head = r@;
    let ghost own = Seq::new(n_user as nat, |i: int| CallbackKind::User(i as usize));
    let mut i: usize = 0;
    assert(head + own.take(0) =~= head);
    while i < n_user
        invariant
            i <= n_user,
            own == Seq::new(n_user as nat, |k: int| CallbackKind::User(k as usize)),
            r@ == head + own.take(i as int),
        decreases n_user - i,
    {
        r.push(CallbackKind::User(i));
        assert(head + own.take(i + 1) =~= (head + own.take(i as int)).push(
            CallbackKind::User(i),
        ));
        i += 1;
    }
    assert(own.take(n_user as int) =~= own);
    r.push(CallbackKind::Recorder);
    r
}

} // verus!
