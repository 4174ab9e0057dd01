//! What the ranks of a summary are ranks of.
//!
//! Ranks are sums in the caller's arithmetic. Where that is exact, a rank is the weight of the
//! observations up to a value, and cuts lie at equal shares of that weight.
use vstd::prelude::*;

use super::sort::{all_known, in_value_order, is_sorting};
use super::summary::{ordered, same_value, zero, Entry, RankMath};
use crate::float32::{law_order_is_that_of_the_values, value_of, F32};

verus! {

/// The weights of the observations whose value is taken, read as integers and added up.
pub open spec fn weight_where(
    p: Seq<(F32, F32)>,
    num: spec_fn(F32) -> int,
    taken: spec_fn(F32) -> bool,
) -> int
    decreases p.len(),
{
    if p.len() == 0 {
        0
    } else {
        weight_where(p.drop_last(), num, taken) + if taken(p.last().0) {
            num(p.last().1)
        } else {
            0
        }
    }
}

/// The weight of the observations below a value.
pub open spec fn weight_below(p: Seq<(F32, F32)>, num: spec_fn(F32) -> int, v: F32) -> int {
    weight_where(p, num, |x: F32| value_of(x) < value_of(v))
}

/// The weight of the observations up to and with a value.
pub open spec fn weight_upto(p: Seq<(F32, F32)>, num: spec_fn(F32) -> int, v: F32) -> int {
    weight_where(p, num, |x: F32| value_of(x) <= value_of(v))
}

/// The weight of the observations with a value.
pub open spec fn weight_at(p: Seq<(F32, F32)>, num: spec_fn(F32) -> int, v: F32) -> int {
    weight_where(p, num, |x: F32| value_of(x) == value_of(v))
}

/// The weight of all observations.
pub open spec fn weight_all(p: Seq<(F32, F32)>, num: spec_fn(F32) -> int) -> int {
    weight_where(p, num, |x: F32| true)
}

/// No weight is read as less than nothing.
pub open spec fn weights_count(p: Seq<(F32, F32)>, num: spec_fn(F32) -> int) -> bool {
    forall|i: int| 0 <= i < p.len() ==> num((#[trigger] p[i]).1) >= 0
}

/// `num` reads ranks as integers. Up to `limit` the arithmetic of ranks adds them exactly, and they
/// are ordered as the integers are.
pub open spec fn counts_exactly<
    P: Fn(F32, F32) -> F32,
    B: Fn(F32, F32, F32, usize, usize) -> bool,
    M: Fn(F32, F32) -> F32,
>(math: RankMath<P, B, M>, num: spec_fn(F32) -> int, limit: int) -> bool {
    &&& num(zero()) == 0
    &&& crate::inference::adds_exactly(math.plus, num, 0, limit)
    &&& forall|a: F32, b: F32|
        0 <= num(a) <= limit && 0 <= num(b) <= limit ==> !a.nan() && !b.nan() && (#[trigger] a.lt(b)
            <==> num(a) < num(b))
}

/// The ranks of an entry are the weights below its value and up to it, and its weight is that of
/// the observations with its value.
pub open spec fn ranks_right(e: Entry, p: Seq<(F32, F32)>, num: spec_fn(F32) -> int) -> bool {
    &&& num(e.rmin) == weight_below(p, num, e.value)
    &&& num(e.rmax) == weight_upto(p, num, e.value)
    &&& num(e.weight) == weight_at(p, num, e.value)
}

/// Some entry has this value.
pub open spec fn has_value(s: Seq<Entry>, v: F32) -> bool {
    exists|t: int| 0 <= t < s.len() && value_of((#[trigger] s[t]).value) == value_of(v)
}

/// Some observation has this value.
pub open spec fn was_seen(p: Seq<(F32, F32)>, v: F32) -> bool {
    exists|k: int| 0 <= k < p.len() && value_of((#[trigger] p[k]).0) == value_of(v)
}

/// A summary tells everything of the observations: it has each of their values once, in order,
/// no other, and with the right ranks.
pub open spec fn holds_exactly(
    s: Seq<Entry>,
    p: Seq<(F32, F32)>,
    num: spec_fn(F32) -> int,
) -> bool {
    &&& ordered(s)
    &&& forall|t: int| 0 <= t < s.len() ==> #[trigger] ranks_right(s[t], p, num)
    &&& forall|t: int| 0 <= t < s.len() ==> #[trigger] was_seen(p, s[t].value)
    &&& forall|k: int| 0 <= k < p.len() ==> #[trigger] has_value(s, p[k].0)
}

// ---- weights ----

proof fn lemma_where_same(
    p: Seq<(F32, F32)>,
    num: spec_fn(F32) -> int,
    a: spec_fn(F32) -> bool,
    b: spec_fn(F32) -> bool,
)
    requires
        forall|i: int| 0 <= i < p.len() ==> a((#[trigger] p[i]).0) == b(p[i].0),
    ensures
        weight_where(p, num, a) == weight_where(p, num, b),
    decreases p.len(),
{
    if p.len() > 0 {
        let q = p.drop_last();
        assert forall|i: int| 0 <= i < q.len() implies a((#[trigger] q[i]).0) == b(q[i].0) by {
            assert(q[i] == p[i]);
        }
        assert(p[p.len() - 1] == p.last());
        lemma_where_same(q, num, a, b);
    }
}

proof fn lemma_where_split(
    p: Seq<(F32, F32)>,
    num: spec_fn(F32) -> int,
    a: spec_fn(F32) -> bool,
    b: spec_fn(F32) -> bool,
    both: spec_fn(F32) -> bool,
)
    requires
        forall|x: F32| #[trigger] both(x) <==> a(x) || b(x),
        forall|x: F32| !(#[trigger] a(x) && #[trigger] b(x)),
    ensures
        weight_where(p, num, both) == weight_where(p, num, a) + weight_where(p, num, b),
    decreases p.len(),
{
    if p.len() > 0 {
        lemma_where_split(p.drop_last(), num, a, b, both);
        let x = p.last().0;
        assert(both(x) <==> a(x) || b(x));
        assert(!(a(x) && b(x)));
    }
}

/// The weight up to a value is the weight below it and the weight at it.
pub proof fn law_weight_upto_is_below_and_at(
    p: Seq<(F32, F32)>,
    num: spec_fn(F32) -> int,
    v: F32,
)
    ensures
        weight_upto(p, num, v) == weight_below(p, num, v) + weight_at(p, num, v),
{
    let a = |x: F32| value_of(x) < value_of(v);
    let b = |x: F32| value_of(x) == value_of(v);
    let both = |x: F32| value_of(x) <= value_of(v);
    lemma_where_split(p, num, a, b, both);
}

pub(crate) proof fn lemma_where_bounds(
    p: Seq<(F32, F32)>,
    num: spec_fn(F32) -> int,
    a: spec_fn(F32) -> bool,
    b: spec_fn(F32) -> bool,
)
    requires
        weights_count(p, num),
        forall|x: F32| #[trigger] a(x) ==> b(x),
    ensures
        0 <= weight_where(p, num, a) <= weight_where(p, num, b),
    decreases p.len(),
{
    if p.len() > 0 {
        let q = p.drop_last();
        assert forall|i: int| 0 <= i < q.len() implies num((#[trigger] q[i]).1) >= 0 by {
            assert(q[i] == p[i]);
        }
        lemma_where_bounds(q, num, a, b);
        assert(num(p[p.len() - 1].1) >= 0);
        let x = p.last().0;
        assert(a(x) ==> b(x));
    }
}

pub(crate) proof fn lemma_where_remove(
    p: Seq<(F32, F32)>,
    num: spec_fn(F32) -> int,
    taken: spec_fn(F32) -> bool,
    j: int,
)
    requires
        0 <= j < p.len(),
    ensures
        weight_where(p, num, taken) == weight_where(p.remove(j), num, taken) + if taken(p[j].0) {
            num(p[j].1)
        } else {
            0
        },
    decreases p.len(),
{
    let n = p.len() - 1;
    if j == n {
        assert(p.remove(j) =~= p.drop_last());
    } else {
        let q = p.remove(j);
        assert(q.drop_last() =~= p.drop_last().remove(j));
        assert(q.last() == p.last());
        lemma_where_remove(p.drop_last(), num, taken, j);
    }
}

pub(crate) proof fn lemma_where_permuted(
    a: Seq<(F32, F32)>,
    b: Seq<(F32, F32)>,
    num: spec_fn(F32) -> int,
    taken: spec_fn(F32) -> bool,
)
    requires
        a.to_multiset() == b.to_multiset(),
    ensures
        weight_where(a, num, taken) == weight_where(b, num, taken),
    decreases a.len(),
{
    a.to_multiset_ensures();
    b.to_multiset_ensures();
    if a.len() > 0 {
        let x = a.last();
        assert(a[a.len() - 1] == x);
        assert(a.contains(x));
        assert(b.to_multiset().count(x) > 0);
        assert(b.contains(x));
        let j = choose|j: int| 0 <= j < b.len() && b[j] == x;
        lemma_where_remove(b, num, taken, j);
        assert(a.remove(a.len() - 1) =~= a.drop_last());
        assert(a.drop_last().to_multiset() == a.to_multiset().remove(x));
        assert(b.remove(j).to_multiset() == b.to_multiset().remove(x));
        lemma_where_permuted(a.drop_last(), b.remove(j), num, taken);
    } else {
        assert(b.len() == 0);
    }
}

/// The weight of the first `i` observations.
spec fn prefix(p: Seq<(F32, F32)>, num: spec_fn(F32) -> int, i: int) -> int {
    weight_all(p.take(i), num)
}

proof fn lemma_prefix_step(p: Seq<(F32, F32)>, num: spec_fn(F32) -> int, i: int)
    requires
        0 <= i < p.len(),
    ensures
        prefix(p, num, i + 1) == prefix(p, num, i) + num(p[i].1),
{
    assert(p.take(i + 1).drop_last() =~= p.take(i));
}

proof fn lemma_prefix_rises(p: Seq<(F32, F32)>, num: spec_fn(F32) -> int, i: int, j: int)
    requires
        0 <= i <= j <= p.len(),
        weights_count(p, num),
    ensures
        0 <= prefix(p, num, i) <= prefix(p, num, j),
    decreases j,
{
    if i < j {
        lemma_prefix_step(p, num, j - 1);
        assert(num(p[j - 1].1) >= 0);
        lemma_prefix_rises(p, num, i, j - 1);
    } else if i > 0 {
        lemma_prefix_step(p, num, i - 1);
        assert(num(p[i - 1].1) >= 0);
        lemma_prefix_rises(p, num, i - 1, i - 1);
    } else {
        assert(p.take(0) =~= Seq::<(F32, F32)>::empty());
    }
}

proof fn lemma_where_is_prefix(
    p: Seq<(F32, F32)>,
    num: spec_fn(F32) -> int,
    taken: spec_fn(F32) -> bool,
    a: int,
)
    requires
        0 <= a <= p.len(),
        forall|k: int| 0 <= k < a ==> taken((#[trigger] p[k]).0),
        forall|k: int| a <= k < p.len() ==> !taken((#[trigger] p[k]).0),
    ensures
        weight_where(p, num, taken) == prefix(p, num, a),
    decreases p.len(),
{
    if p.len() == 0 {
        assert(p.take(a) =~= p);
    } else if a == p.len() {
        assert(p.take(a) =~= p);
        lemma_where_same(p, num, taken, |x: F32| true);
    } else {
        let q = p.drop_last();
        assert(q.take(a) =~= p.take(a));
        assert(!taken(p[p.len() - 1].0));
        assert forall|k: int| 0 <= k < a implies taken((#[trigger] q[k]).0) by {
            assert(q[k] == p[k]);
        }
        assert forall|k: int| a <= k < q.len() implies !taken((#[trigger] q[k]).0) by {
            assert(q[k] == p[k]);
        }
        lemma_where_is_prefix(q, num, taken, a);
    }
}

pub(crate) proof fn lemma_same_key(a: F32, b: F32)
    requires
        !a.nan(),
        !b.nan(),
    ensures
        a.key() == b.key() <==> value_of(a) == value_of(b),
        a.key() < b.key() <==> value_of(a) < value_of(b),
{
    law_order_is_that_of_the_values(a, b);
    law_order_is_that_of_the_values(b, a);
}

// ---- summaries ----

/// An entry stands for the observations from `a` to `b`.
spec fn is_run_entry(
    e: Entry,
    p: Seq<(F32, F32)>,
    num: spec_fn(F32) -> int,
    a: int,
    b: int,
) -> bool {
    &&& 0 <= a < b <= p.len()
    &&& e.value == p[a].0
    &&& num(e.rmin) == prefix(p, num, a)
    &&& num(e.rmax) == prefix(p, num, b)
    &&& num(e.weight) == prefix(p, num, b) - prefix(p, num, a)
    &&& forall|k: int| a <= k < b ==> (#[trigger] p[k]).0.key() == p[a].0.key()
    &&& forall|k: int| 0 <= k < a ==> (#[trigger] p[k]).0.key() < p[a].0.key()
    &&& forall|k: int| b <= k < p.len() ==> (#[trigger] p[k]).0.key() > p[a].0.key()
}

spec fn has_run(e: Entry, p: Seq<(F32, F32)>, num: spec_fn(F32) -> int) -> bool {
    exists|a: int, b: int| is_run_entry(e, p, num, a, b)
}

spec fn has_key(s: Seq<Entry>, k: int) -> bool {
    exists|t: int| 0 <= t < s.len() && (#[trigger] s[t]).value.key() == k
}

proof fn lemma_weights_add_up<
    P: Fn(F32, F32) -> F32,
    B: Fn(F32, F32, F32, usize, usize) -> bool,
    M: Fn(F32, F32) -> F32,
>(
    math: RankMath<P, B, M>,
    num: spec_fn(F32) -> int,
    limit: int,
    p: Seq<(F32, F32)>,
    i: int,
    j: int,
    w: F32,
)
    requires
        counts_exactly(math, num, limit),
        weights_count(p, num),
        0 <= i <= j <= p.len(),
        num(w) >= 0,
        num(w) + prefix(p, num, j) - prefix(p, num, i) <= limit,
    ensures
        num(math.weights(p, i, j, w)) == num(w) + prefix(p, num, j) - prefix(p, num, i),
    decreases j - i,
{
    if i < j {
        lemma_prefix_step(p, num, i);
        lemma_prefix_rises(p, num, i + 1, j);
        assert(num(p[i].1) >= 0);
        let next = math.sum(w, p[i].1);
        assert(num(crate::inference::sum_of(math.plus, w, p[i].1)) == num(w) + num(p[i].1));
        lemma_weights_add_up(math, num, limit, p, i + 1, j, next);
    }
}

proof fn lemma_grouped_ranks<
    P: Fn(F32, F32) -> F32,
    B: Fn(F32, F32, F32, usize, usize) -> bool,
    M: Fn(F32, F32) -> F32,
>(
    math: RankMath<P, B, M>,
    num: spec_fn(F32) -> int,
    limit: int,
    p: Seq<(F32, F32)>,
    i: int,
    acc: F32,
)
    requires
        counts_exactly(math, num, limit),
        weights_count(p, num),
        in_value_order(p),
        0 <= i <= p.len(),
        prefix(p, num, p.len() as int) <= limit,
        num(acc) == prefix(p, num, i),
        forall|k: int| 0 <= k < i && i < p.len() ==> (#[trigger] p[k]).0.key() < p[i].0.key(),
    ensures
        forall|t: int|
            0 <= t < math.grouped(p, i, acc).len() ==> has_run(
                #[trigger] math.grouped(p, i, acc)[t],
                p,
                num,
            ),
        forall|k: int|
            i <= k < p.len() ==> #[trigger] has_key(math.grouped(p, i, acc), p[k].0.key()),
    decreases p.len() - i,
{
    if i < p.len() {
        RankMath::<P, B, M>::lemma_run_end(p, i, i);
        RankMath::<P, B, M>::lemma_run_end(p, i, i + 1);
        let j = RankMath::<P, B, M>::run_end(p, i, i);
        assert(j == RankMath::<P, B, M>::run_end(p, i, i + 1));
        assert(i < j <= p.len());
        lemma_prefix_rises(p, num, 0, i);
        lemma_prefix_rises(p, num, i, j);
        lemma_prefix_rises(p, num, j, p.len() as int);
        let w = math.weights(p, i, j, zero());
        lemma_weights_add_up(math, num, limit, p, i, j, zero());
        let next = math.sum(acc, w);
        assert(num(crate::inference::sum_of(math.plus, acc, w)) == num(acc) + num(w));
        let e = Entry { value: p[i].0, weight: w, rmin: acc, rmax: next };
        assert forall|k: int| j <= k < p.len() implies (#[trigger] p[k]).0.key() > p[i].0.key() by {
            assert(p[j].0.key() != p[i].0.key());
            assert(p[i].0.key() <= p[j].0.key());
            assert(p[j].0.key() <= p[k].0.key());
        }
        assert(is_run_entry(e, p, num, i, j));
        assert forall|k: int| 0 <= k < j && j < p.len() implies (#[trigger] p[k]).0.key()
            < p[j].0.key() by {
            assert(p[j].0.key() > p[i].0.key());
            if k < i {
                assert(p[k].0.key() < p[i].0.key());
            }
        }
        lemma_grouped_ranks(math, num, limit, p, j, next);
        let rest = math.grouped(p, j, next);
        let s = math.grouped(p, i, acc);
        assert(s == seq![e] + rest);
        assert forall|t: int| 0 <= t < s.len() implies has_run(#[trigger] s[t], p, num) by {
            if t > 0 {
                assert(s[t] == rest[t - 1]);
            }
        }
        assert forall|k: int| i <= k < p.len() implies #[trigger] has_key(s, p[k].0.key()) by {
            if k < j {
                assert(s[0].value.key() == p[k].0.key());
            } else {
                assert(has_key(rest, p[k].0.key()));
                let t = choose|t: int|
                    0 <= t < rest.len() && (#[trigger] rest[t]).value.key() == p[k].0.key();
                assert(s[t + 1] == rest[t]);
            }
        }
    }
}

/// A summary of observations tells everything of them: every value that was observed is there once,
/// its weight is the weight of all its observations, and its ranks are the weights below it and up
/// to it. The last rank is the weight of all observations.
pub proof fn law_summary_counts_every_observation<
    P: Fn(F32, F32) -> F32,
    B: Fn(F32, F32, F32, usize, usize) -> bool,
    M: Fn(F32, F32) -> F32,
>(
    math: RankMath<P, B, M>,
    num: spec_fn(F32) -> int,
    limit: int,
    s: Seq<Entry>,
    pairs: Seq<(F32, F32)>,
)
    requires
        math.is_summary(s, pairs),
        all_known(pairs),
        counts_exactly(math, num, limit),
        weights_count(pairs, num),
        weight_all(pairs, num) <= limit,
    ensures
        holds_exactly(s, pairs, num),
        pairs.len() > 0 ==> s.len() > 0 && num(s.last().rmax) == weight_all(pairs, num),
{
    let p = choose|p: Seq<(F32, F32)>| #[trigger]
        is_sorting(p, pairs) && s == math.grouped(p, 0, zero());
    super::sort::lemma_sorting_is_known(p, pairs);
    lemma_same_members(p, pairs);
    lemma_same_members(pairs, p);
    assert forall|i: int| 0 <= i < p.len() implies num((#[trigger] p[i]).1) >= 0 by {
        assert(pairs.contains(p[i]));
        let j = choose|j: int| 0 <= j < pairs.len() && pairs[j] == p[i];
        assert(num(pairs[j].1) >= 0);
    }
    lemma_where_permuted(p, pairs, num, |x: F32| true);
    assert(p.take(p.len() as int) =~= p);
    assert(p.take(0) =~= Seq::<(F32, F32)>::empty());
    assert(prefix(p, num, 0) == 0);
    math.law_summary_is_ordered(s, pairs);
    lemma_grouped_ranks(math, num, limit, p, 0, zero());
    lemma_runs_tell_all(s, p, pairs, num);
    if pairs.len() > 0 {
        assert(has_value(s, pairs[0].0));
        lemma_last_rank_is_the_weight(s, pairs, num);
    }
}

pub(crate) proof fn lemma_same_members(a: Seq<(F32, F32)>, b: Seq<(F32, F32)>)
    requires
        a.to_multiset() == b.to_multiset(),
    ensures
        a.len() == b.len(),
        forall|i: int| 0 <= i < a.len() ==> #[trigger] b.contains(a[i]),
{
    a.to_multiset_ensures();
    b.to_multiset_ensures();
    assert forall|i: int| 0 <= i < a.len() implies #[trigger] b.contains(a[i]) by {
        assert(a.contains(a[i]));
        assert(b.to_multiset().count(a[i]) > 0);
    }
}

proof fn lemma_runs_tell_all(
    s: Seq<Entry>,
    p: Seq<(F32, F32)>,
    pairs: Seq<(F32, F32)>,
    num: spec_fn(F32) -> int,
)
    requires
        all_known(p),
        all_known(pairs),
        p.to_multiset() == pairs.to_multiset(),
        ordered(s),
        forall|t: int| 0 <= t < s.len() ==> has_run(#[trigger] s[t], p, num),
        forall|k: int| 0 <= k < p.len() ==> #[trigger] has_key(s, p[k].0.key()),
    ensures
        holds_exactly(s, pairs, num),
{
    lemma_same_members(p, pairs);
    lemma_same_members(pairs, p);
    assert forall|t: int| 0 <= t < s.len() implies #[trigger] ranks_right(s[t], pairs, num) by {
        let e = s[t];
        assert(has_run(s[t], p, num));
        let (a, b) = choose|a: int, b: int| is_run_entry(e, p, num, a, b);
        lemma_run_ranks(e, p, num, a, b);
        let v = e.value;
        lemma_where_permuted(p, pairs, num, |x: F32| value_of(x) < value_of(v));
        lemma_where_permuted(p, pairs, num, |x: F32| value_of(x) <= value_of(v));
        lemma_where_permuted(p, pairs, num, |x: F32| value_of(x) == value_of(v));
    }
    assert forall|t: int| 0 <= t < s.len() implies #[trigger] was_seen(pairs, s[t].value) by {
        assert(has_run(s[t], p, num));
        let (a, b) = choose|a: int, b: int| is_run_entry(s[t], p, num, a, b);
        assert(pairs.contains(p[a]));
        let j = choose|j: int| 0 <= j < pairs.len() && pairs[j] == p[a];
        assert(value_of(pairs[j].0) == value_of(s[t].value));
    }
    assert forall|k: int| 0 <= k < pairs.len() implies #[trigger] has_value(s, pairs[k].0) by {
        assert(p.contains(pairs[k]));
        let j = choose|j: int| 0 <= j < p.len() && p[j] == pairs[k];
        assert(has_key(s, p[j].0.key()));
        let t = choose|t: int|
            0 <= t < s.len() && (#[trigger] s[t]).value.key() == p[j].0.key();
        assert(!s[t].value.nan());
        assert(!p[j].0.nan());
        lemma_same_key(s[t].value, p[j].0);
    }
}

proof fn lemma_run_ranks(e: Entry, p: Seq<(F32, F32)>, num: spec_fn(F32) -> int, a: int, b: int)
    requires
        all_known(p),
        is_run_entry(e, p, num, a, b),
    ensures
        ranks_right(e, p, num),
{
    let v = e.value;
    assert(!p[a].0.nan());
    let below = |x: F32| value_of(x) < value_of(v);
    let upto = |x: F32| value_of(x) <= value_of(v);
    assert forall|k: int| 0 <= k < p.len() implies (below((#[trigger] p[k]).0) <==> k < a) && (upto(
        p[k].0,
    ) <==> k < b) by {
        assert(!p[k].0.nan());
        lemma_same_key(p[k].0, v);
        lemma_same_key(v, p[k].0);
    }
    lemma_where_is_prefix(p, num, below, a);
    lemma_where_is_prefix(p, num, upto, b);
    law_weight_upto_is_below_and_at(p, num, v);
}

/// The largest entry has everything up to it.
proof fn lemma_last_rank_is_the_weight(
    s: Seq<Entry>,
    p: Seq<(F32, F32)>,
    num: spec_fn(F32) -> int,
)
    requires
        holds_exactly(s, p, num),
        all_known(p),
        s.len() > 0,
    ensures
        num(s.last().rmax) == weight_all(p, num),
{
    let n = s.len() - 1;
    let v = s[n].value;
    assert(ranks_right(s[n], p, num));
    assert forall|k: int| 0 <= k < p.len() implies value_of((#[trigger] p[k]).0) <= value_of(v) by {
        assert(has_value(s, p[k].0));
        let t = choose|t: int| 0 <= t < s.len() && value_of((#[trigger] s[t]).value) == value_of(p[k].0);
        assert(!s[t].value.nan() && !s[n].value.nan());
        lemma_same_key(s[t].value, v);
        if t < n {
            assert(s[t].value.key() < s[n].value.key());
        }
    }
    lemma_where_same(p, num, |x: F32| value_of(x) <= value_of(v), |x: F32| true);
}

/// Observations of weight one are counted: the weight of those with a value is their number, and the
/// weight of all is the number of all.
pub proof fn law_weights_of_one_count_the_observations(
    p: Seq<(F32, F32)>,
    num: spec_fn(F32) -> int,
    taken: spec_fn(F32) -> bool,
)
    requires
        forall|i: int| 0 <= i < p.len() ==> num((#[trigger] p[i]).1) == 1,
    ensures
        weight_where(p, num, taken) == p.filter(|o: (F32, F32)| taken(o.0)).len(),
        weight_all(p, num) == p.len(),
    decreases p.len(),
{
    reveal(Seq::filter);
    if p.len() > 0 {
        let q = p.drop_last();
        assert forall|i: int| 0 <= i < q.len() implies num((#[trigger] q[i]).1) == 1 by {
            assert(q[i] == p[i]);
        }
        law_weights_of_one_count_the_observations(q, num, taken);
        assert(num(p[p.len() - 1].1) == 1);
    }
}

/// In a summary of observations of weight one, an entry's ranks are as far apart as there are
/// observations with its value, and the last rank is the number of all observations.
pub proof fn law_summary_counts_rows<
    P: Fn(F32, F32) -> F32,
    B: Fn(F32, F32, F32, usize, usize) -> bool,
    M: Fn(F32, F32) -> F32,
>(
    math: RankMath<P, B, M>,
    num: spec_fn(F32) -> int,
    limit: int,
    s: Seq<Entry>,
    pairs: Seq<(F32, F32)>,
    t: int,
)
    requires
        math.is_summary(s, pairs),
        all_known(pairs),
        counts_exactly(math, num, limit),
        forall|i: int| 0 <= i < pairs.len() ==> num((#[trigger] pairs[i]).1) == 1,
        pairs.len() <= limit,
        0 <= t < s.len(),
    ensures
        num(s[t].rmax) - num(s[t].rmin) == pairs.filter(
            |o: (F32, F32)| value_of(o.0) == value_of(s[t].value),
        ).len(),
        num(s[t].rmin) == pairs.filter(
            |o: (F32, F32)| value_of(o.0) < value_of(s[t].value),
        ).len(),
        num(s.last().rmax) == pairs.len(),
{
    let v = s[t].value;
    let here = |x: F32| value_of(x) == value_of(v);
    let below = |x: F32| value_of(x) < value_of(v);
    law_weights_of_one_count_the_observations(pairs, num, here);
    law_weights_of_one_count_the_observations(pairs, num, below);
    assert(weights_count(pairs, num));
    law_summary_counts_every_observation(math, num, limit, s, pairs);
    assert(ranks_right(s[t], pairs, num));
    assert(was_seen(pairs, s[t].value));
    law_weight_upto_is_below_and_at(pairs, num, v);
    assert(pairs.filter(|o: (F32, F32)| here(o.0)) == pairs.filter(
        |o: (F32, F32)| value_of(o.0) == value_of(v),
    )) by {
        assert((|o: (F32, F32)| here(o.0)) =~= (|o: (F32, F32)| value_of(o.0) == value_of(v)));
    }
    assert(pairs.filter(|o: (F32, F32)| below(o.0)) == pairs.filter(
        |o: (F32, F32)| value_of(o.0) < value_of(v),
    )) by {
        assert((|o: (F32, F32)| below(o.0)) =~= (|o: (F32, F32)| value_of(o.0) < value_of(v)));
    }
}

// ---- merging ----

pub(crate) proof fn lemma_where_of_two(
    p: Seq<(F32, F32)>,
    q: Seq<(F32, F32)>,
    num: spec_fn(F32) -> int,
    taken: spec_fn(F32) -> bool,
)
    ensures
        weight_where(p + q, num, taken) == weight_where(p, num, taken) + weight_where(q, num, taken),
    decreases q.len(),
{
    if q.len() == 0 {
        assert(p + q =~= p);
    } else {
        assert((p + q).drop_last() =~= p + q.drop_last());
        lemma_where_of_two(p, q.drop_last(), num, taken);
    }
}

proof fn lemma_where_none(
    p: Seq<(F32, F32)>,
    num: spec_fn(F32) -> int,
    taken: spec_fn(F32) -> bool,
)
    requires
        forall|i: int| 0 <= i < p.len() ==> !taken((#[trigger] p[i]).0),
    ensures
        weight_where(p, num, taken) == 0,
    decreases p.len(),
{
    if p.len() > 0 {
        let q = p.drop_last();
        assert forall|i: int| 0 <= i < q.len() implies !taken((#[trigger] q[i]).0) by {
            assert(q[i] == p[i]);
        }
        assert(!taken(p[p.len() - 1].0));
        lemma_where_none(q, num, taken);
    }
}

/// The rank that the first `j` entries reach.
spec fn passed(s: Seq<Entry>, num: spec_fn(F32) -> int, j: int) -> int {
    if j <= 0 {
        0
    } else {
        num(s[j - 1].rmax)
    }
}

proof fn lemma_passed(
    s: Seq<Entry>,
    p: Seq<(F32, F32)>,
    num: spec_fn(F32) -> int,
    j: int,
    v: F32,
)
    requires
        holds_exactly(s, p, num),
        all_known(p),
        !v.nan(),
        0 <= j <= s.len(),
        j > 0 ==> s[j - 1].value.key() < v.key(),
        j < s.len() ==> v.key() <= s[j].value.key(),
    ensures
        weight_below(p, num, v) == passed(s, num, j),
        j == s.len() || v.key() < s[j].value.key() ==> weight_upto(p, num, v) == passed(s, num, j)
            && weight_at(p, num, v) == 0,
{
    let below = |x: F32| value_of(x) < value_of(v);
    let here = |x: F32| value_of(x) == value_of(v);
    assert forall|k: int| 0 <= k < p.len() implies (below((#[trigger] p[k]).0) <==> j > 0
        && value_of(p[k].0) <= value_of(s[j - 1].value)) && ((j == s.len() || v.key()
        < s[j].value.key()) ==> !here(p[k].0)) by {
        assert(has_value(s, p[k].0));
        let t = choose|t: int|
            0 <= t < s.len() && value_of((#[trigger] s[t]).value) == value_of(p[k].0);
        assert(!s[t].value.nan());
        lemma_same_key(s[t].value, v);
        if j > 0 {
            assert(!s[j - 1].value.nan());
            lemma_same_key(s[t].value, s[j - 1].value);
            lemma_same_key(s[j - 1].value, v);
            lemma_same_key(s[j - 1].value, s[t].value);
            if t < j - 1 {
                assert(s[t].value.key() < s[j - 1].value.key());
            } else if t > j - 1 {
                assert(s[j - 1].value.key() < s[t].value.key());
            }
        }
        if t >= j {
            assert(!s[j].value.nan());
            lemma_same_key(v, s[j].value);
            lemma_same_key(v, s[t].value);
            if t > j {
                assert(s[j].value.key() < s[t].value.key());
            }
        }
    }
    if j > 0 {
        assert(ranks_right(s[j - 1], p, num));
        let w = s[j - 1].value;
        lemma_where_same(p, num, below, |x: F32| value_of(x) <= value_of(w));
    } else {
        lemma_where_none(p, num, below);
    }
    law_weight_upto_is_below_and_at(p, num, v);
    if j == s.len() || v.key() < s[j].value.key() {
        lemma_where_none(p, num, here);
    }
}

proof fn lemma_distinct_front<
    P: Fn(F32, F32) -> F32,
    B: Fn(F32, F32, F32, usize, usize) -> bool,
    M: Fn(F32, F32) -> F32,
>(math: RankMath<P, B, M>, e: Entry, rest: Seq<Entry>)
    requires
        rest.len() > 0 ==> !same_value(e.value, rest[0].value),
    ensures
        math.distinct(seq![e] + rest) == seq![e] + math.distinct(rest),
    decreases rest.len(),
{
    let s = seq![e] + rest;
    if rest.len() == 0 {
        assert(s.drop_last() =~= Seq::<Entry>::empty());
        assert(math.distinct(s.drop_last()).len() == 0);
        assert(math.distinct(rest).len() == 0);
        assert(math.distinct(s) =~= seq![e] + math.distinct(rest));
    } else {
        let front = rest.drop_last();
        assert(s.drop_last() =~= seq![e] + front);
        assert(front.len() > 0 ==> front[0] == rest[0]);
        lemma_distinct_front(math, e, front);
        let r = math.distinct(front);
        let x = rest.last();
        assert(s.last() == x);
        assert((seq![e] + r).last() == if r.len() > 0 {
            r.last()
        } else {
            e
        });
        if r.len() > 0 {
            assert((seq![e] + r).drop_last() =~= seq![e] + r.drop_last());
        } else {
            assert(front.len() == 0);
            assert(x == rest[0]);
        }
        assert(math.distinct(s) =~= seq![e] + math.distinct(rest));
    }
}

proof fn lemma_distinct_pair<
    P: Fn(F32, F32) -> F32,
    B: Fn(F32, F32, F32, usize, usize) -> bool,
    M: Fn(F32, F32) -> F32,
>(math: RankMath<P, B, M>, e: Entry, f: Entry, rest: Seq<Entry>)
    requires
        same_value(e.value, f.value),
        rest.len() > 0 ==> !same_value(e.value, rest[0].value),
    ensures
        math.distinct(seq![e, f] + rest) == seq![math.joined(e, f)] + math.distinct(rest),
    decreases rest.len(),
{
    let s = seq![e, f] + rest;
    let both = math.joined(e, f);
    if rest.len() == 0 {
        assert(s.drop_last() =~= seq![e] + rest);
        lemma_distinct_front(math, e, rest);
        assert(math.distinct(s.drop_last()) =~= seq![e]);
        assert(s.last() == f);
        assert(math.distinct(s) =~= seq![both] + math.distinct(rest));
    } else {
        let front = rest.drop_last();
        assert(s.drop_last() =~= seq![e, f] + front);
        assert(front.len() > 0 ==> front[0] == rest[0]);
        lemma_distinct_pair(math, e, f, front);
        let r = math.distinct(front);
        let x = rest.last();
        assert(s.last() == x);
        assert((seq![both] + r).last() == if r.len() > 0 {
            r.last()
        } else {
            both
        });
        if r.len() > 0 {
            assert((seq![both] + r).drop_last() =~= seq![both] + r.drop_last());
        } else {
            assert(front.len() == 0);
            assert(x == rest[0]);
        }
        assert(math.distinct(s) =~= seq![both] + math.distinct(rest));
    }
}

proof fn lemma_first_of_two<
    P: Fn(F32, F32) -> F32,
    B: Fn(F32, F32, F32, usize, usize) -> bool,
    M: Fn(F32, F32) -> F32,
>(
    math: RankMath<P, B, M>,
    a: Seq<Entry>,
    b: Seq<Entry>,
    i: int,
    j: int,
    pa: F32,
    pb: F32,
    v: F32,
)
    requires
        0 <= i <= a.len(),
        0 <= j <= b.len(),
        i < a.len() ==> v.key() < a[i].value.key(),
        j < b.len() ==> v.key() < b[j].value.key(),
    ensures
        math.interleaved(a, b, i, j, pa, pb).len() > 0 ==> !same_value(
            v,
            math.interleaved(a, b, i, j, pa, pb)[0].value,
        ),
{
}

/// The ranks of two entries of one value, or of one entry where the other side does not have its
/// value, add up.
proof fn lemma_ranks_add_up(
    e: Entry,
    p: Seq<(F32, F32)>,
    q: Seq<(F32, F32)>,
    num: spec_fn(F32) -> int,
)
    requires
        num(e.rmin) == weight_below(p, num, e.value) + weight_below(q, num, e.value),
        num(e.rmax) == weight_upto(p, num, e.value) + weight_upto(q, num, e.value),
        num(e.weight) == weight_at(p, num, e.value) + weight_at(q, num, e.value),
    ensures
        ranks_right(e, p + q, num),
{
    let v = e.value;
    lemma_where_of_two(p, q, num, |x: F32| value_of(x) < value_of(v));
    lemma_where_of_two(p, q, num, |x: F32| value_of(x) <= value_of(v));
    lemma_where_of_two(p, q, num, |x: F32| value_of(x) == value_of(v));
}

proof fn lemma_weights_within(p: Seq<(F32, F32)>, num: spec_fn(F32) -> int, v: F32)
    requires
        weights_count(p, num),
    ensures
        0 <= weight_below(p, num, v) <= weight_upto(p, num, v) <= weight_all(p, num),
        0 <= weight_at(p, num, v) <= weight_upto(p, num, v),
{
    let below = |x: F32| value_of(x) < value_of(v);
    let here = |x: F32| value_of(x) == value_of(v);
    let upto = |x: F32| value_of(x) <= value_of(v);
    lemma_where_bounds(p, num, below, upto);
    lemma_where_bounds(p, num, here, upto);
    lemma_where_bounds(p, num, upto, |x: F32| true);
}

/// What merging is about: exact summaries of two lots of observations, whose weight together is
/// within the limit.
spec fn two_lots<
    P: Fn(F32, F32) -> F32,
    B: Fn(F32, F32, F32, usize, usize) -> bool,
    M: Fn(F32, F32) -> F32,
>(
    math: RankMath<P, B, M>,
    num: spec_fn(F32) -> int,
    limit: int,
    a: Seq<Entry>,
    p: Seq<(F32, F32)>,
    b: Seq<Entry>,
    q: Seq<(F32, F32)>,
) -> bool {
    &&& counts_exactly(math, num, limit)
    &&& holds_exactly(a, p, num)
    &&& holds_exactly(b, q, num)
    &&& all_known(p)
    &&& all_known(q)
    &&& weights_count(p, num)
    &&& weights_count(q, num)
    &&& weight_all(p, num) + weight_all(q, num) <= limit
}

/// An entry that only one side has, moved up by what the other side has passed.
proof fn lemma_shifted<
    P: Fn(F32, F32) -> F32,
    B: Fn(F32, F32, F32, usize, usize) -> bool,
    M: Fn(F32, F32) -> F32,
>(
    math: RankMath<P, B, M>,
    num: spec_fn(F32) -> int,
    limit: int,
    a: Seq<Entry>,
    p: Seq<(F32, F32)>,
    b: Seq<Entry>,
    q: Seq<(F32, F32)>,
    i: int,
    j: int,
    pb: F32,
)
    requires
        two_lots(math, num, limit, a, p, b, q),
        0 <= i < a.len(),
        0 <= j <= b.len(),
        num(pb) == passed(b, num, j),
        j > 0 ==> b[j - 1].value.key() < a[i].value.key(),
        j < b.len() ==> a[i].value.key() <= b[j].value.key(),
    ensures
        ({
            let v = a[i].value;
            let e = math.shifted(a[i], pb);
            &&& num(e.rmin) == weight_below(p, num, v) + weight_below(q, num, v)
            &&& num(e.rmax) == weight_upto(p, num, v) + weight_below(q, num, v)
            &&& num(e.weight) == weight_at(p, num, v)
            &&& (j == b.len() || a[i].value.key() < b[j].value.key()) ==> ranks_right(
                e,
                p + q,
                num,
            ) && ranks_right(e, q + p, num)
        }),
{
    let v = a[i].value;
    let e = math.shifted(a[i], pb);
    assert(ranks_right(a[i], p, num));
    assert(!v.nan());
    lemma_passed(b, q, num, j, v);
    lemma_weights_within(p, num, v);
    lemma_weights_within(q, num, v);
    assert(num(crate::inference::sum_of(math.plus, a[i].rmin, pb)) == num(a[i].rmin) + num(pb));
    assert(num(crate::inference::sum_of(math.plus, a[i].rmax, pb)) == num(a[i].rmax) + num(pb));
    if j == b.len() || a[i].value.key() < b[j].value.key() {
        lemma_ranks_add_up(e, p, q, num);
        lemma_ranks_add_up(e, q, p, num);
    }
}

/// Entries of one value from both sides, joined.
proof fn lemma_joined<
    P: Fn(F32, F32) -> F32,
    B: Fn(F32, F32, F32, usize, usize) -> bool,
    M: Fn(F32, F32) -> F32,
>(
    math: RankMath<P, B, M>,
    num: spec_fn(F32) -> int,
    limit: int,
    a: Seq<Entry>,
    p: Seq<(F32, F32)>,
    b: Seq<Entry>,
    q: Seq<(F32, F32)>,
    i: int,
    j: int,
    pb: F32,
)
    requires
        two_lots(math, num, limit, a, p, b, q),
        0 <= i < a.len(),
        0 <= j < b.len(),
        num(pb) == passed(b, num, j),
        j > 0 ==> b[j - 1].value.key() < a[i].value.key(),
        a[i].value.key() == b[j].value.key(),
    ensures
        ranks_right(
            math.joined(math.shifted(a[i], pb), math.shifted(b[j], a[i].rmax)),
            p + q,
            num,
        ),
{
    let v = a[i].value;
    let w = b[j].value;
    let e = math.shifted(a[i], pb);
    let f = math.shifted(b[j], a[i].rmax);
    let g = math.joined(e, f);
    assert(!v.nan() && !w.nan());
    assert(ranks_right(a[i], p, num));
    assert(ranks_right(b[j], q, num));
    lemma_shifted(math, num, limit, a, p, b, q, i, j, pb);
    lemma_same_key(v, w);
    assert(weight_below(q, num, v) == weight_below(q, num, w));
    assert(weight_upto(q, num, v) == weight_upto(q, num, w));
    assert(weight_at(q, num, v) == weight_at(q, num, w));
    lemma_weights_within(p, num, v);
    lemma_weights_within(q, num, v);
    law_weight_upto_is_below_and_at(p, num, v);
    law_weight_upto_is_below_and_at(q, num, v);
    assert(num(crate::inference::sum_of(math.plus, b[j].rmin, a[i].rmax)) == num(b[j].rmin) + num(
        a[i].rmax,
    ));
    assert(num(crate::inference::sum_of(math.plus, b[j].rmax, a[i].rmax)) == num(b[j].rmax) + num(
        a[i].rmax,
    ));
    assert(num(crate::inference::sum_of(math.plus, e.weight, f.weight)) == num(e.weight) + num(
        f.weight,
    ));
    assert(f.rmin.lt(e.rmin) <==> num(f.rmin) < num(e.rmin));
    assert(e.rmax.lt(f.rmax) <==> num(e.rmax) < num(f.rmax));
    lemma_ranks_add_up(g, p, q, num);
}

/// Every entry of the rest of a merged summary has the right ranks and a value of one of the
/// sides, and no value is lost.
spec fn rest_right(
    d: Seq<Entry>,
    a: Seq<Entry>,
    b: Seq<Entry>,
    i: int,
    j: int,
    all: Seq<(F32, F32)>,
    num: spec_fn(F32) -> int,
) -> bool {
    &&& forall|t: int|
        0 <= t < d.len() ==> ranks_right(#[trigger] d[t], all, num) && (has_key(
            a,
            d[t].value.key(),
        ) || has_key(b, d[t].value.key()))
    &&& forall|k: int| i <= k < a.len() ==> #[trigger] has_key(d, a[k].value.key())
    &&& forall|k: int| j <= k < b.len() ==> #[trigger] has_key(d, b[k].value.key())
}

proof fn lemma_rest_grows(
    e: Entry,
    d: Seq<Entry>,
    a: Seq<Entry>,
    b: Seq<Entry>,
    i: int,
    j: int,
    next_i: int,
    next_j: int,
    all: Seq<(F32, F32)>,
    num: spec_fn(F32) -> int,
)
    requires
        rest_right(d, a, b, next_i, next_j, all, num),
        ranks_right(e, all, num),
        has_key(a, e.value.key()) || has_key(b, e.value.key()),
        i <= next_i <= i + 1,
        j <= next_j <= j + 1,
        next_i == i + 1 ==> a[i].value.key() == e.value.key(),
        next_j == j + 1 ==> b[j].value.key() == e.value.key(),
    ensures
        rest_right(seq![e] + d, a, b, i, j, all, num),
{
    let s = seq![e] + d;
    assert(s[0] == e);
    assert forall|t: int| 0 <= t < s.len() implies ranks_right(#[trigger] s[t], all, num) && (has_key(
        a,
        s[t].value.key(),
    ) || has_key(b, s[t].value.key())) by {
        if t > 0 {
            assert(s[t] == d[t - 1]);
        }
    }
    assert forall|k: int| i <= k < a.len() implies #[trigger] has_key(s, a[k].value.key()) by {
        if k >= next_i {
            assert(has_key(d, a[k].value.key()));
            let t = choose|t: int|
                0 <= t < d.len() && (#[trigger] d[t]).value.key() == a[k].value.key();
            assert(s[t + 1] == d[t]);
        }
    }
    assert forall|k: int| j <= k < b.len() implies #[trigger] has_key(s, b[k].value.key()) by {
        if k >= next_j {
            assert(has_key(d, b[k].value.key()));
            let t = choose|t: int|
                0 <= t < d.len() && (#[trigger] d[t]).value.key() == b[k].value.key();
            assert(s[t + 1] == d[t]);
        }
    }
}

#[verifier::rlimit(60)]
#[verifier::spinoff_prover]
proof fn lemma_merged_from<
    P: Fn(F32, F32) -> F32,
    B: Fn(F32, F32, F32, usize, usize) -> bool,
    M: Fn(F32, F32) -> F32,
>(
    math: RankMath<P, B, M>,
    num: spec_fn(F32) -> int,
    limit: int,
    a: Seq<Entry>,
    p: Seq<(F32, F32)>,
    b: Seq<Entry>,
    q: Seq<(F32, F32)>,
    i: int,
    j: int,
    pa: F32,
    pb: F32,
)
    requires
        two_lots(math, num, limit, a, p, b, q),
        0 <= i <= a.len(),
        0 <= j <= b.len(),
        i > 0 && j < b.len() ==> a[i - 1].value.key() < b[j].value.key(),
        j > 0 && i < a.len() ==> b[j - 1].value.key() < a[i].value.key(),
        num(pa) == passed(a, num, i),
        num(pb) == passed(b, num, j),
    ensures
        rest_right(
            math.distinct(math.interleaved(a, b, i, j, pa, pb)),
            a,
            b,
            i,
            j,
            p + q,
            num,
        ),
    decreases a.len() - i + b.len() - j,
{
    let whole = math.interleaved(a, b, i, j, pa, pb);
    if i < a.len() {
        assert(!a[i].value.nan());
        assert(has_key(a, a[i].value.key()));
    }
    if j < b.len() {
        assert(!b[j].value.nan());
        assert(has_key(b, b[j].value.key()));
    }
    if i + 1 < a.len() {
        assert(a[i].value.key() < a[i + 1].value.key());
    }
    if j + 1 < b.len() {
        assert(b[j].value.key() < b[j + 1].value.key());
    }
    if i >= a.len() && j >= b.len() {
    } else if i < a.len() && j < b.len() && a[i].value.key() == b[j].value.key() {
        let e = math.shifted(a[i], pb);
        let f = math.shifted(b[j], a[i].rmax);
        let rest = math.interleaved(a, b, i + 1, j + 1, a[i].rmax, b[j].rmax);
        assert(math.interleaved(a, b, i + 1, j, a[i].rmax, pb) == seq![f] + rest);
        assert(whole == seq![e] + (seq![f] + rest));
        assert(whole =~= seq![e, f] + rest);
        lemma_first_of_two(math, a, b, i + 1, j + 1, a[i].rmax, b[j].rmax, a[i].value);
        lemma_distinct_pair(math, e, f, rest);
        lemma_merged_from(math, num, limit, a, p, b, q, i + 1, j + 1, a[i].rmax, b[j].rmax);
        lemma_joined(math, num, limit, a, p, b, q, i, j, pb);
        let d = math.distinct(rest);
        lemma_rest_grows(math.joined(e, f), d, a, b, i, j, i + 1, j + 1, p + q, num);
    } else if i < a.len() && (j >= b.len() || a[i].value.le(b[j].value)) {
        let e = math.shifted(a[i], pb);
        let rest = math.interleaved(a, b, i + 1, j, a[i].rmax, pb);
        assert(whole == seq![e] + rest);
        lemma_first_of_two(math, a, b, i + 1, j, a[i].rmax, pb, a[i].value);
        lemma_distinct_front(math, e, rest);
        lemma_merged_from(math, num, limit, a, p, b, q, i + 1, j, a[i].rmax, pb);
        lemma_shifted(math, num, limit, a, p, b, q, i, j, pb);
        lemma_rest_grows(e, math.distinct(rest), a, b, i, j, i + 1, j, p + q, num);
    } else {
        let f = math.shifted(b[j], pa);
        let rest = math.interleaved(a, b, i, j + 1, pa, b[j].rmax);
        assert(whole == seq![f] + rest);
        lemma_first_of_two(math, a, b, i, j + 1, pa, b[j].rmax, b[j].value);
        lemma_distinct_front(math, f, rest);
        lemma_merged_from(math, num, limit, a, p, b, q, i, j + 1, pa, b[j].rmax);
        lemma_shifted(math, num, limit, b, q, a, p, j, i, pa);
        lemma_rest_grows(f, math.distinct(rest), a, b, i, j, i, j + 1, p + q, num);
    }
}

/// Merging loses nothing: of summaries that tell everything of their observations comes one that
/// tells everything of all of them.
pub proof fn law_merging_counts_every_observation<
    P: Fn(F32, F32) -> F32,
    B: Fn(F32, F32, F32, usize, usize) -> bool,
    M: Fn(F32, F32) -> F32,
>(
    math: RankMath<P, B, M>,
    num: spec_fn(F32) -> int,
    limit: int,
    a: Seq<Entry>,
    p: Seq<(F32, F32)>,
    b: Seq<Entry>,
    q: Seq<(F32, F32)>,
)
    requires
        counts_exactly(math, num, limit),
        holds_exactly(a, p, num),
        holds_exactly(b, q, num),
        all_known(p),
        all_known(q),
        weights_count(p, num),
        weights_count(q, num),
        weight_all(p, num) + weight_all(q, num) <= limit,
    ensures
        holds_exactly(math.merged(a, b), p + q, num),
{
    if a.len() == 0 {
        if p.len() > 0 {
            assert(has_value(a, p[0].0));
        }
        assert(p + q =~= q);
    } else if b.len() == 0 {
        if q.len() > 0 {
            assert(has_value(b, q[0].0));
        }
        assert(p + q =~= p);
    } else {
        math.law_merging_keeps_the_order(a, b);
        lemma_merged_from(math, num, limit, a, p, b, q, 0, 0, zero(), zero());
        lemma_rest_is_all(math.merged(a, b), a, p, b, q, num);
    }
}

proof fn lemma_rest_is_all(
    d: Seq<Entry>,
    a: Seq<Entry>,
    p: Seq<(F32, F32)>,
    b: Seq<Entry>,
    q: Seq<(F32, F32)>,
    num: spec_fn(F32) -> int,
)
    requires
        ordered(d),
        all_known(p),
        all_known(q),
        holds_exactly(a, p, num),
        holds_exactly(b, q, num),
        rest_right(d, a, b, 0, 0, p + q, num),
    ensures
        holds_exactly(d, p + q, num),
{
    let all = p + q;
    assert forall|t: int| 0 <= t < d.len() implies #[trigger] was_seen(all, d[t].value) by {
        assert(ranks_right(d[t], all, num));
        assert(!d[t].value.nan());
        if has_key(a, d[t].value.key()) {
            let k = choose|k: int|
                0 <= k < a.len() && (#[trigger] a[k]).value.key() == d[t].value.key();
            assert(!a[k].value.nan());
            lemma_same_key(a[k].value, d[t].value);
            assert(was_seen(p, a[k].value));
            let m = choose|m: int|
                0 <= m < p.len() && value_of((#[trigger] p[m]).0) == value_of(a[k].value);
            assert(all[m] == p[m]);
        } else {
            let k = choose|k: int|
                0 <= k < b.len() && (#[trigger] b[k]).value.key() == d[t].value.key();
            assert(!b[k].value.nan());
            lemma_same_key(b[k].value, d[t].value);
            assert(was_seen(q, b[k].value));
            let m = choose|m: int|
                0 <= m < q.len() && value_of((#[trigger] q[m]).0) == value_of(b[k].value);
            assert(all[m + p.len()] == q[m]);
        }
    }
    assert forall|m: int| 0 <= m < all.len() implies #[trigger] has_value(d, all[m].0) by {
        if m < p.len() {
            assert(all[m] == p[m]);
            assert(has_value(a, p[m].0));
            let k = choose|k: int|
                0 <= k < a.len() && value_of((#[trigger] a[k]).value) == value_of(p[m].0);
            assert(has_key(d, a[k].value.key()));
            let t = choose|t: int|
                0 <= t < d.len() && (#[trigger] d[t]).value.key() == a[k].value.key();
            assert(!a[k].value.nan() && !d[t].value.nan());
            lemma_same_key(a[k].value, d[t].value);
        } else {
            assert(all[m] == q[m - p.len()]);
            let x = q[m - p.len()].0;
            assert(has_value(b, q[m - p.len()].0));
            let k = choose|k: int|
                0 <= k < b.len() && value_of((#[trigger] b[k]).value) == value_of(x);
            assert(has_key(d, b[k].value.key()));
            let t = choose|t: int|
                0 <= t < d.len() && (#[trigger] d[t]).value.key() == b[k].value.key();
            assert(!b[k].value.nan() && !d[t].value.nan());
            lemma_same_key(b[k].value, d[t].value);
        }
    }
}

// ---- shares ----

/// `below` compares exactly: the middle of two ranks lies below share `k` of `n` of a total where
/// twice the middle, `n` times, is less than twice the total, `k` times.
pub open spec fn measures_exactly<
    P: Fn(F32, F32) -> F32,
    B: Fn(F32, F32, F32, usize, usize) -> bool,
    M: Fn(F32, F32) -> F32,
>(math: RankMath<P, B, M>, num: spec_fn(F32) -> int, limit: int) -> bool {
    forall|a: F32, b: F32, total: F32, k: usize, n: usize|
        0 <= num(a) <= num(b) <= num(total) <= limit && k <= n ==> (#[trigger] math.answer(
            a,
            b,
            total,
            k,
            n,
        ) <==> (num(a) + num(b)) * n < 2 * num(total) * k)
}

/// Twice the rank of the middle of a value's observations.
pub open spec fn twice_middle(p: Seq<(F32, F32)>, num: spec_fn(F32) -> int, v: F32) -> int {
    weight_below(p, num, v) + weight_upto(p, num, v)
}

/// A value lies at share `k` of `n`: it is the first observed value whose middle reaches that share
/// of the weight, or the largest where none does.
pub open spec fn at_share(
    p: Seq<(F32, F32)>,
    num: spec_fn(F32) -> int,
    v: F32,
    k: int,
    n: int,
) -> bool {
    &&& was_seen(p, v)
    &&& forall|m: int|
        0 <= m < p.len() && value_of((#[trigger] p[m]).0) < value_of(v) ==> twice_middle(
            p,
            num,
            p[m].0,
        ) * n < 2 * weight_all(p, num) * k
    &&& twice_middle(p, num, v) * n >= 2 * weight_all(p, num) * k || forall|m: int|
        0 <= m < p.len() ==> value_of((#[trigger] p[m]).0) <= value_of(v)
}

/// Some share has this value.
pub open spec fn is_some_share(
    p: Seq<(F32, F32)>,
    num: spec_fn(F32) -> int,
    v: F32,
    n: int,
) -> bool {
    exists|k: int| 1 <= k < n && #[trigger] at_share(p, num, v, k, n)
}

/// Some cut lies at this share.
pub open spec fn share_has_cut(
    cuts: Seq<F32>,
    p: Seq<(F32, F32)>,
    num: spec_fn(F32) -> int,
    k: int,
    n: int,
) -> bool {
    exists|x: int| 0 <= x < cuts.len() && at_share(p, num, #[trigger] cuts[x], k, n)
}

proof fn lemma_under<
    P: Fn(F32, F32) -> F32,
    B: Fn(F32, F32, F32, usize, usize) -> bool,
    M: Fn(F32, F32) -> F32,
>(
    math: RankMath<P, B, M>,
    num: spec_fn(F32) -> int,
    limit: int,
    s: Seq<Entry>,
    p: Seq<(F32, F32)>,
    t: int,
    k: int,
    n: int,
)
    requires
        measures_exactly(math, num, limit),
        holds_exactly(s, p, num),
        all_known(p),
        weights_count(p, num),
        weight_all(p, num) <= limit,
        0 <= t < s.len(),
        0 <= k <= n <= usize::MAX,
    ensures
        math.under(s[t], s[s.len() - 1].rmax, k, n) <==> twice_middle(p, num, s[t].value) * n < 2
            * weight_all(p, num) * k,
{
    lemma_last_rank_is_the_weight(s, p, num);
    assert(ranks_right(s[t], p, num));
    lemma_weights_within(p, num, s[t].value);
    let total = s[s.len() - 1].rmax;
    assert(math.answer(s[t].rmin, s[t].rmax, total, k as usize, n as usize) <==> (num(s[t].rmin)
        + num(s[t].rmax)) * n < 2 * num(total) * k);
}

proof fn lemma_reaches<
    P: Fn(F32, F32) -> F32,
    B: Fn(F32, F32, F32, usize, usize) -> bool,
    M: Fn(F32, F32) -> F32,
>(math: RankMath<P, B, M>, s: Seq<Entry>, j: int, k: int, n: int)
    requires
        0 <= j <= s.len(),
    ensures
        j <= math.reaches(s, j, k, n) <= s.len(),
        forall|t: int|
            j <= t < math.reaches(s, j, k, n) ==> math.under(
                #[trigger] s[t],
                s[s.len() - 1].rmax,
                k,
                n,
            ),
        math.reaches(s, j, k, n) < s.len() ==> !math.under(
            s[math.reaches(s, j, k, n)],
            s[s.len() - 1].rmax,
            k,
            n,
        ),
    decreases s.len() - j,
{
    if j < s.len() && math.under(s[j], s[s.len() - 1].rmax, k, n) {
        lemma_reaches(math, s, j + 1, k, n);
    }
}

/// Where the value at a share stands.
spec fn place<
    P: Fn(F32, F32) -> F32,
    B: Fn(F32, F32, F32, usize, usize) -> bool,
    M: Fn(F32, F32) -> F32,
>(math: RankMath<P, B, M>, s: Seq<Entry>, k: int, n: int) -> int {
    crate::math::imin(math.reaches(s, 0, k, n), s.len() - 1)
}

proof fn lemma_quantile_at_share<
    P: Fn(F32, F32) -> F32,
    B: Fn(F32, F32, F32, usize, usize) -> bool,
    M: Fn(F32, F32) -> F32,
>(
    math: RankMath<P, B, M>,
    num: spec_fn(F32) -> int,
    limit: int,
    s: Seq<Entry>,
    p: Seq<(F32, F32)>,
    k: int,
    n: int,
)
    requires
        measures_exactly(math, num, limit),
        holds_exactly(s, p, num),
        all_known(p),
        weights_count(p, num),
        weight_all(p, num) <= limit,
        s.len() > 0,
        0 <= k <= n <= usize::MAX,
    ensures
        at_share(p, num, math.quantile(s, k, n), k, n),
{
    lemma_reaches(math, s, 0, k, n);
    let at = place(math, s, k, n);
    let v = s[at].value;
    assert(was_seen(p, s[at].value));
    assert(!v.nan());
    assert forall|m: int| 0 <= m < p.len() && value_of((#[trigger] p[m]).0) < value_of(
        v,
    ) implies twice_middle(p, num, p[m].0) * n < 2 * weight_all(p, num) * k by {
        assert(has_value(s, p[m].0));
        let t = choose|t: int|
            0 <= t < s.len() && value_of((#[trigger] s[t]).value) == value_of(p[m].0);
        assert(!s[t].value.nan());
        lemma_same_key(s[t].value, v);
        if t > at {
            assert(s[at].value.key() < s[t].value.key());
        }
        assert(t < at);
        lemma_under(math, num, limit, s, p, t, k, n);
        assert(twice_middle(p, num, s[t].value) == twice_middle(p, num, p[m].0));
    }
    lemma_under(math, num, limit, s, p, at, k, n);
    if math.reaches(s, 0, k, n) == s.len() {
        assert forall|m: int| 0 <= m < p.len() implies value_of((#[trigger] p[m]).0) <= value_of(
            v,
        ) by {
            assert(has_value(s, p[m].0));
            let t = choose|t: int|
                0 <= t < s.len() && value_of((#[trigger] s[t]).value) == value_of(p[m].0);
            assert(!s[t].value.nan());
            lemma_same_key(s[t].value, v);
            if t < at {
                assert(s[t].value.key() < s[at].value.key());
            }
        }
    }
}

proof fn lemma_places_rise<
    P: Fn(F32, F32) -> F32,
    B: Fn(F32, F32, F32, usize, usize) -> bool,
    M: Fn(F32, F32) -> F32,
>(
    math: RankMath<P, B, M>,
    num: spec_fn(F32) -> int,
    limit: int,
    s: Seq<Entry>,
    p: Seq<(F32, F32)>,
    k: int,
    n: int,
)
    requires
        measures_exactly(math, num, limit),
        holds_exactly(s, p, num),
        all_known(p),
        weights_count(p, num),
        weight_all(p, num) <= limit,
        s.len() > 0,
        0 <= k < n <= usize::MAX,
    ensures
        0 <= place(math, s, k, n) <= place(math, s, k + 1, n) < s.len(),
{
    lemma_reaches(math, s, 0, k, n);
    lemma_reaches(math, s, 0, k + 1, n);
    let r = math.reaches(s, 0, k + 1, n);
    if r < math.reaches(s, 0, k, n) {
        assert(math.under(s[r], s[s.len() - 1].rmax, k, n));
        lemma_under(math, num, limit, s, p, r, k, n);
        lemma_under(math, num, limit, s, p, r, k + 1, n);
        lemma_where_bounds(p, num, |x: F32| false, |x: F32| true);
        let w = weight_all(p, num);
        assert(2 * w * (k + 1) >= 2 * w * k) by (nonlinear_arith)
            requires
                w >= 0,
        ;
        assert(false);
    }
}

/// The value at a share is among the cuts.
spec fn is_cut<
    P: Fn(F32, F32) -> F32,
    B: Fn(F32, F32, F32, usize, usize) -> bool,
    M: Fn(F32, F32) -> F32,
>(math: RankMath<P, B, M>, s: Seq<Entry>, k: int, n: int, cuts: Seq<F32>) -> bool {
    exists|x: int| 0 <= x < cuts.len() && #[trigger] cuts[x] == math.quantile(s, k, n)
}

/// A cut is the value at some share.
spec fn of_share<
    P: Fn(F32, F32) -> F32,
    B: Fn(F32, F32, F32, usize, usize) -> bool,
    M: Fn(F32, F32) -> F32,
>(math: RankMath<P, B, M>, s: Seq<Entry>, k: int, n: int, v: F32) -> bool {
    exists|q: int| 1 <= q <= k && v == #[trigger] math.quantile(s, q, n)
}

proof fn lemma_quantiles_are_all<
    P: Fn(F32, F32) -> F32,
    B: Fn(F32, F32, F32, usize, usize) -> bool,
    M: Fn(F32, F32) -> F32,
>(
    math: RankMath<P, B, M>,
    num: spec_fn(F32) -> int,
    limit: int,
    s: Seq<Entry>,
    p: Seq<(F32, F32)>,
    k: int,
    n: int,
)
    requires
        measures_exactly(math, num, limit),
        holds_exactly(s, p, num),
        all_known(p),
        weights_count(p, num),
        weight_all(p, num) <= limit,
        s.len() > 0,
        0 <= k <= n <= usize::MAX,
    ensures
        k > 0 ==> math.quantiles(s, k, n).len() > 0 && math.quantiles(s, k, n).last()
            == math.quantile(s, k, n),
        k == 0 ==> math.quantiles(s, k, n).len() == 0,
        forall|x: int|
            0 <= x < math.quantiles(s, k, n).len() ==> of_share(
                math,
                s,
                k,
                n,
                #[trigger] math.quantiles(s, k, n)[x],
            ),
        forall|q: int| 1 <= q <= k ==> #[trigger] is_cut(math, s, q, n, math.quantiles(s, k, n)),
    decreases k,
{
    if k > 0 {
        lemma_quantiles_are_all(math, num, limit, s, p, k - 1, n);
        let rest = math.quantiles(s, k - 1, n);
        let all = math.quantiles(s, k, n);
        let v = math.quantile(s, k, n);
        if k > 1 {
            lemma_places_rise(math, num, limit, s, p, k - 1, n);
            let i = place(math, s, k - 1, n);
            let j = place(math, s, k, n);
            assert(rest.last() == s[i].value);
            assert(!s[i].value.nan() && !s[j].value.nan());
            if i < j {
                assert(s[i].value.key() < s[j].value.key());
            }
        }
        assert(all.last() == v);
        assert forall|x: int| 0 <= x < all.len() implies of_share(math, s, k, n, #[trigger] all[x]) by {
            if x < rest.len() {
                assert(all[x] == rest[x]);
                assert(of_share(math, s, k - 1, n, rest[x]));
                let q = choose|q: int|
                    1 <= q <= k - 1 && rest[x] == #[trigger] math.quantile(s, q, n);
                assert(all[x] == math.quantile(s, q, n));
            } else {
                assert(all[x] == math.quantile(s, k, n));
            }
        }
        assert forall|q: int| 1 <= q <= k implies #[trigger] is_cut(math, s, q, n, all) by {
            if q < k {
                assert(is_cut(math, s, q, n, rest));
                let x = choose|x: int|
                    0 <= x < rest.len() && #[trigger] rest[x] == math.quantile(s, q, n);
                assert(all[x] == rest[x]);
            } else {
                assert(all[all.len() - 1] == v);
            }
        }
    }
}

/// Cuts divide the weight of the observations into equal shares: where there are at least as many
/// values as bins, every cut is the value at some share of the weight, and every share has its cut.
pub proof fn law_cuts_lie_at_equal_shares<
    P: Fn(F32, F32) -> F32,
    B: Fn(F32, F32, F32, usize, usize) -> bool,
    M: Fn(F32, F32) -> F32,
>(
    math: RankMath<P, B, M>,
    num: spec_fn(F32) -> int,
    limit: int,
    s: Seq<Entry>,
    p: Seq<(F32, F32)>,
    max_bins: int,
)
    requires
        measures_exactly(math, num, limit),
        holds_exactly(s, p, num),
        all_known(p),
        weights_count(p, num),
        weight_all(p, num) <= limit,
        2 <= max_bins <= usize::MAX,
        s.len() >= max_bins,
    ensures
        forall|x: int|
            0 <= x < math.cuts_of(s, max_bins).len() ==> is_some_share(
                p,
                num,
                #[trigger] math.cuts_of(s, max_bins)[x],
                max_bins,
            ),
        forall|k: int|
            1 <= k < max_bins ==> #[trigger] share_has_cut(
                math.cuts_of(s, max_bins),
                p,
                num,
                k,
                max_bins,
            ),
{
    let n = max_bins;
    let cuts = math.cuts_of(s, n);
    lemma_quantiles_are_all(math, num, limit, s, p, n - 1, n);
    assert forall|x: int| 0 <= x < cuts.len() implies is_some_share(p, num, #[trigger] cuts[x], n) by {
        assert(of_share(math, s, n - 1, n, math.quantiles(s, n - 1, n)[x]));
        let q = choose|q: int| 1 <= q <= n - 1 && cuts[x] == #[trigger] math.quantile(s, q, n);
        lemma_quantile_at_share(math, num, limit, s, p, q, n);
    }
    assert forall|k: int| 1 <= k < n implies #[trigger] share_has_cut(cuts, p, num, k, n) by {
        assert(is_cut(math, s, k, n, cuts));
        let x = choose|x: int| 0 <= x < cuts.len() && #[trigger] cuts[x] == math.quantile(s, k, n);
        lemma_quantile_at_share(math, num, limit, s, p, k, n);
    }
}

// ---- leaving out ----

/// An entry was left out between two that stay: it lies above the one and below the other, and its
/// middle lies between the shares at which they stand.
pub open spec fn left_out_between(
    e: Entry,
    c: Seq<Entry>,
    p: Seq<(F32, F32)>,
    num: spec_fn(F32) -> int,
    k: int,
    slots: int,
) -> bool {
    &&& 1 <= k < c.len()
    &&& value_of(c[k - 1].value) < value_of(e.value) < value_of(c[k].value)
    &&& 2 * weight_all(p, num) * (k - 1) <= twice_middle(p, num, e.value) * slots
    &&& k < slots ==> twice_middle(p, num, e.value) * slots < 2 * weight_all(p, num) * k
}

proof fn lemma_first_not_under<
    P: Fn(F32, F32) -> F32,
    B: Fn(F32, F32, F32, usize, usize) -> bool,
    M: Fn(F32, F32) -> F32,
>(math: RankMath<P, B, M>, s: Seq<Entry>, j: int, k: int, slots: int)
    requires
        0 <= j <= s.len() - 1,
    ensures
        j <= math.first_not_under(s, j, k, slots) <= s.len() - 1,
        forall|t: int|
            j <= t < math.first_not_under(s, j, k, slots) ==> math.under(
                #[trigger] s[t],
                s[s.len() - 1].rmax,
                k,
                slots,
            ),
        math.first_not_under(s, j, k, slots) < s.len() - 1 ==> !math.under(
            s[math.first_not_under(s, j, k, slots)],
            s[s.len() - 1].rmax,
            k,
            slots,
        ),
    decreases s.len() - j,
{
    if j < s.len() - 1 && math.under(s[j], s[s.len() - 1].rmax, k, slots) {
        lemma_first_not_under(math, s, j + 1, k, slots);
    }
}

/// The share that comes after an entry: how many are kept before it.
proof fn lemma_between_kept<
    P: Fn(F32, F32) -> F32,
    B: Fn(F32, F32, F32, usize, usize) -> bool,
    M: Fn(F32, F32) -> F32,
>(math: RankMath<P, B, M>, s: Seq<Entry>, slots: int, t: int, k: int) -> (r: int)
    requires
        1 <= slots,
        slots + 1 < s.len(),
        0 <= t < s.len(),
        1 <= k <= slots,
        k < slots ==> t < math.kept_at(s, k, slots),
    ensures
        0 <= r < k,
        math.kept_at(s, r, slots) <= t,
        r + 1 < slots ==> t < math.kept_at(s, r + 1, slots),
    decreases k,
{
    if math.kept_at(s, k - 1, slots) <= t {
        k - 1
    } else {
        assert(k > 1);
        lemma_between_kept(math, s, slots, t, k - 1)
    }
}

proof fn lemma_middles_rise(p: Seq<(F32, F32)>, num: spec_fn(F32) -> int, v: F32, w: F32)
    requires
        weights_count(p, num),
        value_of(v) <= value_of(w),
    ensures
        twice_middle(p, num, v) <= twice_middle(p, num, w),
{
    lemma_where_bounds(
        p,
        num,
        |x: F32| value_of(x) < value_of(v),
        |x: F32| value_of(x) < value_of(w),
    );
    lemma_where_bounds(
        p,
        num,
        |x: F32| value_of(x) <= value_of(v),
        |x: F32| value_of(x) <= value_of(w),
    );
}

/// Compressing is off by less than a share: an entry stays, or it lies between two neighbours that
/// stay, and its middle lies within one share of the weight, that of the left neighbour's place.
#[verifier::spinoff_prover]
pub proof fn law_compression_leaves_out_less_than_a_share<
    P: Fn(F32, F32) -> F32,
    B: Fn(F32, F32, F32, usize, usize) -> bool,
    M: Fn(F32, F32) -> F32,
>(
    math: RankMath<P, B, M>,
    num: spec_fn(F32) -> int,
    limit: int,
    s: Seq<Entry>,
    p: Seq<(F32, F32)>,
    max_size: int,
    t: int,
)
    requires
        measures_exactly(math, num, limit),
        holds_exactly(s, p, num),
        all_known(p),
        weights_count(p, num),
        weight_all(p, num) <= limit,
        2 <= max_size <= usize::MAX,
        0 <= t < s.len(),
    ensures
        math.compressed(s, max_size).contains(s[t]) || exists|k: int| #[trigger]
            left_out_between(s[t], math.compressed(s, max_size), p, num, k, max_size - 1),
{
    let c = math.compressed(s, max_size);
    if s.len() <= max_size {
        assert(c[t] == s[t]);
    } else {
        let slots = max_size - 1;
        let last = s.len() - 1;
        let r = lemma_between_kept(math, s, slots, t, slots);
        math.lemma_kept_rise(s, r, slots);
        let left = math.kept_at(s, r, slots);
        assert(c[r] == s[left]);
        math.law_compression_keeps_the_ends(s, max_size);
        if left < t && t < last {
            assert(!s[left].value.nan() && !s[t].value.nan());
            assert(s[left].value.key() < s[t].value.key());
            lemma_same_key(s[left].value, s[t].value);
            lemma_middles_rise(p, num, s[left].value, s[t].value);
            lemma_weights_within(p, num, s[t].value);
            let w = weight_all(p, num);
            let mid = twice_middle(p, num, s[t].value);
            let at_left = twice_middle(p, num, s[left].value);
            assert(mid * slots >= at_left * slots) by (nonlinear_arith)
                requires
                    mid >= at_left,
                    slots >= 0,
            ;
            let right = if r + 1 < slots {
                math.kept_at(s, r + 1, slots)
            } else {
                last
            };
            if r + 1 < slots {
                math.lemma_kept_rise(s, r + 1, slots);
                lemma_first_not_under(math, s, left + 1, r + 1, slots);
                assert(math.under(s[t], s[last].rmax, r + 1, slots));
                lemma_under(math, num, limit, s, p, t, r + 1, slots);
            } else {
                assert(c.len() == slots + 1);
            }
            assert(c[r + 1] == s[right]);
            assert(!s[right].value.nan());
            assert(s[t].value.key() < s[right].value.key());
            lemma_same_key(s[t].value, s[right].value);
            assert(2 * w * r <= at_left * slots || r == 0) by {
                if r > 0 {
                    math.lemma_kept_rise(s, r - 1, slots);
                    let from = math.kept_at(s, r - 1, slots) + 1;
                    lemma_first_not_under(math, s, from, r, slots);
                    let free = math.first_not_under(s, from, r, slots);
                    if left == free {
                        lemma_under(math, num, limit, s, p, left, r, slots);
                    } else {
                        assert(left == last - (slots - 1 - r));
                        assert(right == left + 1 || r + 1 == slots);
                        assert(false);
                    }
                }
            }
            assert(0 <= mid * slots) by (nonlinear_arith)
                requires
                    mid >= 0,
                    slots >= 0,
            ;
            assert(2 * w * (r + 1 - 1) == 2 * w * r);
            assert(r == 0 ==> 2 * w * r == 0);
            assert(2 * w * (r + 1 - 1) <= mid * slots);
            assert(r + 1 < slots ==> mid * slots < 2 * w * (r + 1));
            assert(1 <= r + 1 < c.len());
            assert(left_out_between(s[t], c, p, num, r + 1, slots));
        } else if t == last {
            assert(c[c.len() - 1] == s[t]);
        }
    }
}

} // verus!
