//! What a whole sketch holds of the observations that it took.
//!
//! A sketch loses something only where it compresses. While a feature has no more different values
//! than a summary has room for, it does not: then the sketch, whatever was pushed, in what order and
//! through how many sketches, ends in one summary that tells everything of all observations.
use vstd::prelude::*;

use super::ranks::{
    counts_exactly, holds_exactly, is_some_share, measures_exactly, share_has_cut, was_seen,
    weight_all, weights_count,
};
use super::sort::all_known;
use super::summary::{Entry, RankMath};
use super::{
    counts, inserted, is_collapsed, is_cuts, is_drained, is_merged, is_pushed, is_run, one_level,
    one_of_two, summary_of, took_all, united, SketchView,
};
use crate::float32::{value_of, F32};

verus! {

/// The first `k` parts one after the other.
pub open spec fn flat(parts: Seq<Seq<(F32, F32)>>, k: int) -> Seq<(F32, F32)>
    decreases k,
{
    if k <= 0 {
        seq![]
    } else {
        flat(parts, k - 1) + parts[k - 1]
    }
}

/// A level tells everything of its part of the observations; where there is no summary there is no
/// observation.
pub open spec fn level_holds(
    level: Option<Seq<Entry>>,
    part: Seq<(F32, F32)>,
    num: spec_fn(F32) -> int,
) -> bool {
    match level {
        None => part.len() == 0,
        Some(s) => holds_exactly(s, part, num),
    }
}

/// Every observation is in the buffer or in the part of one level.
pub open spec fn split_as(
    v: SketchView,
    seen: Seq<(F32, F32)>,
    num: spec_fn(F32) -> int,
    parts: Seq<Seq<(F32, F32)>>,
) -> bool {
    &&& parts.len() == v.levels.len()
    &&& forall|i: int| 0 <= i < parts.len() ==> #[trigger] level_holds(v.levels[i], parts[i], num)
    &&& seen.to_multiset() == flat(parts, parts.len() as int).to_multiset().add(
        v.buffer.to_multiset(),
    )
}

/// The sketch tells everything of these observations.
pub open spec fn holds_all(
    v: SketchView,
    seen: Seq<(F32, F32)>,
    num: spec_fn(F32) -> int,
) -> bool {
    exists|parts: Seq<Seq<(F32, F32)>>| #[trigger] split_as(v, seen, num, parts)
}

/// Every value is one of these.
pub open spec fn values_among(p: Seq<(F32, F32)>, values: Set<int>) -> bool {
    forall|i: int| 0 <= i < p.len() ==> values.contains(value_of((#[trigger] p[i]).0))
}

/// There are at most `n` different values.
pub open spec fn few_values(p: Seq<(F32, F32)>, n: int) -> bool {
    exists|values: Set<int>|
        values.finite() && values.len() <= n && #[trigger] values_among(p, values)
}

/// The observations have values and weights that the arithmetic of ranks counts exactly, and no
/// more different values than `room`.
pub open spec fn countable<
    P: Fn(F32, F32) -> F32,
    B: Fn(F32, F32, F32, usize, usize) -> bool,
    M: Fn(F32, F32) -> F32,
>(
    math: RankMath<P, B, M>,
    num: spec_fn(F32) -> int,
    limit: int,
    seen: Seq<(F32, F32)>,
    room: int,
) -> bool {
    &&& counts_exactly(math, num, limit)
    &&& all_known(seen)
    &&& weights_count(seen, num)
    &&& weight_all(seen, num) <= limit
    &&& few_values(seen, room)
}

/// Some of the observations.
spec fn some_of(x: Seq<(F32, F32)>, seen: Seq<(F32, F32)>) -> bool {
    x.to_multiset().subset_of(seen.to_multiset())
}

proof fn lemma_some_weigh_less(
    x: Seq<(F32, F32)>,
    seen: Seq<(F32, F32)>,
    num: spec_fn(F32) -> int,
)
    requires
        some_of(x, seen),
        weights_count(seen, num),
    ensures
        weight_all(x, num) <= weight_all(seen, num),
    decreases x.len(),
{
    let all = |v: F32| true;
    if x.len() > 0 {
        let last = x.last();
        x.to_multiset_ensures();
        seen.to_multiset_ensures();
        assert(x[x.len() - 1] == last);
        assert(x.contains(last));
        assert(x.to_multiset().count(last) <= seen.to_multiset().count(last));
        assert(seen.contains(last));
        let j = choose|j: int| 0 <= j < seen.len() && seen[j] == last;
        let rest = seen.remove(j);
        assert(x.remove(x.len() - 1) =~= x.drop_last());
        assert(some_of(x.drop_last(), rest)) by {
            assert forall|v: (F32, F32)| #[trigger] x.drop_last().to_multiset().count(v)
                <= rest.to_multiset().count(v) by {
                assert(x.to_multiset().count(v) <= seen.to_multiset().count(v));
            }
        }
        assert forall|i: int| 0 <= i < rest.len() implies num((#[trigger] rest[i]).1) >= 0 by {
            if i < j {
                assert(rest[i] == seen[i]);
            } else {
                assert(rest[i] == seen[i + 1]);
            }
        }
        super::ranks::lemma_where_remove(seen, num, all, j);
        lemma_some_weigh_less(x.drop_last(), rest, num);
    } else {
        super::ranks::lemma_where_bounds(seen, num, |v: F32| false, all);
    }
}

proof fn lemma_some_are_countable<
    P: Fn(F32, F32) -> F32,
    B: Fn(F32, F32, F32, usize, usize) -> bool,
    M: Fn(F32, F32) -> F32,
>(
    math: RankMath<P, B, M>,
    num: spec_fn(F32) -> int,
    limit: int,
    x: Seq<(F32, F32)>,
    seen: Seq<(F32, F32)>,
    room: int,
)
    requires
        some_of(x, seen),
        countable(math, num, limit, seen, room),
    ensures
        countable(math, num, limit, x, room),
{
    lemma_some_weigh_less(x, seen, num);
    assert forall|i: int| 0 <= i < x.len() implies #[trigger] seen.contains(x[i]) by {
        x.to_multiset_ensures();
        seen.to_multiset_ensures();
        assert(x.contains(x[i]));
        assert(x.to_multiset().count(x[i]) <= seen.to_multiset().count(x[i]));
    }
    let values = choose|values: Set<int>|
        values.finite() && values.len() <= room && #[trigger] values_among(seen, values);
    assert forall|i: int| 0 <= i < x.len() implies !(#[trigger] x[i]).0.nan() && num(x[i].1) >= 0
        && values.contains(value_of(x[i].0)) by {
        assert(seen.contains(x[i]));
        let j = choose|j: int| 0 <= j < seen.len() && seen[j] == x[i];
        assert(!seen[j].0.nan());
        assert(num(seen[j].1) >= 0);
    }
    assert(values_among(x, values));
}

proof fn lemma_same_observations(
    s: Seq<Entry>,
    p: Seq<(F32, F32)>,
    q: Seq<(F32, F32)>,
    num: spec_fn(F32) -> int,
)
    requires
        holds_exactly(s, p, num),
        p.to_multiset() == q.to_multiset(),
    ensures
        holds_exactly(s, q, num),
{
    super::ranks::lemma_same_members(p, q);
    super::ranks::lemma_same_members(q, p);
    assert forall|t: int| 0 <= t < s.len() implies #[trigger] super::ranks::ranks_right(
        s[t],
        q,
        num,
    ) by {
        assert(super::ranks::ranks_right(s[t], p, num));
        let v = s[t].value;
        super::ranks::lemma_where_permuted(p, q, num, |x: F32| value_of(x) < value_of(v));
        super::ranks::lemma_where_permuted(p, q, num, |x: F32| value_of(x) <= value_of(v));
        super::ranks::lemma_where_permuted(p, q, num, |x: F32| value_of(x) == value_of(v));
    }
    assert forall|t: int| 0 <= t < s.len() implies #[trigger] was_seen(q, s[t].value) by {
        assert(was_seen(p, s[t].value));
        let k = choose|k: int|
            0 <= k < p.len() && value_of((#[trigger] p[k]).0) == value_of(s[t].value);
        assert(q.contains(p[k]));
        let m = choose|m: int| 0 <= m < q.len() && q[m] == p[k];
        assert(value_of(q[m].0) == value_of(s[t].value));
    }
    assert forall|m: int| 0 <= m < q.len() implies #[trigger] super::ranks::has_value(s, q[m].0) by {
        assert(p.contains(q[m]));
        let k = choose|k: int| 0 <= k < p.len() && p[k] == q[m];
        assert(super::ranks::has_value(s, p[k].0));
    }
}

/// A summary has no more entries than there are different values.
proof fn lemma_room_is_enough(
    s: Seq<Entry>,
    p: Seq<(F32, F32)>,
    num: spec_fn(F32) -> int,
    room: int,
)
    requires
        holds_exactly(s, p, num),
        few_values(p, room),
    ensures
        s.len() <= room,
{
    let values = choose|values: Set<int>|
        values.finite() && values.len() <= room && #[trigger] values_among(p, values);
    let own = Seq::new(s.len(), |t: int| value_of(s[t].value));
    assert forall|i: int, j: int| 0 <= i < own.len() && 0 <= j < own.len() && i != j implies own[i]
        != own[j] by {
        assert(!s[i].value.nan() && !s[j].value.nan());
        super::ranks::lemma_same_key(s[i].value, s[j].value);
        if i < j {
            assert(s[i].value.key() < s[j].value.key());
        } else {
            assert(s[j].value.key() < s[i].value.key());
        }
    }
    own.unique_seq_to_set();
    assert(own.to_set().subset_of(values)) by {
        assert forall|x: int| own.to_set().contains(x) implies values.contains(x) by {
            let t = choose|t: int| 0 <= t < own.len() && own[t] == x;
            assert(was_seen(p, s[t].value));
            let k = choose|k: int|
                0 <= k < p.len() && value_of((#[trigger] p[k]).0) == value_of(s[t].value);
            assert(values.contains(value_of(p[k].0)));
        }
    }
    vstd::set_lib::lemma_len_subset(own.to_set(), values);
}

proof fn lemma_flat_one_part(
    parts: Seq<Seq<(F32, F32)>>,
    k: int,
    i: int,
    x: Seq<(F32, F32)>,
)
    requires
        0 <= i < parts.len(),
        0 <= k <= parts.len(),
    ensures
        k <= i ==> flat(parts.update(i, x), k) == flat(parts, k),
        k > i ==> flat(parts.update(i, x), k).to_multiset().add(parts[i].to_multiset()) == flat(
            parts,
            k,
        ).to_multiset().add(x.to_multiset()),
    decreases k,
{
    if k > 0 {
        lemma_flat_one_part(parts, k - 1, i, x);
        let other = parts.update(i, x);
        vstd::seq_lib::lemma_multiset_commutative(flat(parts, k - 1), parts[k - 1]);
        vstd::seq_lib::lemma_multiset_commutative(flat(other, k - 1), other[k - 1]);
        if k - 1 == i {
            assert(flat(other, k).to_multiset().add(parts[i].to_multiset()) =~= flat(
                parts,
                k,
            ).to_multiset().add(x.to_multiset()));
        } else if k - 1 > i {
            let a = flat(other, k).to_multiset().add(parts[i].to_multiset());
            let b = flat(parts, k).to_multiset().add(x.to_multiset());
            let c = flat(other, k - 1).to_multiset().add(parts[i].to_multiset());
            let d = flat(parts, k - 1).to_multiset().add(x.to_multiset());
            assert forall|v: (F32, F32)| a.count(v) == b.count(v) by {
                assert(c.count(v) == d.count(v));
            }
            assert(a =~= b);
        }
    }
}

proof fn lemma_flat_of_more(parts: Seq<Seq<(F32, F32)>>, x: Seq<(F32, F32)>, k: int)
    requires
        0 <= k <= parts.len(),
    ensures
        flat(parts.push(x), k) == flat(parts, k),
    decreases k,
{
    if k > 0 {
        lemma_flat_of_more(parts, x, k - 1);
    }
}

/// Merging and compressing summaries of few values loses nothing.
proof fn lemma_merged_within_room<
    P: Fn(F32, F32) -> F32,
    B: Fn(F32, F32, F32, usize, usize) -> bool,
    M: Fn(F32, F32) -> F32,
>(
    math: RankMath<P, B, M>,
    num: spec_fn(F32) -> int,
    limit: int,
    a: Seq<Entry>,
    p: Seq<(F32, F32)>,
    b: Seq<Entry>,
    q: Seq<(F32, F32)>,
    seen: Seq<(F32, F32)>,
    room: int,
)
    requires
        countable(math, num, limit, seen, room),
        holds_exactly(a, p, num),
        holds_exactly(b, q, num),
        some_of(p + q, seen),
    ensures
        holds_exactly(math.merged(a, b), p + q, num),
        math.compressed(math.merged(a, b), room) == math.merged(a, b),
{
    lemma_some_are_countable(math, num, limit, p + q, seen, room);
    let both = p + q;
    assert forall|i: int| 0 <= i < p.len() implies !(#[trigger] p[i]).0.nan() && num(p[i].1) >= 0 by {
        assert(both[i] == p[i]);
    }
    assert forall|i: int| 0 <= i < q.len() implies !(#[trigger] q[i]).0.nan() && num(q[i].1) >= 0 by {
        assert(both[i + p.len()] == q[i]);
    }
    super::ranks::lemma_where_of_two(p, q, num, |x: F32| true);
    super::ranks::law_merging_counts_every_observation(math, num, limit, a, p, b, q);
    lemma_room_is_enough(math.merged(a, b), both, num, room);
}

proof fn lemma_inserted_holds<
    P: Fn(F32, F32) -> F32,
    B: Fn(F32, F32, F32, usize, usize) -> bool,
    M: Fn(F32, F32) -> F32,
>(
    math: RankMath<P, B, M>,
    num: spec_fn(F32) -> int,
    limit: int,
    levels: Seq<Option<Seq<Entry>>>,
    parts: Seq<Seq<(F32, F32)>>,
    cur: Seq<Entry>,
    part: Seq<(F32, F32)>,
    lvl: int,
    seen: Seq<(F32, F32)>,
    room: int,
) -> (after: Seq<Seq<(F32, F32)>>)
    requires
        countable(math, num, limit, seen, room),
        parts.len() == levels.len(),
        0 <= lvl <= levels.len(),
        forall|i: int| 0 <= i < parts.len() ==> #[trigger] level_holds(levels[i], parts[i], num),
        holds_exactly(cur, part, num),
        seen.to_multiset() == flat(parts, parts.len() as int).to_multiset().add(
            part.to_multiset(),
        ),
    ensures
        after.len() == inserted(math, levels, cur, lvl, room).len(),
        forall|i: int|
            0 <= i < after.len() ==> #[trigger] level_holds(
                inserted(math, levels, cur, lvl, room)[i],
                after[i],
                num,
            ),
        flat(after, after.len() as int).to_multiset() == seen.to_multiset(),
    decreases levels.len() - lvl,
{
    let n = parts.len() as int;
    if lvl >= levels.len() {
        let after = parts.push(part);
        lemma_flat_of_more(parts, part, n);
        vstd::seq_lib::lemma_multiset_commutative(flat(parts, n), part);
        assert forall|i: int| 0 <= i < after.len() implies #[trigger] level_holds(
            inserted(math, levels, cur, lvl, room)[i],
            after[i],
            num,
        ) by {
            if i < n {
                assert(level_holds(levels[i], parts[i], num));
            }
        }
        after
    } else {
        assert(level_holds(levels[lvl], parts[lvl], num));
        match levels[lvl] {
            None => {
                let after = parts.update(lvl, part);
                lemma_flat_one_part(parts, n, lvl, part);
                parts[lvl].to_multiset_ensures();
                assert(parts[lvl].to_multiset() =~= vstd::multiset::Multiset::empty());
                assert(flat(after, n).to_multiset() =~= seen.to_multiset());
                assert forall|i: int| 0 <= i < after.len() implies #[trigger] level_holds(
                    inserted(math, levels, cur, lvl, room)[i],
                    after[i],
                    num,
                ) by {
                    if i != lvl {
                        assert(level_holds(levels[i], parts[i], num));
                    }
                }
                after
            },
            Some(there) => {
                let none: Seq<(F32, F32)> = seq![];
                let fewer = parts.update(lvl, none);
                let both = parts[lvl] + part;
                lemma_flat_one_part(parts, n, lvl, none);
                vstd::seq_lib::lemma_multiset_commutative(parts[lvl], part);
                none.to_multiset_ensures();
                assert(none.to_multiset() =~= vstd::multiset::Multiset::empty());
                let a = seen.to_multiset();
                let b = flat(fewer, n).to_multiset().add(both.to_multiset());
                let c = flat(fewer, n).to_multiset().add(parts[lvl].to_multiset());
                let d = flat(parts, n).to_multiset().add(none.to_multiset());
                assert forall|v: (F32, F32)| a.count(v) == b.count(v) by {
                    assert(c.count(v) == d.count(v));
                }
                assert(a =~= b);
                assert(some_of(both, seen)) by {
                    assert forall|v: (F32, F32)| #[trigger] both.to_multiset().count(v)
                        <= seen.to_multiset().count(v) by {}
                }
                lemma_merged_within_room(
                    math,
                    num,
                    limit,
                    there,
                    parts[lvl],
                    cur,
                    part,
                    seen,
                    room,
                );
                let free = levels.update(lvl, None);
                assert forall|i: int| 0 <= i < fewer.len() implies #[trigger] level_holds(
                    free[i],
                    fewer[i],
                    num,
                ) by {
                    if i != lvl {
                        assert(level_holds(levels[i], parts[i], num));
                    }
                }
                lemma_inserted_holds(
                    math,
                    num,
                    limit,
                    free,
                    fewer,
                    math.compressed(math.merged(there, cur), room),
                    both,
                    lvl + 1,
                    seen,
                    room,
                )
            },
        }
    }
}

proof fn lemma_drained_holds<
    P: Fn(F32, F32) -> F32,
    B: Fn(F32, F32, F32, usize, usize) -> bool,
    M: Fn(F32, F32) -> F32,
>(
    math: RankMath<P, B, M>,
    num: spec_fn(F32) -> int,
    limit: int,
    before: SketchView,
    after: SketchView,
    seen: Seq<(F32, F32)>,
)
    requires
        countable(math, num, limit, seen, before.limit),
        holds_all(before, seen, num),
        is_drained(math, before, after),
    ensures
        holds_all(after, seen, num),
{
    let parts = choose|parts: Seq<Seq<(F32, F32)>>| #[trigger] split_as(before, seen, num, parts);
    let none: Seq<(F32, F32)> = seq![];
    none.to_multiset_ensures();
    assert(none.to_multiset() =~= vstd::multiset::Multiset::empty());
    if before.buffer.len() == 0 {
        assert(before.buffer =~= none);
        assert(split_as(after, seen, num, parts));
    } else {
        let s = choose|s: Seq<Entry>| #[trigger]
            math.is_summary(s, before.buffer) && after.levels == inserted(
                math,
                before.levels,
                math.compressed(s, before.limit),
                0,
                before.limit,
            );
        assert(some_of(before.buffer, seen)) by {
            assert forall|v: (F32, F32)| #[trigger] before.buffer.to_multiset().count(v)
                <= seen.to_multiset().count(v) by {}
        }
        lemma_some_are_countable(math, num, limit, before.buffer, seen, before.limit);
        super::ranks::law_summary_counts_every_observation(math, num, limit, s, before.buffer);
        lemma_room_is_enough(s, before.buffer, num, before.limit);
        let moved = lemma_inserted_holds(
            math,
            num,
            limit,
            before.levels,
            parts,
            s,
            before.buffer,
            0,
            seen,
            before.limit,
        );
        let m = flat(moved, moved.len() as int).to_multiset();
        assert(m.add(none.to_multiset()) =~= m);
        assert(after.buffer =~= none);
        assert(split_as(after, seen, num, moved));
    }
}

proof fn lemma_united_holds<
    P: Fn(F32, F32) -> F32,
    B: Fn(F32, F32, F32, usize, usize) -> bool,
    M: Fn(F32, F32) -> F32,
>(
    math: RankMath<P, B, M>,
    num: spec_fn(F32) -> int,
    limit: int,
    levels: Seq<Option<Seq<Entry>>>,
    parts: Seq<Seq<(F32, F32)>>,
    k: int,
    seen: Seq<(F32, F32)>,
    room: int,
)
    requires
        countable(math, num, limit, seen, room),
        parts.len() == levels.len(),
        0 <= k <= levels.len(),
        forall|i: int| 0 <= i < parts.len() ==> #[trigger] level_holds(levels[i], parts[i], num),
        some_of(flat(parts, k), seen),
    ensures
        holds_exactly(united(math, levels, k), flat(parts, k), num),
    decreases k,
{
    if k > 0 {
        vstd::seq_lib::lemma_multiset_commutative(flat(parts, k - 1), parts[k - 1]);
        assert(some_of(flat(parts, k - 1), seen)) by {
            assert forall|v: (F32, F32)| #[trigger] flat(parts, k - 1).to_multiset().count(v)
                <= seen.to_multiset().count(v) by {
                assert(flat(parts, k).to_multiset().count(v) <= seen.to_multiset().count(v));
            }
        }
        lemma_united_holds(math, num, limit, levels, parts, k - 1, seen, room);
        assert(level_holds(levels[k - 1], parts[k - 1], num));
        let rest = united(math, levels, k - 1);
        match levels[k - 1] {
            None => {
                assert(flat(parts, k) =~= flat(parts, k - 1));
            },
            Some(l) => {
                lemma_merged_within_room(
                    math,
                    num,
                    limit,
                    rest,
                    flat(parts, k - 1),
                    l,
                    parts[k - 1],
                    seen,
                    room,
                );
                assert(rest.len() == 0 ==> math.merged(rest, l) == l);
            },
        }
    }
}

/// A new sketch holds nothing.
pub proof fn law_new_sketch_is_empty(v: SketchView, num: spec_fn(F32) -> int)
    requires
        v.buffer == Seq::<(F32, F32)>::empty(),
        v.levels == Seq::<Option<Seq<Entry>>>::empty(),
    ensures
        holds_all(v, seq![], num),
{
    let parts: Seq<Seq<(F32, F32)>> = seq![];
    let none: Seq<(F32, F32)> = seq![];
    none.to_multiset_ensures();
    assert(none.to_multiset() =~= vstd::multiset::Multiset::empty());
    assert(none.to_multiset() =~= none.to_multiset().add(none.to_multiset()));
    assert(flat(parts, 0) =~= none);
    assert(split_as(v, none, num, parts));
}

/// A value without a weight of its own weighs one: the number 1, which is so many of the smallest
/// positive number.
pub proof fn law_values_weigh_one(n: nat, i: int)
    requires
        0 <= i < n,
    ensures
        super::weights_of(None, n).len() == n,
        value_of(super::weights_of(None, n)[i]) == vstd::arithmetic::power2::pow2(149),
{
    vstd::arithmetic::power2::lemma2_to64();
    vstd::arithmetic::power2::lemma_pow2_adds(23, 126);
    assert(crate::float32::units_of(0x3F80_0000) == 0x80_0000 * vstd::arithmetic::power2::pow2(126));
}

/// An observation counts where it has a value and its weight is above zero, or not a number.
pub proof fn law_what_counts(value: F32, weight: F32)
    ensures
        counts(value, weight) <==> !value.nan() && (weight.nan() || value_of(weight) > 0),
{
    let none = F32 { bits: 0 };
    assert(value_of(none) == 0);
    if !weight.nan() {
        crate::float32::law_order_is_that_of_the_values(weight, none);
    }
}

/// A sketch takes every observation that counts, once: afterwards it tells everything of what it
/// held before and of the observation, and its weight has grown by that of the observation.
pub proof fn law_pushing_adds_one_observation<
    P: Fn(F32, F32) -> F32,
    B: Fn(F32, F32, F32, usize, usize) -> bool,
    M: Fn(F32, F32) -> F32,
>(
    math: RankMath<P, B, M>,
    num: spec_fn(F32) -> int,
    limit: int,
    before: SketchView,
    seen: Seq<(F32, F32)>,
    value: F32,
    weight: F32,
    after: SketchView,
)
    requires
        countable(math, num, limit, seen.push((value, weight)), before.limit),
        holds_all(before, seen, num),
        num(before.total_weight) == weight_all(seen, num),
        counts(value, weight),
        is_pushed(math, before, value, weight, after),
    ensures
        holds_all(after, seen.push((value, weight)), num),
        num(after.total_weight) == weight_all(seen.push((value, weight)), num),
        after.limit == before.limit,
{
    let o = (value, weight);
    let more = seen.push(o);
    let parts = choose|parts: Seq<Seq<(F32, F32)>>| #[trigger] split_as(before, seen, num, parts);
    let grown = SketchView {
        buffer: before.buffer.push(o),
        total_weight: math.sum(before.total_weight, weight),
        ..before
    };
    seen.to_multiset_ensures();
    before.buffer.to_multiset_ensures();
    assert(more.drop_last() =~= seen);
    assert(more[seen.len() as int] == o);
    assert(num(weight) >= 0);
    assert(weights_count(seen, num)) by {
        assert forall|i: int| 0 <= i < seen.len() implies num((#[trigger] seen[i]).1) >= 0 by {
            assert(more[i] == seen[i]);
        }
    }
    super::ranks::lemma_where_bounds(seen, num, |x: F32| false, |x: F32| true);
    super::ranks::lemma_where_bounds(seen, num, |x: F32| true, |x: F32| true);
    assert(num(crate::inference::sum_of(math.plus, before.total_weight, weight)) == num(
        before.total_weight,
    ) + num(weight));
    let m = flat(parts, parts.len() as int).to_multiset();
    assert(more.to_multiset() =~= m.add(grown.buffer.to_multiset()));
    assert(split_as(grown, more, num, parts));
    if grown.buffer.len() >= before.limit {
        lemma_drained_holds(math, num, limit, grown, after, more);
    }
}

/// Collapsing loses nothing: the one summary that a sketch ends in tells everything of all
/// observations.
pub proof fn law_collapsing_counts_every_observation<
    P: Fn(F32, F32) -> F32,
    B: Fn(F32, F32, F32, usize, usize) -> bool,
    M: Fn(F32, F32) -> F32,
>(
    math: RankMath<P, B, M>,
    num: spec_fn(F32) -> int,
    limit: int,
    before: SketchView,
    seen: Seq<(F32, F32)>,
    after: SketchView,
)
    requires
        countable(math, num, limit, seen, before.limit),
        holds_all(before, seen, num),
        is_collapsed(math, before, after),
    ensures
        holds_exactly(summary_of(after), seen, num),
        holds_all(after, seen, num),
        after.limit == before.limit,
        after.total_weight == before.total_weight,
{
    let mid = choose|mid: SketchView| #[trigger]
        is_drained(math, before, mid) && after == (SketchView {
            levels: one_level(
                math,
                united(math, mid.levels, mid.levels.len() as int),
                mid.limit,
            ),
            ..mid
        });
    lemma_drained_holds(math, num, limit, before, mid, seen);
    let parts = choose|parts: Seq<Seq<(F32, F32)>>| #[trigger] split_as(mid, seen, num, parts);
    let n = parts.len() as int;
    let all = united(math, mid.levels, n);
    let none: Seq<(F32, F32)> = seq![];
    none.to_multiset_ensures();
    assert(none.to_multiset() =~= vstd::multiset::Multiset::empty());
    assert(mid.buffer =~= none);
    assert(flat(parts, n).to_multiset() =~= seen.to_multiset());
    assert(some_of(flat(parts, n), seen));
    lemma_united_holds(math, num, limit, mid.levels, parts, n, seen, before.limit);
    lemma_same_observations(all, flat(parts, n), seen, num);
    lemma_room_is_enough(all, seen, num, before.limit);
    assert(summary_of(after) =~= all);
    let m = seen.to_multiset();
    assert(m.add(none.to_multiset()) =~= m);
    if all.len() == 0 {
        if seen.len() > 0 {
            assert(super::ranks::has_value(all, seen[0].0));
        }
        assert(seen =~= none);
        let empty: Seq<Seq<(F32, F32)>> = seq![];
        assert(flat(empty, 0) =~= none);
        assert(split_as(after, seen, num, empty));
    } else {
        let one: Seq<Seq<(F32, F32)>> = seq![seen];
        assert(flat(one, 0) =~= none);
        assert(flat(one, 1) =~= seen);
        assert(level_holds(after.levels[0], one[0], num));
        assert(split_as(after, seen, num, one));
    }
}

/// Merging sketches loses nothing and takes nothing twice: afterwards the sketch tells everything
/// of the observations of both, and has their weight.
pub proof fn law_merged_sketch_holds_both<
    P: Fn(F32, F32) -> F32,
    B: Fn(F32, F32, F32, usize, usize) -> bool,
    M: Fn(F32, F32) -> F32,
>(
    math: RankMath<P, B, M>,
    num: spec_fn(F32) -> int,
    limit: int,
    before: SketchView,
    mine: Seq<(F32, F32)>,
    other: SketchView,
    theirs: Seq<(F32, F32)>,
    after: SketchView,
)
    requires
        countable(math, num, limit, mine + theirs, before.limit),
        other.limit == before.limit,
        holds_all(before, mine, num),
        holds_all(other, theirs, num),
        num(before.total_weight) == weight_all(mine, num),
        num(other.total_weight) == weight_all(theirs, num),
        is_merged(math, before, other, after),
    ensures
        holds_all(after, mine + theirs, num),
        num(after.total_weight) == weight_all(mine + theirs, num),
{
    let (a, b) = choose|a: SketchView, b: SketchView| #[trigger]
        one_of_two(math, a, b, before, other, after);
    let both = mine + theirs;
    let room = before.limit;
    vstd::seq_lib::lemma_multiset_commutative(mine, theirs);
    assert(some_of(mine, both)) by {
        assert forall|v: (F32, F32)| #[trigger] mine.to_multiset().count(v)
            <= both.to_multiset().count(v) by {}
    }
    assert(some_of(theirs, both)) by {
        assert forall|v: (F32, F32)| #[trigger] theirs.to_multiset().count(v)
            <= both.to_multiset().count(v) by {}
    }
    assert(some_of(both, both));
    lemma_some_are_countable(math, num, limit, mine, both, room);
    lemma_some_are_countable(math, num, limit, theirs, both, room);
    let copy = SketchView { total_weight: F32 { bits: 0 }, ..other };
    let parts = choose|parts: Seq<Seq<(F32, F32)>>| #[trigger] split_as(other, theirs, num, parts);
    assert(split_as(copy, theirs, num, parts));
    law_collapsing_counts_every_observation(math, num, limit, before, mine, a);
    law_collapsing_counts_every_observation(math, num, limit, copy, theirs, b);
    let x = summary_of(a);
    let y = summary_of(b);
    lemma_merged_within_room(math, num, limit, x, mine, y, theirs, both, room);
    super::ranks::lemma_where_of_two(mine, theirs, num, |v: F32| true);
    super::ranks::lemma_where_bounds(mine, num, |v: F32| false, |v: F32| true);
    super::ranks::lemma_where_bounds(mine, num, |v: F32| true, |v: F32| true);
    super::ranks::lemma_where_bounds(theirs, num, |v: F32| true, |v: F32| true);
    assert(num(crate::inference::sum_of(math.plus, before.total_weight, other.total_weight))
        == num(before.total_weight) + num(other.total_weight));
    let none: Seq<(F32, F32)> = seq![];
    none.to_multiset_ensures();
    assert(none.to_multiset() =~= vstd::multiset::Multiset::empty());
    let m = both.to_multiset();
    assert(m.add(none.to_multiset()) =~= m);
    assert(after.buffer =~= none);
    if x.len() == 0 && y.len() == 0 {
        if both.len() > 0 {
            assert(super::ranks::has_value(math.merged(x, y), both[0].0));
        }
        assert(both =~= none);
        let empty: Seq<Seq<(F32, F32)>> = seq![];
        assert(flat(empty, 0) =~= none);
        assert(split_as(after, both, num, empty));
    } else {
        let one: Seq<Seq<(F32, F32)>> = seq![both];
        assert(flat(one, 0) =~= none);
        assert(flat(one, 1) =~= both);
        assert(level_holds(after.levels[0], one[0], num));
        assert(split_as(after, both, num, one));
    }
}

/// The observations of a column that count, up to a row.
pub open spec fn counted(values: Seq<F32>, weights: Seq<F32>, n: int) -> Seq<(F32, F32)>
    decreases n,
{
    if n <= 0 {
        seq![]
    } else {
        let before = counted(values, weights, n - 1);
        if !values[n - 1].nan() && (weights[n - 1].nan() || value_of(weights[n - 1]) > 0) {
            before.push((values[n - 1], weights[n - 1]))
        } else {
            before
        }
    }
}

proof fn lemma_fewer_counted<
    P: Fn(F32, F32) -> F32,
    B: Fn(F32, F32, F32, usize, usize) -> bool,
    M: Fn(F32, F32) -> F32,
>(
    math: RankMath<P, B, M>,
    num: spec_fn(F32) -> int,
    limit: int,
    p: Seq<(F32, F32)>,
    o: (F32, F32),
    room: int,
)
    requires
        countable(math, num, limit, p.push(o), room),
    ensures
        countable(math, num, limit, p, room),
{
    p.to_multiset_ensures();
    assert(some_of(p, p.push(o))) by {
        assert forall|v: (F32, F32)| #[trigger] p.to_multiset().count(v) <= p.push(
            o,
        ).to_multiset().count(v) by {}
    }
    lemma_some_are_countable(math, num, limit, p, p.push(o), room);
}

proof fn lemma_run_holds<
    P: Fn(F32, F32) -> F32,
    B: Fn(F32, F32, F32, usize, usize) -> bool,
    M: Fn(F32, F32) -> F32,
>(
    math: RankMath<P, B, M>,
    num: spec_fn(F32) -> int,
    limit: int,
    states: Seq<SketchView>,
    values: Seq<F32>,
    weights: Seq<F32>,
    n: int,
)
    requires
        is_run(math, states, values, weights),
        states[0].buffer == Seq::<(F32, F32)>::empty(),
        states[0].levels == Seq::<Option<Seq<Entry>>>::empty(),
        num(states[0].total_weight) == 0,
        0 <= n <= values.len(),
        countable(math, num, limit, counted(values, weights, n), states[0].limit),
    ensures
        holds_all(states[n], counted(values, weights, n), num),
        num(states[n].total_weight) == weight_all(counted(values, weights, n), num),
        states[n].limit == states[0].limit,
    decreases n,
{
    if n == 0 {
        law_new_sketch_is_empty(states[0], num);
    } else {
        let v = values[n - 1];
        let w = weights[n - 1];
        law_what_counts(v, w);
        let before = counted(values, weights, n - 1);
        assert(is_pushed(math, states[n - 1], values[n - 1], weights[n - 1], states[n - 1 + 1]));
        if counts(v, w) {
            lemma_fewer_counted(math, num, limit, before, (v, w), states[0].limit);
            lemma_run_holds(math, num, limit, states, values, weights, n - 1);
            law_pushing_adds_one_observation(
                math,
                num,
                limit,
                states[n - 1],
                before,
                v,
                w,
                states[n],
            );
        } else {
            lemma_run_holds(math, num, limit, states, values, weights, n - 1);
        }
    }
}

/// A column that a new sketch took is held whole, and its weight is known.
pub proof fn law_sketch_of_a_column<
    P: Fn(F32, F32) -> F32,
    B: Fn(F32, F32, F32, usize, usize) -> bool,
    M: Fn(F32, F32) -> F32,
>(
    math: RankMath<P, B, M>,
    num: spec_fn(F32) -> int,
    limit: int,
    before: SketchView,
    values: Seq<F32>,
    weights: Seq<F32>,
    after: SketchView,
)
    requires
        before.buffer == Seq::<(F32, F32)>::empty(),
        before.levels == Seq::<Option<Seq<Entry>>>::empty(),
        num(before.total_weight) == 0,
        countable(
            math,
            num,
            limit,
            counted(values, weights, values.len() as int),
            before.limit,
        ),
        took_all(math, before, values, weights, after),
    ensures
        holds_all(after, counted(values, weights, values.len() as int), num),
        num(after.total_weight) == weight_all(
            counted(values, weights, values.len() as int),
            num,
        ),
        after.limit == before.limit,
{
    let states = choose|states: Seq<SketchView>| #[trigger]
        is_run(math, states, values, weights) && states[0] == before && states[values.len() as int]
            == after;
    lemma_run_holds(math, num, limit, states, values, weights, values.len() as int);
}

/// The cuts of a sketch with at least as many different values as bins divide the weight of all
/// observations into equal shares.
pub proof fn law_cuts_of_a_sketch_lie_at_equal_shares<
    P: Fn(F32, F32) -> F32,
    B: Fn(F32, F32, F32, usize, usize) -> bool,
    M: Fn(F32, F32) -> F32,
>(
    math: RankMath<P, B, M>,
    num: spec_fn(F32) -> int,
    limit: int,
    v: SketchView,
    seen: Seq<(F32, F32)>,
    max_bins: usize,
    cuts: Seq<F32>,
)
    requires
        countable(math, num, limit, seen, v.limit),
        measures_exactly(math, num, limit),
        holds_all(v, seen, num),
        max_bins >= 2,
        !few_values(seen, max_bins - 1),
        is_cuts(math, v, max_bins, cuts),
    ensures
        forall|x: int|
            0 <= x < cuts.len() ==> is_some_share(
                seen,
                num,
                #[trigger] cuts[x],
                max_bins as int,
            ),
        forall|k: int|
            1 <= k < max_bins ==> #[trigger] share_has_cut(
                cuts,
                seen,
                num,
                k,
                max_bins as int,
            ),
{
    let after = choose|after: SketchView| #[trigger]
        is_collapsed(math, v, after) && cuts == math.cuts_of(summary_of(after), max_bins as int);
    law_collapsing_counts_every_observation(math, num, limit, v, seen, after);
    let s = summary_of(after);
    if s.len() <= max_bins - 1 {
        let own = Seq::new(s.len(), |t: int| value_of(s[t].value));
        let values = own.to_set();
        vstd::seq_lib::seq_to_set_is_finite(own);
        own.lemma_cardinality_of_set();
        assert forall|i: int| 0 <= i < seen.len() implies values.contains(
            value_of((#[trigger] seen[i]).0),
        ) by {
            assert(super::ranks::has_value(s, seen[i].0));
            let t = choose|t: int|
                0 <= t < s.len() && value_of((#[trigger] s[t]).value) == value_of(seen[i].0);
            assert(own[t] == value_of(seen[i].0));
        }
        assert(values_among(seen, values));
        assert(false);
    }
    super::ranks::law_cuts_lie_at_equal_shares(math, num, limit, s, seen, max_bins as int);
}

} // verus!
