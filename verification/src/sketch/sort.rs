//! Observations in the order of their values.
use vstd::prelude::*;

use crate::float32::F32;

verus! {

/// No value is missing.
pub open spec fn all_known(s: Seq<(F32, F32)>) -> bool {
    forall|i: int| 0 <= i < s.len() ==> !(#[trigger] s[i]).0.nan()
}

/// Values never fall.
pub open spec fn in_value_order(s: Seq<(F32, F32)>) -> bool {
    forall|i: int, j: int| 0 <= i <= j < s.len() ==> (#[trigger] s[i]).0.key() <= (#[trigger] s[j]).0.key()
}

/// The same observations in the order of their values. Which of two with the same value comes
/// first is left open.
pub open spec fn is_sorting(s: Seq<(F32, F32)>, of: Seq<(F32, F32)>) -> bool {
    &&& in_value_order(s)
    &&& s.to_multiset() == of.to_multiset()
}

proof fn lemma_same_members(s: Seq<(F32, F32)>, of: Seq<(F32, F32)>)
    requires
        s.to_multiset() == of.to_multiset(),
        all_known(of),
    ensures
        all_known(s),
        s.len() == of.len(),
{
    broadcast use vstd::seq_lib::group_to_multiset_ensures;

    s.to_multiset_ensures();
    of.to_multiset_ensures();
    vstd::seq_lib::to_multiset_len(s);
    vstd::seq_lib::to_multiset_len(of);
    assert forall|i: int| 0 <= i < s.len() implies !(#[trigger] s[i]).0.nan() by {
        assert(s.contains(s[i]));
        assert(s.to_multiset().count(s[i]) > 0);
        assert(of.contains(s[i]));
        let j = choose|j: int| 0 <= j < of.len() && of[j] == s[i];
        assert(!of[j].0.nan());
    }
}

/// A sorting has the observations of what it sorts.
pub proof fn lemma_sorting_is_known(s: Seq<(F32, F32)>, of: Seq<(F32, F32)>)
    requires
        is_sorting(s, of),
        all_known(of),
    ensures
        all_known(s),
        s.len() == of.len(),
{
    lemma_same_members(s, of);
}

/// Everything in `a` comes at or before everything in `b`.
spec fn not_after(a: Seq<(F32, F32)>, k: int) -> bool {
    forall|i: int| 0 <= i < a.len() ==> (#[trigger] a[i]).0.key() <= k
}

/// Merges two sorted lists.
fn merge(a: &Vec<(F32, F32)>, b: &Vec<(F32, F32)>) -> (r: Vec<(F32, F32)>)
    requires
        in_value_order(a@),
        in_value_order(b@),
        all_known(a@),
        all_known(b@),
    ensures
        is_sorting(r@, a@ + b@),
{
    broadcast use vstd::seq_lib::group_to_multiset_ensures;

    let mut r: Vec<(F32, F32)> = Vec::new();
    let mut i: usize = 0;
    let mut j: usize = 0;
    proof {
        assert(a@.take(0) =~= Seq::<(F32, F32)>::empty());
        assert(b@.take(0) =~= Seq::<(F32, F32)>::empty());
        assert(r@ =~= a@.take(0) + b@.take(0));
    }
    while i < a.len() || j < b.len()
        invariant
            in_value_order(a@),
            in_value_order(b@),
            all_known(a@),
            all_known(b@),
            i <= a@.len(),
            j <= b@.len(),
            in_value_order(r@),
            r@.to_multiset() == (a@.take(i as int) + b@.take(j as int)).to_multiset(),
            i < a@.len() ==> not_after(r@, a@[i as int].0.key()),
            j < b@.len() ==> not_after(r@, b@[j as int].0.key()),
        decreases a.len() - i + (b.len() - j),
    {
        let take_a: bool = if i < a.len() && j < b.len() {
            assert(!a@[i as int].0.nan() && !b@[j as int].0.nan());
            a[i].0.less_eq(b[j].0)
        } else {
            i < a.len()
        };
        let ghost before = r@;
        let ghost ta = a@.take(i as int);
        let ghost tb = b@.take(j as int);
        if take_a {
            let x: (F32, F32) = a[i];
            r.push(x);
            proof {
                assert(a@.take(i + 1) =~= ta.push(x));
                lemma_take_one(before, ta, tb, x);
                assert(a@.take(i + 1) + tb =~= ta.push(x) + tb);
                assert(in_value_order(r@));
            }
            i += 1;
        } else {
            let x: (F32, F32) = b[j];
            r.push(x);
            proof {
                assert(b@.take(j + 1) =~= tb.push(x));
                assert(ta + b@.take(j + 1) =~= (ta + tb).push(x));
                vstd::seq_lib::to_multiset_build(ta + tb, x);
                vstd::seq_lib::to_multiset_build(before, x);
                assert(in_value_order(r@));
            }
            j += 1;
        }
    }
    proof {
        assert(a@.take(i as int) =~= a@);
        assert(b@.take(j as int) =~= b@);
    }
    r
}

proof fn lemma_take_one(r: Seq<(F32, F32)>, a: Seq<(F32, F32)>, b: Seq<(F32, F32)>, x: (F32, F32))
    requires
        r.to_multiset() == (a + b).to_multiset(),
    ensures
        r.push(x).to_multiset() == (a.push(x) + b).to_multiset(),
{
    broadcast use vstd::seq_lib::group_to_multiset_ensures;

    vstd::seq_lib::lemma_multiset_commutative(a, b);
    vstd::seq_lib::lemma_multiset_commutative(a.push(x), b);
    assert(a.push(x).to_multiset() == a.to_multiset().insert(x));
    assert(r.push(x).to_multiset() == r.to_multiset().insert(x));
    assert(a.to_multiset().insert(x).add(b.to_multiset()) =~= a.to_multiset().add(
        b.to_multiset(),
    ).insert(x));
}

/// The observations from `lo` to `hi` in the order of their values.
fn sort_range(s: &Vec<(F32, F32)>, lo: usize, hi: usize) -> (r: Vec<(F32, F32)>)
    requires
        lo <= hi <= s@.len(),
        all_known(s@),
    ensures
        is_sorting(r@, s@.subrange(lo as int, hi as int)),
    decreases hi - lo,
{
    let ghost part = s@.subrange(lo as int, hi as int);
    if hi - lo <= 1 {
        let mut r: Vec<(F32, F32)> = Vec::new();
        if hi - lo == 1 {
            r.push(s[lo]);
        }
        assert(r@ =~= part);
        return r;
    }
    let mid: usize = lo + (hi - lo) / 2;
    let a: Vec<(F32, F32)> = sort_range(s, lo, mid);
    let b: Vec<(F32, F32)> = sort_range(s, mid, hi);
    proof {
        let pa = s@.subrange(lo as int, mid as int);
        let pb = s@.subrange(mid as int, hi as int);
        assert(all_known(pa));
        assert(all_known(pb));
        lemma_same_members(a@, pa);
        lemma_same_members(b@, pb);
        assert(pa + pb =~= part);
        vstd::seq_lib::lemma_multiset_commutative(pa, pb);
        vstd::seq_lib::lemma_multiset_commutative(a@, b@);
    }
    merge(&a, &b)
}

/// The observations in the order of their values.
pub fn sort_pairs(s: &Vec<(F32, F32)>) -> (r: Vec<(F32, F32)>)
    requires
        all_known(s@),
    ensures
        is_sorting(r@, s@),
{
    assert(s@.subrange(0, s@.len() as int) =~= s@);
    sort_range(s, 0, s.len())
}

} // verus!
