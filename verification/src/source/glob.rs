//! File name patterns with `*` and `?`.
use vstd::prelude::*;

use crate::text::to_chars;

verus! {

/// Does a name fit a pattern? A `*` stands for any characters, as many as wanted or none; a `?`
/// stands for one character; any other character stands for itself.
pub open spec fn fits(p: Seq<char>, n: Seq<char>) -> bool
    decreases p.len() + n.len(),
{
    if p.len() == 0 {
        n.len() == 0
    } else if p[0] == '*' {
        fits(p.skip(1), n) || (n.len() > 0 && fits(p, n.skip(1)))
    } else {
        n.len() > 0 && (p[0] == '?' || p[0] == n[0]) && fits(p.skip(1), n.skip(1))
    }
}

/// Without a `*`, a pattern fits names of its own length that have its characters at their places,
/// and any character at the place of a `?`.
pub proof fn law_pattern_without_star_is_the_name(p: Seq<char>, n: Seq<char>)
    requires
        forall|i: int| 0 <= i < p.len() ==> #[trigger] p[i] != '*',
    ensures
        fits(p, n) <==> n.len() == p.len() && forall|i: int|
            0 <= i < p.len() ==> (#[trigger] p[i]) == '?' || p[i] == n[i],
    decreases p.len(),
{
    if p.len() > 0 && n.len() > 0 {
        let q = p.skip(1);
        let m = n.skip(1);
        assert forall|i: int| 0 <= i < q.len() implies #[trigger] q[i] != '*' by {
            assert(q[i] == p[i + 1]);
        }
        law_pattern_without_star_is_the_name(q, m);
        assert(p[0] != '*');
        if fits(p, n) {
            assert forall|i: int| 0 <= i < p.len() implies (#[trigger] p[i]) == '?' || p[i]
                == n[i] by {
                if i > 0 {
                    assert(q[i - 1] == p[i]);
                    assert(m[i - 1] == n[i]);
                }
            }
        }
        if n.len() == p.len() && forall|i: int|
            0 <= i < p.len() ==> (#[trigger] p[i]) == '?' || p[i] == n[i] {
            assert forall|i: int| 0 <= i < q.len() implies (#[trigger] q[i]) == '?' || q[i]
                == m[i] by {
                assert(q[i] == p[i + 1]);
                assert(m[i] == n[i + 1]);
            }
        }
    } else if p.len() > 0 {
        assert(p[0] != '*');
    }
}

/// A `*` fits every name.
pub proof fn law_star_fits_every_name(n: Seq<char>)
    ensures
        fits(seq!['*'], n),
    decreases n.len(),
{
    if n.len() > 0 {
        law_star_fits_every_name(n.skip(1));
    } else {
        assert(seq!['*'].skip(1) =~= Seq::<char>::empty());
        assert(fits(Seq::<char>::empty(), n));
    }
}

/// The name falls into two parts that fit one pattern each.
pub open spec fn fits_in_two(p: Seq<char>, q: Seq<char>, n: Seq<char>) -> bool {
    exists|k: int| 0 <= k <= n.len() && #[trigger] fits(p, n.take(k)) && fits(q, n.skip(k))
}

/// Patterns are read one after the other: a name fits two patterns in a row exactly where it falls
/// into two parts that fit one each.
pub proof fn law_patterns_follow_one_another(p: Seq<char>, q: Seq<char>, n: Seq<char>)
    ensures
        fits(p + q, n) <==> fits_in_two(p, q, n),
    decreases p.len() + n.len(),
{
    let all = p + q;
    if p.len() == 0 {
        assert(all =~= q);
        assert(n.take(0) =~= Seq::<char>::empty());
        assert(n.skip(0) =~= n);
        assert(fits(p, n.take(0)));
        if fits_in_two(p, q, n) {
            let k = choose|k: int|
                0 <= k <= n.len() && #[trigger] fits(p, n.take(k)) && fits(q, n.skip(k));
            assert(n.take(k).len() == 0);
        }
    } else {
        let rest = p.skip(1);
        assert(all.skip(1) =~= rest + q);
        assert(all[0] == p[0]);
        law_patterns_follow_one_another(rest, q, n);
        if n.len() > 0 {
            law_patterns_follow_one_another(p, q, n.skip(1));
            law_patterns_follow_one_another(rest, q, n.skip(1));
        }
        if fits(all, n) {
            if p[0] == '*' && fits(rest + q, n) {
                let k = choose|k: int|
                    0 <= k <= n.len() && #[trigger] fits(rest, n.take(k)) && fits(q, n.skip(k));
                assert(fits(p, n.take(k)));
            } else {
                let m = n.skip(1);
                let of = if p[0] == '*' {
                    p
                } else {
                    rest
                };
                let k = choose|k: int|
                    0 <= k <= m.len() && #[trigger] fits(of, m.take(k)) && fits(q, m.skip(k));
                assert(n.take(k + 1).skip(1) =~= m.take(k));
                assert(n.skip(k + 1) =~= m.skip(k));
                assert(n.take(k + 1)[0] == n[0]);
                assert(fits(p, n.take(k + 1)));
            }
        }
        if fits_in_two(p, q, n) {
            let k = choose|k: int|
                0 <= k <= n.len() && #[trigger] fits(p, n.take(k)) && fits(q, n.skip(k));
            if p[0] == '*' && fits(rest, n.take(k)) {
                assert(fits_in_two(rest, q, n));
            } else {
                assert(k > 0);
                let m = n.skip(1);
                assert(n.take(k).skip(1) =~= m.take(k - 1));
                assert(n.skip(k) =~= m.skip(k - 1));
                assert(n.take(k)[0] == n[0]);
                let of = if p[0] == '*' {
                    p
                } else {
                    rest
                };
                assert(fits(of, m.take(k - 1)));
                assert(fits_in_two(of, q, m));
            }
        }
    }
}

/// The characters of `p` from `a` on stand, one for one, for those of `n` from `b` on.
spec fn literal(p: Seq<char>, a: int, n: Seq<char>, b: int, len: int) -> bool {
    &&& 0 <= a && 0 <= b && 0 <= len
    &&& a + len <= p.len() && b + len <= n.len()
    &&& forall|i: int|
        0 <= i < len ==> (#[trigger] p[a + i]) != '*' && (p[a + i] == '?' || p[a + i] == n[b + i])
}

/// A run of characters none of which is a `*`.
spec fn plain(p: Seq<char>, a: int, len: int) -> bool {
    &&& 0 <= a && 0 <= len && a + len <= p.len()
    &&& forall|i: int| 0 <= i < len ==> (#[trigger] p[a + i]) != '*'
}

/// Some end of the name from `from` on fits what follows the star at `star`.
spec fn fits_from(p: Seq<char>, star: int, n: Seq<char>, from: int) -> bool {
    exists|k: int| from <= k <= n.len() && #[trigger] fits(p.skip(star + 1), n.skip(k))
}

proof fn lemma_literal(p: Seq<char>, a: int, n: Seq<char>, b: int, len: int)
    requires
        literal(p, a, n, b, len),
    ensures
        fits(p.skip(a), n.skip(b)) == fits(p.skip(a + len), n.skip(b + len)),
    decreases len,
{
    if len > 0 {
        assert(p[a + 0] != '*');
        assert(p.skip(a)[0] == p[a]);
        assert(n.skip(b)[0] == n[b]);
        assert(p.skip(a).skip(1) =~= p.skip(a + 1));
        assert(n.skip(b).skip(1) =~= n.skip(b + 1));
        assert forall|i: int| 0 <= i < len - 1 implies (#[trigger] p[a + 1 + i]) != '*' && (p[a + 1
            + i] == '?' || p[a + 1 + i] == n[b + 1 + i]) by {
            assert(p[a + (i + 1)] != '*');
        }
        lemma_literal(p, a + 1, n, b + 1, len - 1);
    }
}

proof fn lemma_plain_needs_room(p: Seq<char>, a: int, len: int, n: Seq<char>, k: int)
    requires
        plain(p, a, len),
        0 <= k <= n.len(),
        fits(p.skip(a), n.skip(k)),
    ensures
        k + len <= n.len(),
        fits(p.skip(a + len), n.skip(k + len)),
    decreases len,
{
    if len > 0 {
        assert(p[a + 0] != '*');
        assert(p.skip(a)[0] == p[a]);
        assert(p.skip(a).skip(1) =~= p.skip(a + 1));
        assert(n.skip(k).skip(1) =~= n.skip(k + 1));
        assert forall|i: int| 0 <= i < len - 1 implies (#[trigger] p[a + 1 + i]) != '*' by {
            assert(p[a + (i + 1)] != '*');
        }
        lemma_plain_needs_room(p, a + 1, len - 1, n, k + 1);
    }
}

proof fn lemma_star_takes_more(p: Seq<char>, n: Seq<char>, i: int, j: int)
    requires
        p.len() > 0,
        p[0] == '*',
        0 <= i <= j <= n.len(),
        fits(p, n.skip(j)),
    ensures
        fits(p, n.skip(i)),
    decreases j - i,
{
    if i < j {
        lemma_star_takes_more(p, n, i + 1, j);
        assert(n.skip(i).skip(1) =~= n.skip(i + 1));
    }
}

proof fn lemma_star_splits(p: Seq<char>, n: Seq<char>, i: int)
    requires
        p.len() > 0,
        p[0] == '*',
        0 <= i <= n.len(),
        fits(p, n.skip(i)),
    ensures
        exists|k: int| i <= k <= n.len() && #[trigger] fits(p.skip(1), n.skip(k)),
    decreases n.len() - i,
{
    if !fits(p.skip(1), n.skip(i)) {
        assert(n.skip(i).skip(1) =~= n.skip(i + 1));
        lemma_star_splits(p, n, i + 1);
    }
}

proof fn lemma_star_is_a_choice(p: Seq<char>, star: int, n: Seq<char>, i: int)
    requires
        0 <= star < p.len(),
        p[star] == '*',
        0 <= i <= n.len(),
    ensures
        fits(p.skip(star), n.skip(i)) == fits_from(p, star, n, i),
{
    let q = p.skip(star);
    assert(q[0] == '*');
    assert(q.skip(1) =~= p.skip(star + 1));
    if fits(q, n.skip(i)) {
        lemma_star_splits(q, n, i);
    }
    if fits_from(p, star, n, i) {
        let k = choose|k: int| i <= k <= n.len() && #[trigger] fits(p.skip(star + 1), n.skip(k));
        assert(fits(q, n.skip(k)));
        lemma_star_takes_more(q, n, i, k);
    }
}

proof fn lemma_only_stars(p: Seq<char>)
    ensures
        fits(p, Seq::<char>::empty()) == (forall|i: int| 0 <= i < p.len() ==> p[i] == '*'),
    decreases p.len(),
{
    if p.len() > 0 {
        lemma_only_stars(p.skip(1));
        if fits(p, Seq::<char>::empty()) {
            assert forall|i: int| 0 <= i < p.len() implies p[i] == '*' by {
                if i > 0 {
                    assert(p.skip(1)[i - 1] == p[i]);
                }
            }
        }
        if forall|i: int| 0 <= i < p.len() ==> p[i] == '*' {
            assert forall|i: int| 0 <= i < p.skip(1).len() implies p.skip(1)[i] == '*' by {
                assert(p.skip(1)[i] == p[i + 1]);
            }
        }
    }
}

/// What is known between two steps of the match.
spec fn search_state(
    p: Seq<char>,
    n: Seq<char>,
    pi: int,
    ni: int,
    starred: bool,
    star: int,
    mark: int,
) -> bool {
    &&& 0 <= pi <= p.len()
    &&& 0 <= mark <= ni <= n.len()
    &&& !starred ==> mark == 0 && fits(p, n) == fits(p.skip(pi), n.skip(ni))
    &&& starred ==> 0 <= star < pi && p[star] == '*' && pi - star - 1 == ni - mark && literal(
        p,
        star + 1,
        n,
        mark,
        pi - star - 1,
    ) && fits(p, n) == fits_from(p, star, n, mark)
}

proof fn lemma_step(p: Seq<char>, n: Seq<char>, pi: int, ni: int, starred: bool, star: int, mark: int)
    requires
        search_state(p, n, pi, ni, starred, star, mark),
        pi < p.len(),
        ni < n.len(),
        p[pi] != '*',
        p[pi] == '?' || p[pi] == n[ni],
    ensures
        search_state(p, n, pi + 1, ni + 1, starred, star, mark),
{
    if starred {
        assert forall|i: int| 0 <= i < pi + 1 - star - 1 implies (#[trigger] p[star + 1 + i]) != '*'
            && (p[star + 1 + i] == '?' || p[star + 1 + i] == n[mark + i]) by {
            if i == pi - star - 1 {
                assert(p[star + 1 + i] == p[pi]);
                assert(n[mark + i] == n[ni]);
            }
        }
    } else {
        assert(p[pi + 0] == p[pi]);
        assert(literal(p, pi, n, ni, 1));
        lemma_literal(p, pi, n, ni, 1);
    }
}

proof fn lemma_new_star(
    p: Seq<char>,
    n: Seq<char>,
    pi: int,
    ni: int,
    starred: bool,
    star: int,
    mark: int,
)
    requires
        search_state(p, n, pi, ni, starred, star, mark),
        pi < p.len(),
        p[pi] == '*',
    ensures
        search_state(p, n, pi + 1, ni, true, pi, ni),
{
    lemma_star_is_a_choice(p, pi, n, ni);
    if starred {
        let len = pi - star - 1;
        lemma_literal(p, star + 1, n, mark, len);
        if fits_from(p, star, n, mark) {
            let k = choose|k: int|
                mark <= k <= n.len() && #[trigger] fits(p.skip(star + 1), n.skip(k));
            assert(plain(p, star + 1, len));
            lemma_plain_needs_room(p, star + 1, len, n, k);
            assert(p.skip(pi)[0] == '*');
            lemma_star_takes_more(p.skip(pi), n, ni, k + len);
        }
        if fits(p.skip(pi), n.skip(ni)) {
            assert(fits(p.skip(star + 1), n.skip(mark)));
        }
    }
}

proof fn lemma_back(p: Seq<char>, n: Seq<char>, pi: int, ni: int, star: int, mark: int)
    requires
        search_state(p, n, pi, ni, true, star, mark),
        ni < n.len(),
        pi < p.len() ==> p[pi] != '*' && p[pi] != '?' && p[pi] != n[ni],
    ensures
        search_state(p, n, star + 1, mark + 1, true, star, mark + 1),
{
    lemma_literal(p, star + 1, n, mark, pi - star - 1);
    if pi < p.len() {
        assert(p.skip(pi)[0] == p[pi]);
        assert(n.skip(ni)[0] == n[ni]);
    }
    assert(!fits(p.skip(star + 1), n.skip(mark)));
    if fits_from(p, star, n, mark) {
        let k = choose|k: int| mark <= k <= n.len() && #[trigger] fits(p.skip(star + 1), n.skip(k));
        assert(k > mark);
    }
    if fits_from(p, star, n, mark + 1) {
        let k = choose|k: int|
            mark + 1 <= k <= n.len() && #[trigger] fits(p.skip(star + 1), n.skip(k));
        assert(fits(p.skip(star + 1), n.skip(k)));
    }
}

proof fn lemma_end(p: Seq<char>, n: Seq<char>, pi: int, starred: bool, star: int, mark: int)
    requires
        search_state(p, n, pi, n.len() as int, starred, star, mark),
    ensures
        fits(p, n) == fits(p.skip(pi), Seq::<char>::empty()),
{
    assert(n.skip(n.len() as int) =~= Seq::<char>::empty());
    if starred {
        let len = pi - star - 1;
        lemma_literal(p, star + 1, n, mark, len);
        if fits_from(p, star, n, mark) {
            let k = choose|k: int|
                mark <= k <= n.len() && #[trigger] fits(p.skip(star + 1), n.skip(k));
            assert(plain(p, star + 1, len));
            lemma_plain_needs_room(p, star + 1, len, n, k);
        }
    }
}

/// Does a name fit a pattern with `*` and `?`?
pub fn glob_match(pattern: &str, name: &str) -> (r: bool)
    ensures
        r == fits(pattern@, name@),
{
    let p: Vec<char> = to_chars(pattern);
    let n: Vec<char> = to_chars(name);
    fits_chars(p.as_slice(), n.as_slice())
}

/// Does a name fit a pattern with `*` and `?`? Walks both from left to right, and on a mismatch
/// goes back to the last star and lets it stand for one character more.
pub fn fits_chars(p: &[char], n: &[char]) -> (r: bool)
    ensures
        r == fits(p@, n@),
{
    let np: usize = p.len();
    let nn: usize = n.len();
    let mut pi: usize = 0;
    let mut ni: usize = 0;
    let mut starred: bool = false;
    let mut star: usize = 0;
    let mut mark: usize = 0;
    proof {
        assert(p@.skip(0) =~= p@);
        assert(n@.skip(0) =~= n@);
    }
    while ni < nn
        invariant
            np == p@.len(),
            nn == n@.len(),
            search_state(p@, n@, pi as int, ni as int, starred, star as int, mark as int),
        decreases nn - mark, np - pi,
    {
        if pi < np && p[pi] == '*' {
            proof {
                lemma_new_star(
                    p@,
                    n@,
                    pi as int,
                    ni as int,
                    starred,
                    star as int,
                    mark as int,
                );
            }
            starred = true;
            star = pi;
            mark = ni;
            pi += 1;
        } else if pi < np && (p[pi] == '?' || p[pi] == n[ni]) {
            proof {
                lemma_step(p@, n@, pi as int, ni as int, starred, star as int, mark as int);
            }
            pi += 1;
            ni += 1;
        } else if starred {
            proof {
                lemma_back(p@, n@, pi as int, ni as int, star as int, mark as int);
            }
            pi = star + 1;
            mark += 1;
            ni = mark;
        } else {
            proof {
                if pi < np {
                    assert(p@.skip(pi as int)[0] == p@[pi as int]);
                    assert(n@.skip(ni as int)[0] == n@[ni as int]);
                }
            }
            return false;
        }
    }
    proof {
        lemma_end(p@, n@, pi as int, starred, star as int, mark as int);
    }
    let ghost rest = p@.skip(pi as int);
    let ghost from = pi as int;
    proof {
        lemma_only_stars(rest);
    }
    while pi < np && p[pi] == '*'
        invariant
            np == p@.len(),
            from <= pi <= np,
            forall|i: int| from <= i < pi ==> p@[i] == '*',
        decreases np - pi,
    {
        pi += 1;
    }
    proof {
        if pi == np {
            assert forall|i: int| 0 <= i < rest.len() implies rest[i] == '*' by {
                assert(rest[i] == p@[from + i]);
            }
        } else {
            assert(rest[pi - from] == p@[pi as int]);
        }
    }
    pi == np
}

} // verus!
