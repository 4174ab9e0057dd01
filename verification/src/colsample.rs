//! Feature sampling, once per tree.
//!
//! The sample is drawn over global feature numbers from a generator that is fully defined
//! here, so it depends on `(seed, round)` alone: not on threads, devices or on how features
//! are cut into blocks.
use vstd::arithmetic::power2::pow2;
use vstd::prelude::*;

use crate::columns::block_feats;
use crate::float32::{value_of, F32, INF_MAGNITUDE};
use crate::math::{ceil_div, iclamp, imin, lemma_ceil_div};
use crate::types::FeatId;

verus! {

/// The increment of the generator's state.
pub const GAMMA: u64 = 0x9E37_79B9_7F4A_7C15;

/// The inverse of `GAMMA` modulo 2^64.
pub const GAMMA_INVERSE: u64 = 0xF1DE_83E1_9937_733D;

/// The number of values of a 64-bit word.
pub open spec fn two64() -> int {
    0x1_0000_0000_0000_0000
}

/// The state after one step.
pub open spec fn next_state(s: u64) -> u64 {
    s.wrapping_add(GAMMA)
}

/// What the generator puts out in a state.
pub open spec fn mix(s: u64) -> u64 {
    let a = (s ^ (s >> 30u64)).wrapping_mul(0xBF58_476D_1CE4_E5B9);
    let b = (a ^ (a >> 27u64)).wrapping_mul(0x94D0_49BB_1331_11EB);
    b ^ (b >> 31u64)
}

/// The largest output that a draw below `n` accepts: the accepted outputs are a multiple
/// of `n` in number, so each remainder is equally likely.
pub open spec fn zone(n: u64) -> int {
    u64::MAX - (u64::MAX as int) % (n as int) - 1
}

/// How many steps lead from `s` to the state 0.
pub open spec fn steps_to_zero(s: u64) -> int {
    let k = ((two64() - s) * (GAMMA_INVERSE as int)) % two64();
    if k == 0 {
        two64()
    } else {
        k
    }
}

/// A number below `n` and the state after drawing it.
pub open spec fn draw(s: u64, n: u64) -> (u64, u64)
    decreases steps_to_zero(s),
{
    let s1 = next_state(s);
    let v = mix(s1);
    if n == 0 {
        (0, s)
    } else if v <= zone(n) {
        (v % n, s1)
    } else {
        proof {
            lemma_rejected_step(s, n);
        }
        draw(s1, n)
    }
}

proof fn lemma_mix_zero()
    ensures
        mix(0) == 0,
{
    assert(0u64 ^ (0u64 >> 30u64) == 0u64) by (bit_vector);
    assert(0u64 ^ (0u64 >> 27u64) == 0u64) by (bit_vector);
    assert(0u64 ^ (0u64 >> 31u64) == 0u64) by (bit_vector);
}

/// A step that is rejected brings the state closer to 0, whose output is always accepted.
pub proof fn lemma_rejected_step(s: u64, n: u64)
    requires
        n > 0,
        mix(next_state(s)) > zone(n),
    ensures
        0 < steps_to_zero(next_state(s)) < steps_to_zero(s),
{
    let m = two64();
    let g = GAMMA as int;
    let inv = GAMMA_INVERSE as int;
    let q = 10771413168148108919int;
    let t = next_state(s);
    assert(g * inv == 1 + m * q);
    lemma_mix_zero();
    assert((u64::MAX as int) % (n as int) < n) by {
        vstd::arithmetic::div_mod::lemma_mod_bound(u64::MAX as int, n as int);
    }
    assert(t != 0);
    let a = (m - s) * inv;
    let b = (m - t) * inv;
    let carry: int = if s + g >= m {
        1
    } else {
        0
    };
    assert(t == s + g - m * carry);
    assert(b == a - 1 + m * (carry * inv - q)) by (nonlinear_arith)
        requires
            b == (m - t) * inv,
            a == (m - s) * inv,
            t == s + g - m * carry,
            g * inv == 1 + m * q,
    ;
    let k = a % m;
    let l = b % m;
    vstd::arithmetic::div_mod::lemma_fundamental_div_mod(a, m);
    vstd::arithmetic::div_mod::lemma_fundamental_div_mod(b, m);
    let qa = a / m;
    let qb = b / m;
    assert(a == m * qa + k);
    if k >= 1 {
        assert(b == m * (qa + carry * inv - q) + (k - 1)) by (nonlinear_arith)
            requires
                b == a - 1 + m * (carry * inv - q),
                a == m * qa + k,
        ;
        vstd::arithmetic::div_mod::lemma_fundamental_div_mod_converse(
            b,
            m,
            qa + carry * inv - q,
            k - 1,
        );
    } else {
        assert(b == m * (qa + carry * inv - q - 1) + (m - 1)) by (nonlinear_arith)
            requires
                b == a - 1 + m * (carry * inv - q),
                a == m * qa + k,
                k == 0,
        ;
        vstd::arithmetic::div_mod::lemma_fundamental_div_mod_converse(
            b,
            m,
            qa + carry * inv - q - 1,
            m - 1,
        );
    }
    if l == 0 {
        // then `m - t` would be a multiple of `m`, so `t` would be 0
        let x = m - t;
        assert(x * inv == m * qb);
        let w = qb * g - x * q;
        assert(x == m * w) by (nonlinear_arith)
            requires
                x * inv == m * qb,
                g * inv == 1 + m * q,
                w == qb * g - x * q,
        ;
        assert(0 < x < m);
        assert(w > 0) by (nonlinear_arith)
            requires
                x == m * w,
                x > 0,
                m > 0,
        ;
        assert(m * w >= m) by (nonlinear_arith)
            requires
                w >= 1,
                m > 0,
        ;
        assert(false);
    }
}

/// The SplitMix64 generator.
pub struct SplitMix64 {
    pub state: u64,
}

impl SplitMix64 {
    /// The next output.
    pub fn next_u64(&mut self) -> (z: u64)
        ensures
            final(self).state == next_state(old(self).state),
            z == mix(final(self).state),
    {
        self.state = self.state.wrapping_add(GAMMA);
        let s: u64 = self.state;
        let a: u64 = (s ^ (s >> 30u64)).wrapping_mul(0xBF58_476D_1CE4_E5B9);
        let b: u64 = (a ^ (a >> 27u64)).wrapping_mul(0x94D0_49BB_1331_11EB);
        b ^ (b >> 31u64)
    }

    /// A uniform number below `n`, by rejection.
    pub fn below(&mut self, n: u64) -> (v: u64)
        requires
            n > 0,
        ensures
            v < n,
            (v, final(self).state) == draw(old(self).state, n),
    {
        let limit: u64 = u64::MAX - (u64::MAX % n) - 1;
        loop
            invariant
                n > 0,
                limit == zone(n),
                draw(self.state, n) == draw(old(self).state, n),
            decreases steps_to_zero(self.state),
        {
            let ghost before = self.state;
            let v: u64 = self.next_u64();
            if v <= limit {
                return v % n;
            }
            proof {
                lemma_rejected_step(before, n);
            }
        }
    }
}

/// How many of the low bits of `x` a 53-bit significand drops.
pub open spec fn excess_bits(x: nat) -> nat
    decreases x,
{
    if x < 0x20_0000_0000_0000 {
        0
    } else {
        excess_bits(x / 2) + 1
    }
}

/// `x` to 53 significant bits, to nearest with ties to even: the double nearest to `x`.
pub open spec fn round53(x: nat) -> nat {
    let unit = pow2(excess_bits(x));
    let q = x / unit;
    let rest = x % unit;
    if 2 * rest > unit || (2 * rest == unit && q % 2 == 1) {
        (q + 1) * unit
    } else {
        q * unit
    }
}

/// The integer significand of a positive number.
pub open spec fn significand(rate: F32) -> nat {
    let m = rate.magnitude() as nat;
    if m / 0x80_0000 == 0 {
        m % 0x80_0000
    } else {
        0x80_0000 + m % 0x80_0000
    }
}

/// The power of two that scales the significand.
pub open spec fn exponent(rate: F32) -> int {
    let e = rate.magnitude() / 0x80_0000;
    if e == 0 {
        -149
    } else {
        e - 150
    }
}

/// The whole part of `x * 2^k`.
pub open spec fn scaled(x: nat, k: int) -> int {
    if k >= 0 {
        (x * pow2(k as nat)) as int
    } else {
        x as int / pow2((-k) as nat) as int
    }
}

/// How many of `n_features` features a rate selects: the product in double precision,
/// truncated, at least one and at most all. A rate that is negative, infinite or NaN selects
/// one.
pub open spec fn sampled_count_spec(n_features: int, rate: F32) -> int {
    if n_features == 0 {
        0
    } else if rate.bits >= INF_MAGNITUDE {
        1
    } else {
        iclamp(
            scaled(round53((significand(rate) * round53(n_features as nat)) as nat), exponent(rate)),
            1,
            n_features,
        )
    }
}

/// Rounds to 53 significant bits.
fn round_to_double(x: u128) -> (r: u128)
    requires
        x < 0x1_0000_0000_0000_0000_0000_0000,
    ensures
        r == round53(x as nat),
        r <= 2 * x,
{
    let mut q: u128 = x;
    let mut unit: u128 = 1;
    let ghost mut e: nat = 0;
    proof {
        vstd::arithmetic::power2::lemma2_to64();
    }
    while q >= 0x20_0000_0000_0000
        invariant
            x < 0x1_0000_0000_0000_0000_0000_0000,
            unit == pow2(e),
            unit >= 1,
            q == x as nat / pow2(e),
            q * unit <= x,
            excess_bits(x as nat) == e + excess_bits(q as nat),
        decreases q,
    {
        proof {
            vstd::arithmetic::power2::lemma_pow2_unfold(e + 1);
            vstd::arithmetic::div_mod::lemma_div_denominator(x as int, unit as int, 2);
            assert(unit * 2 <= x) by (nonlinear_arith)
                requires
                    q * unit <= x,
                    q >= 2,
                    unit >= 1,
            ;
            vstd::arithmetic::div_mod::lemma_fundamental_div_mod(x as int, unit as int * 2);
            let h = x as int / (unit as int * 2);
            assert(h * (unit * 2) <= x) by (nonlinear_arith)
                requires
                    x == (unit * 2) * h + x as int % (unit as int * 2),
                    0 <= x as int % (unit as int * 2),
            ;
            e = e + 1;
        }
        q = q / 2;
        unit = unit * 2;
    }
    let rest: u128 = x % unit;
    proof {
        vstd::arithmetic::div_mod::lemma_fundamental_div_mod(x as int, unit as int);
        assert(unit * q == q * unit) by (nonlinear_arith);
        assert((q + 1) * unit == q * unit + unit) by (nonlinear_arith);
        assert(q * unit >= 0) by (nonlinear_arith);
        assert(x == q * unit + rest);
    }
    if 2 * rest > unit || (2 * rest == unit && q % 2 == 1) {
        (q + 1) * unit
    } else {
        q * unit
    }
}

/// The whole part of `x * 2^k`, capped at `cap`.
fn scale_capped(x: u128, k: i64, cap: u128) -> (r: u128)
    requires
        x < 0x8000_0000_0000_0000_0000_0000_0000_0000,
        cap < 0x8000_0000_0000_0000_0000_0000_0000_0000,
        -1000 < k < 1000,
    ensures
        r == if scaled(x as nat, k as int) <= cap {
            scaled(x as nat, k as int)
        } else {
            cap as int
        },
{
    let mut v: u128 = x;
    let mut i: i64 = 0;
    proof {
        vstd::arithmetic::power2::lemma2_to64();
    }
    if k >= 0 {
        assert(x * pow2(0) == x) by (nonlinear_arith)
            requires
                pow2(0) == 1,
        ;
        while i < k
            invariant
                0 <= i <= k,
                k < 1000,
                x < 0x8000_0000_0000_0000_0000_0000_0000_0000,
                cap < 0x8000_0000_0000_0000_0000_0000_0000_0000,
                v == x * pow2(i as nat),
                v < 0x8000_0000_0000_0000_0000_0000_0000_0000,
            decreases k - i,
        {
            if v > cap {
                proof {
                    let d = pow2((k - i) as nat);
                    vstd::arithmetic::power2::lemma_pow2_adds(i as nat, (k - i) as nat);
                    vstd::arithmetic::power2::lemma_pow2_pos((k - i) as nat);
                    assert(x * (pow2(i as nat) * d) == (x * pow2(i as nat)) * d)
                        by (nonlinear_arith);
                    assert(v * d >= v) by (nonlinear_arith)
                        requires
                            d >= 1,
                            v >= 0,
                    ;
                }
                return cap;
            }
            if v >= 0x4000_0000_0000_0000_0000_0000_0000_0000 {
                proof {
                    let d = pow2((k - i) as nat);
                    vstd::arithmetic::power2::lemma_pow2_adds(i as nat, (k - i) as nat);
                    vstd::arithmetic::power2::lemma_pow2_unfold((k - i) as nat);
                    vstd::arithmetic::power2::lemma_pow2_pos((k - i - 1) as nat);
                    assert(x * (pow2(i as nat) * d) == (x * pow2(i as nat)) * d)
                        by (nonlinear_arith);
                    assert(v * d >= 2 * v) by (nonlinear_arith)
                        requires
                            d >= 2,
                            v >= 0,
                    ;
                }
                return cap;
            }
            proof {
                vstd::arithmetic::power2::lemma_pow2_unfold((i + 1) as nat);
                assert(x * (2 * pow2(i as nat)) == 2 * (x * pow2(i as nat))) by (nonlinear_arith);
            }
            v = v * 2;
            i += 1;
        }
    } else {
        let down: i64 = 0 - k;
        assert(x as int / 1 == x);
        while i < down
            invariant
                0 <= i <= down,
                down < 1000,
                v == x as int / pow2(i as nat) as int,
                v <= x,
            decreases down - i,
        {
            proof {
                vstd::arithmetic::power2::lemma_pow2_unfold((i + 1) as nat);
                vstd::arithmetic::power2::lemma_pow2_pos(i as nat);
                vstd::arithmetic::div_mod::lemma_div_denominator(
                    x as int,
                    pow2(i as nat) as int,
                    2,
                );
            }
            v = v / 2;
            i += 1;
        }
    }
    if v > cap {
        cap
    } else {
        v
    }
}

/// How many features a rate selects.
pub fn sampled_count(n_features: usize, rate: F32) -> (r: usize)
    ensures
        r == sampled_count_spec(n_features as int, rate),
        n_features > 0 ==> 1 <= r <= n_features,
{
    if n_features == 0 {
        return 0;
    }
    if rate.bits >= INF_MAGNITUDE {
        return 1;
    }
    let e: u32 = rate.bits / 0x80_0000;
    let frac: u32 = rate.bits % 0x80_0000;
    let sig: u128 = if e == 0 {
        frac as u128
    } else {
        (0x80_0000 + frac) as u128
    };
    let exp: i64 = if e == 0 {
        -149
    } else {
        (e as i64) - 150
    };
    let n: u128 = round_to_double(n_features as u128);
    assert(sig * n <= 0x100_0000 * n) by (nonlinear_arith)
        requires
            sig <= 0x100_0000,
            n >= 0,
    ;
    let product: u128 = sig * n;
    let rounded: u128 = round_to_double(product);
    let whole: u128 = scale_capped(rounded, exp, n_features as u128);
    if whole < 1 {
        1
    } else {
        whole as usize
    }
}

/// Two places exchanged.
pub open spec fn swapped(ids: Seq<FeatId>, i: int, j: int) -> Seq<FeatId> {
    ids.update(i, ids[j]).update(j, ids[i])
}

/// The Fisher-Yates shuffle from place `i` down to the second.
pub open spec fn shuffled_from(ids: Seq<FeatId>, s: u64, i: int) -> Seq<FeatId>
    decreases i,
{
    if i <= 0 {
        ids
    } else {
        let (j, t) = draw(s, (i + 1) as u64);
        shuffled_from(swapped(ids, i, j as int), t, i - 1)
    }
}

/// All features in order.
pub open spec fn all_features(n: int) -> Seq<FeatId> {
    Seq::new(n as nat, |i: int| i as FeatId)
}

/// The generator's start for a tree.
pub open spec fn start_state(seed: u64, round: u64) -> u64 {
    let r = round.wrapping_mul(GAMMA);
    seed ^ ((r << 17u64) | (r >> 47u64))
}

/// The features in the order in which a tree draws them.
pub open spec fn draw_order(n: int, seed: u64, round: u64) -> Seq<FeatId> {
    shuffled_from(all_features(n), start_state(seed, round), n - 1)
}

/// Numbers in strictly ascending order.
pub open spec fn ascending(s: Seq<FeatId>) -> bool {
    forall|i: int, j: int| 0 <= i < j < s.len() ==> s[i] < s[j]
}

/// A sequence that holds each feature below `n` once.
pub open spec fn is_permutation(s: Seq<FeatId>, n: int) -> bool {
    &&& s.len() == n
    &&& s.no_duplicates()
    &&& forall|i: int| 0 <= i < n ==> #[trigger] s[i] < n
}

proof fn lemma_swap_keeps_permutation(ids: Seq<FeatId>, n: int, i: int, j: int)
    requires
        is_permutation(ids, n),
        0 <= i < n,
        0 <= j < n,
    ensures
        is_permutation(swapped(ids, i, j), n),
{
}

/// Shuffling keeps every feature.
pub proof fn lemma_shuffle_is_permutation(ids: Seq<FeatId>, s: u64, i: int)
    requires
        is_permutation(ids, ids.len() as int),
        i < ids.len(),
        ids.len() <= u32::MAX,
    ensures
        is_permutation(shuffled_from(ids, s, i), ids.len() as int),
    decreases i,
{
    if i > 0 {
        let (j, t) = draw(s, (i + 1) as u64);
        lemma_draw_bound(s, (i + 1) as u64);
        lemma_swap_keeps_permutation(ids, ids.len() as int, i, j as int);
        lemma_shuffle_is_permutation(swapped(ids, i, j as int), t, i - 1);
    }
}

/// A draw below `n` is below `n`.
pub proof fn lemma_draw_bound(s: u64, n: u64)
    requires
        n > 0,
    ensures
        draw(s, n).0 < n,
    decreases steps_to_zero(s),
{
    if mix(next_state(s)) > zone(n) {
        lemma_rejected_step(s, n);
        lemma_draw_bound(next_state(s), n);
    }
}

/// The features that a tree uses, ascending: the first `sampled_count` of the draw order.
pub open spec fn is_sample(
    n_features: int,
    rate: F32,
    seed: u64,
    round: u64,
    r: Seq<FeatId>,
) -> bool {
    &&& ascending(r)
    &&& r.len() == sampled_count_spec(n_features, rate)
    &&& forall|f: FeatId|
        #[trigger] r.contains(f) <==> draw_order(n_features, seed, round).take(
            sampled_count_spec(n_features, rate),
        ).contains(f)
    &&& forall|i: int| 0 <= i < r.len() ==> #[trigger] r[i] < n_features
}

/// The features that a tree uses, ascending: the first `sampled_count` of the draw order.
pub fn sample_features(n_features: usize, rate: F32, seed: u64, round: usize) -> (r: Vec<FeatId>)
    requires
        n_features <= u32::MAX,
    ensures
        is_sample(n_features as int, rate, seed, round as u64, r@),
{
    let take: usize = sampled_count(n_features, rate);
    let mut ids: Vec<FeatId> = Vec::new();
    let mut k: usize = 0;
    while k < n_features
        invariant
            k <= n_features <= u32::MAX,
            ids@ == all_features(k as int),
        decreases n_features - k,
    {
        ids.push(k as FeatId);
        k += 1;
    }
    let ghost n = n_features as int;
    let ghost order = draw_order(n, seed, round as u64);
    proof {
        assert(is_permutation(all_features(n), n));
        lemma_shuffle_is_permutation(all_features(n), start_state(seed, round as u64), n - 1);
    }
    if take >= n_features {
        proof {
            assert(order.take(n) =~= order);
            lemma_permutation_holds_all(order, n);
            assert forall|f: FeatId| #[trigger] ids@.contains(f) <==> order.take(n).contains(f) by {
                if f < n {
                    assert(ids@[f as int] == f);
                } else {
                    if order.contains(f) {
                        let i = choose|i: int| 0 <= i < order.len() && order[i] == f;
                        assert(order[i] < n);
                    }
                }
            }
        }
        return ids;
    }
    let r17: u64 = (round as u64).wrapping_mul(GAMMA);
    let mut rng: SplitMix64 = SplitMix64 { state: seed ^ ((r17 << 17u64) | (r17 >> 47u64)) };
    let mut i: usize = n_features - 1;
    while i > 0
        invariant
            n_features <= u32::MAX,
            ids.len() == n_features,
            i < n_features,
            shuffled_from(ids@, rng.state, i as int) == order,
        decreases i,
    {
        let j: usize = rng.below((i + 1) as u64) as usize;
        let a: FeatId = ids[i];
        let b: FeatId = ids[j];
        ids.set(i, b);
        ids.set(j, a);
        i -= 1;
    }
    ids.truncate(take);
    let ghost picked = order.take(take as int);
    assert(ids@ == picked);
    let mut chosen: Vec<bool> = Vec::new();
    let mut k: usize = 0;
    while k < n_features
        invariant
            k <= n_features,
            chosen.len() == k,
            forall|f: int| 0 <= f < k ==> !#[trigger] chosen[f],
        decreases n_features - k,
    {
        chosen.push(false);
        k += 1;
    }
    let mut k: usize = 0;
    while k < take
        invariant
            k <= take < n_features,
            ids.len() == take,
            chosen.len() == n_features,
            is_permutation(order, n_features as int),
            ids@ == order.take(take as int),
            forall|f: int|
                0 <= f < n_features ==> (#[trigger] chosen[f] <==> exists|q: int|
                    0 <= q < k && #[trigger] ids@[q] == f),
        decreases take - k,
    {
        assert(ids@[k as int] == order[k as int]);
        let id: usize = ids[k] as usize;
        chosen.set(id, true);
        proof {
            assert forall|f: int| 0 <= f < n_features implies (#[trigger] chosen[f] <==> exists|
                q: int,
            |
                0 <= q < k + 1 && #[trigger] ids@[q] == f) by {
                if f == id {
                    assert(ids@[k as int] == f);
                }
            }
        }
        k += 1;
    }
    let mut r: Vec<FeatId> = Vec::new();
    let mut f: usize = 0;
    while f < n_features
        invariant
            f <= n_features <= u32::MAX,
            chosen.len() == n_features,
            ascending(r@),
            forall|q: int| 0 <= q < r.len() ==> #[trigger] r[q] < f,
            forall|g: FeatId| #[trigger] r@.contains(g) <==> g < f && chosen[g as int],
        decreases n_features - f,
    {
        let ghost before = r@;
        if chosen[f] {
            r.push(f as FeatId);
            proof {
                assert forall|g: FeatId| #[trigger] r@.contains(g) <==> g < f + 1
                    && chosen[g as int] by {
                    if g == f {
                        assert(r@[before.len() as int] == g);
                    } else {
                        if before.contains(g) {
                            let w = choose|w: int| 0 <= w < before.len() && before[w] == g;
                            assert(r@[w] == g);
                        }
                        if r@.contains(g) {
                            let w = choose|w: int| 0 <= w < r@.len() && r@[w] == g;
                            assert(before[w] == g);
                        }
                    }
                }
            }
        }
        f += 1;
    }
    proof {
        assert forall|g: FeatId| #[trigger] r@.contains(g) <==> picked.contains(g) by {
            if picked.contains(g) {
                let w = choose|w: int| 0 <= w < picked.len() && picked[w] == g;
                assert(order[w] == g);
                assert(ids@[w] == g);
            }
            if r@.contains(g) {
                assert(chosen[g as int]);
                let w = choose|w: int| 0 <= w < take && #[trigger] ids@[w] == g as int;
                assert(picked[w] == g);
            }
        }
        assert(r@.to_set() =~= picked.to_set());
        assert(r@.no_duplicates());
        assert(picked.no_duplicates());
        r@.unique_seq_to_set();
        picked.unique_seq_to_set();
    }
    r
}

/// A permutation of the features below `n` holds every one of them.
pub proof fn lemma_permutation_holds_all(s: Seq<FeatId>, n: int)
    requires
        is_permutation(s, n),
        n <= u32::MAX,
    ensures
        forall|f: FeatId| f < n ==> #[trigger] s.contains(f),
{
    let all = all_features(n);
    assert(all.no_duplicates());
    s.unique_seq_to_set();
    all.unique_seq_to_set();
    assert(s.to_set().subset_of(all.to_set())) by {
        assert forall|f: FeatId| s.to_set().contains(f) implies all.to_set().contains(f) by {
            let w = choose|w: int| 0 <= w < s.len() && s[w] == f;
            assert(s[w] < n);
            assert(all[f as int] == f);
        }
    }
    vstd::set_lib::lemma_subset_equality(s.to_set(), all.to_set());
    assert forall|f: FeatId| f < n implies #[trigger] s.contains(f) by {
        assert(all[f as int] == f);
        assert(all.to_set().contains(f));
        assert(s.to_set().contains(f));
    }
}

/// Ascending lists with the same numbers are the same list.
proof fn lemma_ascending_is_unique(a: Seq<FeatId>, b: Seq<FeatId>)
    requires
        ascending(a),
        ascending(b),
        forall|f: FeatId| #[trigger] a.contains(f) <==> b.contains(f),
    ensures
        a == b,
    decreases a.len(),
{
    if a.len() == 0 {
        if b.len() > 0 {
            assert(b.contains(b[0]));
            assert(a.contains(b[0]));
        }
    } else {
        assert(a.contains(a.last()));
        assert(b.len() > 0);
        assert(b.contains(b.last()));
        assert(a.contains(b.last()));
        let i = choose|i: int| 0 <= i < a.len() && a[i] == b.last();
        let j = choose|j: int| 0 <= j < b.len() && b[j] == a.last();
        assert(a.last() == b.last());
        let ra = a.drop_last();
        let rb = b.drop_last();
        assert forall|f: FeatId| #[trigger] ra.contains(f) <==> rb.contains(f) by {
            if ra.contains(f) {
                let w = choose|w: int| 0 <= w < ra.len() && ra[w] == f;
                assert(a[w] == f);
                assert(a.contains(f));
                let v = choose|v: int| 0 <= v < b.len() && b[v] == f;
                assert(a[w] < a.last());
                assert(rb[v] == f);
            }
            if rb.contains(f) {
                let w = choose|w: int| 0 <= w < rb.len() && rb[w] == f;
                assert(b[w] == f);
                assert(b.contains(f));
                assert(a.contains(f));
                let v = choose|v: int| 0 <= v < a.len() && a[v] == f;
                assert(b[w] < b.last());
                assert(ra[v] == f);
            }
        }
        lemma_ascending_is_unique(ra, rb);
        assert(a =~= ra.push(a.last()));
        assert(b =~= rb.push(b.last()));
    }
    assert(a =~= b);
}

/// A sample is settled by the number of features, the rate, the seed and the round.
pub proof fn law_sample_depends_on_seed_and_round_alone(
    n_features: int,
    rate: F32,
    seed: u64,
    round: u64,
    a: Seq<FeatId>,
    b: Seq<FeatId>,
)
    requires
        is_sample(n_features, rate, seed, round, a),
        is_sample(n_features, rate, seed, round, b),
    ensures
        a == b,
{
    lemma_ascending_is_unique(a, b);
}

/// The bits of the rate one.
pub const ONE_BITS: u32 = 0x3F80_0000;

/// The rate one counts every feature.
proof fn lemma_rate_one_counts_all(n: int)
    requires
        0 <= n <= u32::MAX,
    ensures
        sampled_count_spec(n, F32 { bits: ONE_BITS }) == n,
{
    if n > 0 {
        let rate = F32 { bits: ONE_BITS };
        assert(significand(rate) == 0x80_0000);
        assert(exponent(rate) == -23);
        vstd::arithmetic::power2::lemma2_to64();
        assert(round53(n as nat) == n) by {
            assert(excess_bits(n as nat) == 0);
        }
        let x = (0x80_0000 * n) as nat;
        assert(round53(x) == x) by {
            reveal_with_fuel(excess_bits, 4);
            let e = excess_bits(x);
            assert(e <= 2);
            let unit = pow2(e);
            assert(unit == 1 || unit == 2 || unit == 4);
            assert(x % unit == 0);
            assert((x / unit) * unit == x);
        }
        assert(significand(rate) * round53(n as nat) == x);
        assert(x as int / 0x80_0000 == n);
        assert(scaled(x, -23) == n);
    }
}

/// With the rate one a tree uses every feature, whatever the seed and the round.
pub proof fn law_rate_one_takes_every_feature(
    n_features: int,
    seed: u64,
    round: u64,
    r: Seq<FeatId>,
)
    requires
        0 <= n_features <= u32::MAX,
        is_sample(n_features, F32 { bits: ONE_BITS }, seed, round, r),
    ensures
        r == all_features(n_features),
{
    let n = n_features;
    let all = all_features(n);
    lemma_rate_one_counts_all(n);
    let order = draw_order(n, seed, round);
    assert(is_permutation(all, n));
    lemma_shuffle_is_permutation(all, start_state(seed, round), n - 1);
    lemma_permutation_holds_all(order, n);
    assert(order.take(n) =~= order);
    assert forall|f: FeatId| #[trigger] r.contains(f) <==> all.contains(f) by {
        if f < n {
            assert(all[f as int] == f);
            assert(order.contains(f));
        }
        if r.contains(f) {
            let w = choose|w: int| 0 <= w < r.len() && r[w] == f;
            assert(r[w] < n);
        }
        if all.contains(f) {
            let w = choose|w: int| 0 <= w < all.len() && all[w] == f;
        }
    }
    lemma_ascending_is_unique(r, all);
}

/// The places among the first `k` features of a block that are sampled, ascending.
pub open spec fn local_hits(sampled: Seq<FeatId>, feats: Seq<FeatId>, k: int) -> Seq<usize>
    decreases k,
{
    if k <= 0 {
        seq![]
    } else if sampled.contains(feats[k - 1]) {
        local_hits(sampled, feats, k - 1).push((k - 1) as usize)
    } else {
        local_hits(sampled, feats, k - 1)
    }
}

/// Of the first `k` blocks, those with a sampled feature, each with its sampled places.
pub open spec fn required(
    sampled: Seq<FeatId>,
    blocks: Seq<Vec<FeatId>>,
    k: int,
) -> Seq<(usize, Seq<usize>)>
    decreases k,
{
    if k <= 0 {
        seq![]
    } else {
        let hits = local_hits(sampled, blocks[k - 1]@, blocks[k - 1]@.len() as int);
        if hits.len() > 0 {
            required(sampled, blocks, k - 1).push(((k - 1) as usize, hits))
        } else {
            required(sampled, blocks, k - 1)
        }
    }
}

/// Is `f` among ascending numbers?
fn holds(sampled: &[FeatId], f: FeatId) -> (r: bool)
    requires
        ascending(sampled@),
    ensures
        r == sampled@.contains(f),
{
    let mut lo: usize = 0;
    let mut hi: usize = sampled.len();
    while lo < hi
        invariant
            ascending(sampled@),
            lo <= hi <= sampled@.len(),
            forall|i: int| 0 <= i < lo ==> sampled@[i] < f,
            forall|i: int| hi <= i < sampled@.len() ==> sampled@[i] > f,
        decreases hi - lo,
    {
        let mid: usize = lo + (hi - lo) / 2;
        let v: FeatId = sampled[mid];
        if v == f {
            assert(sampled@[mid as int] == f);
            return true;
        }
        if v < f {
            lo = mid + 1;
        } else {
            hi = mid;
        }
    }
    false
}

/// The blocks that have to be read for a sample, each with the places of its sampled
/// features. A block without a sampled feature is left out.
pub fn required_blocks(sampled: &[FeatId], block_features: &[Vec<FeatId>]) -> (r: Vec<
    (usize, Vec<usize>),
>)
    requires
        ascending(sampled@),
    ensures
        r.len() == required(sampled@, block_features@, block_features@.len() as int).len(),
        forall|q: int|
            0 <= q < r.len() ==> {
                let want = required(sampled@, block_features@, block_features@.len() as int)[q];
                (#[trigger] r[q]).0 == want.0 && r[q].1@ == want.1
            },
{
    let mut out: Vec<(usize, Vec<usize>)> = Vec::new();
    let mut b: usize = 0;
    while b < block_features.len()
        invariant
            ascending(sampled@),
            b <= block_features@.len(),
            out.len() == required(sampled@, block_features@, b as int).len(),
            forall|q: int|
                0 <= q < out.len() ==> {
                    let want = required(sampled@, block_features@, b as int)[q];
                    (#[trigger] out[q]).0 == want.0 && out[q].1@ == want.1
                },
        decreases block_features.len() - b,
    {
        let feats: &Vec<FeatId> = &block_features[b];
        let mut local: Vec<usize> = Vec::new();
        let mut i: usize = 0;
        while i < feats.len()
            invariant
                ascending(sampled@),
                i <= feats.len(),
                local@ == local_hits(sampled@, feats@, i as int),
            decreases feats.len() - i,
        {
            if holds(sampled, feats[i]) {
                local.push(i);
            }
            i += 1;
        }
        if local.len() > 0 {
            out.push((b, local));
        }
        b += 1;
    }
    out
}

/// Where a block starts when blocks are laid one after the other.
pub open spec fn block_start(blocks: Seq<Vec<FeatId>>, b: int) -> int
    decreases b,
{
    if b <= 0 {
        0
    } else {
        block_start(blocks, b - 1) + blocks[b - 1]@.len()
    }
}

/// The blocks hold the features 0, 1, 2, ... one after the other.
pub open spec fn consecutive(blocks: Seq<Vec<FeatId>>) -> bool {
    forall|b: int, i: int|
        0 <= b < blocks.len() && 0 <= i < blocks[b]@.len() ==> #[trigger] blocks[b]@[i]
            == block_start(blocks, b) + i
}

/// The features that required blocks and places stand for.
pub open spec fn resolve(
    req: Seq<(usize, Seq<usize>)>,
    blocks: Seq<Vec<FeatId>>,
) -> Seq<FeatId>
    decreases req.len(),
{
    if req.len() == 0 {
        seq![]
    } else {
        let (b, local) = req.last();
        resolve(req.drop_last(), blocks) + local.map_values(|i: usize| blocks[b as int]@[i as int])
    }
}

/// The numbers of an ascending sequence that are below `bound`.
pub open spec fn below(s: Seq<FeatId>, bound: int) -> Seq<FeatId>
    decreases s.len(),
{
    if s.len() == 0 {
        s
    } else if s.last() < bound {
        s
    } else {
        below(s.drop_last(), bound)
    }
}

proof fn lemma_below_step(s: Seq<FeatId>, f: FeatId)
    requires
        ascending(s),
    ensures
        below(s, f + 1) == if s.contains(f) {
            below(s, f as int).push(f)
        } else {
            below(s, f as int)
        },
    decreases s.len(),
{
    if s.len() > 0 {
        let rest = s.drop_last();
        assert(ascending(rest));
        lemma_below_step(rest, f);
        if s.last() < f {
            if s.contains(f) {
                let w = choose|w: int| 0 <= w < s.len() && s[w] == f;
                assert(s[w] <= s.last());
            }
        } else if s.last() == f {
            assert(s.contains(f));
            assert(forall|i: int| 0 <= i < rest.len() ==> rest[i] == s[i]);
            assert(below(rest, f as int) == rest);
            assert(rest.push(f) =~= s);
        } else {
            assert(s.contains(f) ==> rest.contains(f)) by {
                if s.contains(f) {
                    let w = choose|w: int| 0 <= w < s.len() && s[w] == f;
                    assert(rest[w] == f);
                }
            }
            assert(rest.contains(f) ==> s.contains(f)) by {
                if rest.contains(f) {
                    let w = choose|w: int| 0 <= w < rest.len() && rest[w] == f;
                    assert(s[w] == f);
                }
            }
        }
    }
}

proof fn lemma_below_zero(s: Seq<FeatId>)
    ensures
        below(s, 0) == Seq::<FeatId>::empty(),
    decreases s.len(),
{
    if s.len() > 0 {
        lemma_below_zero(s.drop_last());
    }
}

proof fn lemma_hits_of_block(sampled: Seq<FeatId>, blocks: Seq<Vec<FeatId>>, b: int, k: int)
    requires
        ascending(sampled),
        consecutive(blocks),
        0 <= b < blocks.len(),
        0 <= k <= blocks[b]@.len(),
        blocks[b]@.len() <= usize::MAX,
        0 <= block_start(blocks, b),
    ensures
        below(sampled, block_start(blocks, b)) + local_hits(sampled, blocks[b]@, k).map_values(
            |i: usize| blocks[b]@[i as int],
        ) == below(sampled, block_start(blocks, b) + k),
    decreases k,
{
    let start = block_start(blocks, b);
    let at = |i: usize| blocks[b]@[i as int];
    let head = below(sampled, start);
    if k == 0 {
        assert(head + Seq::<usize>::empty().map_values(at) =~= head);
    } else {
        lemma_hits_of_block(sampled, blocks, b, k - 1);
        let f = blocks[b]@[k - 1];
        assert(f == start + (k - 1));
        lemma_below_step(sampled, f);
        let prev = local_hits(sampled, blocks[b]@, k - 1);
        if sampled.contains(f) {
            assert(prev.push((k - 1) as usize).map_values(at) =~= prev.map_values(at).push(f));
            assert(head + prev.map_values(at).push(f) =~= (head + prev.map_values(at)).push(f));
        }
    }
}

proof fn lemma_required_prefix(sampled: Seq<FeatId>, blocks: Seq<Vec<FeatId>>, k: int)
    requires
        ascending(sampled),
        consecutive(blocks),
        0 <= k <= blocks.len(),
        blocks.len() <= usize::MAX,
        forall|b: int| 0 <= b < blocks.len() ==> (#[trigger] blocks[b])@.len() <= usize::MAX,
    ensures
        0 <= block_start(blocks, k),
        resolve(required(sampled, blocks, k), blocks) == below(sampled, block_start(blocks, k)),
    decreases k,
{
    if k == 0 {
        lemma_below_zero(sampled);
    } else {
        lemma_required_prefix(sampled, blocks, k - 1);
        let len = blocks[k - 1]@.len() as int;
        lemma_hits_of_block(sampled, blocks, k - 1, len);
        let hits = local_hits(sampled, blocks[k - 1]@, len);
        let at = |i: usize| blocks[k - 1]@[i as int];
        if hits.len() > 0 {
            let prev = required(sampled, blocks, k - 1);
            let now = prev.push(((k - 1) as usize, hits));
            assert(now.drop_last() =~= prev);
            assert(now.last() == ((k - 1) as usize, hits));
        } else {
            assert(hits.map_values(at) =~= Seq::<FeatId>::empty());
            assert(below(sampled, block_start(blocks, k - 1)) + Seq::<FeatId>::empty() =~= below(
                sampled,
                block_start(blocks, k - 1),
            ));
        }
    }
}

/// Whatever the block widths, the required blocks and places stand for exactly the sampled
/// features, in order.
pub proof fn law_required_blocks_do_not_depend_on_block_layout(
    sampled: Seq<FeatId>,
    blocks: Seq<Vec<FeatId>>,
)
    requires
        ascending(sampled),
        consecutive(blocks),
        forall|i: int| 0 <= i < sampled.len() ==> #[trigger] sampled[i] < block_start(
            blocks,
            blocks.len() as int,
        ),
        blocks.len() <= usize::MAX,
        forall|b: int| 0 <= b < blocks.len() ==> (#[trigger] blocks[b])@.len() <= usize::MAX,
    ensures
        resolve(required(sampled, blocks, blocks.len() as int), blocks) == sampled,
{
    lemma_required_prefix(sampled, blocks, blocks.len() as int);
}

/// Places within a block, in rising order.
pub open spec fn rising_places(s: Seq<usize>) -> bool {
    forall|i: int, j: int| 0 <= i < j < s.len() ==> #[trigger] s[i] < #[trigger] s[j]
}

proof fn lemma_local_hits(sampled: Seq<FeatId>, feats: Seq<FeatId>, k: int)
    requires
        0 <= k <= feats.len() <= usize::MAX,
    ensures
        rising_places(local_hits(sampled, feats, k)),
        forall|i: usize| #[trigger] local_hits(sampled, feats, k).contains(i) <==> i < k
            && sampled.contains(feats[i as int]),
    decreases k,
{
    if k > 0 {
        lemma_local_hits(sampled, feats, k - 1);
        let before = local_hits(sampled, feats, k - 1);
        let now = local_hits(sampled, feats, k);
        if sampled.contains(feats[k - 1]) {
            let last = (k - 1) as usize;
            assert(now == before.push(last));
            assert forall|i: int, j: int| 0 <= i < j < now.len() implies #[trigger] now[i]
                < #[trigger] now[j] by {
                assert(before.contains(before[i]));
                if j < before.len() {
                    assert(now[i] == before[i] && now[j] == before[j]);
                }
            }
            assert forall|i: usize| #[trigger] now.contains(i) <==> i < k && sampled.contains(
                feats[i as int],
            ) by {
                if before.contains(i) {
                    let w = choose|w: int| 0 <= w < before.len() && before[w] == i;
                    assert(now[w] == i);
                }
                if i == last {
                    assert(now[before.len() as int] == i);
                }
                if now.contains(i) {
                    let w = choose|w: int| 0 <= w < now.len() && now[w] == i;
                    if w < before.len() {
                        assert(before[w] == i);
                    }
                }
            }
        }
    }
}

/// The blocks that are read, among the first `k`: each holds a sampled feature, they rise, and
/// the places of each are exactly those of its sampled features, rising and never none. Every
/// block that holds a sampled feature is read.
pub proof fn law_required_blocks_are_those_with_sampled_features(
    sampled: Seq<FeatId>,
    blocks: Seq<Vec<FeatId>>,
    k: int,
)
    requires
        0 <= k <= blocks.len() <= usize::MAX,
        forall|b: int| 0 <= b < blocks.len() ==> (#[trigger] blocks[b])@.len() <= usize::MAX,
    ensures
        forall|p: int, q: int|
            0 <= p < q < required(sampled, blocks, k).len() ==> (#[trigger] required(
                sampled,
                blocks,
                k,
            )[p]).0 < (#[trigger] required(sampled, blocks, k)[q]).0,
        forall|q: int|
            0 <= q < required(sampled, blocks, k).len() ==> {
                let (b, places) = #[trigger] required(sampled, blocks, k)[q];
                &&& b < k
                &&& places.len() > 0
                &&& rising_places(places)
                &&& forall|i: usize| #[trigger] places.contains(i) <==> i < blocks[b as int]@.len()
                    && sampled.contains(blocks[b as int]@[i as int])
            },
        forall|b: int, i: int|
            0 <= b < k && 0 <= i < blocks[b]@.len() && sampled.contains(#[trigger] blocks[b]@[i])
                ==> exists|q: int|
                0 <= q < required(sampled, blocks, k).len() && (#[trigger] required(
                    sampled,
                    blocks,
                    k,
                )[q]).0 == b,
    decreases k,
{
    if k > 0 {
        law_required_blocks_are_those_with_sampled_features(sampled, blocks, k - 1);
        let before = required(sampled, blocks, k - 1);
        let now = required(sampled, blocks, k);
        let feats = blocks[k - 1]@;
        let hits = local_hits(sampled, feats, feats.len() as int);
        lemma_local_hits(sampled, feats, feats.len() as int);
        law_block_without_hits_has_no_sampled_feature(sampled, feats, feats.len() as int);
        assert forall|q: int| 0 <= q < now.len() implies {
            let (b, places) = #[trigger] now[q];
            &&& b < k
            &&& places.len() > 0
            &&& rising_places(places)
            &&& forall|i: usize| #[trigger] places.contains(i) <==> i < blocks[b as int]@.len()
                && sampled.contains(blocks[b as int]@[i as int])
        } by {
            if q < before.len() {
                assert(now[q] == before[q]);
            } else {
                assert(now[q] == ((k - 1) as usize, hits));
            }
        }
        assert forall|p: int, q: int| 0 <= p < q < now.len() implies (#[trigger] now[p]).0 < (
        #[trigger] now[q]).0 by {
            assert(now[p] == before[p]);
            if q < before.len() {
                assert(now[q] == before[q]);
            }
        }
        assert forall|b: int, i: int|
            0 <= b < k && 0 <= i < blocks[b]@.len() && sampled.contains(
                #[trigger] blocks[b]@[i],
            ) implies exists|q: int| 0 <= q < now.len() && (#[trigger] now[q]).0 == b by {
            if b < k - 1 {
                let q = choose|q: int| 0 <= q < before.len() && (#[trigger] before[q]).0 == b;
                assert(now[q] == before[q]);
            } else {
                assert(hits.len() > 0);
                assert(now[before.len() as int].0 == b);
            }
        }
    }
}

proof fn lemma_partition_starts(n: int, width: int, blocks: Seq<Vec<FeatId>>, b: int)
    requires
        0 <= n,
        0 < width,
        blocks.len() == ceil_div(n, width),
        forall|c: int|
            0 <= c < blocks.len() ==> (#[trigger] blocks[c])@ == block_feats(n, width, c),
        0 <= b <= blocks.len(),
    ensures
        block_start(blocks, b) == imin(b * width, n),
    decreases b,
{
    if b > 0 {
        lemma_partition_starts(n, width, blocks, b - 1);
        lemma_ceil_div(n, width);
        assert((b - 1) * width <= (blocks.len() - 1) * width) by (nonlinear_arith)
            requires
                b <= blocks.len(),
                0 < width,
        ;
        assert(b * width == (b - 1) * width + width) by (nonlinear_arith);
        assert(blocks[b - 1]@ == block_feats(n, width, b - 1));
    } else {
        assert(b * width == 0) by (nonlinear_arith)
            requires
                b == 0,
        ;
    }
}

/// Whatever the width of the blocks that the features are cut into, reading the required blocks
/// at their places gives back the sampled features, in order.
pub proof fn law_sample_does_not_depend_on_block_width(
    sampled: Seq<FeatId>,
    n_features: int,
    width: int,
    blocks: Seq<Vec<FeatId>>,
)
    requires
        ascending(sampled),
        forall|i: int| 0 <= i < sampled.len() ==> #[trigger] sampled[i] < n_features,
        0 <= n_features <= u32::MAX,
        0 < width,
        blocks.len() <= usize::MAX,
        blocks.len() == ceil_div(n_features, width),
        forall|b: int|
            0 <= b < blocks.len() ==> (#[trigger] blocks[b])@ == block_feats(n_features, width, b),
    ensures
        resolve(required(sampled, blocks, blocks.len() as int), blocks) == sampled,
{
    let m = blocks.len() as int;
    lemma_ceil_div(n_features, width);
    assert forall|b: int, i: int| 0 <= b < m && 0 <= i < blocks[b]@.len() implies (
    #[trigger] blocks[b]@[i]) == block_start(blocks, b) + i by {
        lemma_partition_starts(n_features, width, blocks, b);
        assert(b * width <= (m - 1) * width) by (nonlinear_arith)
            requires
                b <= m - 1,
                0 < width,
        ;
        assert(0 <= b * width) by (nonlinear_arith)
            requires
                0 <= b,
                0 < width,
        ;
        assert(blocks[b]@ == block_feats(n_features, width, b));
    }
    lemma_partition_starts(n_features, width, blocks, m);
    assert forall|b: int| 0 <= b < blocks.len() implies (#[trigger] blocks[b])@.len()
        <= usize::MAX by {
        assert(blocks[b].len() == blocks[b]@.len());
    }
    law_required_blocks_do_not_depend_on_block_layout(sampled, blocks);
}

/// A block is left out exactly when none of its features is sampled.
pub proof fn law_block_without_hits_has_no_sampled_feature(
    sampled: Seq<FeatId>,
    feats: Seq<FeatId>,
    k: int,
)
    requires
        0 <= k <= feats.len(),
    ensures
        local_hits(sampled, feats, k).len() == 0 <==> forall|i: int|
            0 <= i < k ==> !sampled.contains(#[trigger] feats[i]),
    decreases k,
{
    if k > 0 {
        law_block_without_hits_has_no_sampled_feature(sampled, feats, k - 1);
    }
}

// ---- what the draws are ----

proof fn lemma_product_undone(x: u64, c: u64, inverse: u64, q: int)
    requires
        (c as int) * (inverse as int) == 1 + two64() * q,
    ensures
        x.wrapping_mul(c).wrapping_mul(inverse) == x,
{
    let m = two64();
    let y = x.wrapping_mul(c);
    assert(y == (x * c) % m);
    assert(y.wrapping_mul(inverse) == (y * inverse) % m);
    vstd::arithmetic::div_mod::lemma_mul_mod_noop_left(x * c, inverse as int, m);
    assert((x * c) * inverse == m * (x * q) + x) by (nonlinear_arith)
        requires
            (c as int) * (inverse as int) == 1 + m * q,
    ;
    vstd::arithmetic::div_mod::lemma_mod_multiples_vanish(x * q, x as int, m);
    vstd::arithmetic::div_mod::lemma_small_mod(x as nat, m as nat);
}

/// The state in which the generator puts out `v`.
spec fn unmix(v: u64) -> u64 {
    let b = v ^ (v >> 31u64) ^ (v >> 62u64);
    let c = b.wrapping_mul(0x3196_42B2_D24D_8EC3);
    let a = c ^ (c >> 27u64) ^ (c >> 54u64);
    let d = a.wrapping_mul(0x96DE_1B17_3F11_9089);
    d ^ (d >> 30u64) ^ (d >> 60u64)
}

proof fn lemma_unmix(v: u64)
    ensures
        mix(unmix(v)) == v,
{
    let b = v ^ (v >> 31u64) ^ (v >> 62u64);
    assert(b ^ (b >> 31u64) == v) by (bit_vector)
        requires
            b == v ^ (v >> 31u64) ^ (v >> 62u64),
    ;
    let c = b.wrapping_mul(0x3196_42B2_D24D_8EC3);
    assert(0x3196_42B2_D24D_8EC3int * 0x94D0_49BB_1331_11EBint == 1 + two64()
        * 2077064247507883091int);
    lemma_product_undone(b, 0x3196_42B2_D24D_8EC3, 0x94D0_49BB_1331_11EB, 2077064247507883091);
    let a = c ^ (c >> 27u64) ^ (c >> 54u64);
    assert(a ^ (a >> 27u64) == c) by (bit_vector)
        requires
            a == c ^ (c >> 27u64) ^ (c >> 54u64),
    ;
    let d = a.wrapping_mul(0x96DE_1B17_3F11_9089);
    assert(0x96DE_1B17_3F11_9089int * 0xBF58_476D_1CE4_E5B9int == 1 + two64()
        * 8125545580553827436int);
    lemma_product_undone(a, 0x96DE_1B17_3F11_9089, 0xBF58_476D_1CE4_E5B9, 8125545580553827436);
    let s = d ^ (d >> 30u64) ^ (d >> 60u64);
    assert(s ^ (s >> 30u64) == d) by (bit_vector)
        requires
            s == d ^ (d >> 30u64) ^ (d >> 60u64),
    ;
}

proof fn lemma_remix(s: u64)
    ensures
        unmix(mix(s)) == s,
{
    let d = s ^ (s >> 30u64);
    let a = d.wrapping_mul(0xBF58_476D_1CE4_E5B9);
    let c = a ^ (a >> 27u64);
    let b = c.wrapping_mul(0x94D0_49BB_1331_11EB);
    let v = b ^ (b >> 31u64);
    assert(v ^ (v >> 31u64) ^ (v >> 62u64) == b) by (bit_vector)
        requires
            v == b ^ (b >> 31u64),
    ;
    assert(0x94D0_49BB_1331_11EBint * 0x3196_42B2_D24D_8EC3int == 1 + two64()
        * 2077064247507883091int);
    lemma_product_undone(c, 0x94D0_49BB_1331_11EB, 0x3196_42B2_D24D_8EC3, 2077064247507883091);
    assert(c ^ (c >> 27u64) ^ (c >> 54u64) == a) by (bit_vector)
        requires
            c == a ^ (a >> 27u64),
    ;
    assert(0xBF58_476D_1CE4_E5B9int * 0x96DE_1B17_3F11_9089int == 1 + two64()
        * 8125545580553827436int);
    lemma_product_undone(d, 0xBF58_476D_1CE4_E5B9, 0x96DE_1B17_3F11_9089, 8125545580553827436);
    assert(d ^ (d >> 30u64) ^ (d >> 60u64) == s) by (bit_vector)
        requires
            d == s ^ (s >> 30u64),
    ;
}

/// The generator comes by every output, each from one state: two states never have the same
/// output, and for every output there is a state from which it comes next.
pub proof fn law_every_output_comes_from_one_state(a: u64, b: u64, v: u64)
    ensures
        mix(a) == mix(b) ==> a == b,
        exists|s: u64| mix(#[trigger] next_state(s)) == v,
{
    lemma_remix(a);
    lemma_remix(b);
    lemma_unmix(v);
    let s = unmix(v).wrapping_sub(GAMMA);
    assert(next_state(s) == unmix(v));
}

/// How many outputs a draw below `n` accepts for each number.
pub open spec fn shares(n: u64) -> int {
    u64::MAX as int / n as int
}

proof fn lemma_zone(n: u64)
    requires
        n > 0,
    ensures
        zone(n) + 1 == n * shares(n),
        shares(n) >= 1,
        two64() - n <= n * shares(n) < two64(),
{
    vstd::arithmetic::div_mod::lemma_fundamental_div_mod(u64::MAX as int, n as int);
    vstd::arithmetic::div_mod::lemma_mod_bound(u64::MAX as int, n as int);
    let q = shares(n);
    assert(q >= 1) by (nonlinear_arith)
        requires
            u64::MAX == n * q + (u64::MAX as int) % (n as int),
            (u64::MAX as int) % (n as int) < n,
            0 < n <= u64::MAX,
    ;
}

/// A draw below `n` is fair: every number below `n` is the answer to equally many outputs of the
/// generator, and each of those comes from some state. Fewer outputs than `n`, or as many, are
/// passed over.
pub proof fn law_every_number_is_drawn_equally_often(n: u64, j: int, q: int)
    requires
        n > 0,
        0 <= j < n,
        0 <= q < shares(n),
    ensures
        two64() - n <= n * shares(n),
        exists|s: u64|
            mix(#[trigger] next_state(s)) == q * n + j && draw(s, n) == (j as u64, next_state(s)),
{
    lemma_zone(n);
    let v = q * n + j;
    let m = shares(n);
    assert(0 <= v < n * m) by (nonlinear_arith)
        requires
            0 <= j < n,
            0 <= q < m,
            v == q * n + j,
    ;
    law_every_output_comes_from_one_state(0, 0, v as u64);
    let s = choose|s: u64| mix(#[trigger] next_state(s)) == v as u64;
    assert(v % (n as int) == j) by {
        assert(v == n * q + j) by (nonlinear_arith)
            requires
                v == q * n + j,
        ;
        vstd::arithmetic::div_mod::lemma_fundamental_div_mod_converse(v, n as int, q, j);
    }
    assert(draw(s, n) == ((v as u64) % n, next_state(s)));
}

/// A draw takes the first output that is accepted, and nothing else of the generator.
pub proof fn law_draw_takes_the_first_accepted_output(s: u64, n: u64)
    requires
        n > 0,
    ensures
        ({
            let t = next_state(s);
            if mix(t) < n * shares(n) {
                draw(s, n) == ((mix(t) as int % n as int) as u64, t)
            } else {
                draw(s, n) == draw(t, n)
            }
        }),
{
    lemma_zone(n);
}

/// Different trees draw apart: with one seed, different rounds start the generator in different
/// states, and in one round different seeds do.
pub proof fn law_rounds_and_seeds_start_apart(seed: u64, other: u64, a: u64, b: u64)
    ensures
        start_state(seed, a) == start_state(seed, b) ==> a == b,
        start_state(seed, a) == start_state(other, a) ==> seed == other,
{
    let x = a.wrapping_mul(GAMMA);
    let y = b.wrapping_mul(GAMMA);
    assert((x << 17u64) | (x >> 47u64) == (y << 17u64) | (y >> 47u64) ==> x == y) by (bit_vector);
    let rx = (x << 17u64) | (x >> 47u64);
    let ry = (y << 17u64) | (y >> 47u64);
    assert(seed ^ rx == seed ^ ry ==> rx == ry) by (bit_vector);
    assert(seed ^ rx == other ^ rx ==> seed == other) by (bit_vector);
    let q = 10771413168148108919int;
    assert((GAMMA as int) * (GAMMA_INVERSE as int) == 1 + two64() * q);
    lemma_product_undone(a, GAMMA, GAMMA_INVERSE, q);
    lemma_product_undone(b, GAMMA, GAMMA_INVERSE, q);
}

/// In every round every state of the generator is the start for some seed.
pub proof fn law_every_start_has_its_seed(round: u64, t: u64)
    ensures
        exists|seed: u64| #[trigger] start_state(seed, round) == t,
{
    let x = round.wrapping_mul(GAMMA);
    let rx = (x << 17u64) | (x >> 47u64);
    let z = t ^ rx;
    assert(z ^ rx == t) by (bit_vector)
        requires
            z == t ^ rx,
    ;
    assert(start_state(z, round) == t);
}

proof fn lemma_places_above_stay(ids: Seq<FeatId>, s: u64, i: int, k: int)
    requires
        i < k < ids.len(),
        ids.len() <= u32::MAX,
    ensures
        shuffled_from(ids, s, i)[k] == ids[k],
        shuffled_from(ids, s, i).len() == ids.len(),
    decreases i,
{
    if i > 0 {
        let n = (i + 1) as u64;
        lemma_draw_bound(s, n);
        let (j, t) = draw(s, n);
        lemma_places_above_stay(swapped(ids, i, j as int), t, i - 1, k);
    }
}

/// The shuffle settles the last place first, by a draw among all features that are left: the
/// feature at the drawn place goes there for good. Every one of them is put there for equally many
/// outputs of the generator.
pub proof fn law_every_feature_can_come_last(ids: Seq<FeatId>, i: int, j: int, q: int)
    requires
        0 < i < ids.len(),
        ids.len() <= u32::MAX,
        0 <= j <= i,
        0 <= q < shares((i + 1) as u64),
    ensures
        exists|s: u64|
            mix(#[trigger] next_state(s)) == q * (i + 1) + j && shuffled_from(ids, s, i)[i]
                == ids[j],
{
    let n = (i + 1) as u64;
    law_every_number_is_drawn_equally_often(n, j, q);
    let s = choose|s: u64|
        mix(#[trigger] next_state(s)) == q * n + j && draw(s, n) == (j as u64, next_state(s));
    lemma_places_above_stay(swapped(ids, i, j), next_state(s), i - 1, i);
    assert(mix(next_state(s)) == q * (i + 1) + j && shuffled_from(ids, s, i)[i] == ids[j]);
}

/// No feature is in every sample: whatever the rate, as long as it leaves some feature out, each
/// feature is left out for some seed in every round.
pub proof fn law_no_feature_is_in_every_sample(n: int, rate: F32, round: u64, f: FeatId)
    requires
        f < n <= u32::MAX,
        sampled_count_spec(n, rate) < n,
    ensures
        exists|seed: u64| #[trigger] leaves_out(n, rate, seed, round, f),
{
    let all = all_features(n);
    let take = sampled_count_spec(n, rate);
    if n > 1 {
        let m = n as u64;
        lemma_zone(m);
        law_every_feature_can_come_last(all, n - 1, f as int, 0);
        let s = choose|s: u64|
            mix(#[trigger] next_state(s)) == 0 * n + f as int && shuffled_from(all, s, n - 1)[n - 1]
                == all[f as int];
        law_every_start_has_its_seed(round, s);
        let seed = choose|seed: u64| #[trigger] start_state(seed, round) == s;
        let order = draw_order(n, seed, round);
        assert(is_permutation(all, n));
        lemma_shuffle_is_permutation(all, s, n - 1);
        assert(order[n - 1] == f);
        assert forall|r: Seq<FeatId>| #[trigger] is_sample(n, rate, seed, round, r) implies
            !r.contains(f) by {
            if r.contains(f) {
                assert(order.take(take).contains(f));
                let w = choose|w: int| 0 <= w < take && order.take(take)[w] == f;
                assert(order[w] == f && order[n - 1] == f);
                assert(w == n - 1);
            }
        }
        assert(leaves_out(n, rate, seed, round, f));
    }
}

/// The sample of a tree does not hold a feature.
pub open spec fn leaves_out(n: int, rate: F32, seed: u64, round: u64, f: FeatId) -> bool {
    forall|r: Seq<FeatId>| #[trigger] is_sample(n, rate, seed, round, r) ==> !r.contains(f)
}

/// The draws of a shuffle from place `i` down are these: `picks[k]` is the one for place `k`.
pub open spec fn draws_are(s: u64, i: int, picks: Seq<int>) -> bool
    decreases i,
{
    i <= 0 || {
        let (j, t) = draw(s, (i + 1) as u64);
        j == picks[i] && draws_are(t, i - 1, picks)
    }
}

/// The draws lead to this order, from whatever state they come.
pub open spec fn lead_to(ids: Seq<FeatId>, i: int, picks: Seq<int>, order: Seq<FeatId>) -> bool {
    &&& picks.len() == ids.len()
    &&& forall|k: int| 1 <= k <= i ==> 0 <= (#[trigger] picks[k]) <= k
    &&& forall|s: u64| #[trigger] draws_are(s, i, picks) ==> shuffled_from(ids, s, i) == order
}

/// Every order of the features is one that a shuffle can give: there are draws, one among the
/// places up to each, that lead to it.
pub proof fn law_every_order_has_its_draws(ids: Seq<FeatId>, i: int, order: Seq<FeatId>)
    requires
        is_permutation(ids, ids.len() as int),
        is_permutation(order, ids.len() as int),
        i < ids.len() <= u32::MAX,
        forall|k: int| 0 <= k < ids.len() && k > i ==> #[trigger] order[k] == ids[k],
    ensures
        exists|picks: Seq<int>| #[trigger] lead_to(ids, i, picks, order),
    decreases i,
{
    let n = ids.len() as int;
    if i <= 0 {
        let picks = Seq::new(n as nat, |k: int| 0int);
        if n > 0 {
            lemma_permutation_holds_all(ids, n);
            assert(order[0] < n);
            assert(ids.contains(order[0]));
            let w = choose|w: int| 0 <= w < n && ids[w] == order[0];
            if w > 0 {
                assert(order[w] == ids[w]);
            }
            assert(order =~= ids) by {
                assert forall|k: int| 0 <= k < n implies order[k] == ids[k] by {
                    if k > 0 {
                        assert(order[k] == ids[k]);
                    }
                }
            }
        } else {
            assert(order =~= ids);
        }
        assert(lead_to(ids, i, picks, order));
    } else {
        lemma_permutation_holds_all(ids, n);
        assert(order[i] < n);
        assert(ids.contains(order[i]));
        let j = choose|j: int| 0 <= j < n && ids[j] == order[i];
        if j > i {
            assert(order[j] == ids[j]);
            assert(false);
        }
        let next = swapped(ids, i, j);
        lemma_swap_keeps_permutation(ids, n, i, j);
        assert forall|k: int| 0 <= k < n && k > i - 1 implies #[trigger] order[k] == next[k] by {
            if k > i {
                assert(order[k] == ids[k]);
            }
        }
        law_every_order_has_its_draws(next, i - 1, order);
        let rest = choose|picks: Seq<int>| #[trigger] lead_to(next, i - 1, picks, order);
        let picks = rest.update(i, j);
        assert forall|k: int| 1 <= k <= i implies 0 <= (#[trigger] picks[k]) <= k by {
            if k < i {
                assert(picks[k] == rest[k]);
            }
        }
        assert forall|s: u64| #[trigger] draws_are(s, i, picks) implies shuffled_from(ids, s, i)
            == order by {
            let (p, t) = draw(s, (i + 1) as u64);
            assert(p == j);
            lemma_same_picks(t, i - 1, picks, rest);
            assert(draws_are(t, i - 1, rest));
        }
        assert(lead_to(ids, i, picks, order));
    }
}

/// Every feature can be sampled: there are draws, one among the places up to each, with which every
/// tree uses it.
pub proof fn law_every_feature_can_be_sampled(n: int, rate: F32, f: FeatId)
    requires
        f < n <= u32::MAX,
    ensures
        exists|picks: Seq<int>| #[trigger] bring_in(n, rate, picks, f),
{
    let all = all_features(n);
    assert(is_permutation(all, n));
    let order = swapped(all, 0, f as int);
    lemma_swap_keeps_permutation(all, n, 0, f as int);
    law_every_order_has_its_draws(all, n - 1, order);
    let picks = choose|picks: Seq<int>| #[trigger] lead_to(all, n - 1, picks, order);
    assert(sampled_count_spec(n, rate) >= 1);
    assert(sampled_count_spec(n, rate) <= n);
    assert forall|seed: u64, round: u64, r: Seq<FeatId>|
        draws_are(start_state(seed, round), n - 1, picks) && #[trigger] is_sample(
            n,
            rate,
            seed,
            round,
            r,
        ) implies r.contains(f) by {
        let take = sampled_count_spec(n, rate);
        assert(draw_order(n, seed, round) == order);
        assert(order.take(take)[0] == f);
        assert(order.take(take).contains(f));
    }
    assert(bring_in(n, rate, picks, f));
}

/// The draws are among the places up to each, and a tree that has them uses the feature.
pub open spec fn bring_in(n: int, rate: F32, picks: Seq<int>, f: FeatId) -> bool {
    &&& picks.len() == n
    &&& forall|k: int| 1 <= k < n ==> 0 <= (#[trigger] picks[k]) <= k
    &&& forall|seed: u64, round: u64, r: Seq<FeatId>|
        draws_are(start_state(seed, round), n - 1, picks) && #[trigger] is_sample(
            n,
            rate,
            seed,
            round,
            r,
        ) ==> r.contains(f)
}

proof fn lemma_same_picks(s: u64, i: int, a: Seq<int>, b: Seq<int>)
    requires
        i < a.len(),
        a.len() == b.len(),
        forall|k: int| 1 <= k <= i ==> a[k] == b[k],
    ensures
        draws_are(s, i, a) == draws_are(s, i, b),
    decreases i,
{
    if i > 0 {
        lemma_same_picks(draw(s, (i + 1) as u64).1, i - 1, a, b);
    }
}

proof fn lemma_count_is_exact(n: int, rate: F32)
    requires
        0 < n < 0x2000_0000,
        rate.bits < INF_MAGNITUDE,
    ensures
        ({
            let x = (significand(rate) * n) as nat;
            &&& x < 0x20_0000_0000_0000
            &&& sampled_count_spec(n, rate) == iclamp(scaled(x, exponent(rate)), 1, n)
            &&& value_of(rate) == significand(rate) * pow2((exponent(rate) + 149) as nat)
            &&& -149 <= exponent(rate) < 128
        }),
{
    let sig = significand(rate) as int;
    let x = (sig * n) as nat;
    vstd::arithmetic::power2::lemma2_to64();
    assert(0 <= sig < 0x100_0000);
    assert(0 <= sig * n < 0x100_0000 * 0x2000_0000) by (nonlinear_arith)
        requires
            0 <= sig < 0x100_0000,
            0 < n < 0x2000_0000,
    ;
    assert(excess_bits(n as nat) == 0 && round53(n as nat) == n);
    assert(excess_bits(x) == 0 && round53(x) == x);
    assert((significand(rate) * round53(n as nat)) as nat == x);
    let m = rate.bits as int;
    let e = m / 0x80_0000;
    assert(rate.magnitude() == m);
    assert(e < 255);
    if e == 0 {
        assert(sig == m % 0x80_0000);
        assert(sig * pow2(0) == sig) by (nonlinear_arith)
            requires
                pow2(0) == 1,
        ;
        assert(value_of(rate) == sig);
    } else {
        assert(sig == 0x80_0000 + m % 0x80_0000);
        assert(value_of(rate) == sig * pow2((e - 1) as nat));
    }
}

/// A rate is the share of the features that a tree uses: so many as the rate times the number of
/// features holds whole ones, but at least one and at most all. What is negative, infinite or not
/// a number selects one.
pub proof fn law_rate_is_the_share_of_features(n: int, rate: F32)
    requires
        0 < n < 0x2000_0000,
    ensures
        ({
            let c = sampled_count_spec(n, rate);
            let one = pow2(149) as int;
            let share = n * value_of(rate);
            &&& 1 <= c <= n
            &&& rate.bits >= INF_MAGNITUDE ==> c == 1
            &&& rate.bits < INF_MAGNITUDE ==> {
                &&& c == 1 || c * one <= share
                &&& c == n || share < (c + 1) * one
            }
        }),
{
    if rate.bits < INF_MAGNITUDE {
        lemma_count_is_exact(n, rate);
        let sig = significand(rate) as int;
        let k = exponent(rate);
        let x = (sig * n) as nat;
        let p = pow2((k + 149) as nat) as int;
        let one = pow2(149) as int;
        vstd::arithmetic::power2::lemma_pow2_pos((k + 149) as nat);
        assert(n * value_of(rate) == x * p) by (nonlinear_arith)
            requires
                value_of(rate) == sig * p,
                x == sig * n,
        ;
        let w = scaled(x, k);
        if k >= 0 {
            let u = pow2(k as nat) as int;
            vstd::arithmetic::power2::lemma_pow2_adds(k as nat, 149);
            assert(p == u * one);
            assert(x * (u * one) == (x * u) * one) by (nonlinear_arith);
            assert(w * one == n * value_of(rate));
            vstd::arithmetic::power2::lemma_pow2_pos(149);
            assert((w + 1) * one == w * one + one) by (nonlinear_arith);
            lemma_clamped(w, n, one, w * one);
        } else {
            let d = pow2((-k) as nat) as int;
            vstd::arithmetic::power2::lemma_pow2_pos((-k) as nat);
            vstd::arithmetic::power2::lemma_pow2_adds((-k) as nat, (k + 149) as nat);
            assert(one == d * p);
            vstd::arithmetic::div_mod::lemma_fundamental_div_mod(x as int, d);
            vstd::arithmetic::div_mod::lemma_mod_bound(x as int, d);
            assert(w == x as int / d);
            assert(w * (d * p) <= x * p) by (nonlinear_arith)
                requires
                    x == d * w + (x as int) % d,
                    0 <= (x as int) % d,
                    p > 0,
            ;
            assert(x * p < (w + 1) * (d * p)) by (nonlinear_arith)
                requires
                    x == d * w + (x as int) % d,
                    (x as int) % d < d,
                    p > 0,
            ;
            vstd::arithmetic::power2::lemma_pow2_pos(149);
            lemma_clamped(w, n, one, x * p);
        }
    }
}

proof fn lemma_clamped(w: int, n: int, one: int, share: int)
    requires
        n >= 1,
        one > 0,
        w * one <= share < (w + 1) * one,
    ensures
        ({
            let c = iclamp(w, 1, n);
            &&& 1 <= c <= n
            &&& c == 1 || c * one <= share
            &&& c == n || share < (c + 1) * one
        }),
{
    let c = iclamp(w, 1, n);
    if w > n {
        assert(n * one <= w * one) by (nonlinear_arith)
            requires
                n <= w,
                one > 0,
        ;
    }
    if w < 1 {
        assert((w + 1) * one <= 2 * one) by (nonlinear_arith)
            requires
                w < 1,
                one > 0,
        ;
    }
}

} // verus!
