//! Integer helpers shared by the planners.
use vstd::prelude::*;

verus! {

/// `ceil(a / b)` on mathematical integers.
pub open spec fn ceil_div(a: int, b: int) -> int {
    (a + b - 1) / b
}

/// The smaller of two integers.
pub open spec fn imin(a: int, b: int) -> int {
    if a <= b {
        a
    } else {
        b
    }
}

/// The larger of two integers.
pub open spec fn imax(a: int, b: int) -> int {
    if a >= b {
        a
    } else {
        b
    }
}

/// `x` forced into `[lo, hi]`.
pub open spec fn iclamp(x: int, lo: int, hi: int) -> int {
    if x < lo {
        lo
    } else if x > hi {
        hi
    } else {
        x
    }
}

/// A product that stops at the largest `u64`.
pub open spec fn sat_mul_spec(a: int, b: int) -> int {
    imin(a * b, u64::MAX as int)
}

/// `ceil_div(a, b)` is the least `q` with `q * b >= a`.
pub proof fn lemma_ceil_div(a: int, b: int)
    requires
        0 <= a,
        0 < b,
    ensures
        0 <= ceil_div(a, b) <= a,
        ceil_div(a, b) * b >= a,
        a > 0 ==> (ceil_div(a, b) - 1) * b < a,
        a > 0 ==> ceil_div(a, b) >= 1,
        (a % b == 0) ==> ceil_div(a, b) == a / b,
        (a % b != 0) ==> ceil_div(a, b) == a / b + 1,
{
    let q = a / b;
    let r = a % b;
    assert(a == q * b + r && 0 <= r < b) by {
        vstd::arithmetic::div_mod::lemma_fundamental_div_mod(a, b);
        assert(b * (a / b) == (a / b) * b) by (nonlinear_arith);
    }
    assert(q >= 0) by (nonlinear_arith)
        requires
            a == q * b + r,
            0 <= r < b,
            0 <= a,
            0 < b,
    ;
    if r == 0 {
        assert(a + b - 1 == q * b + (b - 1));
        vstd::arithmetic::div_mod::lemma_fundamental_div_mod_converse(a + b - 1, b, q, b - 1);
        assert(q <= a) by (nonlinear_arith)
            requires
                a == q * b,
                b >= 1,
                q >= 0,
        ;
        assert((q - 1) * b == q * b - b) by (nonlinear_arith);
        assert(a > 0 ==> q >= 1) by (nonlinear_arith)
            requires
                a == q * b,
                q >= 0,
        ;
    } else {
        assert((q + 1) * b == q * b + b) by (nonlinear_arith);
        assert(a + b - 1 == (q + 1) * b + (r - 1));
        vstd::arithmetic::div_mod::lemma_fundamental_div_mod_converse(a + b - 1, b, q + 1, r - 1);
        assert(q + 1 <= a) by (nonlinear_arith)
            requires
                a == q * b + r,
                b >= 1,
                q >= 0,
                r >= 1,
        ;
        assert((q + 1 - 1) * b == q * b);
    }
}

/// `ceil_div` is below `q` exactly when `q` pieces of width `b` cover `a`.
pub proof fn lemma_ceil_div_least(a: int, b: int, q: int)
    requires
        0 <= a,
        0 < b,
        0 <= q,
    ensures
        ceil_div(a, b) <= q <==> a <= q * b,
{
    lemma_ceil_div(a, b);
    let c = ceil_div(a, b);
    if a <= q * b {
        if c > q {
            assert((c - 1) * b >= q * b) by (nonlinear_arith)
                requires
                    c - 1 >= q,
                    b > 0,
            ;
            assert(a > 0);
        }
    } else {
        if c <= q {
            assert(c * b <= q * b) by (nonlinear_arith)
                requires
                    c <= q,
                    b > 0,
            ;
        }
    }
}

/// `ceil(a / b)` for `u64`.
pub fn div_ceil(a: u64, b: u64) -> (q: u64)
    requires
        b > 0,
    ensures
        q == ceil_div(a as int, b as int),
{
    proof {
        lemma_ceil_div(a as int, b as int);
    }
    if a % b == 0 {
        a / b
    } else {
        a / b + 1
    }
}

/// `ceil(a / b)` for `usize`.
pub fn div_ceil_usize(a: usize, b: usize) -> (q: usize)
    requires
        b > 0,
    ensures
        q == ceil_div(a as int, b as int),
{
    proof {
        lemma_ceil_div(a as int, b as int);
    }
    if a % b == 0 {
        a / b
    } else {
        a / b + 1
    }
}

/// The product, or `u64::MAX` where it does not fit.
pub fn sat_mul(a: u64, b: u64) -> (p: u64)
    ensures
        p == sat_mul_spec(a as int, b as int),
{
    match a.checked_mul(b) {
        Some(p) => p,
        None => u64::MAX,
    }
}

/// The smaller of two `u64`.
pub fn min_u64(a: u64, b: u64) -> (m: u64)
    ensures
        m == imin(a as int, b as int),
{
    if a <= b {
        a
    } else {
        b
    }
}

/// The larger of two `u64`.
pub fn max_u64(a: u64, b: u64) -> (m: u64)
    ensures
        m == imax(a as int, b as int),
{
    if a >= b {
        a
    } else {
        b
    }
}

/// The smaller of two `usize`.
pub fn min_usize(a: usize, b: usize) -> (m: usize)
    ensures
        m == imin(a as int, b as int),
{
    if a <= b {
        a
    } else {
        b
    }
}

/// The larger of two `usize`.
pub fn max_usize(a: usize, b: usize) -> (m: usize)
    ensures
        m == imax(a as int, b as int),
{
    if a >= b {
        a
    } else {
        b
    }
}

/// A whole number that may be too large for a machine word.
pub struct Total {
    word: Option<u64>,
    exact: Ghost<nat>,
}

impl Total {
    /// The number. The word adds nothing to it: it follows from the number, as `wf` says.
    pub closed spec fn view(&self) -> nat {
        self.exact@
    }

    /// The word is the number, and is missing where the number is larger than any word.
    pub closed spec fn wf(&self) -> bool {
        match self.word {
            Some(w) => w == self.exact@,
            None => self.exact@ > u64::MAX,
        }
    }

    /// A number that fits.
    pub fn of(n: u64) -> (t: Total)
        ensures
            t.wf(),
            t@ == n,
    {
        Total { word: Some(n), exact: Ghost(n as nat) }
    }

    /// The sum.
    pub fn plus(self, other: Total) -> (t: Total)
        requires
            self.wf(),
            other.wf(),
        ensures
            t.wf(),
            t@ == self@ + other@,
    {
        let word: Option<u64> = match (self.word, other.word) {
            (Some(a), Some(b)) => a.checked_add(b),
            _ => None,
        };
        Total { word, exact: Ghost(self.exact@ + other.exact@) }
    }

    /// The product with a number that fits.
    pub fn times(self, n: u64) -> (t: Total)
        requires
            self.wf(),
        ensures
            t.wf(),
            t@ == self@ * n,
    {
        proof {
            assert(n == 0 ==> self@ * n == 0) by (nonlinear_arith);
            assert(n >= 1 ==> self@ * n >= self@) by (nonlinear_arith);
        }
        let word: Option<u64> = if n == 0 {
            Some(0)
        } else {
            match self.word {
                Some(w) => w.checked_mul(n),
                None => None,
            }
        };
        Total { word, exact: Ghost((self.exact@ * n) as nat) }
    }

    /// The number, where it fits.
    pub fn get(&self) -> (r: Option<u64>)
        requires
            self.wf(),
        ensures
            match r {
                Some(w) => w == self@,
                None => self@ > u64::MAX,
            },
    {
        self.word
    }

    /// Does the number fit a `usize`?
    pub fn fits_usize(&self) -> (r: bool)
        requires
            self.wf(),
        ensures
            r == (self@ <= usize::MAX),
    {
        match self.word {
            Some(w) => w <= usize::MAX as u64,
            None => false,
        }
    }
}

} // verus!
