//! Single-precision numbers as bit patterns, with their order.
//!
//! Everything the library decides about a feature value is an order question: is it
//! missing, does it lie below a cut or a split threshold. The order of two IEEE-754
//! single-precision numbers is the order of their sign-and-magnitude bit patterns, with
//! both zeros equal and NaN unordered, so it is decided on integers.
use vstd::arithmetic::power2::pow2;
use vstd::prelude::*;

verus! {

/// The bit that holds the sign.
pub const SIGN_BIT: u32 = 0x8000_0000;

/// The magnitude bits of infinity; anything above is NaN.
pub const INF_MAGNITUDE: u32 = 0x7F80_0000;

/// The bits of the NaN that stands for all.
pub const NAN_BITS: u32 = 0x7FC0_0000;

/// A single-precision number, kept as its bit pattern.
#[derive(Clone, Copy, Debug, PartialEq, Eq, Structural)]
pub struct F32 {
    pub bits: u32,
}

impl F32 {
    /// The bits below the sign.
    pub open spec fn magnitude(self) -> int {
        if self.bits >= SIGN_BIT {
            self.bits - SIGN_BIT
        } else {
            self.bits as int
        }
    }

    /// Not a number.
    pub open spec fn nan(self) -> bool {
        self.magnitude() > INF_MAGNITUDE
    }

    /// Neither infinite nor NaN.
    pub open spec fn finite(self) -> bool {
        self.magnitude() < INF_MAGNITUDE
    }

    /// The same number: the same bits, or both NaN. Which NaN arithmetic gives is not settled by
    /// its operands, so no rule looks further.
    pub open spec fn alike(self, other: F32) -> bool {
        self == other || (self.nan() && other.nan())
    }

    /// The number, with one NaN for all.
    pub open spec fn spec_settled(self) -> F32 {
        if self.nan() {
            F32 { bits: NAN_BITS }
        } else {
            self
        }
    }

    /// A key that orders numbers as their values do; both zeros map to 0.
    pub open spec fn key(self) -> int {
        if self.bits >= SIGN_BIT {
            -self.magnitude()
        } else {
            self.magnitude()
        }
    }

    /// `self < other` on values; false where either is NaN.
    pub open spec fn lt(self, other: F32) -> bool {
        !self.nan() && !other.nan() && self.key() < other.key()
    }

    /// `self <= other` on values; false where either is NaN.
    pub open spec fn le(self, other: F32) -> bool {
        !self.nan() && !other.nan() && self.key() <= other.key()
    }

    /// The number with this bit pattern.
    pub fn from_bits(bits: u32) -> (r: F32)
        ensures
            r.bits == bits,
    {
        F32 { bits }
    }

    /// The bit pattern.
    pub fn to_bits(self) -> (bits: u32)
        ensures
            bits == self.bits,
    {
        self.bits
    }

    fn mag(self) -> (m: u32)
        ensures
            m == self.magnitude(),
    {
        if self.bits >= SIGN_BIT {
            self.bits - SIGN_BIT
        } else {
            self.bits
        }
    }

    /// Is it NaN?
    pub fn is_nan(self) -> (r: bool)
        ensures
            r == self.nan(),
    {
        self.mag() > INF_MAGNITUDE
    }

    /// The number, with one NaN for all.
    pub fn settled(self) -> (r: F32)
        ensures
            r == self.spec_settled(),
    {
        if self.is_nan() {
            F32 { bits: NAN_BITS }
        } else {
            self
        }
    }

    /// Is it neither infinite nor NaN?
    pub fn is_finite(self) -> (r: bool)
        ensures
            r == self.finite(),
    {
        self.mag() < INF_MAGNITUDE
    }

    fn order_key(self) -> (k: i64)
        ensures
            k == self.key(),
    {
        let m: u32 = self.mag();
        if self.bits >= SIGN_BIT {
            0i64 - (m as i64)
        } else {
            m as i64
        }
    }

    /// Is `self < other`?
    pub fn less(self, other: F32) -> (r: bool)
        ensures
            r == self.lt(other),
    {
        !self.is_nan() && !other.is_nan() && self.order_key() < other.order_key()
    }

    /// Is `self <= other`?
    pub fn less_eq(self, other: F32) -> (r: bool)
        ensures
            r == self.le(other),
    {
        !self.is_nan() && !other.is_nan() && self.order_key() <= other.order_key()
    }
}

/// Every number is finite and larger than the one before.
pub open spec fn strictly_increasing(s: Seq<F32>) -> bool {
    &&& forall|i: int| 0 <= i < s.len() ==> (#[trigger] s[i]).finite()
    &&& forall|i: int, j: int| 0 <= i < j < s.len() ==> (#[trigger] s[i]).key() < (#[trigger] s[j]).key()
}

/// The value with these magnitude bits, counted in the smallest positive number: eight bits of
/// exponent above 23 bits of fraction, with a leading one that is not written down unless the
/// exponent is zero.
pub open spec fn units_of(magnitude: int) -> int {
    let exponent = magnitude / 0x80_0000;
    let fraction = magnitude % 0x80_0000;
    if exponent == 0 {
        fraction
    } else {
        (0x80_0000 + fraction) * pow2((exponent - 1) as nat)
    }
}

/// The value of a number, counted in the smallest positive number. Infinity counts as the power
/// of two that follows the largest number.
pub open spec fn value_of(x: F32) -> int {
    if x.bits < 0x8000_0000 {
        units_of(x.bits as int)
    } else {
        -units_of(x.bits - 0x8000_0000)
    }
}

proof fn lemma_units_rise(m: int)
    requires
        0 <= m < 0x7F80_0000,
    ensures
        0 <= units_of(m) < units_of(m + 1),
{
    let e = m / 0x80_0000;
    let f = m % 0x80_0000;
    vstd::arithmetic::power2::lemma2_to64();
    if e > 0 {
        let p = pow2((e - 1) as nat) as int;
        vstd::arithmetic::power2::lemma_pow2_pos((e - 1) as nat);
        assert((0x80_0000 + f) * p >= 0) by (nonlinear_arith)
            requires
                p > 0,
                f >= 0,
        ;
        if f < 0x7F_FFFF {
            assert((m + 1) / 0x80_0000 == e && (m + 1) % 0x80_0000 == f + 1);
            assert((0x80_0000 + f) * p < (0x80_0000 + (f + 1)) * p) by (nonlinear_arith)
                requires
                    p > 0,
            ;
        } else {
            assert((m + 1) / 0x80_0000 == e + 1 && (m + 1) % 0x80_0000 == 0);
            vstd::arithmetic::power2::lemma_pow2_unfold(e as nat);
            assert((0x80_0000 + f) * p < 0x80_0000 * (2 * p)) by (nonlinear_arith)
                requires
                    p > 0,
                    f == 0x7F_FFFF,
            ;
        }
    } else if f < 0x7F_FFFF {
        assert((m + 1) / 0x80_0000 == 0 && (m + 1) % 0x80_0000 == f + 1);
    } else {
        assert((m + 1) / 0x80_0000 == 1 && (m + 1) % 0x80_0000 == 0);
    }
}

proof fn lemma_units_ordered(a: int, b: int)
    requires
        0 <= a < b <= 0x7F80_0000,
    ensures
        0 <= units_of(a) < units_of(b),
    decreases b - a,
{
    lemma_units_rise(b - 1);
    if a < b - 1 {
        lemma_units_ordered(a, b - 1);
    }
}

/// Numbers are ordered by their values: one is below another exactly where its value is smaller,
/// both zeros are equal, and every number is compared with every other.
pub proof fn law_order_is_that_of_the_values(a: F32, b: F32)
    requires
        !a.nan(),
        !b.nan(),
    ensures
        a.lt(b) <==> value_of(a) < value_of(b),
        a.le(b) <==> value_of(a) <= value_of(b),
{
    let x = a.magnitude();
    let y = b.magnitude();
    assert(units_of(0) == 0);
    if x > 0 {
        lemma_units_ordered(0, x);
    }
    if y > 0 {
        lemma_units_ordered(0, y);
    }
    if x < y {
        lemma_units_ordered(x, y);
    } else if y < x {
        lemma_units_ordered(y, x);
    }
}

/// Not a number is what has all exponent bits set and some fraction bit; a number with another
/// exponent is finite. Nothing is below or above what is not a number.
pub proof fn law_what_is_not_a_number(x: F32, other: F32)
    ensures
        x.nan() <==> (x.bits / 0x80_0000) % 256 == 255 && x.bits % 0x80_0000 != 0,
        x.finite() <==> (x.bits / 0x80_0000) % 256 != 255,
        x.nan() ==> !x.lt(other) && !other.lt(x) && !x.le(other) && !other.le(x),
{
}

} // verus!
