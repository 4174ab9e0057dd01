//! Numbers in words.
use vstd::prelude::*;
use vstd::string::*;

use crate::text::{all_digits, decimal_value, is_digit, parsed_u64, unsigned_part};

verus! {

/// The character of a digit.
pub open spec fn digit(k: int) -> char {
    (48 + k) as char
}

/// A number in decimal, without leading zeros.
pub open spec fn decimal(n: nat) -> Seq<char>
    decreases n,
{
    if n < 10 {
        seq![digit(n as int)]
    } else {
        decimal(n / 10).push(digit((n % 10) as int))
    }
}

/// The last `d` decimal digits of a number.
pub open spec fn padded(n: nat, d: nat) -> Seq<char>
    decreases d,
{
    if d == 0 {
        seq![]
    } else {
        padded(n / 10, (d - 1) as nat).push(digit((n % 10) as int))
    }
}

fn digit_text(k: u64) -> (r: &'static str)
    requires
        k < 10,
    ensures
        r@ == seq![digit(k as int)],
{
    proof {
        reveal_strlit("0");
        reveal_strlit("1");
        reveal_strlit("2");
        reveal_strlit("3");
        reveal_strlit("4");
        reveal_strlit("5");
        reveal_strlit("6");
        reveal_strlit("7");
        reveal_strlit("8");
        reveal_strlit("9");
    }
    if k == 0 {
        "0"
    } else if k == 1 {
        "1"
    } else if k == 2 {
        "2"
    } else if k == 3 {
        "3"
    } else if k == 4 {
        "4"
    } else if k == 5 {
        "5"
    } else if k == 6 {
        "6"
    } else if k == 7 {
        "7"
    } else if k == 8 {
        "8"
    } else {
        "9"
    }
}

/// A number in decimal.
pub fn decimal_text(n: u64) -> (r: String)
    ensures
        r@ == decimal(n as nat),
    decreases n,
{
    if n < 10 {
        digit_text(n).to_owned()
    } else {
        let r: String = decimal_text(n / 10).concat(digit_text(n % 10));
        assert(r@ =~= decimal(n as nat));
        r
    }
}

/// The last `d` decimal digits of a number.
fn padded_text(n: u64, d: u8) -> (r: String)
    ensures
        r@ == padded(n as nat, d as nat),
    decreases d,
{
    if d == 0 {
        let r: String = "".to_owned();
        proof {
            reveal_strlit("");
        }
        assert(r@ =~= seq![]);
        r
    } else {
        let r: String = padded_text(n / 10, d - 1).concat(digit_text(n % 10));
        assert(r@ =~= padded(n as nat, d as nat));
        r
    }
}

/// `true` or `false`.
pub fn bool_text(b: bool) -> (r: &'static str)
    ensures
        r@ == spec_bool_text(b)@,
{
    if b {
        "true"
    } else {
        "false"
    }
}

/// `true` or `false`.
pub open spec fn spec_bool_text(b: bool) -> &'static str {
    if b {
        "true"
    } else {
        "false"
    }
}

/// The integer nearest to `a / b`, the even one of two.
pub open spec fn nearest(a: int, b: int) -> int {
    let q = a / b;
    let r = a % b;
    if 2 * r < b || (2 * r == b && q % 2 == 0) {
        q
    } else {
        q + 1
    }
}

/// The nearest integer is off by no more than half, and where two are as near it is the even one.
pub proof fn law_nearest_is_off_by_half_at_most(a: int, b: int)
    requires
        0 <= a,
        0 < b,
    ensures
        -b <= 2 * (nearest(a, b) * b - a) <= b,
        2 * (nearest(a, b) * b - a) == b || 2 * (nearest(a, b) * b - a) == -b ==> nearest(a, b) % 2
            == 0,
{
    let q = a / b;
    let r = a % b;
    vstd::arithmetic::div_mod::lemma_fundamental_div_mod(a, b);
    assert(q * b == b * q) by (nonlinear_arith);
    assert((q + 1) * b == q * b + b) by (nonlinear_arith);
}

fn nearest_of(a: u128, b: u128) -> (r: u128)
    requires
        0 < b < 0x1_0000_0000_0000_0000,
        a < 0x1_0000_0000_0000_0000_0000_0000,
    ensures
        r == nearest(a as int, b as int),
{
    let q: u128 = a / b;
    let rest: u128 = a % b;
    assert(q <= a) by (nonlinear_arith)
        requires
            q == a / b,
            b >= 1,
    ;
    if 2 * rest < b || (2 * rest == b && q % 2 == 0) {
        q
    } else {
        q + 1
    }
}

/// How far apart the double-precision numbers around `n` are, 1 where every integer is one.
pub open spec fn double_step(n: nat) -> nat
    decreases n,
{
    if n < 0x20_0000_0000_0000 {
        1
    } else {
        2 * double_step(n / 2)
    }
}

/// The double-precision number nearest to `n`.
pub open spec fn as_double(n: nat) -> int {
    nearest(n as int, double_step(n) as int) * double_step(n)
}

proof fn lemma_step(n: nat)
    ensures
        1 <= double_step(n),
        double_step(n) == 1 || double_step(n) * 0x10_0000_0000_0000 <= n,
    decreases n,
{
    if n >= 0x20_0000_0000_0000 {
        lemma_step(n / 2);
    }
}

fn step_of(n: u64) -> (r: u64)
    ensures
        r == double_step(n as nat),
    decreases n,
{
    if n < 0x20_0000_0000_0000 {
        1
    } else {
        proof {
            lemma_step(n as nat);
        }
        2 * step_of(n / 2)
    }
}

fn double_of(n: u64) -> (r: u128)
    ensures
        r == as_double(n as nat),
        r <= 0x2_0000_0000_0000_0000,
{
    let step: u64 = step_of(n);
    proof {
        lemma_step(n as nat);
    }
    let k: u128 = nearest_of(n as u128, step as u128);
    assert(k * step <= n + step) by (nonlinear_arith)
        requires
            k == nearest(n as int, step as int),
            step >= 1,
    {
        let q = n as int / step as int;
        assert(q * step <= n);
        assert(k <= q + 1);
        assert(k * step <= (q + 1) * step);
        assert((q + 1) * step == q * step + step);
    }
    k * step as u128
}

/// Ten to the power `d`.
pub open spec fn ten_to(d: nat) -> nat
    decreases d,
{
    if d == 0 {
        1
    } else {
        10 * ten_to((d - 1) as nat)
    }
}

fn ten_to_of(d: u8) -> (r: u64)
    requires
        d <= 3,
    ensures
        r == ten_to(d as nat),
        1 <= r <= 1000,
{
    proof {
        reveal_with_fuel(ten_to, 4);
    }
    if d == 0 {
        1
    } else if d == 1 {
        10
    } else if d == 2 {
        100
    } else {
        1000
    }
}

/// Bytes in units of 1,048,576, times `10^d`, to the nearest integer.
pub open spec fn scaled_megabytes(bytes: nat, d: nat) -> int {
    nearest(as_double(bytes) * ten_to(d), 1048576)
}

/// Bytes in units of 1,048,576, with `d` digits behind the point.
pub open spec fn megabytes(bytes: nat, d: nat) -> Seq<char> {
    let s = scaled_megabytes(bytes, d);
    let unit = ten_to(d) as int;
    decimal((s / unit) as nat) + "."@ + padded((s % unit) as nat, d)
}

/// Bytes in units of 1,048,576, with `d` digits behind the point.
pub fn megabytes_text(bytes: u64, d: u8) -> (r: String)
    requires
        d <= 3,
    ensures
        r@ == megabytes(bytes as nat, d as nat),
{
    let unit: u64 = ten_to_of(d);
    let n: u128 = double_of(bytes);
    assert(n * unit <= 0x2_0000_0000_0000_0000 * 1000) by (nonlinear_arith)
        requires
            n <= 0x2_0000_0000_0000_0000,
            unit <= 1000,
    ;
    let s: u128 = nearest_of(n * unit as u128, 1048576);
    let s: u64 = s as u64;
    decimal_text(s / unit).concat(".").concat(padded_text(s % unit, d).as_str())
}

pub(crate) proof fn lemma_decimal(n: nat)
    ensures
        decimal(n).len() >= 1,
        all_digits(decimal(n)),
        decimal_value(decimal(n)) == n,
    decreases n,
{
    let s = decimal(n);
    if n < 10 {
        assert(s.drop_last() =~= seq![]);
        assert(is_digit(s[0]));
        assert(decimal_value(s.drop_last()) == 0);
    } else {
        lemma_decimal(n / 10);
        assert(s.drop_last() =~= decimal(n / 10));
        assert(is_digit(digit((n % 10) as int)));
    }
}

/// A number that was written is read back.
pub proof fn law_written_numbers_are_read_back(n: u64)
    ensures
        parsed_u64(decimal(n as nat)) == Some(n),
{
    lemma_decimal(n as nat);
    let s = decimal(n as nat);
    assert(is_digit(s[0]));
    assert(unsigned_part(s) == s);
}

} // verus!
