//! Byte sizes written as text, such as `5M`, `1.5G` or `65536`.
//!
//! The number is read as the nearest double-precision value, ties to even, then
//! multiplied by the unit and cut down to whole bytes. Whole arithmetic does all of
//! it: the value is a fraction whose binary digits are found one by one.

use crate::names::upper;
use crate::num::imin;
use crate::text::{
    all_digits, chars_of, digit, digits_value, find_char, index_from, join2, lemma_digits_nonneg,
    slice_of, string_of, trim_chars, trimmed,
};
use vstd::arithmetic::div_mod::*;
use vstd::arithmetic::mul::*;
use vstd::prelude::*;
use vstd::string::*;

verus! {

/// 2^52, 2^53 and 2^64.
pub const P52: u64 = 0x10_0000_0000_0000;

pub const P53: u64 = 0x20_0000_0000_0000;

pub const P64: u128 = 0x1_0000_0000_0000_0000;

pub open spec fn pow10(k: nat) -> int
    decreases k,
{
    if k == 0 {
        1
    } else {
        10 * pow10((k - 1) as nat)
    }
}

pub open spec fn pow2(k: nat) -> int
    decreases k,
{
    if k == 0 {
        1
    } else {
        2 * pow2((k - 1) as nat)
    }
}

/// `d / q` rounded to a whole number, a half to the even one.
pub open spec fn half_even(d: int, q: int) -> int {
    let m = d / q;
    let r = d % q;
    if 2 * r < q || (2 * r == q && m % 2 == 0) {
        m
    } else {
        m + 1
    }
}

/// The whole part of the double-precision value nearest to `d / q`. Such a value
/// has 53 binary digits: between 2^52 and 2^53 it is the nearest whole number, and
/// twice the fraction has twice the nearest value.
pub open spec fn nearest_floor(d: int, q: int) -> int
    decreases
            (if d < q * P52 {
                q * P52 - d
            } else if d >= q * P53 {
                d - q * P53 + 1
            } else {
                0
            }),
{
    if d <= 0 || q <= 0 {
        0
    } else if d >= q * P53 {
        2 * nearest_floor(d, 2 * q)
    } else if d < q * P52 {
        nearest_floor(2 * d, q) / 2
    } else {
        half_even(d, q)
    }
}

/// Sign, digits before the point and digits behind it, of a decimal number.
pub open spec fn decimal_parts(s: Seq<char>) -> Option<(bool, Seq<char>, Seq<char>)> {
    let negative = s.len() > 0 && s[0] == '-';
    let body = if s.len() > 0 && (s[0] == '-' || s[0] == '+') {
        s.drop_first()
    } else {
        s
    };
    let (whole, part) = match index_from(body, '.', 0) {
        Some(k) => (body.take(k), body.skip(k + 1)),
        None => (body, seq![]),
    };
    if all_digits(whole) && all_digits(part) && whole.len() + part.len() > 0 {
        Some((negative, whole, part))
    } else {
        None
    }
}

/// The digits behind the point, as a number.
pub open spec fn part_value(s: Seq<char>) -> int
    decreases s.len(),
{
    if s.len() == 0 {
        0
    } else {
        (s[0] as u32 - '0' as u32) * pow10((s.len() - 1) as nat) + part_value(s.drop_first())
    }
}

/// Index, from `i` on, of the first ASCII letter.
pub open spec fn letter_from(s: Seq<char>, i: int) -> int
    decreases s.len() - i,
{
    if i >= s.len() {
        s.len() as int
    } else if 'a' <= s[i] <= 'z' || 'A' <= s[i] <= 'Z' {
        i
    } else {
        letter_from(s, i + 1)
    }
}

/// How many times the unit doubles a byte.
pub open spec fn unit_doublings(unit: Seq<char>) -> Option<nat> {
    if unit.len() == 0 || unit == seq!['B'] {
        Some(0)
    } else if unit == seq!['K'] || unit == seq!['K', 'B'] {
        Some(10)
    } else if unit == seq!['M'] || unit == seq!['M', 'B'] {
        Some(20)
    } else if unit == seq!['G'] || unit == seq!['G', 'B'] {
        Some(30)
    } else {
        None
    }
}

/// The bytes that a size text stands for, at most the largest number of bytes; or
/// what is wrong with it. A negative size is none.
pub open spec fn size_asked(text: Seq<char>) -> Result<int, Seq<char>> {
    let s = trimmed(text);
    let i = letter_from(s, 0);
    let num = trimmed(s.take(i));
    let unit = trimmed(s.skip(i)).map_values(|c: char| upper(c));
    if s.len() == 0 {
        Err("empty size string"@)
    } else {
        match (decimal_parts(num), unit_doublings(unit)) {
            (None, _) => if num.len() == 0 {
                Err("cannot parse float from empty string"@)
            } else {
                Err("invalid float literal"@)
            },
            (Some(_), None) => Err("unknown size unit: "@ + unit),
            (Some((negative, whole, part)), Some(j)) => if negative {
                Ok(0)
            } else {
                let q = pow10(part.len());
                let d = digits_value(whole) * q + part_value(part);
                Ok(imin(nearest_floor(d * pow2(j), q), u64::MAX as int))
            },
        }
    }
}

proof fn lemma_pow10_pos(k: nat)
    ensures
        pow10(k) >= 1,
    decreases k,
{
    if k > 0 {
        lemma_pow10_pos((k - 1) as nat);
    }
}

proof fn lemma_pow2_pos(k: nat)
    ensures
        pow2(k) >= 1,
    decreases k,
{
    if k > 0 {
        lemma_pow2_pos((k - 1) as nat);
    }
}


/// A fraction below one, digit by digit.
pub open spec fn digit_value(s: Seq<u8>) -> int
    decreases s.len(),
{
    if s.len() == 0 {
        0
    } else {
        s[0] * pow10((s.len() - 1) as nat) + digit_value(s.drop_first())
    }
}

pub open spec fn small_digits(s: Seq<u8>) -> bool {
    forall|i: int| 0 <= i < s.len() ==> (#[trigger] s[i]) <= 9
}

proof fn lemma_digit_value(s: Seq<u8>)
    requires
        small_digits(s),
    ensures
        0 <= digit_value(s) < pow10(s.len()),
    decreases s.len(),
{
    if s.len() > 0 {
        let rest = s.drop_first();
        assert forall|i: int| 0 <= i < rest.len() implies (#[trigger] rest[i]) <= 9 by {
            assert(s[i + 1] <= 9);
        }
        lemma_digit_value(rest);
        assert(s[0] <= 9);
        let v = s[0] as int;
        let p = pow10((s.len() - 1) as nat);
        lemma_pow10_pos((s.len() - 1) as nat);
        assert(0 <= v * p <= 9 * p) by (nonlinear_arith)
            requires
                0 <= v <= 9,
                p >= 1,
        ;
    }
}

/// Doubles a fraction and takes off what reaches one.
fn double(frac: &mut Vec<u8>) -> (carry: u128)
    requires
        small_digits(old(frac)@),
    ensures
        small_digits(final(frac)@),
        final(frac)@.len() == old(frac)@.len(),
        carry <= 1,
        2 * digit_value(old(frac)@) == carry * pow10(old(frac)@.len()) + digit_value(
            final(frac)@,
        ),
{
    let n: usize = frac.len();
    let ghost was = frac@;
    let mut carry: u8 = 0;
    let mut i: usize = n;
    proof {
        assert(was.skip(n as int) =~= Seq::empty());
    }
    while i > 0
        invariant
            i <= n,
            n == frac@.len(),
            was.len() == n,
            small_digits(was),
            carry <= 1,
            forall|k: int| 0 <= k < i ==> frac@[k] == was[k],
            forall|k: int| i <= k < n ==> (#[trigger] frac@[k]) <= 9,
            2 * digit_value(was.skip(i as int)) == carry * pow10((n - i) as nat) + digit_value(
                frac@.skip(i as int),
            ),
        decreases i,
    {
        let ghost before = frac@;
        i = i - 1;
        assert(was[i as int] <= 9);
        let v: u8 = frac[i] * 2 + carry;
        let ghost c = carry as int;
        frac.set(i, v % 10);
        carry = v / 10;
        proof {
            let a = was.skip(i as int);
            let b = frac@.skip(i as int);
            assert(a.drop_first() =~= was.skip(i + 1));
            assert(b.drop_first() =~= before.skip(i + 1));
            let p = pow10((n - i - 1) as nat);
            let s0 = was[i as int] as int;
            let d0 = v as int % 10;
            let c1 = v as int / 10;
            assert(2 * s0 + c == 10 * c1 + d0);
            assert(2 * (s0 * p) + c * p == c1 * (10 * p) + d0 * p) by (nonlinear_arith)
                requires
                    2 * s0 + c == 10 * c1 + d0,
            ;
        }
    }
    proof {
        assert(was.skip(0) =~= was);
        assert(frac@.skip(0) =~= frac@);
        assert forall|k: int| 0 <= k < frac@.len() implies (#[trigger] frac@[k]) <= 9 by {}
    }
    carry as u128
}

/// Anything is left of a fraction.
fn is_nothing(frac: &Vec<u8>) -> (out: bool)
    requires
        small_digits(frac@),
    ensures
        out == (digit_value(frac@) == 0),
{
    let n: usize = frac.len();
    let mut i: usize = n;
    proof {
        assert(frac@.skip(n as int) =~= Seq::empty());
    }
    while i > 0
        invariant
            i <= n == frac@.len(),
            small_digits(frac@),
            digit_value(frac@.skip(i as int)) == 0,
        decreases i,
    {
        i = i - 1;
        proof {
            let a = frac@.skip(i as int);
            assert(a.drop_first() =~= frac@.skip(i + 1));
            lemma_pow10_pos((n - i - 1) as nat);
            assert(frac@[i as int] > 0 ==> frac@[i as int] * pow10((n - i - 1) as nat) > 0)
                by (nonlinear_arith)
                requires
                    pow10((n - i - 1) as nat) >= 1,
            ;
        }
        if frac[i] != 0 {
            proof {
                lemma_prefix_positive(frac@, i as int);
            }
            return false;
        }
    }
    assert(frac@.skip(0) =~= frac@);
    true
}

proof fn lemma_prefix_positive(s: Seq<u8>, i: int)
    requires
        small_digits(s),
        0 <= i <= s.len(),
        digit_value(s.skip(i)) > 0,
    ensures
        digit_value(s) > 0,
    decreases i,
{
    if i > 0 {
        let t = s.skip(i - 1);
        assert(t.drop_first() =~= s.skip(i));
        lemma_pow10_pos((t.len() - 1) as nat);
        assert(t[0] * pow10((t.len() - 1) as nat) >= 0) by (nonlinear_arith)
            requires
                t[0] >= 0,
                pow10((t.len() - 1) as nat) >= 1,
        ;
        lemma_prefix_positive(s, i - 1);
    } else {
        assert(s.skip(0) =~= s);
    }
}

/// A fraction above a power of two has a nearest value no smaller than that.
proof fn lemma_nearest_at_least(d: int, q: int, k: nat)
    requires
        q >= 1,
        k >= 52,
        d >= q * pow2(k),
    ensures
        nearest_floor(d, q) >= pow2(k),
    decreases k,
{
    lemma_pow2_52();
    lemma_pow2_grows(52, k);
    assert(q * pow2(k) >= q * P52 && q * P52 >= 1) by (nonlinear_arith)
        requires
            q >= 1,
            pow2(k) >= P52 as int,
            P52 >= 1,
    ;
    if d >= q * P53 {
        if k == 52 {
            assert(2 * q * pow2(52) == q * P53) by (nonlinear_arith)
                requires
                    pow2(52) == P52 as int,
                    P53 == 2 * P52,
            ;
            lemma_nearest_high(d, 2 * q);
        } else {
            assert(q * pow2(k) == (2 * q) * pow2((k - 1) as nat)) by (nonlinear_arith)
                requires
                    pow2(k) == 2 * pow2((k - 1) as nat),
            ;
            lemma_nearest_at_least(d, 2 * q, (k - 1) as nat);
        }
    } else {
        assert(k == 52) by {
            if k > 52 {
                lemma_pow2_grows(53, k);
                assert(q * pow2(k) >= q * P53) by (nonlinear_arith)
                    requires
                        q >= 1,
                        pow2(k) >= P53 as int,
                ;
            }
        }
        lemma_floor_at_least(d, q, P52 as int);
    }
}

/// The same for 2^52, whatever the size.
proof fn lemma_nearest_high(d: int, q: int)
    requires
        q >= 1,
        d >= q * P52,
    ensures
        nearest_floor(d, q) >= P52,
    decreases d - q * P52,
{
    assert(q * P52 >= 1) by (nonlinear_arith)
        requires
            q >= 1,
            P52 >= 1,
    ;
    if d >= q * P53 {
        assert((2 * q) * P52 == q * P53) by (nonlinear_arith)
            requires
                P53 == 2 * P52,
        ;
        lemma_nearest_high(d, 2 * q);
    } else {
        lemma_floor_at_least(d, q, P52 as int);
    }
}

proof fn lemma_floor_at_least(d: int, q: int, m: int)
    requires
        q >= 1,
        d >= q * m,
    ensures
        d / q >= m,
{
    lemma_mul_is_commutative(q, m);
    lemma_div_is_ordered(q * m, d, q);
    lemma_div_multiples_vanish(m, q);
}

proof fn lemma_pow2_52()
    ensures
        pow2(52) == P52,
        pow2(53) == P53,
        pow2(64) == P64,
{
    reveal_with_fuel(pow2, 66);
}

proof fn lemma_pow2_grows(j: nat, k: nat)
    requires
        j <= k,
    ensures
        pow2(j) <= pow2(k),
    decreases k,
{
    if j < k {
        lemma_pow2_grows(j, (k - 1) as nat);
        lemma_pow2_pos((k - 1) as nat);
    }
}

/// A small fraction has a small nearest value.
proof fn lemma_nearest_at_most(d: int, q: int)
    requires
        q >= 1,
        0 <= d < q * P53,
    ensures
        0 <= nearest_floor(d, q) <= P53,
    decreases q * P53 - d,
{
    if d > 0 {
        if d < q * P52 {
            assert(2 * d < q * P53) by (nonlinear_arith)
                requires
                    d < q * P52,
                    P53 == 2 * P52,
            ;
            lemma_nearest_at_most(2 * d, q);
        } else {
            lemma_div_pos_is_pos(d, q);
            lemma_fundamental_div_mod(d, q);
            assert(d / q < P53) by (nonlinear_arith)
                requires
                    d < q * P53,
                    d == q * (d / q) + d % q,
                    d % q >= 0,
                    q >= 1,
            ;
        }
    }
}

/// Doubling a small fraction `t` times doubles its nearest value as often.
proof fn lemma_nearest_doubled(d: int, q: int, t: nat)
    requires
        q >= 1,
        d >= 0,
        t > 0 ==> d * pow2((t - 1) as nat) < q * P52,
    ensures
        nearest_floor(d, q) == nearest_floor(d * pow2(t), q) / pow2(t),
    decreases t,
{
    if t == 0 {
        assert(d * pow2(0) == d);
    } else {
        let s = (t - 1) as nat;
        lemma_pow2_pos(s);
        if s > 0 {
            lemma_pow2_pos((s - 1) as nat);
            assert(d * pow2((s - 1) as nat) <= d * pow2(s)) by (nonlinear_arith)
                requires
                    d >= 0,
                    pow2(s) == 2 * pow2((s - 1) as nat),
                    pow2((s - 1) as nat) >= 1,
            ;
        }
        lemma_nearest_doubled(d, q, s);
        let e = d * pow2(s);
        assert(d * pow2(t) == 2 * e) by (nonlinear_arith)
            requires
                pow2(t) == 2 * pow2(s),
                e == d * pow2(s),
        ;
        assert(e >= 0) by (nonlinear_arith)
            requires
                e == d * pow2(s),
                d >= 0,
                pow2(s) >= 1,
        ;
        assert(e < q * P53) by (nonlinear_arith)
            requires
                e < q * P52,
                P53 == 2 * P52,
                q >= 1,
        ;
        let n = nearest_floor(2 * e, q);
        if e == 0 {
            assert(nearest_floor(e, q) == 0);
            assert(n == 0);
        } else {
            assert(nearest_floor(e, q) == n / 2);
        }
        assert(nearest_floor(e, q) == n / 2);
        assert(n >= 0) by {
            lemma_nearest_nonneg(2 * e, q);
        }
        lemma_div_denominator(n, 2, pow2(s));
        assert((n / 2) / pow2(s) == n / (2 * pow2(s)));
    }
}

proof fn lemma_nearest_nonneg(d: int, q: int)
    requires
        q >= 1,
        d >= 0,
    ensures
        nearest_floor(d, q) >= 0,
{
    if d < q * P53 {
        lemma_nearest_at_most(d, q);
    } else {
        assert(q * P52 <= q * P53) by (nonlinear_arith)
            requires
                q >= 1,
                P52 <= P53,
        ;
        lemma_nearest_high(d, q);
    }
}

/// The nearest value of a large fraction is found by halving it `s` times.
proof fn lemma_nearest_halved(d: int, q: int, s: nat)
    requires
        q >= 1,
        s > 0 ==> d >= q * pow2((s - 1) as nat) * P53,
    ensures
        nearest_floor(d, q) == pow2(s) * nearest_floor(d, q * pow2(s)),
    decreases s,
{
    if s == 0 {
        assert(q * pow2(0) == q);
        assert(pow2(0) * nearest_floor(d, q) == nearest_floor(d, q));
    } else {
        let r = (s - 1) as nat;
        lemma_pow2_pos(r);
        let p = q * pow2(r);
        assert(p >= 1) by (nonlinear_arith)
            requires
                p == q * pow2(r),
                q >= 1,
                pow2(r) >= 1,
        ;
        if r > 0 {
            lemma_pow2_pos((r - 1) as nat);
            assert(q * pow2((r - 1) as nat) * P53 <= q * pow2(r) * P53) by (nonlinear_arith)
                requires
                    q >= 1,
                    pow2(r) == 2 * pow2((r - 1) as nat),
                    pow2((r - 1) as nat) >= 1,
                    P53 >= 1,
            ;
        }
        lemma_nearest_halved(d, q, r);
        assert(d > 0) by (nonlinear_arith)
            requires
                d >= p * P53,
                p >= 1,
                P53 >= 1,
        ;
        assert(nearest_floor(d, p) == 2 * nearest_floor(d, 2 * p));
        assert(q * pow2(s) == 2 * p) by (nonlinear_arith)
            requires
                pow2(s) == 2 * pow2(r),
                p == q * pow2(r),
        ;
        let n = nearest_floor(d, 2 * p);
        assert(pow2(r) * (2 * n) == pow2(s) * n) by (nonlinear_arith)
            requires
                pow2(s) == 2 * pow2(r),
        ;
    }
}

/// Rounds the whole number `m` with the fraction `rem / (2^s)` and what `frac` adds
/// below that: to the nearest, a half to the even one.
fn round_half_even(m: u64, rem: u64, unit: u64, frac: &mut Vec<u8>) -> (out: u64)
    requires
        m < u64::MAX,
        1 <= unit <= 0x1000,
        rem < unit,
        unit == 1 || unit % 2 == 0,
        small_digits(old(frac)@),
    ensures
        ({
            let q = pow10(old(frac)@.len());
            out == half_even(
                (m * unit + rem) * q + digit_value(old(frac)@),
                unit * q,
            )
        }),
{
    let ghost q = pow10(frac@.len());
    let ghost f = digit_value(frac@);
    proof {
        lemma_pow10_pos(frac@.len());
        lemma_digit_value(frac@);
        let d = (m * unit + rem) * q + f;
        let r = rem * q + f;
        assert(0 <= r < unit * q) by (nonlinear_arith)
            requires
                0 <= rem,
                rem + 1 <= unit,
                0 <= f < q,
                r == rem * q + f,
        ;
        assert(d == m * (unit * q) + r) by (nonlinear_arith)
            requires
                d == (m * unit + rem) * q + f,
                r == rem * q + f,
        ;
        lemma_fundamental_div_mod_converse(d, unit * q, m as int, r);
    }
    if unit == 1 {
        let bit: u128 = double(frac);
        let rest: bool = is_nothing(frac);
        proof {
            lemma_digit_value(frac@);
            assert(rem * q == 0) by (nonlinear_arith)
                requires
                    rem == 0,
            ;
            assert(bit * q == if bit == 1 {
                q
            } else {
                0
            }) by (nonlinear_arith)
                requires
                    bit <= 1,
            ;
        }
        if bit == 0 || (rest && m % 2 == 0) {
            m
        } else {
            m + 1
        }
    } else {
        let half: u64 = unit / 2;
        let rest: bool = is_nothing(frac);
        proof {
            let r = rem * q + f;
            assert(unit == 2 * half);
            assert(rem < half ==> 2 * r < unit * q) by (nonlinear_arith)
                requires
                    unit == 2 * half,
                    rem < half ==> rem + 1 <= half,
                    0 <= f < q,
                    r == rem * q + f,
                    rem >= 0,
            ;
            assert(rem > half ==> 2 * r > unit * q) by (nonlinear_arith)
                requires
                    unit == 2 * half,
                    rem > half ==> rem >= half + 1,
                    0 <= f < q,
                    r == rem * q + f,
            ;
            assert(rem == half ==> 2 * r == unit * q + 2 * f) by (nonlinear_arith)
                requires
                    unit == 2 * half,
                    r == rem * q + f,
            ;
        }
        if rem < half || (rem == half && rest && m % 2 == 0) {
            m
        } else {
            m + 1
        }
    }
}

/// The whole part of the nearest value of `whole + frac`, at most the largest
/// machine word.
fn nearest(whole: u64, frac: Vec<u8>) -> (out: u64)
    requires
        small_digits(frac@),
    ensures
        ({
            let q = pow10(frac@.len());
            out == imin(nearest_floor(whole * q + digit_value(frac@), q), u64::MAX as int)
        }),
{
    let ghost q = pow10(frac@.len());
    let ghost d = whole * q + digit_value(frac@);
    let mut part: Vec<u8> = frac;
    proof {
        lemma_pow10_pos(frac@.len());
        lemma_digit_value(frac@);
        lemma_pow2_52();
        assert(d >= 0) by (nonlinear_arith)
            requires
                d == whole * q + digit_value(frac@),
                whole >= 0,
                q >= 1,
                digit_value(frac@) >= 0,
        ;
    }
    if whole >= P53 {
        let mut s: u32 = 0;
        let mut unit: u64 = 1;
        let mut m: u64 = whole;
        while m >= P53
            invariant
                whole >= P53,
                unit == pow2(s as nat),
                unit <= 0x1000,
                unit == 1 || unit % 2 == 0,
                m == whole / unit,
                m * unit <= whole < (m + 1) * unit,
                s <= 12,
                unit >= 1,
                m >= P52,
                s > 0 ==> whole >= P53 * pow2((s - 1) as nat),
                s > 0 ==> pow2(s as nat) == 2 * pow2((s - 1) as nat),
            decreases m,
        {
            proof {
                let u = unit as int;
                assert(unit <= 0x800) by (nonlinear_arith)
                    requires
                        m * unit <= whole,
                        m >= 0x20_0000_0000_0000,
                        whole <= 0xffff_ffff_ffff_ffff,
                        unit >= 1,
                ;
                lemma_div_denominator(whole as int, u, 2);
                assert(whole >= P53 * u) by (nonlinear_arith)
                    requires
                        m * unit <= whole,
                        m >= P53,
                        u == unit,
                        u >= 1,
                ;
                let h = m as int / 2;
                assert(h * (2 * u) <= whole < (h + 1) * (2 * u)) by (nonlinear_arith)
                    requires
                        m * u <= whole < (m + 1) * u,
                        2 * h <= m <= 2 * h + 1,
                        u >= 1,
                        u == unit,
                ;
                assert(s < 12) by {
                    if s >= 12 {
                        lemma_pow2_grows(12, s as nat);
                        assert(pow2(12) == 0x1000) by {
                            reveal_with_fuel(pow2, 14);
                        }
                    }
                }
            }
            m = m / 2;
            unit = unit * 2;
            s = s + 1;
        }
        let rem: u64 = whole - m * unit;
        proof {
            let u = unit as int;
            let f = digit_value(frac@);
            assert((m * u + rem) == whole);
            assert((m + 1) * u == m * u + u) by (nonlinear_arith);
            assert(rem < unit);
            assert((m * u + rem) * q + f == d);
            assert(u * q >= 1 && m * (u * q) <= d < (m + 1) * (u * q)) by (nonlinear_arith)
                requires
                    d == whole * q + f,
                    m * u <= whole,
                    whole + 1 <= (m + 1) * u,
                    0 <= f < q,
                    u >= 1,
                    q >= 1,
            ;
            assert(d >= q * pow2((s - 1) as nat) * P53) by (nonlinear_arith)
                requires
                    d == whole * q + f,
                    f >= 0,
                    q >= 1,
                    whole >= P53 * pow2((s - 1) as nat),
            ;
            lemma_nearest_halved(d, q, s as nat);
            assert(q * u == u * q) by (nonlinear_arith);
            assert(d >= (u * q) * P52 && d < (u * q) * P53) by (nonlinear_arith)
                requires
                    m * (u * q) <= d < (m + 1) * (u * q),
                    m >= P52,
                    m + 1 <= P53,
                    u * q >= 1,
            ;
            assert(d > 0) by (nonlinear_arith)
                requires
                    d >= (u * q) * P52,
                    u * q >= 1,
                    P52 >= 1,
            ;
        }
        let r: u64 = round_half_even(m, rem, unit, &mut part);
        let wide: u128 = crate::num::wide_mul(r, unit);
        proof {
            assert(unit * r == r * unit) by (nonlinear_arith);
        }
        if wide >= P64 {
            u64::MAX
        } else {
            wide as u64
        }
    } else {
        let mut m: u64 = whole;
        let mut t: u32 = 0;
        proof {
            assert(d * pow2(0) == d);
            assert(d < q * P53) by (nonlinear_arith)
                requires
                    d == whole * q + digit_value(frac@),
                    digit_value(frac@) < q,
                    whole + 1 <= P53,
                    q >= 1,
            ;
            lemma_nearest_at_most(d, q);
        }
        while m < P52 && t < 64
            invariant
                small_digits(part@),
                part@.len() == frac@.len(),
                q == pow10(frac@.len()),
                q >= 1,
                d >= 0,
                m < P53,
                t <= 64,
                m * q + digit_value(part@) == d * pow2(t as nat),
                t > 0 ==> d * pow2((t - 1) as nat) < q * P52,
            decreases 64 - t,
        {
            let ghost f = digit_value(part@);
            proof {
                lemma_digit_value(part@);
                assert(d * pow2(t as nat) < q * P52) by (nonlinear_arith)
                    requires
                        m * q + f == d * pow2(t as nat),
                        f < q,
                        m + 1 <= P52,
                        q >= 1,
                ;
            }
            let bit: u128 = double(&mut part);
            proof {
                let g = digit_value(part@);
                let b = bit as int;
                assert((2 * m + b) * q + g == d * pow2((t + 1) as nat)) by (nonlinear_arith)
                    requires
                        m * q + f == d * pow2(t as nat),
                        2 * f == b * q + g,
                        pow2((t + 1) as nat) == 2 * pow2(t as nat),
                ;
            }
            m = 2 * m + bit as u64;
            t = t + 1;
        }
        let ghost f = digit_value(part@);
        let ghost dt = d * pow2(t as nat);
        proof {
            lemma_digit_value(part@);
            lemma_nearest_doubled(d, q, t as nat);
            lemma_pow2_pos(t as nat);
            assert(dt < q * P53) by (nonlinear_arith)
                requires
                    m * q + f == dt,
                    f < q,
                    m + 1 <= P53,
                    q >= 1,
            ;
            assert(dt >= 0) by (nonlinear_arith)
                requires
                    m * q + f == dt,
                    f >= 0,
                    m >= 0,
                    q >= 1,
            ;
            lemma_nearest_at_most(dt, q);
        }
        if m < P52 {
            proof {
                let n = nearest_floor(dt, q);
                lemma_pow2_grows(64, t as nat);
                assert(n / pow2(t as nat) == 0) by {
                    lemma_basic_div(n, pow2(t as nat));
                }
            }
            return 0;
        }
        proof {
            assert((m * 1 + 0) * q + f == dt);
            assert(1 * q == q);
            assert(dt >= q * P52) by (nonlinear_arith)
                requires
                    m * q + f == dt,
                    f >= 0,
                    m >= P52,
                    q >= 1,
            ;
            assert(q * P52 >= 1) by (nonlinear_arith)
                requires
                    q >= 1,
                    P52 >= 1,
            ;
        }
        let mut r: u64 = round_half_even(m, 0, 1, &mut part);
        let ghost n = r as int;
        let mut k: u32 = 0;
        assert(n / pow2(0) == n);
        while k < t
            invariant
                k <= t,
                r == n / pow2(k as nat),
                n >= 0,
            decreases t - k,
        {
            proof {
                lemma_pow2_pos(k as nat);
                lemma_div_denominator(n, pow2(k as nat), 2);
                assert(pow2(k as nat) * 2 == pow2((k + 1) as nat));
            }
            r = r / 2;
            k = k + 1;
        }
        r
    }
}

/// A character in upper case.
fn upper_char(c: char) -> (out: char)
    ensures
        out == upper(c),
{
    if 'a' <= c && c <= 'z' {
        ((c as u8) - 32) as char
    } else {
        c
    }
}

/// Reads a size such as `5M`, `512K`, `1.5G`, `10 MB` or `65536`.
pub fn parse_size(s: &str) -> (out: Result<u64, String>)
    ensures
        match (out, size_asked(s@)) {
            (Ok(n), Ok(m)) => n == m,
            (Err(e), Err(f)) => e@ == f,
            _ => false,
        },
{
    let t: Vec<char> = trim_chars(&chars_of(s));
    let n: usize = t.len();
    if n == 0 {
        return Err("empty size string".to_owned());
    }
    let mut at: usize = 0;
    while at < n && !(('a' <= t[at] && t[at] <= 'z') || ('A' <= t[at] && t[at] <= 'Z'))
        invariant
            at <= n == t@.len(),
            letter_from(t@, 0) == letter_from(t@, at as int),
        decreases n - at,
    {
        at = at + 1;
    }
    let left: Vec<char> = slice_of(&t, 0, at);
    let right: Vec<char> = slice_of(&t, at, n);
    proof {
        assert(left@ =~= t@.take(at as int));
        assert(right@ =~= t@.skip(at as int));
    }
    let num: Vec<char> = trim_chars(&left);
    let low: Vec<char> = trim_chars(&right);
    let mut unit: Vec<char> = Vec::new();
    let mut i: usize = 0;
    while i < low.len()
        invariant
            i <= low@.len(),
            unit@.len() == i,
            forall|k: int| 0 <= k < i ==> #[trigger] unit@[k] == upper(low@[k]),
        decreases low.len() - i,
    {
        unit.push(upper_char(low[i]));
        i = i + 1;
    }
    assert(unit@ =~= low@.map_values(|c: char| upper(c)));
    let negative: bool = num.len() > 0 && num[0] == '-';
    let from: usize = if num.len() > 0 && (num[0] == '-' || num[0] == '+') {
        1
    } else {
        0
    };
    let body: Vec<char> = slice_of(&num, from, num.len());
    assert(body@ =~= if num@.len() > 0 && (num@[0] == '-' || num@[0] == '+') {
        num@.drop_first()
    } else {
        num@
    });
    let blen: usize = body.len();
    let dot: Option<usize> = find_char(&body, '.', 0);
    let whole: Vec<char> = match dot {
        Some(k) => slice_of(&body, 0, k),
        None => slice_of(&body, 0, blen),
    };
    let part: Vec<char> = match dot {
        Some(k) => slice_of(&body, k + 1, blen),
        None => Vec::new(),
    };
    proof {
        match dot {
            Some(k) => {
                assert(whole@ =~= body@.take(k as int));
                assert(part@ =~= body@.skip(k + 1));
            },
            None => {
                assert(whole@ =~= body@);
                assert(part@ =~= Seq::<char>::empty());
            },
        }
    }
    if !are_digits(&whole) || !are_digits(&part) || (whole.len() == 0 && part.len() == 0) {
        assert(decimal_parts(num@) is None);
        return if num.len() == 0 {
            Err("cannot parse float from empty string".to_owned())
        } else {
            Err("invalid float literal".to_owned())
        };
    }
    let doublings: u32 = match unit_power(&unit) {
        Some(j) => j,
        None => {
            return Err(join2("unknown size unit: ", string_of(&unit).as_str()));
        },
    };
    if negative {
        return Ok(0);
    }
    let mut frac: Vec<u8> = Vec::new();
    let mut f: usize = 0;
    while f < part.len()
        invariant
            f <= part@.len(),
            all_digits(part@),
            frac@.len() == f,
            small_digits(frac@),
            forall|k: int| 0 <= k < f ==> #[trigger] frac@[k] == part@[k] as u32 - '0' as u32,
        decreases part.len() - f,
    {
        assert(digit(part@[f as int]));
        let v: u8 = (part[f] as u32 - '0' as u32) as u8;
        let ghost before = frac@;
        frac.push(v);
        proof {
            assert forall|k: int| 0 <= k < frac@.len() implies (#[trigger] frac@[k]) <= 9 by {
                if k < before.len() {
                    assert(frac@[k] == before[k]);
                    assert(before[k] <= 9);
                }
            }
        }
        f = f + 1;
    }
    let ghost q = pow10(part@.len());
    proof {
        lemma_same_part(part@, frac@);
        lemma_pow10_pos(part@.len());
        lemma_digits_nonneg(whole@);
        lemma_digit_value(frac@);
    }
    // The digits before the point; past a machine word only that counts.
    let mut big: u128 = 0;
    let mut w: usize = 0;
    let mut over: bool = false;
    assert(whole@.take(0) =~= Seq::empty());
    while w < whole.len()
        invariant
            w <= whole@.len(),
            all_digits(whole@),
            !over ==> big == digits_value(whole@.take(w as int)) && big < P64,
            over ==> digits_value(whole@.take(w as int)) >= P64,
        decreases whole.len() - w,
    {
        proof {
            assert(whole@.take(w + 1).drop_last() =~= whole@.take(w as int));
            assert(digit(whole@[w as int]));
        }
        let v: u128 = (whole[w] as u32 - '0' as u32) as u128;
        if !over {
            big = big * 10 + v;
            if big >= P64 {
                over = true;
            }
        }
        w = w + 1;
    }
    assert(whole@.take(whole@.len() as int) =~= whole@);
    let ghost whole_value = digits_value(whole@);
    let ghost d = whole_value * q + part_value(part@);
    let mut j: u32 = 0;
    assert(d * pow2(0) == d);
    proof {
        if over {
            assert(d >= q * P64) by (nonlinear_arith)
                requires
                    d == whole_value * q + part_value(part@),
                    part_value(part@) >= 0,
                    whole_value >= P64,
                    q >= 1,
            ;
        }
    }
    while j < doublings
        invariant
            j <= doublings,
            small_digits(frac@),
            frac@.len() == part@.len(),
            q == pow10(part@.len()),
            q >= 1,
            d >= 0,
            !over ==> big * q + digit_value(frac@) == d * pow2(j as nat) && big < P64,
            over ==> d * pow2(j as nat) >= q * P64,
        decreases doublings - j,
    {
        let ghost g = digit_value(frac@);
        let bit: u128 = double(&mut frac);
        proof {
            lemma_pow2_pos(j as nat);
            lemma_digit_value(frac@);
            if over {
                assert(d * pow2((j + 1) as nat) >= q * P64) by (nonlinear_arith)
                    requires
                        d * pow2(j as nat) >= q * P64,
                        pow2((j + 1) as nat) == 2 * pow2(j as nat),
                        q >= 1,
                        P64 >= 1,
                ;
            } else {
                let h = digit_value(frac@);
                let b = bit as int;
                assert((2 * big + b) * q + h == d * pow2((j + 1) as nat)) by (nonlinear_arith)
                    requires
                        big * q + g == d * pow2(j as nat),
                        2 * g == b * q + h,
                        pow2((j + 1) as nat) == 2 * pow2(j as nat),
                ;
            }
        }
        if !over {
            big = 2 * big + bit;
            if big >= P64 {
                over = true;
                proof {
                    assert(d * pow2((j + 1) as nat) >= q * P64) by (nonlinear_arith)
                        requires
                            big * q + digit_value(frac@) == d * pow2((j + 1) as nat),
                            digit_value(frac@) >= 0,
                            big >= P64,
                            q >= 1,
                    ;
                }
            }
        }
        j = j + 1;
    }
    if over {
        proof {
            lemma_pow2_52();
            lemma_nearest_at_least(d * pow2(doublings as nat), q, 64);
        }
        return Ok(u64::MAX);
    }
    Ok(nearest(big as u64, frac))
}

proof fn lemma_same_part(part: Seq<char>, frac: Seq<u8>)
    requires
        part.len() == frac.len(),
        forall|k: int|
            0 <= k < part.len() ==> #[trigger] frac[k] == part[k] as u32 - '0' as u32,
    ensures
        part_value(part) == digit_value(frac),
    decreases part.len(),
{
    if part.len() > 0 {
        let p = part.drop_first();
        let f = frac.drop_first();
        assert forall|k: int| 0 <= k < p.len() implies #[trigger] f[k] == p[k] as u32
            - '0' as u32 by {
            assert(frac[k + 1] == part[k + 1] as u32 - '0' as u32);
        }
        lemma_same_part(p, f);
    }
}

fn are_digits(s: &[char]) -> (out: bool)
    ensures
        out == all_digits(s@),
{
    let mut i: usize = 0;
    while i < s.len()
        invariant
            i <= s@.len(),
            forall|k: int| 0 <= k < i ==> digit(#[trigger] s@[k]),
        decreases s.len() - i,
    {
        if !('0' <= s[i] && s[i] <= '9') {
            assert(!digit(s@[i as int]));
            return false;
        }
        i = i + 1;
    }
    true
}

fn unit_power(unit: &Vec<char>) -> (out: Option<u32>)
    ensures
        match (out, unit_doublings(unit@)) {
            (Some(j), Some(k)) => j == k,
            (None, None) => true,
            _ => false,
        },
{
    if unit.len() == 0 {

        return Some(0);
    }
    if unit.len() > 2 || (unit.len() == 2 && unit[1] != 'B') {
        proof {
            assert(unit@.len() != 0);
            assert(seq!['B'].len() == 1);
            assert(seq!['K', 'B'].len() == 2 && seq!['K', 'B'][1] == 'B');
            assert(seq!['M', 'B'].len() == 2 && seq!['M', 'B'][1] == 'B');
            assert(seq!['G', 'B'].len() == 2 && seq!['G', 'B'][1] == 'B');
        }
        return None;
    }
    let c: char = unit[0];
    proof {
        if unit@.len() == 1 {
            assert(unit@ =~= seq![c]);
        } else {
            assert(unit@ =~= seq![c, 'B']);
            assert(seq![c, 'B'][0] == c);
            assert(seq!['K', 'B'][0] == 'K');
            assert(seq!['M', 'B'][0] == 'M');
            assert(seq!['G', 'B'][0] == 'G');
        }
        assert(seq![c][0] == c);
        assert(seq!['B'][0] == 'B');
        assert(seq!['K'][0] == 'K');
        assert(seq!['M'][0] == 'M');
        assert(seq!['G'][0] == 'G');
    }
    if c == 'B' {
        if unit.len() == 1 {
            Some(0)
        } else {
            None
        }
    } else if c == 'K' {
        Some(10)
    } else if c == 'M' {
        Some(20)
    } else if c == 'G' {
        Some(30)
    } else {
        None
    }
}

} // verus!
