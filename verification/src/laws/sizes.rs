//! What a size that is written down stands for.

use crate::names::upper;
use crate::sizes::{
    decimal_parts, half_even, letter_from, nearest_floor, part_value, pow10, pow2, size_asked,
    unit_doublings,
};
use crate::text::{
    all_digits, decimal, digit, digits_value, index_from, law_decimal_reads_back,
    lemma_trimmed_solid, trimmed, white,
};
use vstd::prelude::*;

verus! {

/// 2 to the power of 53: below it every whole number is kept as it is.
pub open spec fn exact_below() -> int {
    9_007_199_254_740_992
}

proof fn lemma_exact(v: int, q: int)
    requires
        0 <= v < exact_below(),
        q >= 1,
    ensures
        nearest_floor(q * v, q) == v,
    decreases exact_below() - v,
{
    let d = q * v;
    if v == 0 {
        assert(d == 0) by (nonlinear_arith)
            requires
                d == q * v,
                v == 0,
        ;
    } else {
        assert(d > 0) by (nonlinear_arith)
            requires
                d == q * v,
                v > 0,
                q >= 1,
        ;
        assert(d < q * 9_007_199_254_740_992) by (nonlinear_arith)
            requires
                d == q * v,
                v < 9_007_199_254_740_992,
                q >= 1,
        ;
        if v < 4_503_599_627_370_496 {
            assert(d < q * 4_503_599_627_370_496) by (nonlinear_arith)
                requires
                    d == q * v,
                    v < 4_503_599_627_370_496,
                    q >= 1,
            ;
            assert(2 * d == q * (2 * v)) by (nonlinear_arith)
                requires
                    d == q * v,
            ;
            lemma_exact(2 * v, q);
        } else {
            assert(d >= q * 4_503_599_627_370_496) by (nonlinear_arith)
                requires
                    d == q * v,
                    v >= 4_503_599_627_370_496,
                    q >= 1,
            ;
            assert(d / q == v && d % q == 0) by {
                vstd::arithmetic::mul::lemma_mul_is_commutative(q, v);
                vstd::arithmetic::div_mod::lemma_fundamental_div_mod_converse(d, q, v, 0);
            }
            assert(half_even(d, q) == v);
        }
    }
}

proof fn lemma_doubled(u: int, q: int, k: nat)
    requires
        0 <= u < exact_below(),
        q >= 1,
    ensures
        nearest_floor(q * (u * pow2(k)), q) == u * pow2(k),
    decreases k,
{
    let v = u * pow2(k);
    assert(v >= 0) by {
        lemma_pow2_positive(k);
        assert(u * pow2(k) >= 0) by (nonlinear_arith)
            requires
                u >= 0,
                pow2(k) >= 1,
        ;
    }
    if v < exact_below() {
        lemma_exact(v, q);
    } else {
        if k == 0 {
            assert(u * 1 == u);
        }
        let h = u * pow2((k - 1) as nat);
        assert(v == 2 * h) by (nonlinear_arith)
            requires
                v == u * pow2(k),
                h == u * pow2((k - 1) as nat),
                pow2(k) == 2 * pow2((k - 1) as nat),
        ;
        let d = q * v;
        assert(d == (2 * q) * h) by (nonlinear_arith)
            requires
                d == q * v,
                v == 2 * h,
        ;
        assert(d >= q * 9_007_199_254_740_992 && d > 0) by (nonlinear_arith)
            requires
                d == q * v,
                v >= 9_007_199_254_740_992,
                q >= 1,
        ;
        lemma_doubled(u, 2 * q, (k - 1) as nat);
    }
}

proof fn lemma_pow2_positive(k: nat)
    ensures
        pow2(k) >= 1,
    decreases k,
{
    if k > 0 {
        lemma_pow2_positive((k - 1) as nat);
    }
}

proof fn lemma_units()
    ensures
        pow2(0) == 1,
        pow2(10) == 1024,
        pow2(20) == 1_048_576,
        pow2(30) == 1_073_741_824,
        pow2(9) == 512,
        pow2(19) == 524_288,
        pow2(29) == 536_870_912,
{
    reveal_with_fuel(pow2, 32);
}

/// How many bytes a unit stands for: bytes, KiB, MiB or GiB, in either case and with
/// or without a `B`.
pub open spec fn unit_bytes(unit: Seq<char>) -> Option<int> {
    let u = unit.map_values(|c: char| upper(c));
    if unit.len() == 0 || u == seq!['B'] {
        Some(1)
    } else if u == seq!['K'] || u == seq!['K', 'B'] {
        Some(1024)
    } else if u == seq!['M'] || u == seq!['M', 'B'] {
        Some(1_048_576)
    } else if u == seq!['G'] || u == seq!['G', 'B'] {
        Some(1_073_741_824)
    } else {
        None
    }
}

pub open spec fn letter(c: char) -> bool {
    'a' <= c <= 'z' || 'A' <= c <= 'Z'
}

proof fn lemma_letter_from(num: Seq<char>, unit: Seq<char>, i: int)
    requires
        0 <= i <= num.len(),
        forall|k: int| 0 <= k < num.len() ==> !letter(#[trigger] num[k]),
        forall|k: int| 0 <= k < unit.len() ==> letter(#[trigger] unit[k]),
    ensures
        letter_from(num + unit, i) == num.len(),
    decreases num.len() - i,
{
    let s = num + unit;
    if i < num.len() {
        assert(s[i] == num[i]);
        lemma_letter_from(num, unit, i + 1);
    } else if unit.len() > 0 {
        assert(s[i] == unit[0]);
    }
}

/// The number and the unit of a text are read apart.
proof fn lemma_apart(num: Seq<char>, unit: Seq<char>)
    requires
        num.len() > 0,
        forall|k: int|
            0 <= k < num.len() ==> !letter(#[trigger] num[k]) && !white(num[k]),
        forall|k: int| 0 <= k < unit.len() ==> letter(#[trigger] unit[k]),
    ensures
        ({
            let s = trimmed(num + unit);
            let i = letter_from(s, 0);
            &&& s == num + unit
            &&& trimmed(s.take(i)) == num
            &&& trimmed(s.skip(i)) == unit
        }),
{
    let s = num + unit;
    assert forall|k: int| 0 <= k < unit.len() implies !white(#[trigger] unit[k]) by {
        assert(letter(unit[k]));
    }
    assert forall|k: int| 0 <= k < s.len() implies !white(#[trigger] s[k]) by {
        if k < num.len() {
            assert(s[k] == num[k]);
        } else {
            assert(s[k] == unit[k - num.len()]);
        }
    }
    lemma_trimmed_solid(s);
    lemma_letter_from(num, unit, 0);
    assert(s.take(num.len() as int) =~= num);
    assert(s.skip(num.len() as int) =~= unit);
    lemma_trimmed_solid(num);
    lemma_trimmed_solid(unit);
}

/// A whole number and a unit stand for that many of the unit, or for as many bytes as
/// a machine word counts.
pub proof fn law_a_whole_size_is_exact(n: nat, unit: Seq<char>)
    requires
        n < exact_below(),
        forall|k: int| 0 <= k < unit.len() ==> letter(#[trigger] unit[k]),
        unit_bytes(unit) is Some,
    ensures
        n * unit_bytes(unit)->0 <= u64::MAX ==> size_asked(decimal(n) + unit) == Ok::<
            int,
            Seq<char>,
        >(n * unit_bytes(unit)->0),
        n * unit_bytes(unit)->0 > u64::MAX ==> size_asked(decimal(n) + unit) == Ok::<
            int,
            Seq<char>,
        >(u64::MAX as int),
{
    let num = decimal(n);
    law_decimal_reads_back(n);
    assert forall|k: int| 0 <= k < num.len() implies !letter(#[trigger] num[k]) && !white(num[k])
        && num[k] != '.' && num[k] != '-' && num[k] != '+' by {
        assert(digit(num[k]));
    }
    lemma_apart(num, unit);
    lemma_units();
    super::texts::lemma_nowhere(num, '.');
    let up = unit.map_values(|c: char| upper(c));
    if unit.len() == 0 {
        assert(up.len() == 0);
    }
    assert(decimal_parts(num) == Some((false, num, Seq::<char>::empty()))) by {
        assert(num[0] != '-' && num[0] != '+');
    }
    let j = unit_doublings(up)->0;
    assert(unit_doublings(up) is Some);
    assert(pow2(j) == unit_bytes(unit)->0);
    assert(pow10(0) == 1);
    assert(part_value(Seq::<char>::empty()) == 0);
    lemma_doubled(n as int, 1, j);
    assert(1 * (n * pow2(j)) == n * pow2(j));
    let d = digits_value(num) * pow10(0) + part_value(Seq::<char>::empty());
    assert(d == n);
    assert(d * pow2(j) == n * pow2(j));
}

/// Half a unit stands for half of its bytes.
#[verifier::rlimit(50)]
pub proof fn law_half_a_unit_is_exact(n: nat, unit: Seq<char>)
    requires
        2 * n + 1 < exact_below(),
        forall|k: int| 0 <= k < unit.len() ==> letter(#[trigger] unit[k]),
        unit_bytes(unit) is Some,
        unit_bytes(unit)->0 > 1,
        n * unit_bytes(unit)->0 + unit_bytes(unit)->0 <= u64::MAX,
    ensures
        size_asked(decimal(n) + seq!['.', '5'] + unit) == Ok::<int, Seq<char>>(
            n * unit_bytes(unit)->0 + unit_bytes(unit)->0 / 2,
        ),
{
    let whole = decimal(n);
    let num = whole + seq!['.', '5'];
    law_decimal_reads_back(n);
    assert forall|k: int| 0 <= k < whole.len() implies whole[k] != '.' by {
        assert(digit(whole[k]));
    }
    assert forall|k: int| 0 <= k < num.len() implies !letter(#[trigger] num[k]) && !white(
        num[k],
    ) by {
        if k < whole.len() {
            assert(digit(whole[k]));
            assert(num[k] == whole[k]);
        }
    }
    lemma_apart(num, unit);
    lemma_units();
    let part = seq!['5'];
    assert(num =~= whole + seq!['.'] + part);
    super::texts::lemma_first_at(whole, '.', part);
    assert(num.take(whole.len() as int) =~= whole);
    assert(digit(whole[0]));
    assert(num[0] == whole[0]);
    assert(all_digits(part));
    assert(decimal_parts(num) == Some((false, whole, part)));
    let up = unit.map_values(|c: char| upper(c));
    let j = unit_doublings(up)->0;
    assert(unit_doublings(up) is Some);
    let b = unit_bytes(unit)->0;
    assert(pow2(j) == b);
    assert(pow2((j - 1) as nat) * 2 == b);
    assert(pow10(0) == 1);
    assert(pow10(1) == 10);
    assert(part.drop_first() =~= seq![]);
    assert(part_value(part.drop_first()) == 0);
    assert(part_value(part) == 5);
    let d = digits_value(whole) * 10 + 5;
    let h = pow2((j - 1) as nat);
    let u = 2 * n + 1;
    assert(d * b == 10 * (u * h)) by (nonlinear_arith)
        requires
            d == n * 10 + 5,
            b == 2 * h,
            u == 2 * n + 1,
    ;
    lemma_doubled(u as int, 10, (j - 1) as nat);
    assert(u * h == n * b + b / 2) by (nonlinear_arith)
        requires
            b == 2 * h,
            u == 2 * n + 1,
    ;
}

/// A size below nothing is nothing; without a number, without anything, or with
/// another unit there is no size.
pub proof fn law_a_size_needs_a_number_and_a_unit(n: nat, unit: Seq<char>)
    requires
        forall|k: int| 0 <= k < unit.len() ==> letter(#[trigger] unit[k]),
    ensures
        unit_bytes(unit) is None ==> size_asked(decimal(n) + unit) is Err,
        unit_bytes(unit) is Some ==> size_asked(seq!['-'] + decimal(n) + unit) == Ok::<
            int,
            Seq<char>,
        >(0),
        size_asked(unit) is Err,
{
    let num = decimal(n);
    law_decimal_reads_back(n);
    assert forall|k: int| 0 <= k < num.len() implies !letter(#[trigger] num[k]) && !white(num[k])
        && num[k] != '.' && num[k] != '-' && num[k] != '+' by {
        assert(digit(num[k]));
    }
    lemma_apart(num, unit);
    let up = unit.map_values(|c: char| upper(c));
    super::texts::lemma_nowhere(num, '.');
    let minus = seq!['-'] + num;
    assert forall|k: int| 0 <= k < minus.len() implies !letter(#[trigger] minus[k]) && !white(
        minus[k],
    ) by {
        if k > 0 {
            assert(minus[k] == num[k - 1]);
        }
    }
    lemma_apart(minus, unit);
    assert(minus.drop_first() =~= num);
    assert(num[0] != '-' && num[0] != '+');
    assert(all_digits(Seq::<char>::empty()));
    assert(decimal_parts(minus) == Some((true, num, Seq::<char>::empty())));
    if unit.len() == 0 {
        assert(up.len() == 0);
    }
    assert(unit_doublings(up) is Some <==> unit_bytes(unit) is Some);
    assert forall|k: int| 0 <= k < unit.len() implies !white(#[trigger] unit[k]) by {
        assert(letter(unit[k]));
    }
    lemma_trimmed_solid(unit);
    let none = Seq::<char>::empty();
    lemma_letter_from(none, unit, 0);
    assert(none + unit =~= unit);
    assert(unit.take(0) =~= none);
    assert(trimmed(none) =~= none);
    assert(index_from(none, '.', 0) is None);
    assert(decimal_parts(none) is None);
}

/// What is rounded goes to the nearest whole number, and where two are as near to the
/// even one.
pub proof fn law_rounding_goes_to_the_nearest(d: int, q: int)
    requires
        0 <= d,
        1 <= q,
    ensures
        ({
            let h = half_even(d, q);
            &&& 2 * (d - q * h) <= q
            &&& 2 * (q * h - d) <= q
            &&& 2 * (d - q * h) == q || 2 * (q * h - d) == q ==> h % 2 == 0
        }),
{
    let m = d / q;
    let r = d % q;
    let h = half_even(d, q);
    assert(d == q * m + r && 0 <= r < q) by (nonlinear_arith)
        requires
            m == d / q,
            r == d % q,
            q >= 1,
    ;
    assert(q * (m + 1) == q * m + q) by (nonlinear_arith);
}

} // verus!
