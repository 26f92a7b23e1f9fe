//! Facts about texts that the laws rest on.

use crate::names::{before_first, behind_last};
use crate::text::{
    decimal, digit, index_from, last_index, law_decimal_reads_back, lemma_index_from,
    lemma_last_index, lemma_trimmed_solid, number, trim_back, trim_front, trimmed, unsigned_digits,
    white,
};
use vstd::prelude::*;
use vstd::string::*;

verus! {

/// A number written out is read back as the number, and holds nothing but digits.
pub proof fn law_a_written_number_is_read(n: nat, max: int)
    requires
        n <= max,
    ensures
        number(decimal(n), max) == Some(n as int),
        decimal(n).len() > 0,
        trimmed(decimal(n)) == decimal(n),
        forall|i: int|
            0 <= i < decimal(n).len() ==> digit(#[trigger] decimal(n)[i]) && !white(decimal(n)[i]),
{
    law_decimal_reads_back(n);
    let d = decimal(n);
    assert forall|i: int| 0 <= i < d.len() implies digit(#[trigger] d[i]) && !white(d[i]) by {
        assert(digit(d[i]));
    }
    lemma_trimmed_solid(d);
    assert(digit(d[0]));
    assert(unsigned_digits(d) == d);
}

/// Two different numbers are written differently.
pub proof fn law_numbers_are_told_apart(a: nat, b: nat)
    requires
        decimal(a) == decimal(b),
    ensures
        a == b,
{
    law_decimal_reads_back(a);
    law_decimal_reads_back(b);
}

/// A text that is no number is not read as one: a number has a digit, and nothing but
/// digits behind a plus sign.
pub proof fn law_only_digits_are_a_number(s: Seq<char>, max: int)
    requires
        number(s, max) is Some,
    ensures
        s.len() > 0,
        0 <= number(s, max)->0 <= max,
        digit(s.last()),
        forall|i: int| 0 < i < s.len() ==> digit(#[trigger] s[i]),
        digit(s[0]) || s[0] == '+',
{
    let d = unsigned_digits(s);
    crate::text::lemma_digits_nonneg(d);
    assert forall|i: int| 0 < i < s.len() implies digit(#[trigger] s[i]) by {
        if s[0] == '+' {
            assert(d[i - 1] == s[i]);
        } else {
            assert(d[i] == s[i]);
        }
    }
    if s[0] == '+' {
        assert(d[d.len() - 1] == s.last());
    } else {
        assert(digit(d[0]));
        assert(digit(d[d.len() - 1]));
    }
}

/// Where a character stands that does not stand before.
pub proof fn lemma_first_at(a: Seq<char>, c: char, b: Seq<char>)
    requires
        forall|i: int| 0 <= i < a.len() ==> a[i] != c,
    ensures
        index_from(a + seq![c] + b, c, 0) == Some(a.len() as int),
        before_first(a + seq![c] + b, c) == a,
        (a + seq![c] + b).skip(a.len() as int + 1) == b,
{
    let s = a + seq![c] + b;
    lemma_index_from(s, c, 0);
    assert(s[a.len() as int] == c);
    let k = index_from(s, c, 0)->0;
    if k < a.len() {
        assert(s[k] == a[k]);
    }
    assert(s.take(a.len() as int) =~= a);
    assert(s.skip(a.len() as int + 1) =~= b);
}

/// A character that does not stand in a text.
pub proof fn lemma_nowhere(a: Seq<char>, c: char)
    requires
        forall|i: int| 0 <= i < a.len() ==> a[i] != c,
    ensures
        index_from(a, c, 0) is None,
        before_first(a, c) == a,
        last_index(a, c, a.len() as int) is None,
        behind_last(a, c) == a,
{
    lemma_index_from(a, c, 0);
    lemma_last_index(a, c, a.len() as int);
}

/// What stands behind the last of a character.
pub proof fn lemma_last_at(a: Seq<char>, c: char, b: Seq<char>)
    requires
        forall|i: int| 0 <= i < b.len() ==> b[i] != c,
    ensures
        last_index(a + seq![c] + b, c, (a + seq![c] + b).len() as int) == Some(a.len() as int),
        behind_last(a + seq![c] + b, c) == b,
{
    let s = a + seq![c] + b;
    let n = s.len() as int;
    lemma_last_index(s, c, n);
    assert(s[a.len() as int] == c);
    let k = last_index(s, c, n)->0;
    if k > a.len() {
        assert(s[k] == b[k - a.len() - 1]);
    }
    assert(s.skip(a.len() as int + 1) =~= b);
}

/// Trimming takes off white space at the ends and nothing else.
pub proof fn law_trimming_takes_white_space_off(s: Seq<char>)
    ensures
        trimmed(s).len() > 0 ==> !white(trimmed(s)[0]) && !white(trimmed(s).last()),
        exists|a: int, b: int|
            {
                &&& 0 <= a <= b <= s.len()
                &&& trimmed(s) == #[trigger] s.subrange(a, b)
                &&& forall|i: int| 0 <= i < a ==> white(#[trigger] s[i])
                &&& forall|i: int| b <= i < s.len() ==> white(#[trigger] s[i])
            },
{
    lemma_front_part(s);
    let f = trim_front(s);
    let a = choose|a: int|
        0 <= a <= s.len() && trim_front(s) == #[trigger] s.skip(a) && (forall|i: int|
            0 <= i < a ==> white(#[trigger] s[i])) && (a < s.len() ==> !white(s[a]));
    lemma_back_part(f);
    let k = choose|k: int|
        0 <= k <= f.len() && trim_back(f) == #[trigger] f.take(k) && (forall|i: int|
            k <= i < f.len() ==> white(#[trigger] f[i])) && (k > 0 ==> !white(f[k - 1]));
    assert(f.take(k) =~= s.subrange(a, a + k));
    assert forall|i: int| a + k <= i < s.len() implies white(#[trigger] s[i]) by {
        assert(f[i - a] == s[i]);
    }
    if k > 0 {
        assert(trimmed(s)[0] == s[a]);
    }
}

proof fn lemma_front_part(s: Seq<char>)
    ensures
        exists|a: int|
            0 <= a <= s.len() && trim_front(s) == #[trigger] s.skip(a) && (forall|i: int|
                0 <= i < a ==> white(#[trigger] s[i])) && (a < s.len() ==> !white(s[a])),
    decreases s.len(),
{
    if s.len() > 0 && white(s[0]) {
        let t = s.drop_first();
        lemma_front_part(t);
        let a = choose|a: int|
            0 <= a <= t.len() && trim_front(t) == #[trigger] t.skip(a) && (forall|i: int|
                0 <= i < a ==> white(#[trigger] t[i])) && (a < t.len() ==> !white(t[a]));
        assert(t.skip(a) =~= s.skip(a + 1));
        assert forall|i: int| 0 <= i < a + 1 implies white(#[trigger] s[i]) by {
            if i > 0 {
                assert(t[i - 1] == s[i]);
            }
        }
    } else {
        assert(s.skip(0) =~= s);
    }
}

proof fn lemma_back_part(s: Seq<char>)
    ensures
        exists|k: int|
            0 <= k <= s.len() && trim_back(s) == #[trigger] s.take(k) && (forall|i: int|
                k <= i < s.len() ==> white(#[trigger] s[i])) && (k > 0 ==> !white(s[k - 1])),
    decreases s.len(),
{
    if s.len() > 0 && white(s.last()) {
        let t = s.drop_last();
        lemma_back_part(t);
        let k = choose|k: int|
            0 <= k <= t.len() && trim_back(t) == #[trigger] t.take(k) && (forall|i: int|
                k <= i < t.len() ==> white(#[trigger] t[i])) && (k > 0 ==> !white(t[k - 1]));
        assert(t.take(k) =~= s.take(k));
        assert forall|i: int| k <= i < s.len() implies white(#[trigger] s[i]) by {
            if i < s.len() - 1 {
                assert(t[i] == s[i]);
            }
        }
    } else {
        assert(s.take(s.len() as int) =~= s);
    }
}

/// White space is what it is: blank, tab, line feed, carriage return, and no letter,
/// digit or mark of ASCII.
pub proof fn law_marks_are_not_white(c: char)
    ensures
        c == ' ' || c == '\t' || c == '\n' || c == '\r' ==> white(c),
        '!' <= c <= '~' ==> !white(c),
{
}

} // verus!
