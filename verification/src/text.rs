//! Characters and strings.

use vstd::prelude::*;
use vstd::string::*;

verus! {

/// The characters of `s`, one by one.
pub fn chars_of(s: &str) -> (out: Vec<char>)
    ensures
        out@ == s@,
{
    let mut out: Vec<char> = Vec::new();
    for c in it: s.chars()
        invariant
            out@ == it.seq().take(it.index()),
            it.seq() == s@,
    {
        out.push(c);
    }
    assert(s@.take(s@.len() as int) == s@);
    out
}

/// Appends one character. Calls `String::push`, which leaves the string as it
/// was with the character behind it.
#[verifier::external_body]
pub(crate) fn push_char(s: &mut String, c: char)
    ensures
        final(s)@ == old(s)@.push(c),
{
    s.push(c);
}

/// The string made of the characters of `chars`.
pub fn string_of(chars: &[char]) -> (out: String)
    ensures
        out@ == chars@,
{
    let mut out: String = String::new();
    let mut i: usize = 0;
    while i < chars.len()
        invariant
            i <= chars.len(),
            out@ == chars@.take(i as int),
        decreases chars.len() - i,
    {
        push_char(&mut out, chars[i]);
        proof {
            assert(chars@.take(i as int).push(chars@[i as int]) == chars@.take(i + 1));
        }
        i = i + 1;
    }
    assert(chars@.take(chars@.len() as int) == chars@);
    out
}

/// A copy of a stretch of characters.
pub fn slice_of(chars: &[char], from: usize, to: usize) -> (out: Vec<char>)
    requires
        from <= to <= chars@.len(),
    ensures
        out@ == chars@.subrange(from as int, to as int),
{
    let mut out: Vec<char> = Vec::new();
    let mut i: usize = from;
    while i < to
        invariant
            from <= i <= to <= chars@.len(),
            out@ == chars@.subrange(from as int, i as int),
        decreases to - i,
    {
        out.push(chars[i]);
        proof {
            assert(chars@.subrange(from as int, i as int).push(chars@[i as int])
                == chars@.subrange(from as int, i + 1));
        }
        i = i + 1;
    }
    out
}

/// Two strings hold the same characters.
pub fn same_text(a: &str, b: &str) -> (out: bool)
    ensures
        out == (a@ == b@),
{
    a.to_owned() == b.to_owned()
}

/// Two stretches of characters are the same.
pub fn same_chars(a: &[char], b: &[char]) -> (out: bool)
    ensures
        out == (a@ == b@),
{
    if a.len() != b.len() {
        return false;
    }
    let mut i: usize = 0;
    while i < a.len()
        invariant
            a@.len() == b@.len(),
            i <= a@.len(),
            forall|k: int| 0 <= k < i ==> a@[k] == b@[k],
        decreases a.len() - i,
    {
        if a[i] != b[i] {
            assert(a@[i as int] != b@[i as int]);
            return false;
        }
        i = i + 1;
    }
    assert(a@ =~= b@);
    true
}

/// The views of a list of strings.
pub open spec fn views(l: Seq<String>) -> Seq<Seq<char>> {
    l.map_values(|s: String| s@)
}

/// The views of a list of lists of strings.
pub open spec fn views2(l: Seq<Vec<String>>) -> Seq<Seq<Seq<char>>> {
    l.map_values(|s: Vec<String>| views(s@))
}

/// A copy of a list of strings.
pub fn clone_strings(l: &Vec<String>) -> (out: Vec<String>)
    ensures
        views(out@) == views(l@),
{
    let mut out: Vec<String> = Vec::new();
    let mut i: usize = 0;
    while i < l.len()
        invariant
            i <= l.len(),
            out@.len() == i,
            forall|k: int| 0 <= k < i ==> (#[trigger] out@[k])@ == l@[k]@,
        decreases l.len() - i,
    {
        out.push(l[i].clone());
        i = i + 1;
    }
    assert(views(out@) =~= views(l@));
    out
}

/// The optional string's characters.
pub open spec fn opt_view(s: Option<String>) -> Option<Seq<char>> {
    match s {
        Some(t) => Some(t@),
        None => None,
    }
}

/// A copy of an optional string.
pub fn clone_opt(s: &Option<String>) -> (out: Option<String>)
    ensures
        opt_view(out) == opt_view(*s),
{
    match s {
        Some(t) => Some(t.clone()),
        None => None,
    }
}

/// Two optional strings are the same.
pub fn same_opt(a: &Option<String>, b: &Option<String>) -> (out: bool)
    ensures
        out == (opt_view(*a) == opt_view(*b)),
{
    match (a, b) {
        (Some(x), Some(y)) => *x == *y,
        (None, None) => true,
        _ => false,
    }
}

/// The characters that Unicode calls white space.
pub open spec fn white(c: char) -> bool {
    let u = c as u32;
    9 <= u <= 13 || u == 0x20 || u == 0x85 || u == 0xA0 || u == 0x1680 || 0x2000 <= u <= 0x200A
        || u == 0x2028 || u == 0x2029 || u == 0x202F || u == 0x205F || u == 0x3000
}

/// `c` is white space.
pub fn is_white(c: char) -> (out: bool)
    ensures
        out == white(c),
{
    let u: u32 = c as u32;
    (9 <= u && u <= 13) || u == 0x20 || u == 0x85 || u == 0xA0 || u == 0x1680 || (0x2000 <= u && u
        <= 0x200A) || u == 0x2028 || u == 0x2029 || u == 0x202F || u == 0x205F || u == 0x3000
}

/// Without the white space in front.
pub open spec fn trim_front(s: Seq<char>) -> Seq<char>
    decreases s.len(),
{
    if s.len() > 0 && white(s[0]) {
        trim_front(s.drop_first())
    } else {
        s
    }
}

/// Without the white space behind.
pub open spec fn trim_back(s: Seq<char>) -> Seq<char>
    decreases s.len(),
{
    if s.len() > 0 && white(s.last()) {
        trim_back(s.drop_last())
    } else {
        s
    }
}

/// Without the white space at either end.
pub open spec fn trimmed(s: Seq<char>) -> Seq<char> {
    trim_back(trim_front(s))
}

/// Trimming a stretch of characters.
pub fn trim_chars(chars: &[char]) -> (out: Vec<char>)
    ensures
        out@ == trimmed(chars@),
{
    let n: usize = chars.len();
    let mut from: usize = 0;
    assert(chars@.skip(0) == chars@);
    while from < n && is_white(chars[from])
        invariant
            from <= n == chars@.len(),
            trim_front(chars@) == trim_front(chars@.skip(from as int)),
        decreases n - from,
    {
        proof {
            assert(chars@.skip(from as int).drop_first() == chars@.skip(from + 1));
        }
        from = from + 1;
    }
    proof {
        assert(chars@.skip(from as int) == chars@.subrange(from as int, n as int));
        assert(trim_front(chars@) == chars@.subrange(from as int, n as int));
    }
    let mut to: usize = n;
    while to > from && is_white(chars[to - 1])
        invariant
            from <= to <= n == chars@.len(),
            trimmed(chars@) == trim_back(chars@.subrange(from as int, to as int)),
        decreases to,
    {
        proof {
            assert(chars@.subrange(from as int, to as int).drop_last() == chars@.subrange(
                from as int,
                to - 1,
            ));
        }
        to = to - 1;
    }
    slice_of(chars, from, to)
}

/// Trimming a string.
pub fn trim(s: &str) -> (out: String)
    ensures
        out@ == trimmed(s@),
{
    let chars: Vec<char> = chars_of(s);
    string_of(&trim_chars(&chars))
}

/// The ASCII letter in lower case; any other character as it is.
pub open spec fn lower(c: char) -> char {
    if 'A' <= c <= 'Z' {
        ((c as u8 + 32) as u8) as char
    } else {
        c
    }
}

pub fn to_lower(c: char) -> (out: char)
    ensures
        out == lower(c),
{
    if 'A' <= c && c <= 'Z' {
        ((c as u8) + 32) as char
    } else {
        c
    }
}

/// The string with its ASCII letters in lower case.
pub open spec fn lowered(s: Seq<char>) -> Seq<char> {
    s.map_values(|c: char| lower(c))
}

pub fn lower_chars(chars: &[char]) -> (out: Vec<char>)
    ensures
        out@ == lowered(chars@),
{
    let mut out: Vec<char> = Vec::new();
    let mut i: usize = 0;
    while i < chars.len()
        invariant
            i <= chars@.len(),
            out@.len() == i,
            forall|k: int| 0 <= k < i ==> #[trigger] out@[k] == lower(chars@[k]),
        decreases chars.len() - i,
    {
        out.push(to_lower(chars[i]));
        i = i + 1;
    }
    assert(out@ =~= lowered(chars@));
    out
}

/// `s` begins with `prefix`.
pub open spec fn begins_with(s: Seq<char>, prefix: Seq<char>) -> bool {
    prefix.len() <= s.len() && s.take(prefix.len() as int) == prefix
}

pub fn starts_with(s: &[char], prefix: &[char]) -> (out: bool)
    ensures
        out == begins_with(s@, prefix@),
{
    matches_at(s, 0, prefix)
}

/// `s` ends with `suffix`.
pub open spec fn finishes_with(s: Seq<char>, suffix: Seq<char>) -> bool {
    suffix.len() <= s.len() && s.skip(s.len() - suffix.len()) == suffix
}

pub fn ends_with(s: &[char], suffix: &[char]) -> (out: bool)
    ensures
        out == finishes_with(s@, suffix@),
{
    if suffix.len() > s.len() {
        return false;
    }
    let at: usize = s.len() - suffix.len();
    proof {
        assert(s@.skip(at as int) == s@.subrange(at as int, at + suffix@.len()));
    }
    matches_at(s, at, suffix)
}

/// `part` stands in `s` at index `at`.
pub open spec fn stands_at(s: Seq<char>, at: int, part: Seq<char>) -> bool {
    0 <= at && at + part.len() <= s.len() && s.subrange(at, at + part.len()) == part
}

pub fn matches_at(s: &[char], at: usize, part: &[char]) -> (out: bool)
    requires
        at <= s@.len(),
    ensures
        out == stands_at(s@, at as int, part@),
        at == 0 ==> out == begins_with(s@, part@),
{
    if part.len() > s.len() - at {
        return false;
    }
    let mut i: usize = 0;
    let n: usize = s.len();
    while i < part.len()
        invariant
            i <= part@.len(),
            n == s@.len(),
            at + part@.len() <= n,
            forall|k: int| 0 <= k < i ==> s@[at + k] == #[trigger] part@[k],
        decreases part.len() - i,
    {
        if s[at + i] != part[i] {
            proof {
                assert(s@.subrange(at as int, at + part@.len())[i as int] != part@[i as int]);
                if at == 0 {
                    assert(s@.take(part@.len() as int)[i as int] != part@[i as int]);
                }
            }
            return false;
        }
        i = i + 1;
    }
    proof {
        assert(s@.subrange(at as int, at + part@.len()) =~= part@);
        if at == 0 {
            assert(s@.take(part@.len() as int) =~= part@);
        }
    }
    true
}

/// Index of the first `c` in `s`, from `i` on.
pub open spec fn index_from(s: Seq<char>, c: char, i: int) -> Option<int>
    decreases s.len() - i,
{
    if i >= s.len() {
        None
    } else if s[i] == c {
        Some(i)
    } else {
        index_from(s, c, i + 1)
    }
}

pub proof fn lemma_index_from(s: Seq<char>, c: char, i: int)
    requires
        0 <= i,
    ensures
        match index_from(s, c, i) {
            Some(k) => i <= k < s.len() && s[k] == c && forall|j: int| i <= j < k ==> s[j] != c,
            None => forall|j: int| i <= j < s.len() ==> s[j] != c,
        },
    decreases s.len() - i,
{
    if i < s.len() && s[i] != c {
        lemma_index_from(s, c, i + 1);
    }
}

pub fn find_char(s: &[char], c: char, from: usize) -> (out: Option<usize>)
    requires
        from <= s@.len(),
    ensures
        match out {
            Some(i) => index_from(s@, c, from as int) == Some(i as int) && from <= i < s@.len()
                && s@[i as int] == c,
            None => index_from(s@, c, from as int) is None,
        },
{
    let mut i: usize = from;
    while i < s.len()
        invariant
            from <= i <= s@.len(),
            index_from(s@, c, from as int) == index_from(s@, c, i as int),
        decreases s.len() - i,
    {
        if s[i] == c {
            return Some(i);
        }
        i = i + 1;
    }
    None
}

/// Index of the last `c` among the first `n` characters of `s`.
pub open spec fn last_index(s: Seq<char>, c: char, n: int) -> Option<int>
    decreases n,
{
    if n <= 0 {
        None
    } else if s[n - 1] == c {
        Some(n - 1)
    } else {
        last_index(s, c, n - 1)
    }
}

pub fn rfind_char(s: &[char], c: char) -> (out: Option<usize>)
    ensures
        match out {
            Some(i) => last_index(s@, c, s@.len() as int) == Some(i as int) && i < s@.len() && s@[i as int]
                == c,
            None => last_index(s@, c, s@.len() as int) is None,
        },
{
    let mut n: usize = s.len();
    while n > 0
        invariant
            n <= s@.len(),
            last_index(s@, c, s@.len() as int) == last_index(s@, c, n as int),
        decreases n,
    {
        if s[n - 1] == c {
            return Some(n - 1);
        }
        n = n - 1;
    }
    None
}

/// Index, from `i` on, where `part` first stands in `s`.
pub open spec fn part_from(s: Seq<char>, part: Seq<char>, i: int) -> Option<int>
    decreases s.len() + 1 - i,
{
    if i > s.len() {
        None
    } else if stands_at(s, i, part) {
        Some(i)
    } else {
        part_from(s, part, i + 1)
    }
}

pub fn find_part(s: &[char], part: &[char], from: usize) -> (out: Option<usize>)
    requires
        from <= s@.len(),
    ensures
        match out {
            Some(i) => part_from(s@, part@, from as int) == Some(i as int) && stands_at(
                s@,
                i as int,
                part@,
            ) && from <= i,
            None => part_from(s@, part@, from as int) is None,
        },
{
    let n: usize = s.len();
    let mut i: usize = from;
    while i < n
        invariant
            from <= i <= n,
            n == s@.len(),
            part_from(s@, part@, from as int) == part_from(s@, part@, i as int),
        decreases n - i,
    {
        if matches_at(s, i, part) {
            return Some(i);
        }
        i = i + 1;
    }
    if matches_at(s, n, part) {
        Some(n)
    } else {
        assert(part_from(s@, part@, n + 1) is None);
        None
    }
}

/// The pieces of `s` between the occurrences of `c`; one piece more than there
/// are occurrences.
pub open spec fn split_on(s: Seq<char>, c: char) -> Seq<Seq<char>>
    decreases s.len(),
{
    match index_from(s, c, 0) {
        Some(i) if 0 <= i < s.len() => seq![s.take(i)] + split_on(s.skip(i + 1), c),
        _ => seq![s],
    }
}

pub fn split_chars(s: &[char], c: char) -> (out: Vec<Vec<char>>)
    ensures
        out@.map_values(|v: Vec<char>| v@) == split_on(s@, c),
        out@.len() > 0,
{
    let mut out: Vec<Vec<char>> = Vec::new();
    let mut from: usize = 0;
    let ghost f = |v: Vec<char>| v@;
    proof {
        assert(s@.skip(0) == s@);
        assert(out@.map_values(f) + split_on(s@, c) =~= split_on(s@, c));
    }
    let n: usize = s.len();
    loop
        invariant
            from <= n,
            n == s@.len(),
            f == (|v: Vec<char>| v@),
            out@.map_values(f) + split_on(s@.skip(from as int), c) == split_on(s@, c),
        decreases s@.len() - from,
    {
        let ghost rest = s@.skip(from as int);
        proof {
            lemma_index_skip(s@, c, from as int, 0);
        }
        match find_char(s, c, from) {
            Some(i) => {
                proof {
                    assert(index_from(rest, c, 0) == Some(i - from));
                    assert(rest.take(i - from) =~= s@.subrange(from as int, i as int));
                    assert(rest.skip(i - from + 1) =~= s@.skip(i + 1));
                }
                let ghost before = out@;
                let piece: Vec<char> = slice_of(s, from, i);
                out.push(piece);
                proof {
                    assert(out@.map_values(f) =~= before.map_values(f).push(piece@));
                    assert(before.map_values(f) + (seq![piece@] + split_on(s@.skip(i + 1), c))
                        =~= out@.map_values(f) + split_on(s@.skip(i + 1), c));
                }
                from = i + 1;
            },
            None => {
                let ghost before = out@;
                let piece: Vec<char> = slice_of(s, from, s.len());
                out.push(piece);
                proof {
                    assert(piece@ =~= rest);
                    assert(out@.map_values(f) =~= before.map_values(f) + seq![rest]);
                }
                return out;
            },
        }
    }
}

proof fn lemma_index_skip(s: Seq<char>, c: char, n: int, i: int)
    requires
        0 <= n <= s.len(),
        0 <= i,
    ensures
        index_from(s.skip(n), c, i) == match index_from(s, c, n + i) {
            Some(k) => Some(k - n),
            None => None,
        },
    decreases s.len() - n - i,
{
    if i < s.len() - n && s[n + i] != c {
        lemma_index_skip(s, c, n, i + 1);
    }
}

/// `c` is one of the ten digits.
pub open spec fn digit(c: char) -> bool {
    '0' <= c <= '9'
}

/// The value of a string of digits.
pub open spec fn digits_value(s: Seq<char>) -> int
    decreases s.len(),
{
    if s.len() == 0 {
        0
    } else {
        digits_value(s.drop_last()) * 10 + (s.last() as u32 - '0' as u32)
    }
}

pub open spec fn all_digits(s: Seq<char>) -> bool {
    forall|i: int| 0 <= i < s.len() ==> digit(#[trigger] s[i])
}

/// The digits of a number: an optional plus sign is dropped.
pub open spec fn unsigned_digits(s: Seq<char>) -> Seq<char> {
    if s.len() > 0 && s[0] == '+' {
        s.drop_first()
    } else {
        s
    }
}

/// The number that `s` spells, if it is one and no larger than `max`: an optional
/// plus sign, then digits only, at least one.
pub open spec fn number(s: Seq<char>, max: int) -> Option<int> {
    let d = unsigned_digits(s);
    if d.len() > 0 && all_digits(d) && digits_value(d) <= max {
        Some(digits_value(d))
    } else {
        None
    }
}

proof fn lemma_digits_grow(s: Seq<char>, n: int)
    requires
        0 <= n <= s.len(),
        all_digits(s),
    ensures
        0 <= digits_value(s.take(n)) <= digits_value(s),
    decreases s.len() - n,
{
    if n < s.len() {
        lemma_digits_grow(s, n + 1);
        assert(s.take(n + 1).drop_last() =~= s.take(n));
        assert(digit(s[n]));
        lemma_digits_nonneg(s.take(n));
    } else {
        assert(s.take(n) =~= s);
        lemma_digits_nonneg(s);
    }
}

pub proof fn lemma_digits_nonneg(s: Seq<char>)
    requires
        all_digits(s),
    ensures
        0 <= digits_value(s),
    decreases s.len(),
{
    if s.len() > 0 {
        assert(digit(s[s.len() - 1]));
        assert forall|i: int| 0 <= i < s.drop_last().len() implies digit(
            #[trigger] s.drop_last()[i],
        ) by {
            assert(digit(s[i]));
        }
        lemma_digits_nonneg(s.drop_last());
    }
}

/// Reads an unsigned number that is at most `max`.
pub fn parse_number(s: &[char], max: u64) -> (out: Option<u64>)
    ensures
        match out {
            Some(n) => number(s@, max as int) == Some(n as int),
            None => number(s@, max as int) is None,
        },
{
    let from: usize = if s.len() > 0 && s[0] == '+' {
        1
    } else {
        0
    };
    let ghost d = unsigned_digits(s@);
    if from >= s.len() {
        return None;
    }
    let mut value: u64 = 0;
    let mut i: usize = from;
    proof {
        assert(d =~= s@.skip(from as int));
        assert(d.take(0) =~= Seq::empty());
    }
    while i < s.len()
        invariant
            from <= i <= s@.len(),
            from < s@.len(),
            d == s@.skip(from as int),
            d == unsigned_digits(s@),
            value == digits_value(d.take(i - from)),
            forall|k: int| 0 <= k < i - from ==> digit(#[trigger] d[k]),
            value <= max,
        decreases s.len() - i,
    {
        let c: char = s[i];
        proof {
            assert(d[i - from] == c);
            assert(d.take(i - from + 1).drop_last() =~= d.take(i - from));
        }
        if !('0' <= c && c <= '9') {
            assert(!digit(d[i - from]));
            return None;
        }
        let v: u64 = (c as u32 - '0' as u32) as u64;
        let wide: u128 = (value as u128) * 10 + (v as u128);
        if wide > max as u128 {
            proof {
                if all_digits(d) {
                    lemma_digits_grow(d, i - from + 1);
                }
            }
            return None;
        }
        value = wide as u64;
        i = i + 1;
    }
    proof {
        assert(d.take(d.len() as int) =~= d);
    }
    Some(value)
}

/// The decimal digits of `n`.
pub open spec fn decimal(n: nat) -> Seq<char>
    decreases n,
{
    if n < 10 {
        seq![(('0' as u32 + n) as u32) as char]
    } else {
        decimal(n / 10).push((('0' as u32 + n % 10) as u32) as char)
    }
}

/// The character of one digit.
fn digit_char(d: u64) -> (out: char)
    requires
        d < 10,
    ensures
        out == (('0' as u32 + d as nat) as u32) as char,
{
    (48u8 + d as u8) as char
}

pub fn decimal_chars(n: u64) -> (out: Vec<char>)
    ensures
        out@ == decimal(n as nat),
        out@.len() >= 1,
    decreases n,
{
    if n < 10 {
        vec![digit_char(n)]
    } else {
        let mut out: Vec<char> = decimal_chars(n / 10);
        out.push(digit_char(n % 10));
        out
    }
}

/// Writes a number out in decimal digits.
pub fn decimal_text(n: u64) -> (out: String)
    ensures
        out@ == decimal(n as nat),
{
    string_of(&decimal_chars(n))
}

/// The decimal digits of a number read back as the number.
pub proof fn law_decimal_reads_back(n: nat)
    ensures
        decimal(n).len() > 0,
        all_digits(decimal(n)),
        digits_value(decimal(n)) == n,
    decreases n,
{
    if n < 10 {
        let d = decimal(n);
        assert(d.drop_last() =~= Seq::empty());
        assert(digits_value(d.drop_last()) == 0);
        assert(d.last() as u32 == '0' as u32 + n);
        assert(digits_value(d) == 0 * 10 + n);
    } else {
        law_decimal_reads_back(n / 10);
        let d = decimal(n);
        assert(d.drop_last() =~= decimal(n / 10));
        assert(d.last() as u32 == '0' as u32 + n % 10);
        assert(digits_value(d) == digits_value(d.drop_last()) * 10 + n % 10);
        assert(n == (n / 10) * 10 + n % 10);
        assert forall|i: int| 0 <= i < d.len() implies digit(#[trigger] d[i]) by {
            if i < d.len() - 1 {
                assert(d[i] == decimal(n / 10)[i]);
            }
        }
    }
}

/// Puts texts behind one another.
pub fn join3(a: &str, b: &str, c: &str) -> (out: String)
    ensures
        out@ == a@ + b@ + c@,
{
    let mut out: String = a.to_owned();
    out.append(b);
    out.append(c);
    out
}

pub fn join2(a: &str, b: &str) -> (out: String)
    ensures
        out@ == a@ + b@,
{
    let mut out: String = a.to_owned();
    out.append(b);
    out
}


/// A text without white space is not trimmed.
pub proof fn lemma_trimmed_solid(s: Seq<char>)
    requires
        forall|i: int| 0 <= i < s.len() ==> !white(#[trigger] s[i]),
    ensures
        trimmed(s) == s,
{
    if s.len() > 0 {
        assert(!white(s[0]));
        assert(!white(s[s.len() - 1]));
    }
}

/// Without the `c`s in front.
pub open spec fn without_front(s: Seq<char>, c: char) -> Seq<char>
    decreases s.len(),
{
    if s.len() > 0 && s[0] == c {
        without_front(s.drop_first(), c)
    } else {
        s
    }
}

/// Without the `c`s behind.
pub open spec fn without_back(s: Seq<char>, c: char) -> Seq<char>
    decreases s.len(),
{
    if s.len() > 0 && s.last() == c {
        without_back(s.drop_last(), c)
    } else {
        s
    }
}

pub fn drop_front(s: &[char], c: char) -> (out: Vec<char>)
    ensures
        out@ == without_front(s@, c),
{
    let n: usize = s.len();
    let mut from: usize = 0;
    assert(s@.skip(0) =~= s@);
    while from < n && s[from] == c
        invariant
            from <= n == s@.len(),
            without_front(s@, c) == without_front(s@.skip(from as int), c),
        decreases n - from,
    {
        assert(s@.skip(from as int).drop_first() =~= s@.skip(from + 1));
        from = from + 1;
    }
    assert(s@.skip(from as int) =~= s@.subrange(from as int, n as int));
    slice_of(s, from, n)
}

pub fn drop_back(s: &[char], c: char) -> (out: Vec<char>)
    ensures
        out@ == without_back(s@, c),
{
    let mut to: usize = s.len();
    assert(s@.take(to as int) =~= s@);
    while to > 0 && s[to - 1] == c
        invariant
            to <= s@.len(),
            without_back(s@, c) == without_back(s@.take(to as int), c),
        decreases to,
    {
        assert(s@.take(to as int).drop_last() =~= s@.take(to - 1));
        to = to - 1;
    }
    assert(s@.take(to as int) =~= s@.subrange(0, to as int));
    slice_of(s, 0, to)
}

/// Without one `prefix` in front, where it stands there.
pub open spec fn behind_prefix(s: Seq<char>, prefix: Seq<char>) -> Option<Seq<char>> {
    if begins_with(s, prefix) {
        Some(s.skip(prefix.len() as int))
    } else {
        None
    }
}

pub fn strip_prefix(s: &[char], prefix: &str) -> (out: Option<Vec<char>>)
    ensures
        match out {
            Some(v) => behind_prefix(s@, prefix@) == Some(v@),
            None => behind_prefix(s@, prefix@) is None,
        },
{
    let p: Vec<char> = chars_of(prefix);
    if starts_with(s, &p) {
        let out: Vec<char> = slice_of(s, p.len(), s.len());
        assert(out@ =~= s@.skip(p@.len() as int));
        Some(out)
    } else {
        None
    }
}

/// `c` stands in `s`.
pub fn has_char(s: &[char], c: char) -> (out: bool)
    ensures
        out == s@.contains(c),
{
    let mut i: usize = 0;
    while i < s.len()
        invariant
            i <= s@.len(),
            forall|k: int| 0 <= k < i ==> #[trigger] s@[k] != c,
        decreases s.len() - i,
    {
        if s[i] == c {
            return true;
        }
        i = i + 1;
    }
    false
}

/// Appends characters to characters.
pub fn append_chars(to: &mut Vec<char>, more: &[char])
    ensures
        final(to)@ == old(to)@ + more@,
{
    let ghost had = to@;
    assert(to@ =~= had + more@.take(0));
    let mut i: usize = 0;
    while i < more.len()
        invariant
            i <= more@.len(),
            to@ == had + more@.take(i as int),
        decreases more.len() - i,
    {
        to.push(more[i]);
        assert(to@ =~= had + more@.take(i + 1));
        i = i + 1;
    }
    assert(more@.take(more@.len() as int) =~= more@);
}

/// Trimming makes no text longer.
pub proof fn lemma_trimmed_len(s: Seq<char>)
    ensures
        trimmed(s).len() <= s.len(),
{
    lemma_trim_front_len(s);
    lemma_trim_back_len(trim_front(s));
}

proof fn lemma_trim_front_len(s: Seq<char>)
    ensures
        trim_front(s).len() <= s.len(),
    decreases s.len(),
{
    if s.len() > 0 {
        lemma_trim_front_len(s.drop_first());
    }
}

proof fn lemma_trim_back_len(s: Seq<char>)
    ensures
        trim_back(s).len() <= s.len(),
    decreases s.len(),
{
    if s.len() > 0 {
        lemma_trim_back_len(s.drop_last());
    }
}

/// Nor does dropping characters behind.
pub proof fn lemma_without_back_len(s: Seq<char>, c: char)
    ensures
        without_back(s, c).len() <= s.len(),
    decreases s.len(),
{
    if s.len() > 0 {
        lemma_without_back_len(s.drop_last(), c);
    }
}

pub proof fn lemma_last_index(s: Seq<char>, c: char, n: int)
    requires
        n <= s.len(),
    ensures
        match last_index(s, c, n) {
            Some(k) => 0 <= k < n && s[k] == c && forall|j: int| k < j < n ==> s[j] != c,
            None => forall|j: int| 0 <= j < n ==> s[j] != c,
        },
    decreases n,
{
    if n > 0 && s[n - 1] != c {
        lemma_last_index(s, c, n - 1);
    }
}

} // verus!
