//! File names: out of headers, out of URLs, and for a file stitched together.

use crate::text::{
    begins_with, chars_of, ends_with, find_char, find_part, finishes_with, index_from, last_index,
    part_from, rfind_char, slice_of, split_chars, split_on, starts_with, string_of, trim_chars,
    trimmed, opt_view, views,
};
use vstd::prelude::*;
use vstd::string::*;
use vstd::utf8::*;

verus! {

/// Every system takes the path apart in the same way: no backslash, which is a
/// separator on some of them, no colon, which may end the name of a drive, and not
/// two slashes in front, which may begin the name of a host.
pub open spec fn reads_alike(path: Seq<char>) -> bool {
    &&& !path.contains('\\')
    &&& !path.contains(':')
    &&& !(path.len() >= 2 && path[0] == '/' && path[1] == '/')
}

/// Reads UTF-8. Calls `String::from_utf8`, which gives the string whose encoding
/// the bytes are, or refuses bytes that are no valid UTF-8.
#[verifier::external_body]
pub(crate) fn utf8_text(bytes: Vec<u8>) -> (out: Option<String>)
    ensures
        match out {
            Some(text) => valid_utf8(bytes@) && text@ == decode_utf8(bytes@),
            None => !valid_utf8(bytes@),
        },
{
    String::from_utf8(bytes).ok()
}

/// One character for each byte.
pub open spec fn latin1(bytes: Seq<u8>) -> Seq<char> {
    bytes.map_values(|b: u8| b as char)
}

pub fn latin1_chars(bytes: &[u8]) -> (out: Vec<char>)
    ensures
        out@ == latin1(bytes@),
{
    let mut out: Vec<char> = Vec::new();
    let mut i: usize = 0;
    while i < bytes.len()
        invariant
            i <= bytes@.len(),
            out@.len() == i,
            forall|k: int| 0 <= k < i ==> #[trigger] out@[k] == bytes@[k] as char,
        decreases bytes.len() - i,
    {
        out.push(bytes[i] as char);
        i = i + 1;
    }
    assert(out@ =~= latin1(bytes@));
    out
}

/// Text from bytes: as UTF-8 where they are that, else one character each.
pub open spec fn lenient_text(bytes: Seq<u8>) -> Seq<char> {
    if valid_utf8(bytes) {
        decode_utf8(bytes)
    } else {
        latin1(bytes)
    }
}

pub fn lenient_chars(bytes: Vec<u8>) -> (out: Vec<char>)
    ensures
        out@ == lenient_text(bytes@),
{
    let fallback: Vec<char> = latin1_chars(&bytes);
    match utf8_text(bytes) {
        Some(text) => chars_of(text.as_str()),
        None => fallback,
    }
}

/// The low byte of each character.
pub open spec fn low_bytes(s: Seq<char>) -> Seq<u8> {
    s.map_values(|c: char| (c as u32 % 256) as u8)
}

fn low_bytes_of(s: &[char]) -> (out: Vec<u8>)
    ensures
        out@ == low_bytes(s@),
{
    let mut out: Vec<u8> = Vec::new();
    let mut i: usize = 0;
    while i < s.len()
        invariant
            i <= s@.len(),
            out@.len() == i,
            forall|k: int| 0 <= k < i ==> #[trigger] out@[k] == (s@[k] as u32 % 256) as u8,
        decreases s.len() - i,
    {
        out.push((s[i] as u32 % 256) as u8);
        i = i + 1;
    }
    assert(out@ =~= low_bytes(s@));
    out
}

// ---------------------------------------------------------------------------
// Percent coding

/// The value of the two characters behind a percent sign: two hexadecimal digits,
/// or a plus sign and one.
pub open spec fn pair_value(a: u8, b: u8) -> Option<u8> {
    let x = crate::codec::hex_value(a);
    let y = crate::codec::hex_value(b);
    if y is None {
        None
    } else if x is Some {
        Some((x->0 * 16 + y->0) as u8)
    } else if a == 43 {
        Some(y->0 as u8)
    } else {
        None
    }
}

fn hex_value_of(c: u8) -> (out: Option<u8>)
    ensures
        match out {
            Some(v) => crate::codec::hex_value(c) == Some(v as int) && v < 16,
            None => crate::codec::hex_value(c) is None,
        },
{
    if 48 <= c && c <= 57 {
        Some(c - 48)
    } else if 65 <= c && c <= 70 {
        Some(c - 55)
    } else if 97 <= c && c <= 102 {
        Some(c - 87)
    } else {
        None
    }
}

fn pair_value_of(a: u8, b: u8) -> (out: Option<u8>)
    ensures
        out == pair_value(a, b),
{
    match hex_value_of(b) {
        None => None,
        Some(y) => match hex_value_of(a) {
            Some(x) => Some(x * 16 + y),
            None => if a == 43 {
                Some(y)
            } else {
                None
            },
        },
    }
}

/// Each `%` with two readable characters behind it replaced by the byte that they
/// spell; everything else as it is.
pub open spec fn percent_decoded(s: Seq<u8>) -> Seq<u8>
    decreases s.len(),
{
    if s.len() == 0 {
        seq![]
    } else if s.len() >= 3 && s[0] == 37 && pair_value(s[1], s[2]) is Some {
        seq![pair_value(s[1], s[2])->0] + percent_decoded(s.skip(3))
    } else {
        seq![s[0]] + percent_decoded(s.skip(1))
    }
}

pub fn percent_decode(s: &str) -> (out: Vec<u8>)
    ensures
        out@ == percent_decoded(encode_utf8(s@)),
{
    let bytes: &[u8] = s.as_bytes();
    let n: usize = bytes.len();
    let mut out: Vec<u8> = Vec::new();
    let mut i: usize = 0;
    proof {
        assert(bytes@.skip(0) =~= bytes@);
        assert(out@ + percent_decoded(bytes@) =~= percent_decoded(bytes@));
    }
    while i < n
        invariant
            i <= n == bytes@.len(),
            out@ + percent_decoded(bytes@.skip(i as int)) == percent_decoded(bytes@),
        decreases n - i,
    {
        let ghost rest = bytes@.skip(i as int);
        let ghost had = out@;
        let mut step: usize = 1;
        let mut b: u8 = bytes[i];
        if b == 37 && n - i >= 3 {
            if let Some(v) = pair_value_of(bytes[i + 1], bytes[i + 2]) {
                b = v;
                step = 3;
            }
        }
        out.push(b);
        proof {
            assert(rest.skip(step as int) =~= bytes@.skip(i + step));
            let tail = percent_decoded(bytes@.skip(i + step));
            assert(percent_decoded(rest) == seq![b] + tail);
            assert(had + (seq![b] + tail) =~= out@ + tail);
        }
        i = i + step;
    }
    proof {
        assert(out@ + percent_decoded(bytes@.skip(n as int)) =~= out@);
    }
    out
}

// ---------------------------------------------------------------------------
// Cleaning

/// Control characters: the two ranges that Unicode has of them.
pub open spec fn control(c: char) -> bool {
    let u = c as u32;
    u <= 0x1F || 0x7F <= u <= 0x9F
}

/// A character that a file name may have.
pub open spec fn plain(c: char) -> bool {
    !control(c) && c != '/' && c != '\\'
}

/// The characters that a file name may have, without white space at either end.
pub open spec fn sanitized(s: Seq<char>) -> Seq<char> {
    trimmed(s.filter(|c: char| plain(c)))
}

fn sanitize_chars(s: &[char]) -> (out: Vec<char>)
    ensures
        out@ == sanitized(s@),
{
    let ghost keep = |c: char| plain(c);
    let mut cleaned: Vec<char> = Vec::new();
    let mut i: usize = 0;
    proof {
        reveal(Seq::filter);
        assert(s@.take(0).filter(keep) =~= Seq::empty());
    }
    while i < s.len()
        invariant
            i <= s@.len(),
            keep == (|c: char| plain(c)),
            cleaned@ == s@.take(i as int).filter(keep),
        decreases s.len() - i,
    {
        let c: char = s[i];
        let u: u32 = c as u32;
        proof {
            reveal(Seq::filter);
            assert(s@.take(i + 1).drop_last() =~= s@.take(i as int));
            assert(s@.take(i + 1).last() == c);
        }
        if !(u <= 0x1F || (0x7F <= u && u <= 0x9F)) && c != '/' && c != '\\' {
            cleaned.push(c);
        }
        i = i + 1;
    }
    proof {
        assert(s@.take(s@.len() as int) =~= s@);
    }
    trim_chars(&cleaned)
}

pub fn sanitize_filename(s: String) -> (out: String)
    ensures
        out@ == sanitized(s@),
{
    let chars: Vec<char> = chars_of(s.as_str());
    string_of(&sanitize_chars(&chars))
}

/// What stands before the first `c`, or all of it.
pub open spec fn before_first(s: Seq<char>, c: char) -> Seq<char> {
    match index_from(s, c, 0) {
        Some(i) => s.take(i),
        None => s,
    }
}

/// What stands behind the last `c`, or all of it.
pub open spec fn behind_last(s: Seq<char>, c: char) -> Seq<char> {
    match last_index(s, c, s.len() as int) {
        Some(i) => s.skip(i + 1),
        None => s,
    }
}

fn cut_at(s: &[char], c: char) -> (out: Vec<char>)
    ensures
        out@ == before_first(s@, c),
{
    match find_char(s, c, 0) {
        Some(i) => {
            let out: Vec<char> = slice_of(s, 0, i);
            assert(out@ =~= s@.take(i as int));
            out
        },
        None => {
            let out: Vec<char> = slice_of(s, 0, s.len());
            assert(out@ =~= s@);
            out
        },
    }
}

fn tail_after(s: &[char], c: char) -> (out: Vec<char>)
    ensures
        out@ == behind_last(s@, c),
{
    let n: usize = s.len();
    match rfind_char(s, c) {
        Some(i) => {
            let out: Vec<char> = slice_of(s, i + 1, n);
            assert(out@ =~= s@.skip(i + 1));
            out
        },
        None => {
            let out: Vec<char> = slice_of(s, 0, s.len());
            assert(out@ =~= s@);
            out
        },
    }
}

/// The file name in a URL: its last path segment, percent-decoded and cleaned.
pub open spec fn url_filename(url: Seq<char>) -> Option<Seq<char>> {
    let last = behind_last(before_first(before_first(url, '?'), '#'), '/');
    let bytes = percent_decoded(encode_utf8(last));
    if last.len() == 0 || !valid_utf8(bytes) || sanitized(decode_utf8(bytes)).len() == 0 {
        None
    } else {
        Some(sanitized(decode_utf8(bytes)))
    }
}

pub fn filename_from_url(url: &str) -> (out: Option<String>)
    ensures
        opt_view(out) == url_filename(url@),
{
    let chars: Vec<char> = chars_of(url);
    let path: Vec<char> = cut_at(&cut_at(&chars, '?'), '#');
    let last: Vec<char> = tail_after(&path, '/');
    if last.len() == 0 {
        return None;
    }
    let bytes: Vec<u8> = percent_decode(string_of(&last).as_str());
    match utf8_text(bytes) {
        Some(text) => {
            let name: String = sanitize_filename(text);
            if name.as_str().is_empty() {
                None
            } else {
                Some(name)
            }
        },
        None => None,
    }
}

// ---------------------------------------------------------------------------
// Content-Disposition

/// Without the double quotes in front.
pub open spec fn unquote_front(s: Seq<char>) -> Seq<char>
    decreases s.len(),
{
    if s.len() > 0 && s[0] == '"' {
        unquote_front(s.drop_first())
    } else {
        s
    }
}

/// Without the double quotes behind.
pub open spec fn unquote_back(s: Seq<char>) -> Seq<char>
    decreases s.len(),
{
    if s.len() > 0 && s.last() == '"' {
        unquote_back(s.drop_last())
    } else {
        s
    }
}

/// Without the double quotes at either end.
pub open spec fn unquoted(s: Seq<char>) -> Seq<char> {
    unquote_back(unquote_front(s))
}

fn unquote(s: &[char]) -> (out: Vec<char>)
    ensures
        out@ == unquoted(s@),
{
    let n: usize = s.len();
    let mut from: usize = 0;
    assert(s@.skip(0) =~= s@);
    while from < n && s[from] == '"'
        invariant
            from <= n == s@.len(),
            unquote_front(s@) == unquote_front(s@.skip(from as int)),
        decreases n - from,
    {
        proof {
            assert(s@.skip(from as int).drop_first() =~= s@.skip(from + 1));
        }
        from = from + 1;
    }
    proof {
        assert(s@.skip(from as int) =~= s@.subrange(from as int, n as int));
    }
    let mut to: usize = n;
    while to > from && s[to - 1] == '"'
        invariant
            from <= to <= n == s@.len(),
            unquoted(s@) == unquote_back(s@.subrange(from as int, to as int)),
        decreases to,
    {
        proof {
            assert(s@.subrange(from as int, to as int).drop_last() =~= s@.subrange(
                from as int,
                to - 1,
            ));
        }
        to = to - 1;
    }
    slice_of(s, from, to)
}

/// The ASCII letter in upper case; any other character as it is.
pub open spec fn upper(c: char) -> char {
    if 'a' <= c <= 'z' {
        ((c as u8 - 32) as u8) as char
    } else {
        c
    }
}

/// The extended value `charset''text`, decoded. Two quotes must stand together;
/// without them the whole is taken for UTF-8.
pub open spec fn extended_value(s: Seq<char>) -> Seq<char> {
    match part_from(s, seq!['\'', '\''], 0) {
        Some(i) => {
            let charset = before_first(s.take(i), '\'').map_values(|c: char| upper(c));
            let bytes = percent_decoded(encode_utf8(s.skip(i + 2)));
            if charset == seq!['I', 'S', 'O', '-', '8', '8', '5', '9', '-', '1'] {
                latin1(bytes)
            } else {
                lenient_text(bytes)
            }
        },
        None => lenient_text(percent_decoded(encode_utf8(s))),
    }
}

fn is_latin1_name(s: &[char]) -> (out: bool)
    ensures
        out == (s@.map_values(|c: char| upper(c)) == seq![
            'I',
            'S',
            'O',
            '-',
            '8',
            '8',
            '5',
            '9',
            '-',
            '1',
        ]),
{
    let want: [char; 10] = ['I', 'S', 'O', '-', '8', '8', '5', '9', '-', '1'];
    let ghost goal = seq!['I', 'S', 'O', '-', '8', '8', '5', '9', '-', '1'];
    let ghost had = s@.map_values(|c: char| upper(c));
    proof {
        assert(want@ =~= goal);
    }
    if s.len() != 10 {
        assert(had.len() != goal.len());
        return false;
    }
    let mut i: usize = 0;
    while i < 10
        invariant
            i <= 10,
            s@.len() == 10,
            want@ == goal,
            goal == seq!['I', 'S', 'O', '-', '8', '8', '5', '9', '-', '1'],
            goal.len() == 10,
            had == s@.map_values(|c: char| upper(c)),
            forall|k: int| 0 <= k < i ==> #[trigger] had[k] == goal[k],
        decreases 10 - i,
    {
        let c: char = s[i];
        let u: char = if 'a' <= c && c <= 'z' {
            ((c as u8) - 32) as char
        } else {
            c
        };
        assert(had[i as int] == u);
        if u != want[i] {
            assert(had[i as int] != goal[i as int]);
            return false;
        }
        i = i + 1;
    }
    assert(had =~= goal);
    true
}

fn extended_chars(s: &[char]) -> (out: Vec<char>)
    ensures
        out@ == extended_value(s@),
{
    let quotes: [char; 2] = ['\'', '\''];
    proof {
        assert(quotes@ =~= seq!['\'', '\'']);
    }
    let n: usize = s.len();
    match find_part(s, &quotes, 0) {
        Some(i) => {
            let tag: Vec<char> = slice_of(s, 0, i);
            let rest: Vec<char> = slice_of(s, i + 2, n);
            proof {
                assert(tag@ =~= s@.take(i as int));
                assert(rest@ =~= s@.skip(i + 2));
            }
            let charset: Vec<char> = cut_at(&tag, '\'');
            let bytes: Vec<u8> = percent_decode(string_of(&rest).as_str());
            if is_latin1_name(&charset) {
                latin1_chars(&bytes)
            } else {
                lenient_chars(bytes)
            }
        },
        None => lenient_chars(percent_decode(string_of(s).as_str())),
    }
}

/// What a plain value says: where its characters are the bytes of UTF-8, what
/// those spell.
pub open spec fn plain_value(s: Seq<char>) -> Seq<char> {
    if valid_utf8(low_bytes(s)) {
        decode_utf8(low_bytes(s))
    } else {
        s
    }
}

/// The names in the first `n` parameters: the last extended one that is not empty,
/// and the last plain one that is not empty.
pub open spec fn disposition_names(
    parts: Seq<Seq<char>>,
    n: int,
) -> (Option<Seq<char>>, Option<Seq<char>>)
    decreases n,
{
    if n <= 0 {
        (None, None)
    } else {
        let (star, simple) = disposition_names(parts, n - 1);
        let part = trimmed(parts[n - 1]);
        if begins_with(part, "filename*="@) {
            let name = extended_value(unquoted(trimmed(part.skip(10))));
            if name.len() > 0 {
                (Some(name), simple)
            } else {
                (star, simple)
            }
        } else if begins_with(part, "filename="@) {
            let value = unquoted(trimmed(part.skip(9)));
            if value.len() > 0 {
                (star, Some(plain_value(value)))
            } else {
                (star, simple)
            }
        } else {
            (star, simple)
        }
    }
}

/// The file name of a Content-Disposition value; the extended form wins.
pub open spec fn disposition_filename(value: Seq<char>) -> Option<Seq<char>> {
    let parts = split_on(value, ';');
    let (star, simple) = disposition_names(parts, parts.len() as int);
    let name = if star is Some {
        star
    } else {
        simple
    };
    match name {
        Some(s) => if sanitized(s).len() > 0 {
            Some(sanitized(s))
        } else {
            None
        },
        None => None,
    }
}

pub fn parse_content_disposition_filename(value: &str) -> (out: Option<String>)
    ensures
        opt_view(out) == disposition_filename(value@),
{
    let chars: Vec<char> = chars_of(value);
    let parts: Vec<Vec<char>> = split_chars(&chars, ';');
    let ghost all = split_on(value@, ';');
    let star_key: Vec<char> = chars_of("filename*=");
    let plain_key: Vec<char> = chars_of("filename=");
    proof {
        reveal_strlit("filename*=");
        reveal_strlit("filename=");
    }
    let mut star: Option<Vec<char>> = None;
    let mut simple: Option<Vec<char>> = None;
    let mut i: usize = 0;
    while i < parts.len()
        invariant
            i <= parts@.len(),
            parts@.map_values(|v: Vec<char>| v@) == all,
            star_key@ == "filename*="@,
            star_key@.len() == 10,
            plain_key@ == "filename="@,
            plain_key@.len() == 9,
            disposition_names(all, i as int) == (chars_view(star), chars_view(simple)),
        decreases parts.len() - i,
    {
        let part: Vec<char> = trim_chars(&parts[i]);
        proof {
            assert(all[i as int] == parts@[i as int]@);
        }
        if starts_with(&part, &star_key) {
            let raw: Vec<char> = slice_of(&part, 10, part.len());
            assert(raw@ =~= part@.skip(10));
            let inner: Vec<char> = unquote(&trim_chars(&raw));
            let name: Vec<char> = extended_chars(&inner);
            if name.len() > 0 {
                star = Some(name);
            }
        } else if starts_with(&part, &plain_key) {
            let raw: Vec<char> = slice_of(&part, 9, part.len());
            assert(raw@ =~= part@.skip(9));
            let inner: Vec<char> = unquote(&trim_chars(&raw));
            if inner.len() > 0 {
                let recovered: Option<String> = utf8_text(low_bytes_of(&inner));
                simple = match recovered {
                    Some(text) => Some(chars_of(text.as_str())),
                    None => Some(inner),
                };
            }
        }
        i = i + 1;
    }
    let name: Option<Vec<char>> = match star {
        Some(s) => Some(s),
        None => simple,
    };
    match name {
        Some(s) => {
            let clean: Vec<char> = sanitize_chars(&s);
            if clean.len() > 0 {
                Some(string_of(&clean))
            } else {
                None
            }
        },
        None => None,
    }
}

pub open spec fn chars_view(s: Option<Vec<char>>) -> Option<Seq<char>> {
    match s {
        Some(v) => Some(v@),
        None => None,
    }
}

/// The file name in a Content-Disposition header's raw bytes: many servers send
/// UTF-8 there; where the bytes are not that, each stands for one character.
pub open spec fn header_filename(raw: Seq<u8>) -> Option<Seq<char>> {
    disposition_filename(lenient_text(raw))
}

pub fn extract_filename(raw: &[u8]) -> (out: Option<String>)
    ensures
        opt_view(out) == header_filename(raw@),
{
    let text: Vec<char> = lenient_chars(crate::cache::copy_bytes(raw));
    parse_content_disposition_filename(string_of(&text).as_str())
}

// ---------------------------------------------------------------------------
// One name for several volumes

/// How many characters two texts have in common at their beginning.
pub open spec fn common_len(a: Seq<char>, b: Seq<char>, i: int) -> int
    decreases a.len() - i,
{
    if 0 <= i < a.len() && i < b.len() && a[i] == b[i] {
        common_len(a, b, i + 1)
    } else {
        i
    }
}

/// The longest text that all begin with.
pub open spec fn common_prefix(l: Seq<Seq<char>>) -> Seq<char>
    decreases l.len(),
{
    if l.len() == 0 {
        seq![]
    } else if l.len() == 1 {
        l[0]
    } else {
        let front = common_prefix(l.drop_last());
        front.take(common_len(front, l.last(), 0))
    }
}

proof fn lemma_common_len(a: Seq<char>, b: Seq<char>, i: int)
    requires
        0 <= i <= a.len(),
        i <= b.len(),
        forall|k: int| 0 <= k < i ==> a[k] == b[k],
    ensures
        i <= common_len(a, b, i) <= a.len(),
        common_len(a, b, i) <= b.len(),
        forall|k: int| 0 <= k < common_len(a, b, i) ==> a[k] == b[k],
        common_len(a, b, i) < a.len() && common_len(a, b, i) < b.len() ==> a[common_len(a, b, i)]
            != b[common_len(a, b, i)],
    decreases a.len() - i,
{
    if i < a.len() && i < b.len() && a[i] == b[i] {
        lemma_common_len(a, b, i + 1);
    }
}

/// The common prefix is a prefix of every text, and every text that is a prefix of
/// all of them is a prefix of it.
pub proof fn law_common_prefix_is_the_longest(l: Seq<Seq<char>>, p: Seq<char>)
    requires
        l.len() > 0,
    ensures
        forall|i: int| 0 <= i < l.len() ==> begins_with(#[trigger] l[i], common_prefix(l)),
        (forall|i: int| 0 <= i < l.len() ==> begins_with(#[trigger] l[i], p)) ==> begins_with(
            common_prefix(l),
            p,
        ),
    decreases l.len(),
{
    let out = common_prefix(l);
    if l.len() == 1 {
        assert(l[0].take(l[0].len() as int) =~= l[0]);
        assert((forall|i: int| 0 <= i < l.len() ==> begins_with(#[trigger] l[i], p))
            ==> begins_with(l[0], p));
    } else {
        let f = l.drop_last();
        let front = common_prefix(f);
        let last = l.last();
        law_common_prefix_is_the_longest(f, p);
        lemma_common_len(front, last, 0);
        let n = common_len(front, last, 0);
        assert forall|i: int| 0 <= i < l.len() implies begins_with(#[trigger] l[i], out) by {
            if i < f.len() {
                assert(begins_with(f[i], front));
                assert(f[i].take(front.len() as int) == front);
                assert(l[i].take(n) =~= front.take(n)) by {
                    assert forall|k: int| 0 <= k < n implies l[i][k] == front[k] by {
                        assert(f[i].take(front.len() as int)[k] == front[k]);
                    }
                }
            } else {
                assert(l[i] == last);
                assert(last.take(n) =~= front.take(n));
            }
        }
        if forall|i: int| 0 <= i < l.len() ==> begins_with(#[trigger] l[i], p) {
            assert forall|i: int| 0 <= i < f.len() implies begins_with(#[trigger] f[i], p) by {
                assert(begins_with(l[i], p));
            }
            assert(begins_with(front, p));
            assert(begins_with(l[l.len() - 1], p));
            assert forall|k: int| 0 <= k < p.len() implies front[k] == last[k] by {
                assert(front.take(p.len() as int)[k] == p[k]);
                assert(last.take(p.len() as int)[k] == p[k]);
            }
            assert(p.len() <= n);
            assert(out.take(p.len() as int) =~= front.take(p.len() as int));
        }
    }
}

/// Longest shared leading text of a list of strings.
pub fn longest_common_prefix(strings: &Vec<String>) -> (out: String)
    ensures
        out@ == common_prefix(views(strings@)),
{
    if strings.len() == 0 {
        return String::new();
    }
    let ghost all = views(strings@);
    let mut prefix: Vec<char> = chars_of(strings[0].as_str());
    let mut i: usize = 1;
    assert(all.take(1).len() == 1 && all.take(1)[0] == prefix@);
    while i < strings.len()
        invariant
            1 <= i <= strings@.len(),
            all == views(strings@),
            prefix@ == common_prefix(all.take(i as int)),
        decreases strings.len() - i,
    {
        let next: Vec<char> = chars_of(strings[i].as_str());
        let mut n: usize = 0;
        while n < prefix.len() && n < next.len() && prefix[n] == next[n]
            invariant
                n <= prefix@.len(),
                n <= next@.len(),
                common_len(prefix@, next@, 0) == common_len(prefix@, next@, n as int),
            decreases prefix.len() - n,
        {
            n = n + 1;
        }
        let ghost front = prefix@;
        prefix = slice_of(&prefix, 0, n);
        proof {
            assert(prefix@ =~= front.take(n as int));
            assert(all.take(i + 1).drop_last() =~= all.take(i as int));
            assert(all.take(i + 1).last() == next@);
        }
        i = i + 1;
    }
    assert(all.take(all.len() as int) =~= all);
    string_of(&prefix)
}

/// A separator that is left dangling where a common prefix ends.
pub open spec fn separator(c: char) -> bool {
    c == '.' || c == '-' || c == '_' || c == ' ' || c == '(' || c == '['
}

/// Without the separators at the end, and without digits there where `digits`
/// says so.
pub open spec fn strip_back(s: Seq<char>, digits: bool) -> Seq<char>
    decreases s.len(),
{
    if s.len() > 0 && (separator(s.last()) || (digits && '0' <= s.last() <= '9')) {
        strip_back(s.drop_last(), digits)
    } else {
        s
    }
}

/// The words for a volume that may be left dangling, in the order in which they
/// are looked for.
pub open spec fn volume_words() -> Seq<Seq<char>> {
    seq![
        seq!['p', 'a', 'r', 't'],
        seq!['P', 'a', 'r', 't'],
        seq!['P', 'A', 'R', 'T'],
        seq!['v', 'o', 'l'],
        seq!['V', 'o', 'l'],
        seq!['V', 'O', 'L'],
        seq!['卷'],
        seq!['第'],
    ]
}

/// Without the first of the words, from `i` on, that it ends with.
pub open spec fn strip_word(s: Seq<char>, words: Seq<Seq<char>>, i: int) -> Seq<char>
    decreases words.len() - i,
{
    if i >= words.len() {
        s
    } else if finishes_with(s, words[i]) {
        s.take(s.len() - words[i].len())
    } else {
        strip_word(s, words, i + 1)
    }
}

/// A common prefix without what belongs to the numbering of the volumes.
pub open spec fn tail_trimmed(s: Seq<char>) -> Seq<char> {
    strip_back(strip_word(strip_back(s, true), volume_words(), 0), false)
}

fn strip_back_chars(s: Vec<char>, digits: bool) -> (out: Vec<char>)
    ensures
        out@ == strip_back(s@, digits),
{
    let mut out: Vec<char> = s;
    let ghost whole = out@;
    loop
        invariant
            strip_back(whole, digits) == strip_back(out@, digits),
            whole == s@,
        decreases out@.len(),
    {
        if out.len() == 0 {
            return out;
        }
        let c: char = out[out.len() - 1];
        if c == '.' || c == '-' || c == '_' || c == ' ' || c == '(' || c == '[' || (digits && '0'
            <= c && c <= '9') {
            let ghost before = out@;
            out.pop();
            assert(out@ =~= before.drop_last());
        } else {
            return out;
        }
    }
}

fn strip_word_chars(s: Vec<char>) -> (out: Vec<char>)
    ensures
        out@ == strip_word(s@, volume_words(), 0),
{
    let words: Vec<Vec<char>> = vec![
        vec!['p', 'a', 'r', 't'],
        vec!['P', 'a', 'r', 't'],
        vec!['P', 'A', 'R', 'T'],
        vec!['v', 'o', 'l'],
        vec!['V', 'o', 'l'],
        vec!['V', 'O', 'L'],
        vec!['卷'],
        vec!['第'],
    ];
    let ghost w = volume_words();
    proof {
        assert(words@[0]@ =~= w[0]);
        assert(words@[1]@ =~= w[1]);
        assert(words@[2]@ =~= w[2]);
        assert(words@[3]@ =~= w[3]);
        assert(words@[4]@ =~= w[4]);
        assert(words@[5]@ =~= w[5]);
        assert(words@[6]@ =~= w[6]);
        assert(words@[7]@ =~= w[7]);
    }
    let mut i: usize = 0;
    while i < words.len()
        invariant
            i <= words@.len(),
            words@.len() == 8,
            w == volume_words(),
            w.len() == 8,
            forall|k: int| 0 <= k < 8 ==> (#[trigger] words@[k])@ == w[k],
            strip_word(s@, w, 0) == strip_word(s@, w, i as int),
        decreases words.len() - i,
    {
        assert(words@[i as int]@ == w[i as int]);
        if ends_with(&s, &words[i]) {
            let out: Vec<char> = slice_of(&s, 0, s.len() - words[i].len());
            assert(out@ =~= s@.take(s@.len() - w[i as int].len()));
            return out;
        }
        i = i + 1;
    }
    s
}

/// Strips trailing characters that are almost certainly part of the per-volume
/// suffix that the common prefix cut off mid-word.
pub fn trim_filename_tail(s: &str) -> (out: String)
    ensures
        out@ == tail_trimmed(s@),
{
    let bare: Vec<char> = strip_back_chars(chars_of(s), true);
    let unworded: Vec<char> = strip_word_chars(bare);
    string_of(&strip_back_chars(unworded, false))
}

/// The file names of the URLs that have one.
pub open spec fn url_filenames(urls: Seq<Seq<char>>) -> Seq<Seq<char>>
    decreases urls.len(),
{
    if urls.len() == 0 {
        seq![]
    } else {
        let front = url_filenames(urls.drop_last());
        match url_filename(urls.last()) {
            Some(name) => front.push(name),
            None => front,
        }
    }
}

/// The name for the file whose volumes these URLs are: what their names have in
/// common, or else the first one.
pub open spec fn suggested_filename(urls: Seq<Seq<char>>) -> Option<Seq<char>> {
    let names = url_filenames(urls);
    if names.len() == 0 {
        None
    } else if names.len() == 1 || tail_trimmed(common_prefix(names)).len() == 0 {
        Some(names[0])
    } else {
        Some(tail_trimmed(common_prefix(names)))
    }
}

pub fn suggest_volume_filename(urls: &Vec<String>) -> (out: Option<String>)
    ensures
        opt_view(out) == suggested_filename(views(urls@)),
{
    let ghost all = views(urls@);
    let mut names: Vec<String> = Vec::new();
    let mut i: usize = 0;
    assert(views(names@) =~= url_filenames(all.take(0)));
    while i < urls.len()
        invariant
            i <= urls@.len(),
            all == views(urls@),
            views(names@) == url_filenames(all.take(i as int)),
        decreases urls.len() - i,
    {
        proof {
            assert(all.take(i + 1).drop_last() =~= all.take(i as int));
            assert(all.take(i + 1).last() == urls@[i as int]@);
        }
        let ghost before = names@;
        if let Some(name) = filename_from_url(urls[i].as_str()) {
            names.push(name);
            assert(views(names@) =~= views(before).push(name@));
        }
        i = i + 1;
    }
    proof {
        assert(all.take(all.len() as int) =~= all);
        assert(views(names@).len() == names@.len());
    }
    if names.len() == 0 {
        return None;
    }
    if names.len() > 1 {
        let prefix: String = longest_common_prefix(&names);
        let trimmed: String = trim_filename_tail(prefix.as_str());
        if !trimmed.as_str().is_empty() {
            return Some(trimmed);
        }
    }
    assert(views(names@)[0] == names@[0]@);
    Some(names[0].clone())
}

/// The names that there are.
pub open spec fn present(l: Seq<Option<Seq<char>>>) -> Seq<Seq<char>>
    decreases l.len(),
{
    if l.len() == 0 {
        seq![]
    } else {
        let front = present(l.drop_last());
        match l.last() {
            Some(name) => front.push(name),
            None => front,
        }
    }
}

pub open spec fn opt_views(l: Seq<Option<String>>) -> Seq<Option<Seq<char>>> {
    l.map_values(|s: Option<String>| opt_view(s))
}

/// The name for a stitched file: what two or more detected names have in common,
/// or else what the URLs suggest.
pub open spec fn merged_filename(
    detected: Seq<Option<Seq<char>>>,
    urls: Seq<Seq<char>>,
) -> Option<Seq<char>> {
    let names = present(detected);
    if names.len() >= 2 && tail_trimmed(common_prefix(names)).len() > 0 {
        Some(tail_trimmed(common_prefix(names)))
    } else {
        suggested_filename(urls)
    }
}

/// Merges per-volume detected filenames into a single name representing the
/// stitched file.
pub fn merge_volume_filenames(
    per_vol: &Vec<Option<String>>,
    representative_urls: &Vec<String>,
) -> (out: Option<String>)
    ensures
        opt_view(out) == merged_filename(opt_views(per_vol@), views(representative_urls@)),
{
    let ghost all = opt_views(per_vol@);
    let mut detected: Vec<String> = Vec::new();
    let mut i: usize = 0;
    assert(views(detected@) =~= present(all.take(0)));
    while i < per_vol.len()
        invariant
            i <= per_vol@.len(),
            all == opt_views(per_vol@),
            views(detected@) == present(all.take(i as int)),
        decreases per_vol.len() - i,
    {
        proof {
            assert(all.take(i + 1).drop_last() =~= all.take(i as int));
            assert(all.take(i + 1).last() == opt_view(per_vol@[i as int]));
        }
        let ghost before = detected@;
        if let Some(name) = &per_vol[i] {
            let copy: String = name.clone();
            detected.push(copy);
            assert(views(detected@) =~= views(before).push(copy@));
        }
        i = i + 1;
    }
    proof {
        assert(all.take(all.len() as int) =~= all);
        assert(views(detected@).len() == detected@.len());
    }
    if detected.len() >= 2 {
        let prefix: String = longest_common_prefix(&detected);
        let trimmed: String = trim_filename_tail(prefix.as_str());
        if !trimmed.as_str().is_empty() {
            return Some(trimmed);
        }
    }
    suggest_volume_filename(representative_urls)
}

/// A cleaned name holds no path separator and no control character.
pub proof fn law_a_clean_name_has_no_separator(s: Seq<char>, i: int)
    requires
        0 <= i < sanitized(s).len(),
    ensures
        plain(sanitized(s)[i]),
{
    let keep = |c: char| plain(c);
    let kept = s.filter(keep);
    lemma_trimmed_is_part(kept);
    let (from, to) = choose|from: int, to: int|
        0 <= from <= to <= kept.len() && #[trigger] kept.subrange(from, to) == trimmed(kept);
    assert(sanitized(s)[i] == kept[from + i]);
    s.lemma_filter_pred(keep, from + i);
}

proof fn lemma_trimmed_is_part(s: Seq<char>)
    ensures
        exists|from: int, to: int|
            0 <= from <= to <= s.len() && #[trigger] s.subrange(from, to) == trimmed(s),
{
    lemma_trim_front_is_part(s);
    let front = crate::text::trim_front(s);
    let from = choose|from: int| 0 <= from <= s.len() && #[trigger] s.skip(from) == front;
    lemma_trim_back_is_part(front);
    let n = choose|n: int| 0 <= n <= front.len() && #[trigger] front.take(n) == trimmed(s);
    assert(s.subrange(from, from + n) =~= front.take(n));
}

proof fn lemma_trim_front_is_part(s: Seq<char>)
    ensures
        exists|from: int|
            0 <= from <= s.len() && #[trigger] s.skip(from) == crate::text::trim_front(s),
    decreases s.len(),
{
    if s.len() > 0 && crate::text::white(s[0]) {
        let rest = s.drop_first();
        lemma_trim_front_is_part(rest);
        let from = choose|from: int|
            0 <= from <= rest.len() && #[trigger] rest.skip(from) == crate::text::trim_front(rest);
        assert(s.skip(from + 1) =~= rest.skip(from));
    } else {
        assert(s.skip(0) =~= s);
    }
}

proof fn lemma_trim_back_is_part(s: Seq<char>)
    ensures
        exists|n: int| 0 <= n <= s.len() && #[trigger] s.take(n) == crate::text::trim_back(s),
    decreases s.len(),
{
    if s.len() > 0 && crate::text::white(s.last()) {
        let rest = s.drop_last();
        lemma_trim_back_is_part(rest);
        let n = choose|n: int|
            0 <= n <= rest.len() && #[trigger] rest.take(n) == crate::text::trim_back(rest);
        assert(s.take(n) =~= rest.take(n));
    } else {
        assert(s.take(s.len() as int) =~= s);
    }
}

} // verus!
