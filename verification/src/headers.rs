//! HTTP headers as texts.

use crate::error::ProxyError;
use crate::models::pair_views;
use crate::text::{
    append_chars, chars_of, decimal, decimal_chars, digit, join3, lower_chars, lowered, same_text,
    string_of,
};
use vstd::prelude::*;
use vstd::string::*;

verus! {

/// A text that a header can carry.
pub open spec fn sendable(s: Seq<char>) -> bool {
    forall|i: int| 0 <= i < s.len() ==> header_char(#[trigger] s[i])
}

pub open spec fn header_char(c: char) -> bool {
    (c as u32 >= 32 && c as u32 != 127) || c as u32 == 9
}

pub fn is_sendable(s: &str) -> (out: bool)
    ensures
        out == sendable(s@),
{
    let l: Vec<char> = chars_of(s);
    let mut i: usize = 0;
    while i < l.len()
        invariant
            i <= l@.len(),
            l@ == s@,
            forall|k: int| 0 <= k < i ==> header_char(#[trigger] l@[k]),
        decreases l.len() - i,
    {
        let u: u32 = l[i] as u32;
        if !((u >= 32 && u != 127) || u == 9) {
            assert(!header_char(s@[i as int]));
            return false;
        }
        i = i + 1;
    }
    true
}

/// A character that a header's name can hold.
pub open spec fn token_char(c: char) -> bool {
    digit(c) || 'a' <= c <= 'z' || 'A' <= c <= 'Z' || c == '!' || c == '#' || c == '$' || c == '%'
        || c == '&' || c == '\'' || c == '*' || c == '+' || c == '-' || c == '.' || c == '^' || c
        == '_' || c == '`' || c == '|' || c == '~'
}

/// A header's name: not empty, not over long, and of such characters only.
pub open spec fn header_name(s: Seq<char>) -> bool {
    1 <= s.len() <= 65535 && forall|i: int| 0 <= i < s.len() ==> token_char(#[trigger] s[i])
}

fn is_header_name(l: &[char]) -> (out: bool)
    ensures
        out == header_name(l@),
{
    if l.len() == 0 || l.len() > 65535 {
        return false;
    }
    let mut i: usize = 0;
    while i < l.len()
        invariant
            i <= l@.len(),
            forall|k: int| 0 <= k < i ==> token_char(#[trigger] l@[k]),
        decreases l.len() - i,
    {
        let c: char = l[i];
        let plain: bool = ('0' <= c && c <= '9') || ('a' <= c && c <= 'z') || ('A' <= c && c <= 'Z');
        if !(plain || c == '!' || c == '#' || c == '$' || c == '%' || c == '&' || c == '\'' || c
            == '*' || c == '+' || c == '-' || c == '.' || c == '^' || c == '_' || c == '`' || c
            == '|' || c == '~') {
            assert(!token_char(l@[i as int]));
            return false;
        }
        i = i + 1;
    }
    true
}

/// The pairs with one more; one of the same name is replaced.
pub open spec fn with_pair(l: Seq<(Seq<char>, Seq<char>)>, name: Seq<char>, value: Seq<char>) -> Seq<
    (Seq<char>, Seq<char>),
>
    decreases l.len(),
{
    if l.len() == 0 {
        seq![(name, value)]
    } else if l[0].0 == name {
        seq![(name, value)] + l.drop_first()
    } else {
        seq![l[0]] + with_pair(l.drop_first(), name, value)
    }
}

pub(crate) fn put_pair(l: &mut Vec<(String, String)>, name: String, value: String)
    ensures
        pair_views(final(l)@) == with_pair(pair_views(old(l)@), name@, value@),
{
    let ghost was = l@;
    let ghost all = pair_views(was);
    let ghost goal = with_pair(all, name@, value@);
    let mut i: usize = 0;
    assert(all.skip(0) =~= all);
    assert(all.take(0) + with_pair(all.skip(0), name@, value@) =~= goal);
    while i < l.len()
        invariant
            i <= l@.len(),
            l@ == was,
            was == old(l)@,
            all == pair_views(was),
            goal == with_pair(all, name@, value@),
            goal == all.take(i as int) + with_pair(all.skip(i as int), name@, value@),
        decreases l.len() - i,
    {
        let ghost rest = all.skip(i as int);
        assert(rest.drop_first() =~= all.skip(i + 1));
        assert(rest[0] == (l@[i as int].0@, l@[i as int].1@));
        if same_text(l[i].0.as_str(), name.as_str()) {
            l.set(i, (name, value));
            assert(pair_views(l@) =~= all.take(i as int) + (seq![(name@, value@)]
                + rest.drop_first()));
            return;
        }
        proof {
            let tail = with_pair(all.skip(i + 1), name@, value@);
            assert(all.take(i as int) + (seq![rest[0]] + tail) =~= all.take(i + 1) + tail);
        }
        i = i + 1;
    }
    proof {
        assert(all.take(all.len() as int) =~= all);
        assert(all.skip(all.len() as int) =~= Seq::empty());
    }
    l.push((name, value));
    assert(pair_views(l@) =~= all + seq![(name@, value@)]);
}

/// The headers that the first `n` settings give, names in lower case, or what is
/// wrong with the first that is no header.
pub open spec fn settled(l: Seq<(Seq<char>, Seq<char>)>, n: int) -> Result<
    Seq<(Seq<char>, Seq<char>)>,
    Seq<char>,
>
    decreases n,
{
    if n <= 0 {
        Ok(Seq::empty())
    } else {
        let (name, value) = l[n - 1];
        match settled(l, n - 1) {
            Err(e) => Err(e),
            Ok(h) => if !header_name(name) {
                Err("bad header name "@ + name + ": invalid HTTP header name"@)
            } else if !sendable(value) {
                Err("bad header value: failed to parse header value"@)
            } else {
                Ok(with_pair(h, lowered(name), value))
            },
        }
    }
}

/// The value of a `Range` header.
pub open spec fn range_value(start: u64, end: u64) -> Seq<char> {
    "bytes="@ + decimal(start as nat) + (seq!['-'] + decimal(end as nat))
}

/// The headers of a request to an origin.
pub open spec fn request_headers(l: Seq<(Seq<char>, Seq<char>)>, range: Option<(u64, u64)>) -> Result<
    Seq<(Seq<char>, Seq<char>)>,
    Seq<char>,
> {
    match (settled(l, l.len() as int), range) {
        (Err(e), _) => Err(e),
        (Ok(h), None) => Ok(h),
        (Ok(h), Some(r)) => Ok(with_pair(h, "range"@, range_value(r.0, r.1))),
    }
}

proof fn lemma_settled_error(l: Seq<(Seq<char>, Seq<char>)>, i: int, n: int)
    requires
        0 <= i <= n,
        settled(l, i) is Err,
    ensures
        settled(l, n) == settled(l, i),
    decreases n - i,
{
    if i < n {
        lemma_settled_error(l, i, n - 1);
    }
}

/// Puts together the headers of a request to an origin: those that the task sets
/// and the range that is asked for, which wins over one that the task sets.
pub fn build_headers(set: &Vec<(String, String)>, range: Option<(u64, u64)>) -> (out: Result<
    Vec<(String, String)>,
    ProxyError,
>)
    ensures
        match (out, request_headers(pair_views(set@), range)) {
            (Ok(h), Ok(want)) => pair_views(h@) == want,
            (Err(ProxyError::Internal(e)), Err(want)) => e@ == want,
            _ => false,
        },
{
    let ghost all = pair_views(set@);
    let mut out: Vec<(String, String)> = Vec::new();
    assert(pair_views(out@) =~= Seq::empty());
    let mut i: usize = 0;
    while i < set.len()
        invariant
            i <= set@.len(),
            all == pair_views(set@),
            settled(all, i as int) == Ok::<Seq<(Seq<char>, Seq<char>)>, Seq<char>>(
                pair_views(out@),
            ),
        decreases set.len() - i,
    {
        assert(all[i as int] == (set@[i as int].0@, set@[i as int].1@));
        let name: Vec<char> = chars_of(set[i].0.as_str());
        if !is_header_name(&name) {
            proof {
                lemma_settled_error(all, i + 1, all.len() as int);
            }
            return Err(
                ProxyError::Internal(
                    join3("bad header name ", set[i].0.as_str(), ": invalid HTTP header name"),
                ),
            );
        }
        if !is_sendable(set[i].1.as_str()) {
            proof {
                lemma_settled_error(all, i + 1, all.len() as int);
            }
            return Err(
                ProxyError::Internal("bad header value: failed to parse header value".to_owned()),
            );
        }
        put_pair(&mut out, string_of(&lower_chars(&name)), set[i].1.clone());
        i = i + 1;
    }
    if let Some((start, end)) = range {
        let mut t: Vec<char> = chars_of("bytes=");
        append_chars(&mut t, &decimal_chars(start));
        t.push('-');
        append_chars(&mut t, &decimal_chars(end));
        assert(t@ =~= range_value(start, end));
        put_pair(&mut out, "range".to_owned(), string_of(&t));
    }
    Ok(out)
}

/// Whether an origin's answer can be passed through.
pub fn judge_passthrough(status: u16) -> (out: Result<(), ProxyError>)
    ensures
        match out {
            Ok(_) => 200 <= status < 300,
            Err(e) => !(200 <= status < 300) && e == ProxyError::BadStatus(status),
        },
{
    if 200 <= status && status < 300 {
        Ok(())
    } else {
        Err(ProxyError::BadStatus(status))
    }
}

/// The range of a request is the one that is asked for, whatever the task sets.
pub proof fn law_the_range_asked_for_wins(l: Seq<(Seq<char>, Seq<char>)>, start: u64, end: u64)
    requires
        settled(l, l.len() as int) is Ok,
    ensures
        request_headers(l, Some((start, end))) is Ok,
        (request_headers(l, Some((start, end)))->Ok_0).contains(
            ("range"@, range_value(start, end)),
        ),
{
    lemma_pair_is_there(settled(l, l.len() as int)->Ok_0, "range"@, range_value(start, end));
}

proof fn lemma_pair_is_there(l: Seq<(Seq<char>, Seq<char>)>, name: Seq<char>, value: Seq<char>)
    ensures
        with_pair(l, name, value).contains((name, value)),
    decreases l.len(),
{
    let w = with_pair(l, name, value);
    if l.len() == 0 || l[0].0 == name {
        assert(w[0] == (name, value));
    } else {
        lemma_pair_is_there(l.drop_first(), name, value);
        let r = with_pair(l.drop_first(), name, value);
        let k = choose|k: int| 0 <= k < r.len() && r[k] == (name, value);
        assert(w[k + 1] == (name, value));
    }
}

} // verus!
