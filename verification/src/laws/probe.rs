//! What is known of a file after its origins have been asked.

use crate::names::{behind_last, percent_decoded, plain, sanitized, url_filename};
use crate::probe::{
    head_filename, header_number, identity, is_stitched, probed, range_total, rejection, ProbeView,
    ProbedVolume, ResponseHead, UpstreamProbe,
};
use crate::text::{
    decimal, digit, last_index, lemma_last_index, lowered, opt_view, trimmed, views, white,
};
use super::texts::{
    law_a_written_number_is_read, law_only_digits_are_a_number, lemma_last_at, lemma_nowhere,
};
use vstd::prelude::*;
use vstd::string::*;
use vstd::utf8::*;

verus! {

/// The total that a Content-Range tells is the size of the file, whatever range and
/// unit stand before it, whether or not HEAD was answered, and whatever any
/// Content-Length says.
pub proof fn law_the_total_of_a_range_is_the_size(
    url: Seq<char>,
    head: Option<ResponseHead>,
    ranged: ResponseHead,
    range: Seq<char>,
    total: u64,
)
    requires
        opt_view(ranged.content_range) == Some(range + seq!['/'] + decimal(total as nat)),
    ensures
        probed(url, head, Some(ranged)) is Some,
        (probed(url, head, Some(ranged))->0).total_size == Some(total),
{
    let d = decimal(total as nat);
    law_a_written_number_is_read(total as nat, u64::MAX as int);
    assert forall|i: int| 0 <= i < d.len() implies d[i] != '/' by {
        assert(digit(d[i]));
    }
    lemma_last_at(range, '/', d);
}

/// A header that spells a number.
pub open spec fn spells(s: Option<String>, n: u64) -> bool {
    opt_view(s) == Some(decimal(n as nat))
}

/// A header that is absent, or whose last character is no digit.
pub open spec fn spells_nothing(s: Option<String>) -> bool {
    match opt_view(s) {
        Some(t) => t.len() == 0 || !digit(t.last()),
        None => true,
    }
}

/// A Content-Range without a total: absent, or with a star in its place.
pub open spec fn no_total(s: Option<String>) -> bool {
    match opt_view(s) {
        Some(t) => t.len() > 0 && t.last() == '*',
        None => true,
    }
}

proof fn lemma_spelled(s: Option<String>, n: u64)
    ensures
        spells(s, n) ==> header_number(opt_view(s)) == Some(n),
        spells_nothing(s) ==> header_number(opt_view(s)) is None,
{
    law_a_written_number_is_read(n as nat, u64::MAX as int);
    if spells_nothing(s) && opt_view(s) is Some {
        let t = opt_view(s)->0;
        if crate::text::number(t, u64::MAX as int) is Some {
            law_only_digits_are_a_number(t, u64::MAX as int);
        }
    }
}

proof fn lemma_no_total(s: Option<String>)
    requires
        no_total(s),
    ensures
        range_total(opt_view(s)) is None,
{
    if let Some(t) = opt_view(s) {
        let n = t.len() as int;
        lemma_last_index(t, '/', n);
        let tail = behind_last(t, '/');
        assert(tail.len() > 0 && tail.last() == '*') by {
            if let Some(i) = last_index(t, '/', n) {
                if i == n - 1 {
                    assert(t[i] == '/');
                }
                assert(tail.last() == t[n - 1]);
            }
        }
        super::texts::law_trimming_takes_white_space_off(tail);
        let (a, b) = choose|a: int, b: int|
            {
                &&& 0 <= a <= b <= tail.len()
                &&& trimmed(tail) == #[trigger] tail.subrange(a, b)
                &&& forall|i: int| 0 <= i < a ==> white(#[trigger] tail[i])
                &&& forall|i: int| b <= i < tail.len() ==> white(#[trigger] tail[i])
            };
        if b < tail.len() {
            assert(white(tail[tail.len() - 1]));
        }
        if a == tail.len() {
            assert(white(tail[tail.len() - 1]));
        }
        let u = trimmed(tail);
        assert(u.last() == '*');
        if crate::text::number(u, u64::MAX as int) is Some {
            law_only_digits_are_a_number(u, u64::MAX as int);
        }
    }
}

/// Where no Content-Range tells a total, what HEAD gave as the length is the size.
/// Without that, the length of the second answer is the size only where that answer
/// was the whole file: the length of a part is never taken for that of the file.
pub proof fn law_the_length_of_a_part_is_not_the_size(
    url: Seq<char>,
    head: Option<ResponseHead>,
    ranged: Option<ResponseHead>,
    n: u64,
)
    requires
        head is Some || ranged is Some,
        ranged is Some ==> no_total((ranged->0).content_range),
    ensures
        ({
            let size = (probed(url, head, ranged)->0).total_size;
            let untold = head is None || spells_nothing((head->0).content_length);
            &&& head is Some && spells((head->0).content_length, n) ==> size == Some(n)
            &&& untold && ranged is None ==> size is None
            &&& untold && ranged is Some && (ranged->0).status != 200 ==> size is None
            &&& untold && ranged is Some && (ranged->0).status == 200 && spells(
                (ranged->0).content_length,
                n,
            ) ==> size == Some(n)
        }),
{
    if ranged is Some {
        lemma_no_total((ranged->0).content_range);
        lemma_spelled((ranged->0).content_length, n);
    }
    if head is Some {
        lemma_spelled((head->0).content_length, n);
    }
}

/// Ranges are served where a request for one was answered with a part, or where the
/// origin says so of itself; a file served in full proves nothing, and "none" means
/// no.
pub proof fn law_ranges_are_proved_or_promised(
    url: Seq<char>,
    head: Option<ResponseHead>,
    ranged: Option<ResponseHead>,
)
    requires
        head is Some || ranged is Some,
    ensures
        ({
            let p = probed(url, head, ranged)->0;
            let promised = head is Some && (head->0).accept_ranges is Some;
            &&& ranged is Some && (ranged->0).status == 206 ==> p.accepts_ranges
            &&& promised && (head->0).accept_ranges->0@ == "bytes"@ ==> p.accepts_ranges
            &&& promised && (head->0).accept_ranges->0@ == "Bytes"@ ==> p.accepts_ranges
            &&& (ranged is None || (ranged->0).status != 206) && (!promised || (
            head->0).accept_ranges->0@ == "none"@) ==> !p.accepts_ranges
        }),
{
    reveal_strlit("bytes");
    reveal_strlit("Bytes");
    reveal_strlit("none");
    assert(lowered("bytes"@) =~= "bytes"@);
    assert(lowered("Bytes"@) =~= "bytes"@);
    assert(lowered("none"@).len() != "bytes"@.len());
}

/// A validator, a type or a name that HEAD gave stands; one that it did not give is
/// taken from the second answer; what neither gave is not made up. A URL that nobody
/// answered for is no use, and an answer of either kind is.
pub proof fn law_heads_words_come_first(
    url: Seq<char>,
    head: Option<ResponseHead>,
    ranged: Option<ResponseHead>,
)
    ensures
        (head is None && ranged is None) == (probed(url, head, ranged) is None),
        head is Some || ranged is Some ==> {
            let p = probed(url, head, ranged)->0;
            let h = head->0;
            let r = ranged->0;
            &&& head is Some && h.etag is Some ==> p.etag == Some(h.etag->0@)
            &&& head is Some && h.last_modified is Some ==> p.last_modified == Some(
                h.last_modified->0@,
            )
            &&& head is Some && h.content_type is Some ==> p.content_type == Some(
                h.content_type->0@,
            )
            &&& (head is None || h.etag is None) && ranged is Some ==> p.etag == opt_view(r.etag)
            &&& (head is None || h.last_modified is None) && ranged is Some ==> p.last_modified
                == opt_view(r.last_modified)
            &&& (head is None || h.content_type is None) && ranged is Some ==> p.content_type
                == opt_view(r.content_type)
            &&& (head is None || h.etag is None) && ranged is None ==> p.etag is None
            &&& (head is None || h.last_modified is None) && ranged is None
                ==> p.last_modified is None
            &&& (head is None || h.content_type is None) && ranged is None
                ==> p.content_type is None
            &&& p.probe_error is None
            &&& head is Some && head_filename(h) is Some ==> p.filename == head_filename(h)
            &&& (head is None || head_filename(h) is None) && ranged is Some && head_filename(
                r,
            ) is Some ==> p.filename == head_filename(r)
            &&& (head is None || h.content_disposition is None) && (ranged is None
                || r.content_disposition is None) ==> p.filename == url_filename(url)
        },
{
}

/// The name in a URL is what stands behind its last slash, without what follows a
/// question mark or a hash: for a name of ordinary characters, the name itself.
pub proof fn law_a_url_names_its_file(dir: Seq<char>, name: Seq<char>, query: Seq<char>)
    requires
        name.len() > 0,
        forall|i: int| 0 <= i < dir.len() ==> dir[i] != '?' && dir[i] != '#',
        forall|i: int|
            0 <= i < name.len() ==> '!' <= #[trigger] name[i] <= '~' && name[i] != '/' && name[i]
                != '\\' && name[i] != '?' && name[i] != '#' && name[i] != '%',
    ensures
        url_filename(dir + seq!['/'] + name) == Some(name),
        url_filename(dir + seq!['/'] + name + seq!['?'] + query) == Some(name),
        url_filename(dir + seq!['/'] + name + seq!['#'] + query) == Some(name) || exists|i: int|
            0 <= i < query.len() && query[i] == '?',
{
    let path = dir + seq!['/'] + name;
    assert forall|i: int| 0 <= i < path.len() implies path[i] != '?' && path[i] != '#' by {
        if i < dir.len() {
            assert(path[i] == dir[i]);
        } else if i > dir.len() {
            assert(path[i] == name[i - dir.len() - 1]);
        }
    }
    lemma_nowhere(path, '?');
    lemma_nowhere(path, '#');
    super::texts::lemma_first_at(path, '?', query);
    super::texts::lemma_first_at(path, '#', query);
    assert forall|i: int| 0 <= i < name.len() implies name[i] != '/' by {
        assert('!' <= name[i] <= '~');
    }
    lemma_last_at(dir, '/', name);
    lemma_plain_name(name);
    let hashed = path + seq!['#'] + query;
    if !(exists|i: int| 0 <= i < query.len() && query[i] == '?') {
        assert forall|i: int| 0 <= i < hashed.len() implies hashed[i] != '?' by {
            if i < path.len() {
                assert(hashed[i] == path[i]);
            } else if i > path.len() {
                assert(hashed[i] == query[i - path.len() - 1]);
            }
        }
        lemma_nowhere(hashed, '?');
    }
}

proof fn lemma_plain_name(name: Seq<char>)
    requires
        forall|i: int|
            0 <= i < name.len() ==> '!' <= #[trigger] name[i] <= '~' && name[i] != '/' && name[i]
                != '\\' && name[i] != '%',
    ensures
        percent_decoded(encode_utf8(name)) == encode_utf8(name),
        valid_utf8(encode_utf8(name)),
        decode_utf8(encode_utf8(name)) == name,
        sanitized(name) == name,
{
    assert forall|i: int| 0 <= i < name.len() implies '\0' <= #[trigger] name[i] <= '\u{7f}' by {
        assert('!' <= name[i] <= '~');
    }
    is_ascii_chars_encode_utf8(name);
    encode_utf8_valid_utf8(name);
    encode_utf8_decode_utf8(name);
    let b = encode_utf8(name);
    assert forall|i: int| 0 <= i < b.len() implies #[trigger] b[i] != 37 by {
        assert(name[i] as u8 == b[i]);
        assert('!' <= name[i] <= '~' && name[i] != '%');
    }
    lemma_no_percent(b);
    assert forall|i: int| 0 <= i < name.len() implies plain(#[trigger] name[i]) && !white(
        name[i],
    ) by {
        assert('!' <= name[i] <= '~');
    }
    crate::disposition::lemma_filter_all(name);
    crate::text::lemma_trimmed_solid(name);
}

proof fn lemma_no_percent(b: Seq<u8>)
    requires
        forall|i: int| 0 <= i < b.len() ==> #[trigger] b[i] != 37,
    ensures
        percent_decoded(b) == b,
    decreases b.len(),
{
    if b.len() > 0 {
        let rest = b.skip(1);
        assert forall|i: int| 0 <= i < rest.len() implies #[trigger] rest[i] != 37 by {
            assert(rest[i] == b[i + 1]);
        }
        lemma_no_percent(rest);
        assert(b[0] != 37);
        assert(seq![b[0]] + rest =~= b);
    } else {
        assert(percent_decoded(b) =~= b);
    }
}

/// Of several volumes a mirror can be used only where it serves ranges and its size is
/// known, and then it can; a single file can always be used.
pub proof fn law_a_mirror_is_used_iff_it_can_be_stitched(p: ProbeView)
    ensures
        rejection(false, p) is None,
        rejection(true, p) is None <==> p.accepts_ranges && p.total_size is Some,
{
}

/// The volumes of a stitched file are the probed ones: each with its own mirrors and
/// size, the first at the beginning, each behind the one before it, and the file as
/// long as all of them.
pub proof fn law_a_stitched_file_is_its_volumes(
    p: UpstreamProbe,
    layout: Seq<Vec<String>>,
    chosen: Seq<ProbedVolume>,
    i: int,
)
    requires
        chosen.len() == layout.len(),
        is_stitched(p, layout, chosen),
        0 <= i < chosen.len(),
    ensures
        p.volumes is Some,
        ({
            let v = p.volumes->0@;
            let n = v.len() as int;
            &&& n == chosen.len()
            &&& views(v[i].urls@) == views(layout[i]@)
            &&& chosen[i].probe.total_size is Some ==> v[i].size == chosen[i].probe.total_size->0
            &&& v[0].offset == 0
            &&& i + 1 < n ==> v[i + 1].offset == v[i].offset + v[i].size
            &&& p.total_size is Some ==> p.total_size->0 == (v[n - 1].offset + v[n - 1].size) as u64
            &&& chosen[i].probe.total_size is None ==> p.total_size is None
            &&& (forall|k: int| 0 <= k < n ==> (#[trigger] chosen[k]).probe.total_size is Some)
                ==> p.total_size is Some
            &&& !chosen[i].probe.accepts_ranges ==> !p.accepts_ranges
            &&& (forall|k: int| 0 <= k < n ==> (#[trigger] chosen[k]).probe.accepts_ranges)
                ==> p.accepts_ranges
            &&& opt_view(p.content_type) == opt_view(chosen[0].probe.content_type)
        }),
        chosen.len() == 1 ==> {
            &&& opt_view(p.etag) == opt_view(chosen[0].probe.etag)
            &&& opt_view(p.last_modified) == opt_view(chosen[0].probe.last_modified)
            &&& opt_view(p.filename) == opt_view(chosen[0].probe.filename)
        },
{
    let v = p.volumes->0@;
    let n = v.len() as int;
    assert(views(v[i].urls@) == views(layout[i]@));
    assert(v[0].offset == crate::probe::sizes_before(chosen, 0));
    assert(v[n - 1].offset == crate::probe::sizes_before(chosen, n - 1));
    assert(v[n - 1].size == crate::probe::size_of_volume(chosen[n - 1]));
    if i + 1 < n {
        assert(v[i + 1].offset == crate::probe::sizes_before(chosen, i + 1));
    }
}

/// A volume whose validator changes is told apart: the ETag, or without one the date.
pub proof fn law_a_volume_is_known_by_its_validator(a: ProbeView, b: ProbeView)
    ensures
        a.etag is Some && b.etag is Some && a.etag->0.len() > 0 && b.etag->0.len() > 0 && a.etag
            != b.etag ==> identity(a) != identity(b),
        a.etag is None && b.etag is None && a.last_modified is Some && b.last_modified is Some
            && a.last_modified != b.last_modified ==> identity(a) != identity(b),
        a.etag == b.etag && a.etag is Some && a.etag->0.len() > 0 ==> identity(a) == identity(b),
{
}

} // verus!
