//! What users and clients are told.

use crate::address::{ip_text, octet, v4_of, v4_text, IpView};
use crate::assets::{asset_path, is_endpoint};
use crate::cache::{encoded, key_text, layout_of, task_key, url_lines, CacheEntry};
use crate::cli::{bar_for, command_layout, headers_of, unspecified};
use crate::codec::hex_of;
use crate::fs_pick::{cancelled, given_or, Platform};
use crate::headers::with_pair;
use crate::hostmap::{shown_target, target_port, unbracketed, url_host, TargetView, UrlView};
use crate::laws::texts::lemma_first_at;
use crate::models::{ConfigView, ContentDispositionMode, SlotView};
use crate::order::{
    by_bytes, bytes_le, in_order, lemma_by_bytes_is_total, lemma_in_order_ignores_listing,
};
use crate::plugins::chacha20::{max_volume_for, prefix_for, suffix_for, ForwardParams, SizeValue};
use crate::probe::ProbeView;
use crate::requests::{asked_host, listed, task_fault};
use crate::serve::{
    cache_fault, disposition_value, forced_type, percent_encoded, plugin_on, served_name,
};
use crate::text::{
    all_digits, begins_with, decimal, digit, digits_value, index_from, lemma_index_from, lowered,
    split_on, trimmed, white, without_back, without_front,
};
use vstd::prelude::*;

verus! {

/// Where names are not to be guessed a file has the name it was given, if any.
/// Otherwise a name that was detected comes first, then the one that was given, then
/// the task's own.
pub proof fn law_a_file_is_served_under_its_best_name(
    detected: Option<Seq<char>>,
    output: Seq<char>,
    name: Seq<char>,
)
    requires
        trimmed(output) == output,
        output.len() > 0,
        trimmed(name) == name,
        name.len() > 0,
    ensures
        served_name(false, detected, Some(output), Some(name)) == Some(output),
        served_name(false, detected, None, Some(name)) is None,
        detected is Some ==> served_name(true, detected, Some(output), Some(name)) == detected,
        served_name(true, None, Some(output), Some(name)) == Some(output),
        served_name(true, None, None, Some(name)) == Some(name),
        served_name(true, None, None, None) is None,
{
}

/// A type that an origin states is kept. Where it states none, or only that there are
/// bytes, the type that the name suggests is used, if it suggests one.
pub proof fn law_a_stated_type_is_kept(stated: Option<Seq<char>>, guess: Seq<char>)
    ensures
        stated is Some && lowered(stated->0) != "application/octet-stream"@ ==> forced_type(
            stated,
            guess,
        ) == stated,
        (stated is None || lowered(stated->0) == "application/octet-stream"@) && guess
            != "application/octet-stream"@ ==> forced_type(stated, guess) == Some(guess),
        guess == "application/octet-stream"@ ==> forced_type(stated, guess) == stated,
{
}

/// Some plugin is on if and only if one of them is switched on.
pub proof fn law_a_plugin_is_on_if_one_is(l: Seq<SlotView>, n: int)
    requires
        0 <= n <= l.len(),
    ensures
        plugin_on(l, n) <==> exists|i: int| 0 <= i < n && (#[trigger] l[i]).enabled,
    decreases n,
{
    if n > 0 {
        law_a_plugin_is_on_if_one_is(l, n - 1);
        if l[n - 1].enabled {
            assert(plugin_on(l, n));
        } else if plugin_on(l, n - 1) {
            let i = choose|i: int| 0 <= i < n - 1 && (#[trigger] l[i]).enabled;
            assert(l[i].enabled);
        }
        if exists|i: int| 0 <= i < n && (#[trigger] l[i]).enabled {
            let i = choose|i: int| 0 <= i < n && (#[trigger] l[i]).enabled;
            if i < n - 1 {
                assert(l[i].enabled);
            }
        }
    }
}

/// A file can be kept whole if and only if its origin could be reached, serves ranges
/// and has said how large the file is, and it is not empty.
pub proof fn law_what_can_be_kept(p: ProbeView)
    ensures
        cache_fault(p) is None <==> p.probe_error is None && p.accepts_ranges && p.total_size
            is Some && p.total_size->0 > 0,
{
}

/// Only an attachment is offered as one.
pub proof fn law_only_attachments_are_attached(filename: Seq<char>, mode: ContentDispositionMode)
    requires
        trimmed(filename).len() > 0,
    ensures
        disposition_value(filename, mode) is Some,
        mode == ContentDispositionMode::Attachment ==> begins_with(
            disposition_value(filename, mode)->0,
            "attachment; filename=\""@,
        ),
        mode != ContentDispositionMode::Attachment ==> begins_with(
            disposition_value(filename, mode)->0,
            "inline; filename=\""@,
        ),
{
    let v = disposition_value(filename, mode)->0;
    reveal_strlit("attachment; filename=\"");
    reveal_strlit("inline; filename=\"");
    reveal_strlit("attachment");
    reveal_strlit("inline");
    reveal_strlit("; filename=\"");
    if mode == ContentDispositionMode::Attachment {
        assert(v.take(22) =~= "attachment; filename=\""@);
    } else {
        assert(v.take(18) =~= "inline; filename=\""@);
    }
}

/// What is there from a byte on reaches to the first byte that is not.
pub proof fn law_a_run_ends_at_the_first_gap(e: CacheEntry, x: int, limit: int)
    requires
        0 <= limit,
    ensures
        0 <= e.run(x, limit) <= limit,
        forall|y: int| x <= y < x + e.run(x, limit) ==> #[trigger] e.holds(y),
        e.run(x, limit) < limit ==> !e.holds(x + e.run(x, limit)),
    decreases limit,
{
    if limit > 0 && e.holds(x) {
        law_a_run_ends_at_the_first_gap(e, x + 1, limit - 1);
    }
}

/// Listing the mirrors of a file in another order makes no other file of it.
pub proof fn law_mirrors_in_any_order_are_one_file(
    a: Seq<Seq<Seq<char>>>,
    b: Seq<Seq<Seq<char>>>,
)
    requires
        a.len() == b.len(),
        forall|i: int|
            0 <= i < a.len() ==> encoded(#[trigger] a[i]).to_multiset() == encoded(
                b[i],
            ).to_multiset(),
    ensures
        task_key(a) == task_key(b),
        layout_of(a) == layout_of(b),
    decreases a.len(),
{
    if a.len() > 0 {
        assert(encoded(a[a.len() - 1]).to_multiset() == encoded(b[b.len() - 1]).to_multiset());
        lemma_in_order_ignores_listing(encoded(a.last()), encoded(b.last()));
        let p = a.drop_last();
        let q = b.drop_last();
        assert forall|i: int| 0 <= i < p.len() implies encoded(#[trigger] p[i]).to_multiset()
            == encoded(q[i]).to_multiset() by {
            assert(p[i] == a[i]);
        }
        law_mirrors_in_any_order_are_one_file(p, q);
        if a.len() == 1 {
            assert(a[0] == a.last() && b[0] == b.last());
        }
    }
}

/// A single file is known by the URLs of its mirrors alone, however it is listed.
pub proof fn law_a_single_file_is_known_by_its_mirrors(mirrors: Seq<Seq<char>>)
    ensures
        task_key(seq![mirrors]) == key_text(url_lines(in_order(encoded(mirrors)))),
        layout_of(seq![mirrors]) != url_lines(Seq::<Seq<u8>>::empty()),
{
    assert(seq![mirrors].drop_last() =~= seq![]);
    assert(layout_of(seq![mirrors]).len() > 0);
}

/// Layouts that are hashed alike have the same volumes in the same order, where no URL
/// holds a line break or a bar.
#[verifier::rlimit(50)]
pub proof fn law_what_is_hashed_tells_layouts_apart(
    a: Seq<Seq<Seq<char>>>,
    b: Seq<Seq<Seq<char>>>,
)
    requires
        a.len() == b.len(),
        layout_of(a) == layout_of(b),
        forall|i: int, k: int|
            0 <= i < a.len() && 0 <= k < url_lines(in_order(encoded(a[i]))).len()
                ==> #[trigger] url_lines(in_order(encoded(a[i])))[k] != 124u8,
        forall|i: int, k: int|
            0 <= i < b.len() && 0 <= k < url_lines(in_order(encoded(b[i]))).len()
                ==> #[trigger] url_lines(in_order(encoded(b[i])))[k] != 124u8,
    ensures
        forall|i: int|
            0 <= i < a.len() ==> url_lines(in_order(encoded(#[trigger] a[i]))) == url_lines(
                in_order(encoded(b[i])),
            ),
    decreases a.len(),
{
    if a.len() > 0 {
        let n = a.len() - 1;
        let x = url_lines(in_order(encoded(a[n])));
        let y = url_lines(in_order(encoded(b[n])));
        let p = layout_of(a.drop_last());
        let q = layout_of(b.drop_last());
        let s = layout_of(a);
        assert(s == p + seq![124u8] + x);
        assert(s == q + seq![124u8] + y);
        if x.len() < y.len() {
            assert(s[p.len() as int] == 124u8);
            assert(s[p.len() as int] == y[p.len() as int - q.len() as int - 1]);
        } else if x.len() > y.len() {
            assert(s[q.len() as int] == 124u8);
            assert(s[q.len() as int] == x[q.len() as int - p.len() as int - 1]);
        }
        assert(x =~= s.skip(s.len() - x.len()));
        assert(y =~= s.skip(s.len() - y.len()));
        assert(p =~= s.take(s.len() - x.len() - 1));
        assert(q =~= s.take(s.len() - y.len() - 1));
        let af = a.drop_last();
        let bf = b.drop_last();
        assert forall|i: int, k: int|
            0 <= i < af.len() && 0 <= k < url_lines(in_order(encoded(af[i]))).len() implies
            #[trigger] url_lines(in_order(encoded(af[i])))[k] != 124u8 by {
            assert(url_lines(in_order(encoded(a[i])))[k] != 124u8);
        }
        assert forall|i: int, k: int|
            0 <= i < bf.len() && 0 <= k < url_lines(in_order(encoded(bf[i]))).len() implies
            #[trigger] url_lines(in_order(encoded(bf[i])))[k] != 124u8 by {
            assert(url_lines(in_order(encoded(b[i])))[k] != 124u8);
        }
        law_what_is_hashed_tells_layouts_apart(af, bf);
        assert forall|i: int| 0 <= i < a.len() implies url_lines(
            in_order(encoded(#[trigger] a[i])),
        ) == url_lines(in_order(encoded(b[i]))) by {
            if i < n {
                assert(af[i] == a[i]);
                assert(bf[i] == b[i]);
            }
        }
    }
}

/// Texts are ordered by the first byte in which they differ, and a text comes before
/// any that it begins.
pub proof fn law_the_first_difference_decides(
    p: Seq<u8>,
    x: u8,
    a: Seq<u8>,
    y: u8,
    b: Seq<u8>,
)
    ensures
        x < y ==> bytes_le(p + (seq![x] + a), p + (seq![y] + b)) && !bytes_le(
            p + (seq![y] + b),
            p + (seq![x] + a),
        ),
        bytes_le(p, p + b),
        b.len() > 0 ==> !bytes_le(p + b, p),
    decreases p.len(),
{
    let s = p + (seq![x] + a);
    let t = p + (seq![y] + b);
    if p.len() > 0 {
        let r = p.drop_first();
        law_the_first_difference_decides(r, x, a, y, b);
        assert(s.drop_first() =~= r + (seq![x] + a));
        assert(t.drop_first() =~= r + (seq![y] + b));
        assert((p + b).drop_first() =~= r + b);
        assert(s[0] == p[0] && t[0] == p[0] && (p + b)[0] == p[0]);
    } else {
        assert(s[0] == x && t[0] == y);
        assert(p + b =~= b);
    }
}

/// A header on the command line is a name and a value with a colon between them, and
/// of two with one name the later counts.
pub proof fn law_a_header_is_a_name_and_a_value(
    l: Seq<Seq<char>>,
    name: Seq<char>,
    value: Seq<char>,
)
    requires
        l.len() > 0,
        l.last() == name + seq![':'] + (seq![' '] + value),
        headers_of(l, l.len() - 1) is Ok,
        trimmed(name) == name,
        trimmed(value) == value,
        value.len() > 0,
        !white(value[0]),
        forall|i: int| 0 <= i < name.len() ==> name[i] != ':',
    ensures
        headers_of(l, l.len() as int) == Ok::<Seq<(Seq<char>, Seq<char>)>, Seq<char>>(
            with_pair(headers_of(l, l.len() - 1)->Ok_0, name, value),
        ),
        headers_of(l, 0) == Ok::<Seq<(Seq<char>, Seq<char>)>, Seq<char>>(Seq::empty()),
{
    let s = l.last();
    assert(l[l.len() - 1] == s);
    lemma_first_at(name, ':', seq![' '] + value);
    assert(s.take(name.len() as int) =~= name);
    let v = seq![' '] + value;
    assert(v.drop_first() =~= value);
    assert(white(' '));
    assert(trimmed(v) == value);
}

/// A header on the command line without a colon is refused.
pub proof fn law_a_header_needs_a_colon(l: Seq<Seq<char>>, n: int, k: int)
    requires
        0 <= k < n <= l.len(),
        !l[k].contains(':'),
    ensures
        headers_of(l, n) is Err,
    decreases n,
{
    lemma_index_from(l[n - 1], ':', 0);
    if k < n - 1 {
        law_a_header_needs_a_colon(l, n - 1, k);
    } else if let Some(i) = index_from(l[k], ':', 0) {
        assert(l[k][i] == ':');
    }
}

/// URLs on the command line are volumes of one file, one after another, where that is
/// said, and mirrors of one file otherwise.
pub proof fn law_urls_are_parts_or_mirrors(urls: Seq<Seq<char>>, i: int)
    requires
        0 <= i < urls.len(),
    ensures
        command_layout(urls, true).len() == urls.len(),
        command_layout(urls, true)[i] == seq![urls[i]],
        command_layout(urls, false).len() == 1,
        command_layout(urls, false)[0] == urls,
{
}

/// A bar has thirty places, of which as many are filled as the percentage says, from
/// the left.
pub proof fn law_a_bar_shows_the_percentage(pct: int, i: int)
    requires
        0 <= pct,
        0 <= i < 30,
    ensures
        bar_for(pct).len() == 30,
        bar_for(pct)[i] == '=' || bar_for(pct)[i] == ' ',
        bar_for(pct)[i] == '=' <==> 100 * (i + 1) <= 30 * pct,
        pct >= 100 ==> bar_for(pct)[i] == '=',
        pct == 0 ==> bar_for(pct)[i] == ' ',
{
    let filled = pct * 30 / 100;
    assert(100 * filled <= pct * 30 < 100 * (filled + 1));
}

/// An address stands for every address if and only if it is all zeros.
pub proof fn law_zeros_stand_for_every_address(ip: IpView, i: int)
    requires
        ip.wf(),
    ensures
        ip matches IpView::V4(a) ==> (0 <= i < 4 && a[i] != 0 ==> !unspecified(ip)) && ((forall|
            k: int,
        |
            0 <= k < 4 ==> a[k] == 0) ==> unspecified(ip)),
        ip matches IpView::V6(a) ==> (0 <= i < 8 && a[i] != 0 ==> !unspecified(ip)) && ((forall|
            k: int,
        |
            0 <= k < 8 ==> a[k] == 0) ==> unspecified(ip)),
{
}

/// Slashes in front of a path do not count, and paths of the interface and of streams
/// are no files.
pub proof fn law_leading_slashes_do_not_count(path: Seq<char>)
    ensures
        asset_path(seq!['/'] + path) == asset_path(path),
        path.len() > 0 && path[0] != '/' ==> asset_path(path) == path,
        is_endpoint("api/"@ + path),
        is_endpoint("stream/"@ + path),
        path.len() > 0 && path[0] != 'a' && path[0] != 's' ==> !is_endpoint(path),
{
    let s = seq!['/'] + path;
    assert(s.drop_first() =~= path);
    reveal_strlit("api/");
    reveal_strlit("stream/");
    assert(("api/"@ + path).take(4) =~= "api/"@);
    assert(("stream/"@ + path).take(7) =~= "stream/"@);
    if path.len() > 0 && path[0] != 'a' && path[0] != 's' {
        if begins_with(path, "api/"@) {
            assert(path.take(4)[0] == path[0]);
        }
        if begins_with(path, "stream/"@) {
            assert(path.take(7)[0] == path[0]);
        }
    }
}

/// A target is shown by its name or address, with its port where it has one, and goes
/// into a URL in brackets where it is a long address.
pub proof fn law_a_target_is_shown_with_its_port(h: Seq<char>, ip: IpView, p: u16)
    ensures
        shown_target(TargetView::Host(h, 0)) == h,
        shown_target(TargetView::Ip(ip, 0)) == ip_text(ip),
        p > 0 ==> shown_target(TargetView::Host(h, p)) == h + (seq![':'] + decimal(p as nat)),
        p > 0 ==> shown_target(TargetView::Ip(ip, p)) == ip_text(ip) + (seq![':'] + decimal(
            p as nat,
        )),
        url_host(TargetView::Host(h, p)) == h,
        ip is V4 ==> url_host(TargetView::Ip(ip, p)) == ip_text(ip),
        ip is V6 ==> url_host(TargetView::Ip(ip, p)) == seq!['['] + ip_text(ip) + seq![']'],
        target_port(TargetView::Host(h, p)) == p,
        target_port(TargetView::Ip(ip, p)) == p,
{
}

/// A new task needs a URL, and whatever is wrong with its settings once they are in
/// shape is wrong with it.
pub proof fn law_a_new_task_needs_a_url(c: ConfigView)
    ensures
        c.normal().volumes.len() == 0 ==> task_fault(c) is Some,
        c.normal().volumes.len() > 0 ==> task_fault(c) == c.normal().fault(),
{
}

/// The host to look up is that of the URL, or the text itself where it is no URL with
/// a host; without a text there is none.
pub proof fn law_a_host_can_be_given_as_a_url(raw: Seq<char>, parts: Option<UrlView>)
    ensures
        trimmed(raw).len() == 0 ==> asked_host(raw, parts) is None,
        trimmed(raw).len() > 0 && parts is Some && parts->0.host is Some ==> asked_host(raw, parts)
            == parts->0.host,
        trimmed(raw).len() > 0 && (parts is None || parts->0.host is None) ==> asked_host(
            raw,
            parts,
        ) == Some(trimmed(raw)),
{
}

/// Files are written under the prefix that was asked for, else under the name of the
/// input, and marked as encrypted only where they are.
pub proof fn law_volumes_are_written_under_the_prefix(p: ForwardParams, stem: Option<Seq<char>>)
    ensures
        p.filename_prefix is Some && trimmed(p.filename_prefix->0@).len() > 0 ==> prefix_for(
            p,
            stem,
        ) == trimmed(p.filename_prefix->0@),
        p.filename_prefix is None && stem is Some ==> prefix_for(p, stem) == stem->0,
        p.filename_prefix is None && stem is None ==> prefix_for(p, stem) == "output"@,
        p.volume_suffix is Some && trimmed(p.volume_suffix->0@).len() > 0 ==> suffix_for(p)
            == trimmed(p.volume_suffix->0@),
        p.volume_suffix is None && p.encrypt ==> suffix_for(p) == ".part{N}.enc"@,
        p.volume_suffix is None && !p.encrypt ==> suffix_for(p) == ".part{N}"@,
        p.max_volume_size is None ==> max_volume_for(p) == Ok::<int, Seq<char>>(0),
        (p.max_volume_size matches Some(SizeValue::Number(Some(n)))) ==> max_volume_for(p) == Ok::<
            int,
            Seq<char>,
        >(p.max_volume_size->0->Number_0->0 as int),
{
}

/// Nothing but white space from a dialog means that it was cancelled; anything else
/// does so only where the system reports the user's own cancelling.
pub proof fn law_silence_is_a_cancel(words: Seq<char>, name: Seq<char>, mark: char)
    ensures
        trimmed(words).len() == 0 ==> cancelled(words, Platform::Windows) && cancelled(
            words,
            Platform::Mac,
        ),
        trimmed(words).len() > 0 ==> !cancelled(words, Platform::Windows),
        given_or(None, name, mark) == name,
{
}

proof fn lemma_decimal_push(m: nat, d: nat)
    requires
        m > 0,
        d < 10,
    ensures
        decimal((10 * m + d) as nat) == decimal(m).push((('0' as u32 + d) as u32) as char),
{
    let n = (10 * m + d) as nat;
    assert(n >= 10);
    assert(n / 10 == m);
    assert(n % 10 == d);
}

/// Digits without a zero in front are written back as they were read.
proof fn lemma_written_back(s: Seq<char>)
    requires
        all_digits(s),
        s.len() > 0,
        s.len() == 1 || s[0] != '0',
    ensures
        decimal(digits_value(s) as nat) == s,
        digits_value(s) >= 0,
        s[0] != '0' ==> digits_value(s) > 0,
    decreases s.len(),
{
    let last = s.last();
    assert(digit(s[s.len() - 1]));
    let d = (last as u32 - '0' as u32) as nat;
    assert((('0' as u32 + d) as u32) as char == last);
    if s.len() == 1 {
        assert(digits_value(s.drop_last()) == 0);
        assert(digits_value(s) == d);
        assert(decimal(d) =~= s);
    } else {
        let front = s.drop_last();
        assert forall|i: int| 0 <= i < front.len() implies digit(#[trigger] front[i]) by {
            assert(digit(s[i]));
        }
        assert(front[0] == s[0]);
        lemma_written_back(front);
        let m = digits_value(front) as nat;
        lemma_decimal_push(m, d);
        assert(digits_value(s) == 10 * m + d);
        assert(front.push(last) =~= s);
    }
}

/// An address of four numbers is written in one way only: what is read as one is
/// written back as it was, so that no number has a zero in front or is above 255.
pub proof fn law_a_short_address_is_written_in_one_way(s: Seq<char>)
    requires
        v4_of(s) is Some,
    ensures
        v4_of(s)->0.len() == 4,
        v4_text(v4_of(s)->0) == s,
{
    let p = split_on(s, '.');
    let s1 = lemma_peel(s);
    assert(p[1] == p.drop_first()[0]);
    let p1 = split_on(s1, '.');
    let s2 = lemma_peel(s1);
    assert(p[2] == p1.drop_first()[0]);
    let p2 = split_on(s2, '.');
    let s3 = lemma_peel(s2);
    assert(p[3] == p2.drop_first()[0]);
    lemma_one_piece(s3);
    lemma_octet_back(s3);
}

/// The first of several pieces, written back, with what follows it.
proof fn lemma_peel(s: Seq<char>) -> (rest: Seq<char>)
    requires
        split_on(s, '.').len() >= 2,
        octet(split_on(s, '.')[0]) is Some,
    ensures
        s == decimal(octet(split_on(s, '.')[0])->0 as nat) + (seq!['.'] + rest),
        split_on(s, '.').drop_first() == split_on(rest, '.'),
        split_on(rest, '.').len() + 1 == split_on(s, '.').len(),
{
    lemma_split_once(s);
    let i = index_from(s, '.', 0)->0;
    let rest = s.skip(i + 1);
    let p = split_on(s, '.');
    assert(p[0] == s.take(i));
    lemma_octet_back(s.take(i));
    assert(p.drop_first() =~= split_on(rest, '.'));
    rest
}

proof fn lemma_one_piece(s: Seq<char>)
    requires
        split_on(s, '.').len() == 1,
    ensures
        split_on(s, '.')[0] == s,
{
    lemma_split_once(s);
}

proof fn lemma_octet_back(s: Seq<char>)
    requires
        octet(s) is Some,
    ensures
        decimal(octet(s)->0 as nat) == s,
{
    lemma_written_back(s);
}

proof fn lemma_split_once(s: Seq<char>)
    ensures
        match index_from(s, '.', 0) {
            Some(i) => 0 <= i < s.len() && s == s.take(i) + (seq!['.'] + s.skip(i + 1)) && split_on(
                s,
                '.',
            ) == seq![s.take(i)] + split_on(s.skip(i + 1), '.') && split_on(s, '.').len()
                == 1 + split_on(s.skip(i + 1), '.').len(),
            None => split_on(s, '.') == seq![s],
        },
        split_on(s, '.').len() >= 1,
{
    lemma_index_from(s, '.', 0);
    if let Some(i) = index_from(s, '.', 0) {
        assert(s =~= s.take(i) + (seq!['.'] + s.skip(i + 1)));
    }
}

/// Digests are written with digits and small letters, two for each byte.
pub proof fn law_hexadecimal_is_small(data: Seq<u8>, i: int)
    requires
        0 <= i < data.len(),
    ensures
        hex_of(data).len() == 2 * data.len(),
        '0' <= hex_of(data)[2 * i] <= '9' || 'a' <= hex_of(data)[2 * i] <= 'f',
        '0' <= hex_of(data)[2 * i + 1] <= '9' || 'a' <= hex_of(data)[2 * i + 1] <= 'f',
        data[i] < 160 ==> '0' <= hex_of(data)[2 * i] <= '9',
{
    assert((2 * i) / 2 == i && (2 * i) % 2 == 0);
    assert((2 * i + 1) / 2 == i && (2 * i + 1) % 2 == 1);
}

/// In a name that is written out, letters, digits, dots, dashes and underscores stand
/// for themselves; white space, quotes, semicolons, percent signs, backslashes and all
/// that is not ASCII are spelled with a percent sign and two digits, of which letters
/// are capitals.
pub proof fn law_a_written_name_spells_what_it_must(front: Seq<u8>, b: u8)
    ensures
        percent_encoded(Seq::<u8>::empty()) == Seq::<char>::empty(),
        48 <= b <= 57 || 65 <= b <= 90 || 97 <= b <= 122 || b == 45 || b == 46 || b == 95
            ==> percent_encoded(front.push(b)) == percent_encoded(front) + seq![b as char],
        b <= 32 || b >= 127 || b == 34 || b == 37 || b == 39 || b == 40 || b == 41 || b == 42 || b
            == 59 || b == 92 ==> percent_encoded(front.push(b)) == percent_encoded(front) + seq![
            '%',
            super::names::hexit_of(b as int / 16, false) as char,
            super::names::hexit_of(b as int % 16, false) as char,
        ],
{
    assert(front.push(b).drop_last() =~= front);
}

/// A list in order holds the same texts, and none comes before one that it should
/// follow.
pub proof fn law_a_list_in_order_is_in_order(l: Seq<Seq<u8>>, i: int, j: int)
    requires
        0 <= i < j < in_order(l).len(),
    ensures
        bytes_le(in_order(l)[i], in_order(l)[j]),
        in_order(l).to_multiset() == l.to_multiset(),
        in_order(l).len() == l.len(),
{
    lemma_by_bytes_is_total();
    l.lemma_sort_by_ensures(by_bytes());
    let s = in_order(l);
    assert(by_bytes()(s[i], s[j]));
    l.to_multiset_ensures();
    s.to_multiset_ensures();
}

/// The brackets round a long address do not belong to it.
pub proof fn law_brackets_are_taken_off(h: Seq<char>)
    requires
        h.len() > 0,
        h[0] != '[',
        h[0] != ']',
        h.last() != ']',
    ensures
        unbracketed(seq!['['] + h + seq![']']) == h,
        unbracketed(h) == h,
{
    let s = seq!['['] + h + seq![']'];
    assert(s.drop_first() =~= h + seq![']']);
    assert((h + seq![']'])[0] == h[0]);
    assert(without_front(h + seq![']'], '[') == h + seq![']']);
    let t = h + seq![']'];
    assert(t.drop_last() =~= h);
    assert(without_back(h, ']') == h);
    assert(without_back(t, ']') == h);
    assert(without_front(s, '[') == t);
}

/// Names that are listed stand in their order with a comma and a space between them.
pub proof fn law_names_are_listed_with_commas(l: Seq<Seq<char>>, s: Seq<char>)
    ensures
        listed(seq![s]) == s,
        l.len() > 0 ==> listed(l.push(s)) == listed(l) + (seq![',', ' '] + s),
        listed(Seq::<Seq<char>>::empty()) == Seq::<char>::empty(),
{
    assert(l.push(s).drop_last() =~= l);
}

} // verus!
