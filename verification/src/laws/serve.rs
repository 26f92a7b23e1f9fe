//! What a client is answered.

use crate::engine::range_asked;
use crate::error::ProxyError;
use crate::headers::sendable;
use crate::models::ContentDispositionMode;
use crate::names::before_first;
use crate::probe::ProbeView;
use crate::serve::{
    common_headers, disposition_value, header_views, is_answer, optional_header, served_range,
    HeaderView, ServePlan,
};
use crate::text::{begins_with, decimal, lemma_trimmed_solid, number, trimmed, white};
use super::texts::{law_a_written_number_is_read, lemma_first_at, lemma_nowhere};
use vstd::prelude::*;
use vstd::string::*;

verus! {

/// A header of this name says this, and no header of the name says anything else.
pub open spec fn says(l: Seq<HeaderView>, name: Seq<char>, value: Seq<char>) -> bool {
    &&& l.contains(HeaderView { name, value })
    &&& forall|i: int| 0 <= i < l.len() && (#[trigger] l[i]).name == name ==> l[i].value == value
}

/// No header has this name.
pub open spec fn silent(l: Seq<HeaderView>, name: Seq<char>) -> bool {
    forall|i: int| 0 <= i < l.len() ==> (#[trigger] l[i]).name != name
}

/// The text of a range, both ends named.
pub open spec fn closed_range(s: u64, e: u64) -> Seq<char> {
    "bytes="@ + (decimal(s as nat) + seq!['-'] + decimal(e as nat))
}

/// The text of a range up to the end of the file.
pub open spec fn open_range(s: u64) -> Seq<char> {
    "bytes="@ + (decimal(s as nat) + seq!['-'])
}

/// The text of a range of so many bytes at the end of the file.
pub open spec fn last_range(n: u64) -> Seq<char> {
    "bytes="@ + (seq!['-'] + decimal(n as nat))
}

/// How the first range of a header is read that holds no white space and no comma.
proof fn lemma_only_range(spec: Seq<char>)
    requires
        spec.len() > 0,
        forall|i: int| 0 <= i < spec.len() ==> !white(#[trigger] spec[i]) && spec[i] != ',',
    ensures
        ({
            let v = "bytes="@ + spec;
            &&& trimmed(v) == v
            &&& begins_with(v, "bytes="@)
            &&& trimmed(before_first(v.skip(6), ',')) == spec
        }),
{
    reveal_strlit("bytes=");
    let v = "bytes="@ + spec;
    assert forall|i: int| 0 <= i < v.len() implies !white(#[trigger] v[i]) by {
        if i >= 6 {
            assert(v[i] == spec[i - 6]);
        }
    }
    lemma_trimmed_solid(v);
    assert(v.take(6) =~= "bytes="@);
    assert(v.skip(6) =~= spec);
    lemma_nowhere(spec, ',');
    lemma_trimmed_solid(spec);
}

/// A range that names both its ends asks for the bytes from the first to the last; one
/// whose ends are the wrong way round asks for nothing.
pub proof fn law_a_closed_range_is_read(s: u64, e: u64, total: Option<u64>)
    ensures
        s <= e ==> range_asked(closed_range(s, e), total) == Ok::<
            (int, Option<int>),
            Seq<char>,
        >((s as int, Some(e as int))),
        s > e ==> range_asked(closed_range(s, e), total) is Err,
{
    let a = decimal(s as nat);
    let b = decimal(e as nat);
    law_a_written_number_is_read(s as nat, u64::MAX as int);
    law_a_written_number_is_read(e as nat, u64::MAX as int);
    let spec = a + seq!['-'] + b;
    assert forall|i: int| 0 <= i < spec.len() implies !white(#[trigger] spec[i]) && spec[i]
        != ',' by {
        if i < a.len() {
            assert(spec[i] == a[i]);
        } else if i > a.len() {
            assert(spec[i] == b[i - a.len() - 1]);
        }
    }
    lemma_only_range(spec);
    assert(spec[0] == a[0]);
    lemma_first_at(a, '-', b);
}

/// A range that names its first byte alone asks for all from there on.
pub proof fn law_an_open_range_is_read(s: u64, total: Option<u64>)
    ensures
        range_asked(open_range(s), total) == Ok::<(int, Option<int>), Seq<char>>(
            (s as int, None),
        ),
{
    let a = decimal(s as nat);
    law_a_written_number_is_read(s as nat, u64::MAX as int);
    let spec = a + seq!['-'];
    assert forall|i: int| 0 <= i < spec.len() implies !white(#[trigger] spec[i]) && spec[i]
        != ',' by {
        if i < a.len() {
            assert(spec[i] == a[i]);
        }
    }
    lemma_only_range(spec);
    assert(spec[0] == a[0]);
    lemma_first_at(a, '-', seq![]);
    assert(a + seq!['-'] + seq![] =~= spec);
    assert(trimmed(Seq::<char>::empty()) =~= Seq::<char>::empty());
    assert(spec.skip(a.len() as int + 1) =~= Seq::<char>::empty());
}

/// A range of the last bytes asks for as many of them as the file has.
pub proof fn law_a_range_of_the_last_bytes_is_read(n: u64, total: u64)
    requires
        n > 0,
        total > 0,
    ensures
        range_asked(last_range(n), Some(total)) == Ok::<(int, Option<int>), Seq<char>>(
            (
                if n < total {
                    total - n
                } else {
                    0
                },
                Some(total - 1),
            ),
        ),
{
    let b = decimal(n as nat);
    law_a_written_number_is_read(n as nat, u64::MAX as int);
    let spec = seq!['-'] + b;
    assert forall|i: int| 0 <= i < spec.len() implies !white(#[trigger] spec[i]) && spec[i]
        != ',' by {
        if i > 0 {
            assert(spec[i] == b[i - 1]);
        }
    }
    lemma_only_range(spec);
    assert(spec.skip(1) =~= b);
}

/// The names of headers are told apart.
proof fn lemma_header_names()
    ensures
        "content-type"@ != "content-length"@,
        "content-type"@ != "content-range"@,
        "content-type"@ != "etag"@,
        "content-type"@ != "last-modified"@,
        "content-type"@ != "content-disposition"@,
        "content-type"@ != "accept-ranges"@,
        "content-type"@ != "x-hydraria-task"@,
        "etag"@ != "content-length"@,
        "etag"@ != "content-range"@,
        "etag"@ != "last-modified"@,
        "etag"@ != "content-disposition"@,
        "etag"@ != "accept-ranges"@,
        "etag"@ != "x-hydraria-task"@,
        "last-modified"@ != "content-length"@,
        "last-modified"@ != "content-range"@,
        "last-modified"@ != "content-disposition"@,
        "last-modified"@ != "accept-ranges"@,
        "last-modified"@ != "x-hydraria-task"@,
        "content-disposition"@ != "content-length"@,
        "content-disposition"@ != "content-range"@,
        "content-disposition"@ != "accept-ranges"@,
        "content-disposition"@ != "x-hydraria-task"@,
        "accept-ranges"@ != "content-length"@,
        "accept-ranges"@ != "content-range"@,
        "accept-ranges"@ != "x-hydraria-task"@,
        "x-hydraria-task"@ != "content-length"@,
        "x-hydraria-task"@ != "content-range"@,
        "content-length"@ != "content-range"@,
{
    reveal_strlit("content-type");
    reveal_strlit("etag");
    reveal_strlit("last-modified");
    reveal_strlit("content-disposition");
    reveal_strlit("accept-ranges");
    reveal_strlit("x-hydraria-task");
    reveal_strlit("content-length");
    reveal_strlit("content-range");
    assert("content-type"@.len() == 12);
    assert("etag"@.len() == 4);
    assert("content-disposition"@.len() == 19);
    assert("content-length"@.len() == 14);
    assert("x-hydraria-task"@.len() == 15);
    assert("last-modified"@.len() == 13 && "last-modified"@[0] == 'l');
    assert("accept-ranges"@.len() == 13 && "accept-ranges"@[0] == 'a');
    assert("content-range"@.len() == 13 && "content-range"@[0] == 'c');
}

/// A header that may be there is the only one of its name among those that may.
pub open spec fn told(l: Seq<HeaderView>, name: Seq<char>, value: Option<Seq<char>>) -> bool {
    match value {
        Some(v) => if sendable(v) {
            says(l, name, v)
        } else {
            silent(l, name)
        },
        None => silent(l, name),
    }
}

/// Every answer tells what the origin said of the file: its type, its validators, its
/// name, whether ranges are served, and of which task it is.
pub proof fn law_an_answer_tells_what_is_known(
    probe: ProbeView,
    mode: ContentDispositionMode,
    task_id: Seq<char>,
    more: Seq<HeaderView>,
)
    requires
        forall|i: int|
            0 <= i < more.len() ==> (#[trigger] more[i]).name == "content-length"@ || more[i].name
                == "content-range"@,
    ensures
        ({
            let l = common_headers(probe, mode, task_id) + more;
            &&& told(l, "content-type"@, probe.content_type)
            &&& told(l, "etag"@, probe.etag)
            &&& told(l, "last-modified"@, probe.last_modified)
            &&& says(l, "x-hydraria-task"@, task_id)
            &&& probe.accepts_ranges ==> says(l, "accept-ranges"@, "bytes"@)
            &&& !probe.accepts_ranges ==> says(l, "accept-ranges"@, "none"@)
            &&& probe.filename is None ==> silent(l, "content-disposition"@)
            &&& probe.filename is Some ==> told(
                l,
                "content-disposition"@,
                disposition_value(probe.filename->0, mode),
            )
        }),
{
    let cd = match probe.filename {
        Some(n) => disposition_value(n, mode),
        None => None,
    };
    let e = last_two(probe, task_id);
    let l = common_headers(probe, mode, task_id) + more;
    lemma_header_names();
    lemma_optional("content-type"@, probe.content_type);
    lemma_optional("etag"@, probe.etag);
    lemma_optional("last-modified"@, probe.last_modified);
    lemma_optional("content-disposition"@, cd);
    let a = optional_header("content-type"@, probe.content_type);
    let b = optional_header("etag"@, probe.etag);
    let c = optional_header("last-modified"@, probe.last_modified);
    let d = optional_header("content-disposition"@, cd);
    assert(l =~= a + b + c + d + e + more);
    lemma_one_of_six(a, b, c, d, e, more, "content-type"@, probe.content_type);
    lemma_one_of_six(a, b, c, d, e, more, "etag"@, probe.etag);
    lemma_one_of_six(a, b, c, d, e, more, "last-modified"@, probe.last_modified);
    lemma_one_of_six(a, b, c, d, e, more, "content-disposition"@, cd);
    assert(e[0].name == "accept-ranges"@ && e[1].name == "x-hydraria-task"@);
    lemma_fifth(a, b, c, d, e, more, "accept-ranges"@, e[0].value);
    lemma_fifth(a, b, c, d, e, more, "x-hydraria-task"@, e[1].value);
}

/// The headers that are always there.
spec fn last_two(probe: ProbeView, task_id: Seq<char>) -> Seq<HeaderView> {
    seq![
        HeaderView {
            name: "accept-ranges"@,
            value: if probe.accepts_ranges {
                "bytes"@
            } else {
                "none"@
            },
        },
        HeaderView { name: "x-hydraria-task"@, value: task_id },
    ]
}

proof fn lemma_fifth(
    a: Seq<HeaderView>,
    b: Seq<HeaderView>,
    c: Seq<HeaderView>,
    d: Seq<HeaderView>,
    e: Seq<HeaderView>,
    more: Seq<HeaderView>,
    name: Seq<char>,
    value: Seq<char>,
)
    requires
        silent(a, name),
        silent(b, name),
        silent(c, name),
        silent(d, name),
        says(e, name, value),
        silent(more, name),
    ensures
        says(a + b + c + d + e + more, name, value),
{
    lemma_silent(a, b, name);
    lemma_silent(a + b, c, name);
    lemma_silent(a + b + c, d, name);
    lemma_between(a + b + c + d, e, more, name);
}

proof fn lemma_one_of_six(
    a: Seq<HeaderView>,
    b: Seq<HeaderView>,
    c: Seq<HeaderView>,
    d: Seq<HeaderView>,
    e: Seq<HeaderView>,
    more: Seq<HeaderView>,
    name: Seq<char>,
    value: Option<Seq<char>>,
)
    requires
        silent(e, name),
        silent(more, name),
        told(a, name, value) && silent(b, name) && silent(c, name) && silent(d, name) || silent(
            a,
            name,
        ) && told(b, name, value) && silent(c, name) && silent(d, name) || silent(a, name)
            && silent(b, name) && told(c, name, value) && silent(d, name) || silent(a, name)
            && silent(b, name) && silent(c, name) && told(d, name, value),
    ensures
        told(a + b + c + d + e + more, name, value),
{
    let none = Seq::<HeaderView>::empty();
    let l = a + b + c + d + e + more;
    lemma_silent(e, more, name);
    if told(a, name, value) && silent(b, name) && silent(c, name) && silent(d, name) {
        lemma_silent(b, c, name);
        lemma_silent(b + c, d, name);
        lemma_silent(b + c + d, e + more, name);
        lemma_between(none, a, b + c + d + (e + more), name);
        assert(l =~= none + a + (b + c + d + (e + more)));
    } else if silent(a, name) && told(b, name, value) && silent(c, name) && silent(d, name) {
        lemma_silent(c, d, name);
        lemma_silent(c + d, e + more, name);
        lemma_between(a, b, c + d + (e + more), name);
        assert(l =~= a + b + (c + d + (e + more)));
    } else if silent(a, name) && silent(b, name) && told(c, name, value) && silent(d, name) {
        lemma_silent(a, b, name);
        lemma_silent(d, e + more, name);
        lemma_between(a + b, c, d + (e + more), name);
        assert(l =~= a + b + c + (d + (e + more)));
    } else {
        lemma_silent(a, b, name);
        lemma_silent(a + b, c, name);
        lemma_between(a + b + c, d, e + more, name);
        assert(l =~= a + b + c + d + (e + more));
    }
}

proof fn lemma_silent(a: Seq<HeaderView>, b: Seq<HeaderView>, name: Seq<char>)
    requires
        silent(a, name),
        silent(b, name),
    ensures
        silent(a + b, name),
{
    assert forall|i: int| 0 <= i < (a + b).len() implies (#[trigger] (a + b)[i]).name != name by {
        if i < a.len() {
            assert((a + b)[i] == a[i]);
        } else {
            assert((a + b)[i] == b[i - a.len()]);
        }
    }
}

/// What the middle says of a name, all of it says where the ends say nothing of it.
proof fn lemma_between(
    a: Seq<HeaderView>,
    b: Seq<HeaderView>,
    c: Seq<HeaderView>,
    name: Seq<char>,
)
    requires
        silent(a, name),
        silent(c, name),
    ensures
        silent(b, name) ==> silent(a + b + c, name),
        forall|v: Seq<char>| #[trigger] says(b, name, v) ==> says(a + b + c, name, v),
{
    let l = a + b + c;
    assert forall|i: int| 0 <= i < l.len() implies #[trigger] l[i] == if i < a.len() {
        a[i]
    } else if i < a.len() + b.len() {
        b[i - a.len()]
    } else {
        c[i - a.len() - b.len()]
    } by {}
    assert forall|v: Seq<char>| #[trigger] says(b, name, v) implies says(l, name, v) by {
        let k = choose|k: int| 0 <= k < b.len() && b[k] == HeaderView { name, value: v };
        assert(l[a.len() + k] == b[k]);
    }
}

proof fn lemma_optional(name: Seq<char>, value: Option<Seq<char>>)
    ensures
        told(optional_header(name, value), name, value),
        forall|other: Seq<char>|
            other != name ==> #[trigger] silent(optional_header(name, value), other),
{
    let l = optional_header(name, value);
    if l.len() > 0 {
        assert(l[0] == HeaderView { name, value: value->0 });
    }
}

/// The lengths and ranges among the headers are those behind the common ones.
proof fn lemma_own_headers(
    probe: ProbeView,
    mode: ContentDispositionMode,
    task_id: Seq<char>,
    more: Seq<HeaderView>,
    name: Seq<char>,
)
    requires
        name == "content-length"@ || name == "content-range"@,
    ensures
        ({
            let l = common_headers(probe, mode, task_id) + more;
            &&& silent(more, name) ==> silent(l, name)
            &&& forall|v: Seq<char>| #[trigger] says(more, name, v) ==> says(l, name, v)
        }),
{
    lemma_header_names();
    let front = common_headers(probe, mode, task_id);
    let l = front + more;
    let a = optional_header("content-type"@, probe.content_type);
    let b = optional_header("etag"@, probe.etag);
    let c = optional_header("last-modified"@, probe.last_modified);
    let d = optional_header(
        "content-disposition"@,
        match probe.filename {
            Some(n) => disposition_value(n, mode),
            None => None,
        },
    );
    let x = a.len() as int;
    let y = x + b.len();
    let z = y + c.len();
    let w = z + d.len();
    assert forall|i: int| 0 <= i < front.len() implies (#[trigger] front[i]).name != name by {
        if i < x {
            assert(front[i] == a[i]);
        } else if i < y {
            assert(front[i] == b[i - x]);
        } else if i < z {
            assert(front[i] == c[i - y]);
        } else if i < w {
            assert(front[i] == d[i - z]);
        }
    }
    assert forall|i: int| 0 <= i < l.len() implies #[trigger] l[i] == if i < front.len() {
        front[i]
    } else {
        more[i - front.len()]
    } by {}
    assert forall|v: Seq<char>| #[trigger] says(more, name, v) implies says(l, name, v) by {
        let k = choose|k: int| 0 <= k < more.len() && more[k] == HeaderView { name, value: v };
        assert(l[front.len() + k] == more[k]);
    }
}

/// An answer with these bytes of the file and no others: it says how many there are
/// and, for a part, which of how many; and the body is those bytes.
pub open spec fn serves(
    p: ServePlan,
    first: int,
    last: int,
    total: int,
    part: bool,
    head_only: bool,
) -> bool {
    let l = header_views(p.headers@);
    &&& p.status == if part {
        206u16
    } else {
        200u16
    }
    &&& says(l, "content-length"@, decimal((last - first + 1) as nat))
    &&& part ==> says(
        l,
        "content-range"@,
        "bytes "@ + decimal(first as nat) + seq!['-'] + decimal(last as nat) + seq!['/'] + decimal(
            total as nat,
        ),
    )
    &&& !part ==> silent(l, "content-range"@)
    &&& if head_only {
        p.body is Empty
    } else {
        &&& p.body is Range
        &&& p.body->start == first
        &&& p.body->end == last
    }
}

proof fn lemma_serves(
    p: ServePlan,
    probe: ProbeView,
    range: Option<Seq<char>>,
    head_only: bool,
    mode: ContentDispositionMode,
    task_id: Seq<char>,
    s: int,
    e: int,
    open: bool,
)
    requires
        probe.accepts_ranges,
        probe.total_size is Some,
        is_answer(Ok(p), probe, range, head_only, mode, task_id),
        served_range(range, probe.total_size->0) == Ok::<(int, int, bool), Seq<char>>((s, e, open)),
        0 <= s <= e,
    ensures
        serves(p, s, e, probe.total_size->0 as int, range is Some, head_only),
        !head_only ==> p.body->open_ended == open,
{
    let total = probe.total_size->0 as int;
    let n = HeaderView { name: "content-length"@, value: decimal((e - s + 1) as nat) };
    let text = "bytes "@ + decimal(s as nat) + seq!['-'] + decimal(e as nat) + seq!['/']
        + decimal(total as nat);
    let r = HeaderView { name: "content-range"@, value: crate::serve::content_range(s, e, total) };
    assert(r.value =~= text);
    let more = if range is Some {
        seq![n, r]
    } else {
        seq![n]
    };
    lemma_header_names();
    let l = header_views(p.headers@);
    assert(l =~= common_headers(probe, mode, task_id) + more);
    assert(more[0] == n);
    assert(says(more, "content-length"@, n.value));
    if range is Some {
        assert(more[1] == r);
        assert(says(more, "content-range"@, r.value));
    } else {
        assert(silent(more, "content-range"@));
    }
    lemma_own_headers(probe, mode, task_id, more, "content-length"@);
    lemma_own_headers(probe, mode, task_id, more, "content-range"@);
}

/// A range that names both ends is answered with exactly those bytes, as far as the
/// file has them; one that begins behind the file, or whose ends are the wrong way
/// round, is refused.
pub proof fn law_a_closed_range_is_served(
    out: Result<ServePlan, ProxyError>,
    probe: ProbeView,
    s: u64,
    e: u64,
    head_only: bool,
    mode: ContentDispositionMode,
    task_id: Seq<char>,
)
    requires
        probe.accepts_ranges,
        probe.total_size is Some,
        probe.total_size->0 > 0,
        is_answer(out, probe, Some(closed_range(s, e)), head_only, mode, task_id),
    ensures
        ({
            let total = probe.total_size->0 as int;
            let last = if e < total {
                e as int
            } else {
                total - 1
            };
            &&& s <= e && s < total ==> out is Ok && serves(
                out->Ok_0,
                s as int,
                last,
                total,
                true,
                head_only,
            ) && (!head_only ==> !(out->Ok_0).body->open_ended)
            &&& s > e || s >= total ==> out is Err && out->Err_0 is InvalidRange
        }),
{
    law_a_closed_range_is_read(s, e, probe.total_size);
    let total = probe.total_size->0 as int;
    if s <= e && s < total {
        let last = if e < total {
            e as int
        } else {
            total - 1
        };
        lemma_serves(
            out->Ok_0,
            probe,
            Some(closed_range(s, e)),
            head_only,
            mode,
            task_id,
            s as int,
            last,
            false,
        );
    }
}

/// A range without a last byte is answered with all from its first byte on, and is
/// known to be open.
pub proof fn law_an_open_range_is_served(
    out: Result<ServePlan, ProxyError>,
    probe: ProbeView,
    s: u64,
    head_only: bool,
    mode: ContentDispositionMode,
    task_id: Seq<char>,
)
    requires
        probe.accepts_ranges,
        probe.total_size is Some,
        probe.total_size->0 > 0,
        is_answer(out, probe, Some(open_range(s)), head_only, mode, task_id),
    ensures
        ({
            let total = probe.total_size->0 as int;
            &&& s < total ==> out is Ok && serves(
                out->Ok_0,
                s as int,
                total - 1,
                total,
                true,
                head_only,
            ) && (!head_only ==> (out->Ok_0).body->open_ended)
            &&& s >= total ==> out is Err && out->Err_0 is InvalidRange
        }),
{
    law_an_open_range_is_read(s, probe.total_size);
    let total = probe.total_size->0 as int;
    if s < total {
        lemma_serves(
            out->Ok_0,
            probe,
            Some(open_range(s)),
            head_only,
            mode,
            task_id,
            s as int,
            total - 1,
            true,
        );
    }
}

/// A range of the last bytes is answered with the last bytes, all of the file where it
/// has no more.
pub proof fn law_the_last_bytes_are_served(
    out: Result<ServePlan, ProxyError>,
    probe: ProbeView,
    n: u64,
    head_only: bool,
    mode: ContentDispositionMode,
    task_id: Seq<char>,
)
    requires
        n > 0,
        probe.accepts_ranges,
        probe.total_size is Some,
        probe.total_size->0 > 0,
        is_answer(out, probe, Some(last_range(n)), head_only, mode, task_id),
    ensures
        ({
            let total = probe.total_size->0 as int;
            let first = if n < total {
                total - n
            } else {
                0
            };
            out is Ok && serves(out->Ok_0, first, total - 1, total, true, head_only)
        }),
{
    law_a_range_of_the_last_bytes_is_read(n, probe.total_size->0);
    let total = probe.total_size->0 as int;
    let first = if n < total {
        total - n
    } else {
        0
    };
    lemma_serves(
        out->Ok_0,
        probe,
        Some(last_range(n)),
        head_only,
        mode,
        task_id,
        first,
        total - 1,
        false,
    );
}

/// Without a range the whole file is the answer, and it is not called a part.
pub proof fn law_the_whole_file_is_served(
    out: Result<ServePlan, ProxyError>,
    probe: ProbeView,
    head_only: bool,
    mode: ContentDispositionMode,
    task_id: Seq<char>,
)
    requires
        probe.accepts_ranges,
        probe.total_size is Some,
        probe.total_size->0 > 0,
        is_answer(out, probe, None, head_only, mode, task_id),
    ensures
        ({
            let total = probe.total_size->0 as int;
            out is Ok && serves(out->Ok_0, 0, total - 1, total, false, head_only)
        }),
{
    let total = probe.total_size->0 as int;
    lemma_serves(out->Ok_0, probe, None, head_only, mode, task_id, 0, total - 1, true);
}

/// Of an origin without ranges, or of a file of unknown size, the whole is passed
/// through whatever range is asked for, and a length is announced only where it is
/// known.
pub proof fn law_without_ranges_the_whole_is_passed_through(
    out: Result<ServePlan, ProxyError>,
    probe: ProbeView,
    range: Option<Seq<char>>,
    head_only: bool,
    mode: ContentDispositionMode,
    task_id: Seq<char>,
)
    requires
        !probe.accepts_ranges || probe.total_size is None,
        is_answer(out, probe, range, head_only, mode, task_id),
    ensures
        out is Ok,
        (out->Ok_0).status == 200,
        head_only ==> (out->Ok_0).body is Empty,
        !head_only ==> (out->Ok_0).body is Passthrough,
        silent(header_views((out->Ok_0).headers@), "content-range"@),
        match probe.total_size {
            Some(n) => says(
                header_views((out->Ok_0).headers@),
                "content-length"@,
                decimal(n as nat),
            ),
            None => silent(header_views((out->Ok_0).headers@), "content-length"@),
        },
{
    lemma_header_names();
    let more = match probe.total_size {
        Some(n) => seq![HeaderView { name: "content-length"@, value: decimal(n as nat) }],
        None => Seq::empty(),
    };
    let l = header_views((out->Ok_0).headers@);
    assert(l =~= common_headers(probe, mode, task_id) + more);
    if probe.total_size is Some {
        assert(more[0].name == "content-length"@);
        assert(says(more, "content-length"@, decimal(probe.total_size->0 as nat)));
    }
    lemma_own_headers(probe, mode, task_id, more, "content-length"@);
    lemma_own_headers(probe, mode, task_id, more, "content-range"@);
}

/// Of several ranges the first counts. A range in another unit, of no last bytes, or
/// of the last bytes of a file of unknown size is refused.
pub proof fn law_only_the_first_range_counts(s: u64, e: u64, more: Seq<char>, total: Option<u64>)
    requires
        s <= e,
        more.len() > 0,
        !white(more.last()),
    ensures
        range_asked(closed_range(s, e) + seq![','] + more, total) == Ok::<
            (int, Option<int>),
            Seq<char>,
        >((s as int, Some(e as int))),
        range_asked(last_range(0), total) is Err,
        range_asked(last_range(s), None) is Err,
{
    let a = decimal(s as nat);
    let b = decimal(e as nat);
    law_a_closed_range_is_read(s, e, total);
    law_a_written_number_is_read(s as nat, u64::MAX as int);
    law_a_written_number_is_read(e as nat, u64::MAX as int);
    law_a_written_number_is_read(0, u64::MAX as int);
    let spec = a + seq!['-'] + b;
    assert forall|i: int| 0 <= i < spec.len() implies !white(#[trigger] spec[i]) && spec[i]
        != ',' by {
        if i < a.len() {
            assert(spec[i] == a[i]);
        } else if i > a.len() {
            assert(spec[i] == b[i - a.len() - 1]);
        }
    }
    lemma_only_range(spec);
    let one = closed_range(s, e);
    assert(one =~= "bytes="@ + spec);
    let v = one + seq![','] + more;
    reveal_strlit("bytes=");
    assert(v[0] == 'b');
    assert(v.last() == more.last());
    assert(trimmed(v) == v);
    assert(v.take(6) =~= "bytes="@);
    assert(v.skip(6) =~= spec + seq![','] + more);
    lemma_first_at(spec, ',', more);
    lemma_trimmed_solid(spec);
    lemma_suffix_spec(0);
    lemma_suffix_spec(s);
}

proof fn lemma_suffix_spec(n: u64)
    ensures
        ({
            let spec = seq!['-'] + decimal(n as nat);
            &&& forall|i: int| 0 <= i < spec.len() ==> !white(#[trigger] spec[i]) && spec[i] != ','
            &&& spec.skip(1) == decimal(n as nat)
            &&& trimmed("bytes="@ + spec) == "bytes="@ + spec
            &&& begins_with("bytes="@ + spec, "bytes="@)
            &&& trimmed(before_first(("bytes="@ + spec).skip(6), ',')) == spec
            &&& number(decimal(n as nat), u64::MAX as int) == Some(n as int)
            &&& trimmed(decimal(n as nat)) == decimal(n as nat)
        }),
{
    let b = decimal(n as nat);
    law_a_written_number_is_read(n as nat, u64::MAX as int);
    let spec = seq!['-'] + b;
    assert forall|i: int| 0 <= i < spec.len() implies !white(#[trigger] spec[i]) && spec[i]
        != ',' by {
        if i > 0 {
            assert(spec[i] == b[i - 1]);
        }
    }
    lemma_only_range(spec);
    assert(spec.skip(1) =~= b);
}

} // verus!
