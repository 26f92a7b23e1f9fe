//! Which chunk is fetched next, and with what.

use crate::cache::{bit_at, CacheEntry};
use crate::error::ProxyError;
use crate::fetch::{head_zone, is_run, wait_asked, windowed, BlockRun, WindowView};
use crate::headers::{header_name, range_value, request_headers, sendable, settled, with_pair};
use crate::laws::texts::law_a_written_number_is_read;
use crate::text::{decimal, finishes_with, lowered};
use vstd::prelude::*;

verus! {

/// The next chunk is the first that nobody has begun and whose volume has a
/// connection to spare. Where none has, it is the first that nobody has begun. With
/// all connections in use, or everything begun, there is none.
pub proof fn law_the_first_chunk_with_room_is_next(w: WindowView, k: int)
    requires
        0 <= k < w.spawned.len(),
        !w.spawned[k],
        w.in_flight < w.max_threads,
    ensures
        ({
            let c = w.choice();
            let room = |i: int| w.per_vol[w.vol_of[i] as int] < w.max_per_volume;
            &&& c is Some
            &&& 0 <= c->0 < w.spawned.len()
            &&& !w.spawned[c->0]
            &&& room(k) ==> room(c->0) && c->0 <= k
            &&& !room(c->0) ==> c->0 <= k && !room(k)
        }),
{
    lemma_with_room(w, 0, k);
    lemma_idle(w, 0, k);
}

proof fn lemma_with_room(w: WindowView, i: int, k: int)
    requires
        0 <= i <= k < w.spawned.len(),
        !w.spawned[k],
    ensures
        match w.first_with_room(i) {
            Some(f) => i <= f < w.spawned.len() && !w.spawned[f] && w.per_vol[w.vol_of[f] as int]
                < w.max_per_volume && (w.per_vol[w.vol_of[k] as int] < w.max_per_volume ==> f <= k),
            None => w.per_vol[w.vol_of[k] as int] >= w.max_per_volume,
        },
    decreases w.spawned.len() - i,
{
    if !w.spawned[i] && w.per_vol[w.vol_of[i] as int] < w.max_per_volume {
    } else if i < k {
        lemma_with_room(w, i + 1, k);
    } else {
        lemma_room_beyond(w, i + 1);
    }
}

proof fn lemma_room_beyond(w: WindowView, i: int)
    requires
        0 <= i,
    ensures
        match w.first_with_room(i) {
            Some(f) => i <= f < w.spawned.len() && !w.spawned[f] && w.per_vol[w.vol_of[f] as int]
                < w.max_per_volume,
            None => true,
        },
    decreases w.spawned.len() - i,
{
    if i < w.spawned.len() {
        lemma_room_beyond(w, i + 1);
    }
}

proof fn lemma_idle(w: WindowView, i: int, k: int)
    requires
        0 <= i <= k < w.spawned.len(),
        !w.spawned[k],
    ensures
        w.first_idle(i) is Some,
        i <= w.first_idle(i)->0 <= k,
        !w.spawned[w.first_idle(i)->0],
    decreases k - i,
{
    if w.spawned[i] {
        lemma_idle(w, i + 1, k);
    }
}

/// No chunk is begun while all connections are in use, or twice.
pub proof fn law_connections_are_not_exceeded(w: WindowView)
    ensures
        w.in_flight >= w.max_threads ==> w.choice() is None,
        (forall|i: int| 0 <= i < w.spawned.len() ==> #[trigger] w.spawned[i]) ==> w.choice()
            is None,
{
    if forall|i: int| 0 <= i < w.spawned.len() ==> #[trigger] w.spawned[i] {
        lemma_nothing_idle(w, 0);
    }
}

proof fn lemma_nothing_idle(w: WindowView, i: int)
    requires
        0 <= i,
        forall|i: int| 0 <= i < w.spawned.len() ==> #[trigger] w.spawned[i],
    ensures
        w.first_idle(i) is None,
        w.first_with_room(i) is None,
    decreases w.spawned.len() - i,
{
    if i < w.spawned.len() {
        assert(w.spawned[i]);
        lemma_nothing_idle(w, i + 1);
    }
}

/// Beginning a chunk marks that chunk and takes one connection of its volume; ending
/// one gives the connection back. No other chunk and no other volume changes.
pub proof fn law_a_connection_is_taken_and_given_back(w: WindowView, i: int, j: int, v: int)
    requires
        w.wf(),
        0 <= i < w.spawned.len(),
        0 <= j < w.spawned.len(),
        0 <= v < w.per_vol.len(),
        w.per_vol[w.vol_of[i] as int] < usize::MAX,
    ensures
        ({
            let own = w.vol_of[i] as int;
            let after = w.start(i);
            let back = after.released(own);
            &&& after.spawned[i]
            &&& j != i ==> after.spawned[j] == w.spawned[j]
            &&& after.per_vol[own] == w.per_vol[own] + 1
            &&& v != own ==> after.per_vol[v] == w.per_vol[v]
            &&& after.in_flight == w.in_flight + 1
            &&& back.per_vol[v] == w.per_vol[v]
            &&& back.in_flight == w.in_flight
            &&& back.spawned == after.spawned
        }),
{
}

/// A connection is warmed up only for a volume of which nothing has been begun, with
/// its first chunk, and for no more volumes than were asked for.
pub proof fn law_only_cold_volumes_are_warmed(
    w: WindowView,
    vi: int,
    volumes: int,
    budget: int,
    k: int,
)
    requires
        0 <= vi <= volumes,
        0 <= budget,
        w.vol_of.len() == w.spawned.len() <= usize::MAX,
        0 <= k < w.warmed(vi, volumes, budget).1.len(),
    ensures
        ({
            let picks = w.warmed(vi, volumes, budget).1;
            let c = picks[k] as int;
            &&& picks.len() <= budget
            &&& picks.len() <= volumes - vi
            &&& 0 <= c < w.vol_of.len()
            &&& vi <= w.vol_of[c] < volumes
            &&& forall|i: int| 0 <= i < c ==> #[trigger] w.vol_of[i] != w.vol_of[c]
            &&& forall|i: int|
                0 <= i < w.spawned.len() && #[trigger] w.spawned[i] ==> w.vol_of[i] != w.vol_of[c]
        }),
    decreases volumes - vi,
{
    lemma_warmed_count(w, vi, volumes, budget);
    if vi < volumes && budget > 0 {
        lemma_first_of_volume(w, vi, 0);
        let f = w.first_of_volume(vi, 0);
        if f is Some && !w.touched(vi) {
            let next = w.start(f->0);
            let more = next.warmed(vi + 1, volumes, budget - 1).1;
            assert(w.warmed(vi, volumes, budget).1 =~= seq![f->0 as usize] + more);
            if k > 0 {
                law_only_cold_volumes_are_warmed(next, vi + 1, volumes, budget - 1, k - 1);
                let c = more[k - 1] as int;
                assert forall|i: int| 0 <= i < w.spawned.len() && #[trigger] w.spawned[i] implies
                    w.vol_of[i] != w.vol_of[c] by {
                    assert(next.spawned[i]);
                }
            } else {
                assert forall|i: int| 0 <= i < w.spawned.len() && #[trigger] w.spawned[i] implies
                    w.vol_of[i] != w.vol_of[f->0] by {
                    if w.vol_of[i] == vi {
                        assert(w.touched(vi));
                    }
                }
            }
        } else {
            law_only_cold_volumes_are_warmed(w, vi + 1, volumes, budget, k);
        }
    }
}

proof fn lemma_warmed_count(w: WindowView, vi: int, volumes: int, budget: int)
    requires
        0 <= vi <= volumes,
        0 <= budget,
    ensures
        w.warmed(vi, volumes, budget).1.len() <= budget,
        w.warmed(vi, volumes, budget).1.len() <= volumes - vi,
    decreases volumes - vi,
{
    if vi < volumes && budget > 0 {
        let f = w.first_of_volume(vi, 0);
        if f is Some && !w.touched(vi) {
            lemma_warmed_count(w.start(f->0), vi + 1, volumes, budget - 1);
        } else {
            lemma_warmed_count(w, vi + 1, volumes, budget);
        }
    }
}

proof fn lemma_first_of_volume(w: WindowView, vi: int, i: int)
    requires
        0 <= i,
    ensures
        match w.first_of_volume(vi, i) {
            Some(f) => i <= f < w.vol_of.len() && w.vol_of[f] == vi && forall|k: int|
                i <= k < f ==> #[trigger] w.vol_of[k] != vi,
            None => forall|k: int| i <= k < w.vol_of.len() ==> #[trigger] w.vol_of[k] != vi,
        },
    decreases w.vol_of.len() - i,
{
    if i < w.vol_of.len() {
        lemma_first_of_volume(w, vi, i + 1);
    }
}

/// A client that reads to the end of the file begins with four chunks of 256 KiB,
/// unless chunks are that small anyway. One that names an end does not.
pub proof fn law_playing_begins_with_small_chunks(max_split: u64)
    ensures
        max_split > 262_144 ==> head_zone(max_split, true) == Some((262_144u64, 4usize)),
        max_split <= 262_144 ==> head_zone(max_split, true) is None,
        head_zone(max_split, false) is None,
{
}

/// A number of seconds that an origin asks to wait is that many seconds, five minutes
/// at most.
pub proof fn law_a_wait_is_counted_in_seconds(n: nat)
    requires
        n <= u64::MAX,
    ensures
        n <= 300 ==> wait_asked(Some(decimal(n))) == Some((1000 * n) as u64),
        n > 300 ==> wait_asked(Some(decimal(n))) == Some(300_000u64),
        wait_asked(None) is None,
{
    law_a_written_number_is_read(n, u64::MAX as int);
}

/// Of a piece, the part that lies between two bounds is passed on, each byte once and
/// in order.
pub proof fn law_a_window_passes_what_lies_in_it(at: int, len: int, lo: int, hi: int, x: int)
    requires
        0 <= len,
    ensures
        windowed(at, len, lo, hi).contains(x) <==> at <= x < at + len && lo <= x <= hi,
        forall|i: int|
            0 < i < windowed(at, len, lo, hi).len() ==> #[trigger] windowed(at, len, lo, hi)[i]
                == windowed(at, len, lo, hi)[i - 1] + 1,
{
    let w = windowed(at, len, lo, hi);
    let from = if at > lo {
        at
    } else {
        lo
    };
    if at <= x < at + len && lo <= x <= hi {
        assert(w[x - from] == x);
    }
    if w.contains(x) {
        let i = choose|i: int| 0 <= i < w.len() && w[i] == x;
        assert(w[i] == from + i);
    }
}

/// A header that is set has the value that it was given, and all others keep theirs.
#[verifier::rlimit(50)]
pub proof fn law_a_header_has_the_value_given(
    l: Seq<(Seq<char>, Seq<char>)>,
    name: Seq<char>,
    value: Seq<char>,
    other: (Seq<char>, Seq<char>),
)
    requires
        forall|i: int, j: int| 0 <= i < j < l.len() ==> (#[trigger] l[i]).0 != (#[trigger] l[j]).0,
    ensures
        with_pair(l, name, value).contains((name, value)),
        other.0 != name ==> (with_pair(l, name, value).contains(other) <==> l.contains(other)),
        other.0 == name && other.1 != value ==> !with_pair(l, name, value).contains(other),
        forall|i: int, j: int|
            0 <= i < j < with_pair(l, name, value).len() ==> (#[trigger] with_pair(
                l,
                name,
                value,
            )[i]).0 != (#[trigger] with_pair(l, name, value)[j]).0,
    decreases l.len(),
{
    let w = with_pair(l, name, value);
    lemma_pair_names(l, name, value);
    if l.len() == 0 {
        assert(w[0] == (name, value));
    } else {
        let rest = l.drop_first();
        assert(forall|i: int| 0 <= i < rest.len() ==> #[trigger] rest[i] == l[i + 1]);
        let m = if l[0].0 == name {
            rest
        } else {
            with_pair(rest, name, value)
        };
        if l[0].0 != name {
            law_a_header_has_the_value_given(rest, name, value, other);
            let i = choose|i: int| 0 <= i < m.len() && m[i] == (name, value);
            assert(w[i + 1] == (name, value));
        } else {
            assert(w[0] == (name, value));
        }
        assert(forall|i: int| 0 <= i < m.len() ==> w[i + 1] == #[trigger] m[i]);
        if m.contains(other) {
            let i = choose|i: int| 0 <= i < m.len() && m[i] == other;
            assert(w[i + 1] == other);
        }
        if w.contains(other) {
            let i = choose|i: int| 0 <= i < w.len() && w[i] == other;
            if i > 0 {
                assert(m[i - 1] == other);
            }
        }
        if rest.contains(other) {
            let i = choose|i: int| 0 <= i < rest.len() && rest[i] == other;
            assert(l[i + 1] == other);
        }
        if l.contains(other) {
            let i = choose|i: int| 0 <= i < l.len() && l[i] == other;
            if i > 0 {
                assert(rest[i - 1] == other);
            }
        }
        assert(w[0] == if l[0].0 == name {
            (name, value)
        } else {
            l[0]
        });
        assert forall|i: int, j: int| 0 <= i < j < w.len() implies (#[trigger] w[i]).0 != (
        #[trigger] w[j]).0 by {
            assert(w[j] == m[j - 1]);
            if i > 0 {
                assert(w[i] == m[i - 1]);
                if l[0].0 == name {
                    assert(m[i - 1] == l[i] && m[j - 1] == l[j]);
                }
            } else if l[0].0 == name {
                assert(m[j - 1] == l[j]);
            } else {
                lemma_pair_names(rest, name, value);
                assert(m[j - 1].0 == name || exists|x: int|
                    0 <= x < rest.len() && (#[trigger] rest[x]).0 == m[j - 1].0);
                if m[j - 1].0 != name {
                    let x = choose|x: int|
                        0 <= x < rest.len() && (#[trigger] rest[x]).0 == m[j - 1].0;
                    assert(l[x + 1].0 == m[j - 1].0);
                }
            }
        }
    }
}

proof fn lemma_pair_names(l: Seq<(Seq<char>, Seq<char>)>, name: Seq<char>, value: Seq<char>)
    ensures
        forall|i: int|
            0 <= i < with_pair(l, name, value).len() ==> (#[trigger] with_pair(
                l,
                name,
                value,
            )[i]).0 == name || exists|x: int|
                0 <= x < l.len() && (#[trigger] l[x]).0 == with_pair(l, name, value)[i].0,
    decreases l.len(),
{
    let w = with_pair(l, name, value);
    if l.len() > 0 {
        let rest = l.drop_first();
        assert(forall|i: int| 0 <= i < rest.len() ==> #[trigger] rest[i] == l[i + 1]);
        lemma_pair_names(rest, name, value);
        assert forall|i: int| 0 <= i < w.len() implies (#[trigger] w[i]).0 == name || exists|x: int|
            0 <= x < l.len() && (#[trigger] l[x]).0 == w[i].0 by {
            if l[0].0 == name {
                if i > 0 {
                    assert(l[i].0 == w[i].0);
                }
            } else if i == 0 {
                assert(l[0].0 == w[0].0);
            } else {
                let m = with_pair(rest, name, value);
                assert(w[i] == m[i - 1]);
                if m[i - 1].0 != name {
                    let x = choose|x: int|
                        0 <= x < rest.len() && (#[trigger] rest[x]).0 == m[i - 1].0;
                    assert(l[x + 1].0 == w[i].0);
                }
            }
        }
    }
}

/// Headers that can be sent are all sent, in lower case, and of two with one name the
/// later; one that cannot be sent refuses all.
pub proof fn law_headers_are_sent_or_refused(
    l: Seq<(Seq<char>, Seq<char>)>,
    n: int,
    k: int,
)
    requires
        0 <= k < n <= l.len(),
    ensures
        !header_name(l[k].0) || !sendable(l[k].1) ==> settled(l, n) is Err,
        settled(l, n) is Ok && (forall|j: int|
            k < j < n ==> lowered((#[trigger] l[j]).0) != lowered(l[k].0)) ==> (settled(
            l,
            n,
        )->Ok_0).contains((lowered(l[k].0), l[k].1)),
        (forall|j: int| 0 <= j < n ==> header_name((#[trigger] l[j]).0) && sendable(l[j].1))
            ==> settled(l, n) is Ok,
    decreases n,
{
    lemma_settled_names(l, n - 1);
    if settled(l, n - 1) is Ok && header_name(l[n - 1].0) && sendable(l[n - 1].1) {
        law_a_header_has_the_value_given(
            settled(l, n - 1)->Ok_0,
            lowered(l[n - 1].0),
            l[n - 1].1,
            (lowered(l[k].0), l[k].1),
        );
    }
    if k < n - 1 {
        law_headers_are_sent_or_refused(l, n - 1, k);
        assert(lowered(l[n - 1].0) != lowered(l[k].0) || lowered(l[n - 1].0) == lowered(l[k].0));
    } else if n > 1 {
        law_headers_are_sent_or_refused(l, n - 1, 0);
    }
    assert(header_name(l[n - 1].0) || !header_name(l[n - 1].0));
}

proof fn lemma_settled_names(l: Seq<(Seq<char>, Seq<char>)>, n: int)
    requires
        0 <= n <= l.len(),
    ensures
        settled(l, n) is Ok ==> forall|i: int, j: int|
            0 <= i < j < settled(l, n)->Ok_0.len() ==> (#[trigger] settled(l, n)->Ok_0[i]).0 != (
            #[trigger] settled(l, n)->Ok_0[j]).0,
    decreases n,
{
    if n > 0 {
        lemma_settled_names(l, n - 1);
        if settled(l, n) is Ok {
            law_a_header_has_the_value_given(
                settled(l, n - 1)->Ok_0,
                lowered(l[n - 1].0),
                l[n - 1].1,
                (seq![], seq![]),
            );
        }
    }
}

/// A request for a range names its first and last byte, and has no other range.
pub proof fn law_a_request_names_its_range(
    l: Seq<(Seq<char>, Seq<char>)>,
    start: u64,
    end: u64,
    other: Seq<char>,
)
    requires
        settled(l, l.len() as int) is Ok,
    ensures
        ({
            let h = request_headers(l, Some((start, end)))->Ok_0;
            &&& request_headers(l, Some((start, end))) is Ok
            &&& h.contains(
                ("range"@, "bytes="@ + decimal(start as nat) + (seq!['-'] + decimal(end as nat))),
            )
            &&& h.contains(("range"@, other)) ==> other == "bytes="@ + decimal(start as nat) + (
            seq!['-'] + decimal(end as nat))
            &&& request_headers(l, None) == settled(l, l.len() as int)
        }),
{
    let h = settled(l, l.len() as int)->Ok_0;
    lemma_settled_names(l, l.len() as int);
    law_a_header_has_the_value_given(h, "range"@, range_value(start, end), ("range"@, other));
}

/// What a client is answered for each error: 404 for a task that is not there, 416 for
/// a range that cannot be read, 500 for what went wrong here, the origin's own status
/// where it has one, and 502 or 503 for an origin that failed.
pub proof fn law_errors_are_answered(e: ProxyError)
    ensures
        e is TaskNotFound ==> e.answered_with() == 404,
        e is InvalidRange ==> e.answered_with() == 416,
        e is NoUpstream || e is Upstream || e is ContentChanged ==> e.answered_with() == 502,
        e is Io || e is Internal ==> e.answered_with() == 500,
        e matches ProxyError::BadStatus(s) ==> (100 <= s <= 999 ==> e.answered_with() == s) && (s
            < 100 || s > 999 ==> e.answered_with() == 502),
        e matches ProxyError::Throttled { status, .. } ==> (100 <= status <= 999
            ==> e.answered_with() == status) && (status < 100 || status > 999 ==> e.answered_with()
            == 503),
{
}

/// Only an origin that throttles, or answers 429 or 503, asks for less load, and only
/// one that throttles says for how long.
pub proof fn law_throttling_asks_for_less_load(e: ProxyError)
    ensures
        e is Throttled ==> e.overloads(),
        e matches ProxyError::BadStatus(s) ==> (e.overloads() <==> s == 429 || s == 503),
        !(e is Throttled) && !(e is BadStatus) ==> !e.overloads(),
        e matches ProxyError::Throttled { retry_after, .. } ==> e.wait_hint() == retry_after,
        !(e is Throttled) ==> e.wait_hint() is None,
{
}

/// Filling begins with the chunk that is next and goes on from there.
pub proof fn law_filling_begins_with_the_next_chunk(w: WindowView)
    ensures
        w.choice() is None ==> w.filled() == (w, Seq::<usize>::empty()),
        w.choice() is Some ==> w.filled().1 == seq![w.choice()->0 as usize] + w.start(
            w.choice()->0,
        ).filled().1,
        w.choice() is Some ==> w.filled().0 == w.start(w.choice()->0).filled().0,
{
    crate::fetch::lemma_choice(w);
}

/// What can stand in a header: any character but controls, of which only the tab may.
/// Letters, digits and dashes can stand in its name; white space, colons and what is
/// not ASCII cannot.
pub proof fn law_what_can_stand_in_a_header(s: Seq<char>, i: int)
    requires
        0 <= i < s.len(),
    ensures
        sendable(s) && s[i] as u32 != 9 ==> s[i] as u32 >= 32 && s[i] as u32 != 127,
        (forall|k: int|
            0 <= k < s.len() ==> 32 <= (#[trigger] s[k]) as u32 <= 126 || s[k] as u32 == 9 || s[k] as u32
                >= 128) ==> sendable(s),
        header_name(s) ==> s[i] != ' ' && s[i] != ':' && s[i] != '"' && s[i] != '/' && 33 <= s[i] as u32
            <= 126,
        s.len() <= 65535 && (forall|k: int|
            0 <= k < s.len() ==> 'a' <= #[trigger] s[k] <= 'z' || 'A' <= s[k] <= 'Z' || '0' <= s[k]
                <= '9' || s[k] == '-' || s[k] == '_') ==> header_name(s),
        !header_name(Seq::<char>::empty()),
{
}

/// A run of blocks is all there or all missing, and so is every byte of it that is
/// asked for; it goes on as far as that is so.
pub proof fn law_a_run_of_blocks_is_of_one_kind(
    run: BlockRun,
    entry: CacheEntry,
    i: int,
    start: u64,
    end: u64,
    x: int,
)
    requires
        is_run(run, entry, i, start, end),
        entry.meta.block_size >= 1,
        0 <= i,
        run.span_start <= x <= run.span_end,
    ensures
        start <= x <= end,
        bit_at(entry.bitmap@, x / entry.meta.block_size as int) == run.hit,
        run.span_end == end || bit_at(entry.bitmap@, run.last + 1) != run.hit,
        x < entry.meta.total_size,
{
    let bs = entry.meta.block_size as int;
    let last = run.last as int;
    assert(i * bs <= x < (last + 1) * bs);
    let b = x / bs;
    assert(i <= b <= last) by (nonlinear_arith)
        requires
            b == x / bs,
            bs >= 1,
            i * bs <= x < (last + 1) * bs,
    ;
    assert(bit_at(entry.bitmap@, b) == run.hit);
}

/// What is shown of an error ends in what it is about.
pub proof fn law_an_error_shows_what_it_is_about(e: ProxyError)
    ensures
        e matches ProxyError::TaskNotFound(m) ==> finishes_with(e.shown(), m@),
        e matches ProxyError::Upstream(m) ==> finishes_with(e.shown(), m@),
        e matches ProxyError::InvalidRange(m) ==> finishes_with(e.shown(), m@),
        e matches ProxyError::Io(m) ==> finishes_with(e.shown(), m@),
        e matches ProxyError::Internal(m) ==> finishes_with(e.shown(), m@),
        e matches ProxyError::ContentChanged { url } ==> finishes_with(e.shown(), url@),
        e matches ProxyError::BadStatus(s) ==> finishes_with(e.shown(), decimal(s as nat)),
{
    match e {
        ProxyError::TaskNotFound(m) => lemma_ends_in("task not found: "@, m@),
        ProxyError::Upstream(m) => lemma_ends_in("upstream HTTP error: "@, m@),
        ProxyError::InvalidRange(m) => lemma_ends_in("invalid range header: "@, m@),
        ProxyError::Io(m) => lemma_ends_in("io error: "@, m@),
        ProxyError::Internal(m) => lemma_ends_in("internal: "@, m@),
        ProxyError::ContentChanged { url } => lemma_ends_in(
            "upstream content changed mid-download: "@,
            url@,
        ),
        ProxyError::BadStatus(s) => lemma_ends_in(
            "upstream returned non-success status: "@,
            decimal(s as nat),
        ),
        _ => {},
    }
}

proof fn lemma_ends_in(a: Seq<char>, b: Seq<char>)
    ensures
        finishes_with(a + b, b),
{
    assert((a + b).skip((a + b).len() - b.len()) =~= b);
}

} // verus!
