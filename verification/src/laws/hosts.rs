//! Where a host leads, and how it is looked up.

use crate::address::{
    address_char, all_hexits, group, groups_text, hex_text, hexit, hexits_value, ip_of, ip_text,
    law_a_socket_reads_back, law_an_address_is_no_socket, law_an_address_reads_back, longest_run,
    socket_of, socket_text, zero_run, IpView, SocketView,
};
use crate::dns::{
    addresses, answer_of, be16, label_fits, labels, labels_bytes, least_ttl, mode_of, name_end,
    query_bytes, questions_end, server_in, word_at, ARecord, DnsView,
};
use crate::hostmap::{
    first_proxy, host_char, is_wild, key_writes, longest_tail, normalized, proxy_names, source_of,
    target_of, target_port, unbracketed, url_host, url_parts, url_with_address, url_with_host,
    LookupView, RuleView, TableView, TargetView,
};
use crate::laws::texts::{law_a_written_number_is_read, lemma_last_at, lemma_nowhere};
use crate::text::{
    decimal, digit, lemma_trimmed_solid, lowered, trimmed, white, without_back, without_front,
};
use vstd::prelude::*;
use vstd::utf8::{encode_utf8, encode_utf8_decode_utf8};

verus! {

/// An address that is written down is a target: that address, on the port of the
/// request.
pub proof fn law_an_address_is_a_target(a: IpView)
    requires
        a.wf(),
    ensures
        target_of(ip_text(a)) == Ok::<TargetView, Seq<char>>(TargetView::Ip(a, 0)),
{
    let s = ip_text(a);
    law_an_address_reads_back(a);
    law_an_address_is_no_socket(a);
    assert forall|i: int| 0 <= i < s.len() implies !white(#[trigger] s[i]) && s[i] != '/' by {
        assert(address_char(s[i]));
    }
    lemma_trimmed_solid(s);
}

/// An address with a port is a target: that address, on that port.
pub proof fn law_an_address_with_a_port_is_a_target(a: SocketView)
    requires
        a.ip.wf(),
        a.ip is V4 ==> a.scope == 0,
        ip_of(socket_text(a)) is None,
    ensures
        target_of(socket_text(a)) == Ok::<TargetView, Seq<char>>(TargetView::Ip(a.ip, a.port)),
{
    let s = socket_text(a);
    law_a_socket_reads_back(a);
    crate::dns::lemma_socket_solid(a);
    lemma_trimmed_solid(s);
    law_an_address_is_no_socket(a.ip);
    law_a_written_number_is_read(a.port as nat, u64::MAX as int);
    law_a_written_number_is_read(a.scope as nat, u64::MAX as int);
    let ip = ip_text(a.ip);
    let port = decimal(a.port as nat);
    let scope = decimal(a.scope as nat);
    assert forall|i: int| 0 <= i < s.len() implies #[trigger] s[i] != '/' by {
        assert(forall|k: int| 0 <= k < ip.len() ==> address_char(#[trigger] ip[k]));
        assert(forall|k: int| 0 <= k < port.len() ==> digit(#[trigger] port[k]));
        assert(forall|k: int| 0 <= k < scope.len() ==> digit(#[trigger] scope[k]));
    }
    assert(s.len() > 0);
}

/// A name of letters, digits, dashes, dots and underscores that is no address is a
/// target, in lower case, on the port of the request; with a colon and a number
/// behind it, on that port.
pub proof fn law_a_name_is_a_target(h: Seq<char>, port: u16)
    requires
        h.len() > 0,
        h.last() != '.',
        forall|i: int| 0 <= i < h.len() ==> host_char(#[trigger] h[i]),
    ensures
        ip_of(h) is None && socket_of(h) is None ==> target_of(h) == Ok::<TargetView, Seq<char>>(
            TargetView::Host(lowered(h), 0),
        ),
        ({
            let s = h + seq![':'] + decimal(port as nat);
            ip_of(s) is None && socket_of(s) is None ==> target_of(s) == Ok::<
                TargetView,
                Seq<char>,
            >(TargetView::Host(lowered(h), port))
        }),
{
    let d = decimal(port as nat);
    let s = h + seq![':'] + d;
    assert forall|i: int| 0 <= i < h.len() implies !white(#[trigger] h[i]) && h[i] != ':' && h[i]
        != '/' by {
        assert(host_char(h[i]));
    }
    law_a_written_number_is_read(port as nat, u64::MAX as int);
    crate::text::law_decimal_reads_back(port as nat);
    assert forall|i: int| 0 <= i < d.len() implies d[i] != ':' && d[i] != '/' by {
        assert(digit(d[i]));
    }
    assert forall|i: int| 0 <= i < s.len() implies !white(#[trigger] s[i]) && s[i] != '/' by {
        if i < h.len() {
            assert(s[i] == h[i]);
        } else if i > h.len() {
            assert(s[i] == d[i - h.len() - 1]);
        }
    }
    lemma_trimmed_solid(h);
    lemma_trimmed_solid(s);
    lemma_nowhere(h, ':');
    lemma_last_at(h, ':', d);
    assert(s.take(h.len() as int) =~= h);
    assert(s.skip(h.len() as int + 1) =~= d);
    assert(!h.contains(':'));
}

/// A name can be a rule's source, alone or behind `*.`, and is kept in lower case.
pub proof fn law_a_name_is_a_source(h: Seq<char>)
    requires
        h.len() > 0,
        h.last() != '.',
        forall|i: int| 0 <= i < h.len() ==> host_char(#[trigger] h[i]),
    ensures
        source_of(h) == Ok::<Seq<char>, Seq<char>>(lowered(h)),
        source_of(seq!['*', '.'] + h) == Ok::<Seq<char>, Seq<char>>(
            seq!['*', '.'] + lowered(h),
        ),
{
    let w = seq!['*', '.'] + h;
    assert forall|i: int| 0 <= i < h.len() implies !white(#[trigger] h[i]) && crate::text::lower(
        h[i],
    ) != ':' && crate::text::lower(h[i]) != '/' && crate::text::lower(h[i]) != '*' by {
        assert(host_char(h[i]));
    }
    assert forall|i: int| 0 <= i < w.len() implies !white(#[trigger] w[i]) by {
        if i >= 2 {
            assert(w[i] == h[i - 2]);
        }
    }
    lemma_trimmed_solid(h);
    lemma_trimmed_solid(w);
    assert(w.last() == h.last());
    let a = lowered(h);
    let b = lowered(w);
    assert(b =~= seq!['*', '.'] + a);
    assert(forall|i: int| 0 <= i < a.len() ==> #[trigger] a[i] == crate::text::lower(h[i]));
    assert(!a.contains(':') && !a.contains('/') && !a.contains('*'));
    assert(!b.contains(':') && !b.contains('/')) by {
        assert(forall|i: int| 2 <= i < b.len() ==> #[trigger] b[i] == a[i - 2]);
    }
}

/// A rule for one name leads that name where it says, in any case and with or without
/// a dot at the end, and no other.
pub proof fn law_a_rule_for_a_name_is_for_that_name(
    t: TableView,
    from: Seq<char>,
    to: TargetView,
    host: Seq<char>,
)
    requires
        !is_wild(from),
    ensures
        normalized(host) == from ==> t.with(from, to).found(host) == Some(to),
        normalized(host) != from ==> t.with(from, to).found(host) == t.found(host),
{
}

/// A rule for the names below a domain leads them where it says, unless one has a rule
/// of its own or one for a longer domain. It is not for the domain itself, nor for
/// any name that does not end in a dot and the domain.
pub proof fn law_a_wildcard_is_for_the_names_below(
    t: TableView,
    domain: Seq<char>,
    to: TargetView,
    host: Seq<char>,
)
    requires
        domain.len() > 0,
    ensures
        ({
            let after = t.with(seq!['*', '.'] + domain, to);
            let h = normalized(host);
            let n = h.len() - domain.len() - 1;
            let below = n >= 1 && h.skip(n) == seq!['.'] + domain;
            &&& !below ==> after.found(host) == t.found(host)
            &&& below && !t.exact.contains_key(h) && (forall|j: int|
                1 <= j < n ==> !t.wild.contains_key(#[trigger] h.skip(j))) ==> after.found(host)
                == Some(to)
            &&& below && t.exact.contains_key(h) ==> after.found(host) == Some(t.exact[h])
        }),
{
    let from = seq!['*', '.'] + domain;
    let key = from.skip(1);
    assert(key =~= seq!['.'] + domain);
    let after = t.with(from, to);
    let h = normalized(host);
    let n = h.len() - domain.len() - 1;
    let below = n >= 1 && h.skip(n) == seq!['.'] + domain;
    if !t.exact.contains_key(h) {
        if below {
            if forall|j: int| 1 <= j < n ==> !t.wild.contains_key(#[trigger] h.skip(j)) {
                assert forall|j: int| 1 <= j < n implies !after.wild.contains_key(
                    #[trigger] h.skip(j),
                ) by {
                    assert(h.skip(j).len() > key.len());
                }
                lemma_tail_at(after.wild, h, 1, n);
            }
        } else {
            lemma_same_tail(t.wild, key, to, h, 1);
        }
    }
}

proof fn lemma_tail_at(wild: Map<Seq<char>, TargetView>, h: Seq<char>, i: int, k: int)
    requires
        1 <= i <= k < h.len(),
        wild.contains_key(h.skip(k)),
        forall|j: int| i <= j < k ==> !wild.contains_key(#[trigger] h.skip(j)),
    ensures
        longest_tail(wild, h, i) == Some(wild[h.skip(k)]),
    decreases k - i,
{
    if i < k {
        assert(!wild.contains_key(h.skip(i)));
        lemma_tail_at(wild, h, i + 1, k);
    }
}

proof fn lemma_same_tail(
    wild: Map<Seq<char>, TargetView>,
    key: Seq<char>,
    to: TargetView,
    h: Seq<char>,
    i: int,
)
    requires
        1 <= i,
        key.len() > 0,
        !(h.len() - key.len() >= 1 && h.skip(h.len() - key.len()) == key),
    ensures
        longest_tail(wild.insert(key, to), h, i) == longest_tail(wild, h, i),
    decreases h.len() - i,
{
    if i < h.len() {
        assert(h.skip(i) != key) by {
            if h.skip(i) == key {
                assert(i == h.len() - key.len());
            }
        }
        lemma_same_tail(wild, key, to, h, i + 1);
    }
}

/// A host with a rule is looked up where the rule leads: an address is known, a name
/// is looked up in its place. One without a rule is looked up itself, and an address
/// that is only tried out needs no lookup.
pub proof fn law_a_host_is_looked_up_where_it_leads(t: TableView, host: Seq<char>)
    ensures
        t.found(host) is None ==> t.resolution(host) == LookupView::System(host),
        t.found(host) matches Some(TargetView::Ip(ip, p)) ==> t.resolution(host)
            == LookupView::Known(ip, p),
        t.found(host) matches Some(TargetView::Host(h, p)) ==> t.resolution(host)
            == LookupView::Target(h, p),
        t.found(host) matches Some(TargetView::Ip(ip, p)) ==> t.trial(host) == LookupView::Known(
            ip,
            0,
        ),
        t.found(host) matches Some(TargetView::Host(h, p)) ==> t.trial(host) == LookupView::Target(
            h,
            0,
        ),
        t.found(host) is None && ip_of(host) is None ==> t.trial(host) == LookupView::System(host),
        t.found(host) is None && ip_of(host) is Some ==> t.trial(host) == LookupView::Known(
            ip_of(host)->0,
            0,
        ),
{
}

/// A proxy is reported under the first of its names that is set.
pub proof fn law_the_first_proxy_is_reported(set: Seq<bool>, k: int)
    requires
        set.len() == 6,
        0 <= k < 6,
        set[k],
        forall|i: int| 0 <= i < k ==> !#[trigger] set[i],
    ensures
        first_proxy(set, 0) == Some(proxy_names()[k]),
        proxy_names()[k].len() > 0,
{
    lemma_first_proxy(set, 0, k);
    reveal_strlit("ALL_PROXY");
    reveal_strlit("all_proxy");
    reveal_strlit("HTTP_PROXY");
    reveal_strlit("http_proxy");
    reveal_strlit("HTTPS_PROXY");
    reveal_strlit("https_proxy");
}

proof fn lemma_first_proxy(set: Seq<bool>, i: int, k: int)
    requires
        set.len() == 6,
        0 <= i <= k < 6,
        set[k],
        forall|j: int| 0 <= j < k ==> !#[trigger] set[j],
    ensures
        first_proxy(set, i) == Some(proxy_names()[k]),
    decreases k - i,
{
    if i < k {
        assert(!set[i]);
        lemma_first_proxy(set, i + 1, k);
    }
}

/// No proxy is reported where none is set.
pub proof fn law_no_proxy_is_reported_where_none_is_set(set: Seq<bool>, i: int)
    requires
        0 <= i,
        forall|j: int| 0 <= j < set.len() ==> !#[trigger] set[j],
    ensures
        first_proxy(set, i) is None,
    decreases 6 - i,
{
    if i < 6 && i < set.len() {
        assert(!set[i]);
        law_no_proxy_is_reported_where_none_is_set(set, i + 1);
    }
}

/// What is hashed of a rule tells rules apart: as many rules that are hashed alike
/// have the same sources, targets and switches.
pub proof fn law_what_is_hashed_tells_rules_apart(
    a: Seq<RuleView>,
    b: Seq<RuleView>,
    n: int,
    i: int,
)
    requires
        0 <= i < n,
        n <= a.len(),
        n <= b.len(),
        key_writes(a, n) == key_writes(b, n),
    ensures
        a[i] == b[i],
    decreases n,
{
    lemma_key_len(a, n);
    lemma_key_len(a, n - 1);
    lemma_key_len(b, n - 1);
    let x = key_writes(a, n);
    let y = key_writes(b, n);
    let m = 5 * (n - 1);
    assert(x.take(m) =~= key_writes(a, n - 1));
    assert(y.take(m) =~= key_writes(b, n - 1));
    if i == n - 1 {
        assert(x[m] == encode_utf8(a[i].from) && y[m] == encode_utf8(b[i].from));
        assert(x[m + 2] == encode_utf8(a[i].to) && y[m + 2] == encode_utf8(b[i].to));
        assert(x[m + 4][0] == y[m + 4][0]);
        encode_utf8_decode_utf8(a[i].from);
        encode_utf8_decode_utf8(b[i].from);
        encode_utf8_decode_utf8(a[i].to);
        encode_utf8_decode_utf8(b[i].to);
    } else {
        law_what_is_hashed_tells_rules_apart(a, b, n - 1, i);
    }
}

proof fn lemma_key_len(a: Seq<RuleView>, n: int)
    requires
        0 <= n,
    ensures
        key_writes(a, n).len() == 5 * n,
    decreases n,
{
    if n > 0 {
        lemma_key_len(a, n - 1);
    }
}

/// A question goes out under its number, asks for one recursive lookup and ends in
/// the type and class of an address. A name with a dot is asked label by label, each
/// behind its length; a dot at the end changes nothing.
pub proof fn law_a_question_spells_its_name(id: u16, label: Seq<char>, rest: Seq<char>)
    requires
        !label.contains('.'),
        rest.len() > 0,
        rest.last() != '.',
    ensures
        ({
            let q = query_bytes(id, label + (seq!['.'] + rest));
            let r = query_bytes(id, rest);
            &&& q.take(12) == r.take(12)
            &&& word_at(q, 0) == id
            &&& q.subrange(2, 12) == seq![1u8, 0, 0, 1, 0, 0, 0, 0, 0, 0]
            &&& q.skip(12) == seq![encode_utf8(label).len() as u8] + encode_utf8(label) + r.skip(12)
        }),
        label.len() > 0 ==> query_bytes(id, label).skip(12) == seq![
            encode_utf8(label).len() as u8,
        ] + encode_utf8(label) + seq![0u8, 0, 1, 0, 1],
        query_bytes(id, rest.push('.')) == query_bytes(id, rest),
{
    let host = label + (seq!['.'] + rest);
    assert(host.last() == rest.last());
    crate::address::lemma_split_first(label, '.', rest);
    assert(labels(host) == seq![label] + labels(rest));
    let l = labels(rest);
    lemma_front_label(label, l, l.len() as int);
    assert(labels(host).len() == l.len() + 1);
    let q = query_bytes(id, host);
    let r = query_bytes(id, rest);
    let head = be16(id as int) + seq![1u8, 0, 0, 1, 0, 0, 0, 0, 0, 0];
    assert(q.take(12) =~= head);
    assert(r.take(12) =~= head);
    assert(q.subrange(2, 12) =~= seq![1u8, 0, 0, 1, 0, 0, 0, 0, 0, 0]);
    assert(q[0] == (id as int / 256 % 256) as u8);
    assert(q[1] == (id as int % 256) as u8);
    assert(q.skip(12) =~= labels_bytes(labels(host), labels(host).len() as int) + seq![
        0u8,
        0,
        1,
        0,
        1,
    ]);
    assert(r.skip(12) =~= labels_bytes(l, l.len() as int) + seq![0u8, 0, 1, 0, 1]);
    assert(q.skip(12) =~= seq![encode_utf8(label).len() as u8] + encode_utf8(label) + r.skip(12));
    if label.len() > 0 {
        assert(label.last() != '.') by {
            assert(label.contains(label.last()));
        }
        crate::address::lemma_split_none(label, '.');
        let one = labels(label);
        assert(one == seq![label]);
        assert(labels_bytes(one, 0) =~= seq![]);
        assert(labels_bytes(one, 1) =~= seq![encode_utf8(label).len() as u8] + encode_utf8(label));
        assert(query_bytes(id, label).skip(12) =~= labels_bytes(one, 1) + seq![0u8, 0, 1, 0, 1]);
    }
    assert(rest.push('.').drop_last() =~= rest);
}

proof fn lemma_front_label(label: Seq<char>, l: Seq<Seq<char>>, n: int)
    requires
        0 <= n <= l.len(),
    ensures
        labels_bytes(seq![label] + l, n + 1) == seq![encode_utf8(label).len() as u8] + encode_utf8(
            label,
        ) + labels_bytes(l, n),
    decreases n,
{
    let m = seq![label] + l;
    if n == 0 {
        assert(labels_bytes(m, 0) =~= seq![]);
        assert(labels_bytes(m, 1) =~= seq![encode_utf8(label).len() as u8] + encode_utf8(label));
        assert(labels_bytes(m, 1) =~= seq![encode_utf8(label).len() as u8] + encode_utf8(label)
            + labels_bytes(l, 0));
    } else {
        lemma_front_label(label, l, n - 1);
        assert(m[n] == l[n - 1]);
        assert(labels_bytes(m, n + 1) =~= seq![encode_utf8(label).len() as u8] + encode_utf8(label)
            + labels_bytes(l, n));
    }
}

/// Thirty-two bits, the high byte first.
pub open spec fn be32(n: int) -> Seq<u8> {
    be16(n / 65536) + be16(n % 65536)
}

/// An address record whose name points back to the question.
pub open spec fn record(r: ARecord) -> Seq<u8> {
    seq![192u8, 12, 0, 1, 0, 1] + be32(r.ttl) + seq![0u8, 4] + r.ip
}

pub open spec fn records(l: Seq<ARecord>) -> Seq<u8>
    decreases l.len(),
{
    if l.len() == 0 {
        seq![]
    } else {
        record(l[0]) + records(l.drop_first())
    }
}

/// The answer to a question: its number, no error, one question, which is repeated,
/// and one record for each address.
pub open spec fn answer(id: u16, host: Seq<char>, l: Seq<ARecord>) -> Seq<u8> {
    be16(id as int) + seq![129u8, 128, 0, 1] + be16(l.len() as int) + seq![0u8, 0, 0, 0]
        + query_bytes(id, host).skip(12) + records(l)
}

/// The addresses of an answer are read as they were written, with how long each may be
/// kept, all of them and in their order.
pub proof fn law_an_answer_is_read(id: u16, host: Seq<char>, l: Seq<ARecord>)
    requires
        forall|i: int| 0 <= i < labels(host).len() ==> label_fits(#[trigger] labels(host)[i]),
        l.len() < 65536,
        forall|i: int|
            0 <= i < l.len() ==> (#[trigger] l[i]).ip.len() == 4 && 0 <= l[i].ttl < 0x1_0000_0000,
    ensures
        answer_of(answer(id, host, l), id) == Ok::<Seq<ARecord>, Seq<char>>(l),
{
    let data = answer(id, host, l);
    let names = labels_bytes(labels(host), labels(host).len() as int);
    let head = be16(id as int) + seq![129u8, 128, 0, 1] + be16(l.len() as int) + seq![0u8, 0, 0, 0];
    let q = query_bytes(id, host);
    assert(q.skip(12) =~= names + seq![0u8, 0, 1, 0, 1]);
    assert(head.len() == 12);
    assert(data =~= head + names + (seq![0u8, 0, 1, 0, 1] + records(l)));
    assert(word_at(data, 0) == id);
    assert(data[3] == 128);
    assert(word_at(data, 4) == 1);
    assert(word_at(data, 6) == l.len());
    let tail = seq![0u8, 0, 1, 0, 1] + records(l);
    lemma_name(head, labels(host), labels(host).len() as int, tail);
    let at = 12 + names.len();
    assert(data[at as int] == tail[0]);
    assert(name_end(data, 12) == Some(at as int + 1));
    assert(questions_end(data, at as int + 5, 0) == Some(at as int + 5));
    assert(questions_end(data, 12, 1) == Some(at as int + 5));
    let pre = head + names + seq![0u8, 0, 1, 0, 1];
    assert(data =~= pre + records(l));
    lemma_records(pre, l);
}

proof fn lemma_name(head: Seq<u8>, l: Seq<Seq<char>>, n: int, tail: Seq<u8>)
    requires
        0 <= n <= l.len(),
        forall|i: int| 0 <= i < l.len() ==> label_fits(#[trigger] l[i]),
    ensures
        ({
            let data = head + labels_bytes(l, n) + tail;
            name_end(data, head.len() as int) == name_end(
                data,
                head.len() as int + labels_bytes(l, n).len() as int,
            )
        }),
    decreases n,
{
    if n > 0 {
        let b = encode_utf8(l[n - 1]);
        assert(label_fits(l[n - 1]));
        let front = labels_bytes(l, n - 1);
        let more = seq![b.len() as u8] + b + tail;
        let data = head + labels_bytes(l, n) + tail;
        assert(data =~= head + front + more);
        lemma_name(head, l, n - 1, more);
        let at = head.len() as int + front.len() as int;
        assert(data[at] == more[0]);
        assert(name_end(data, at) == name_end(data, at + 1 + b.len()));
    } else {
        assert(labels_bytes(l, 0).len() == 0);
    }
}

proof fn lemma_records(pre: Seq<u8>, l: Seq<ARecord>)
    requires
        forall|i: int|
            0 <= i < l.len() ==> (#[trigger] l[i]).ip.len() == 4 && 0 <= l[i].ttl < 0x1_0000_0000,
    ensures
        addresses(pre + records(l), pre.len() as int, l.len() as int) == Some(l),
    decreases l.len(),
{
    let data = pre + records(l);
    if l.len() == 0 {
        assert(l =~= seq![]);
    } else {
        let r = l[0];
        let rest = l.drop_first();
        assert forall|i: int| 0 <= i < rest.len() implies (#[trigger] rest[i]).ip.len() == 4 && 0
            <= rest[i].ttl < 0x1_0000_0000 by {
            assert(rest[i] == l[i + 1]);
        }
        let next = pre + record(r);
        assert(next + records(rest) =~= data);
        lemma_records(next, rest);
        let at = pre.len() as int;
        let x = record(r);
        assert(x.len() == 16);
        assert(forall|k: int| 0 <= k < 16 ==> data[at + k] == #[trigger] x[k]);
        let b = be32(r.ttl);
        assert(x[0] == 192);
        assert(data[at] == x[0]);
        assert(name_end(data, at) == Some(at + 2));
        let e = at + 2;
        assert(data[e] == x[2] && data[e + 1] == x[3]);
        assert(word_at(data, e) == 1);
        assert(data[e + 4] == x[6] && data[e + 5] == x[7] && data[e + 6] == x[8] && data[e + 7]
            == x[9]);
        assert(x[6] == b[0] && x[7] == b[1] && x[8] == b[2] && x[9] == b[3]);
        let hi = r.ttl / 65536;
        let lo = r.ttl % 65536;
        assert(0 <= hi < 65536);
        assert(word_at(data, e + 4) == hi);
        assert(word_at(data, e + 6) == lo);
        assert(data[e + 8] == x[10] && data[e + 9] == x[11]);
        assert(word_at(data, e + 8) == 4);
        assert(data.subrange(e + 10, e + 14) =~= r.ip) by {
            assert(forall|k: int| 0 <= k < 4 ==> data[e + 10 + k] == #[trigger] r.ip[k]) by {
                assert(forall|k: int| 0 <= k < 4 ==> x[12 + k] == #[trigger] r.ip[k]);
            }
        }
        assert(seq![r] + rest =~= l);
        assert(addresses(data, e + 14, rest.len() as int) == Some(rest));
        let made = ARecord {
            ip: data.subrange(e + 10, e + 14),
            ttl: word_at(data, e + 4) * 65536 + word_at(data, e + 6),
        };
        assert(made.ttl == r.ttl);
        assert(made == r);
    }
}

/// An answer to another question, or one that reports an error, gives no address.
pub proof fn law_only_the_answer_that_was_asked_for_counts(data: Seq<u8>, id: u16)
    requires
        answer_of(data, id) is Ok,
    ensures
        data.len() >= 12,
        data[0] * 256 + data[1] == id,
        data[3] % 16 == 0,
{
}

/// Answers are kept as long as the shortest of their records allows, and ten minutes at
/// most.
pub proof fn law_the_shortest_record_decides(l: Seq<ARecord>, i: int)
    requires
        0 <= i < l.len(),
    ensures
        least_ttl(l) <= l[i].ttl,
        least_ttl(l) <= 600,
        least_ttl(l) == 600 || exists|k: int|
            0 <= k < l.len() && (#[trigger] l[k]).ttl == least_ttl(l),
    decreases l.len(),
{
    let rest = l.drop_first();
    assert(forall|k: int| 0 <= k < rest.len() ==> #[trigger] rest[k] == l[k + 1]);
    if rest.len() > 0 {
        law_the_shortest_record_decides(rest, if i > 0 {
            i - 1
        } else {
            0
        });
        if i > 0 {
            assert(rest[i - 1] == l[i]);
        }
        if least_ttl(rest) != 600 {
            let k = choose|k: int| 0 <= k < rest.len() && (#[trigger] rest[k]).ttl == least_ttl(rest);
            assert(l[k + 1].ttl == least_ttl(rest));
        }
    } else {
        assert(least_ttl(rest) == 600);
    }
    assert(l[0].ttl == l[0].ttl);
}

/// A name server is meant by its address, with or without `tls://` or `dot://` in
/// front, and on port 853 where no port is named. Nothing, or `system` in either case,
/// means the machine's own.
pub proof fn law_a_name_server_is_meant_by_its_address(a: SocketView)
    requires
        a.ip.wf(),
        a.ip is V4 ==> a.scope == 0,
    ensures
        mode_of(Some(socket_text(a))) == Ok::<DnsView, Seq<char>>(DnsView::Dot(a)),
        mode_of(Some("tls://"@ + socket_text(a))) == Ok::<DnsView, Seq<char>>(DnsView::Dot(a)),
        mode_of(Some("dot://"@ + socket_text(a))) == Ok::<DnsView, Seq<char>>(DnsView::Dot(a)),
        mode_of(Some("dot://"@ + ip_text(a.ip))) == Ok::<DnsView, Seq<char>>(
            DnsView::Dot(SocketView { ip: a.ip, port: 853, scope: 0 }),
        ),
        mode_of(Some(ip_text(a.ip))) == Ok::<DnsView, Seq<char>>(
            DnsView::Dot(SocketView { ip: a.ip, port: 853, scope: 0 }),
        ),
        mode_of(None) == Ok::<DnsView, Seq<char>>(DnsView::System),
{
    let s = socket_text(a);
    let ip = ip_text(a.ip);
    law_a_socket_reads_back(a);
    crate::dns::lemma_socket_solid(a);
    law_an_address_is_no_socket(a.ip);
    law_an_address_reads_back(a.ip);
    assert forall|i: int| 0 <= i < ip.len() implies !white(#[trigger] ip[i]) by {
        assert(address_char(ip[i]));
    }
    assert(address_char(ip[0]));
    assert(address_char(ip[ip.len() - 1]));
    assert(without_front(ip, '[') == ip);
    assert(without_back(ip, ']') == ip);
    if ip.len() > 1 {
        assert(address_char(ip[1]));
    }
    lemma_server_text(ip);
    lemma_socket_front(a);
    lemma_server_text(s);
}

proof fn lemma_socket_front(a: SocketView)
    requires
        a.ip.wf(),
    ensures
        socket_text(a).len() > 1,
        socket_text(a)[0] == '[' || address_char(socket_text(a)[0]),
        socket_text(a)[1] != 'o',
{
    let s = socket_text(a);
    let ip = ip_text(a.ip);
    law_an_address_is_no_socket(a.ip);
    assert(address_char(ip[0]));
    if a.ip is V6 {
        assert(s[1] == ip[0]);
    } else {
        assert(s[0] == ip[0]);
        if ip.len() > 1 {
            assert(s[1] == ip[1]);
            assert(address_char(ip[1]));
        } else {
            assert(s[1] == ':');
        }
    }
}

/// A text that names a server is read alike with either prefix and without one.
proof fn lemma_server_text(body: Seq<char>)
    requires
        body.len() > 0,
        forall|i: int| 0 <= i < body.len() ==> !white(#[trigger] body[i]),
        body[0] == '[' || address_char(body[0]),
        body.len() > 1 ==> body[1] != 'o',
        server_in(body) is Some,
    ensures
        mode_of(Some(body)) == Ok::<DnsView, Seq<char>>(DnsView::Dot(server_in(body)->0)),
        mode_of(Some("tls://"@ + body)) == Ok::<DnsView, Seq<char>>(
            DnsView::Dot(server_in(body)->0),
        ),
        mode_of(Some("dot://"@ + body)) == Ok::<DnsView, Seq<char>>(
            DnsView::Dot(server_in(body)->0),
        ),
{
    lemma_bare_server(body);
    lemma_tagged_server("tls://"@, body);
    lemma_tagged_server("dot://"@, body);
}

proof fn lemma_tags()
    ensures
        "tls://"@.len() == 6,
        "dot://"@.len() == 6,
        "tls://"@[0] == 't',
        "dot://"@[0] == 'd',
        "dot://"@[1] == 'o',
        "system"@.len() == 6,
        "system"@[0] == 's',
        forall|i: int| 0 <= i < 6 ==> !white(#[trigger] "tls://"@[i]),
        forall|i: int| 0 <= i < 6 ==> !white(#[trigger] "dot://"@[i]),
{
    reveal_strlit("tls://");
    reveal_strlit("dot://");
    reveal_strlit("system");
}

proof fn lemma_bare_server(body: Seq<char>)
    requires
        body.len() > 0,
        forall|i: int| 0 <= i < body.len() ==> !white(#[trigger] body[i]),
        body[0] == '[' || address_char(body[0]),
        body.len() > 1 ==> body[1] != 'o',
        server_in(body) is Some,
    ensures
        mode_of(Some(body)) == Ok::<DnsView, Seq<char>>(DnsView::Dot(server_in(body)->0)),
{
    lemma_tags();
    lemma_trimmed_solid(body);
    assert(lowered(body)[0] == crate::text::lower(body[0]));
    if crate::text::begins_with(body, "tls://"@) {
        assert(body.take(6)[0] == body[0]);
    }
    if crate::text::begins_with(body, "dot://"@) {
        assert(body.take(6)[1] == body[1]);
    }
}

proof fn lemma_tagged_server(tag: Seq<char>, body: Seq<char>)
    requires
        tag == "tls://"@ || tag == "dot://"@,
        forall|i: int| 0 <= i < body.len() ==> !white(#[trigger] body[i]),
        server_in(body) is Some,
    ensures
        mode_of(Some(tag + body)) == Ok::<DnsView, Seq<char>>(DnsView::Dot(server_in(body)->0)),
{
    lemma_tags();
    let t = tag + body;
    assert forall|i: int| 0 <= i < t.len() implies !white(#[trigger] t[i]) by {
        if i >= 6 {
            assert(t[i] == body[i - 6]);
        } else {
            assert(t[i] == tag[i]);
        }
    }
    lemma_trimmed_solid(t);
    assert(t[0] == tag[0]);
    assert(lowered(t)[0] == crate::text::lower(t[0]));
    assert(t.take(6) =~= tag);
    assert(t.skip(6) =~= body);
    if tag == "dot://"@ && crate::text::begins_with(t, "tls://"@) {
        assert(t.take(6)[0] == t[0]);
    }
}

/// A request for an address that a rule leads elsewhere goes to the rule's target, on
/// its port where it has one.
pub proof fn law_a_routed_address_goes_to_its_target(t: TableView, url: Seq<char>, to: TargetView)
    requires
        url_parts(url) is Some,
        (url_parts(url)->0).host is Some,
        t.found(unbracketed((url_parts(url)->0).host->0)) == Some(to),
        ip_of(unbracketed((url_parts(url)->0).host->0)) is Some,
    ensures
        target_port(to) == 0 ==> (t.routed(url) is Some <==> url_with_host(url, url_host(to))
            is Some),
        target_port(to) > 0 ==> (t.routed(url) is Some <==> url_with_address(
            url,
            url_host(to),
            target_port(to),
        ) is Some),
        t.routed(url) is Some && target_port(to) == 0 ==> Some((t.routed(url)->0).url)
            == url_with_host(url, url_host(to)),
        t.routed(url) is Some && target_port(to) > 0 ==> Some((t.routed(url)->0).url)
            == url_with_address(url, url_host(to), target_port(to)),
{
}

/// A port above 65535 is refused, and so are a URL, two names and nothing.
pub proof fn law_what_is_no_target_is_refused(h: Seq<char>, port: nat, raw: Seq<char>)
    requires
        h.len() > 0,
        forall|i: int| 0 <= i < h.len() ==> host_char(#[trigger] h[i]),
        port > 65535,
    ensures
        ({
            let s = h + seq![':'] + decimal(port);
            ip_of(s) is None && socket_of(s) is None ==> target_of(s) is Err
        }),
        trimmed(raw).len() == 0 ==> target_of(raw) is Err && source_of(raw) is Err,
        trimmed(raw).contains('/') ==> target_of(raw) is Err,
        normalized(raw).contains('/') ==> source_of(raw) is Err,
{
    let d = decimal(port);
    let s = h + seq![':'] + d;
    law_a_written_number_is_read(port, port as int);
    crate::text::law_decimal_reads_back(port);
    assert forall|i: int| 0 <= i < d.len() implies d[i] != ':' by {
        assert(digit(d[i]));
    }
    assert forall|i: int| 0 <= i < s.len() implies !white(#[trigger] s[i]) by {
        if i < h.len() {
            assert(s[i] == h[i]);
            assert(host_char(h[i]));
        } else if i > h.len() {
            assert(s[i] == d[i - h.len() - 1]);
        }
    }
    lemma_trimmed_solid(s);
    lemma_last_at(h, ':', d);
    assert(s.skip(h.len() as int + 1) =~= d);
    if trimmed(raw).len() == 0 {
        assert(without_back(trimmed(raw), '.') =~= trimmed(raw));
        assert(lowered(trimmed(raw)).len() == 0);
    }
}

/// A host is the same with a dot at its end and in any case.
pub proof fn law_a_dot_at_the_end_does_not_count(h: Seq<char>)
    requires
        h.len() > 0,
        forall|i: int| 0 <= i < h.len() ==> !white(#[trigger] h[i]),
    ensures
        normalized(h.push('.')) == normalized(h),
        normalized(seq![' '] + h) == normalized(h),
        normalized(lowered(h)) == normalized(h),
        h.last() != '.' ==> normalized(h) == lowered(h),
{
    let t = h.push('.');
    assert forall|i: int| 0 <= i < t.len() implies !white(#[trigger] t[i]) by {
        if i < h.len() {
            assert(t[i] == h[i]);
        }
    }
    lemma_trimmed_solid(h);
    lemma_trimmed_solid(t);
    assert(t.drop_last() =~= h);
    let s = seq![' '] + h;
    assert(s.drop_first() =~= h);
    assert(white(s[0]));
    assert(!white(h[0]));
    assert(!white(h[h.len() - 1]));
    assert(trimmed(s) == h);
    let l = lowered(h);
    assert forall|i: int| 0 <= i < l.len() implies !white(#[trigger] l[i]) by {
        assert(!white(h[i]));
    }
    lemma_trimmed_solid(l);
    lemma_lowered_back(h);
}

proof fn lemma_lowered_back(h: Seq<char>)
    ensures
        lowered(without_back(lowered(h), '.')) == lowered(without_back(h, '.')),
    decreases h.len(),
{
    let l = lowered(h);
    assert(lowered(l) =~= l);
    if h.len() > 0 {
        assert(l.last() == crate::text::lower(h.last()));
        assert(l.drop_last() =~= lowered(h.drop_last()));
        if h.last() == '.' {
            lemma_lowered_back(h.drop_last());
        }
    }
}

/// Groups `b` to `b + n - 1` are all zero.
pub open spec fn zeros_at(g: Seq<u16>, b: int, n: int) -> bool {
    0 <= b && b + n <= g.len() && forall|k: int| b <= k < b + n ==> g[k] == 0
}

proof fn lemma_zeros(g: Seq<u16>, i: int, n: int)
    requires
        0 <= i <= g.len(),
        0 <= n,
    ensures
        zeros_at(g, i, zero_run(g, i)),
        zero_run(g, i) >= 0,
        zeros_at(g, i, n) <==> i + n <= g.len() && n <= zero_run(g, i),
    decreases g.len() - i,
{
    if i < g.len() && g[i] == 0 {
        lemma_zeros(g, i + 1, if n > 0 {
            n - 1
        } else {
            0
        });
        let r = zero_run(g, i + 1);
        assert(zeros_at(g, i, 1 + r)) by {
            assert forall|k: int| i <= k < i + 1 + r implies g[k] == 0 by {
                if k > i {
                    assert(zeros_at(g, i + 1, r));
                }
            }
        }
        if zeros_at(g, i, n) && n > 0 {
            assert(zeros_at(g, i + 1, n - 1));
        }
    } else if i < g.len() && n > 0 && zeros_at(g, i, n) {
        assert(g[i] == 0);
    }
}

proof fn lemma_longest(g: Seq<u16>, n: int, k: int)
    requires
        1 <= n,
        0 <= k < n,
    ensures
        0 <= longest_run(g, n) < n,
        zero_run(g, k) <= zero_run(g, longest_run(g, n)),
        k < longest_run(g, n) ==> zero_run(g, k) < zero_run(g, longest_run(g, n)),
    decreases n,
{
    if n > 1 {
        lemma_longest(g, n - 1, if k < n - 1 {
            k
        } else {
            0
        });
        lemma_longest(g, n - 1, longest_run(g, n - 1));
    }
}

/// A long address is written with two colons in place of its longest run of two or
/// more zeros, the first of equals, and in full where it has none; one that stands for
/// a short address shows that address.
pub proof fn law_a_long_address_is_written_short(g: Seq<u16>, b: int, n: int)
    requires
        g.len() == 8,
    ensures
        ({
            let plain = !(g[0] == 0 && g[1] == 0 && g[2] == 0 && g[3] == 0 && g[4] == 0 && g[5]
                == 0xffff);
            &&& !plain ==> ip_text(IpView::V6(g)) == seq![':', ':'] + (hex_text(0xffff) + (seq![':']
                + ip_text(
                IpView::V4(
                    seq![
                        (g[6] / 256) as u8,
                        (g[6] % 256) as u8,
                        (g[7] / 256) as u8,
                        (g[7] % 256) as u8,
                    ],
                ),
            )))
            &&& plain && n >= 2 && zeros_at(g, b, n) && (forall|c: int, m: int| #[trigger]
                zeros_at(g, c, m) ==> m <= n && (m == n && m > 0 ==> b <= c)) ==> ip_text(
                IpView::V6(g),
            ) == groups_text(g.take(b)) + (seq![':', ':'] + groups_text(g.skip(b + n)))
            &&& plain && (forall|c: int| !#[trigger] zeros_at(g, c, 2)) ==> ip_text(IpView::V6(g))
                == groups_text(g)
        }),
{
    let l = longest_run(g, 8);
    lemma_longest(g, 8, 0);
    let r = zero_run(g, l);
    lemma_zeros(g, l, 0);
    lemma_zeros(g, l, r);
    lemma_zeros(g, l, 2);
    if n >= 2 && zeros_at(g, b, n) && (forall|c: int, m: int| #[trigger]
        zeros_at(g, c, m) ==> m <= n && (m == n && m > 0 ==> b <= c)) {
        lemma_zeros(g, b, n);
        lemma_longest(g, 8, b);
        assert(zeros_at(g, l, r));
        assert(r == n);
        assert(b <= l);
        lemma_zeros(g, b, zero_run(g, b));
        assert(zeros_at(g, b, zero_run(g, b)));
        assert(l == b);
    }
    if forall|c: int| !#[trigger] zeros_at(g, c, 2) {
        assert(!zeros_at(g, l, 2));
        assert(r < 2) by {
            assert(zeros_at(g, l, r));
            if r >= 2 {
                assert(zeros_at(g, l, 2));
            }
        }
    }
}

/// A group is written in small letters without zeros in front, and read in either
/// case.
pub proof fn law_a_group_is_written_without_zeros(n: nat, s: Seq<char>)
    requires
        n < 65536,
    ensures
        1 <= hex_text(n).len() <= 4,
        n > 0 ==> hex_text(n)[0] != '0',
        forall|i: int|
            0 <= i < hex_text(n).len() ==> '0' <= #[trigger] hex_text(n)[i] <= '9' || 'a' <= hex_text(
                n,
            )[i] <= 'f',
        group(lowered(s)) == group(s),
{
    lemma_hex_len(n, 4);
    lemma_same_group(s);
}

proof fn lemma_hex_len(n: nat, k: nat)
    requires
        k >= 1,
        k <= 4,
        k == 1 ==> n < 16,
        k == 2 ==> n < 256,
        k == 3 ==> n < 4096,
        k == 4 ==> n < 65536,
    ensures
        1 <= hex_text(n).len() <= k,
        n > 0 ==> hex_text(n)[0] != '0',
        forall|i: int|
            0 <= i < hex_text(n).len() ==> '0' <= #[trigger] hex_text(n)[i] <= '9' || 'a' <= hex_text(
                n,
            )[i] <= 'f',
    decreases k,
{
    if n >= 16 {
        lemma_hex_len(n / 16, (k - 1) as nat);
        let t = hex_text(n / 16);
        assert(hex_text(n)[0] == t[0]);
    }
}

proof fn lemma_same_group(s: Seq<char>)
    ensures
        group(lowered(s)) == group(s),
{
    let l = lowered(s);
    assert forall|i: int| 0 <= i < s.len() implies hexit(#[trigger] l[i]) == hexit(s[i]) by {}
    assert(all_hexits(l) == all_hexits(s)) by {
        if all_hexits(s) {
            assert forall|i: int| 0 <= i < l.len() implies hexit(#[trigger] l[i]) is Some by {
                assert(hexit(s[i]) is Some);
            }
        }
        if all_hexits(l) {
            assert forall|i: int| 0 <= i < s.len() implies hexit(#[trigger] s[i]) is Some by {
                assert(hexit(l[i]) is Some);
            }
        }
    }
    lemma_same_hexits(s);
}

proof fn lemma_same_hexits(s: Seq<char>)
    ensures
        hexits_value(lowered(s)) == hexits_value(s),
    decreases s.len(),
{
    if s.len() > 0 {
        lemma_same_hexits(s.drop_last());
        assert(lowered(s).drop_last() =~= lowered(s.drop_last()));
        assert(lowered(s).last() == crate::text::lower(s.last()));
    }
}

} // verus!
