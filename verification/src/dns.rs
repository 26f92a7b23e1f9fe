//! Asking a name server over TLS: the setting, the messages and what is kept of
//! the answers.
//!
//! Only the target of a host mapping is resolved this way. A host that no rule
//! names goes through the system's resolver as ever, and so does a target whose
//! query fails.

use crate::address::{
    address_char, ip_chars, ip_of, ip_text, law_a_socket_reads_back, law_an_address_is_no_socket,
    law_an_address_reads_back, parse_ip, parse_socket, socket_chars, socket_of, socket_text,
    IpAddress, IpView, SocketAddress, SocketView,
};
use crate::cache::append_bytes;
use crate::num::{imax, imin};
use crate::text::{
    behind_prefix, chars_of, decimal, decimal_chars, drop_back, drop_front, join2, join3,
    lemma_trimmed_solid, lower_chars, lowered, same_text, split_chars, split_on, string_of,
    strip_prefix, trim_chars, trimmed, white, without_back, without_front,
};
use rand::RngCore;
use vstd::prelude::*;
use vstd::string::*;
use vstd::utf8::*;

verus! {

/// The longest that an answer is kept, in seconds.
pub const MAX_TTL: u64 = 600;

/// The shortest that an answer is kept, in seconds.
pub const MIN_TTL: u64 = 30;

/// How long one query may take, in seconds.
pub const QUERY_TIMEOUT: u64 = 6;

/// The port of DNS over TLS.
pub const DOT_PORT: u16 = 853;

/// How a mapping's target is resolved.
#[derive(Debug, Clone, Copy, PartialEq, Eq)]
pub enum DnsMode {
    /// By the system.
    System,
    /// By asking this server over TLS.
    Dot(SocketAddress),
}

#[verifier::ext_equal]
pub ghost enum DnsView {
    System,
    Dot(SocketView),
}

impl View for DnsMode {
    type V = DnsView;

    open spec fn view(&self) -> DnsView {
        match self {
            DnsMode::System => DnsView::System,
            DnsMode::Dot(a) => DnsView::Dot(a@),
        }
    }
}

/// The server that an address text names.
pub open spec fn server_in(body: Seq<char>) -> Option<SocketView> {
    match (socket_of(body), ip_of(without_back(without_front(body, '['), ']'))) {
        (Some(a), _) => Some(a),
        (None, Some(ip)) => Some(SocketView { ip, port: DOT_PORT, scope: 0 }),
        _ => None,
    }
}

/// The server named by a setting: `tls://` or `dot://` may stand in front, the
/// port and the brackets of an IPv6 address may be left out.
pub open spec fn server_of(raw: Seq<char>) -> Option<SocketView> {
    let body = match (behind_prefix(raw, "tls://"@), behind_prefix(raw, "dot://"@)) {
        (Some(b), _) => b,
        (None, Some(b)) => b,
        _ => raw,
    };
    server_in(body)
}

/// What a setting means. Nothing, blanks and `system` in any case stand for the
/// system's resolver; a server is named by its address alone.
pub open spec fn mode_of(raw: Option<Seq<char>>) -> Result<DnsView, Seq<char>> {
    let s = match raw {
        Some(r) => trimmed(r),
        None => Seq::empty(),
    };
    if s.len() == 0 || lowered(s) == "system"@ {
        Ok(DnsView::System)
    } else {
        match server_of(s) {
            Some(a) => Ok(DnsView::Dot(a)),
            None => Err("dns must be an IP address (e.g. tls://1.1.1.1), got: "@ + s),
        }
    }
}

/// Reads the setting.
pub fn parse_mode(raw: Option<&str>) -> (out: Result<DnsMode, String>)
    ensures
        match out {
            Ok(m) => mode_of(
                match raw {
                    Some(r) => Some(r@),
                    None => None,
                },
            ) == Ok::<DnsView, Seq<char>>(m@),
            Err(e) => mode_of(
                match raw {
                    Some(r) => Some(r@),
                    None => None,
                },
            ) == Err::<DnsView, Seq<char>>(e@),
        },
{
    let s: Vec<char> = match raw {
        Some(r) => trim_chars(&chars_of(r)),
        None => Vec::new(),
    };
    proof {
        if raw is None {
            assert(s@ =~= Seq::empty());
        }
    }
    if s.len() == 0 || same_text(string_of(&lower_chars(&s)).as_str(), "system") {
        return Ok(DnsMode::System);
    }
    let body: Vec<char> = match strip_prefix(&s, "tls://") {
        Some(b) => b,
        None => match strip_prefix(&s, "dot://") {
            Some(b) => b,
            None => s.clone(),
        },
    };
    if let Some(a) = parse_socket(&body) {
        return Ok(DnsMode::Dot(a));
    }
    let bare: Vec<char> = drop_back(&drop_front(&body, '['), ']');
    match parse_ip(&bare) {
        Some(ip) => Ok(DnsMode::Dot(SocketAddress { ip, port: DOT_PORT, scope: 0 })),
        None => Err(
            join2(
                "dns must be an IP address (e.g. tls://1.1.1.1), got: ",
                string_of(&s).as_str(),
            ),
        ),
    }
}

/// The setting that stands for `mode`: nothing for the system's resolver, and the
/// usual port left out.
pub open spec fn described(mode: DnsView) -> Option<Seq<char>> {
    match mode {
        DnsView::System => None,
        DnsView::Dot(a) => Some(
            "tls://"@ + (if a.port == DOT_PORT {
                ip_text(a.ip)
            } else {
                socket_text(a)
            }),
        ),
    }
}

/// Writes the setting.
pub fn describe(mode: &DnsMode) -> (out: Option<String>)
    ensures
        crate::text::opt_view(out) == described(mode@),
{
    match mode {
        DnsMode::System => None,
        DnsMode::Dot(a) => {
            let body: String = if a.port == DOT_PORT {
                string_of(&ip_chars(&a.ip))
            } else {
                string_of(&socket_chars(a))
            };
            Some(join2("tls://", body.as_str()))
        },
    }
}

/// A setting that is written reads back as the same. (A scope is not written
/// beside the usual port.)
pub proof fn law_a_setting_reads_back(mode: DnsView)
    requires
        mode matches DnsView::Dot(a) ==> a.ip.wf() && (a.ip is V4 ==> a.scope == 0) && (a.port
            == DOT_PORT ==> a.scope == 0),
    ensures
        mode_of(described(mode)) == Ok::<DnsView, Seq<char>>(mode),
{
    if let DnsView::Dot(a) = mode {
        if a.port == DOT_PORT {
            let ip = ip_text(a.ip);
            law_an_address_is_no_socket(a.ip);
            law_an_address_reads_back(a.ip);
            assert forall|i: int| 0 <= i < ip.len() implies !white(#[trigger] ip[i]) by {
                assert(address_char(ip[i]));
            }
            lemma_setting_body(ip);
            assert(address_char(ip[0]));
            assert(address_char(ip[ip.len() - 1]));
            assert(without_front(ip, '[') == ip);
            assert(without_back(ip, ']') == ip);
        } else {
            law_a_socket_reads_back(a);
            lemma_socket_solid(a);
            lemma_setting_body(socket_text(a));
        }
    }
}

/// A setting with the usual prefix is read by what stands behind it.
proof fn lemma_setting_body(body: Seq<char>)
    requires
        forall|i: int| 0 <= i < body.len() ==> !white(#[trigger] body[i]),
        server_in(body) is Some,
    ensures
        mode_of(Some("tls://"@ + body)) == Ok::<DnsView, Seq<char>>(
            DnsView::Dot(server_in(body)->0),
        ),
{
    let tag = "tls://"@;
    let t = tag + body;
    reveal_strlit("tls://");
    reveal_strlit("system");
    assert forall|i: int| 0 <= i < t.len() implies !white(#[trigger] t[i]) by {
        if i >= 6 {
            assert(t[i] == body[i - 6]);
        }
    }
    lemma_trimmed_solid(t);
    assert(lowered(t)[0] == 't');
    assert("system"@[0] == 's');
    assert(t.take(6) =~= tag);
    assert(t.skip(6) =~= body);
    assert(server_of(t) == server_in(body));
}

/// A written address holds no white space.
pub(crate) proof fn lemma_socket_solid(a: SocketView)
    requires
        a.ip.wf(),
    ensures
        forall|i: int| 0 <= i < socket_text(a).len() ==> !white(#[trigger] socket_text(a)[i]),
{
    let t = socket_text(a);
    let ip = ip_text(a.ip);
    let port = decimal(a.port as nat);
    let scope = decimal(a.scope as nat);
    law_an_address_is_no_socket(a.ip);
    crate::text::law_decimal_reads_back(a.port as nat);
    crate::text::law_decimal_reads_back(a.scope as nat);
    assert forall|i: int| 0 <= i < t.len() implies !white(#[trigger] t[i]) by {
        assert(forall|k: int| 0 <= k < ip.len() ==> address_char(#[trigger] ip[k]));
        assert(forall|k: int| 0 <= k < port.len() ==> crate::text::digit(#[trigger] port[k]));
        assert(forall|k: int| 0 <= k < scope.len() ==> crate::text::digit(#[trigger] scope[k]));
    }
}

/// Sixteen bits, the high byte first.
pub open spec fn be16(n: int) -> Seq<u8> {
    seq![(n / 256 % 256) as u8, (n % 256) as u8]
}

/// The labels of a name, the dots at its end left away.
pub open spec fn labels(host: Seq<char>) -> Seq<Seq<char>> {
    split_on(without_back(host, '.'), '.')
}

/// A label of one to 63 bytes.
pub open spec fn label_fits(l: Seq<char>) -> bool {
    1 <= encode_utf8(l).len() <= 63
}

/// The name can be asked for.
pub open spec fn askable(host: Seq<char>) -> bool {
    forall|i: int| 0 <= i < labels(host).len() ==> label_fits(#[trigger] labels(host)[i])
}

/// The first `n` labels, each behind its length.
pub open spec fn labels_bytes(l: Seq<Seq<char>>, n: int) -> Seq<u8>
    decreases n,
{
    if n <= 0 {
        Seq::empty()
    } else {
        labels_bytes(l, n - 1) + seq![encode_utf8(l[n - 1]).len() as u8] + encode_utf8(l[n - 1])
    }
}

/// A question for the A records of `host`, recursion desired.
pub open spec fn query_bytes(id: u16, host: Seq<char>) -> Seq<u8> {
    let l = labels(host);
    be16(id as int) + seq![1u8, 0, 0, 1, 0, 0, 0, 0, 0, 0] + labels_bytes(l, l.len() as int) + seq![
        0u8,
        0,
        1,
        0,
        1,
    ]
}

/// Makes the question with the given transaction id.
pub fn query_with(id: u16, host: &str) -> (out: Result<Vec<u8>, String>)
    ensures
        match out {
            Ok(p) => askable(host@) && p@ == query_bytes(id, host@),
            Err(e) => !askable(host@) && e@ == "not a valid hostname: "@ + host@,
        },
{
    let mut packet: Vec<u8> = vec![(id / 256) as u8, (id % 256) as u8, 1, 0, 0, 1, 0, 0, 0, 0, 0, 0];
    let ghost head = be16(id as int) + seq![1u8, 0, 0, 1, 0, 0, 0, 0, 0, 0];
    assert(packet@ =~= head);
    let l: Vec<Vec<char>> = split_chars(&drop_back(&chars_of(host), '.'), '.');
    let ghost q = labels(host@);
    assert(packet@ =~= head + labels_bytes(q, 0));
    let mut i: usize = 0;
    while i < l.len()
        invariant
            i <= l@.len(),
            q == labels(host@),
            q == l@.map_values(|v: Vec<char>| v@),
            packet@ == head + labels_bytes(q, i as int),
            forall|k: int| 0 <= k < i ==> label_fits(#[trigger] q[k]),
        decreases l.len() - i,
    {
        assert(q[i as int] == l@[i as int]@);
        let label: String = string_of(&l[i]);
        let bytes: &[u8] = label.as_str().as_bytes();
        if bytes.len() < 1 || bytes.len() > 63 {
            assert(!label_fits(q[i as int]));
            return Err(join2("not a valid hostname: ", host));
        }
        packet.push(bytes.len() as u8);
        append_bytes(&mut packet, bytes);
        assert(packet@ =~= head + labels_bytes(q, i + 1));
        i = i + 1;
    }
    let tail: [u8; 5] = [0, 0, 1, 0, 1];
    append_bytes(&mut packet, &tail);
    assert(packet@ =~= query_bytes(id, host@));
    Ok(packet)
}

/// A random number. Calls `rand`'s `next_u32` on the thread's generator; any value
/// may come.
#[verifier::external_body]
fn random_word() -> (out: u32) {
    rand::thread_rng().next_u32()
}

/// Makes a question under a random transaction id, which is returned with it.
pub fn build_query(host: &str) -> (out: Result<(u16, Vec<u8>), String>)
    ensures
        match out {
            Ok(p) => askable(host@) && p.1@ == query_bytes(p.0, host@),
            Err(e) => !askable(host@) && e@ == "not a valid hostname: "@ + host@,
        },
{
    let id: u16 = (random_word() % 65536) as u16;
    match query_with(id, host) {
        Ok(p) => Ok((id, p)),
        Err(e) => Err(e),
    }
}

/// The message behind its length, as it goes over the wire.
pub fn frame(message: &Vec<u8>) -> (out: Vec<u8>)
    ensures
        out@ == be16(message@.len() as int) + message@,
{
    let n: usize = message.len();
    let mut out: Vec<u8> = vec![(n / 256 % 256) as u8, (n % 256) as u8];
    assert(out@ =~= be16(n as int));
    append_bytes(&mut out, message);
    out
}

/// Where a name ends that begins at `at`: behind a zero length, or behind the
/// two bytes of a pointer.
pub open spec fn name_end(data: Seq<u8>, at: int) -> Option<int>
    decreases data.len() + 256 - at,
{
    if at < 0 || at >= data.len() {
        None
    } else if data[at] == 0 {
        Some(at + 1)
    } else if data[at] >= 192 {
        Some(at + 2)
    } else {
        name_end(data, at + 1 + data[at])
    }
}

pub open spec fn cut_short() -> Seq<char> {
    "the DoT response was truncated"@
}

/// Steps over a name.
pub fn skip_name(data: &[u8], at: usize) -> (out: Result<usize, String>)
    requires
        data@.len() <= isize::MAX,
    ensures
        match out {
            Ok(end) => name_end(data@, at as int) == Some(end as int) && at < end <= data@.len()
                + 1,
            Err(e) => name_end(data@, at as int) is None && e@ == cut_short(),
        },
{
    let mut pos: usize = at;
    while pos < data.len()
        invariant
            at <= pos,
            data@.len() <= isize::MAX,
            name_end(data@, at as int) == name_end(data@, pos as int),
        decreases data@.len() + 256 - pos,
    {
        let len: u8 = data[pos];
        if len == 0 {
            return Ok(pos + 1);
        }
        if len >= 192 {
            return Ok(pos + 2);
        }
        pos = pos + 1 + len as usize;
    }
    Err("the DoT response was truncated".to_owned())
}

/// Where `n` questions end that begin at `at`: each is a name, a type and a class.
pub open spec fn questions_end(data: Seq<u8>, at: int, n: int) -> Option<int>
    decreases n,
{
    if n <= 0 {
        Some(at)
    } else {
        match name_end(data, at) {
            Some(e) => questions_end(data, e + 4, n - 1),
            None => None,
        }
    }
}

pub open spec fn word_at(data: Seq<u8>, at: int) -> int {
    data[at] * 256 + data[at + 1]
}

/// An address and how long it holds.
pub ghost struct ARecord {
    pub ip: Seq<u8>,
    pub ttl: int,
}

/// The address records among `n` answers that begin at `at`: type 1, four bytes.
pub open spec fn addresses(data: Seq<u8>, at: int, n: int) -> Option<Seq<ARecord>>
    decreases n,
{
    if n <= 0 {
        Some(Seq::empty())
    } else {
        match name_end(data, at) {
            Some(e) => {
                let len = word_at(data, e + 8);
                if e + 10 > data.len() || e + 10 + len > data.len() {
                    None
                } else {
                    match addresses(data, e + 10 + len, n - 1) {
                        Some(rest) => if word_at(data, e) == 1 && len == 4 {
                            Some(
                                seq![
                                    ARecord {
                                        ip: data.subrange(e + 10, e + 14),
                                        ttl: word_at(data, e + 4) * 65536 + word_at(data, e + 6),
                                    },
                                ] + rest,
                            )
                        } else {
                            Some(rest)
                        },
                        None => None,
                    }
                }
            },
            None => None,
        }
    }
}

/// The shortest time that a record holds, and no more than the longest that any is
/// kept.
pub open spec fn least_ttl(l: Seq<ARecord>) -> int
    decreases l.len(),
{
    if l.len() == 0 {
        MAX_TTL as int
    } else {
        imin(l[0].ttl, least_ttl(l.drop_first()))
    }
}

pub open spec fn record_ips(l: Seq<ARecord>) -> Seq<IpView> {
    l.map_values(|r: ARecord| IpView::V4(r.ip))
}

pub open spec fn ip_views(l: Seq<IpAddress>) -> Seq<IpView> {
    l.map_values(|a: IpAddress| a@)
}

/// What an answer says to the question `id`, or why it is refused.
pub open spec fn answer_of(data: Seq<u8>, id: u16) -> Result<Seq<ARecord>, Seq<char>> {
    if data.len() < 12 {
        Err(cut_short())
    } else if word_at(data, 0) != id {
        Err("the DoT response carried a different transaction id"@)
    } else if data[3] % 16 != 0 {
        Err("the DoT server answered with rcode="@ + decimal((data[3] % 16) as nat))
    } else {
        match questions_end(data, 12, word_at(data, 4)) {
            Some(at) => match addresses(data, at, word_at(data, 6)) {
                Some(l) => Ok(l),
                None => Err(cut_short()),
            },
            None => Err(cut_short()),
        }
    }
}

proof fn lemma_least_split(a: Seq<ARecord>, b: Seq<ARecord>)
    ensures
        least_ttl(a + b) == imin(least_ttl(a), least_ttl(b)),
    decreases a.len(),
{
    if a.len() == 0 {
        assert(a + b =~= b);
        lemma_least_bound(b);
    } else {
        assert((a + b).drop_first() =~= a.drop_first() + b);
        lemma_least_split(a.drop_first(), b);
    }
}

proof fn lemma_least_bound(a: Seq<ARecord>)
    ensures
        least_ttl(a) <= MAX_TTL,
    decreases a.len(),
{
    if a.len() > 0 {
        lemma_least_bound(a.drop_first());
    }
}

fn word(data: &[u8], at: usize) -> (out: u16)
    requires
        at + 1 < data@.len(),
        data@.len() <= isize::MAX,
    ensures
        out == word_at(data@, at as int),
{
    data[at] as u16 * 256 + data[at + 1] as u16
}

/// Reads the addresses out of an answer, and how many seconds they hold.
pub fn parse_answer(data: &[u8], want_id: u16) -> (out: Result<(Vec<IpAddress>, u64), String>)
    requires
        data@.len() <= isize::MAX,
    ensures
        match out {
            Ok(a) => answer_of(data@, want_id) is Ok && ip_views(a.0@) == record_ips(
                answer_of(data@, want_id)->Ok_0,
            ) && a.1 == least_ttl(answer_of(data@, want_id)->Ok_0),
            Err(e) => answer_of(data@, want_id) == Err::<Seq<ARecord>, Seq<char>>(e@),
        },
{
    let n: usize = data.len();
    if n < 12 {
        return Err("the DoT response was truncated".to_owned());
    }
    if word(data, 0) != want_id {
        return Err("the DoT response carried a different transaction id".to_owned());
    }
    let rcode: u8 = data[3] % 16;
    if rcode != 0 {
        return Err(
            join2(
                "the DoT server answered with rcode=",
                string_of(&decimal_chars(rcode as u64)).as_str(),
            ),
        );
    }
    let questions: u16 = word(data, 4);
    let answers: u16 = word(data, 6);
    let mut at: usize = 12;
    let mut i: u16 = 0;
    while i < questions
        invariant
            i <= questions,
            n == data@.len(),
            n <= isize::MAX,
            at <= n + 5,
            n >= 12,
            questions_end(data@, 12, questions as int) == questions_end(
                data@,
                at as int,
                questions - i,
            ),
            questions == word_at(data@, 4),
            answers == word_at(data@, 6),
            word_at(data@, 0) == want_id,
            data@[3] % 16 == 0,
        decreases questions - i,
    {
        match skip_name(data, at) {
            Ok(end) => {
                at = end + 4;
            },
            Err(e) => {
                return Err(e);
            },
        }
        i = i + 1;
    }
    let ghost first = at as int;
    let mut ips: Vec<IpAddress> = Vec::new();
    let mut min_ttl: u64 = MAX_TTL;
    let ghost mut seen: Seq<ARecord> = Seq::empty();
    proof {
        assert(ip_views(ips@) =~= record_ips(seen));
        if let Some(rest) = addresses(data@, at as int, answers as int) {
            assert(seen + rest =~= rest);
        }
    }
    let mut j: u16 = 0;
    while j < answers
        invariant
            j <= answers,
            n == data@.len(),
            n <= isize::MAX,
            n >= 12,
            at <= n + 5,
            questions_end(data@, 12, word_at(data@, 4)) == Some(first),
            answers == word_at(data@, 6),
            word_at(data@, 0) == want_id,
            data@[3] % 16 == 0,
            ip_views(ips@) == record_ips(seen),
            min_ttl == least_ttl(seen),
            match addresses(data@, at as int, answers - j) {
                Some(rest) => addresses(data@, first, answers as int) == Some(seen + rest),
                None => addresses(data@, first, answers as int) is None,
            },
        decreases answers - j,
    {
        match skip_name(data, at) {
            Ok(end) => {
                at = end;
            },
            Err(e) => {
                return Err(e);
            },
        }
        if at + 10 > n {
            return Err("the DoT response was truncated".to_owned());
        }
        let rtype: u16 = word(data, at);
        let ttl: u32 = word(data, at + 4) as u32 * 65536 + word(data, at + 6) as u32;
        let rdlen: usize = word(data, at + 8) as usize;
        at = at + 10;
        if rdlen > n - at {
            return Err("the DoT response was truncated".to_owned());
        }
        if rtype == 1 && rdlen == 4 {
            let four: [u8; 4] = [data[at], data[at + 1], data[at + 2], data[at + 3]];
            let ghost r = ARecord { ip: data@.subrange(at as int, at + 4), ttl: ttl as int };
            let ghost before = ips@;
            let ghost was = seen;
            let ip: IpAddress = IpAddress::V4(four);
            ips.push(ip);
            if (ttl as u64) < min_ttl {
                min_ttl = ttl as u64;
            }
            proof {
                assert(four@ =~= r.ip);
                seen = was.push(r);
                assert(ip_views(ips@) =~= ip_views(before).push(ip@));
                assert(record_ips(seen) =~= record_ips(was).push(IpView::V4(r.ip)));
                assert(seen =~= was + seq![r]);
                lemma_least_split(was, seq![r]);
                assert(seq![r].drop_first() =~= Seq::empty());
                assert(least_ttl(seq![r].drop_first()) == MAX_TTL);
                assert(least_ttl(seq![r]) == imin(r.ttl, MAX_TTL as int));
                lemma_least_bound(was);
                if let Some(rest) = addresses(data@, at + rdlen, answers - j - 1) {
                    assert(was + (seq![r] + rest) =~= seen + rest);
                }
            }
        }
        at = at + rdlen;
        j = j + 1;
    }
    assert(seen + Seq::<ARecord>::empty() =~= seen);
    Ok((ips, min_ttl))
}

/// What is kept of one answer.
pub struct CachedAnswer {
    pub host: String,
    pub ips: Vec<IpAddress>,
    /// Milliseconds on the caller's clock.
    pub expires_at: u64,
}

/// A name server and its answers of late.
pub struct DotResolver {
    pub server: SocketAddress,
    pub answers: Vec<CachedAnswer>,
}

#[verifier::ext_equal]
pub ghost struct KeptAnswer {
    pub ips: Seq<IpView>,
    pub expires_at: int,
}

/// The answers by host, the first of each host.
pub open spec fn kept(l: Seq<CachedAnswer>) -> Map<Seq<char>, KeptAnswer>
    decreases l.len(),
{
    if l.len() == 0 {
        Map::empty()
    } else {
        kept(l.drop_last()).insert(
            l.last().host@,
            KeptAnswer { ips: ip_views(l.last().ips@), expires_at: l.last().expires_at as int },
        )
    }
}

/// No host stands twice.
pub open spec fn hosts_apart(l: Seq<CachedAnswer>) -> bool {
    forall|i: int, j: int| 0 <= i < j < l.len() ==> (#[trigger] l[i]).host@ != (#[trigger] l[j]).host@
}

proof fn lemma_kept(l: Seq<CachedAnswer>)
    requires
        hosts_apart(l),
    ensures
        forall|i: int|
            0 <= i < l.len() ==> kept(l).contains_key((#[trigger] l[i]).host@) && kept(
                l,
            )[l[i].host@] == (KeptAnswer {
                ips: ip_views(l[i].ips@),
                expires_at: l[i].expires_at as int,
            }),
        forall|h: Seq<char>|
            kept(l).contains_key(h) <==> exists|i: int| 0 <= i < l.len() && (#[trigger] l[i]).host@ == h,
    decreases l.len(),
{
    if l.len() > 0 {
        let m = l.drop_last();
        assert forall|i: int, j: int| 0 <= i < j < m.len() implies (#[trigger] m[i]).host@ != (
        #[trigger] m[j]).host@ by {
            assert(l[i].host@ != l[j].host@);
        }
        lemma_kept(m);
        assert forall|i: int| 0 <= i < l.len() implies kept(l).contains_key(
            (#[trigger] l[i]).host@,
        ) && kept(l)[l[i].host@] == (KeptAnswer {
            ips: ip_views(l[i].ips@),
            expires_at: l[i].expires_at as int,
        }) by {
            if i < m.len() {
                assert(m[i] == l[i]);
                assert(l[i].host@ != l[l.len() - 1].host@);
            }
        }
        assert forall|h: Seq<char>|
            kept(l).contains_key(h) implies exists|i: int|
            0 <= i < l.len() && (#[trigger] l[i]).host@ == h by {
            if h == l.last().host@ {
                assert(l[l.len() - 1].host@ == h);
            } else {
                assert(kept(m).contains_key(h));
                let i = choose|i: int| 0 <= i < m.len() && (#[trigger] m[i]).host@ == h;
                assert(l[i].host@ == h);
            }
        }
    }
}

fn copy_ips(l: &Vec<IpAddress>) -> (out: Vec<IpAddress>)
    ensures
        out@ == l@,
{
    let mut out: Vec<IpAddress> = Vec::new();
    let mut i: usize = 0;
    while i < l.len()
        invariant
            i <= l@.len(),
            out@ == l@.take(i as int),
        decreases l.len() - i,
    {
        out.push(l[i]);
        assert(l@.take(i as int).push(l@[i as int]) =~= l@.take(i + 1));
        i = i + 1;
    }
    assert(l@.take(l@.len() as int) =~= l@);
    out
}

impl DotResolver {
    pub open spec fn wf(self) -> bool {
        hosts_apart(self.answers@)
    }

    /// The answers by host.
    pub open spec fn known(self) -> Map<Seq<char>, KeptAnswer> {
        kept(self.answers@)
    }

    /// A resolver that has asked nothing yet.
    pub fn new(server: SocketAddress) -> (out: Self)
        ensures
            out.wf(),
            out.server@ == server@,
            out.known() == Map::<Seq<char>, KeptAnswer>::empty(),
    {
        DotResolver { server, answers: Vec::new() }
    }

    pub fn server(&self) -> (out: SocketAddress)
        ensures
            out@ == self.server@,
    {
        self.server
    }

    fn place(&self, host: &str) -> (out: Option<usize>)
        ensures
            match out {
                Some(i) => i < self.answers@.len() && self.answers@[i as int].host@ == host@,
                None => forall|i: int|
                    0 <= i < self.answers@.len() ==> (#[trigger] self.answers@[i]).host@ != host@,
            },
    {
        let mut i: usize = 0;
        while i < self.answers.len()
            invariant
                i <= self.answers@.len(),
                forall|k: int| 0 <= k < i ==> (#[trigger] self.answers@[k]).host@ != host@,
            decreases self.answers.len() - i,
        {
            if same_text(self.answers[i].host.as_str(), host) {
                return Some(i);
            }
            i = i + 1;
        }
        None
    }

    fn forget(&mut self, host: &str)
        requires
            old(self).wf(),
        ensures
            final(self).wf(),
            final(self).server == old(self).server,
            final(self).known() == old(self).known().remove(host@),
            forall|i: int|
                0 <= i < final(self).answers@.len() ==> (#[trigger] final(self).answers@[i]).host@
                    != host@,
    {
        proof {
            lemma_kept(self.answers@);
        }
        match self.place(host) {
            Some(i) => {
                let ghost before = self.answers@;
                self.answers.remove(i);
                proof {
                    let after = self.answers@;
                    assert(after == before.remove(i as int));
                    assert forall|a: int, b: int| 0 <= a < b < after.len() implies (
                    #[trigger] after[a]).host@ != (#[trigger] after[b]).host@ by {
                        let x = if a < i {
                            a
                        } else {
                            a + 1
                        };
                        let y = if b < i {
                            b
                        } else {
                            b + 1
                        };
                        assert(before[x].host@ != before[y].host@);
                    }
                    assert forall|a: int| 0 <= a < after.len() implies (#[trigger] after[a]).host@
                        != host@ by {
                        let x = if a < i {
                            a
                        } else {
                            a + 1
                        };
                        assert(after[a] == before[x]);
                        assert(before[x].host@ != before[i as int].host@);
                    }
                    lemma_kept(after);
                    let m = kept(before).remove(host@);
                    assert forall|h: Seq<char>|
                        #[trigger] kept(after).contains_key(h) == m.contains_key(h) by {
                        if kept(after).contains_key(h) {
                            let a = choose|a: int|
                                0 <= a < after.len() && (#[trigger] after[a]).host@ == h;
                            let x = if a < i {
                                a
                            } else {
                                a + 1
                            };
                            assert(before[x].host@ == h);
                        }
                        if m.contains_key(h) {
                            let x = choose|x: int|
                                0 <= x < before.len() && (#[trigger] before[x]).host@ == h;
                            let a = if x < i {
                                x
                            } else {
                                x - 1
                            };
                            assert(after[a].host@ == h);
                        }
                    }
                    assert forall|h: Seq<char>| kept(after).contains_key(h) implies #[trigger] kept(
                        after,
                    )[h] == m[h] by {
                        let a = choose|a: int|
                            0 <= a < after.len() && (#[trigger] after[a]).host@ == h;
                        let x = if a < i {
                            a
                        } else {
                            a + 1
                        };
                        assert(before[x].host@ == h);
                    }
                    assert(kept(after) =~= m);
                }
            },
            None => {
                assert(kept(self.answers@).remove(host@) =~= kept(self.answers@));
            },
        }
    }

    /// The answer that is kept for `host` and still holds; one that no longer
    /// holds is forgotten.
    pub fn cached(&mut self, host: &str, now: u64) -> (out: Option<Vec<IpAddress>>)
        requires
            old(self).wf(),
        ensures
            final(self).wf(),
            final(self).server == old(self).server,
            ({
                let known = old(self).known();
                let holds = known.contains_key(host@) && known[host@].expires_at > now;
                match out {
                    Some(ips) => holds && ip_views(ips@) == known[host@].ips && final(self).known()
                        == known,
                    None => !holds && final(self).known() == known.remove(host@),
                }
            }),
    {
        proof {
            lemma_kept(self.answers@);
        }
        match self.place(host) {
            Some(i) => {
                assert(self.answers@[i as int].host@ == host@);
                if self.answers[i].expires_at > now {
                    return Some(copy_ips(&self.answers[i].ips));
                }
            },
            None => {},
        }
        self.forget(host);
        None
    }

    /// Takes an answer in: it is kept for its own time, within the two bounds. One
    /// without an address is an error and is not kept.
    pub fn learn(&mut self, host: &str, ips: Vec<IpAddress>, ttl: u64, now: u64) -> (out: Result<
        Vec<IpAddress>,
        String,
    >)
        requires
            old(self).wf(),
            now <= u64::MAX - 600_000,
        ensures
            final(self).wf(),
            final(self).server == old(self).server,
            match out {
                Ok(l) => ips@.len() > 0 && ip_views(l@) == ip_views(ips@) && final(self).known()
                    == old(self).known().insert(
                    host@,
                    KeptAnswer {
                        ips: ip_views(ips@),
                        expires_at: now + 1000 * imin(imax(ttl as int, 30), 600),
                    },
                ),
                Err(e) => ips@.len() == 0 && final(self).known() == old(self).known() && e@
                    == "DoT query for "@ + host@ + " returned no A records"@,
            },
    {
        if ips.len() == 0 {
            return Err(join3("DoT query for ", host, " returned no A records"));
        }
        let secs: u64 = if ttl < MIN_TTL {
            MIN_TTL
        } else if ttl > MAX_TTL {
            MAX_TTL
        } else {
            ttl
        };
        let ghost known = self.known();
        self.forget(host);
        let out: Vec<IpAddress> = copy_ips(&ips);
        let ghost before = self.answers@;
        let entry: CachedAnswer = CachedAnswer {
            host: host.to_owned(),
            ips,
            expires_at: now + 1000 * secs,
        };
        self.answers.push(entry);
        proof {
            let after = self.answers@;
            assert(after.drop_last() =~= before);
            assert(known.remove(host@).insert(
                host@,
                KeptAnswer { ips: ip_views(entry.ips@), expires_at: entry.expires_at as int },
            ) =~= known.insert(
                host@,
                KeptAnswer { ips: ip_views(entry.ips@), expires_at: entry.expires_at as int },
            ));
        }
        Ok(out)
    }
}

} // verus!
