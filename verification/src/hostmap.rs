//! Host mappings: which address a host of a URL is reached at.
//!
//! A mapping changes where the connection goes and nothing of what the far side
//! sees. Where the URL names a domain, the URL is left as it is and the resolver
//! answers with the mapped address. Where it names an address, no resolver is
//! asked, so the URL's host is rewritten and the old one is sent as `Host`.
//!
//! Rules come from the settings and from a task; a task's rules are added to the
//! others and win over those of the same name.

use crate::address::{
    ip_chars, ip_of, ip_text, parse_digits, parse_ip, parse_socket, socket_of, IpAddress, IpView,
    SocketAddress,
};
use crate::dns::{describe, described, DnsMode, DnsView};
use crate::text::{
    all_digits, append_chars, chars_of, decimal, decimal_chars, digit, digits_value, drop_back,
    drop_front, has_char, join3, last_index, lower_chars, lowered, opt_view, rfind_char,
    same_chars, slice_of, string_of, trim, trim_chars, trimmed, without_back, without_front,
};
use std::collections::hash_map::DefaultHasher;
use std::hash::Hasher;
use std::sync::Arc;
use vstd::prelude::*;
use vstd::std_specs::hash::DefaultHasherAdditionalSpecFns;
use vstd::string::*;
use vstd::utf8::*;

verus! {

/// One rule: `from` is the host in the URL, `to` is what is connected to.
#[derive(Debug, PartialEq, Eq)]
pub struct HostMapping {
    /// A domain, an address, or `*.` and a domain.
    pub from: String,
    /// A domain or an address, with a port or without.
    pub to: String,
    /// A rule that is switched off stays in the list and has no effect.
    pub enabled: bool,
}

#[verifier::ext_equal]
pub ghost struct RuleView {
    pub from: Seq<char>,
    pub to: Seq<char>,
    pub enabled: bool,
}

impl View for HostMapping {
    type V = RuleView;

    open spec fn view(&self) -> RuleView {
        RuleView { from: self.from@, to: self.to@, enabled: self.enabled }
    }
}

pub open spec fn rule_views(l: Seq<HostMapping>) -> Seq<RuleView> {
    l.map_values(|r: HostMapping| r@)
}

impl Clone for HostMapping {
    fn clone(&self) -> (out: Self)
        ensures
            out@ == self@,
    {
        HostMapping { from: self.from.clone(), to: self.to.clone(), enabled: self.enabled }
    }
}

/// What a rule leads to. Port 0 stands for the port of the URL.
#[derive(Debug, PartialEq, Eq)]
pub enum Target {
    Ip(IpAddress, u16),
    Host(String, u16),
}

#[verifier::ext_equal]
pub ghost enum TargetView {
    Ip(IpView, u16),
    Host(Seq<char>, u16),
}

impl View for Target {
    type V = TargetView;

    open spec fn view(&self) -> TargetView {
        match self {
            Target::Ip(a, p) => TargetView::Ip(a@, *p),
            Target::Host(h, p) => TargetView::Host(h@, *p),
        }
    }
}

impl Clone for Target {
    fn clone(&self) -> (out: Self)
        ensures
            out@ == self@,
    {
        match self {
            Target::Ip(a, p) => Target::Ip(*a, *p),
            Target::Host(h, p) => Target::Host(h.clone(), *p),
        }
    }
}

pub open spec fn opt_target(t: Option<Target>) -> Option<TargetView> {
    match t {
        Some(t) => Some(t@),
        None => None,
    }
}

/// A host as it is compared: neither case nor dots at the end count.
pub open spec fn normalized(host: Seq<char>) -> Seq<char> {
    lowered(without_back(trimmed(host), '.'))
}

fn normalize_chars(host: &[char]) -> (out: Vec<char>)
    ensures
        out@ == normalized(host@),
{
    lower_chars(&drop_back(&trim_chars(host), '.'))
}

/// Brings a host into the form in which hosts are compared.
pub fn normalize_host(host: &str) -> (out: String)
    ensures
        out@ == normalized(host@),
{
    string_of(&normalize_chars(&chars_of(host)))
}

pub open spec fn host_char(c: char) -> bool {
    digit(c) || 'a' <= c <= 'z' || 'A' <= c <= 'Z' || c == '-' || c == '.' || c == '_'
}

/// A target's text cut at the last colon where a port stands behind it; no port
/// is 0, and one that is too large is none.
pub open spec fn host_and_port(s: Seq<char>) -> (Seq<char>, Option<u16>) {
    match last_index(s, ':', s.len() as int) {
        Some(k) if k > 0 && k + 1 < s.len() && all_digits(s.skip(k + 1)) => (
            s.take(k),
            if digits_value(s.skip(k + 1)) <= u16::MAX {
                Some(digits_value(s.skip(k + 1)) as u16)
            } else {
                None
            },
        ),
        _ => (s, Some(0u16)),
    }
}

/// What a rule's `to` means.
pub open spec fn target_of(raw: Seq<char>) -> Result<TargetView, Seq<char>> {
    let s = trimmed(raw);
    let (host, port) = host_and_port(s);
    if s.len() == 0 {
        Err("target must not be empty"@)
    } else if s.contains('/') {
        Err("target '"@ + s + "' must be a bare host or IP, not a URL"@)
    } else if ip_of(s) is Some {
        Ok(TargetView::Ip(ip_of(s)->0, 0))
    } else if socket_of(s) is Some {
        Ok(TargetView::Ip((socket_of(s)->0).ip, (socket_of(s)->0).port))
    } else if port is None {
        Err("target '"@ + s + "' has an out-of-range port"@)
    } else if host.contains(':') {
        Err("target '"@ + s + "' is not a valid host or IP"@)
    } else if exists|i: int| 0 <= i < host.len() && !host_char(#[trigger] host[i]) {
        Err("target '"@ + s + "' contains characters invalid in a host"@)
    } else {
        Ok(TargetView::Host(normalized(host), port->0))
    }
}

fn all_host_chars(s: &[char]) -> (out: bool)
    ensures
        out == !(exists|i: int| 0 <= i < s@.len() && !host_char(#[trigger] s@[i])),
{
    let mut i: usize = 0;
    while i < s.len()
        invariant
            i <= s@.len(),
            forall|k: int| 0 <= k < i ==> host_char(#[trigger] s@[k]),
        decreases s.len() - i,
    {
        let c: char = s[i];
        if !(('0' <= c && c <= '9') || ('a' <= c && c <= 'z') || ('A' <= c && c <= 'Z') || c == '-'
            || c == '.' || c == '_') {
            assert(!host_char(s@[i as int]));
            return false;
        }
        i = i + 1;
    }
    true
}

fn only_digits(s: &[char]) -> (out: bool)
    ensures
        out == all_digits(s@),
{
    let mut i: usize = 0;
    while i < s.len()
        invariant
            i <= s@.len(),
            forall|k: int| 0 <= k < i ==> digit(#[trigger] s@[k]),
        decreases s.len() - i,
    {
        if !('0' <= s[i] && s[i] <= '9') {
            assert(!digit(s@[i as int]));
            return false;
        }
        i = i + 1;
    }
    true
}

fn split_port(s: &[char]) -> (out: (Vec<char>, Option<u16>))
    ensures
        (out.0@, out.1) == host_and_port(s@),
{
    let n: usize = s.len();
    if let Some(k) = rfind_char(s, ':') {
        if k > 0 && k < n - 1 {
            let port: Vec<char> = slice_of(s, k + 1, n);
            assert(port@ =~= s@.skip(k + 1));
            if only_digits(&port) {
                let host: Vec<char> = slice_of(s, 0, k);
                assert(host@ =~= s@.take(k as int));
                return match parse_digits(&port, 65535) {
                    Some(p) => (host, Some(p as u16)),
                    None => (host, None),
                };
            }
        }
    }
    let all: Vec<char> = slice_of(s, 0, n);
    assert(all@ =~= s@);
    (all, Some(0))
}

fn about(front: &str, s: &[char], behind: &str) -> (out: String)
    ensures
        out@ == front@ + s@ + behind@,
{
    join3(front, string_of(s).as_str(), behind)
}

/// Reads a rule's `to`.
pub fn parse_target(raw: &str) -> (out: Result<Target, String>)
    ensures
        match out {
            Ok(t) => target_of(raw@) == Ok::<TargetView, Seq<char>>(t@),
            Err(e) => target_of(raw@) == Err::<TargetView, Seq<char>>(e@),
        },
{
    let s: Vec<char> = trim_chars(&chars_of(raw));
    if s.len() == 0 {
        return Err("target must not be empty".to_owned());
    }
    if has_char(&s, '/') {
        return Err(about("target '", &s, "' must be a bare host or IP, not a URL"));
    }
    if let Some(ip) = parse_ip(&s) {
        return Ok(Target::Ip(ip, 0));
    }
    if let Some(a) = parse_socket(&s) {
        return Ok(Target::Ip(a.ip, a.port));
    }
    let (host, port) = split_port(&s);
    match port {
        None => Err(about("target '", &s, "' has an out-of-range port")),
        Some(p) => {
            if has_char(&host, ':') {
                return Err(about("target '", &s, "' is not a valid host or IP"));
            }
            if !all_host_chars(&host) {
                return Err(about("target '", &s, "' contains characters invalid in a host"));
            }
            Ok(Target::Host(string_of(&normalize_chars(&host)), p))
        },
    }
}

/// A rule's `from` that names every host under a domain.
pub open spec fn is_wild(from: Seq<char>) -> bool {
    from.len() >= 2 && from[0] == '*' && from[1] == '.'
}

/// What a rule's `from` means.
pub open spec fn source_of(raw: Seq<char>) -> Result<Seq<char>, Seq<char>> {
    let s = normalized(raw);
    if s.len() == 0 {
        Err("source must not be empty"@)
    } else if s.contains('/') {
        Err("source '"@ + s + "' must be a bare host or IP, not a URL"@)
    } else if s.contains(':') && ip_of(s) is None {
        Err(
            "source '"@ + s
                + "' must not carry a port — mapping is per host, and the port comes from the URL"@,
        )
    } else if is_wild(s) && s.len() == 2 {
        Err("wildcard source needs a suffix, e.g. *.example.com"@)
    } else if !is_wild(s) && s.contains('*') {
        Err("source '"@ + s + "': the only wildcard form is a leading '*.', e.g. *.example.com"@)
    } else {
        Ok(s)
    }
}

/// Reads a rule's `from`.
pub fn parse_source(raw: &str) -> (out: Result<String, String>)
    ensures
        match out {
            Ok(t) => source_of(raw@) == Ok::<Seq<char>, Seq<char>>(t@),
            Err(e) => source_of(raw@) == Err::<Seq<char>, Seq<char>>(e@),
        },
{
    let s: Vec<char> = normalize_chars(&chars_of(raw));
    if s.len() == 0 {
        return Err("source must not be empty".to_owned());
    }
    if has_char(&s, '/') {
        return Err(about("source '", &s, "' must be a bare host or IP, not a URL"));
    }
    if has_char(&s, ':') && parse_ip(&s).is_none() {
        return Err(
            about(
                "source '",
                &s,
                "' must not carry a port — mapping is per host, and the port comes from the URL",
            ),
        );
    }
    let wild: bool = s.len() >= 2 && s[0] == '*' && s[1] == '.';
    if wild {
        if s.len() == 2 {
            return Err("wildcard source needs a suffix, e.g. *.example.com".to_owned());
        }
    } else if has_char(&s, '*') {
        return Err(
            about(
                "source '",
                &s,
                "': the only wildcard form is a leading '*.', e.g. *.example.com",
            ),
        );
    }
    Ok(string_of(&s))
}

/// A name and its target.
#[derive(Debug)]
pub struct NamedTarget {
    pub name: String,
    pub target: Target,
}

/// The list as a table; of two entries of one name the later counts.
pub open spec fn named(l: Seq<NamedTarget>) -> Map<Seq<char>, TargetView>
    decreases l.len(),
{
    if l.len() == 0 {
        Map::empty()
    } else {
        named(l.drop_last()).insert(l.last().name@, l.last().target@)
    }
}

proof fn lemma_named_later(l: Seq<NamedTarget>, n: int, name: Seq<char>)
    requires
        0 <= n <= l.len(),
        forall|k: int| n <= k < l.len() ==> (#[trigger] l[k]).name@ != name,
    ensures
        named(l).contains_key(name) == named(l.take(n)).contains_key(name),
        named(l).contains_key(name) ==> named(l)[name] == named(l.take(n))[name],
    decreases l.len() - n,
{
    if n == l.len() {
        assert(l.take(n) =~= l);
    } else {
        lemma_named_later(l, n + 1, name);
        assert(l.take(n + 1).drop_last() =~= l.take(n));
        assert(l[n].name@ != name);
    }
}

/// The last entry of that name.
fn find_named(l: &Vec<NamedTarget>, name: &[char]) -> (out: Option<usize>)
    ensures
        match out {
            Some(i) => i < l@.len() && named(l@).contains_key(name@) && named(l@)[name@]
                == l@[i as int].target@,
            None => !named(l@).contains_key(name@),
        },
{
    let mut n: usize = l.len();
    while n > 0
        invariant
            n <= l@.len(),
            forall|k: int| n <= k < l@.len() ==> (#[trigger] l@[k]).name@ != name@,
        decreases n,
    {
        if same_chars(&chars_of(l[n - 1].name.as_str()), name) {
            proof {
                lemma_named_later(l@, n as int, name@);
                assert(l@.take(n as int).last() == l@[n - 1]);
            }
            return Some(n - 1);
        }
        n = n - 1;
    }
    proof {
        lemma_named_later(l@, 0, name@);
        assert(l@.take(0) =~= Seq::empty());
        assert(!named(l@.take(0)).contains_key(name@));
    }
    None
}

/// A table of rules: hosts by name, and the domains of wildcards, each with its
/// leading dot.
#[verifier::ext_equal]
pub ghost struct TableView {
    pub exact: Map<Seq<char>, TargetView>,
    pub wild: Map<Seq<char>, TargetView>,
}

/// The rules that are in force.
#[derive(Debug)]
pub struct HostTable {
    pub exact: Vec<NamedTarget>,
    pub wildcards: Vec<NamedTarget>,
}

impl View for HostTable {
    type V = TableView;

    open spec fn view(&self) -> TableView {
        TableView { exact: named(self.exact@), wild: named(self.wildcards@) }
    }
}

/// The target of the longest tail of `host`, from index `k` on, that `wild` names.
pub open spec fn longest_tail(
    wild: Map<Seq<char>, TargetView>,
    host: Seq<char>,
    k: int,
) -> Option<TargetView>
    decreases host.len() - k,
{
    if k < 0 || k >= host.len() {
        None
    } else if wild.contains_key(host.skip(k)) {
        Some(wild[host.skip(k)])
    } else {
        longest_tail(wild, host, k + 1)
    }
}

impl TableView {
    pub open spec fn empty() -> TableView {
        TableView { exact: Map::empty(), wild: Map::empty() }
    }

    /// The table with one more rule.
    pub open spec fn with(self, from: Seq<char>, to: TargetView) -> TableView {
        if is_wild(from) {
            TableView { wild: self.wild.insert(from.skip(1), to), ..self }
        } else {
            TableView { exact: self.exact.insert(from, to), ..self }
        }
    }

    /// The target of a host: its own rule, else that of the longest domain that
    /// it lies under.
    pub open spec fn found(self, host: Seq<char>) -> Option<TargetView> {
        let h = normalized(host);
        if self.exact.contains_key(h) {
            Some(self.exact[h])
        } else {
            longest_tail(self.wild, h, 1)
        }
    }
}

/// The table that the first `n` rules make, or what is wrong with the first rule
/// that is.
pub open spec fn table_of(rules: Seq<RuleView>, n: int) -> Result<TableView, Seq<char>>
    decreases n,
{
    if n <= 0 {
        Ok(TableView::empty())
    } else {
        match table_of(rules, n - 1) {
            Err(e) => Err(e),
            Ok(t) => {
                let r = rules[n - 1];
                if !r.enabled {
                    Ok(t)
                } else {
                    match (source_of(r.from), target_of(r.to)) {
                        (Err(e), _) => Err(e),
                        (Ok(_), Err(e)) => Err(e),
                        (Ok(from), Ok(to)) => Ok(t.with(from, to)),
                    }
                }
            },
        }
    }
}

/// What a URL says of its host.
pub struct UrlParts {
    pub host: Option<String>,
    pub port: Option<u16>,
}

#[verifier::ext_equal]
pub ghost struct UrlView {
    pub host: Option<Seq<char>>,
    pub port: Option<u16>,
}

impl View for UrlParts {
    type V = UrlView;

    open spec fn view(&self) -> UrlView {
        UrlView { host: opt_view(self.host), port: self.port }
    }
}

/// How `reqwest::Url::parse` reads a text: nothing if it is no URL, else the host
/// and the port that it is left with.
pub uninterp spec fn url_parts(text: Seq<char>) -> Option<UrlView>;

/// Reads a URL. Calls `reqwest::Url::parse`, and of its result `host_str` and
/// `port`; which texts are URLs, and how a host is written in one, is that
/// function's to say.
#[verifier::external_body]
pub(crate) fn read_url(text: &str) -> (out: Option<UrlParts>)
    ensures
        (match out {
            Some(p) => Some(p@),
            None => None,
        }) == url_parts(text@),
{
    let url = reqwest::Url::parse(text).ok()?;
    Some(UrlParts { host: url.host_str().map(|h| h.to_string()), port: url.port() })
}

/// The most characters of a URL, and of a host put into one: what is made of both
/// stays within offsets of 32 bits.
pub const URL_LIMIT: usize = 0x0400_0000;

/// The URL with another host, as `reqwest::Url::set_host` leaves it.
pub uninterp spec fn url_with_host(text: Seq<char>, host: Seq<char>) -> Option<Seq<char>>;

/// Puts another host into a URL. Calls `reqwest::Url::parse` and `set_host`, and
/// writes the URL out; nothing where one of the two refuses. The two lengths are
/// bounded because `set_host` panics where the URL outgrows 32-bit offsets.
#[verifier::external_body]
fn set_url_host(text: &str, host: &str) -> (out: Option<String>)
    requires
        text@.len() <= URL_LIMIT,
        host@.len() <= URL_LIMIT,
    ensures
        opt_view(out) == url_with_host(text@, host@),
{
    let mut url = reqwest::Url::parse(text).ok()?;
    url.set_host(Some(host)).ok()?;
    Some(url.to_string())
}

/// The URL with another host and another port, as `reqwest::Url::set_host` and
/// `set_port` leave it.
pub uninterp spec fn url_with_address(text: Seq<char>, host: Seq<char>, port: u16) -> Option<Seq<char>>;

/// Puts another host and another port into a URL. Calls `reqwest::Url::parse`,
/// `set_host` and `set_port`, and writes the URL out; nothing where one of them
/// refuses. The lengths are bounded as for the host alone.
#[verifier::external_body]
fn set_url_address(text: &str, host: &str, port: u16) -> (out: Option<String>)
    requires
        text@.len() <= URL_LIMIT,
        host@.len() <= URL_LIMIT,
    ensures
        opt_view(out) == url_with_address(text@, host@, port),
{
    let mut url = reqwest::Url::parse(text).ok()?;
    url.set_host(Some(host)).ok()?;
    url.set_port(Some(port)).ok()?;
    Some(url.to_string())
}

/// What a mapping means for one request.
#[derive(Debug, PartialEq, Eq)]
pub struct Routed {
    /// The URL to ask for; the same as before where it names a domain.
    pub url: String,
    /// The `Host` to send, where the URL was rewritten.
    pub host_header: Option<String>,
    /// The rule, as `cdn.example.com -> 1.2.3.4`.
    pub matched: String,
}

#[verifier::ext_equal]
pub ghost struct RoutedView {
    pub url: Seq<char>,
    pub host_header: Option<Seq<char>>,
    pub matched: Seq<char>,
}

impl View for Routed {
    type V = RoutedView;

    open spec fn view(&self) -> RoutedView {
        RoutedView {
            url: self.url@,
            host_header: opt_view(self.host_header),
            matched: self.matched@,
        }
    }
}

/// How a request is to be sent.
pub enum RoutePlan {
    /// The URL stays as it is.
    Keep { matched: String },
    /// The URL gets another host, and another port unless `port` is 0.
    Rewrite { host: String, port: u16, host_header: String, matched: String },
}

#[verifier::ext_equal]
pub ghost enum RoutePlanView {
    Keep { matched: Seq<char> },
    Rewrite { host: Seq<char>, port: u16, host_header: Seq<char>, matched: Seq<char> },
}

impl View for RoutePlan {
    type V = RoutePlanView;

    open spec fn view(&self) -> RoutePlanView {
        match self {
            RoutePlan::Keep { matched } => RoutePlanView::Keep { matched: matched@ },
            RoutePlan::Rewrite { host, port, host_header, matched } => RoutePlanView::Rewrite {
                host: host@,
                port: *port,
                host_header: host_header@,
                matched: matched@,
            },
        }
    }
}

/// Without the brackets of an IPv6 address.
pub open spec fn unbracketed(host: Seq<char>) -> Seq<char> {
    without_back(without_front(host, '['), ']')
}

/// A target as it is shown.
pub open spec fn shown_target(t: TargetView) -> Seq<char> {
    let (name, port) = match t {
        TargetView::Ip(ip, p) => (ip_text(ip), p),
        TargetView::Host(h, p) => (h, p),
    };
    if port == 0 {
        name
    } else {
        name + (seq![':'] + decimal(port as nat))
    }
}

fn describe_target(t: &Target) -> (out: String)
    ensures
        out@ == shown_target(t@),
{
    let (mut name, port): (Vec<char>, u16) = match t {
        Target::Ip(ip, p) => (ip_chars(ip), *p),
        Target::Host(h, p) => (chars_of(h.as_str()), *p),
    };
    if port != 0 {
        name.push(':');
        append_chars(&mut name, &decimal_chars(port as u64));
        assert(name@ =~= shown_target(t@));
    }
    string_of(&name)
}

/// A target's host as a URL writes it.
pub open spec fn url_host(t: TargetView) -> Seq<char> {
    match t {
        TargetView::Ip(IpView::V6(g), _) => seq!['['] + ip_text(IpView::V6(g)) + seq![']'],
        TargetView::Ip(ip, _) => ip_text(ip),
        TargetView::Host(h, _) => h,
    }
}

pub open spec fn target_port(t: TargetView) -> u16 {
    match t {
        TargetView::Ip(_, p) => p,
        TargetView::Host(_, p) => p,
    }
}

impl TableView {
    /// How a request is sent to a URL of these parts.
    pub open spec fn plan(self, parts: UrlView) -> Option<RoutePlanView> {
        match parts.host {
            None => None,
            Some(host) => {
                let bare = unbracketed(host);
                match self.found(bare) {
                    None => None,
                    Some(t) => {
                        let matched = bare + " -> "@ + shown_target(t);
                        if ip_of(bare) is None {
                            Some(RoutePlanView::Keep { matched })
                        } else {
                            Some(
                                RoutePlanView::Rewrite {
                                    host: url_host(t),
                                    port: target_port(t),
                                    host_header: match parts.port {
                                        Some(p) => host + (seq![':'] + decimal(p as nat)),
                                        None => host,
                                    },
                                    matched,
                                },
                            )
                        }
                    },
                }
            },
        }
    }

    /// What is made of a URL.
    pub open spec fn routed(self, url: Seq<char>) -> Option<RoutedView> {
        match url_parts(url) {
            None => None,
            Some(parts) => match self.plan(parts) {
                None => None,
                Some(RoutePlanView::Keep { matched }) => Some(
                    RoutedView { url, host_header: None, matched },
                ),
                Some(RoutePlanView::Rewrite { host, port, host_header, matched }) => {
                    let new = if port == 0 {
                        url_with_host(url, host)
                    } else {
                        url_with_address(url, host, port)
                    };
                    match new {
                        Some(u) => Some(
                            RoutedView { url: u, host_header: Some(host_header), matched },
                        ),
                        None => None,
                    }
                },
            },
        }
    }
}

/// The targets' names fit a URL.
pub open spec fn short_targets(l: Seq<NamedTarget>) -> bool {
    forall|i: int| 0 <= i < l.len() ==> short_target((#[trigger] l[i]).target@)
}

pub open spec fn short_target(t: TargetView) -> bool {
    match t {
        TargetView::Host(h, _) => h.len() <= URL_LIMIT,
        TargetView::Ip(_, _) => true,
    }
}

/// The rules' targets fit a URL.
pub open spec fn short_rules(rules: Seq<RuleView>) -> bool {
    forall|i: int| 0 <= i < rules.len() ==> (#[trigger] rules[i]).to.len() <= URL_LIMIT
}

proof fn lemma_target_short(raw: Seq<char>)
    requires
        raw.len() <= URL_LIMIT,
        target_of(raw) is Ok,
    ensures
        short_target(target_of(raw)->Ok_0),
{
    let s = trimmed(raw);
    crate::text::lemma_trimmed_len(raw);
    let h = host_and_port(s).0;
    assert(h.len() <= s.len()) by {
        crate::text::lemma_last_index(s, ':', s.len() as int);
    }
    crate::text::lemma_trimmed_len(h);
    crate::text::lemma_without_back_len(trimmed(h), '.');
}

impl HostTable {
    /// Every target's name fits a URL.
    pub open spec fn short(self) -> bool {
        short_targets(self.exact@) && short_targets(self.wildcards@)
    }

    /// Makes the table of a list of rules. One bad rule and there is no table. Of
    /// two rules of one name the later counts.
    pub fn build(rules: &Vec<HostMapping>) -> (out: Result<HostTable, String>)
        ensures
            match out {
                Ok(t) => table_of(rule_views(rules@), rules@.len() as int) == Ok::<
                    TableView,
                    Seq<char>,
                >(t@),
                Err(e) => table_of(rule_views(rules@), rules@.len() as int) == Err::<
                    TableView,
                    Seq<char>,
                >(e@),
            },
            out is Ok && short_rules(rule_views(rules@)) ==> (out->Ok_0).short(),
    {
        let ghost views = rule_views(rules@);
        let ghost n = rules@.len() as int;
        let mut table: HostTable = HostTable { exact: Vec::new(), wildcards: Vec::new() };
        assert(table@ =~= TableView::empty());
        let mut i: usize = 0;
        while i < rules.len()
            invariant
                i <= rules@.len(),
                n == rules@.len(),
                views == rule_views(rules@),
                table_of(views, i as int) == Ok::<TableView, Seq<char>>(table@),
                short_rules(views) ==> table.short(),
            decreases rules.len() - i,
        {
            assert(views[i as int] == rules@[i as int]@);
            if rules[i].enabled {
                let from: Vec<char> = match parse_source(rules[i].from.as_str()) {
                    Ok(s) => chars_of(s.as_str()),
                    Err(e) => {
                        proof {
                            lemma_table_error(views, i + 1, n);
                        }
                        return Err(e);
                    },
                };
                let to: Target = match parse_target(rules[i].to.as_str()) {
                    Ok(t) => t,
                    Err(e) => {
                        proof {
                            lemma_table_error(views, i + 1, n);
                        }
                        return Err(e);
                    },
                };
                proof {
                    if short_rules(views) {
                        assert(views[i as int].to.len() <= URL_LIMIT);
                        lemma_target_short(views[i as int].to);
                    }
                }
                let ghost was = table;
                if from.len() >= 2 && from[0] == '*' && from[1] == '.' {
                    let suffix: Vec<char> = slice_of(&from, 1, from.len());
                    assert(suffix@ =~= from@.skip(1));
                    let ghost before = table.wildcards@;
                    table.wildcards.push(NamedTarget { name: string_of(&suffix), target: to });
                    assert(table.wildcards@.drop_last() =~= before);
                } else {
                    let ghost before = table.exact@;
                    table.exact.push(NamedTarget { name: string_of(&from), target: to });
                    assert(table.exact@.drop_last() =~= before);
                }
                assert(table@ =~= was@.with(from@, to@));
            }
            i = i + 1;
        }
        Ok(table)
    }

    /// No rule is in force.
    pub fn is_empty(&self) -> (out: bool)
        ensures
            out == (self@ == TableView::empty()),
    {
        let none: bool = self.exact.len() == 0 && self.wildcards.len() == 0;
        proof {
            if none {
                assert(self@ =~= TableView::empty());
            } else if self.exact@.len() > 0 {
                assert(named(self.exact@).contains_key(self.exact@.last().name@));
                assert(!TableView::empty().exact.contains_key(self.exact@.last().name@));
            } else {
                assert(named(self.wildcards@).contains_key(self.wildcards@.last().name@));
                assert(!TableView::empty().wild.contains_key(self.wildcards@.last().name@));
            }
        }
        none
    }

    /// The target of a host.
    pub fn lookup(&self, host: &str) -> (out: Option<Target>)
        ensures
            opt_target(out) == self@.found(host@),
            self.short() && out is Some ==> short_target((out->0)@),
    {
        let h: Vec<char> = normalize_chars(&chars_of(host));
        if let Some(i) = find_named(&self.exact, &h) {
            return Some(self.exact[i].target.clone());
        }
        let n: usize = h.len();
        let mut k: usize = 1;
        while k < n
            invariant
                1 <= k,
                n == h@.len(),
                k <= n || n == 0,
                longest_tail(self@.wild, h@, 1) == longest_tail(self@.wild, h@, k as int),
                h@ == normalized(host@),
                !self@.exact.contains_key(h@),
            decreases n - k,
        {
            let tail: Vec<char> = slice_of(&h, k, n);
            assert(tail@ =~= h@.skip(k as int));
            if let Some(i) = find_named(&self.wildcards, &tail) {
                return Some(self.wildcards[i].target.clone());
            }
            k = k + 1;
        }
        None
    }

    /// What a host is mapped to, for display.
    pub fn explain(&self, host: &str) -> (out: Option<String>)
        ensures
            opt_view(out) == match self@.found(unbracketed(host@)) {
                Some(t) => Some(shown_target(t)),
                None => None,
            },
    {
        match self.lookup(bare_host(host).as_str()) {
            Some(t) => Some(describe_target(&t)),
            None => None,
        }
    }

    /// How a request is sent to a URL that was read as `parts`.
    pub fn plan(&self, parts: &UrlParts) -> (out: Option<RoutePlan>)
        ensures
            (match out {
                Some(p) => Some(p@),
                None => None,
            }) == self@.plan(parts@),
            self.short() ==> (out matches Some(RoutePlan::Rewrite { host, .. }) ==> host@.len()
                <= URL_LIMIT),
    {
        let host: &String = match &parts.host {
            Some(h) => h,
            None => {
                return None;
            },
        };
        let bare: String = bare_host(host.as_str());
        let target: Target = match self.lookup(bare.as_str()) {
            Some(t) => t,
            None => {
                return None;
            },
        };
        let matched: String = join3(bare.as_str(), " -> ", describe_target(&target).as_str());
        if parse_ip(&chars_of(bare.as_str())).is_none() {
            return Some(RoutePlan::Keep { matched });
        }
        let mut header: Vec<char> = chars_of(host.as_str());
        if let Some(p) = parts.port {
            header.push(':');
            append_chars(&mut header, &decimal_chars(p as u64));
            assert(header@ =~= host@ + (seq![':'] + decimal(p as nat)));
        }
        let (name, port): (Vec<char>, u16) = match &target {
            Target::Ip(ip, p) => {
                let text: Vec<char> = ip_chars(ip);
                proof {
                    crate::address::lemma_ip_text_short(ip@);
                }
                match ip {
                    IpAddress::V6(_) => {
                        let mut b: Vec<char> = vec!['['];
                        append_chars(&mut b, &text);
                        b.push(']');
                        assert(b@ =~= url_host(target@));
                        (b, *p)
                    },
                    IpAddress::V4(_) => (text, *p),
                }
            },
            Target::Host(h, p) => (chars_of(h.as_str()), *p),
        };
        Some(
            RoutePlan::Rewrite {
                host: string_of(&name),
                port,
                host_header: string_of(&header),
                matched,
            },
        )
    }

    /// What a mapping makes of a URL; nothing where no rule is in force for it.
    pub fn route(&self, url: &str) -> (out: Option<Routed>)
        requires
            url@.len() <= URL_LIMIT,
            self.short(),
        ensures
            (match out {
                Some(r) => Some(r@),
                None => None,
            }) == self@.routed(url@),
    {
        let parts: UrlParts = match read_url(url) {
            Some(p) => p,
            None => {
                return None;
            },
        };
        match self.plan(&parts) {
            None => None,
            Some(RoutePlan::Keep { matched }) => Some(
                Routed { url: url.to_owned(), host_header: None, matched },
            ),
            Some(RoutePlan::Rewrite { host, port, host_header, matched }) => {
                let new: Option<String> = if port == 0 {
                    set_url_host(url, host.as_str())
                } else {
                    set_url_address(url, host.as_str(), port)
                };
                match new {
                    Some(u) => Some(Routed { url: u, host_header: Some(host_header), matched }),
                    None => None,
                }
            },
        }
    }
}

impl Default for HostTable {
    fn default() -> (out: Self)
        ensures
            out@ == TableView::empty(),
            out.short(),
    {
        let t: HostTable = HostTable { exact: Vec::new(), wildcards: Vec::new() };
        assert(t@ =~= TableView::empty());
        t
    }
}

proof fn lemma_table_error(rules: Seq<RuleView>, i: int, n: int)
    requires
        0 <= i <= n,
        table_of(rules, i) is Err,
    ensures
        table_of(rules, n) == table_of(rules, i),
    decreases n - i,
{
    if i < n {
        lemma_table_error(rules, i + 1, n);
    }
}

fn bare_host(host: &str) -> (out: String)
    ensures
        out@ == unbracketed(host@),
{
    string_of(&drop_back(&drop_front(&chars_of(host), '['), ']'))
}

/// What is set for every task: the rules, the table that they make, and the
/// server that targets are resolved by.
pub struct HostState {
    pub rules: Vec<HostMapping>,
    pub table: Arc<HostTable>,
    pub dns: Option<SocketAddress>,
    pub generation: u64,
}

#[verifier::ext_equal]
pub ghost struct StateView {
    pub rules: Seq<RuleView>,
    pub dns: Option<crate::address::SocketView>,
    pub generation: u64,
}

impl View for HostState {
    type V = StateView;

    open spec fn view(&self) -> StateView {
        StateView {
            rules: rule_views(self.rules@),
            dns: match self.dns {
                Some(a) => Some(a@),
                None => None,
            },
            generation: self.generation,
        }
    }
}

impl HostState {
    /// The table is that of the rules.
    pub open spec fn wf(self) -> bool {
        &&& table_of(self@.rules, self@.rules.len() as int) == Ok::<TableView, Seq<char>>(
            (*self.table)@,
        )
        &&& short_rules(self@.rules) ==> (*self.table).short()
    }

    /// No rules, the system's resolver.
    pub fn new() -> (out: HostState)
        ensures
            out.wf(),
            out@ == (StateView { rules: Seq::empty(), dns: None, generation: 0 }),
    {
        let out: HostState = HostState {
            rules: Vec::new(),
            table: Arc::new(HostTable::default()),
            dns: None,
            generation: 0,
        };
        assert(out@.rules =~= Seq::empty());
        out
    }
}

/// The next generation; the count starts over behind its largest value.
pub open spec fn next_generation(g: u64) -> u64 {
    if g == u64::MAX {
        0
    } else {
        (g + 1) as u64
    }
}

fn advance(g: u64) -> (out: u64)
    ensures
        out == next_generation(g),
{
    if g == 0xffff_ffff_ffff_ffff {
        0
    } else {
        g + 1
    }
}

/// Sets how targets are resolved. `ready` says whether a connection to the server
/// could be prepared; where it could not, nothing is changed. The system's
/// resolver needs no preparation.
pub fn install_dns(state: &mut HostState, mode: &DnsMode, ready: Result<(), String>) -> (out: Result<
    (),
    String,
>)
    requires
        old(state).wf(),
    ensures
        final(state).wf(),
        match (mode@, ready) {
            (DnsView::System, _) => out is Ok && final(state)@ == (StateView {
                dns: None,
                generation: next_generation(old(state)@.generation),
                ..old(state)@
            }),
            (DnsView::Dot(a), Ok(_)) => out is Ok && final(state)@ == (StateView {
                dns: Some(a),
                generation: next_generation(old(state)@.generation),
                ..old(state)@
            }),
            (DnsView::Dot(_), Err(e)) => out == Err::<(), String>(e) && final(state)@
                == old(state)@,
        },
{
    match mode {
        DnsMode::System => {
            state.dns = None;
        },
        DnsMode::Dot(a) => {
            if let Err(e) = ready {
                return Err(e);
            }
            state.dns = Some(*a);
        },
    }
    state.generation = advance(state.generation);
    Ok(())
}

/// The setting that stands for the way in which targets are resolved.
pub fn dns_setting(state: &HostState) -> (out: Option<String>)
    ensures
        opt_view(out) == match state@.dns {
            Some(a) => described(DnsView::Dot(a)),
            None => None,
        },
{
    match &state.dns {
        Some(a) => describe(&DnsMode::Dot(*a)),
        None => None,
    }
}

pub(crate) fn clone_rules(l: &Vec<HostMapping>) -> (out: Vec<HostMapping>)
    ensures
        rule_views(out@) == rule_views(l@),
{
    let mut out: Vec<HostMapping> = Vec::new();
    let mut i: usize = 0;
    while i < l.len()
        invariant
            i <= l@.len(),
            rule_views(out@) == rule_views(l@).take(i as int),
        decreases l.len() - i,
    {
        let ghost before = out@;
        let r: HostMapping = l[i].clone();
        out.push(r);
        assert(rule_views(out@) =~= rule_views(before).push(r@));
        assert(rule_views(out@) =~= rule_views(l@).take(i + 1));
        i = i + 1;
    }
    assert(rule_views(l@).take(l@.len() as int) =~= rule_views(l@));
    out
}

/// Checks the rules and puts them in force.
pub fn install(state: &mut HostState, rules: &Vec<HostMapping>) -> (out: Result<(), String>)
    requires
        old(state).wf(),
    ensures
        final(state).wf(),
        ({
            let l = rule_views(rules@);
            match table_of(l, l.len() as int) {
                Ok(_) => out is Ok && final(state)@ == (StateView {
                    rules: l,
                    generation: next_generation(old(state)@.generation),
                    ..old(state)@
                }),
                Err(e) => out is Err && (out->Err_0)@ == e && final(state)@ == old(state)@,
            }
        }),
{
    match HostTable::build(rules) {
        Ok(t) => {
            state.table = Arc::new(t);
            state.rules = clone_rules(rules);
            state.generation = advance(state.generation);
            Ok(())
        },
        Err(e) => Err(e),
    }
}

/// Checks the rules.
pub fn validate(rules: &Vec<HostMapping>) -> (out: Result<(), String>)
    ensures
        ({
            let l = rule_views(rules@);
            match table_of(l, l.len() as int) {
                Ok(_) => out is Ok,
                Err(e) => out is Err && (out->Err_0)@ == e,
            }
        }),
{
    match HostTable::build(rules) {
        Ok(_) => Ok(()),
        Err(e) => Err(e),
    }
}

/// Another handle on the same table. Calls `Arc::clone`, which makes a second
/// pointer to the same value.
#[verifier::external_body]
fn share(table: &Arc<HostTable>) -> (out: Arc<HostTable>)
    ensures
        out == *table,
{
    Arc::clone(table)
}

/// The table that is in force for every task.
pub fn global_table(state: &HostState) -> (out: Arc<HostTable>)
    ensures
        out == state.table,
{
    share(&state.table)
}

/// Counts the changes of what is set for every task.
pub fn generation(state: &HostState) -> (out: u64)
    ensures
        out == state@.generation,
{
    state.generation
}

/// Rules that are not of the name `key`.
pub open spec fn others(l: Seq<RuleView>, key: Seq<char>) -> Seq<RuleView>
    decreases l.len(),
{
    if l.len() == 0 {
        Seq::empty()
    } else if normalized(l.last().from) == key {
        others(l.drop_last(), key)
    } else {
        others(l.drop_last(), key).push(l.last())
    }
}

/// The rules of `l` and the first `n` of a task's, each of which takes the place
/// of those of its name.
pub open spec fn merged(l: Seq<RuleView>, task: Seq<RuleView>, n: int) -> Seq<RuleView>
    decreases n,
{
    if n <= 0 {
        l
    } else {
        others(merged(l, task, n - 1), normalized(task[n - 1].from)).push(task[n - 1])
    }
}

/// The rules for a task: those for every task and its own.
pub fn merged_rules(state: &HostState, task_rules: &Vec<HostMapping>) -> (out: Vec<HostMapping>)
    ensures
        rule_views(out@) == merged(
            state@.rules,
            rule_views(task_rules@),
            task_rules@.len() as int,
        ),
{
    let mut out: Vec<HostMapping> = clone_rules(&state.rules);
    let ghost task = rule_views(task_rules@);
    let mut i: usize = 0;
    while i < task_rules.len()
        invariant
            i <= task_rules@.len(),
            task == rule_views(task_rules@),
            rule_views(out@) == merged(state@.rules, task, i as int),
        decreases task_rules.len() - i,
    {
        let key: Vec<char> = normalize_chars(&chars_of(task_rules[i].from.as_str()));
        let mut left: Vec<HostMapping> = Vec::new();
        let ghost all = rule_views(out@);
        let mut j: usize = 0;
        assert(rule_views(left@) =~= others(all.take(0), key@));
        while j < out.len()
            invariant
                j <= out@.len(),
                all == rule_views(out@),
                rule_views(left@) == others(all.take(j as int), key@),
            decreases out.len() - j,
        {
            let ghost before = left@;
            assert(all.take(j + 1).drop_last() =~= all.take(j as int));
            assert(all.take(j + 1).last() == out@[j as int]@);
            if !same_chars(&normalize_chars(&chars_of(out[j].from.as_str())), &key) {
                let r: HostMapping = out[j].clone();
                left.push(r);
                assert(rule_views(left@) =~= rule_views(before).push(r@));
            }
            j = j + 1;
        }
        assert(all.take(all.len() as int) =~= all);
        let ghost before = left@;
        let r: HostMapping = task_rules[i].clone();
        assert(task[i as int] == r@);
        left.push(r);
        assert(rule_views(left@) =~= rule_views(before).push(r@));
        out = left;
        i = i + 1;
    }
    out
}

/// The writes that the key of a list of rules is made of.
pub open spec fn key_writes(l: Seq<RuleView>, n: int) -> Seq<Seq<u8>>
    decreases n,
{
    if n <= 0 {
        Seq::empty()
    } else {
        let r = l[n - 1];
        key_writes(l, n - 1).push(encode_utf8(r.from)).push(seq![255u8]).push(
            encode_utf8(r.to),
        ).push(seq![255u8]).push(
            seq![
                if r.enabled {
                    1u8
                } else {
                    0u8
                },
            ],
        )
    }
}

/// The key of a list of rules.
pub open spec fn key_of(l: Seq<RuleView>) -> u64 {
    DefaultHasher::spec_finish(key_writes(l, l.len() as int))
}

/// A key by which clients are told apart; the same rules in the same order have
/// the same key.
pub fn rules_key(rules: &Vec<HostMapping>) -> (out: u64)
    ensures
        out == key_of(rule_views(rules@)),
{
    let mut h: DefaultHasher = DefaultHasher::new();
    let ghost l = rule_views(rules@);
    let mut i: usize = 0;
    while i < rules.len()
        invariant
            i <= rules@.len(),
            l == rule_views(rules@),
            h@ == key_writes(l, i as int),
        decreases rules.len() - i,
    {
        assert(l[i as int] == rules@[i as int]@);
        let end: [u8; 1] = [255];
        let flag: [u8; 1] = [if rules[i].enabled {
            1
        } else {
            0
        }];
        assert(end@ =~= seq![255u8]);
        assert(flag@ =~= seq![
            if rules@[i as int].enabled {
                1u8
            } else {
                0u8
            },
        ]);
        h.write(rules[i].from.as_str().as_bytes());
        h.write(&end);
        h.write(rules[i].to.as_str().as_bytes());
        h.write(&end);
        h.write(&flag);
        i = i + 1;
    }
    h.finish()
}

/// The mappings of one task, with the key of the rules that they come from.
pub struct Effective {
    pub table: Arc<HostTable>,
    pub key: u64,
}

impl Effective {
    pub fn key(&self) -> (out: u64)
        ensures
            out == self.key,
    {
        self.key
    }

    pub fn is_empty(&self) -> (out: bool)
        ensures
            out == ((*self.table)@ == TableView::empty()),
    {
        self.table.is_empty()
    }

    /// What the mappings make of a URL.
    pub fn route(&self, url: &str) -> (out: Option<Routed>)
        requires
            url@.len() <= URL_LIMIT,
            (*self.table).short(),
        ensures
            (match out {
                Some(r) => Some(r@),
                None => None,
            }) == (*self.table)@.routed(url@),
    {
        self.table.route(url)
    }
}

impl Clone for Effective {
    fn clone(&self) -> (out: Self)
        ensures
            out == *self,
    {
        Effective { table: share(&self.table), key: self.key }
    }
}

/// The mappings that are in force for a task.
pub fn effective_for(state: &HostState, task_rules: &Vec<HostMapping>) -> (out: Result<
    Effective,
    String,
>)
    requires
        state.wf(),
    ensures
        ({
            let l = merged(state@.rules, rule_views(task_rules@), task_rules@.len() as int);
            match table_of(l, l.len() as int) {
                Ok(t) => {
                    &&& out is Ok
                    &&& (*(out->Ok_0).table)@ == t
                    &&& (out->Ok_0).key == key_of(l)
                    &&& task_rules@.len() == 0 ==> (out->Ok_0).table == state.table
                    &&& short_rules(l) ==> (*(out->Ok_0).table).short()
                },
                Err(e) => out is Err && (out->Err_0)@ == e,
            }
        }),
{
    let all: Vec<HostMapping> = merged_rules(state, task_rules);
    let table: Arc<HostTable> = if task_rules.len() == 0 {
        share(&state.table)
    } else {
        match HostTable::build(&all) {
            Ok(t) => Arc::new(t),
            Err(e) => {
                return Err(e);
            },
        }
    };
    Ok(Effective { key: rules_key(&all), table })
}

/// The variables that name a proxy, in the order in which they are asked for.
pub open spec fn proxy_names() -> Seq<Seq<char>> {
    seq![
        "ALL_PROXY"@,
        "all_proxy"@,
        "HTTP_PROXY"@,
        "http_proxy"@,
        "HTTPS_PROXY"@,
        "https_proxy"@,
    ]
}

/// The first proxy variable, from the `i`th on, that is set.
pub open spec fn first_proxy(set: Seq<bool>, i: int) -> Option<Seq<char>>
    decreases 6 - i,
{
    if i < 0 || i >= 6 || i >= set.len() {
        None
    } else if set[i] {
        Some(proxy_names()[i])
    } else {
        first_proxy(set, i + 1)
    }
}

/// The variable that names the proxy in use. `no_proxy` is the value of
/// `NO_PROXY`, which switches all proxies off with a star; `set` says which of
/// the proxy variables are set.
pub fn proxy_env(no_proxy: &str, set: &[bool; 6]) -> (out: Option<String>)
    ensures
        opt_view(out) == if trimmed(no_proxy@) == seq!['*'] {
            None
        } else {
            first_proxy(set@, 0)
        },
{
    let star: Vec<char> = vec!['*'];
    assert(star@ =~= seq!['*']);
    if same_chars(&trim_chars(&chars_of(no_proxy)), &star) {
        return None;
    }
    reveal_with_fuel(first_proxy, 8);
    if set[0] {
        Some("ALL_PROXY".to_owned())
    } else if set[1] {
        Some("all_proxy".to_owned())
    } else if set[2] {
        Some("HTTP_PROXY".to_owned())
    } else if set[3] {
        Some("http_proxy".to_owned())
    } else if set[4] {
        Some("HTTPS_PROXY".to_owned())
    } else if set[5] {
        Some("https_proxy".to_owned())
    } else {
        None
    }
}

/// How the address of a host is found.
pub enum Lookup {
    /// It is known.
    Known(IpAddress, u16),
    /// A rule names this host, whose address is asked for.
    Target(String, u16),
    /// No rule is in force; the system is asked for the host itself.
    System(String),
}

#[verifier::ext_equal]
pub ghost enum LookupView {
    Known(IpView, u16),
    Target(Seq<char>, u16),
    System(Seq<char>),
}

impl View for Lookup {
    type V = LookupView;

    open spec fn view(&self) -> LookupView {
        match self {
            Lookup::Known(a, p) => LookupView::Known(a@, *p),
            Lookup::Target(h, p) => LookupView::Target(h@, *p),
            Lookup::System(h) => LookupView::System(h@),
        }
    }
}

impl TableView {
    /// How a host is resolved when a connection is made.
    pub open spec fn resolution(self, host: Seq<char>) -> LookupView {
        match self.found(host) {
            Some(TargetView::Ip(ip, port)) => LookupView::Known(ip, port),
            Some(TargetView::Host(h, port)) => LookupView::Target(h, port),
            None => LookupView::System(host),
        }
    }

    /// How a host is resolved for the diagnosis: ports do not matter, and an
    /// address stands for itself.
    pub open spec fn trial(self, bare: Seq<char>) -> LookupView {
        match (self.resolution(bare), ip_of(bare)) {
            (LookupView::Known(ip, _), _) => LookupView::Known(ip, 0),
            (LookupView::Target(h, _), _) => LookupView::Target(h, 0),
            (LookupView::System(_), Some(ip)) => LookupView::Known(ip, 0),
            (LookupView::System(h), None) => LookupView::System(h),
        }
    }
}

/// How the resolver of a connection finds the address of a host.
pub fn resolve(table: &HostTable, host: &str) -> (out: Lookup)
    ensures
        out@ == table@.resolution(host@),
{
    match table.lookup(host) {
        Some(Target::Ip(ip, port)) => Lookup::Known(ip, port),
        Some(Target::Host(h, port)) => Lookup::Target(h, port),
        None => Lookup::System(host.to_owned()),
    }
}

/// The diagnosis of a host.
#[derive(Debug)]
pub struct Diagnosis {
    pub host: String,
    /// What the host is mapped to; nothing where no rule is in force.
    pub mapped_to: Option<String>,
    /// The addresses that came out in the end.
    pub addresses: Vec<String>,
    pub error: Option<String>,
    /// The variable that names a proxy.
    pub proxy_env: Option<String>,
    /// Who resolved it: `system`, or the name server.
    pub resolver: String,
}

/// The host that a diagnosis is about.
pub open spec fn diagnosed_host(host: Seq<char>) -> Seq<char> {
    unbracketed(trimmed(host))
}

/// What a diagnosis has to ask.
pub fn diagnose_lookup(table: &HostTable, host: &str) -> (out: Lookup)
    ensures
        out@ == table@.trial(diagnosed_host(host@)),
{
    let bare: String = bare_host(trim(host).as_str());
    match resolve(table, bare.as_str()) {
        Lookup::Known(ip, _) => Lookup::Known(ip, 0),
        Lookup::Target(h, _) => Lookup::Target(h, 0),
        Lookup::System(h) => match parse_ip(&chars_of(bare.as_str())) {
            Some(ip) => Lookup::Known(ip, 0),
            None => Lookup::System(h),
        },
    }
}

/// The texts of addresses.
pub open spec fn ip_texts(l: Seq<IpAddress>) -> Seq<Seq<char>> {
    l.map_values(|a: IpAddress| ip_text(a@))
}

/// Puts a diagnosis together from what the lookup gave.
pub fn diagnose(
    table: &HostTable,
    host: &str,
    found: Result<Vec<IpAddress>, String>,
    proxy_env: Option<String>,
    dns_setting: Option<String>,
) -> (out: Diagnosis)
    ensures
        out.host@ == diagnosed_host(host@),
        opt_view(out.mapped_to) == match table@.found(unbracketed(diagnosed_host(host@))) {
            Some(t) => Some(shown_target(t)),
            None => None,
        },
        match found {
            Ok(l) => crate::text::views(out.addresses@) == ip_texts(l@) && out.error is None,
            Err(e) => out.addresses@.len() == 0 && opt_view(out.error) == Some(e@),
        },
        out.proxy_env == proxy_env,
        out.resolver@ == (if dns_setting is Some && table@.found(diagnosed_host(host@)) matches Some(
            TargetView::Host(_, _),
        ) {
            (dns_setting->0)@
        } else {
            "system"@
        }),
{
    let bare: String = bare_host(trim(host).as_str());
    let mapped_to: Option<String> = table.explain(bare.as_str());
    let mut addresses: Vec<String> = Vec::new();
    let mut error: Option<String> = None;
    match found {
        Ok(l) => {
            let mut i: usize = 0;
            while i < l.len()
                invariant
                    i <= l@.len(),
                    addresses@.len() == i,
                    forall|k: int| 0 <= k < i ==> (#[trigger] addresses@[k])@ == ip_text(l@[k]@),
                decreases l.len() - i,
            {
                addresses.push(string_of(&ip_chars(&l[i])));
                i = i + 1;
            }
            assert(crate::text::views(addresses@) =~= ip_texts(l@));
        },
        Err(e) => {
            error = Some(e);
        },
    }
    let asked: bool = matches!(table.lookup(bare.as_str()), Some(Target::Host(_, _)));
    let resolver: String = match dns_setting {
        Some(d) => if asked {
            d
        } else {
            "system".to_owned()
        },
        None => "system".to_owned(),
    };
    Diagnosis { host: bare, mapped_to, addresses, error, proxy_env, resolver }
}

/// A mapping changes where a request goes and not whom the far side takes it to be
/// for: a URL that names a domain is left as it is, and one that names an address
/// is sent with that address as its host.
pub proof fn law_the_far_side_sees_the_same_host(t: TableView, url: Seq<char>)
    requires
        t.routed(url) is Some,
    ensures
        url_parts(url) is Some,
        (url_parts(url)->0).host is Some,
        ({
            let parts = url_parts(url)->0;
            let host = parts.host->0;
            let r = t.routed(url)->0;
            if ip_of(unbracketed(host)) is None {
                r.url == url && r.host_header is None
            } else {
                r.host_header == Some(
                    match parts.port {
                        Some(p) => host + (seq![':'] + decimal(p as nat)),
                        None => host,
                    },
                )
            }
        }),
{
}

/// A URL that names a domain is routed exactly where a rule is found for the domain;
/// one without a host never is.
pub proof fn law_a_domain_is_routed_iff_it_is_found(t: TableView, url: Seq<char>)
    ensures
        match url_parts(url) {
            Some(parts) => match parts.host {
                Some(host) => ip_of(unbracketed(host)) is None ==> (t.routed(url) is Some
                    <==> t.found(unbracketed(host)) is Some),
                None => t.routed(url) is None,
            },
            None => t.routed(url) is None,
        },
{
}

/// Without rules nothing is routed.
pub proof fn law_without_rules_nothing_is_routed(url: Seq<char>)
    ensures
        TableView::empty().routed(url) is None,
{
    if let Some(parts) = url_parts(url) {
        if let Some(host) = parts.host {
            let h = normalized(unbracketed(host));
            lemma_no_tail(h, 1);
        }
    }
}

proof fn lemma_no_tail(host: Seq<char>, k: int)
    requires
        0 <= k,
    ensures
        longest_tail(Map::empty(), host, k) is None,
    decreases host.len() - k,
{
    if k < host.len() {
        lemma_no_tail(host, k + 1);
    }
}

/// Of the rules of one host the last that is switched on counts, whatever the
/// others say.
pub proof fn law_the_last_rule_of_a_name_wins(rules: Seq<RuleView>, i: int, host: Seq<char>)
    requires
        0 <= i < rules.len(),
        table_of(rules, rules.len() as int) is Ok,
        rules[i].enabled,
        source_of(rules[i].from) == Ok::<Seq<char>, Seq<char>>(normalized(host)),
        !is_wild(normalized(host)),
        forall|j: int|
            i < j < rules.len() && (#[trigger] rules[j]).enabled ==> source_of(rules[j].from)
                != source_of(rules[i].from),
    ensures
        (table_of(rules, rules.len() as int)->Ok_0).found(host) == Some(
            target_of(rules[i].to)->Ok_0,
        ),
        target_of(rules[i].to) is Ok,
{
    lemma_table_prefix(rules, i + 1, rules.len() as int);
    lemma_later_rules_leave_exact(rules, i + 1, rules.len() as int, normalized(host));
}

proof fn lemma_table_prefix(rules: Seq<RuleView>, i: int, n: int)
    requires
        0 <= i <= n,
        table_of(rules, n) is Ok,
    ensures
        table_of(rules, i) is Ok,
    decreases n - i,
{
    if i < n {
        lemma_table_prefix(rules, i, n - 1);
    }
}

proof fn lemma_later_rules_leave_exact(rules: Seq<RuleView>, i: int, n: int, name: Seq<char>)
    requires
        0 <= i <= n,
        table_of(rules, n) is Ok,
        forall|j: int|
            i <= j < n && (#[trigger] rules[j]).enabled ==> source_of(rules[j].from) != Ok::<
                Seq<char>,
                Seq<char>,
            >(name),
    ensures
        table_of(rules, i) is Ok,
        (table_of(rules, i)->Ok_0).exact.contains_key(name) == (table_of(
            rules,
            n,
        )->Ok_0).exact.contains_key(name),
        (table_of(rules, i)->Ok_0).exact.contains_key(name) ==> (table_of(
            rules,
            i,
        )->Ok_0).exact[name] == (table_of(rules, n)->Ok_0).exact[name],
    decreases n - i,
{
    if i < n {
        lemma_later_rules_leave_exact(rules, i, n - 1, name);
        assert(rules[n - 1].enabled ==> source_of(rules[n - 1].from) != Ok::<Seq<char>, Seq<char>>(
            name,
        ));
    }
}

/// A rule for a host itself wins over every wildcard, and among wildcards the one
/// of the longest domain wins. A wildcard does not name the bare domain.
pub proof fn law_the_longest_domain_wins(t: TableView, host: Seq<char>, k: int)
    requires
        0 <= k < normalized(host).len(),
        t.wild.contains_key(normalized(host).skip(k)),
        forall|j: int|
            1 <= j < k ==> !t.wild.contains_key(#[trigger] normalized(host).skip(j)),
    ensures
        t.exact.contains_key(normalized(host)) ==> t.found(host) == Some(t.exact[normalized(host)]),
        !t.exact.contains_key(normalized(host)) && k >= 1 ==> t.found(host) == Some(
            t.wild[normalized(host).skip(k)],
        ),
{
    if k >= 1 {
        lemma_longest_tail(t.wild, normalized(host), 1, k);
    }
}

proof fn lemma_longest_tail(wild: Map<Seq<char>, TargetView>, host: Seq<char>, i: int, k: int)
    requires
        1 <= i <= k < host.len(),
        wild.contains_key(host.skip(k)),
        forall|j: int| i <= j < k ==> !wild.contains_key(#[trigger] host.skip(j)),
    ensures
        longest_tail(wild, host, i) == Some(wild[host.skip(k)]),
    decreases k - i,
{
    if i < k {
        assert(!wild.contains_key(host.skip(i)));
        lemma_longest_tail(wild, host, i + 1, k);
    }
}

/// A host is found whatever its case.
pub proof fn law_case_does_not_count(t: TableView, host: Seq<char>)
    ensures
        t.found(lowered(host)) == t.found(host),
{
    lemma_lowered_trimmed(host);
    lemma_lowered_undotted(trimmed(host));
    let s = without_back(trimmed(host), '.');
    assert(lowered(lowered(s)) =~= lowered(s));
}

proof fn lemma_lowered_trimmed(s: Seq<char>)
    ensures
        trimmed(lowered(s)) == lowered(trimmed(s)),
{
    lemma_lowered_front(s);
    lemma_lowered_back(crate::text::trim_front(s));
}

proof fn lemma_lowered_front(s: Seq<char>)
    ensures
        crate::text::trim_front(lowered(s)) == lowered(crate::text::trim_front(s)),
    decreases s.len(),
{
    if s.len() > 0 {
        assert(lowered(s).drop_first() =~= lowered(s.drop_first()));
        lemma_lowered_front(s.drop_first());
    }
}

proof fn lemma_lowered_back(s: Seq<char>)
    ensures
        crate::text::trim_back(lowered(s)) == lowered(crate::text::trim_back(s)),
    decreases s.len(),
{
    if s.len() > 0 {
        assert(lowered(s).drop_last() =~= lowered(s.drop_last()));
        lemma_lowered_back(s.drop_last());
    }
}

proof fn lemma_lowered_undotted(s: Seq<char>)
    ensures
        without_back(lowered(s), '.') == lowered(without_back(s, '.')),
    decreases s.len(),
{
    if s.len() > 0 {
        assert(lowered(s).drop_last() =~= lowered(s.drop_last()));
        lemma_lowered_undotted(s.drop_last());
    }
}

/// A task's rule takes the place of every rule of its name, and rules that the
/// task does not name stay.
pub proof fn law_a_tasks_rules_win(global: Seq<RuleView>, task: Seq<RuleView>, r: RuleView)
    ensures
        merged(global, task, task.len() as int).contains(r) <==> ((exists|i: int|
            0 <= i < task.len() && #[trigger] task[i] == r && forall|j: int|
                i < j < task.len() ==> normalized((#[trigger] task[j]).from) != normalized(r.from))
            || (global.contains(r) && forall|j: int|
            0 <= j < task.len() ==> normalized((#[trigger] task[j]).from) != normalized(r.from))),
{
    lemma_merged(global, task, task.len() as int, r);
}

proof fn lemma_merged(global: Seq<RuleView>, task: Seq<RuleView>, n: int, r: RuleView)
    requires
        0 <= n <= task.len(),
    ensures
        merged(global, task, n).contains(r) <==> ((exists|i: int|
            0 <= i < n && #[trigger] task[i] == r && forall|j: int|
                i < j < n ==> normalized((#[trigger] task[j]).from) != normalized(r.from)) || (
        global.contains(r) && forall|j: int|
            0 <= j < n ==> normalized((#[trigger] task[j]).from) != normalized(r.from))),
    decreases n,
{
    if n > 0 {
        lemma_merged(global, task, n - 1, r);
        let m = merged(global, task, n - 1);
        let last = task[n - 1];
        let key = normalized(last.from);
        lemma_others(m, key, r);
        let kept = others(m, key);
        assert(merged(global, task, n) == kept.push(last));
        assert(kept.push(last).contains(r) <==> kept.contains(r) || r == last) by {
            if r == last {
                assert(kept.push(last)[kept.len() as int] == r);
            }
            if kept.contains(r) {
                let k = choose|k: int| 0 <= k < kept.len() && kept[k] == r;
                assert(kept.push(last)[k] == r);
            }
        }
        if r == last {
            assert(task[n - 1] == r);
        }
        if exists|i: int|
            0 <= i < n && #[trigger] task[i] == r && forall|j: int|
                i < j < n ==> normalized((#[trigger] task[j]).from) != normalized(r.from) {
            let i = choose|i: int|
                0 <= i < n && #[trigger] task[i] == r && forall|j: int|
                    i < j < n ==> normalized((#[trigger] task[j]).from) != normalized(r.from);
            if i < n - 1 {
                assert(normalized(task[n - 1].from) != normalized(r.from));
            }
        }
    }
}

proof fn lemma_others(l: Seq<RuleView>, key: Seq<char>, r: RuleView)
    ensures
        others(l, key).contains(r) <==> l.contains(r) && normalized(r.from) != key,
    decreases l.len(),
{
    if l.len() > 0 {
        let m = l.drop_last();
        lemma_others(m, key, r);
        let kept = others(m, key);
        assert(l.contains(r) <==> m.contains(r) || r == l.last()) by {
            if r == l.last() {
                assert(l[l.len() - 1] == r);
            }
            if m.contains(r) {
                let k = choose|k: int| 0 <= k < m.len() && m[k] == r;
                assert(l[k] == r);
            }
            if l.contains(r) && r != l.last() {
                let k = choose|k: int| 0 <= k < l.len() && l[k] == r;
                assert(m[k] == r);
            }
        }
        if normalized(l.last().from) != key {
            assert(kept.push(l.last()).contains(r) <==> kept.contains(r) || r == l.last()) by {
                if r == l.last() {
                    assert(kept.push(l.last())[kept.len() as int] == r);
                }
                if kept.contains(r) {
                    let k = choose|k: int| 0 <= k < kept.len() && kept[k] == r;
                    assert(kept.push(l.last())[k] == r);
                }
            }
        }
    }
}

/// A rule that is switched off changes nothing.
pub proof fn law_a_rule_that_is_off_does_nothing(rules: Seq<RuleView>, n: int)
    requires
        0 < n <= rules.len(),
        !rules[n - 1].enabled,
    ensures
        table_of(rules, n) == table_of(rules, n - 1),
{
}

} // verus!
