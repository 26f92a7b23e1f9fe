//! Internet addresses as text.

use crate::text::{
    all_digits, decimal, decimal_chars, digit, digits_value, find_char, find_part, index_from,
    number, parse_number, part_from, slice_of, split_chars, split_on, stands_at,
};
use vstd::prelude::*;

verus! {

/// An address of either family.
#[derive(Debug, Clone, Copy, PartialEq, Eq)]
pub enum IpAddress {
    V4([u8; 4]),
    V6([u16; 8]),
}

#[verifier::ext_equal]
pub ghost enum IpView {
    V4(Seq<u8>),
    V6(Seq<u16>),
}

impl View for IpAddress {
    type V = IpView;

    open spec fn view(&self) -> IpView {
        match self {
            IpAddress::V4(a) => IpView::V4(a@),
            IpAddress::V6(a) => IpView::V6(a@),
        }
    }
}

/// An address with a port. The scope is that of an IPv6 address, else 0.
#[derive(Debug, Clone, Copy, PartialEq, Eq)]
pub struct SocketAddress {
    pub ip: IpAddress,
    pub port: u16,
    pub scope: u32,
}

#[verifier::ext_equal]
pub ghost struct SocketView {
    pub ip: IpView,
    pub port: u16,
    pub scope: u32,
}

impl View for SocketAddress {
    type V = SocketView;

    open spec fn view(&self) -> SocketView {
        SocketView { ip: self.ip@, port: self.port, scope: self.scope }
    }
}

impl IpView {
    /// The number of parts is that of the family.
    pub open spec fn wf(self) -> bool {
        match self {
            IpView::V4(a) => a.len() == 4,
            IpView::V6(a) => a.len() == 8,
        }
    }
}

/// One part of an IPv4 address: one to three digits, no zero in front of another
/// digit, at most 255.
pub open spec fn octet(s: Seq<char>) -> Option<u8> {
    if 1 <= s.len() <= 3 && all_digits(s) && (s.len() == 1 || s[0] != '0') && digits_value(s) <= 255 {
        Some(digits_value(s) as u8)
    } else {
        None
    }
}

/// Four parts between dots.
pub open spec fn v4_of(s: Seq<char>) -> Option<Seq<u8>> {
    let p = split_on(s, '.');
    if p.len() == 4 && octet(p[0]) is Some && octet(p[1]) is Some && octet(p[2]) is Some && octet(
        p[3],
    ) is Some {
        Some(seq![octet(p[0])->0, octet(p[1])->0, octet(p[2])->0, octet(p[3])->0])
    } else {
        None
    }
}

/// The value of a hexadecimal digit.
pub open spec fn hexit(c: char) -> Option<int> {
    if digit(c) {
        Some(c as u32 - '0' as u32)
    } else if 'a' <= c <= 'f' {
        Some(c as u32 - 'a' as u32 + 10)
    } else if 'A' <= c <= 'F' {
        Some(c as u32 - 'A' as u32 + 10)
    } else {
        None
    }
}

pub open spec fn all_hexits(s: Seq<char>) -> bool {
    forall|i: int| 0 <= i < s.len() ==> hexit(#[trigger] s[i]) is Some
}

/// The value of a string of hexadecimal digits.
pub open spec fn hexits_value(s: Seq<char>) -> int
    decreases s.len(),
{
    if s.len() == 0 {
        0
    } else {
        hexits_value(s.drop_last()) * 16 + hexit(s.last())->0
    }
}

/// One group of an IPv6 address: one to four hexadecimal digits.
pub open spec fn group(s: Seq<char>) -> Option<u16> {
    if 1 <= s.len() <= 4 && all_hexits(s) {
        Some(hexits_value(s) as u16)
    } else {
        None
    }
}

/// The groups that stand between colons from part `i` on. The last part may be an
/// IPv4 address, which makes two groups, where `dotted` allows it.
pub open spec fn groups_in(p: Seq<Seq<char>>, i: int, dotted: bool) -> Option<Seq<u16>>
    decreases p.len() - i,
{
    if i < 0 || i >= p.len() {
        Some(Seq::empty())
    } else if dotted && i + 1 == p.len() && v4_of(p[i]) is Some {
        let a = v4_of(p[i])->0;
        Some(seq![(a[0] * 256 + a[1]) as u16, (a[2] * 256 + a[3]) as u16])
    } else {
        match (group(p[i]), groups_in(p, i + 1, dotted)) {
            (Some(g), Some(rest)) => Some(seq![g] + rest),
            _ => None,
        }
    }
}

/// The groups of one side of a double colon, or of an address without one.
pub open spec fn groups_of(s: Seq<char>, dotted: bool) -> Option<Seq<u16>> {
    if s.len() == 0 {
        Some(Seq::empty())
    } else {
        groups_in(split_on(s, ':'), 0, dotted)
    }
}

pub open spec fn double_colon() -> Seq<char> {
    seq![':', ':']
}

pub open spec fn zeros(n: int) -> Seq<u16> {
    Seq::new(n as nat, |i: int| 0u16)
}

/// Eight groups, or fewer with a double colon in place of the missing ones, which
/// are zero.
pub open spec fn v6_of(s: Seq<char>) -> Option<Seq<u16>> {
    match part_from(s, double_colon(), 0) {
        None => match groups_of(s, true) {
            Some(g) if g.len() == 8 => Some(g),
            _ => None,
        },
        Some(k) => match (groups_of(s.take(k), false), groups_of(s.skip(k + 2), true)) {
            (Some(head), Some(tail)) if head.len() + tail.len() <= 7 => Some(
                head + zeros(8 - head.len() - tail.len()) + tail,
            ),
            _ => None,
        },
    }
}

/// The address that `s` spells.
pub open spec fn ip_of(s: Seq<char>) -> Option<IpView> {
    match (v4_of(s), v6_of(s)) {
        (Some(a), _) => Some(IpView::V4(a)),
        (None, Some(a)) => Some(IpView::V6(a)),
        _ => None,
    }
}

/// Digits alone, at least one, of a value of at most `max`.
pub open spec fn digits_upto(s: Seq<char>, max: int) -> Option<int> {
    if s.len() > 0 && all_digits(s) && digits_value(s) <= max {
        Some(digits_value(s))
    } else {
        None
    }
}

/// What stands between the brackets: an IPv6 address, and behind a percent sign
/// its scope.
pub open spec fn scoped_of(s: Seq<char>) -> Option<(Seq<u16>, u32)> {
    match index_from(s, '%', 0) {
        None => match v6_of(s) {
            Some(a) => Some((a, 0u32)),
            None => None,
        },
        Some(k) => match (v6_of(s.take(k)), digits_upto(s.skip(k + 1), u32::MAX as int)) {
            (Some(a), Some(n)) => Some((a, n as u32)),
            _ => None,
        },
    }
}

/// An address and a port: `1.2.3.4:80`, `[::1]:80`, `[fe80::1%2]:80`.
pub open spec fn socket_of(s: Seq<char>) -> Option<SocketView> {
    if s.len() > 0 && s[0] == '[' {
        match index_from(s, ']', 0) {
            Some(k) => if k + 1 < s.len() && s[k + 1] == ':' {
                match (scoped_of(s.subrange(1, k)), digits_upto(s.skip(k + 2), u16::MAX as int)) {
                    (Some(a), Some(n)) => Some(
                        SocketView { ip: IpView::V6(a.0), port: n as u16, scope: a.1 },
                    ),
                    _ => None,
                }
            } else {
                None
            },
            None => None,
        }
    } else {
        match index_from(s, ':', 0) {
            Some(k) => match (v4_of(s.take(k)), digits_upto(s.skip(k + 1), u16::MAX as int)) {
                (Some(a), Some(n)) => Some(
                    SocketView { ip: IpView::V4(a), port: n as u16, scope: 0 },
                ),
                _ => None,
            },
            None => None,
        }
    }
}

fn is_digit(c: char) -> (out: bool)
    ensures
        out == digit(c),
{
    '0' <= c && c <= '9'
}

/// Reads digits alone.
pub fn parse_digits(s: &[char], max: u64) -> (out: Option<u64>)
    ensures
        match out {
            Some(n) => digits_upto(s@, max as int) == Some(n as int),
            None => digits_upto(s@, max as int) is None,
        },
{
    if s.len() == 0 || !is_digit(s[0]) {
        return None;
    }
    parse_number(s, max)
}

fn parse_octet(s: &[char]) -> (out: Option<u8>)
    ensures
        out == octet(s@),
{
    if s.len() < 1 || s.len() > 3 || (s.len() > 1 && s[0] == '0') {
        return None;
    }
    match parse_digits(s, 255) {
        Some(n) => Some(n as u8),
        None => None,
    }
}

/// Reads an IPv4 address.
pub fn parse_v4(s: &[char]) -> (out: Option<[u8; 4]>)
    ensures
        match out {
            Some(a) => v4_of(s@) == Some(a@),
            None => v4_of(s@) is None,
        },
{
    let p: Vec<Vec<char>> = split_chars(s, '.');
    let ghost q = p@.map_values(|v: Vec<char>| v@);
    if p.len() != 4 {
        return None;
    }
    proof {
        assert forall|i: int| 0 <= i < 4 implies #[trigger] q[i] == p@[i]@ by {}
    }
    match (parse_octet(&p[0]), parse_octet(&p[1]), parse_octet(&p[2]), parse_octet(&p[3])) {
        (Some(a), Some(b), Some(c), Some(d)) => {
            let out: [u8; 4] = [a, b, c, d];
            assert(out@ =~= seq![a, b, c, d]);
            Some(out)
        },
        _ => None,
    }
}

fn hex_digit_value(c: char) -> (out: Option<u16>)
    ensures
        match out {
            Some(v) => hexit(c) == Some(v as int) && v < 16,
            None => hexit(c) is None,
        },
{
    if '0' <= c && c <= '9' {
        Some((c as u32 - '0' as u32) as u16)
    } else if 'a' <= c && c <= 'f' {
        Some((c as u32 - 'a' as u32 + 10) as u16)
    } else if 'A' <= c && c <= 'F' {
        Some((c as u32 - 'A' as u32 + 10) as u16)
    } else {
        None
    }
}

fn parse_group(s: &[char]) -> (out: Option<u16>)
    ensures
        out == group(s@),
{
    let n: usize = s.len();
    if n < 1 || n > 4 {
        return None;
    }
    let mut value: u32 = 0;
    let mut i: usize = 0;
    let mut room: u32 = 1;
    while i < n
        invariant
            i <= n == s@.len(),
            n <= 4,
            value == hexits_value(s@.take(i as int)),
            value < room,
            room == (if i == 0 {
                1int
            } else if i == 1 {
                16
            } else if i == 2 {
                256
            } else if i == 3 {
                4096
            } else {
                65536
            }),
            forall|k: int| 0 <= k < i ==> hexit(#[trigger] s@[k]) is Some,
        decreases n - i,
    {
        proof {
            assert(s@.take(i + 1).drop_last() =~= s@.take(i as int));
        }
        match hex_digit_value(s[i]) {
            Some(v) => {
                value = value * 16 + v as u32;
                room = room * 16;
            },
            None => {
                assert(hexit(s@[i as int]) is None);
                return None;
            },
        }
        i = i + 1;
    }
    assert(s@.take(n as int) =~= s@);
    Some(value as u16)
}

/// Reads the groups between colons.
fn parse_groups(s: &[char], dotted: bool) -> (out: Option<Vec<u16>>)
    ensures
        match out {
            Some(g) => groups_of(s@, dotted) == Some(g@),
            None => groups_of(s@, dotted) is None,
        },
{
    let mut out: Vec<u16> = Vec::new();
    if s.len() == 0 {
        assert(out@ =~= Seq::empty());
        return Some(out);
    }
    let p: Vec<Vec<char>> = split_chars(s, ':');
    let ghost q = p@.map_values(|v: Vec<char>| v@);
    let mut i: usize = 0;
    while i < p.len()
        invariant
            i <= p@.len(),
            s@.len() > 0,
            q == p@.map_values(|v: Vec<char>| v@),
            q == split_on(s@, ':'),
            match groups_in(q, i as int, dotted) {
                Some(rest) => groups_of(s@, dotted) == Some(out@ + rest),
                None => groups_of(s@, dotted) is None,
            },
        decreases p.len() - i,
    {
        assert(q[i as int] == p@[i as int]@);
        if dotted && i + 1 == p.len() {
            if let Some(a) = parse_v4(&p[i]) {
                let hi: u16 = a[0] as u16 * 256 + a[1] as u16;
                let lo: u16 = a[2] as u16 * 256 + a[3] as u16;
                let ghost before = out@;
                out.push(hi);
                out.push(lo);
                assert(out@ =~= before + seq![hi, lo]);
                return Some(out);
            }
        }
        match parse_group(&p[i]) {
            Some(g) => {
                let ghost before = out@;
                out.push(g);
                proof {
                    if let Some(rest) = groups_in(q, i + 1, dotted) {
                        assert(before + (seq![g] + rest) =~= out@ + rest);
                    }
                }
            },
            None => {
                return None;
            },
        }
        i = i + 1;
    }
    assert(out@ + Seq::<u16>::empty() =~= out@);
    Some(out)
}

fn as_groups(g: &Vec<u16>) -> (out: [u16; 8])
    requires
        g@.len() == 8,
    ensures
        out@ == g@,
{
    let out: [u16; 8] = [g[0], g[1], g[2], g[3], g[4], g[5], g[6], g[7]];
    assert(out@ =~= g@);
    out
}

/// Reads an IPv6 address.
pub fn parse_v6(s: &[char]) -> (out: Option<[u16; 8]>)
    ensures
        match out {
            Some(a) => v6_of(s@) == Some(a@),
            None => v6_of(s@) is None,
        },
{
    let mark: Vec<char> = vec![':', ':'];
    assert(mark@ =~= double_colon());
    match find_part(s, &mark, 0) {
        None => match parse_groups(s, true) {
            Some(g) => {
                if g.len() == 8 {
                    Some(as_groups(&g))
                } else {
                    None
                }
            },
            None => None,
        },
        Some(k) => {
            let n: usize = s.len();
            let before: Vec<char> = slice_of(s, 0, k);
            let behind: Vec<char> = slice_of(s, k + 2, n);
            assert(before@ =~= s@.take(k as int));
            assert(behind@ =~= s@.skip(k + 2));
            match (parse_groups(&before, false), parse_groups(&behind, true)) {
                (Some(head), Some(tail)) => {
                    if head.len() > 7 || tail.len() > 7 - head.len() {
                        return None;
                    }
                    let mut all: Vec<u16> = Vec::new();
                    let fill: usize = 8 - head.len() - tail.len();
                    let mut i: usize = 0;
                    let ghost want = head@ + zeros(fill as int) + tail@;
                    assert(want.len() == 8);
                    while i < 8
                        invariant
                            i <= 8,
                            fill == 8 - head@.len() - tail@.len(),
                            head@.len() + tail@.len() <= 7,
                            want == head@ + zeros(fill as int) + tail@,
                            want.len() == 8,
                            all@ == want.take(i as int),
                        decreases 8 - i,
                    {
                        let v: u16 = if i < head.len() {
                            head[i]
                        } else if i < head.len() + fill {
                            0
                        } else {
                            tail[i - head.len() - fill]
                        };
                        all.push(v);
                        proof {
                            assert(v == want[i as int]);
                            assert(want.take(i as int).push(v) =~= want.take(i + 1));
                        }
                        i = i + 1;
                    }
                    assert(want.take(8) =~= want);
                    Some(as_groups(&all))
                },
                _ => None,
            }
        },
    }
}

/// Reads an address of either family.
pub fn parse_ip(s: &[char]) -> (out: Option<IpAddress>)
    ensures
        match out {
            Some(a) => ip_of(s@) == Some(a@),
            None => ip_of(s@) is None,
        },
{
    match parse_v4(s) {
        Some(a) => Some(IpAddress::V4(a)),
        None => match parse_v6(s) {
            Some(a) => Some(IpAddress::V6(a)),
            None => None,
        },
    }
}

fn parse_scoped(s: &[char]) -> (out: Option<([u16; 8], u32)>)
    ensures
        match out {
            Some(a) => scoped_of(s@) == Some((a.0@, a.1)),
            None => scoped_of(s@) is None,
        },
{
    match find_char(s, '%', 0) {
        None => match parse_v6(s) {
            Some(a) => Some((a, 0)),
            None => None,
        },
        Some(k) => {
            let n: usize = s.len();
            let before: Vec<char> = slice_of(s, 0, k);
            let behind: Vec<char> = slice_of(s, k + 1, n);
            assert(before@ =~= s@.take(k as int));
            assert(behind@ =~= s@.skip(k + 1));
            match (parse_v6(&before), parse_digits(&behind, 0xffff_ffff)) {
                (Some(a), Some(n)) => Some((a, n as u32)),
                _ => None,
            }
        },
    }
}

/// Reads an address with its port.
pub fn parse_socket(s: &[char]) -> (out: Option<SocketAddress>)
    ensures
        match out {
            Some(a) => socket_of(s@) == Some(a@),
            None => socket_of(s@) is None,
        },
{
    let n: usize = s.len();
    if n > 0 && s[0] == '[' {
        match find_char(s, ']', 0) {
            Some(k) => {
                if k + 1 < n && s[k + 1] == ':' {
                    let inside: Vec<char> = slice_of(s, 1, k);
                    let behind: Vec<char> = slice_of(s, k + 2, n);
                    assert(behind@ =~= s@.skip(k + 2));
                    match (parse_scoped(&inside), parse_digits(&behind, 65535)) {
                        (Some(a), Some(p)) => Some(
                            SocketAddress { ip: IpAddress::V6(a.0), port: p as u16, scope: a.1 },
                        ),
                        _ => None,
                    }
                } else {
                    None
                }
            },
            None => None,
        }
    } else {
        match find_char(s, ':', 0) {
            Some(k) => {
                let before: Vec<char> = slice_of(s, 0, k);
                let behind: Vec<char> = slice_of(s, k + 1, n);
                assert(before@ =~= s@.take(k as int));
                assert(behind@ =~= s@.skip(k + 1));
                match (parse_v4(&before), parse_digits(&behind, 65535)) {
                    (Some(a), Some(p)) => Some(
                        SocketAddress { ip: IpAddress::V4(a), port: p as u16, scope: 0 },
                    ),
                    _ => None,
                }
            },
            None => None,
        }
    }
}

/// The digits of `n` in base sixteen.
pub open spec fn hex_text(n: nat) -> Seq<char>
    decreases n,
{
    if n < 16 {
        seq![crate::codec::hex_digit(n as int)]
    } else {
        hex_text(n / 16).push(crate::codec::hex_digit((n % 16) as int))
    }
}

/// The four parts between dots.
pub open spec fn v4_text(a: Seq<u8>) -> Seq<char> {
    decimal(a[0] as nat) + (seq!['.'] + (decimal(a[1] as nat) + (seq!['.'] + (decimal(a[2] as nat) + (seq!['.']
        + decimal(a[3] as nat))))))
}

/// Groups between colons.
pub open spec fn groups_text(g: Seq<u16>) -> Seq<char>
    decreases g.len(),
{
    if g.len() == 0 {
        Seq::empty()
    } else if g.len() == 1 {
        hex_text(g[0] as nat)
    } else {
        hex_text(g[0] as nat) + (seq![':'] + groups_text(g.drop_first()))
    }
}

/// How many zero groups stand in a row from group `i` on.
pub open spec fn zero_run(g: Seq<u16>, i: int) -> int
    decreases g.len() - i,
{
    if 0 <= i < g.len() && g[i] == 0 {
        1 + zero_run(g, i + 1)
    } else {
        0
    }
}

/// Where the longest row of zeros begins among the first `n` groups; the first of
/// several that are equally long.
pub open spec fn longest_run(g: Seq<u16>, n: int) -> int
    decreases n,
{
    if n <= 1 {
        0
    } else {
        let b = longest_run(g, n - 1);
        if zero_run(g, n - 1) > zero_run(g, b) {
            n - 1
        } else {
            b
        }
    }
}

/// An IPv4 address in IPv6 clothing.
pub open spec fn mapped(g: Seq<u16>) -> bool {
    g[0] == 0 && g[1] == 0 && g[2] == 0 && g[3] == 0 && g[4] == 0 && g[5] == 0xffff
}

/// The four bytes of the last two groups.
pub open spec fn low_octets(g: Seq<u16>) -> Seq<u8> {
    seq![(g[6] / 256) as u8, (g[6] % 256) as u8, (g[7] / 256) as u8, (g[7] % 256) as u8]
}

/// Eight groups, the longest row of at least two zeros written as a double colon.
pub open spec fn v6_text(g: Seq<u16>) -> Seq<char> {
    let b = longest_run(g, 8);
    let n = zero_run(g, b);
    if mapped(g) {
        double_colon() + (hex_text(0xffff) + (seq![':'] + v4_text(low_octets(g))))
    } else if n >= 2 {
        groups_text(g.take(b)) + (double_colon() + groups_text(g.skip(b + n)))
    } else {
        groups_text(g)
    }
}

pub open spec fn ip_text(a: IpView) -> Seq<char> {
    match a {
        IpView::V4(a) => v4_text(a),
        IpView::V6(g) => v6_text(g),
    }
}

/// The address and the port, an IPv6 address and its scope in brackets.
pub open spec fn socket_text(a: SocketView) -> Seq<char> {
    match a.ip {
        IpView::V4(_) => ip_text(a.ip) + (seq![':'] + decimal(a.port as nat)),
        IpView::V6(_) => {
            let scope = if a.scope == 0 {
                Seq::empty()
            } else {
                seq!['%'] + decimal(a.scope as nat)
            };
            seq!['['] + (ip_text(a.ip) + scope) + (seq![']', ':'] + decimal(a.port as nat))
        },
    }
}

fn hex_chars(n: u16) -> (out: Vec<char>)
    ensures
        out@ == hex_text(n as nat),
    decreases n,
{
    let d: u8 = (n % 16) as u8;
    let c: char = if d < 10 {
        (48u8 + d) as char
    } else {
        (87u8 + d) as char
    };
    if n < 16 {
        vec![c]
    } else {
        let mut out: Vec<char> = hex_chars(n / 16);
        out.push(c);
        out
    }
}

fn v4_chars(a: &[u8; 4]) -> (out: Vec<char>)
    ensures
        out@ == v4_text(a@),
{
    let mut out: Vec<char> = decimal_chars(a[0] as u64);
    let mut b: Vec<char> = decimal_chars(a[1] as u64);
    let mut c: Vec<char> = decimal_chars(a[2] as u64);
    let mut d: Vec<char> = decimal_chars(a[3] as u64);
    out.push('.');
    out.append(&mut b);
    out.push('.');
    out.append(&mut c);
    out.push('.');
    out.append(&mut d);
    assert(out@ =~= v4_text(a@));
    out
}

fn groups_chars(g: &[u16; 8], from: usize, to: usize) -> (out: Vec<char>)
    requires
        from <= to <= 8,
    ensures
        out@ == groups_text(g@.subrange(from as int, to as int)),
    decreases to - from,
{
    let ghost part = g@.subrange(from as int, to as int);
    if from == to {
        let out: Vec<char> = Vec::new();
        assert(out@ =~= groups_text(part));
        return out;
    }
    let mut out: Vec<char> = hex_chars(g[from]);
    if from + 1 < to {
        let mut rest: Vec<char> = groups_chars(g, from + 1, to);
        assert(part.drop_first() =~= g@.subrange(from + 1, to as int));
        out.push(':');
        out.append(&mut rest);
        assert(out@ =~= groups_text(part));
    }
    out
}

fn run_at(g: &[u16; 8], i: usize) -> (out: usize)
    requires
        i <= 8,
    ensures
        out == zero_run(g@, i as int),
        i + out <= 8,
    decreases 8 - i,
{
    if i < 8 && g[i] == 0 {
        1 + run_at(g, i + 1)
    } else {
        0
    }
}

fn v6_chars(g: &[u16; 8]) -> (out: Vec<char>)
    ensures
        out@ == v6_text(g@),
{
    if g[0] == 0 && g[1] == 0 && g[2] == 0 && g[3] == 0 && g[4] == 0 && g[5] == 0xffff {
        let a: [u8; 4] = [
            (g[6] / 256) as u8,
            (g[6] % 256) as u8,
            (g[7] / 256) as u8,
            (g[7] % 256) as u8,
        ];
        assert(a@ =~= low_octets(g@));
        let mut out: Vec<char> = vec![':', ':'];
        let mut tag: Vec<char> = hex_chars(0xffff);
        let mut low: Vec<char> = v4_chars(&a);
        out.append(&mut tag);
        out.push(':');
        out.append(&mut low);
        assert(out@ =~= v6_text(g@));
        return out;
    }
    let mut b: usize = 0;
    let mut n: usize = run_at(g, 0);
    let mut i: usize = 1;
    while i < 8
        invariant
            1 <= i <= 8,
            b < i,
            b == longest_run(g@, i as int),
            n == zero_run(g@, b as int),
            b + n <= 8,
        decreases 8 - i,
    {
        let r: usize = run_at(g, i);
        if r > n {
            b = i;
            n = r;
        }
        i = i + 1;
    }
    if n >= 2 {
        let mut out: Vec<char> = groups_chars(g, 0, b);
        let mut rest: Vec<char> = groups_chars(g, b + n, 8);
        assert(g@.subrange(0, b as int) =~= g@.take(b as int));
        assert(g@.subrange(b + n, 8) =~= g@.skip(b + n));
        out.push(':');
        out.push(':');
        out.append(&mut rest);
        assert(out@ =~= v6_text(g@));
        out
    } else {
        assert(g@.subrange(0, 8) =~= g@);
        groups_chars(g, 0, 8)
    }
}

/// Writes an address.
pub fn ip_chars(a: &IpAddress) -> (out: Vec<char>)
    ensures
        out@ == ip_text(a@),
{
    match a {
        IpAddress::V4(a) => v4_chars(a),
        IpAddress::V6(g) => v6_chars(g),
    }
}

/// Writes an address and its port.
pub fn socket_chars(a: &SocketAddress) -> (out: Vec<char>)
    ensures
        out@ == socket_text(a@),
{
    let mut ip: Vec<char> = ip_chars(&a.ip);
    let mut port: Vec<char> = decimal_chars(a.port as u64);
    match a.ip {
        IpAddress::V4(_) => {
            ip.push(':');
            ip.append(&mut port);
            assert(ip@ =~= socket_text(a@));
            ip
        },
        IpAddress::V6(_) => {
            let mut out: Vec<char> = vec!['['];
            out.append(&mut ip);
            if a.scope != 0 {
                let mut scope: Vec<char> = decimal_chars(a.scope as u64);
                out.push('%');
                out.append(&mut scope);
            }
            out.push(']');
            out.push(':');
            out.append(&mut port);
            assert(out@ =~= socket_text(a@));
            out
        },
    }
}

/// A character that an address is written with, and that ends no part of it.
spec fn solid(c: char) -> bool {
    hexit(c) is Some
}

proof fn lemma_hex_text(n: nat)
    requires
        n < 65536,
    ensures
        group(hex_text(n)) == Some(n as u16),
    decreases n,
{
    lemma_hex_value(n);
    assert(hex_text(n).len() <= 4) by {
        if n >= 16 {
            assert(hex_text(n).len() == hex_text(n / 16).len() + 1);
            if n / 16 >= 16 {
                assert(hex_text(n / 16).len() == hex_text(n / 16 / 16).len() + 1);
                if n / 16 / 16 >= 16 {
                    assert(hex_text(n / 16 / 16).len() == hex_text(n / 16 / 16 / 16).len() + 1);
                    assert(n / 16 / 16 / 16 < 16);
                }
            }
        }
    }
}

proof fn lemma_hex_value(n: nat)
    ensures
        hex_text(n).len() >= 1,
        all_hexits(hex_text(n)),
        hexits_value(hex_text(n)) == n,
    decreases n,
{
    let t = hex_text(n);
    let d = (n % 16) as int;
    assert(hexit(crate::codec::hex_digit(d)) == Some(d));
    if n < 16 {
        assert(t.drop_last() =~= Seq::empty());
        assert(hexits_value(t.drop_last()) == 0);
        assert(t.last() == crate::codec::hex_digit(d));
    } else {
        lemma_hex_value(n / 16);
        assert(t.drop_last() =~= hex_text(n / 16));
        assert(t.last() == crate::codec::hex_digit(d));
        assert forall|i: int| 0 <= i < t.len() implies hexit(#[trigger] t[i]) is Some by {
            if i < t.len() - 1 {
                assert(t[i] == hex_text(n / 16)[i]);
            }
        }
        assert(n == (n / 16) * 16 + n % 16);
    }
}

proof fn lemma_octet(n: nat)
    requires
        n < 256,
    ensures
        octet(decimal(n)) == Some(n as u8),
{
    crate::text::law_decimal_reads_back(n);
    if n >= 10 {
        assert(decimal(n).len() == decimal(n / 10).len() + 1);
        assert(decimal(n)[0] == decimal(n / 10)[0]);
        if n / 10 >= 10 {
            assert(decimal(n / 10).len() == decimal(n / 10 / 10).len() + 1);
            assert(decimal(n / 10)[0] == decimal(n / 10 / 10)[0]);
            assert(n / 10 / 10 < 10);
            assert(decimal(n / 10 / 10)[0] as u32 == '0' as u32 + n / 10 / 10);
        } else {
            assert(decimal(n / 10)[0] as u32 == '0' as u32 + n / 10);
        }
    }
}

/// A text without `c` is one piece.
pub(crate) proof fn lemma_split_none(s: Seq<char>, c: char)
    requires
        !s.contains(c),
    ensures
        split_on(s, c) == seq![s],
        index_from(s, c, 0) is None,
{
    crate::text::lemma_index_from(s, c, 0);
    if let Some(k) = index_from(s, c, 0) {
        assert(s[k] == c);
    }
}

/// A text whose first `c` stands behind `a`.
pub(crate) proof fn lemma_split_first(a: Seq<char>, c: char, b: Seq<char>)
    requires
        !a.contains(c),
    ensures
        split_on(a + (seq![c] + b), c) == seq![a] + split_on(b, c),
        index_from(a + (seq![c] + b), c, 0) == Some(a.len() as int),
{
    let s = a + (seq![c] + b);
    crate::text::lemma_index_from(s, c, 0);
    assert(s[a.len() as int] == c);
    match index_from(s, c, 0) {
        Some(k) => {
            if k < a.len() {
                assert(a[k] == c);
            }
        },
        None => {},
    }
    assert(s.take(a.len() as int) =~= a);
    assert(s.skip(a.len() as int + 1) =~= b);
}

/// Every other character stands in some piece.
proof fn lemma_split_holds(s: Seq<char>, c: char, x: char)
    requires
        s.contains(x),
        x != c,
    ensures
        exists|j: int| 0 <= j < split_on(s, c).len() && (#[trigger] split_on(s, c)[j]).contains(x),
    decreases s.len(),
{
    let p = split_on(s, c);
    crate::text::lemma_index_from(s, c, 0);
    match index_from(s, c, 0) {
        Some(i) => {
            let at = choose|k: int| 0 <= k < s.len() && s[k] == x;
            if at < i {
                assert(s.take(i)[at] == x);
                assert(p[0].contains(x));
            } else {
                assert(s.skip(i + 1)[at - i - 1] == x);
                lemma_split_holds(s.skip(i + 1), c, x);
                let q = split_on(s.skip(i + 1), c);
                let j = choose|j: int| 0 <= j < q.len() && (#[trigger] q[j]).contains(x);
                assert(p[j + 1] == q[j]);
            }
        },
        None => {
            assert(p[0].contains(x));
        },
    }
}

/// An IPv4 address is digits and dots.
proof fn lemma_v4_letters(s: Seq<char>, x: char)
    requires
        s.contains(x),
        !digit(x),
        x != '.',
    ensures
        v4_of(s) is None,
{
    lemma_split_holds(s, '.', x);
    let p = split_on(s, '.');
    let j = choose|j: int| 0 <= j < p.len() && (#[trigger] p[j]).contains(x);
    let k = choose|k: int| 0 <= k < p[j].len() && p[j][k] == x;
    assert(!digit(p[j][k]));
    assert(octet(p[j]) is None);
}

proof fn lemma_v4_reads_back(a: Seq<u8>)
    requires
        a.len() == 4,
    ensures
        v4_of(v4_text(a)) == Some(a),
        forall|i: int|
            0 <= i < v4_text(a).len() ==> digit(#[trigger] v4_text(a)[i]) || v4_text(a)[i] == '.',
        v4_text(a).len() > 0,
{
    let d = |i: int| decimal(a[i] as nat);
    assert forall|i: int| 0 <= i < 4 implies octet(#[trigger] d(i)) == Some(a[i]) && !d(i).contains(
        '.',
    ) && all_digits(d(i)) && d(i).len() > 0 by {
        lemma_octet(a[i] as nat);
        if d(i).contains('.') {
            let t = d(i);
            let k = choose|k: int| 0 <= k < t.len() && t[k] == '.';
            assert(digit(t[k]));
        }
    }
    let t2 = d(2) + (seq!['.'] + d(3));
    let t1 = d(1) + (seq!['.'] + t2);
    let t0 = d(0) + (seq!['.'] + t1);
    assert(v4_text(a) == t0);
    lemma_split_none(d(3), '.');
    lemma_split_first(d(2), '.', d(3));
    lemma_split_first(d(1), '.', t2);
    lemma_split_first(d(0), '.', t1);
    let p = split_on(t0, '.');
    assert(p =~= seq![d(0), d(1), d(2), d(3)]);
    assert(p[0] == d(0) && p[1] == d(1) && p[2] == d(2) && p[3] == d(3));
    assert(seq![octet(p[0])->0, octet(p[1])->0, octet(p[2])->0, octet(p[3])->0] =~= a);
    assert forall|i: int| 0 <= i < t2.len() implies digit(#[trigger] t2[i]) || t2[i] == '.' by {
        if i < d(2).len() {
            assert(digit(d(2)[i]));
        } else if i > d(2).len() {
            assert(digit(d(3)[i - d(2).len() - 1]));
        }
    }
    assert forall|i: int| 0 <= i < t1.len() implies digit(#[trigger] t1[i]) || t1[i] == '.' by {
        if i < d(1).len() {
            assert(digit(d(1)[i]));
        } else if i > d(1).len() {
            assert(t1[i] == t2[i - d(1).len() - 1]);
        }
    }
    assert forall|i: int| 0 <= i < t0.len() implies digit(#[trigger] t0[i]) || t0[i] == '.' by {
        if i < d(0).len() {
            assert(digit(d(0)[i]));
        } else if i > d(0).len() {
            assert(t0[i] == t1[i - d(0).len() - 1]);
        }
    }
}

/// The texts of the groups.
spec fn hex_texts(g: Seq<u16>) -> Seq<Seq<char>> {
    g.map_values(|n: u16| hex_text(n as nat))
}

proof fn lemma_hex_no_colon(n: u16)
    ensures
        !hex_text(n as nat).contains(':'),
        !hex_text(n as nat).contains('.'),
        v4_of(hex_text(n as nat)) is None,
        hex_text(n as nat).len() > 0,
{
    let t = hex_text(n as nat);
    lemma_hex_value(n as nat);
    if t.contains(':') {
        let k = choose|k: int| 0 <= k < t.len() && t[k] == ':';
        assert(hexit(t[k]) is Some);
    }
    if t.contains('.') {
        let k = choose|k: int| 0 <= k < t.len() && t[k] == '.';
        assert(hexit(t[k]) is Some);
    }
    lemma_split_none(t, '.');
}

proof fn lemma_groups_split(g: Seq<u16>)
    requires
        g.len() > 0,
    ensures
        split_on(groups_text(g), ':') == hex_texts(g),
        groups_text(g).len() > 0,
    decreases g.len(),
{
    lemma_hex_no_colon(g[0]);
    let h = hex_text(g[0] as nat);
    if g.len() == 1 {
        lemma_split_none(h, ':');
        assert(hex_texts(g) =~= seq![h]);
    } else {
        lemma_groups_split(g.drop_first());
        lemma_split_first(h, ':', groups_text(g.drop_first()));
        assert(hex_texts(g) =~= seq![h] + hex_texts(g.drop_first()));
    }
}

proof fn lemma_groups_in(g: Seq<u16>, i: int, dotted: bool)
    requires
        0 <= i <= g.len(),
    ensures
        groups_in(hex_texts(g), i, dotted) == Some(g.skip(i)),
    decreases g.len() - i,
{
    let p = hex_texts(g);
    if i < g.len() {
        lemma_hex_text(g[i] as nat);
        lemma_hex_no_colon(g[i]);
        lemma_groups_in(g, i + 1, dotted);
        assert(p[i] == hex_text(g[i] as nat));
        assert(seq![g[i]] + g.skip(i + 1) =~= g.skip(i));
    } else {
        assert(g.skip(i) =~= Seq::empty());
    }
}

/// Groups between colons read back as the groups.
proof fn lemma_groups_read_back(g: Seq<u16>, dotted: bool)
    ensures
        groups_of(groups_text(g), dotted) == Some(g),
{
    if g.len() > 0 {
        lemma_groups_split(g);
        lemma_groups_in(g, 0, dotted);
        assert(g.skip(0) =~= g);
    } else {
        assert(g =~= Seq::empty());
    }
}

/// A colon is followed by something else.
spec fn single_colons(s: Seq<char>) -> bool {
    forall|i: int| 0 <= i < s.len() && #[trigger] s[i] == ':' ==> i + 1 < s.len() && s[i + 1] != ':'
}

proof fn lemma_groups_letters(g: Seq<u16>)
    ensures
        single_colons(groups_text(g)),
        g.len() > 0 ==> groups_text(g).len() > 0 && groups_text(g)[0] != ':',
        forall|i: int|
            0 <= i < groups_text(g).len() ==> solid(#[trigger] groups_text(g)[i]) || groups_text(
                g,
            )[i] == ':',
    decreases g.len(),
{
    if g.len() > 0 {
        let h = hex_text(g[0] as nat);
        let t = groups_text(g);
        lemma_hex_value(g[0] as nat);
        assert(hexit(h[0]) is Some);
        if g.len() > 1 {
            let rest = groups_text(g.drop_first());
            lemma_groups_letters(g.drop_first());
            assert forall|i: int| 0 <= i < t.len() implies solid(#[trigger] t[i]) || t[i] == ':' by {
                if i < h.len() {
                    assert(hexit(h[i]) is Some);
                } else if i > h.len() {
                    assert(t[i] == rest[i - h.len() - 1]);
                }
            }
            assert forall|i: int| 0 <= i < t.len() && #[trigger] t[i] == ':' implies i + 1 < t.len()
                && t[i + 1] != ':' by {
                if i < h.len() {
                    assert(hexit(h[i]) is Some);
                } else if i == h.len() {
                    assert(t[i + 1] == rest[0]);
                } else {
                    assert(rest[i - h.len() - 1] == ':');
                    assert(t[i + 1] == rest[i - h.len()]);
                }
            }
            assert(t[0] == h[0]);
        }
    }
}

/// Where the double colon stands that is put between two lists of groups.
proof fn lemma_double_colon(head: Seq<char>, tail: Seq<char>, i: int)
    requires
        single_colons(head),
        0 <= i <= head.len(),
    ensures
        part_from(head + (double_colon() + tail), double_colon(), i) == Some(head.len() as int),
    decreases head.len() - i,
{
    let s = head + (double_colon() + tail);
    if i == head.len() {
        assert(s.subrange(i, i + 2) =~= double_colon());
    } else {
        if stands_at(s, i, double_colon()) {
            assert(s.subrange(i, i + 2)[0] == ':');
            assert(s.subrange(i, i + 2)[1] == ':');
            assert(head[i] == ':');
            assert(head[i + 1] != ':');
        }
        lemma_double_colon(head, tail, i + 1);
    }
}

proof fn lemma_no_double_colon(s: Seq<char>, i: int)
    requires
        single_colons(s),
        0 <= i <= s.len() + 1,
    ensures
        part_from(s, double_colon(), i) is None,
    decreases s.len() + 1 - i,
{
    if i <= s.len() {
        if stands_at(s, i, double_colon()) {
            assert(s.subrange(i, i + 2)[0] == ':');
            assert(s.subrange(i, i + 2)[1] == ':');
            assert(s[i] == ':');
        }
        lemma_no_double_colon(s, i + 1);
    }
}

proof fn lemma_zero_run(g: Seq<u16>, i: int)
    requires
        0 <= i <= g.len(),
    ensures
        0 <= zero_run(g, i),
        i + zero_run(g, i) <= g.len(),
        forall|k: int| i <= k < i + zero_run(g, i) ==> g[k] == 0,
    decreases g.len() - i,
{
    if i < g.len() && g[i] == 0 {
        lemma_zero_run(g, i + 1);
    }
}

proof fn lemma_longest_run(g: Seq<u16>, n: int)
    requires
        1 <= n,
    ensures
        0 <= longest_run(g, n) < n,
    decreases n,
{
    if n > 1 {
        lemma_longest_run(g, n - 1);
    }
}

/// What is shown of a written IPv6 address.
spec fn written_v6(t: Seq<char>, g: Seq<u16>) -> bool {
    &&& v6_of(t) == Some(g)
    &&& t.contains(':')
    &&& t.len() > 0
    &&& forall|i: int| 0 <= i < t.len() ==> solid(#[trigger] t[i]) || t[i] == ':' || t[i] == '.'
    &&& index_from(t, ':', 0) is Some
    &&& 0 <= index_from(t, ':', 0)->0 < t.len()
    &&& v4_of(t.take(index_from(t, ':', 0)->0)) is None
}

proof fn lemma_mapped_reads_back(g: Seq<u16>)
    requires
        g.len() == 8,
        mapped(g),
    ensures
        written_v6(v6_text(g), g),
{
    let t = v6_text(g);
    let a = low_octets(g);
    let low = v4_text(a);
    let ffff = hex_text(0xffff);
    let tail = ffff + (seq![':'] + low);
    assert(t == double_colon() + tail);
    assert(t =~= Seq::<char>::empty() + (double_colon() + tail));
    lemma_double_colon(Seq::empty(), tail, 0);
    lemma_v4_reads_back(a);
    lemma_hex_text(0xffff);
    lemma_hex_no_colon(0xffff);
    if low.contains(':') {
        let k = choose|k: int| 0 <= k < low.len() && low[k] == ':';
        assert(digit(low[k]));
    }
    lemma_split_none(low, ':');
    lemma_split_first(ffff, ':', low);
    let p = split_on(tail, ':');
    assert(p =~= seq![ffff, low]);
    assert(p[0] == ffff && p[1] == low);
    assert(t.take(0) =~= Seq::empty());
    assert(t.skip(2) =~= tail);
    assert((a[0] * 256 + a[1]) as u16 == g[6]) by {
        assert(g[6] == (g[6] / 256) * 256 + g[6] % 256);
    }
    assert((a[2] * 256 + a[3]) as u16 == g[7]) by {
        assert(g[7] == (g[7] / 256) * 256 + g[7] % 256);
    }
    assert(groups_in(p, 1, true) == Some(seq![g[6], g[7]]));
    assert(groups_in(p, 0, true) == Some(seq![0xffffu16] + seq![g[6], g[7]]));
    let all = seq![0xffffu16] + seq![g[6], g[7]];
    assert(groups_of(tail, true) == Some(all));
    assert(Seq::<u16>::empty() + zeros(5) + all =~= g);
    lemma_hex_value(0xffff);
    assert forall|i: int| 0 <= i < t.len() implies solid(#[trigger] t[i]) || t[i] == ':' || t[i]
        == '.' by {
        if i < 2 {
            assert(t[i] == ':');
        } else if i - 2 < ffff.len() {
            assert(t[i] == ffff[i - 2]);
            assert(hexit(ffff[i - 2]) is Some);
        } else if i - 2 > ffff.len() {
            assert(t[i] == low[i - 3 - ffff.len()]);
        }
    }
    assert(t[0] == ':');
    crate::text::lemma_index_from(t, ':', 0);
    assert(index_from(t, ':', 0) == Some(0int));
    lemma_split_none(t.take(0), '.');
}

proof fn lemma_short_reads_back(g: Seq<u16>)
    requires
        g.len() == 8,
        !mapped(g),
        zero_run(g, longest_run(g, 8)) >= 2,
    ensures
        written_v6(v6_text(g), g),
{
    let t = v6_text(g);
    let b = longest_run(g, 8);
    let n = zero_run(g, b);
    lemma_longest_run(g, 8);
    lemma_zero_run(g, b);
    let head = groups_text(g.take(b));
    let tail = groups_text(g.skip(b + n));
    lemma_groups_letters(g.take(b));
    lemma_groups_letters(g.skip(b + n));
    lemma_double_colon(head, tail, 0);
    lemma_groups_read_back(g.take(b), false);
    lemma_groups_read_back(g.skip(b + n), true);
    assert(t.take(head.len() as int) =~= head);
    assert(t.skip(head.len() as int + 2) =~= tail);
    assert(g.take(b) + zeros(n) + g.skip(b + n) =~= g);
    assert(v6_of(t) == Some(g));
    assert(t[head.len() as int] == ':');
    assert forall|i: int| 0 <= i < t.len() implies solid(#[trigger] t[i]) || t[i] == ':' || t[i]
        == '.' by {
        if i < head.len() {
            assert(t[i] == head[i]);
        } else if i >= head.len() + 2 {
            assert(t[i] == tail[i - head.len() - 2]);
        }
    }
    lemma_no_dot_in_front(t, head.len() as int);
}

/// Without a dot there is no IPv4 address.
proof fn lemma_no_dot_in_front(t: Seq<char>, colon: int)
    requires
        0 <= colon < t.len(),
        t[colon] == ':',
        forall|i: int| 0 <= i < colon ==> #[trigger] t[i] != '.',
    ensures
        index_from(t, ':', 0) is Some,
        0 <= index_from(t, ':', 0)->0 < t.len(),
        v4_of(t.take(index_from(t, ':', 0)->0)) is None,
{
    crate::text::lemma_index_from(t, ':', 0);
    let k = index_from(t, ':', 0)->0;
    let front = t.take(k);
    if front.contains('.') {
        let j = choose|j: int| 0 <= j < front.len() && front[j] == '.';
        assert(t[j] == '.');
    }
    lemma_split_none(front, '.');
}

proof fn lemma_full_reads_back(g: Seq<u16>)
    requires
        g.len() == 8,
        !mapped(g),
        zero_run(g, longest_run(g, 8)) < 2,
    ensures
        written_v6(v6_text(g), g),
{
    let t = v6_text(g);
    lemma_groups_letters(g);
    lemma_no_double_colon(t, 0);
    lemma_groups_read_back(g, true);
    lemma_hex_value(g[0] as nat);
    let n = hex_text(g[0] as nat).len() as int;
    assert(t[n] == ':');
    lemma_no_dot_in_front(t, n);
}

proof fn lemma_v6_reads_back(g: Seq<u16>)
    requires
        g.len() == 8,
    ensures
        written_v6(v6_text(g), g),
{
    if mapped(g) {
        lemma_mapped_reads_back(g);
    } else if zero_run(g, longest_run(g, 8)) >= 2 {
        lemma_short_reads_back(g);
    } else {
        lemma_full_reads_back(g);
    }
}

/// An address that is written reads back as the same address.
pub proof fn law_an_address_reads_back(a: IpView)
    requires
        a.wf(),
    ensures
        ip_of(ip_text(a)) == Some(a),
{
    match a {
        IpView::V4(o) => {
            lemma_v4_reads_back(o);
        },
        IpView::V6(g) => {
            lemma_v6_reads_back(g);
            lemma_v4_letters(v6_text(g), ':');
        },
    }
}

/// An address alone is not taken for one with a port.
pub proof fn law_an_address_is_no_socket(a: IpView)
    requires
        a.wf(),
    ensures
        socket_of(ip_text(a)) is None,
        ip_text(a).len() > 0,
        forall|i: int| 0 <= i < ip_text(a).len() ==> address_char(#[trigger] ip_text(a)[i]),
{
    match a {
        IpView::V4(o) => {
            lemma_v4_reads_back(o);
            let t = v4_text(o);
            if t.contains(':') {
                let k = choose|k: int| 0 <= k < t.len() && t[k] == ':';
                assert(digit(t[k]));
            }
            lemma_split_none(t, ':');
            assert(digit(t[0]) || t[0] == '.');
        },
        IpView::V6(g) => {
            lemma_v6_reads_back(g);
            let t = v6_text(g);
            assert(solid(t[0]) || t[0] == ':' || t[0] == '.');
        },
    }
}

/// A character of a written address.
pub open spec fn address_char(c: char) -> bool {
    hexit(c) is Some || c == ':' || c == '.'
}

/// An address with a port that is written reads back as the same.
pub proof fn law_a_socket_reads_back(a: SocketView)
    requires
        a.ip.wf(),
        a.ip is V4 ==> a.scope == 0,
    ensures
        socket_of(socket_text(a)) == Some(a),
{
    match a.ip {
        IpView::V4(o) => lemma_socket4_reads_back(a, o),
        IpView::V6(g) => {
            lemma_scoped_reads_back(g, a.scope);
            lemma_socket6_reads_back(a, g);
        },
    }
}

proof fn lemma_socket4_reads_back(a: SocketView, o: Seq<u8>)
    requires
        a.ip == IpView::V4(o),
        o.len() == 4,
        a.scope == 0,
    ensures
        socket_of(socket_text(a)) == Some(a),
{
    let port = decimal(a.port as nat);
    let ip = v4_text(o);
    let t = ip + (seq![':'] + port);
    assert(socket_text(a) == t);
    crate::text::law_decimal_reads_back(a.port as nat);
    lemma_v4_reads_back(o);
    if ip.contains(':') {
        let k = choose|k: int| 0 <= k < ip.len() && ip[k] == ':';
        assert(digit(ip[k]));
    }
    lemma_split_first(ip, ':', port);
    assert(t.take(ip.len() as int) =~= ip);
    assert(t.skip(ip.len() as int + 1) =~= port);
    assert(t[0] == ip[0]);
    assert(digit(ip[0]) || ip[0] == '.');
}

/// The address between the brackets, with its scope.
spec fn scoped_text(g: Seq<u16>, scope: u32) -> Seq<char> {
    let s = if scope == 0 {
        Seq::empty()
    } else {
        seq!['%'] + decimal(scope as nat)
    };
    v6_text(g) + s
}

proof fn lemma_scoped_reads_back(g: Seq<u16>, scope: u32)
    requires
        g.len() == 8,
    ensures
        scoped_of(scoped_text(g, scope)) == Some((g, scope)),
        !scoped_text(g, scope).contains(']'),
{
    let ip = v6_text(g);
    let digits = decimal(scope as nat);
    let t = scoped_text(g, scope);
    crate::text::law_decimal_reads_back(scope as nat);
    lemma_v6_reads_back(g);
    assert forall|i: int| 0 <= i < ip.len() implies #[trigger] ip[i] != '%' by {}
    if scope == 0 {
        assert(t =~= ip);
        lemma_split_none(ip, '%');
    } else {
        assert(t == ip + (seq!['%'] + digits));
        lemma_split_first(ip, '%', digits);
        assert(t.take(ip.len() as int) =~= ip);
        assert(t.skip(ip.len() as int + 1) =~= digits);
    }
    if t.contains(']') {
        let i = choose|i: int| 0 <= i < t.len() && t[i] == ']';
        if i < ip.len() {
            assert(t[i] == ip[i]);
        } else if i > ip.len() {
            assert(t[i] == digits[i - ip.len() - 1]);
            assert(digit(digits[i - ip.len() - 1]));
        }
    }
}

proof fn lemma_socket6_reads_back(a: SocketView, g: Seq<u16>)
    requires
        a.ip == IpView::V6(g),
        scoped_of(scoped_text(g, a.scope)) == Some((g, a.scope)),
        !scoped_text(g, a.scope).contains(']'),
    ensures
        socket_of(socket_text(a)) == Some(a),
{
    let port = decimal(a.port as nat);
    let inside = scoped_text(g, a.scope);
    let front = seq!['['] + inside;
    let t = front + (seq![']'] + (seq![':'] + port));
    crate::text::law_decimal_reads_back(a.port as nat);
    assert(socket_text(a) =~= t);
    if front.contains(']') {
        let i = choose|i: int| 0 <= i < front.len() && front[i] == ']';
        assert(inside[i - 1] == ']');
    }
    lemma_split_first(front, ']', seq![':'] + port);
    let k = front.len() as int;
    assert(t[0] == '[');
    assert(t[k + 1] == ':');
    assert(t.subrange(1, k) =~= inside);
    assert(t.skip(k + 2) =~= port);
}

proof fn lemma_groups_short(g: Seq<u16>)
    ensures
        groups_text(g).len() <= 5 * g.len(),
    decreases g.len(),
{
    if g.len() > 0 {
        lemma_hex_text(g[0] as nat);
        lemma_groups_short(g.drop_first());
    }
}

/// A written address is a short text.
pub proof fn lemma_ip_text_short(a: IpView)
    requires
        a.wf(),
    ensures
        ip_text(a).len() <= 42,
{
    match a {
        IpView::V4(o) => {
            lemma_octet(o[0] as nat);
            lemma_octet(o[1] as nat);
            lemma_octet(o[2] as nat);
            lemma_octet(o[3] as nat);
        },
        IpView::V6(g) => {
            if mapped(g) {
                lemma_hex_text(0xffff);
                let o = low_octets(g);
                lemma_octet(o[0] as nat);
                lemma_octet(o[1] as nat);
                lemma_octet(o[2] as nat);
                lemma_octet(o[3] as nat);
            } else {
                let b = longest_run(g, 8);
                let n = zero_run(g, b);
                lemma_longest_run(g, 8);
                lemma_zero_run(g, b);
                lemma_groups_short(g);
                lemma_groups_short(g.take(b));
                lemma_groups_short(g.skip(b + n));
            }
        },
    }
}

} // verus!
