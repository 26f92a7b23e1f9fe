use hydraria::address::{ip_chars, parse_ip, parse_socket, socket_chars, IpAddress, SocketAddress};
use hydraria::dns::{
    build_query, describe, frame, parse_answer, parse_mode, query_with, skip_name, DnsMode,
    DotResolver,
};

fn v4(a: u8, b: u8, c: u8, d: u8) -> IpAddress {
    IpAddress::V4([a, b, c, d])
}

fn dot(a: u8, b: u8, c: u8, d: u8, port: u16) -> DnsMode {
    DnsMode::Dot(SocketAddress { ip: v4(a, b, c, d), port, scope: 0 })
}

#[test]
fn dns_config_is_parsed() {
    assert_eq!(parse_mode(None).unwrap(), DnsMode::System);
    assert_eq!(parse_mode(Some("  ")).unwrap(), DnsMode::System);
    assert_eq!(parse_mode(Some("system")).unwrap(), DnsMode::System);
    let want = dot(1, 1, 1, 1, 853);
    assert_eq!(parse_mode(Some("tls://1.1.1.1")).unwrap(), want);
    assert_eq!(parse_mode(Some("dot://1.1.1.1")).unwrap(), want);
    assert_eq!(parse_mode(Some("1.1.1.1")).unwrap(), want);
    assert_eq!(
        parse_mode(Some("tls://1.1.1.1:8853")).unwrap(),
        dot(1, 1, 1, 1, 8853)
    );
    // The server is named by its address alone.
    assert!(parse_mode(Some("tls://dns.example.com")).is_err());
    assert!(parse_mode(Some("not an address")).is_err());
    assert_eq!(
        parse_mode(Some(" tls://x ")).unwrap_err(),
        "dns must be an IP address (e.g. tls://1.1.1.1), got: tls://x"
    );
}

#[test]
fn describe_round_trips() {
    assert_eq!(describe(&DnsMode::System), None);
    let mode = parse_mode(Some("tls://1.1.1.1")).unwrap();
    assert_eq!(describe(&mode).as_deref(), Some("tls://1.1.1.1"));
    let mode = parse_mode(Some("tls://1.1.1.1:8853")).unwrap();
    assert_eq!(describe(&mode).as_deref(), Some("tls://1.1.1.1:8853"));
    let again = parse_mode(describe(&mode).as_deref()).unwrap();
    assert_eq!(again, mode);
    let six = parse_mode(Some("tls://[2606:4700::1111]:99")).unwrap();
    assert_eq!(describe(&six).as_deref(), Some("tls://[2606:4700::1111]:99"));
    assert_eq!(parse_mode(describe(&six).as_deref()).unwrap(), six);
}

#[test]
fn a_records_are_parsed_with_compression_pointers() {
    let (id, query) = build_query("cdn.example.com").unwrap();
    assert_eq!(u16::from_be_bytes([query[0], query[1]]), id);

    let mut answer = query.clone();
    answer[2] = 0x81;
    answer[3] = 0x80;
    answer[6..8].copy_from_slice(&2u16.to_be_bytes());
    // A CNAME, which is passed over.
    answer.extend_from_slice(&[0xC0, 0x0C]);
    answer.extend_from_slice(&5u16.to_be_bytes());
    answer.extend_from_slice(&1u16.to_be_bytes());
    answer.extend_from_slice(&600u32.to_be_bytes());
    answer.extend_from_slice(&2u16.to_be_bytes());
    answer.extend_from_slice(&[0xC0, 0x0C]);
    // An address.
    answer.extend_from_slice(&[0xC0, 0x0C]);
    answer.extend_from_slice(&1u16.to_be_bytes());
    answer.extend_from_slice(&1u16.to_be_bytes());
    answer.extend_from_slice(&120u32.to_be_bytes());
    answer.extend_from_slice(&4u16.to_be_bytes());
    answer.extend_from_slice(&[119, 249, 103, 71]);

    let (ips, ttl) = parse_answer(&answer, id).unwrap();
    assert_eq!(ips, vec![v4(119, 249, 103, 71)]);
    assert_eq!(ttl, 120);
    // Another transaction's answer is refused.
    assert!(parse_answer(&answer, id.wrapping_add(1)).is_err());
    assert_eq!(
        parse_answer(&answer[..answer.len() - 1], id).unwrap_err(),
        "the DoT response was truncated"
    );
}

#[test]
fn rcode_and_truncation_are_rejected() {
    let (id, query) = build_query("example.com").unwrap();
    let mut nxdomain = query.clone();
    nxdomain[3] = 0x83;
    assert!(parse_answer(&nxdomain, id).is_err());
    assert!(parse_answer(&query[..8], id).is_err());
    assert_eq!(
        parse_answer(&nxdomain, id).unwrap_err(),
        "the DoT server answered with rcode=3"
    );
}

#[test]
fn a_query_is_labels_behind_their_lengths() {
    assert_eq!(
        query_with(0x1234, "a.bc.").unwrap(),
        vec![0x12, 0x34, 1, 0, 0, 1, 0, 0, 0, 0, 0, 0, 1, b'a', 2, b'b', b'c', 0, 0, 1, 0, 1]
    );
    assert_eq!(query_with(1, "a..b").unwrap_err(), "not a valid hostname: a..b");
    assert!(query_with(1, "").is_err());
    assert!(query_with(1, &"x".repeat(63)).is_ok());
    assert!(query_with(1, &"x".repeat(64)).is_err());
    assert_eq!(frame(&vec![7; 259])[..4], [1, 3, 7, 7]);
    assert_eq!(frame(&vec![7; 259]).len(), 261);
    assert_eq!(skip_name(&[3, 1, 2, 3, 0, 9], 0), Ok(5));
    assert_eq!(skip_name(&[0xC0, 1], 0), Ok(2));
    assert!(skip_name(&[3, 1], 0).is_err());
    let ids: Vec<u16> = (0..8).map(|_| build_query("a").unwrap().0).collect();
    assert!(ids.iter().any(|i| *i != ids[0]), "transaction ids are drawn anew");
}

#[test]
fn answers_are_kept_for_their_time() {
    let server = SocketAddress { ip: v4(1, 1, 1, 1), port: 853, scope: 0 };
    let mut r = DotResolver::new(server);
    assert_eq!(r.cached("a", 0), None);
    assert_eq!(r.learn("a", vec![v4(1, 2, 3, 4)], 0, 1000), Ok(vec![v4(1, 2, 3, 4)]));
    assert_eq!(r.cached("a", 30_999), Some(vec![v4(1, 2, 3, 4)]));
    assert_eq!(r.cached("a", 31_000), None);
    assert_eq!(r.answers.len(), 0);
    r.learn("a", vec![v4(9, 9, 9, 9)], 9999, 0).unwrap();
    assert_eq!(r.cached("a", 599_999), Some(vec![v4(9, 9, 9, 9)]));
    r.learn("a", vec![v4(8, 8, 8, 8)], 60, 0).unwrap();
    assert_eq!(r.cached("a", 59_999), Some(vec![v4(8, 8, 8, 8)]));
    assert_eq!(
        r.learn("b", vec![], 60, 0),
        Err("DoT query for b returned no A records".to_string())
    );
    assert_eq!(r.server(), server);
}

fn ours(text: &str) -> Option<IpAddress> {
    let chars: Vec<char> = text.chars().collect();
    parse_ip(&chars)
}

fn v6(g: [u16; 8]) -> Option<IpAddress> {
    Some(IpAddress::V6(g))
}

#[test]
fn addresses_are_read() {
    assert_eq!(ours("1.2.3.4"), Some(v4(1, 2, 3, 4)));
    assert_eq!(ours("255.255.255.255"), Some(v4(255, 255, 255, 255)));
    assert_eq!(ours("::"), v6([0; 8]));
    assert_eq!(ours("1::"), v6([1, 0, 0, 0, 0, 0, 0, 0]));
    assert_eq!(ours("1:2:3:4:5:6:7:8"), v6([1, 2, 3, 4, 5, 6, 7, 8]));
    assert_eq!(ours("1:2:3:4:5:6:7::"), v6([1, 2, 3, 4, 5, 6, 7, 0]));
    assert_eq!(ours("::2:3:4:5:6:7:8"), v6([0, 2, 3, 4, 5, 6, 7, 8]));
    assert_eq!(ours("FFff::aB"), v6([0xffff, 0, 0, 0, 0, 0, 0, 0xab]));
    assert_eq!(ours("::1.2.3.4"), v6([0, 0, 0, 0, 0, 0, 0x0102, 0x0304]));
    assert_eq!(ours("1:2:3:4:5:6:1.2.3.4"), v6([1, 2, 3, 4, 5, 6, 0x0102, 0x0304]));
    assert_eq!(ours("1:2:3:4:5::1.2.3.4"), v6([1, 2, 3, 4, 5, 0, 0x0102, 0x0304]));
    for text in [
        "256.1.1.1", "01.2.3.4", "1.2.3", "1.2.3.4.5", "1.2.3.", "", " 1.2.3.4", "1.2.3.4 ",
        "+1.2.3.4", "1:2:3:4:5:6:7:8:9", "1:2:3:4:5:6:7:8::", "1::2::3", ":::", "1:::2", ":1",
        "1:", "12345::", "g::", "1:2:3:4:5:6:7:1.2.3.4", "1:2:3:4:5:6::1.2.3.4", "1.2.3.4::",
        "::1.2.3.4:5", "1:1.2.3.4::", "::1.2.3.256", "fe80::1%2", "[::1]",
    ] {
        assert_eq!(ours(text), None, "{text}");
    }
}

#[test]
fn addresses_are_written_short() {
    let cases: Vec<([u16; 8], &str)> = vec![
        ([0, 0, 0, 0, 0, 0, 0, 0], "::"),
        ([0, 0, 0, 0, 0, 0, 0, 1], "::1"),
        ([1, 0, 0, 0, 0, 0, 0, 0], "1::"),
        ([1, 0, 0, 2, 0, 0, 0, 3], "1:0:0:2::3"),
        ([1, 0, 0, 2, 0, 0, 3, 4], "1::2:0:0:3:4"),
        ([1, 0, 2, 0, 3, 0, 4, 0], "1:0:2:0:3:0:4:0"),
        ([0xfe80, 0, 0, 0, 0xabcd, 0x12, 0xf, 0x1000], "fe80::abcd:12:f:1000"),
        ([0, 0, 0, 0, 0, 0xffff, 0x0102, 0x0304], "::ffff:1.2.3.4"),
        ([0, 0, 0, 0, 0, 0, 0x0102, 0x0304], "::102:304"),
        ([0, 0, 1, 2, 3, 4, 5, 6], "::1:2:3:4:5:6"),
        ([1, 2, 3, 4, 5, 6, 0, 0], "1:2:3:4:5:6::"),
    ];
    for (g, want) in cases {
        let text: String = ip_chars(&IpAddress::V6(g)).iter().collect();
        assert_eq!(text, want);
        assert_eq!(ours(&text), v6(g));
    }
    let text: String = ip_chars(&v4(10, 0, 200, 7)).iter().collect();
    assert_eq!(text, "10.0.200.7");
}

#[test]
fn addresses_with_ports_are_read_and_written() {
    for (text, shown) in [
        ("1.2.3.4:80", "1.2.3.4:80"),
        ("1.2.3.4:65535", "1.2.3.4:65535"),
        ("1.2.3.4:00080", "1.2.3.4:80"),
        ("[::1]:80", "[::1]:80"),
        ("[fe80::1%3]:9", "[fe80::1%3]:9"),
        ("[fe80::1%0]:9", "[fe80::1]:9"),
        ("[fe80::1%4294967295]:9", "[fe80::1%4294967295]:9"),
    ] {
        let chars: Vec<char> = text.chars().collect();
        let got = parse_socket(&chars).expect(text);
        let back: String = socket_chars(&got).iter().collect();
        assert_eq!(back, shown);
    }
    for text in [
        "1.2.3.4:", "1.2.3.4:65536", "1.2.3.4:+80", "::1:80", "[::1]80", "[::1]", "[::1:80",
        "[fe80::1%]:9", "[fe80::1%4294967296]:9", "host:80", "[1.2.3.4]:80", "", ":80",
    ] {
        let chars: Vec<char> = text.chars().collect();
        assert!(parse_socket(&chars).is_none(), "{text}");
    }
}
