use hydraria::address::{IpAddress, SocketAddress};
use hydraria::dns::{parse_mode, DnsMode};
use hydraria::hostmap::{
    diagnose, diagnose_lookup, dns_setting, effective_for, generation, global_table, install,
    install_dns, merged_rules, normalize_host, parse_source, parse_target, proxy_env, resolve,
    rules_key, validate, HostMapping, HostState, HostTable, Lookup, Target, UrlParts,
};
use std::hash::{Hash, Hasher};
use std::sync::Arc;

fn rule(from: &str, to: &str) -> HostMapping {
    HostMapping {
        from: from.into(),
        to: to.into(),
        enabled: true,
    }
}

fn v4(a: u8, b: u8, c: u8, d: u8) -> IpAddress {
    IpAddress::V4([a, b, c, d])
}

fn loopback6() -> IpAddress {
    IpAddress::V6([0, 0, 0, 0, 0, 0, 0, 1])
}

#[test]
fn parses_targets() {
    assert_eq!(parse_target("1.2.3.4").unwrap(), Target::Ip(v4(1, 2, 3, 4), 0));
    assert_eq!(
        parse_target("1.2.3.4:8080").unwrap(),
        Target::Ip(v4(1, 2, 3, 4), 8080)
    );
    assert_eq!(parse_target("::1").unwrap(), Target::Ip(loopback6(), 0));
    assert_eq!(
        parse_target("[::1]:8080").unwrap(),
        Target::Ip(loopback6(), 8080)
    );
    assert_eq!(
        parse_target("Backup.Example.COM.").unwrap(),
        Target::Host("backup.example.com".into(), 0)
    );
    assert_eq!(
        parse_target("backup.example.com:8443").unwrap(),
        Target::Host("backup.example.com".into(), 8443)
    );
    assert!(parse_target("https://backup.example.com").is_err());
    assert!(parse_target("backup.example.com/x").is_err());
    assert!(parse_target("").is_err());
    assert!(parse_target("host:99999").is_err());
}

#[test]
fn a_bad_target_is_told_apart() {
    assert_eq!(parse_target(" ").unwrap_err(), "target must not be empty");
    assert_eq!(
        parse_target("a/b").unwrap_err(),
        "target 'a/b' must be a bare host or IP, not a URL"
    );
    assert_eq!(
        parse_target("host:99999").unwrap_err(),
        "target 'host:99999' has an out-of-range port"
    );
    assert_eq!(
        parse_target("a:b:c").unwrap_err(),
        "target 'a:b:c' is not a valid host or IP"
    );
    assert_eq!(
        parse_target("a b").unwrap_err(),
        "target 'a b' contains characters invalid in a host"
    );
    assert_eq!(parse_target("host:00080").unwrap(), Target::Host("host".into(), 80));
    assert_eq!(
        parse_target("a:1:80").unwrap_err(),
        "target 'a:1:80' is not a valid host or IP"
    );
}

#[test]
fn rejects_bad_sources() {
    assert!(parse_source("example.com:8080").is_err());
    assert!(parse_source("http://example.com").is_err());
    assert!(parse_source("ex*ample.com").is_err());
    assert!(parse_source("*.").is_err());
    assert_eq!(parse_source("*.Example.com").unwrap(), "*.example.com");
    assert_eq!(parse_source("::1").unwrap(), "::1");
}

#[test]
fn a_bad_source_is_told_apart() {
    assert_eq!(parse_source(" . ").unwrap_err(), "source must not be empty");
    assert_eq!(
        parse_source("A/b").unwrap_err(),
        "source 'a/b' must be a bare host or IP, not a URL"
    );
    assert_eq!(
        parse_source("a:80").unwrap_err(),
        "source 'a:80' must not carry a port — mapping is per host, and the port comes from the URL"
    );
    assert_eq!(
        parse_source("a*").unwrap_err(),
        "source 'a*': the only wildcard form is a leading '*.', e.g. *.example.com"
    );
}

#[test]
fn exact_beats_wildcard_and_longest_wildcard_wins() {
    let table = HostTable::build(&vec![
        rule("*.example.com", "1.1.1.1"),
        rule("*.cdn.example.com", "2.2.2.2"),
        rule("a.cdn.example.com", "3.3.3.3"),
    ])
    .unwrap();
    assert_eq!(
        table.lookup("a.cdn.example.com"),
        Some(Target::Ip(v4(3, 3, 3, 3), 0))
    );
    assert_eq!(
        table.lookup("b.cdn.example.com"),
        Some(Target::Ip(v4(2, 2, 2, 2), 0))
    );
    assert_eq!(
        table.lookup("b.example.com"),
        Some(Target::Ip(v4(1, 1, 1, 1), 0))
    );
    // A wildcard does not name the bare domain.
    assert_eq!(table.lookup("example.com"), None);
    assert_eq!(table.lookup("other.com"), None);
}

#[test]
fn disabled_rules_are_ignored() {
    let mut r = rule("example.com", "1.1.1.1");
    r.enabled = false;
    let table = HostTable::build(&vec![r]).unwrap();
    assert!(table.is_empty());
}

#[test]
fn lookup_is_case_insensitive() {
    let table = HostTable::build(&vec![rule("Example.COM", "1.1.1.1")]).unwrap();
    assert!(table.lookup("EXAMPLE.com.").is_some());
}

#[test]
fn route_leaves_domains_alone_and_rewrites_ip_literals() {
    let table = HostTable::build(&vec![
        rule("10.0.0.1", "backup.example.com"),
        rule("10.0.0.2", "192.168.1.9:8080"),
        rule("example.com", "1.2.3.4"),
    ])
    .unwrap();

    let r = table
        .route("https://10.0.0.1/v/1.mp4?sign=abc&t=1")
        .expect("mapped");
    assert_eq!(r.url, "https://backup.example.com/v/1.mp4?sign=abc&t=1");
    assert_eq!(r.host_header.as_deref(), Some("10.0.0.1"));
    assert_eq!(r.matched, "10.0.0.1 -> backup.example.com");

    let r = table.route("http://10.0.0.2:8000/a").expect("mapped");
    assert_eq!(r.url, "http://192.168.1.9:8080/a");
    assert_eq!(r.host_header.as_deref(), Some("10.0.0.2:8000"));

    let r = table.route("https://example.com/a?s=1").expect("mapped");
    assert_eq!(r.url, "https://example.com/a?s=1");
    assert_eq!(r.host_header, None);

    assert!(table.route("https://10.9.9.9/a").is_none());
    assert!(table.route("https://other.com/a").is_none());
    assert!(HostTable::default().route("https://example.com/a").is_none());
}

#[test]
fn an_ipv6_address_is_written_in_brackets() {
    let table = HostTable::build(&vec![
        rule("::1", "2001:db8::7"),
        rule("2001:db8::1", "[::2]:90"),
    ])
    .unwrap();
    let r = table.route("http://[::1]:81/a").expect("mapped");
    assert_eq!(r.url, "http://[2001:db8::7]:81/a");
    assert_eq!(r.host_header.as_deref(), Some("[::1]:81"));
    let r = table.route("http://[2001:db8::1]/a").expect("mapped");
    assert_eq!(r.url, "http://[::2]:90/a");
    assert_eq!(r.matched, "2001:db8::1 -> ::2:90");
    assert!(table.route("not a url").is_none());
    assert_eq!(table.explain("[::1]").as_deref(), Some("2001:db8::7"));
    assert!(table.plan(&UrlParts { host: None, port: None }).is_none());
}

#[test]
fn task_rules_union_with_global_and_win_on_conflict() {
    let mut state = HostState::new();
    install(
        &mut state,
        &vec![
            rule("a.example.com", "1.1.1.1"),
            rule("b.example.com", "2.2.2.2"),
        ],
    )
    .unwrap();

    let merged = merged_rules(
        &state,
        &vec![
            rule("b.example.com", "9.9.9.9"),
            rule("c.example.com", "3.3.3.3"),
        ],
    );
    let table = HostTable::build(&merged).unwrap();
    assert_eq!(
        table.explain("a.example.com").as_deref(),
        Some("1.1.1.1"),
        "a rule that only stands in the settings stays"
    );
    assert_eq!(
        table.explain("b.example.com").as_deref(),
        Some("9.9.9.9"),
        "the task has the last word on a name"
    );
    assert_eq!(table.explain("c.example.com").as_deref(), Some("3.3.3.3"));

    install(&mut state, &vec![rule("*.cdn.com", "1.1.1.1")]).unwrap();
    let table =
        HostTable::build(&merged_rules(&state, &vec![rule("*.cdn.com", "8.8.8.8")])).unwrap();
    assert_eq!(table.explain("x.cdn.com").as_deref(), Some("8.8.8.8"));

    // Without rules of its own a task uses the very same table.
    assert!(Arc::ptr_eq(
        &effective_for(&state, &vec![]).unwrap().table,
        &global_table(&state)
    ));

    install(&mut state, &vec![]).unwrap();
}

#[test]
fn generation_moves_when_the_global_table_changes() {
    let mut state = HostState::new();
    let before = generation(&state);
    install(&mut state, &vec![rule("gen.example.com", "1.1.1.1")]).unwrap();
    assert!(generation(&state) > before, "a new table makes the old clients stale");
    install(&mut state, &vec![]).unwrap();
}

#[test]
fn a_bad_rule_changes_nothing() {
    let mut state = HostState::new();
    install(&mut state, &vec![rule("a.com", "1.1.1.1")]).unwrap();
    let bad = vec![rule("b.com", "2.2.2.2"), rule("c.com", "")];
    assert_eq!(validate(&bad).unwrap_err(), "target must not be empty");
    assert!(install(&mut state, &bad).is_err());
    assert_eq!(generation(&state), 1);
    assert_eq!(state.rules.len(), 1);
    assert!(effective_for(&state, &vec![rule("", "1.1.1.1")]).is_err());
}

#[test]
fn the_name_server_is_set_and_shown() {
    let mut state = HostState::new();
    assert_eq!(dns_setting(&state), None);
    let mode = parse_mode(Some("tls://1.1.1.1")).unwrap();
    assert!(install_dns(&mut state, &mode, Err("no roots".into())).is_err());
    assert_eq!(generation(&state), 0);
    install_dns(&mut state, &mode, Ok(())).unwrap();
    assert_eq!(dns_setting(&state).as_deref(), Some("tls://1.1.1.1"));
    install_dns(&mut state, &DnsMode::System, Err("unused".into())).unwrap();
    assert_eq!(dns_setting(&state), None);
    assert_eq!(generation(&state), 2);
}

#[test]
fn the_key_is_that_of_the_standard_hasher() {
    let rules = vec![rule("a", "b"), rule("*.c", "1.1.1.1:8")];
    let mut h = std::collections::hash_map::DefaultHasher::new();
    for r in &rules {
        r.from.hash(&mut h);
        r.to.hash(&mut h);
        r.enabled.hash(&mut h);
    }
    assert_eq!(rules_key(&rules), h.finish());
    let swapped = vec![rule("*.c", "1.1.1.1:8"), rule("a", "b")];
    assert_ne!(rules_key(&rules), rules_key(&swapped));
}

#[test]
fn a_host_is_resolved_by_its_rule() {
    let table = HostTable::build(&vec![
        rule("a.com", "1.1.1.1:81"),
        rule("b.com", "c.com:82"),
    ])
    .unwrap();
    assert!(matches!(resolve(&table, "A.com"), Lookup::Known(ip, 81) if ip == v4(1, 1, 1, 1)));
    assert!(matches!(resolve(&table, "b.com"), Lookup::Target(h, 82) if h == "c.com"));
    assert!(matches!(resolve(&table, "D.com"), Lookup::System(h) if h == "D.com"));
    assert!(matches!(diagnose_lookup(&table, " 9.9.9.9 "), Lookup::Known(ip, 0) if ip == v4(9, 9, 9, 9)));
    assert!(matches!(diagnose_lookup(&table, "[::1]"), Lookup::Known(ip, 0) if ip == loopback6()));
    let d = diagnose(
        &table,
        " b.com ",
        Ok(vec![v4(5, 6, 7, 8)]),
        None,
        Some("tls://1.1.1.1".into()),
    );
    assert_eq!(d.host, "b.com");
    assert_eq!(d.mapped_to.as_deref(), Some("c.com:82"));
    assert_eq!(d.addresses, vec!["5.6.7.8"]);
    assert_eq!(d.resolver, "tls://1.1.1.1");
    let d = diagnose(&table, "a.com", Err("nothing".into()), None, Some("tls://1.1.1.1".into()));
    assert_eq!(d.resolver, "system");
    assert_eq!(d.error.as_deref(), Some("nothing"));
}

#[test]
fn a_proxy_is_named_by_its_variable() {
    let none = [false; 6];
    assert_eq!(proxy_env("", &none), None);
    assert_eq!(
        proxy_env("", &[false, false, true, false, false, true]).as_deref(),
        Some("HTTP_PROXY")
    );
    assert_eq!(proxy_env(" * ", &[true; 6]), None);
    assert_eq!(proxy_env("localhost", &[true; 6]).as_deref(), Some("ALL_PROXY"));
    assert_eq!(normalize_host(" Example.COM.. "), "example.com");
}

#[test]
fn sockets_carry_their_address() {
    let a = SocketAddress { ip: v4(1, 2, 3, 4), port: 5, scope: 0 };
    assert_eq!(parse_mode(Some("1.2.3.4:5")).unwrap(), DnsMode::Dot(a));
}

#[test]
fn the_last_rule_of_a_name_counts() {
    let mut off = rule("a.com", "3.3.3.3");
    off.enabled = false;
    let table = HostTable::build(&vec![
        rule("A.com", "1.1.1.1"),
        rule("a.com.", "2.2.2.2"),
        off,
        rule("*.b.com", "4.4.4.4"),
        rule("*.B.com", "5.5.5.5"),
    ])
    .unwrap();
    assert_eq!(table.explain("a.com").as_deref(), Some("2.2.2.2"));
    assert_eq!(table.explain("x.b.com").as_deref(), Some("5.5.5.5"));
}

#[test]
fn a_domain_is_routed_iff_it_is_found() {
    let t = HostTable::build(&vec![rule("*.example.com", "1.1.1.1")]).unwrap();
    for (host, found) in [("a.example.com", true), ("example.com", false), ("b.org", false)] {
        assert_eq!(t.lookup(host).is_some(), found);
        assert_eq!(t.route(&format!("http://{host}/x")).is_some(), found);
    }
    assert!(t.route("mailto:a@a.example.com").is_none());
}
