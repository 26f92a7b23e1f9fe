use hydraria::sizes::parse_size;

/// The same by floating point.
fn by_double(num: &str, mult: f64) -> u64 {
    (num.parse::<f64>().unwrap() * mult) as u64
}

#[test]
fn sizes_with_units_are_read() {
    assert_eq!(parse_size("5M"), Ok(5 * 1024 * 1024));
    assert_eq!(parse_size(" 512 k "), Ok(512 * 1024));
    assert_eq!(parse_size("1.5G"), Ok(1536 * 1024 * 1024));
    assert_eq!(parse_size("10MB"), Ok(10 * 1024 * 1024));
    assert_eq!(parse_size("7b"), Ok(7));
    assert_eq!(parse_size("65536"), Ok(65536));
    assert_eq!(parse_size("+3"), Ok(3));
    assert_eq!(parse_size(".5K"), Ok(512));
    assert_eq!(parse_size("2."), Ok(2));
    assert_eq!(parse_size("-5M"), Ok(0));
    assert_eq!(parse_size("1.9"), Ok(1));
}

#[test]
fn what_is_no_size_is_refused() {
    assert_eq!(parse_size("  "), Err("empty size string".to_string()));
    assert_eq!(parse_size("M"), Err("cannot parse float from empty string".to_string()));
    assert_eq!(parse_size("1.2.3"), Err("invalid float literal".to_string()));
    assert_eq!(parse_size("."), Err("invalid float literal".to_string()));
    assert_eq!(parse_size("+"), Err("invalid float literal".to_string()));
    assert_eq!(parse_size("1e3"), Err("unknown size unit: E3".to_string()));
    assert_eq!(parse_size("5T"), Err("unknown size unit: T".to_string()));
    assert_eq!(parse_size("5 KiB"), Err("unknown size unit: KIB".to_string()));
}

#[test]
fn sizes_are_rounded_as_doubles_are() {
    let numbers = [
        "0",
        "0.1",
        "0.3",
        "1.1",
        "4.35",
        "0.99999999999999999999",
        "0.9999999999999999",
        "0.99999999999999988897769753748",
        "123456789.987654321",
        "4503599627370495.5",
        "4503599627370496.5",
        "4503599627370497.5",
        "9007199254740991",
        "9007199254740992",
        "9007199254740993",
        "9007199254740993.0000000000001",
        "9007199254740995",
        "18014398509481986",
        "18014398509481987",
        "9223372036854775807",
        "18446744073709550591",
        "18446744073709550592",
        "18446744073709551615",
        "18446744073709551616",
        "340282366920938463463374607431768211456",
        "0.000000000000000000000000000000000000000001",
        "8388607.9999999999999999",
        "2097151.9999999997671693563461",
        "0.0009765625",
        "0.00097656249999999999999",
    ];
    for n in numbers {
        for (unit, mult) in [
            ("", 1.0),
            ("K", 1024.0),
            ("M", 1024.0 * 1024.0),
            ("G", 1024.0 * 1024.0 * 1024.0),
        ] {
            assert_eq!(
                parse_size(&format!("{n}{unit}")),
                Ok(by_double(n, mult)),
                "{n}{unit}"
            );
        }
    }
}

#[test]
fn many_sizes_are_rounded_as_doubles_are() {
    // A simple generator over digits of many lengths.
    let mut x: u64 = 88172645463325252;
    for round in 0..3000 {
        x ^= x << 13;
        x ^= x >> 7;
        x ^= x << 17;
        let a = x >> (round % 60);
        x ^= x << 13;
        x ^= x >> 7;
        x ^= x << 17;
        let text = format!("{}.{}", a, x >> (round % 50));
        assert_eq!(parse_size(&text), Ok(by_double(&text, 1.0)), "{text}");
        let m = format!("{}M", text);
        assert_eq!(parse_size(&m), Ok(by_double(&text, 1048576.0)), "{m}");
    }
}
