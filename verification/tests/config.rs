use multiproxy::args::{optional, parse_args, proxy_kind, required, ProxyKind};
use multiproxy::endpoints::{
    expand_endpoints, pair_bind_targets, parse_port, parse_ports, try_expand_endpoints,
    try_pair_bind_targets, try_parse_port, try_parse_ports, ConfigError,
};
use multiproxy::text::{chars_of, parse_u16_chars, trim_chars};

fn strings(v: &[&str]) -> Vec<String> {
    v.iter().map(|s| s.to_string()).collect()
}

#[test]
fn parse_port_reads_plain_numbers() {
    assert_eq!(parse_port("80"), 80);
    assert_eq!(parse_port("65535"), 65535);
    assert_eq!(parse_port("+443"), 443);
    assert_eq!(parse_port("0080"), 80);
}

#[test]
fn parse_port_refusals() {
    assert!(matches!(try_parse_port("0"), Err(ConfigError::ZeroPort(s)) if s == "0"));
    assert!(matches!(try_parse_port("000"), Err(ConfigError::ZeroPort(s)) if s == "000"));
    assert!(matches!(try_parse_port("65536"), Err(ConfigError::InvalidPort(s)) if s == "65536"));
    assert!(matches!(try_parse_port(""), Err(ConfigError::InvalidPort(s)) if s.is_empty()));
    assert!(matches!(try_parse_port("+"), Err(ConfigError::InvalidPort(_))));
    assert!(matches!(try_parse_port("-5"), Err(ConfigError::InvalidPort(_))));
    assert!(matches!(try_parse_port(" 80"), Err(ConfigError::InvalidPort(s)) if s == " 80"));
    assert!(matches!(try_parse_port("8o"), Err(ConfigError::InvalidPort(_))));
}

#[test]
fn number_reading_agrees_with_std() {
    let samples = [
        "", "+", "-", "0", "1", "+0", "++1", "-0", "9", "10", "655", "6553", "65535", "65536",
        "99999", "100000", "000001", "12a", "a12", " 1", "1 ", "4294967296", "+65535",
        "١٢", "0x10",
    ];
    for s in samples {
        let mine = parse_u16_chars(&chars_of(s));
        assert_eq!(mine, s.parse::<u16>().ok(), "input {:?}", s);
    }
    for n in 0..=65535u32 {
        let s = n.to_string();
        assert_eq!(parse_u16_chars(&chars_of(&s)), Some(n as u16));
    }
}

#[test]
fn trim_agrees_with_std() {
    let samples = [
        "", " ", "  a  ", "\t\n x y \r\n", "\u{85}a\u{a0}", "\u{2000}b\u{3000}", "\u{200b}c",
        "\u{1680}\u{202f}", "no-space",
    ];
    for s in samples {
        let t: String = trim_chars(&chars_of(s)).into_iter().collect();
        assert_eq!(t, s.trim(), "input {:?}", s);
    }
}

#[test]
fn parse_ports_lists_and_ranges() {
    assert_eq!(parse_ports("80"), vec![80]);
    assert_eq!(parse_ports("80,443,8000-8002"), vec![80, 443, 8000, 8001, 8002]);
    assert_eq!(parse_ports(" 80 , 90 - 92 "), vec![80, 90, 91, 92]);
    assert_eq!(parse_ports("65534-65535"), vec![65534, 65535]);
    assert_eq!(parse_ports("7-7"), vec![7]);
    assert_eq!(parse_ports("5,5"), vec![5, 5]);
}

#[test]
fn parse_ports_refusals() {
    assert!(matches!(try_parse_ports("80,,90"), Err(ConfigError::EmptySegment(s)) if s == "80,,90"));
    assert!(matches!(try_parse_ports(""), Err(ConfigError::EmptySegment(s)) if s.is_empty()));
    assert!(matches!(try_parse_ports("80, "), Err(ConfigError::EmptySegment(_))));
    assert!(matches!(try_parse_ports("90-80"), Err(ConfigError::ReversedRange(s)) if s == "90-80"));
    assert!(matches!(try_parse_ports(" 9 -8 "), Err(ConfigError::ReversedRange(s)) if s == "9 -8"));
    assert!(matches!(try_parse_ports("1-3-5"), Err(ConfigError::InvalidPort(s)) if s == "3-5"));
    assert!(matches!(try_parse_ports("0-5"), Err(ConfigError::ZeroPort(s)) if s == "0"));
    assert!(matches!(try_parse_ports("-5"), Err(ConfigError::InvalidPort(s)) if s.is_empty()));
    // the first refused element decides the error
    assert!(matches!(try_parse_ports("x,0"), Err(ConfigError::InvalidPort(s)) if s == "x"));
}

#[test]
fn expand_endpoints_one_per_port() {
    assert_eq!(expand_endpoints("127.0.0.1:80"), strings(&["127.0.0.1:80"]));
    assert_eq!(
        expand_endpoints("0.0.0.0:80,81,100-101"),
        strings(&["0.0.0.0:80", "0.0.0.0:81", "0.0.0.0:100", "0.0.0.0:101"])
    );
    assert_eq!(expand_endpoints("[::1]:8080"), strings(&["[::1]:8080"]));
    assert_eq!(expand_endpoints("h:+007"), strings(&["h:7"]));
    assert_eq!(expand_endpoints("h: 9 "), strings(&["h:9"]));
}

#[test]
fn expand_endpoints_refusals() {
    assert!(matches!(try_expand_endpoints("localhost"), Err(ConfigError::NotHostPort(s)) if s == "localhost"));
    assert!(matches!(try_expand_endpoints(":80"), Err(ConfigError::MissingHost(s)) if s == ":80"));
    assert!(matches!(try_expand_endpoints("h:"), Err(ConfigError::EmptySegment(s)) if s.is_empty()));
    assert!(matches!(try_expand_endpoints("h:1,,2"), Err(ConfigError::EmptySegment(s)) if s == "1,,2"));
    assert!(matches!(try_expand_endpoints("h:x"), Err(ConfigError::InvalidPort(s)) if s == "x"));
}

#[test]
fn expanded_endpoints_expand_to_themselves() {
    for spec in ["a:1-3", "[::1]:+5,6", "host:65535", "x: 10 - 12 ,7"] {
        for e in expand_endpoints(spec) {
            assert_eq!(expand_endpoints(&e), vec![e.clone()]);
        }
    }
}

#[test]
fn pairing_binds_and_targets() {
    let pairs = pair_bind_targets("0.0.0.0:80,81", "10.0.0.1:8080,8081");
    assert_eq!(
        pairs,
        vec![
            ("0.0.0.0:80".to_string(), "10.0.0.1:8080".to_string()),
            ("0.0.0.0:81".to_string(), "10.0.0.1:8081".to_string()),
        ]
    );
    let fan_out = pair_bind_targets("0.0.0.0:80", "a:1-3");
    assert_eq!(
        fan_out,
        vec![
            ("0.0.0.0:80".to_string(), "a:1".to_string()),
            ("0.0.0.0:80".to_string(), "a:2".to_string()),
            ("0.0.0.0:80".to_string(), "a:3".to_string()),
        ]
    );
    let fan_in = pair_bind_targets("b:1-2", "t:9");
    assert_eq!(
        fan_in,
        vec![("b:1".to_string(), "t:9".to_string()), ("b:2".to_string(), "t:9".to_string())]
    );
}

#[test]
fn pairing_refusals() {
    assert!(matches!(try_pair_bind_targets("b:1-2", "t:1-3"), Err(ConfigError::SizeMismatch(2, 3))));
    assert!(matches!(try_pair_bind_targets("b", "t:1"), Err(ConfigError::NotHostPort(s)) if s == "b"));
    assert!(matches!(try_pair_bind_targets("b:1", ":1"), Err(ConfigError::MissingHost(s)) if s == ":1"));
}

#[test]
fn parse_args_pairs_and_flags() {
    let args = parse_args(&strings(&[
        "--type", "tcp", "stray", "--bind", "0.0.0.0:80", "--flag", "--target", "t:1", "--last",
    ]));
    assert_eq!(required(&args, "type"), "tcp");
    assert_eq!(required(&args, "bind"), "0.0.0.0:80");
    assert_eq!(required(&args, "target"), "t:1");
    assert_eq!(optional(&args, "flag"), None);
    assert_eq!(optional(&args, "last"), None);
    assert_eq!(optional(&args, "stray"), None);
    assert_eq!(optional(&args, "missing"), None);
    assert_eq!(optional(&args, "type"), Some("tcp"));
}

#[test]
fn parse_args_later_option_wins() {
    let args = parse_args(&strings(&["--data", "one", "--data", "two"]));
    assert_eq!(optional(&args, "data"), Some("two"));
    let args = parse_args(&strings(&["--data", "one", "--data"]));
    assert_eq!(optional(&args, "data"), None);
    let args = parse_args(&strings(&["--", "x", "-single", "y"]));
    assert_eq!(optional(&args, ""), Some("x"));
    assert_eq!(optional(&args, "single"), None);
}

#[test]
fn proxy_kinds() {
    assert_eq!(proxy_kind("tcp"), Some(ProxyKind::Tcp));
    assert_eq!(proxy_kind("udp"), Some(ProxyKind::Udp));
    assert_eq!(proxy_kind("tcpv2"), Some(ProxyKind::TcpV2));
    assert_eq!(proxy_kind("mc"), Some(ProxyKind::Status));
    assert_eq!(proxy_kind("TCP"), None);
    assert_eq!(proxy_kind(""), None);
}

#[test]
fn joined_port_lists_concatenate() {
    for (a, b) in [("80", "81"), ("1-3", " 7 "), ("5,6", "2-4,9"), ("+10", "10")] {
        let mut want = parse_ports(a);
        want.extend(parse_ports(b));
        assert_eq!(parse_ports(&format!("{a},{b}")), want);
    }
}
