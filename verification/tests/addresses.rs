use zonegen::config::SynthesisError;
use zonegen::ip_address::{format_v4, format_v6, parse_ipv4, parse_ipv6};

#[test]
fn parse_ipv4_reads_dotted_decimal() {
    let a = parse_ipv4("192.0.2.5").unwrap();
    assert_eq!(a.octets, [192, 0, 2, 5]);
    let b = parse_ipv4("0.0.0.0").unwrap();
    assert_eq!(b.octets, [0, 0, 0, 0]);
    let c = parse_ipv4("255.255.255.255").unwrap();
    assert_eq!(c.octets, [255, 255, 255, 255]);
}

#[test]
fn parse_ipv4_rejects_malformed_literals() {
    assert!(parse_ipv4("").is_none());
    assert!(parse_ipv4("1.2.3").is_none());
    assert!(parse_ipv4("1.2.3.4.5").is_none());
    assert!(parse_ipv4("256.0.0.1").is_none());
    assert!(parse_ipv4("01.2.3.4").is_none());
    assert!(parse_ipv4("1..2.3").is_none());
    assert!(parse_ipv4("a.b.c.d").is_none());
    assert!(parse_ipv4("1.2.3.4 ").is_none());
}

#[test]
fn parse_ipv6_reads_full_form() {
    let a = parse_ipv6("2001:0db8:0000:0000:0000:0000:0000:0001").unwrap();
    assert_eq!(a.groups, [0x2001, 0x0db8, 0, 0, 0, 0, 0, 1]);
    let b = parse_ipv6("0:1:2:3:4:5:6:7").unwrap();
    assert_eq!(b.groups, [0, 1, 2, 3, 4, 5, 6, 7]);
    let c = parse_ipv6("A:b:C:d:E:f:0:9").unwrap();
    assert_eq!(c.groups, [0xa, 0xb, 0xc, 0xd, 0xe, 0xf, 0, 9]);
}

#[test]
fn parse_ipv6_reads_compressed_forms() {
    let a = parse_ipv6("::").unwrap();
    assert_eq!(a.groups, [0, 0, 0, 0, 0, 0, 0, 0]);
    let b = parse_ipv6("::1").unwrap();
    assert_eq!(b.groups, [0, 0, 0, 0, 0, 0, 0, 1]);
    let c = parse_ipv6("2001:db8::1").unwrap();
    assert_eq!(c.groups, [0x2001, 0xdb8, 0, 0, 0, 0, 0, 1]);
    let d = parse_ipv6("fe80::").unwrap();
    assert_eq!(d.groups, [0xfe80, 0, 0, 0, 0, 0, 0, 0]);
    let e = parse_ipv6("1:2:3:4:5:6:7::").unwrap();
    assert_eq!(e.groups, [1, 2, 3, 4, 5, 6, 7, 0]);
}

#[test]
fn parse_ipv6_rejects_malformed_literals() {
    assert!(parse_ipv6("").is_none());
    assert!(parse_ipv6(":").is_none());
    assert!(parse_ipv6(":::").is_none());
    assert!(parse_ipv6("1:2:3:4:5:6:7").is_none());
    assert!(parse_ipv6("1:2:3:4:5:6:7:8:9").is_none());
    assert!(parse_ipv6("1:2:3:4:5:6:7:8::").is_none());
    assert!(parse_ipv6("1::2::3").is_none());
    assert!(parse_ipv6("12345::").is_none());
    assert!(parse_ipv6(":1::2").is_none());
    assert!(parse_ipv6("1:2:").is_none());
    assert!(parse_ipv6("g::1").is_none());
}

#[test]
fn format_v4_reverses_octets_under_base() {
    let a = parse_ipv4("192.0.2.2").unwrap();
    let name = format_v4(&a, &String::from("2.0.192.in-addr.arpa")).unwrap();
    assert_eq!(name, "2");
    let b = parse_ipv4("192.0.2.25").unwrap();
    let partial = format_v4(&b, &String::from("0.192.in-addr.arpa")).unwrap();
    assert_eq!(partial, "25.2");
}

#[test]
fn format_v4_requires_reverse_zone_suffix() {
    let a = parse_ipv4("192.0.2.2").unwrap();
    assert_eq!(
        format_v4(&a, &String::from("example.com")),
        Err(SynthesisError::InvalidReverseZone)
    );
}

#[test]
fn format_v6_expands_all_nibbles_in_reverse() {
    let a = parse_ipv6("2001:db8::1").unwrap();
    let name = format_v6(&a, &String::from("0.8.b.d.0.1.0.0.2.ip6.arpa")).unwrap();
    assert_eq!(name, "1.0.0.0.0.0.0.0.0.0.0.0.0.0.0.0.0.0.0.0.0.0.0");
}

#[test]
fn format_v6_requires_reverse_zone_suffix() {
    let a = parse_ipv6("2001:db8::1").unwrap();
    assert_eq!(
        format_v6(&a, &String::from("2.0.192.in-addr.arpa")),
        Err(SynthesisError::InvalidReverseZone)
    );
}
