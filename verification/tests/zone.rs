use zonegen::bind_format::{config_to_zone, create_soa, determine_record_name, spit_out_record};
use zonegen::config::{
    AAAARecord, ARecord, CAARecord, CNAMERecord, Configuration, MXRecord, NSRecord, PTRRecord,
    Record, SRVRecord, SynthesisError, TXTRecord,
};

fn bare_record() -> Record {
    Record {
        name: None,
        ip4: None,
        ip6: None,
        ttl: None,
        a: Vec::new(),
        aaaa: Vec::new(),
        caa: Vec::new(),
        cname: Vec::new(),
        mx: Vec::new(),
        ns: Vec::new(),
        ptr: Vec::new(),
        srv: Vec::new(),
        txt: Vec::new(),
    }
}

fn base_config(records: Vec<Record>) -> Configuration {
    Configuration {
        ttl: None,
        primary_nameserver: String::from("ns1.example.com"),
        email: String::from("admin@example.com"),
        serial: 1,
        refresh: None,
        retry: None,
        expire: None,
        minimum: None,
        domain_name: String::from("example.com"),
        records,
    }
}

#[test]
fn empty_configuration_yields_origin_and_soa_only() {
    let out = config_to_zone(base_config(Vec::new())).unwrap();
    assert_eq!(
        out,
        "$ORIGIN example.com.\n@ 3600 IN SOA ns1.example.com. admin.example.com. 1 86400 7200 3600000 172800\n"
    );
}

#[test]
fn soa_defaults_are_fixed_values_in_order() {
    let cfg = base_config(Vec::new());
    let soa = create_soa(&cfg, 3600).unwrap();
    assert!(soa.ends_with(" 1 86400 7200 3600000 172800\n"));
}

#[test]
fn soa_respects_configured_timers_and_ttl() {
    let mut cfg = base_config(Vec::new());
    cfg.ttl = Some(300);
    cfg.refresh = Some(1);
    cfg.retry = Some(2);
    cfg.expire = Some(3);
    cfg.minimum = Some(4);
    cfg.serial = 4294967295;
    let out = config_to_zone(cfg).unwrap();
    assert_eq!(
        out,
        "$ORIGIN example.com.\n@ 300 IN SOA ns1.example.com. admin.example.com. 4294967295 1 2 3 4\n"
    );
}

#[test]
fn email_local_part_periods_are_escaped() {
    let mut cfg = base_config(Vec::new());
    cfg.email = String::from("a.b@example.com");
    let soa = create_soa(&cfg, 3600).unwrap();
    assert_eq!(
        soa,
        "@ 3600 IN SOA ns1.example.com. a\\.b.example.com. 1 86400 7200 3600000 172800\n"
    );
}

#[test]
fn malformed_email_fails_without_output() {
    let mut cfg = base_config(Vec::new());
    cfg.email = String::from("no-at-symbol");
    assert_eq!(config_to_zone(cfg), Err(SynthesisError::MalformedEmail));
}

#[test]
fn two_at_signs_are_malformed_email() {
    let mut cfg = base_config(Vec::new());
    cfg.email = String::from("a@b@example.com");
    assert_eq!(config_to_zone(cfg), Err(SynthesisError::MalformedEmail));
}

#[test]
fn txt_value_is_escaped_and_round_trips() {
    let mut rec = bare_record();
    rec.name = Some(String::from("www"));
    let original = "say \"hi\"\nbye";
    rec.txt.push(TXTRecord(String::from(original)));
    let lines = spit_out_record(&rec, &String::from("example.com"), 3600).unwrap();
    assert_eq!(lines, "www 3600 IN TXT \"say \\\"hi\\\"\\nbye\"\n");
    let quoted = lines
        .strip_prefix("www 3600 IN TXT \"")
        .unwrap()
        .strip_suffix("\"\n")
        .unwrap();
    let unescaped = quoted.replace("\\n", "\n").replace("\\\"", "\"");
    assert_eq!(unescaped, original);
}

#[test]
fn ipv4_reverse_name_strips_base_domain() {
    let mut rec = bare_record();
    rec.ip4 = Some(String::from("192.0.2.5"));
    let name = determine_record_name(&rec, &String::from("2.0.192.in-addr.arpa")).unwrap();
    assert_eq!(name, "5");
}

#[test]
fn ipv4_reverse_outside_base_keeps_full_arpa_name() {
    let mut rec = bare_record();
    rec.ip4 = Some(String::from("10.0.0.1"));
    let name = determine_record_name(&rec, &String::from("2.0.192.in-addr.arpa")).unwrap();
    assert_eq!(name, "1.0.0.10.in-addr.arpa");
}

#[test]
fn ipv6_reverse_name_strips_base_domain() {
    let mut rec = bare_record();
    rec.ip6 = Some(String::from("2001:db8::1"));
    let name = determine_record_name(&rec, &String::from("8.b.d.0.1.0.0.2.ip6.arpa")).unwrap();
    assert_eq!(name, "1.0.0.0.0.0.0.0.0.0.0.0.0.0.0.0.0.0.0.0.0.0.0.0");
}

#[test]
fn ipv4_under_wrong_zone_is_invalid_reverse_zone() {
    let mut rec = bare_record();
    rec.ip4 = Some(String::from("192.0.2.5"));
    assert_eq!(
        determine_record_name(&rec, &String::from("example.com")),
        Err(SynthesisError::InvalidReverseZone)
    );
}

#[test]
fn ipv6_under_wrong_zone_is_invalid_reverse_zone() {
    let mut rec = bare_record();
    rec.ip6 = Some(String::from("2001:db8::1"));
    assert_eq!(
        determine_record_name(&rec, &String::from("2.0.192.in-addr.arpa")),
        Err(SynthesisError::InvalidReverseZone)
    );
}

#[test]
fn unparseable_ipv4_is_malformed_address() {
    let mut rec = bare_record();
    rec.ip4 = Some(String::from("999.0.2.5"));
    assert_eq!(
        determine_record_name(&rec, &String::from("2.0.192.in-addr.arpa")),
        Err(SynthesisError::MalformedAddress)
    );
}

#[test]
fn unparseable_ipv6_is_malformed_address() {
    let mut rec = bare_record();
    rec.ip6 = Some(String::from("20011:db8::1"));
    assert_eq!(
        determine_record_name(&rec, &String::from("8.b.d.0.1.0.0.2.ip6.arpa")),
        Err(SynthesisError::MalformedAddress)
    );
}

#[test]
fn entry_without_any_name_source_fails() {
    let rec = bare_record();
    assert_eq!(
        determine_record_name(&rec, &String::from("example.com")),
        Err(SynthesisError::MissingNameSource)
    );
}

#[test]
fn explicit_name_takes_precedence_over_addresses() {
    let mut rec = bare_record();
    rec.name = Some(String::from("host"));
    rec.ip4 = Some(String::from("192.0.2.5"));
    let name = determine_record_name(&rec, &String::from("example.com")).unwrap();
    assert_eq!(name, "host");
}

#[test]
fn entry_ttl_overrides_global_ttl_on_every_line() {
    let mut rec = bare_record();
    rec.name = Some(String::from("www"));
    rec.ttl = Some(60);
    rec.a.push(ARecord(String::from("192.0.2.1")));
    rec.srv.push(SRVRecord {
        service: String::from("sip"),
        protocol: String::from("tcp"),
        priority: 10,
        weight: 20,
        port: 5060,
        target: String::from("sip.example.com"),
    });
    let lines = spit_out_record(&rec, &String::from("example.com"), 3600).unwrap();
    assert_eq!(
        lines,
        "www 60 IN A 192.0.2.1\n_sip._tcp.www 60 IN SRV 10 20 5060 sip.example.com.\n"
    );
}

#[test]
fn record_kinds_are_emitted_in_fixed_order() {
    let mut rec = bare_record();
    rec.name = Some(String::from("www"));
    rec.a.push(ARecord(String::from("192.0.2.1")));
    rec.aaaa.push(AAAARecord(String::from("2001:db8::1")));
    rec.caa.push(CAARecord {
        flags: 0,
        tag: String::from("issue"),
        ca_domain_name: String::from("ca.example.net"),
    });
    rec.cname.push(CNAMERecord(String::from("alias.example.com")));
    rec.mx.push(MXRecord {
        mail_server: String::from("mail.example.com"),
        priority: 10,
    });
    rec.ns.push(NSRecord(String::from("ns2.example.com")));
    rec.ptr.push(PTRRecord(String::from("host.example.com")));
    rec.srv.push(SRVRecord {
        service: String::from("sip"),
        protocol: String::from("udp"),
        priority: 1,
        weight: 2,
        port: 3,
        target: String::from("sip.example.com"),
    });
    rec.txt.push(TXTRecord(String::from("v=spf1 -all")));
    let lines = spit_out_record(&rec, &String::from("example.com"), 3600).unwrap();
    let expected = "www 3600 IN A 192.0.2.1\n\
www 3600 IN AAAA 2001:db8::1\n\
www 3600 IN CNAME alias.example.com.\n\
www 3600 IN CAA 0 issue ca.example.net\n\
www 3600 IN MX 10 mail.example.com.\n\
www 3600 IN NS ns2.example.com.\n\
www 3600 IN PTR host.example.com.\n\
_sip._udp.www 3600 IN SRV 1 2 3 sip.example.com.\n\
www 3600 IN TXT \"v=spf1 -all\"\n";
    assert_eq!(lines, expected);
}

#[test]
fn multiple_values_keep_list_order() {
    let mut rec = bare_record();
    rec.name = Some(String::from("www"));
    rec.a.push(ARecord(String::from("192.0.2.1")));
    rec.a.push(ARecord(String::from("192.0.2.2")));
    let lines = spit_out_record(&rec, &String::from("example.com"), 3600).unwrap();
    assert_eq!(lines, "www 3600 IN A 192.0.2.1\nwww 3600 IN A 192.0.2.2\n");
}

#[test]
fn entries_are_emitted_in_declaration_order() {
    let mut first = bare_record();
    first.name = Some(String::from("a"));
    first.a.push(ARecord(String::from("192.0.2.1")));
    let mut second = bare_record();
    second.name = Some(String::from("b"));
    second.a.push(ARecord(String::from("192.0.2.2")));
    let out = config_to_zone(base_config(vec![first, second])).unwrap();
    assert_eq!(
        out,
        "$ORIGIN example.com.\n\
@ 3600 IN SOA ns1.example.com. admin.example.com. 1 86400 7200 3600000 172800\n\
a 3600 IN A 192.0.2.1\n\
b 3600 IN A 192.0.2.2\n"
    );
}

#[test]
fn failing_entry_aborts_whole_synthesis() {
    let mut good = bare_record();
    good.name = Some(String::from("a"));
    good.a.push(ARecord(String::from("192.0.2.1")));
    let bad = bare_record();
    assert_eq!(
        config_to_zone(base_config(vec![good, bad])),
        Err(SynthesisError::MissingNameSource)
    );
}

#[test]
fn synthesis_is_idempotent() {
    let make = || {
        let mut rec = bare_record();
        rec.name = Some(String::from("www"));
        rec.a.push(ARecord(String::from("192.0.2.1")));
        rec.txt.push(TXTRecord(String::from("hello world")));
        base_config(vec![rec])
    };
    let first = config_to_zone(make()).unwrap();
    let second = config_to_zone(make()).unwrap();
    assert_eq!(first, second);
}

#[test]
fn zero_ttl_is_rendered_as_zero() {
    let mut cfg = base_config(Vec::new());
    cfg.ttl = Some(0);
    let out = config_to_zone(cfg).unwrap();
    assert!(out.contains("@ 0 IN SOA "));
}

#[test]
fn reverse_zone_with_ptr_entries_end_to_end() {
    let mut cfg = base_config(Vec::new());
    cfg.domain_name = String::from("2.0.192.in-addr.arpa");
    let mut rec = bare_record();
    rec.ip4 = Some(String::from("192.0.2.5"));
    rec.ptr.push(PTRRecord(String::from("host.example.com")));
    cfg.records.push(rec);
    let out = config_to_zone(cfg).unwrap();
    assert_eq!(
        out,
        "$ORIGIN 2.0.192.in-addr.arpa.\n\
@ 3600 IN SOA ns1.example.com. admin.example.com. 1 86400 7200 3600000 172800\n\
5 3600 IN PTR host.example.com.\n"
    );
}
