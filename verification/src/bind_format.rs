//! Zone synthesis: the `$ORIGIN` directive, the SOA line, and one line per
//! configured resource record, in a fixed, documented order.
//!
//! Record kinds are always emitted in the order A, AAAA, CNAME, CAA, MX, NS,
//! PTR, SRV, TXT; entries in their declaration order. The exact byte layout
//! is part of the contract: every line is pinned by the specification
//! functions below.

use vstd::prelude::*;
use vstd::string::StringExecFns;
use crate::config::{
    ARecord, AAAARecord, CAARecord, CNAMERecord, Configuration, MXRecord, NSRecord, PTRRecord,
    Record, SRVRecord, SynthesisError, TXTRecord, cfg_default_expire, cfg_default_minimum,
    cfg_default_refresh, cfg_default_retry, cfg_default_ttl, spec_effective_expire,
    spec_effective_minimum, spec_effective_refresh, spec_effective_retry, spec_effective_ttl,
};
use crate::ip_address::{
    format_v4, format_v6, parse_ipv4, parse_ipv6, spec_parse_ipv4, spec_parse_ipv6,
    spec_rev4_name, spec_rev6_name,
};
use crate::text::{
    chars_to_string, escape_dots, escape_txt_value, ends_with, first_idx, lemma_first_idx_is,
    occurrences, push_dot_escaped, spec_u32_dec, str_chars, txt_escape, u16_to_string,
    u32_to_string,
};

verus! {

/// Whether an email is well-formed for the SOA contact: exactly one `@`.
pub open spec fn email_valid(s: Seq<char>) -> bool {
    occurrences(s, '@') == 1
}

/// The escaped SOA contact: the local part (periods escaped as `\.`), a
/// period where the `@` stood, then the domain part.
pub open spec fn spec_escaped_email(s: Seq<char>) -> Seq<char> {
    let j = first_idx(s, '@');
    escape_dots(s.subrange(0, j)) + seq!['.'] + s.subrange(j + 1, s.len() as int)
}

/// The one SOA line of the zone, every field in place.
pub open spec fn spec_soa_line(c: Configuration, gttl: u32) -> Seq<char> {
    "@ "@ + spec_u32_dec(gttl as nat) + " IN SOA "@ + c.primary_nameserver@ + ". "@
        + spec_escaped_email(c.email@) + ". "@ + spec_u32_dec(c.serial as nat) + " "@
        + spec_u32_dec(spec_effective_refresh(c) as nat) + " "@ + spec_u32_dec(
        spec_effective_retry(c) as nat,
    ) + " "@ + spec_u32_dec(spec_effective_expire(c) as nat) + " "@ + spec_u32_dec(
        spec_effective_minimum(c) as nat,
    ) + "\n"@
}

/// The SOA line for a zone. Fails with `MalformedEmail` exactly when the
/// configured email does not contain exactly one `@`.
pub fn create_soa(config: &Configuration, global_ttl: u32) -> (r: Result<String, SynthesisError>)
    ensures
        match r {
            Ok(s) => email_valid(config.email@) && s@ == spec_soa_line(*config, global_ttl),
            Err(e) => !email_valid(config.email@) && e == SynthesisError::MalformedEmail,
        },
{
    let cs = str_chars(config.email.as_str());
    let mut cnt: usize = 0;
    let mut at_pos: usize = 0;
    let mut i: usize = 0;
    proof {
        assert(occurrences(cs@.subrange(0, 0), '@') == 0);
    }
    while i < cs.len()
        invariant
            0 <= i <= cs.len(),
            cnt <= i,
            cnt as nat == occurrences(cs@.subrange(0, i as int), '@'),
            cnt > 0 ==> (at_pos < i && cs@[at_pos as int] == '@' && forall|k: int|
                0 <= k < at_pos ==> cs@[k] != '@'),
            cnt == 0 ==> forall|k: int| 0 <= k < i ==> cs@[k] != '@',
        decreases cs.len() - i,
    {
        if cs[i] == '@' {
            if cnt == 0 {
                at_pos = i;
            }
            cnt = cnt + 1;
        }
        proof {
            let pre1 = cs@.subrange(0, i as int + 1);
            assert(pre1.drop_last() =~= cs@.subrange(0, i as int));
            assert(pre1.last() == cs@[i as int]);
        }
        i += 1;
    }
    proof {
        assert(cs@.subrange(0, cs@.len() as int) =~= cs@);
    }
    if cnt != 1 {
        return Err(SynthesisError::MalformedEmail);
    }
    proof {
        lemma_first_idx_is(cs@, '@', at_pos as int);
    }
    let mut em: Vec<char> = Vec::new();
    push_dot_escaped(&mut em, &cs, at_pos);
    em.push('.');
    let mut k: usize = at_pos + 1;
    while k < cs.len()
        invariant
            at_pos < k <= cs.len(),
            em@ == escape_dots(cs@.subrange(0, at_pos as int)) + seq!['.'] + cs@.subrange(
                at_pos as int + 1,
                k as int,
            ),
        decreases cs.len() - k,
    {
        em.push(cs[k]);
        proof {
            assert(cs@.subrange(at_pos as int + 1, k as int + 1) =~= cs@.subrange(
                at_pos as int + 1,
                k as int,
            ).push(cs@[k as int]));
            assert(em@ =~= escape_dots(cs@.subrange(0, at_pos as int)) + seq!['.'] + cs@.subrange(
                at_pos as int + 1,
                k as int + 1,
            ));
        }
        k += 1;
    }
    let email_str = chars_to_string(&em);
    proof {
        assert(email_str@ == spec_escaped_email(config.email@));
    }
    let refresh = match config.refresh {
        Some(v) => v,
        None => cfg_default_refresh(),
    };
    let retry = match config.retry {
        Some(v) => v,
        None => cfg_default_retry(),
    };
    let expire = match config.expire {
        Some(v) => v,
        None => cfg_default_expire(),
    };
    let minimum = match config.minimum {
        Some(v) => v,
        None => cfg_default_minimum(),
    };
    let mut line = "@ ".to_owned();
    let ttl_str = u32_to_string(global_ttl);
    line.append(ttl_str.as_str());
    line.append(" IN SOA ");
    line.append(config.primary_nameserver.as_str());
    line.append(". ");
    line.append(email_str.as_str());
    line.append(". ");
    let serial_str = u32_to_string(config.serial);
    line.append(serial_str.as_str());
    line.append(" ");
    let refresh_str = u32_to_string(refresh);
    line.append(refresh_str.as_str());
    line.append(" ");
    let retry_str = u32_to_string(retry);
    line.append(retry_str.as_str());
    line.append(" ");
    let expire_str = u32_to_string(expire);
    line.append(expire_str.as_str());
    line.append(" ");
    let minimum_str = u32_to_string(minimum);
    line.append(minimum_str.as_str());
    line.append("\n");
    proof {
        assert(line@ =~= spec_soa_line(*config, global_ttl));
    }
    Ok(line)
}

/// The TTL an entry's lines carry: its own, else the global one.
pub open spec fn spec_effective_record_ttl(r: Record, gttl: u32) -> u32 {
    match r.ttl {
        Some(t) => t,
        None => gttl,
    }
}

/// The name an entry's lines carry, or why none exists: an explicit name
/// verbatim; else an IPv4 (parsed, then placed under `.in-addr.arpa`); else
/// an IPv6 (parsed, then placed under `.ip6.arpa`); else no source at all.
pub open spec fn spec_record_name(r: Record, domain: Seq<char>) -> Result<
    Seq<char>,
    SynthesisError,
> {
    match r.name {
        Some(n) => Ok(n@),
        None => match r.ip4 {
            Some(ip4) => match spec_parse_ipv4(ip4@) {
                Some(oct) => if ends_with(domain, ".in-addr.arpa"@) {
                    Ok(spec_rev4_name(oct, domain))
                } else {
                    Err(SynthesisError::InvalidReverseZone)
                },
                None => Err(SynthesisError::MalformedAddress),
            },
            None => match r.ip6 {
                Some(ip6) => match spec_parse_ipv6(ip6@) {
                    Some(gs) => if ends_with(domain, ".ip6.arpa"@) {
                        Ok(spec_rev6_name(gs, domain))
                    } else {
                        Err(SynthesisError::InvalidReverseZone)
                    },
                    None => Err(SynthesisError::MalformedAddress),
                },
                None => Err(SynthesisError::MissingNameSource),
            },
        },
    }
}

/// The effective name of an entry as a string, or the failure that stops
/// synthesis: sources are taken in the fixed precedence name, IPv4, IPv6.
pub fn determine_record_name(record: &Record, domain_name: &String) -> (r: Result<
    String,
    SynthesisError,
>)
    ensures
        match r {
            Ok(n) => spec_record_name(*record, domain_name@) == Ok::<_, SynthesisError>(n@),
            Err(e) => spec_record_name(*record, domain_name@) == Err::<Seq<char>, _>(e),
        },
{
    if let Some(n) = &record.name {
        Ok(n.clone())
    } else if let Some(ip4) = &record.ip4 {
        match parse_ipv4(ip4.as_str()) {
            Some(addr) => format_v4(&addr, domain_name),
            None => Err(SynthesisError::MalformedAddress),
        }
    } else if let Some(ip6) = &record.ip6 {
        match parse_ipv6(ip6.as_str()) {
            Some(addr) => format_v6(&addr, domain_name),
            None => Err(SynthesisError::MalformedAddress),
        }
    } else {
        Err(SynthesisError::MissingNameSource)
    }
}

/// One A line.
pub open spec fn spec_a_line(x: ARecord, name: Seq<char>, ttl: u32) -> Seq<char> {
    name + " "@ + spec_u32_dec(ttl as nat) + " IN A "@ + x.0@ + "\n"@
}

/// All A lines of an entry, in list order.
pub open spec fn spec_a_lines(items: Seq<ARecord>, name: Seq<char>, ttl: u32) -> Seq<char>
    decreases items.len(),
{
    if items.len() == 0 {
        seq![]
    } else {
        spec_a_lines(items.drop_last(), name, ttl) + spec_a_line(items.last(), name, ttl)
    }
}

/// One AAAA line.
pub open spec fn spec_aaaa_line(x: AAAARecord, name: Seq<char>, ttl: u32) -> Seq<char> {
    name + " "@ + spec_u32_dec(ttl as nat) + " IN AAAA "@ + x.0@ + "\n"@
}

/// All AAAA lines of an entry, in list order.
pub open spec fn spec_aaaa_lines(items: Seq<AAAARecord>, name: Seq<char>, ttl: u32) -> Seq<char>
    decreases items.len(),
{
    if items.len() == 0 {
        seq![]
    } else {
        spec_aaaa_lines(items.drop_last(), name, ttl) + spec_aaaa_line(items.last(), name, ttl)
    }
}

/// One CNAME line; the target is written as a fully qualified name.
pub open spec fn spec_cname_line(x: CNAMERecord, name: Seq<char>, ttl: u32) -> Seq<char> {
    name + " "@ + spec_u32_dec(ttl as nat) + " IN CNAME "@ + x.0@ + ".\n"@
}

/// All CNAME lines of an entry, in list order.
pub open spec fn spec_cname_lines(items: Seq<CNAMERecord>, name: Seq<char>, ttl: u32) -> Seq<char>
    decreases items.len(),
{
    if items.len() == 0 {
        seq![]
    } else {
        spec_cname_lines(items.drop_last(), name, ttl) + spec_cname_line(items.last(), name, ttl)
    }
}

/// One CAA line.
pub open spec fn spec_caa_line(x: CAARecord, name: Seq<char>, ttl: u32) -> Seq<char> {
    name + " "@ + spec_u32_dec(ttl as nat) + " IN CAA "@ + spec_u32_dec(x.flags as nat) + " "@
        + x.tag@ + " "@ + x.ca_domain_name@ + "\n"@
}

/// All CAA lines of an entry, in list order.
pub open spec fn spec_caa_lines(items: Seq<CAARecord>, name: Seq<char>, ttl: u32) -> Seq<char>
    decreases items.len(),
{
    if items.len() == 0 {
        seq![]
    } else {
        spec_caa_lines(items.drop_last(), name, ttl) + spec_caa_line(items.last(), name, ttl)
    }
}

/// One MX line; the mail server is written as a fully qualified name.
pub open spec fn spec_mx_line(x: MXRecord, name: Seq<char>, ttl: u32) -> Seq<char> {
    name + " "@ + spec_u32_dec(ttl as nat) + " IN MX "@ + spec_u32_dec(x.priority as nat) + " "@
        + x.mail_server@ + ".\n"@
}

/// All MX lines of an entry, in list order.
pub open spec fn spec_mx_lines(items: Seq<MXRecord>, name: Seq<char>, ttl: u32) -> Seq<char>
    decreases items.len(),
{
    if items.len() == 0 {
        seq![]
    } else {
        spec_mx_lines(items.drop_last(), name, ttl) + spec_mx_line(items.last(), name, ttl)
    }
}

/// One NS line; the target is written as a fully qualified name.
pub open spec fn spec_ns_line(x: NSRecord, name: Seq<char>, ttl: u32) -> Seq<char> {
    name + " "@ + spec_u32_dec(ttl as nat) + " IN NS "@ + x.0@ + ".\n"@
}

/// All NS lines of an entry, in list order.
pub open spec fn spec_ns_lines(items: Seq<NSRecord>, name: Seq<char>, ttl: u32) -> Seq<char>
    decreases items.len(),
{
    if items.len() == 0 {
        seq![]
    } else {
        spec_ns_lines(items.drop_last(), name, ttl) + spec_ns_line(items.last(), name, ttl)
    }
}

/// One PTR line; the target is written as a fully qualified name.
pub open spec fn spec_ptr_line(x: PTRRecord, name: Seq<char>, ttl: u32) -> Seq<char> {
    name + " "@ + spec_u32_dec(ttl as nat) + " IN PTR "@ + x.0@ + ".\n"@
}

/// All PTR lines of an entry, in list order.
pub open spec fn spec_ptr_lines(items: Seq<PTRRecord>, name: Seq<char>, ttl: u32) -> Seq<char>
    decreases items.len(),
{
    if items.len() == 0 {
        seq![]
    } else {
        spec_ptr_lines(items.drop_last(), name, ttl) + spec_ptr_line(items.last(), name, ttl)
    }
}

/// One SRV line: the service and protocol labels each get their leading
/// underscore, and the target is written as a fully qualified name.
pub open spec fn spec_srv_line(x: SRVRecord, name: Seq<char>, ttl: u32) -> Seq<char> {
    "_"@ + x.service@ + "._"@ + x.protocol@ + "."@ + name + " "@ + spec_u32_dec(ttl as nat)
        + " IN SRV "@ + spec_u32_dec(x.priority as nat) + " "@ + spec_u32_dec(x.weight as nat)
        + " "@ + spec_u32_dec(x.port as nat) + " "@ + x.target@ + ".\n"@
}

/// All SRV lines of an entry, in list order.
pub open spec fn spec_srv_lines(items: Seq<SRVRecord>, name: Seq<char>, ttl: u32) -> Seq<char>
    decreases items.len(),
{
    if items.len() == 0 {
        seq![]
    } else {
        spec_srv_lines(items.drop_last(), name, ttl) + spec_srv_line(items.last(), name, ttl)
    }
}

/// One TXT line: the value stands quoted, newlines and double quotes
/// escaped.
pub open spec fn spec_txt_line(x: TXTRecord, name: Seq<char>, ttl: u32) -> Seq<char> {
    name + " "@ + spec_u32_dec(ttl as nat) + " IN TXT \""@ + txt_escape(x.0@) + "\"\n"@
}

/// All TXT lines of an entry, in list order.
pub open spec fn spec_txt_lines(items: Seq<TXTRecord>, name: Seq<char>, ttl: u32) -> Seq<char>
    decreases items.len(),
{
    if items.len() == 0 {
        seq![]
    } else {
        spec_txt_lines(items.drop_last(), name, ttl) + spec_txt_line(items.last(), name, ttl)
    }
}

/// Every line of one entry, kinds in the fixed order A, AAAA, CNAME, CAA,
/// MX, NS, PTR, SRV, TXT — or the failure that stops synthesis.
pub open spec fn spec_record_lines(r: Record, domain: Seq<char>, gttl: u32) -> Result<
    Seq<char>,
    SynthesisError,
> {
    match spec_record_name(r, domain) {
        Ok(name) => {
            let t = spec_effective_record_ttl(r, gttl);
            Ok(
                spec_a_lines(r.a@, name, t) + spec_aaaa_lines(r.aaaa@, name, t) + spec_cname_lines(
                    r.cname@,
                    name,
                    t,
                ) + spec_caa_lines(r.caa@, name, t) + spec_mx_lines(r.mx@, name, t) + spec_ns_lines(
                    r.ns@,
                    name,
                    t,
                ) + spec_ptr_lines(r.ptr@, name, t) + spec_srv_lines(r.srv@, name, t)
                    + spec_txt_lines(r.txt@, name, t),
            )
        },
        Err(e) => Err(e),
    }
}

fn push_a_lines(out: &mut String, items: &Vec<ARecord>, name: &String, ttl_str: &String, Ghost(t): Ghost<u32>)
    requires
        ttl_str@ == spec_u32_dec(t as nat),
    ensures
        final(out)@ == old(out)@ + spec_a_lines(items@, name@, t),
{
    proof {
        assert(items@.subrange(0, 0) =~= Seq::<ARecord>::empty());
        assert(out@ =~= old(out)@ + spec_a_lines(items@.subrange(0, 0), name@, t));
    }
    let mut i: usize = 0;
    while i < items.len()
        invariant
            0 <= i <= items.len(),
            ttl_str@ == spec_u32_dec(t as nat),
            out@ == old(out)@ + spec_a_lines(items@.subrange(0, i as int), name@, t),
        decreases items.len() - i,
    {
        out.append(name.as_str());
        out.append(" ");
        out.append(ttl_str.as_str());
        out.append(" IN A ");
        out.append(items[i].0.as_str());
        out.append("\n");
        proof {
            let pre1 = items@.subrange(0, i as int + 1);
            assert(pre1.drop_last() =~= items@.subrange(0, i as int));
            assert(pre1.last() == items@[i as int]);
            assert(out@ =~= old(out)@ + (spec_a_lines(items@.subrange(0, i as int), name@, t)
                + spec_a_line(items@[i as int], name@, t)));
        }
        i += 1;
    }
    proof {
        assert(items@.subrange(0, items@.len() as int) =~= items@);
    }
}

fn push_aaaa_lines(out: &mut String, items: &Vec<AAAARecord>, name: &String, ttl_str: &String, Ghost(t): Ghost<u32>)
    requires
        ttl_str@ == spec_u32_dec(t as nat),
    ensures
        final(out)@ == old(out)@ + spec_aaaa_lines(items@, name@, t),
{
    proof {
        assert(items@.subrange(0, 0) =~= Seq::<AAAARecord>::empty());
        assert(out@ =~= old(out)@ + spec_aaaa_lines(items@.subrange(0, 0), name@, t));
    }
    let mut i: usize = 0;
    while i < items.len()
        invariant
            0 <= i <= items.len(),
            ttl_str@ == spec_u32_dec(t as nat),
            out@ == old(out)@ + spec_aaaa_lines(items@.subrange(0, i as int), name@, t),
        decreases items.len() - i,
    {
        out.append(name.as_str());
        out.append(" ");
        out.append(ttl_str.as_str());
        out.append(" IN AAAA ");
        out.append(items[i].0.as_str());
        out.append("\n");
        proof {
            let pre1 = items@.subrange(0, i as int + 1);
            assert(pre1.drop_last() =~= items@.subrange(0, i as int));
            assert(pre1.last() == items@[i as int]);
            assert(out@ =~= old(out)@ + (spec_aaaa_lines(items@.subrange(0, i as int), name@, t)
                + spec_aaaa_line(items@[i as int], name@, t)));
        }
        i += 1;
    }
    proof {
        assert(items@.subrange(0, items@.len() as int) =~= items@);
    }
}

fn push_cname_lines(out: &mut String, items: &Vec<CNAMERecord>, name: &String, ttl_str: &String, Ghost(t): Ghost<u32>)
    requires
        ttl_str@ == spec_u32_dec(t as nat),
    ensures
        final(out)@ == old(out)@ + spec_cname_lines(items@, name@, t),
{
    proof {
        assert(items@.subrange(0, 0) =~= Seq::<CNAMERecord>::empty());
        assert(out@ =~= old(out)@ + spec_cname_lines(items@.subrange(0, 0), name@, t));
    }
    let mut i: usize = 0;
    while i < items.len()
        invariant
            0 <= i <= items.len(),
            ttl_str@ == spec_u32_dec(t as nat),
            out@ == old(out)@ + spec_cname_lines(items@.subrange(0, i as int), name@, t),
        decreases items.len() - i,
    {
        out.append(name.as_str());
        out.append(" ");
        out.append(ttl_str.as_str());
        out.append(" IN CNAME ");
        out.append(items[i].0.as_str());
        out.append(".\n");
        proof {
            let pre1 = items@.subrange(0, i as int + 1);
            assert(pre1.drop_last() =~= items@.subrange(0, i as int));
            assert(pre1.last() == items@[i as int]);
            assert(out@ =~= old(out)@ + (spec_cname_lines(items@.subrange(0, i as int), name@, t)
                + spec_cname_line(items@[i as int], name@, t)));
        }
        i += 1;
    }
    proof {
        assert(items@.subrange(0, items@.len() as int) =~= items@);
    }
}

fn push_caa_lines(out: &mut String, items: &Vec<CAARecord>, name: &String, ttl_str: &String, Ghost(t): Ghost<u32>)
    requires
        ttl_str@ == spec_u32_dec(t as nat),
    ensures
        final(out)@ == old(out)@ + spec_caa_lines(items@, name@, t),
{
    proof {
        assert(items@.subrange(0, 0) =~= Seq::<CAARecord>::empty());
        assert(out@ =~= old(out)@ + spec_caa_lines(items@.subrange(0, 0), name@, t));
    }
    let mut i: usize = 0;
    while i < items.len()
        invariant
            0 <= i <= items.len(),
            ttl_str@ == spec_u32_dec(t as nat),
            out@ == old(out)@ + spec_caa_lines(items@.subrange(0, i as int), name@, t),
        decreases items.len() - i,
    {
        out.append(name.as_str());
        out.append(" ");
        out.append(ttl_str.as_str());
        out.append(" IN CAA ");
        let flags_str = u32_to_string(items[i].flags);
        out.append(flags_str.as_str());
        out.append(" ");
        out.append(items[i].tag.as_str());
        out.append(" ");
        out.append(items[i].ca_domain_name.as_str());
        out.append("\n");
        proof {
            let pre1 = items@.subrange(0, i as int + 1);
            assert(pre1.drop_last() =~= items@.subrange(0, i as int));
            assert(pre1.last() == items@[i as int]);
            assert(out@ =~= old(out)@ + (spec_caa_lines(items@.subrange(0, i as int), name@, t)
                + spec_caa_line(items@[i as int], name@, t)));
        }
        i += 1;
    }
    proof {
        assert(items@.subrange(0, items@.len() as int) =~= items@);
    }
}

fn push_mx_lines(out: &mut String, items: &Vec<MXRecord>, name: &String, ttl_str: &String, Ghost(t): Ghost<u32>)
    requires
        ttl_str@ == spec_u32_dec(t as nat),
    ensures
        final(out)@ == old(out)@ + spec_mx_lines(items@, name@, t),
{
    proof {
        assert(items@.subrange(0, 0) =~= Seq::<MXRecord>::empty());
        assert(out@ =~= old(out)@ + spec_mx_lines(items@.subrange(0, 0), name@, t));
    }
    let mut i: usize = 0;
    while i < items.len()
        invariant
            0 <= i <= items.len(),
            ttl_str@ == spec_u32_dec(t as nat),
            out@ == old(out)@ + spec_mx_lines(items@.subrange(0, i as int), name@, t),
        decreases items.len() - i,
    {
        out.append(name.as_str());
        out.append(" ");
        out.append(ttl_str.as_str());
        out.append(" IN MX ");
        let pri_str = u16_to_string(items[i].priority);
        out.append(pri_str.as_str());
        out.append(" ");
        out.append(items[i].mail_server.as_str());
        out.append(".\n");
        proof {
            let pre1 = items@.subrange(0, i as int + 1);
            assert(pre1.drop_last() =~= items@.subrange(0, i as int));
            assert(pre1.last() == items@[i as int]);
            assert(out@ =~= old(out)@ + (spec_mx_lines(items@.subrange(0, i as int), name@, t)
                + spec_mx_line(items@[i as int], name@, t)));
        }
        i += 1;
    }
    proof {
        assert(items@.subrange(0, items@.len() as int) =~= items@);
    }
}

fn push_ns_lines(out: &mut String, items: &Vec<NSRecord>, name: &String, ttl_str: &String, Ghost(t): Ghost<u32>)
    requires
        ttl_str@ == spec_u32_dec(t as nat),
    ensures
        final(out)@ == old(out)@ + spec_ns_lines(items@, name@, t),
{
    proof {
        assert(items@.subrange(0, 0) =~= Seq::<NSRecord>::empty());
        assert(out@ =~= old(out)@ + spec_ns_lines(items@.subrange(0, 0), name@, t));
    }
    let mut i: usize = 0;
    while i < items.len()
        invariant
            0 <= i <= items.len(),
            ttl_str@ == spec_u32_dec(t as nat),
            out@ == old(out)@ + spec_ns_lines(items@.subrange(0, i as int), name@, t),
        decreases items.len() - i,
    {
        out.append(name.as_str());
        out.append(" ");
        out.append(ttl_str.as_str());
        out.append(" IN NS ");
        out.append(items[i].0.as_str());
        out.append(".\n");
        proof {
            let pre1 = items@.subrange(0, i as int + 1);
            assert(pre1.drop_last() =~= items@.subrange(0, i as int));
            assert(pre1.last() == items@[i as int]);
            assert(out@ =~= old(out)@ + (spec_ns_lines(items@.subrange(0, i as int), name@, t)
                + spec_ns_line(items@[i as int], name@, t)));
        }
        i += 1;
    }
    proof {
        assert(items@.subrange(0, items@.len() as int) =~= items@);
    }
}

fn push_ptr_lines(out: &mut String, items: &Vec<PTRRecord>, name: &String, ttl_str: &String, Ghost(t): Ghost<u32>)
    requires
        ttl_str@ == spec_u32_dec(t as nat),
    ensures
        final(out)@ == old(out)@ + spec_ptr_lines(items@, name@, t),
{
    proof {
        assert(items@.subrange(0, 0) =~= Seq::<PTRRecord>::empty());
        assert(out@ =~= old(out)@ + spec_ptr_lines(items@.subrange(0, 0), name@, t));
    }
    let mut i: usize = 0;
    while i < items.len()
        invariant
            0 <= i <= items.len(),
            ttl_str@ == spec_u32_dec(t as nat),
            out@ == old(out)@ + spec_ptr_lines(items@.subrange(0, i as int), name@, t),
        decreases items.len() - i,
    {
        out.append(name.as_str());
        out.append(" ");
        out.append(ttl_str.as_str());
        out.append(" IN PTR ");
        out.append(items[i].0.as_str());
        out.append(".\n");
        proof {
            let pre1 = items@.subrange(0, i as int + 1);
            assert(pre1.drop_last() =~= items@.subrange(0, i as int));
            assert(pre1.last() == items@[i as int]);
            assert(out@ =~= old(out)@ + (spec_ptr_lines(items@.subrange(0, i as int), name@, t)
                + spec_ptr_line(items@[i as int], name@, t)));
        }
        i += 1;
    }
    proof {
        assert(items@.subrange(0, items@.len() as int) =~= items@);
    }
}

#[verifier::rlimit(100)]
fn push_srv_lines(out: &mut String, items: &Vec<SRVRecord>, name: &String, ttl_str: &String, Ghost(t): Ghost<u32>)
    requires
        ttl_str@ == spec_u32_dec(t as nat),
    ensures
        final(out)@ == old(out)@ + spec_srv_lines(items@, name@, t),
{
    proof {
        assert(items@.subrange(0, 0) =~= Seq::<SRVRecord>::empty());
        assert(out@ =~= old(out)@ + spec_srv_lines(items@.subrange(0, 0), name@, t));
    }
    let mut i: usize = 0;
    while i < items.len()
        invariant
            0 <= i <= items.len(),
            ttl_str@ == spec_u32_dec(t as nat),
            out@ == old(out)@ + spec_srv_lines(items@.subrange(0, i as int), name@, t),
        decreases items.len() - i,
    {
        out.append("_");
        out.append(items[i].service.as_str());
        out.append("._");
        out.append(items[i].protocol.as_str());
        out.append(".");
        out.append(name.as_str());
        out.append(" ");
        out.append(ttl_str.as_str());
        out.append(" IN SRV ");
        let pri_str = u16_to_string(items[i].priority);
        out.append(pri_str.as_str());
        out.append(" ");
        let weight_str = u16_to_string(items[i].weight);
        out.append(weight_str.as_str());
        out.append(" ");
        let port_str = u16_to_string(items[i].port);
        out.append(port_str.as_str());
        out.append(" ");
        out.append(items[i].target.as_str());
        out.append(".\n");
        proof {
            let pre1 = items@.subrange(0, i as int + 1);
            assert(pre1.drop_last() =~= items@.subrange(0, i as int));
            assert(pre1.last() == items@[i as int]);
            assert(out@ =~= old(out)@ + (spec_srv_lines(items@.subrange(0, i as int), name@, t)
                + spec_srv_line(items@[i as int], name@, t)));
        }
        i += 1;
    }
    proof {
        assert(items@.subrange(0, items@.len() as int) =~= items@);
    }
}

fn push_txt_lines(out: &mut String, items: &Vec<TXTRecord>, name: &String, ttl_str: &String, Ghost(t): Ghost<u32>)
    requires
        ttl_str@ == spec_u32_dec(t as nat),
    ensures
        final(out)@ == old(out)@ + spec_txt_lines(items@, name@, t),
{
    proof {
        assert(items@.subrange(0, 0) =~= Seq::<TXTRecord>::empty());
        assert(out@ =~= old(out)@ + spec_txt_lines(items@.subrange(0, 0), name@, t));
    }
    let mut i: usize = 0;
    while i < items.len()
        invariant
            0 <= i <= items.len(),
            ttl_str@ == spec_u32_dec(t as nat),
            out@ == old(out)@ + spec_txt_lines(items@.subrange(0, i as int), name@, t),
        decreases items.len() - i,
    {
        out.append(name.as_str());
        out.append(" ");
        out.append(ttl_str.as_str());
        out.append(" IN TXT \"");
        let escaped = escape_txt_value(items[i].0.as_str());
        out.append(escaped.as_str());
        out.append("\"\n");
        proof {
            let pre1 = items@.subrange(0, i as int + 1);
            assert(pre1.drop_last() =~= items@.subrange(0, i as int));
            assert(pre1.last() == items@[i as int]);
            assert(out@ =~= old(out)@ + (spec_txt_lines(items@.subrange(0, i as int), name@, t)
                + spec_txt_line(items@[i as int], name@, t)));
        }
        i += 1;
    }
    proof {
        assert(items@.subrange(0, items@.len() as int) =~= items@);
    }
}

/// Every zone-file line of one entry, or the failure that stops synthesis:
/// exactly the text [`spec_record_lines`] gives.
pub fn spit_out_record(record: &Record, domain_name: &String, global_ttl: u32) -> (r: Result<
    String,
    SynthesisError,
>)
    ensures
        match r {
            Ok(s) => spec_record_lines(*record, domain_name@, global_ttl) == Ok::<
                _,
                SynthesisError,
            >(s@),
            Err(e) => spec_record_lines(*record, domain_name@, global_ttl) == Err::<Seq<char>, _>(
                e,
            ),
        },
{
    let name = match determine_record_name(record, domain_name) {
        Ok(n) => n,
        Err(e) => {
            return Err(e);
        },
    };
    let ttl = match record.ttl {
        Some(t) => t,
        None => global_ttl,
    };
    let ghost t = spec_effective_record_ttl(*record, global_ttl);
    let ttl_str = u32_to_string(ttl);
    let mut contents = String::new();
    push_a_lines(&mut contents, &record.a, &name, &ttl_str, Ghost(t));
    push_aaaa_lines(&mut contents, &record.aaaa, &name, &ttl_str, Ghost(t));
    push_cname_lines(&mut contents, &record.cname, &name, &ttl_str, Ghost(t));
    push_caa_lines(&mut contents, &record.caa, &name, &ttl_str, Ghost(t));
    push_mx_lines(&mut contents, &record.mx, &name, &ttl_str, Ghost(t));
    push_ns_lines(&mut contents, &record.ns, &name, &ttl_str, Ghost(t));
    push_ptr_lines(&mut contents, &record.ptr, &name, &ttl_str, Ghost(t));
    push_srv_lines(&mut contents, &record.srv, &name, &ttl_str, Ghost(t));
    push_txt_lines(&mut contents, &record.txt, &name, &ttl_str, Ghost(t));
    proof {
        let nm = name@;
        assert(contents@ =~= spec_a_lines(record.a@, nm, t) + spec_aaaa_lines(record.aaaa@, nm, t)
            + spec_cname_lines(record.cname@, nm, t) + spec_caa_lines(record.caa@, nm, t)
            + spec_mx_lines(record.mx@, nm, t) + spec_ns_lines(record.ns@, nm, t)
            + spec_ptr_lines(record.ptr@, nm, t) + spec_srv_lines(record.srv@, nm, t)
            + spec_txt_lines(record.txt@, nm, t));
    }
    Ok(contents)
}

/// The `$ORIGIN` directive: the base domain made fully qualified.
pub open spec fn spec_origin_line(c: Configuration) -> Seq<char> {
    "$ORIGIN "@ + c.domain_name@ + ".\n"@
}

/// The text of all entries in declaration order, or the first failure.
pub open spec fn spec_records_text(rs: Seq<Record>, domain: Seq<char>, gttl: u32) -> Result<
    Seq<char>,
    SynthesisError,
>
    decreases rs.len(),
{
    if rs.len() == 0 {
        Ok(seq![])
    } else {
        match spec_record_lines(rs.first(), domain, gttl) {
            Ok(l) => match spec_records_text(rs.drop_first(), domain, gttl) {
                Ok(rest) => Ok(l + rest),
                Err(e) => Err(e),
            },
            Err(e) => Err(e),
        }
    }
}

/// What synthesis yields for a configuration: the whole zone text, or the
/// first failure. The email is judged before any entry.
pub open spec fn spec_zone_result(c: Configuration) -> Result<Seq<char>, SynthesisError> {
    let gttl = spec_effective_ttl(c);
    if !email_valid(c.email@) {
        Err(SynthesisError::MalformedEmail)
    } else {
        match spec_records_text(c.records@, c.domain_name@, gttl) {
            Ok(t) => Ok(spec_origin_line(c) + spec_soa_line(c, gttl) + t),
            Err(e) => Err(e),
        }
    }
}

/// A result's text content, for stating contracts over it.
pub open spec fn str_result_view(r: Result<String, SynthesisError>) -> Result<
    Seq<char>,
    SynthesisError,
> {
    match r {
        Ok(s) => Ok(s@),
        Err(e) => Err(e),
    }
}

/// The whole zone file for a configuration: `$ORIGIN`, the SOA line, then
/// each entry's lines in declaration order — precisely the text (or the
/// failure) [`spec_zone_result`] gives, so synthesis is all-or-nothing and a
/// function of the configuration alone.
#[verifier::rlimit(100)]
pub fn config_to_zone(config: Configuration) -> (r: Result<String, SynthesisError>)
    ensures
        str_result_view(r) == spec_zone_result(config),
{
    let global_ttl = match config.ttl {
        Some(t) => t,
        None => cfg_default_ttl(),
    };
    let soa = match create_soa(&config, global_ttl) {
        Ok(s) => s,
        Err(e) => {
            return Err(e);
        },
    };
    let mut contents = "$ORIGIN ".to_owned();
    contents.append(config.domain_name.as_str());
    contents.append(".\n");
    contents.append(soa.as_str());
    let ghost all = config.records@;
    let ghost dom = config.domain_name@;
    let ghost mut done: Seq<char> = Seq::empty();
    proof {
        assert(contents@ =~= spec_origin_line(config) + spec_soa_line(config, global_ttl) + done);
        assert(all.skip(0) =~= all);
        assert(done + spec_records_text(all, dom, global_ttl)->Ok_0 =~= spec_records_text(
            all,
            dom,
            global_ttl,
        )->Ok_0);
    }
    let mut i: usize = 0;
    while i < config.records.len()
        invariant
            0 <= i <= all.len(),
            all == config.records@,
            dom == config.domain_name@,
            email_valid(config.email@),
            global_ttl == spec_effective_ttl(config),
            spec_records_text(all, dom, global_ttl) == (match spec_records_text(
                all.skip(i as int),
                dom,
                global_ttl,
            ) {
                Ok(t) => Ok::<Seq<char>, SynthesisError>(done + t),
                Err(e) => Err(e),
            }),
            contents@ == spec_origin_line(config) + spec_soa_line(config, global_ttl) + done,
        decreases all.len() - i,
    {
        let ghost rem = all.skip(i as int);
        let ghost rem1 = all.skip(i as int + 1);
        proof {
            assert(rem.first() == all[i as int]);
            assert(rem.drop_first() =~= rem1);
        }
        let lines = match spit_out_record(&config.records[i], &config.domain_name, global_ttl) {
            Ok(l) => l,
            Err(e) => {
                proof {
                    assert(spec_records_text(rem, dom, global_ttl) == Err::<Seq<char>, _>(e));
                    assert(spec_records_text(all, dom, global_ttl) == Err::<Seq<char>, _>(e));
                }
                return Err(e);
            },
        };
        contents.append(lines.as_str());
        proof {
            assert(spec_record_lines(rem.first(), dom, global_ttl) == Ok::<_, SynthesisError>(
                lines@,
            ));
            match spec_records_text(rem1, dom, global_ttl) {
                Ok(t2) => {
                    assert(spec_records_text(rem, dom, global_ttl) == Ok::<_, SynthesisError>(
                        lines@ + t2,
                    ));
                    assert(done + (lines@ + t2) =~= (done + lines@) + t2);
                },
                Err(e2) => {
                    assert(spec_records_text(rem, dom, global_ttl) == Err::<Seq<char>, _>(e2));
                },
            }
            done = done + lines@;
            assert(contents@ =~= spec_origin_line(config) + spec_soa_line(config, global_ttl)
                + done);
        }
        i += 1;
    }
    proof {
        assert(all.skip(all.len() as int) =~= Seq::<Record>::empty());
        assert(spec_records_text(all.skip(all.len() as int), dom, global_ttl) == Ok::<
            _,
            SynthesisError,
        >(Seq::<char>::empty()));
        assert(done + Seq::<char>::empty() =~= done);
        assert(spec_records_text(all, dom, global_ttl) == Ok::<_, SynthesisError>(done));
    }
    Ok(contents)
}

/// Law: a configuration with no entries synthesizes to exactly the
/// `$ORIGIN` line followed by the one SOA line — no record lines.
pub proof fn lemma_no_entries_zone(c: Configuration)
    requires
        c.records@.len() == 0,
        email_valid(c.email@),
    ensures
        spec_zone_result(c) == Ok::<Seq<char>, SynthesisError>(
            spec_origin_line(c) + spec_soa_line(c, spec_effective_ttl(c)),
        ),
{
    let gttl = spec_effective_ttl(c);
    assert(spec_records_text(c.records@, c.domain_name@, gttl) == Ok::<_, SynthesisError>(
        Seq::<char>::empty(),
    ));
    assert(spec_origin_line(c) + spec_soa_line(c, gttl) + Seq::<char>::empty() =~= spec_origin_line(
        c,
    ) + spec_soa_line(c, gttl));
}

/// Law: when the four SOA timers are absent, the SOA line carries the fixed
/// defaults 86400, 7200, 3600000 and 172800, in that order.
pub proof fn lemma_soa_defaults(c: Configuration, gttl: u32)
    requires
        c.refresh is None,
        c.retry is None,
        c.expire is None,
        c.minimum is None,
    ensures
        spec_soa_line(c, gttl) == "@ "@ + spec_u32_dec(gttl as nat) + " IN SOA "@
            + c.primary_nameserver@ + ". "@ + spec_escaped_email(c.email@) + ". "@ + spec_u32_dec(
            c.serial as nat,
        ) + " "@ + spec_u32_dec(86400) + " "@ + spec_u32_dec(7200) + " "@ + spec_u32_dec(3600000)
            + " "@ + spec_u32_dec(172800) + "\n"@,
{
}

/// Law: an entry with its own TTL yields the same lines under any global
/// TTL — the override governs every line of the entry, SRV lines included.
pub proof fn lemma_entry_ttl_overrides(r: Record, domain: Seq<char>, g1: u32, g2: u32)
    requires
        r.ttl is Some,
    ensures
        spec_record_lines(r, domain, g1) == spec_record_lines(r, domain, g2),
{
}

/// Law: synthesis is deterministic. Any two results that meet
/// [`config_to_zone`]'s contract for the same configuration carry the same
/// text (or the same failure), byte for byte.
pub proof fn lemma_synthesis_deterministic(
    c: Configuration,
    r1: Result<String, SynthesisError>,
    r2: Result<String, SynthesisError>,
)
    requires
        str_result_view(r1) == spec_zone_result(c),
        str_result_view(r2) == spec_zone_result(c),
    ensures
        str_result_view(r1) == str_result_view(r2),
{
}

} // verus!
