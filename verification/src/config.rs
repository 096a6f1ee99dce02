//! The validated in-memory configuration a zone is synthesized from, and the
//! fixed defaults that stand in for its absent optional fields.

use vstd::prelude::*;

verus! {

/// Everything a zone is built from: the base domain, the SOA authority
/// fields (with optional timers), and the ordered list of record entries.
///
/// Entry order is significant: it decides output line order. Absent optional
/// fields fall back to fixed defaults during synthesis, never earlier.
pub struct Configuration {
    /// Global record time-to-live in seconds; defaults to 3600.
    pub ttl: Option<u32>,
    /// The zone's primary nameserver, emitted with a trailing dot.
    pub primary_nameserver: String,
    /// The administrator contact; must contain exactly one `@`.
    pub email: String,
    /// The zone serial number.
    pub serial: u32,
    /// SOA refresh interval in seconds; defaults to 86400.
    pub refresh: Option<u32>,
    /// SOA retry interval in seconds; defaults to 7200.
    pub retry: Option<u32>,
    /// SOA expire interval in seconds; defaults to 3600000.
    pub expire: Option<u32>,
    /// SOA minimum (negative-caching) TTL in seconds; defaults to 172800.
    pub minimum: Option<u32>,
    /// The zone's base name, emitted in the `$ORIGIN` directive.
    pub domain_name: String,
    /// The configured entries, in declaration order.
    pub records: Vec<Record>,
}

/// One configured name (or reverse-lookup address) and its record sets.
///
/// Exactly one of `name`, `ip4`, `ip6` is meant to be present; when several
/// are, the resolver picks by the fixed precedence name, then IPv4, then
/// IPv6, and when none is, synthesis fails with `MissingNameSource`.
pub struct Record {
    /// An explicit subdomain label, used verbatim as the record name.
    pub name: Option<String>,
    /// An IPv4 literal whose reversed octets form the record name.
    pub ip4: Option<String>,
    /// An IPv6 literal whose reversed nibbles form the record name.
    pub ip6: Option<String>,
    /// Per-entry TTL override; absent means the global TTL applies.
    pub ttl: Option<u32>,
    /// A records, one address each.
    pub a: Vec<ARecord>,
    /// AAAA records, one address each.
    pub aaaa: Vec<AAAARecord>,
    /// CAA records.
    pub caa: Vec<CAARecord>,
    /// CNAME records, one target each.
    pub cname: Vec<CNAMERecord>,
    /// MX records.
    pub mx: Vec<MXRecord>,
    /// NS records, one target each.
    pub ns: Vec<NSRecord>,
    /// PTR records, one target each.
    pub ptr: Vec<PTRRecord>,
    /// SRV records.
    pub srv: Vec<SRVRecord>,
    /// TXT records, one text value each.
    pub txt: Vec<TXTRecord>,
}

/// An A record's IPv4 address, kept as the configured text.
pub struct ARecord(pub String);

/// An AAAA record's IPv6 address, kept as the configured text.
pub struct AAAARecord(pub String);

/// A CAA record's flags, tag and certificate-authority domain.
pub struct CAARecord {
    pub flags: u32,
    pub tag: String,
    pub ca_domain_name: String,
}

/// A CNAME record's target name, emitted with a trailing dot.
pub struct CNAMERecord(pub String);

/// An MX record's mail server (emitted with a trailing dot) and priority.
pub struct MXRecord {
    pub mail_server: String,
    pub priority: u16,
}

/// An NS record's target name, emitted with a trailing dot.
pub struct NSRecord(pub String);

/// A PTR record's target name, emitted with a trailing dot.
pub struct PTRRecord(pub String);

/// An SRV record: service and protocol labels (without their leading
/// underscore, which the synthesizer adds), the three 16-bit numeric fields,
/// and the target name (emitted with a trailing dot).
pub struct SRVRecord {
    pub service: String,
    pub protocol: String,
    pub priority: u16,
    pub weight: u16,
    pub port: u16,
    pub target: String,
}

/// A TXT record's text value, escaped and quoted on emission.
pub struct TXTRecord(pub String);

/// Why synthesis stopped; no partial output accompanies any of these.
#[derive(Clone, Copy, Debug, PartialEq, Eq, Structural)]
pub enum SynthesisError {
    /// The configured email does not contain exactly one `@`.
    MalformedEmail,
    /// An entry names an address but the base domain is not the matching
    /// reverse zone (`.in-addr.arpa` for IPv4, `.ip6.arpa` for IPv6).
    InvalidReverseZone,
    /// An entry provides none of an explicit name, an IPv4 or an IPv6.
    MissingNameSource,
    /// An entry's IPv4 or IPv6 literal does not parse.
    MalformedAddress,
}

/// The global TTL used when the configuration gives none.
pub fn cfg_default_ttl() -> (r: u32)
    ensures
        r == 3600,
{
    3600
}

/// The SOA refresh interval used when the configuration gives none.
pub fn cfg_default_refresh() -> (r: u32)
    ensures
        r == 86400,
{
    86400
}

/// The SOA retry interval used when the configuration gives none.
pub fn cfg_default_retry() -> (r: u32)
    ensures
        r == 7200,
{
    7200
}

/// The SOA expire interval used when the configuration gives none.
pub fn cfg_default_expire() -> (r: u32)
    ensures
        r == 3600000,
{
    3600000
}

/// The SOA minimum TTL used when the configuration gives none.
pub fn cfg_default_minimum() -> (r: u32)
    ensures
        r == 172800,
{
    172800
}

/// The global TTL an entry's lines use: the configured one, else the default.
pub open spec fn spec_effective_ttl(c: Configuration) -> u32 {
    match c.ttl {
        Some(t) => t,
        None => 3600,
    }
}

/// The SOA refresh value emitted: the configured one, else the default.
pub open spec fn spec_effective_refresh(c: Configuration) -> u32 {
    match c.refresh {
        Some(t) => t,
        None => 86400,
    }
}

/// The SOA retry value emitted: the configured one, else the default.
pub open spec fn spec_effective_retry(c: Configuration) -> u32 {
    match c.retry {
        Some(t) => t,
        None => 7200,
    }
}

/// The SOA expire value emitted: the configured one, else the default.
pub open spec fn spec_effective_expire(c: Configuration) -> u32 {
    match c.expire {
        Some(t) => t,
        None => 3600000,
    }
}

/// The SOA minimum value emitted: the configured one, else the default.
pub open spec fn spec_effective_minimum(c: Configuration) -> u32 {
    match c.minimum {
        Some(t) => t,
        None => 172800,
    }
}

} // verus!
