//! Synthesis of BIND master-file zone text from a declarative configuration.
//!
//! The library turns a [`config::Configuration`] — a zone's SOA authority
//! fields plus an ordered list of per-name record sets — into the exact bytes
//! of an authoritative zone file: the `$ORIGIN` directive, one SOA line, and
//! one line per configured resource record, with reverse-DNS names derived
//! for IPv4/IPv6-keyed entries.

pub mod bind_format;
pub mod config;
pub mod ip_address;
pub mod text;
