//! Conversion between text and prefixes. Parsing accepts CIDR notation or
//! a bare address (read as a full-length prefix); formatting produces
//! `<address>/<prefix length>`. The textual work is done by the ipnet
//! crate behind trusted wrappers; everything downstream is specified
//! against the names given to their results here.

use vstd::prelude::*;

use crate::prefix::Prefix;

verus! {

/// What `str::trim` returns: the text without leading and trailing
/// whitespace.
pub uninterp spec fn trim_of(s: Seq<char>) -> Seq<char>;

/// What parsing CIDR notation returns: the network prefix the text
/// denotes, its address truncated to the prefix length, or `None` when
/// the text is not CIDR notation.
pub uninterp spec fn cidr_of(s: Seq<char>) -> Option<Prefix>;

/// What parsing a bare IPv4 address returns: its 32 address bits, or
/// `None` when the text is not a dotted-quad address.
pub uninterp spec fn v4_addr_of(s: Seq<char>) -> Option<u32>;

/// What parsing a bare IPv6 address returns: its 128 address bits, or
/// `None` when the text is not an IPv6 address literal.
pub uninterp spec fn v6_addr_of(s: Seq<char>) -> Option<u128>;

/// What formatting a prefix returns: its canonical
/// `<address>/<prefix length>` text.
pub uninterp spec fn prefix_text(p: Prefix) -> Seq<char>;

/// The single-address prefix of an IPv4 address.
pub open spec fn host4(addr: u32) -> Prefix {
    Prefix { v6: false, addr: addr as u128, len: 32 }
}

/// The single-address prefix of an IPv6 address.
pub open spec fn host6(addr: u128) -> Prefix {
    Prefix { v6: true, addr, len: 128 }
}

/// What parsing one input line yields: the trimmed text read as CIDR
/// notation, else as a bare IPv6 address, else as a bare IPv4 address;
/// `None` when none of the three fit.
pub open spec fn parse_spec(s: Seq<char>) -> Option<Prefix> {
    let t = trim_of(s);
    if cidr_of(t) is Some {
        cidr_of(t)
    } else if v6_addr_of(t) is Some {
        Some(host6(v6_addr_of(t).unwrap()))
    } else if v4_addr_of(t) is Some {
        Some(host4(v4_addr_of(t).unwrap()))
    } else {
        None
    }
}

/// Relies on `str::trim`: removes leading and trailing whitespace.
#[verifier::external_body]
fn trim_str(s: &str) -> (r: &str)
    ensures
        r@ == trim_of(s@),
{
    s.trim()
}

/// Relies on ipnet's `IpNet` string parsing, which accepts
/// `<address>/<prefix length>` with a length no longer than the family's
/// width, and on `trunc`, which zeroes the bits past the prefix length.
#[verifier::external_body]
fn parse_cidr(s: &str) -> (r: Option<Prefix>)
    ensures
        r == cidr_of(s@),
        r matches Some(p) ==> p.wf(),
{
    match s.parse::<ipnet::IpNet>() {
        Ok(ipnet::IpNet::V4(n)) => {
            let n = n.trunc();
            Some(Prefix { v6: false, addr: u32::from(n.addr()) as u128, len: n.prefix_len() })
        },
        Ok(ipnet::IpNet::V6(n)) => {
            let n = n.trunc();
            Some(Prefix { v6: true, addr: u128::from(n.addr()), len: n.prefix_len() })
        },
        Err(_) => None,
    }
}

/// Relies on `Ipv4Addr` string parsing: a dotted-quad address.
#[verifier::external_body]
fn parse_v4_addr(s: &str) -> (r: Option<u32>)
    ensures
        r == v4_addr_of(s@),
{
    match s.parse::<core::net::Ipv4Addr>() {
        Ok(a) => Some(u32::from(a)),
        Err(_) => None,
    }
}

/// Relies on `Ipv6Addr` string parsing: an IPv6 address literal.
#[verifier::external_body]
fn parse_v6_addr(s: &str) -> (r: Option<u128>)
    ensures
        r == v6_addr_of(s@),
{
    match s.parse::<core::net::Ipv6Addr>() {
        Ok(a) => Some(u128::from(a)),
        Err(_) => None,
    }
}

/// Relies on ipnet's `Display` for `Ipv4Net` and `Ipv6Net`:
/// `<address>/<prefix length>`, the address in its family's canonical
/// text form. `Ipv4Net::new` and `Ipv6Net::new` only reject lengths over
/// the family's width, which well-formedness rules out.
#[verifier::external_body]
pub(crate) fn format_prefix(p: &Prefix) -> (r: String)
    requires
        p.wf(),
    ensures
        r@ == prefix_text(*p),
{
    if p.v6 {
        let a = core::net::Ipv6Addr::from(p.addr);
        ipnet::Ipv6Net::new(a, p.len).unwrap().to_string()
    } else {
        let a = core::net::Ipv4Addr::from(p.addr as u32);
        ipnet::Ipv4Net::new(a, p.len).unwrap().to_string()
    }
}

/// Parses a string into a prefix: either CIDR notation (`10.1.1.0/24`,
/// `2001:db8::/32`) or a single address, which becomes a full-length
/// prefix (`/32` for IPv4, `/128` for IPv6). Surrounding whitespace is
/// trimmed first; text that fits none of these forms yields `None`.
pub fn from_str(s: &str) -> (r: Option<Prefix>)
    ensures
        r == parse_spec(s@),
        r matches Some(p) ==> p.wf(),
{
    let t = trim_str(s);
    if let Some(p) = parse_cidr(t) {
        return Some(p);
    }
    if let Some(a) = parse_v6_addr(t) {
        return Some(Prefix { v6: true, addr: a, len: 128 });
    }
    if let Some(a) = parse_v4_addr(t) {
        return Some(Prefix { v6: false, addr: a as u128, len: 32 });
    }
    None
}

} // verus!
