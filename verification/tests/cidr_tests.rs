use net_reduce::cidr::from_str;
use net_reduce::parse::parse_to_cidr;
use net_reduce::prefix::Prefix;

#[test]
fn test_parse_to_cidr_with_cidr_notation() {
    let net = Prefix { v6: false, addr: 0xC0A8_0000, len: 24 };
    assert_eq!(from_str(" 192.168.0.0/24 "), Some(net));
}

#[test]
fn test_parse_to_cidr_with_single_ipv4_address() {
    let net = Prefix { v6: false, addr: 0x0A00_0001, len: 32 };
    assert_eq!(from_str("10.0.0.1"), Some(net));
}

#[test]
fn test_parse_to_cidr_with_single_ipv6_address() {
    let net = Prefix { v6: true, addr: 0x2001_0db8_0000_0000_0000_0000_0000_0001, len: 128 };
    assert_eq!(from_str("2001:db8::1"), Some(net));
}

#[test]
fn test_parse_to_cidr_with_invalid_input() {
    assert_eq!(from_str("not an ip"), None);
}

#[test]
fn test_parse_to_cidr_with_whitespace() {
    let net = Prefix { v6: false, addr: 0x0A00_0001, len: 32 };
    assert_eq!(from_str("  10.0.0.1  "), Some(net));
}

#[test]
fn test_parse_truncates_host_bits() {
    let net = Prefix { v6: false, addr: 0xC0A8_0000, len: 16 };
    assert_eq!(from_str("192.168.1.1/16"), Some(net));
}

#[test]
fn test_parse_rejects_overlong_prefix_length() {
    assert_eq!(from_str("10.0.0.0/33"), None);
    assert_eq!(from_str("2001:db8::/129"), None);
}

#[test]
fn test_parse_to_cidr_matches_from_str() {
    for text in ["192.168.0.0/24", "10.0.0.1", "2001:db8::1", "junk"] {
        assert_eq!(parse_to_cidr(text), from_str(text));
    }
}
