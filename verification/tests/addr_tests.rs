use netmon::addr::{Ipv4Address, ip_to_string, is_public_ip, parse_ipv4, port_to_host, prefix_to_netmask};

fn ip(a: u8, b: u8, c: u8, d: u8) -> Ipv4Address {
    Ipv4Address { oct0: a, oct1: b, oct2: c, oct3: d }
}

#[test]
fn private_ranges_are_not_public() {
    assert!(!ip(10, 0, 0, 1).is_public());
    assert!(!ip(10, 255, 255, 255).is_public());
    assert!(!ip(172, 16, 0, 1).is_public());
    assert!(!ip(172, 31, 255, 254).is_public());
    assert!(!ip(192, 168, 0, 1).is_public());
    assert!(!ip(192, 168, 255, 255).is_public());
    assert!(!ip(127, 0, 0, 1).is_public());
    assert!(!ip(169, 254, 1, 1).is_public());
    assert!(!ip(224, 0, 0, 1).is_public());
    assert!(!ip(239, 255, 255, 255).is_public());
}

#[test]
fn known_public_addresses_are_public() {
    assert!(ip(8, 8, 8, 8).is_public());
    assert!(ip(1, 1, 1, 1).is_public());
    assert!(ip(203, 0, 113, 9).is_public());
}

#[test]
fn range_edges() {
    // Just outside 172.16.0.0/12 on both sides.
    assert!(ip(172, 15, 0, 1).is_public());
    assert!(ip(172, 32, 0, 1).is_public());
    // Just outside link-local.
    assert!(ip(169, 253, 0, 1).is_public());
    assert!(ip(169, 255, 0, 1).is_public());
    // Just below multicast, just above it.
    assert!(ip(223, 255, 255, 255).is_public());
    assert!(ip(240, 0, 0, 1).is_public());
}

#[test]
fn is_public_ip_on_text() {
    assert!(is_public_ip("8.8.8.8"));
    assert!(is_public_ip("1.1.1.1"));
    assert!(!is_public_ip("10.1.2.3"));
    assert!(!is_public_ip("192.168.1.5"));
    assert!(!is_public_ip("127.0.0.1"));
    assert!(!is_public_ip("230.1.2.3"));
}

#[test]
fn unparsable_text_fails_closed() {
    assert!(!is_public_ip(""));
    assert!(!is_public_ip("not an ip"));
    assert!(!is_public_ip("8.8.8"));
    assert!(!is_public_ip("8.8.8.8.8"));
    assert!(!is_public_ip("256.1.1.1"));
    assert!(!is_public_ip("8.8.8.8 "));
    assert!(!is_public_ip("8.8.8.-8"));
    assert!(!is_public_ip("8..8.8"));
}

#[test]
fn parse_accepts_canonical_forms_only() {
    assert_eq!(parse_ipv4("0.0.0.0"), Some(ip(0, 0, 0, 0)));
    assert_eq!(parse_ipv4("255.255.255.255"), Some(ip(255, 255, 255, 255)));
    assert_eq!(parse_ipv4("1.22.333.4"), None);
    assert_eq!(parse_ipv4("01.2.3.4"), None);
    assert_eq!(parse_ipv4("1.2.3.04"), None);
    assert_eq!(parse_ipv4("1.2.3.4x"), None);
}

#[test]
fn renders_dotted_decimal() {
    assert_eq!(ip(203, 0, 113, 9).to_text(), "203.0.113.9");
    assert_eq!(ip(0, 0, 0, 0).to_text(), "0.0.0.0");
}

#[test]
fn table_dword_renders_least_significant_byte_first() {
    // 8.8.4.4 stored as a little-endian table dword.
    let dword = 8u32 | (8u32 << 8) | (4u32 << 16) | (4u32 << 24);
    assert_eq!(ip_to_string(dword), "8.8.4.4");
    assert_eq!(ip_to_string(0x0100007F), "127.0.0.1");
}

#[test]
fn port_dword_converts_from_network_order() {
    // Port 443 = 0x01BB, stored with the high byte in the low position.
    assert_eq!(port_to_host(0xBB01), 443);
    assert_eq!(port_to_host(0x0000), 0);
    assert_eq!(port_to_host(0xFFFF), 65535);
    // Only the low two bytes count.
    assert_eq!(port_to_host(0xDEAD_BB01), 443);
}

#[test]
fn netmask_from_prefix() {
    assert_eq!(prefix_to_netmask(0), "0.0.0.0");
    assert_eq!(prefix_to_netmask(8), "255.0.0.0");
    assert_eq!(prefix_to_netmask(16), "255.255.0.0");
    assert_eq!(prefix_to_netmask(24), "255.255.255.0");
    assert_eq!(prefix_to_netmask(25), "255.255.255.128");
    assert_eq!(prefix_to_netmask(32), "255.255.255.255");
    assert_eq!(prefix_to_netmask(33), "255.255.255.255");
}
