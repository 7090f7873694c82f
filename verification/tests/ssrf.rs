//! Classification of private and local hosts.

use ssrf_guard::is_private_or_local_host;

#[test]
fn ssrf_blocks_localhost() {
    assert!(is_private_or_local_host("localhost"));
    assert!(is_private_or_local_host("LOCALHOST"));
}

#[test]
fn ssrf_blocks_localhost_subdomain() {
    assert!(is_private_or_local_host("evil.localhost"));
    assert!(is_private_or_local_host("a.b.localhost"));
}

#[test]
fn ssrf_blocks_local_tld() {
    assert!(is_private_or_local_host("service.local"));
    assert!(is_private_or_local_host("host.local"));
}

#[test]
fn ssrf_blocks_loopback_ipv4() {
    assert!(is_private_or_local_host("127.0.0.1"));
    assert!(is_private_or_local_host("127.0.0.2"));
    assert!(is_private_or_local_host("127.255.255.255"));
}

#[test]
fn ssrf_blocks_rfc1918() {
    assert!(is_private_or_local_host("10.0.0.1"));
    assert!(is_private_or_local_host("172.16.0.1"));
    assert!(is_private_or_local_host("192.168.1.1"));
}

#[test]
fn ssrf_blocks_link_local() {
    assert!(is_private_or_local_host("169.254.0.1"));
    assert!(is_private_or_local_host("169.254.255.255"));
}

#[test]
fn ssrf_blocks_unspecified() {
    assert!(is_private_or_local_host("0.0.0.0"));
}

#[test]
fn ssrf_blocks_broadcast() {
    assert!(is_private_or_local_host("255.255.255.255"));
}

#[test]
fn ssrf_blocks_multicast_ipv4() {
    assert!(is_private_or_local_host("224.0.0.1"));
    assert!(is_private_or_local_host("239.255.255.255"));
}

#[test]
fn ssrf_blocks_shared_address_space() {
    assert!(is_private_or_local_host("100.64.0.1"));
    assert!(is_private_or_local_host("100.127.255.255"));
}

#[test]
fn ssrf_blocks_reserved_ipv4() {
    assert!(is_private_or_local_host("240.0.0.1"));
    assert!(is_private_or_local_host("250.1.2.3"));
}

#[test]
fn ssrf_blocks_documentation_ranges() {
    assert!(is_private_or_local_host("192.0.2.1"));
    assert!(is_private_or_local_host("198.51.100.1"));
    assert!(is_private_or_local_host("203.0.113.1"));
}

#[test]
fn ssrf_blocks_benchmarking_range() {
    assert!(is_private_or_local_host("198.18.0.1"));
    assert!(is_private_or_local_host("198.19.255.255"));
}

#[test]
fn ssrf_blocks_ipv6_loopback() {
    assert!(is_private_or_local_host("::1"));
    assert!(is_private_or_local_host("[::1]"));
}

#[test]
fn ssrf_blocks_ipv6_unspecified() {
    assert!(is_private_or_local_host("::"));
}

#[test]
fn ssrf_blocks_ipv6_multicast() {
    assert!(is_private_or_local_host("ff02::1"));
}

#[test]
fn ssrf_blocks_ipv6_link_local() {
    assert!(is_private_or_local_host("fe80::1"));
}

#[test]
fn ssrf_blocks_ipv6_unique_local() {
    assert!(is_private_or_local_host("fd00::1"));
}

#[test]
fn ssrf_blocks_ipv6_documentation() {
    assert!(is_private_or_local_host("2001:db8::1"));
}

#[test]
fn ssrf_blocks_ipv4_mapped_ipv6() {
    assert!(is_private_or_local_host("::ffff:127.0.0.1"));
    assert!(is_private_or_local_host("::ffff:192.168.1.1"));
    assert!(is_private_or_local_host("::ffff:10.0.0.1"));
}

#[test]
fn ssrf_allows_public_ipv4() {
    assert!(!is_private_or_local_host("8.8.8.8"));
    assert!(!is_private_or_local_host("1.1.1.1"));
    assert!(!is_private_or_local_host("93.184.216.34"));
}

#[test]
fn ssrf_allows_public_ipv6() {
    assert!(!is_private_or_local_host("2607:f8b0:4004:800::200e"));
}

#[test]
fn ssrf_allows_public_hostname() {
    assert!(!is_private_or_local_host("example.com"));
    assert!(!is_private_or_local_host("www.google.com"));
}

#[test]
fn ssrf_octal_loopback_not_parsed_as_ip() {
    assert!(!is_private_or_local_host("0177.0.0.1"));
}

#[test]
fn ssrf_hex_loopback_not_parsed_as_ip() {
    assert!(!is_private_or_local_host("0x7f000001"));
}

#[test]
fn ssrf_decimal_loopback_not_parsed_as_ip() {
    assert!(!is_private_or_local_host("2130706433"));
}

#[test]
fn ssrf_zero_padded_loopback_not_parsed_as_ip() {
    assert!(!is_private_or_local_host("127.000.000.001"));
}

#[test]
fn ssrf_blocks_special_purpose_range() {
    assert!(is_private_or_local_host("192.0.0.1"));
    assert!(is_private_or_local_host("192.0.0.255"));
}

#[test]
fn ssrf_allows_neighbours_of_blocked_ranges() {
    assert!(!is_private_or_local_host("126.255.255.255"));
    assert!(!is_private_or_local_host("128.0.0.1"));
    assert!(!is_private_or_local_host("172.15.255.255"));
    assert!(!is_private_or_local_host("172.32.0.1"));
    assert!(!is_private_or_local_host("100.63.255.255"));
    assert!(!is_private_or_local_host("100.128.0.1"));
    assert!(!is_private_or_local_host("198.17.0.1"));
    assert!(!is_private_or_local_host("198.20.0.1"));
    assert!(!is_private_or_local_host("223.255.255.255"));
}

#[test]
fn ssrf_rejects_malformed_ipv6_literals() {
    assert!(!is_private_or_local_host(":::"));
    assert!(!is_private_or_local_host(":1:2:3:4:5:6:7"));
    assert!(!is_private_or_local_host("1:2:3:4:5:6:7"));
    assert!(!is_private_or_local_host("1:2:3:4:5:6:7:8:9"));
    assert!(!is_private_or_local_host("fe80::1::2"));
}

#[test]
fn ssrf_uppercase_hex_ipv6_is_recognized() {
    assert!(is_private_or_local_host("FE80::1"));
    assert!(is_private_or_local_host("::FFFF:10.0.0.1"));
}

#[test]
fn ssrf_ipv6_group_count_edge_cases() {
    // A `::` must stand for at least one zero group.
    assert!(is_private_or_local_host("fe80:0:0:0:0:0:0:1"));
    assert!(is_private_or_local_host("fe80::1:2:3:4:5:6"));
    assert!(!is_private_or_local_host("fe80::1:2:3:4:5:6:7"));
}

#[test]
fn ssrf_ipv6_embedded_ipv4_edge_cases() {
    assert!(is_private_or_local_host("fe80::10.0.0.1"));
    // An embedded IPv4 literal obeys the strict IPv4 grammar.
    assert!(!is_private_or_local_host("::ffff:0177.0.0.1"));
    assert!(!is_private_or_local_host("::ffff:127.000.000.001"));
    // An embedded IPv4 literal cannot stand before the `::`.
    assert!(!is_private_or_local_host("10.0.0.1::"));
}
