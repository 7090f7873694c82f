//! Direct classification of address values.

use ssrf_guard::{is_non_global_v4, is_non_global_v6, Ipv4Address, Ipv6Address};

#[test]
fn v4_loopback_and_public() {
    assert!(is_non_global_v4(Ipv4Address { a: 127, b: 0, c: 0, d: 1 }));
    assert!(is_non_global_v4(Ipv4Address { a: 10, b: 255, c: 255, d: 255 }));
    assert!(is_non_global_v4(Ipv4Address { a: 198, b: 51, c: 100, d: 7 }));
    assert!(!is_non_global_v4(Ipv4Address { a: 198, b: 51, c: 99, d: 7 }));
    assert!(!is_non_global_v4(Ipv4Address { a: 8, b: 8, c: 8, d: 8 }));
}

#[test]
fn v6_loopback_and_public() {
    let loopback = Ipv6Address { segments: vec![0, 0, 0, 0, 0, 0, 0, 1] };
    assert!(is_non_global_v6(&loopback));
    let public = Ipv6Address { segments: vec![0x2607, 0xf8b0, 0x4004, 0x800, 0, 0, 0, 0x200e] };
    assert!(!is_non_global_v6(&public));
    let mapped_private = Ipv6Address { segments: vec![0, 0, 0, 0, 0, 0xffff, 0x0a00, 0x0001] };
    assert!(is_non_global_v6(&mapped_private));
}
