//! Host extraction behaviour.

use ssrf_guard::{extract_host, HostError, SchemeConstraint};

#[test]
fn extract_host_https_only() {
    let host = extract_host("https://example.com/path", SchemeConstraint::HttpsOnly).unwrap();
    assert_eq!(host, "example.com");
}

#[test]
fn extract_host_http_or_https() {
    let host_http = extract_host("http://example.com/path", SchemeConstraint::HttpOrHttps).unwrap();
    let host_https =
        extract_host("https://example.com/path", SchemeConstraint::HttpOrHttps).unwrap();
    assert_eq!(host_http, "example.com");
    assert_eq!(host_https, "example.com");
}

#[test]
fn extract_host_rejects_http_when_https_only() {
    let err = extract_host("http://example.com", SchemeConstraint::HttpsOnly)
        .unwrap_err()
        .message();
    assert!(err.contains("https://"));
}

#[test]
fn extract_host_rejects_empty_url() {
    let err = extract_host("", SchemeConstraint::HttpOrHttps)
        .unwrap_err()
        .message();
    assert!(err.contains("empty"));
}

#[test]
fn extract_host_rejects_whitespace_url() {
    let err = extract_host(
        "https://example.com/hello world",
        SchemeConstraint::HttpsOnly,
    )
    .unwrap_err()
    .message();
    assert!(err.contains("whitespace"));
}

#[test]
fn extract_host_rejects_userinfo() {
    let err = extract_host("https://user@example.com", SchemeConstraint::HttpsOnly)
        .unwrap_err()
        .message();
    assert!(err.contains("userinfo"));
}

#[test]
fn extract_host_rejects_ipv6() {
    let err = extract_host("https://[::1]:8080/path", SchemeConstraint::HttpsOnly)
        .unwrap_err()
        .message();
    assert!(err.contains("IPv6"));
}

#[test]
fn extract_host_strips_port() {
    let host = extract_host("https://example.com:8080", SchemeConstraint::HttpsOnly).unwrap();
    assert_eq!(host, "example.com");
}

#[test]
fn extract_host_lowercases() {
    let host = extract_host("https://EXAMPLE.COM", SchemeConstraint::HttpsOnly).unwrap();
    assert_eq!(host, "example.com");
}

#[test]
fn extract_host_uppercase_example_with_port() {
    let host = extract_host("https://EXAMPLE.com:8080/x", SchemeConstraint::HttpsOnly).unwrap();
    assert_eq!(host, "example.com");
}

#[test]
fn extract_host_error_variants_are_distinguishable() {
    assert_eq!(
        extract_host("http://example.com", SchemeConstraint::HttpsOnly).unwrap_err(),
        HostError::InvalidScheme
    );
    assert_eq!(
        extract_host("   ", SchemeConstraint::HttpsOnly).unwrap_err(),
        HostError::EmptyUrl
    );
    assert_eq!(
        extract_host("https://a b.com", SchemeConstraint::HttpsOnly).unwrap_err(),
        HostError::WhitespaceInUrl
    );
    assert_eq!(
        extract_host("https://user@example.com", SchemeConstraint::HttpsOnly).unwrap_err(),
        HostError::UserinfoNotAllowed
    );
    assert_eq!(
        extract_host("https://[::1]/p", SchemeConstraint::HttpsOnly).unwrap_err(),
        HostError::Ipv6NotSupported
    );
    assert_eq!(
        extract_host("https:///path", SchemeConstraint::HttpsOnly).unwrap_err(),
        HostError::MissingHost
    );
    assert_eq!(
        extract_host("https://:8080", SchemeConstraint::HttpsOnly).unwrap_err(),
        HostError::MissingHost
    );
}

#[test]
fn extract_host_strips_trailing_dot() {
    let host = extract_host("https://example.com./path", SchemeConstraint::HttpsOnly).unwrap();
    assert_eq!(host, "example.com");
}

#[test]
fn extract_host_stops_authority_at_query_and_fragment() {
    let q = extract_host("https://example.com?x=1", SchemeConstraint::HttpsOnly).unwrap();
    let f = extract_host("https://example.com#frag", SchemeConstraint::HttpsOnly).unwrap();
    assert_eq!(q, "example.com");
    assert_eq!(f, "example.com");
}

#[test]
fn extract_host_trims_surrounding_whitespace() {
    let host = extract_host("  https://example.com/  ", SchemeConstraint::HttpsOnly).unwrap();
    assert_eq!(host, "example.com");
}
