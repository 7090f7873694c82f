//! Allowlist pattern matching behaviour.

use ssrf_guard::host_matches_allowlist;

#[test]
fn allowlist_matches_wildcard() {
    assert!(host_matches_allowlist("any.host", &["*".to_string()]));
}

#[test]
fn allowlist_matches_exact_domain() {
    assert!(host_matches_allowlist(
        "example.com",
        &["example.com".to_string()]
    ));
    assert!(!host_matches_allowlist(
        "other.com",
        &["example.com".to_string()]
    ));
}

#[test]
fn allowlist_matches_subdomain() {
    assert!(host_matches_allowlist(
        "api.example.com",
        &["example.com".to_string()]
    ));
    assert!(host_matches_allowlist(
        "deep.api.example.com",
        &["example.com".to_string()]
    ));
}

#[test]
fn allowlist_matches_wildcard_pattern() {
    assert!(host_matches_allowlist(
        "example.com",
        &["*.example.com".to_string()]
    ));
    assert!(host_matches_allowlist(
        "api.example.com",
        &["*.example.com".to_string()]
    ));
    assert!(!host_matches_allowlist(
        "other.com",
        &["*.example.com".to_string()]
    ));
}

#[test]
fn allowlist_rejects_embedded_substring() {
    assert!(!host_matches_allowlist(
        "evilexample.com",
        &["example.com".to_string()]
    ));
    assert!(!host_matches_allowlist(
        "evil.example.com.attacker.net",
        &["example.com".to_string()]
    ));
}

#[test]
fn allowlist_wildcard_matches_arbitrary_hosts() {
    let star = vec!["*".to_string()];
    assert!(host_matches_allowlist("", &star));
    assert!(host_matches_allowlist("localhost", &star));
    assert!(host_matches_allowlist("a.very.deep.sub.domain.example", &star));
}

#[test]
fn allowlist_empty_list_matches_nothing() {
    let none: Vec<String> = Vec::new();
    assert!(!host_matches_allowlist("example.com", &none));
}
