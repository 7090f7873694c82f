//! Domain normalization behaviour.

use ssrf_guard::{normalize_allowed_domains, normalize_domain};

#[test]
fn normalize_domain_strips_scheme_path_and_case() {
    let got = normalize_domain("  HTTPS://Docs.Example.com/path ").unwrap();
    assert_eq!(got, "docs.example.com");
}

#[test]
fn normalize_allowed_domains_deduplicates() {
    let got = normalize_allowed_domains(vec![
        "example.com".to_string(),
        "EXAMPLE.COM".to_string(),
        "https://example.com/".to_string(),
    ]);
    assert_eq!(got, vec!["example.com".to_string()]);
}

#[test]
fn normalize_domain_strips_port() {
    let got = normalize_domain("example.com:8080").unwrap();
    assert_eq!(got, "example.com");
}

#[test]
fn normalize_domain_strips_dots() {
    let got = normalize_domain(".example.com.").unwrap();
    assert_eq!(got, "example.com");
}

#[test]
fn normalize_domain_rejects_empty() {
    assert!(normalize_domain("").is_none());
    assert!(normalize_domain("   ").is_none());
}

#[test]
fn normalize_domain_rejects_whitespace() {
    assert!(normalize_domain("example .com").is_none());
}

#[test]
fn normalize_domain_is_idempotent_on_its_result() {
    let first = normalize_domain("  HTTP://API.Example.org:8443/v1 ").unwrap();
    assert_eq!(first, "api.example.org");
    let second = normalize_domain(&first).unwrap();
    assert_eq!(second, first);
}

#[test]
fn normalize_allowed_domains_is_order_independent() {
    let a = normalize_allowed_domains(vec![
        "b.example.com".to_string(),
        "a.example.com".to_string(),
        "c.example.com".to_string(),
    ]);
    let b = normalize_allowed_domains(vec![
        "c.example.com".to_string(),
        "a.example.com".to_string(),
        "b.example.com".to_string(),
        "a.example.com".to_string(),
    ]);
    assert_eq!(a, b);
    assert_eq!(
        a,
        vec![
            "a.example.com".to_string(),
            "b.example.com".to_string(),
            "c.example.com".to_string(),
        ]
    );
}

#[test]
fn normalize_allowed_domains_drops_invalid_entries() {
    let got = normalize_allowed_domains(vec![
        "   ".to_string(),
        "bad entry.com".to_string(),
        "good.example.com".to_string(),
    ]);
    assert_eq!(got, vec!["good.example.com".to_string()]);
}

#[test]
fn normalize_domain_keeps_wildcard_patterns_verbatim() {
    let got = normalize_domain("*.Example.com").unwrap();
    assert_eq!(got, "*.example.com");
    let star = normalize_domain("*").unwrap();
    assert_eq!(star, "*");
}
