//! Host-validation guard against server-side request forgery.
//!
//! The crate decides whether the destination host of an outbound request is
//! acceptable: it normalizes operator-configured allowlist entries, extracts
//! the host from a URL under a strict scheme/userinfo/IPv6 policy, matches a
//! host against allowlist patterns, and classifies hosts that denote
//! private, loopback, link-local or otherwise non-globally-routable
//! destinations.

pub mod allowlist;
pub mod classify;
pub mod domain;
pub mod ipv4;
pub mod ipv6;
pub mod text;
pub mod url;

pub use allowlist::host_matches_allowlist;
pub use classify::is_private_or_local_host;
pub use domain::normalize_domain;
pub use domain::normalize_allowed_domains;
pub use ipv4::Ipv4Address;
pub use ipv4::is_non_global_v4;
pub use ipv6::Ipv6Address;
pub use ipv6::is_non_global_v6;
pub use url::SchemeConstraint;
pub use url::HostError;
pub use url::extract_host;
