//! Classification of hosts that denote private, local or otherwise
//! non-globally-routable destinations.

use vstd::prelude::*;
use vstd::string::StrSliceExecFns;
use crate::ipv4::{parse_ipv4, parse_ipv4_exec, ipv4_non_global, is_non_global_v4, Ipv4Address};
use crate::ipv6::{parse_ipv6, parse_ipv6_exec, ipv6_non_global, is_non_global_v6};
use crate::text::{
    fold_seq, fold_str, is_suffix_of, last_label, lemma_last_label, eq_ranges, str_eq, s_get,
};

verus! {

/// One surrounding `[` / `]` bracket pair removed, if both are present.
pub open spec fn strip_brackets(s: Seq<char>) -> Seq<char> {
    if s.len() >= 2 && s[0] == '[' && s.last() == ']' {
        s.subrange(1, s.len() - 1)
    } else {
        s
    }
}

/// A lexically local name: `localhost` itself, anything under
/// `.localhost`, and any name whose last label is `local`.
pub open spec fn is_local_name(h: Seq<char>) -> bool {
    h == "localhost"@ || is_suffix_of(".localhost"@, h) || last_label(h) == "local"@
}

/// Whether a host denotes a private or local destination: after stripping
/// one bracket pair, either its lowercase folding is a lexically local
/// name, or it is an IPv4 or IPv6 literal in a non-global range. A string
/// that is no IP literal — including octal, hexadecimal, bare-decimal and
/// zero-padded IPv4 notations — is an ordinary hostname and is not
/// flagged.
pub open spec fn private_or_local(host: Seq<char>) -> bool {
    let bare = strip_brackets(host);
    let low = fold_seq(bare);
    if is_local_name(low) {
        true
    } else {
        match parse_ipv4(bare) {
            Some(ip) => ipv4_non_global(ip),
            None => match parse_ipv6(bare) {
                Some(g) => ipv6_non_global(g),
                None => false,
            },
        }
    }
}

/// Whether `s` ends with the whole of `suf`, executable form.
fn ends_with_str(s: &str, suf: &str) -> (r: bool)
    ensures
        r == is_suffix_of(suf@, s@),
{
    let n = s.unicode_len();
    let m = suf.unicode_len();
    if m > n {
        return false;
    }
    let r = eq_ranges(s, n - m, n, suf, 0, m);
    proof {
        assert(suf@.subrange(0, m as int) =~= suf@);
        assert(s@.subrange(n - m, n as int) =~= s@.skip(n - m));
    }
    r
}

/// Whether the host is a private or local destination that must be blocked.
pub fn is_private_or_local_host(host: &str) -> (r: bool)
    ensures
        r == private_or_local(host@),
{
    let n = host.unicode_len();
    // Strip one bracket pair, for callers that hand a bracketed IPv6 form.
    let bare: &str = if n >= 2 && s_get(host, 0) == '[' && s_get(host, n - 1) == ']' {
        host.substring_char(1, n - 1)
    } else {
        proof {
            assert(strip_brackets(host@) == host@);
        }
        host
    };
    proof {
        assert(bare@ == strip_brackets(host@));
    }
    // Lexical checks on the lowercase folding.
    let low = fold_str(bare);
    if str_eq(low.as_str(), "localhost") {
        return true;
    }
    if ends_with_str(low.as_str(), ".localhost") {
        return true;
    }
    let ln = low.as_str().unicode_len();
    let mut k: usize = ln;
    while k > 0 && s_get(low.as_str(), k - 1) != '.'
        invariant
            0 <= k <= ln,
            ln == low@.len(),
            forall|i: int| k <= i < ln ==> #[trigger] low@[i] != '.',
        decreases k,
    {
        k = k - 1;
    }
    proof {
        lemma_last_label(low@, k as int);
    }
    let label = low.as_str().substring_char(k, ln);
    if str_eq(label, "local") {
        return true;
    }
    // Structural checks on the IP literal, in its original case.
    match parse_ipv4_exec(bare) {
        Some(ip) => is_non_global_v4(ip),
        None => match parse_ipv6_exec(bare) {
            Some(v6) => is_non_global_v6(&v6),
            None => false,
        },
    }
}

/// An IPv4 literal in one of the blocked ranges is always classified as
/// private or local, whatever else the host string looks like.
pub proof fn lemma_blocked_ipv4_literal_is_private(host: Seq<char>, ip: Ipv4Address)
    requires
        parse_ipv4(strip_brackets(host)) == Some(ip),
        ip.a == 127 || ip.a == 10 || (ip.a == 172 && 16 <= ip.b && ip.b <= 31) || (ip.a == 192
            && ip.b == 168) || (ip.a == 169 && ip.b == 254) || (ip.a == 100 && 64 <= ip.b && ip.b
            <= 127) || ip.a >= 240 || (ip.a == 198 && (ip.b == 18 || ip.b == 19)) || (ip.a == 192
            && ip.b == 0 && ip.c == 2) || (ip.a == 198 && ip.b == 51 && ip.c == 100) || (ip.a == 203
            && ip.b == 0 && ip.c == 113),
    ensures
        private_or_local(host),
{
}

} // verus!
