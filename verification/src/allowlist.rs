//! Matching an extracted host against normalized allowlist patterns.

use vstd::prelude::*;
use vstd::string::StrSliceExecFns;
use crate::domain::starts_with;
use crate::text::{is_suffix_of, eq_ranges, str_eq, s_get};

verus! {

/// Whether one normalized pattern admits the host: `*` admits every host;
/// `*.example.com` admits `example.com` and every host ending in
/// `.example.com`; any other pattern admits itself and every host ending in
/// `.` followed by the pattern.
pub open spec fn pattern_matches(host: Seq<char>, pat: Seq<char>) -> bool {
    if pat == "*"@ {
        true
    } else if starts_with(pat, "*."@) {
        is_suffix_of(pat.skip(1), host) || host == pat.skip(2)
    } else {
        host == pat || is_suffix_of("."@ + pat, host)
    }
}

/// Whether some pattern of the allowlist admits the host.
pub open spec fn matches_any(host: Seq<char>, pats: Seq<Seq<char>>) -> bool {
    exists|i: int| 0 <= i < pats.len() && pattern_matches(host, #[trigger] pats[i])
}

/// Whether `suf` is a suffix of `s`, executable form.
fn ends_with_range(s: &str, suf: &str, from: usize) -> (r: bool)
    requires
        from <= suf@.len(),
    ensures
        r == is_suffix_of(suf@.skip(from as int), s@),
{
    let n = s.unicode_len();
    let m = suf.unicode_len() - from;
    if m > n {
        return false;
    }
    let r = eq_ranges(s, n - m, n, suf, from, from + m);
    proof {
        let tail = suf@.skip(from as int);
        assert(suf@.subrange(from as int, from + m) =~= tail);
        assert(s@.subrange(n - m, n as int) =~= s@.skip(n - m));
    }
    r
}

/// Whether one pattern admits the host, executable form.
#[verifier::rlimit(30)]
fn pattern_match(host: &str, pat: &str) -> (r: bool)
    ensures
        r == pattern_matches(host@, pat@),
{
    let pn = pat.unicode_len();
    let hn = host.unicode_len();
    proof {
        reveal_strlit("*");
        reveal_strlit("*.");
        reveal_strlit(".");
    }
    if pn == 1 && s_get(pat, 0) == '*' {
        proof {
            assert(pat@ =~= "*"@);
        }
        return true;
    }
    proof {
        assert(pat@ != "*"@);
    }
    if pn >= 2 && s_get(pat, 0) == '*' && s_get(pat, 1) == '.' {
        proof {
            assert(pat@.take(2) =~= "*."@);
        }
        if ends_with_range(host, pat, 1) {
            return true;
        }
        let bare = if hn == pn - 2 {
            eq_ranges(host, 0, hn, pat, 2, pn)
        } else {
            false
        };
        proof {
            let sub = pat@.skip(2);
            if hn == pn - 2 {
                assert(host@.subrange(0, hn as int) =~= host@);
                assert(pat@.subrange(2, pn as int) =~= sub);
            } else {
                assert(host@.len() != sub.len());
            }
        }
        return bare;
    }
    proof {
        if starts_with(pat@, "*."@) {
            assert(pat@[0] == "*."@[0]);
            assert(pat@[1] == "*."@[1]);
        }
    }
    if str_eq(host, pat) {
        return true;
    }
    if pn < hn {
        if s_get(host, hn - pn - 1) == '.' && eq_ranges(host, hn - pn, hn, pat, 0, pn) {
            proof {
                reveal_strlit(".");
                let suf = "."@ + pat@;
                let tail = host@.skip(hn - 1 - pn);
                let sa = host@.subrange(hn - pn, hn as int);
                let sb = pat@.subrange(0, pn as int);
                assert forall|j: int| 0 <= j < suf.len() implies tail[j] == suf[j] by {
                    if j == 0 {
                        assert(suf[0] == '.');
                        assert(tail[0] == host@[hn - 1 - pn]);
                    } else {
                        assert(suf[j] == pat@[j - 1]);
                        assert(sa[j - 1] == sb[j - 1]);
                        assert(tail[j] == host@[hn - pn + (j - 1)]);
                    }
                }
                assert(tail =~= suf);
            }
            return true;
        }
    }
    proof {
        reveal_strlit(".");
        let suf = "."@ + pat@;
        if is_suffix_of(suf, host@) {
            let tail = host@.skip(hn - suf.len());
            assert(tail[0] == '.');
            assert(host@[hn - pn - 1] == '.');
            let sa = host@.subrange(hn - pn, hn as int);
            let sb = pat@.subrange(0, pn as int);
            assert forall|j: int| 0 <= j < pn implies sa[j] == sb[j] by {
                assert(tail[j + 1] == suf[j + 1]);
            }
            assert(sa =~= sb);
        }
    }
    false
}

/// Whether the host is admitted by any pattern in the allowlist. Patterns
/// must already be normalized and the host already extracted; nothing is
/// normalized here.
pub fn host_matches_allowlist(host: &str, allowed_domains: &[String]) -> (r: bool)
    ensures
        r == matches_any(host@, allowed_domains.deep_view()),
{
    let n = allowed_domains.len();
    let mut i: usize = 0;
    while i < n
        invariant
            0 <= i <= n,
            n == allowed_domains@.len(),
            forall|j: int|
                0 <= j < i ==> !pattern_matches(
                    host@,
                    #[trigger] allowed_domains.deep_view()[j],
                ),
        decreases n - i,
    {
        let pat: &String = &allowed_domains[i];
        if pattern_match(host, pat.as_str()) {
            proof {
                assert(allowed_domains.deep_view()[i as int] == pat@);
            }
            return true;
        }
        proof {
            assert(allowed_domains.deep_view()[i as int] == pat@);
        }
        i = i + 1;
    }
    false
}

/// The match-all pattern `*` admits every host.
pub proof fn lemma_wildcard_matches_every_host(host: Seq<char>, pats: Seq<Seq<char>>)
    requires
        exists|i: int| 0 <= i < pats.len() && #[trigger] pats[i] == "*"@,
    ensures
        matches_any(host, pats),
{
    let i = choose|i: int| 0 <= i < pats.len() && #[trigger] pats[i] == "*"@;
    assert(pattern_matches(host, pats[i]));
}

} // verus!
