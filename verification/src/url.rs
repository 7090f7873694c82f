//! Strict URL host extraction.

use vstd::prelude::*;
use vstd::string::StrSliceExecFns;
use vstd::string::StringExecFns;
use crate::domain::{starts_with, starts_with_str};
use crate::text::{
    fold_seq, fold_str, trim_spec, trim_str, lemma_trim_noop, has_ws, contains_whitespace,
    take_until_char, drop_char_end, lemma_find_char_at, lemma_drop_char_end_take, find_char_from,
    s_get,
};

verus! {

/// The scheme policy a calling tool imposes on the URLs it accepts.
#[derive(Debug, Clone, Copy, PartialEq, Eq, Structural)]
pub enum SchemeConstraint {
    /// Only `https://` URLs are allowed.
    HttpsOnly,
    /// Both `http://` and `https://` URLs are allowed.
    HttpOrHttps,
}

/// Why a URL was refused; every variant is terminal for the request.
#[derive(Debug, Clone, Copy, PartialEq, Eq, Structural)]
pub enum HostError {
    /// The URL was empty after trimming.
    EmptyUrl,
    /// The URL holds an internal whitespace character.
    WhitespaceInUrl,
    /// The required scheme prefix is absent or disallowed.
    InvalidScheme,
    /// The authority or the host segment is empty.
    MissingHost,
    /// The authority holds `@`.
    UserinfoNotAllowed,
    /// The authority is an IPv6 literal, which this layer rejects.
    Ipv6NotSupported,
}

impl HostError {
    /// A human-readable message naming the reason the URL was refused.
    pub fn message(&self) -> (r: String)
        ensures
            r@ == match self {
                HostError::EmptyUrl => "URL cannot be empty"@,
                HostError::WhitespaceInUrl => "URL cannot contain whitespace"@,
                HostError::InvalidScheme => "Only http:// and https:// URLs are allowed"@,
                HostError::MissingHost => "URL must include a valid host"@,
                HostError::UserinfoNotAllowed => "URL userinfo is not allowed"@,
                HostError::Ipv6NotSupported => "IPv6 hosts are not supported"@,
            },
    {
        match self {
            HostError::EmptyUrl => String::from_str("URL cannot be empty"),
            HostError::WhitespaceInUrl => String::from_str("URL cannot contain whitespace"),
            HostError::InvalidScheme => String::from_str(
                "Only http:// and https:// URLs are allowed",
            ),
            HostError::MissingHost => String::from_str("URL must include a valid host"),
            HostError::UserinfoNotAllowed => String::from_str("URL userinfo is not allowed"),
            HostError::Ipv6NotSupported => String::from_str("IPv6 hosts are not supported"),
        }
    }
}

/// What follows the scheme prefix that the constraint demands, if the URL
/// carries an accepted prefix.
pub open spec fn scheme_rest(u: Seq<char>, sc: SchemeConstraint) -> Option<Seq<char>> {
    match sc {
        SchemeConstraint::HttpsOnly => if starts_with(u, "https://"@) {
            Some(u.skip(8))
        } else {
            None
        },
        SchemeConstraint::HttpOrHttps => if starts_with(u, "http://"@) {
            Some(u.skip(7))
        } else if starts_with(u, "https://"@) {
            Some(u.skip(8))
        } else {
            None
        },
    }
}

/// A character that ends the authority part of a URL.
pub open spec fn is_authority_end(c: char) -> bool {
    c == '/' || c == '?' || c == '#'
}

/// The index of the first character ending the authority, or the length if
/// none does.
pub open spec fn find_authority_end(s: Seq<char>) -> int
    decreases s.len(),
{
    if s.len() == 0 {
        0
    } else if is_authority_end(s[0]) {
        0
    } else {
        1 + find_authority_end(s.drop_first())
    }
}

/// `find_authority_end` names the first index ending the authority.
pub proof fn lemma_find_authority_end(s: Seq<char>, k: int)
    requires
        0 <= k <= s.len(),
        forall|i: int| 0 <= i < k ==> !is_authority_end(#[trigger] s[i]),
        k == s.len() || is_authority_end(s[k]),
    ensures
        find_authority_end(s) == k,
    decreases k,
{
    if k == 0 {
    } else {
        lemma_find_authority_end(s.drop_first(), k - 1);
    }
}

/// Everything up to the first `/`, `?` or `#`.
pub open spec fn authority_of(rest: Seq<char>) -> Seq<char> {
    rest.take(find_authority_end(rest))
}

/// Whether the character at `i` does not end the authority.
fn not_authority_end_at(s: &str, i: usize) -> (r: bool)
    requires
        i < s@.len(),
    ensures
        r == !is_authority_end(s@[i as int]),
{
    let c = s_get(s, i);
    c != '/' && c != '?' && c != '#'
}

/// Some character of `s` is `c`.
pub open spec fn contains_char(s: Seq<char>, c: char) -> bool {
    exists|i: int| 0 <= i < s.len() && #[trigger] s[i] == c
}

/// The host a URL yields under a scheme constraint, or the reason it is
/// refused: trim; reject empty or whitespace-holding URLs; demand the
/// scheme prefix; take the authority up to the first `/`, `?` or `#`;
/// reject an empty authority, userinfo and IPv6 literals; cut the port at
/// the first `:`; trim, strip trailing dots and lowercase-fold the host.
pub open spec fn host_of(url: Seq<char>, sc: SchemeConstraint) -> Result<Seq<char>, HostError> {
    let u = trim_spec(url);
    if u.len() == 0 {
        Err(HostError::EmptyUrl)
    } else if has_ws(u) {
        Err(HostError::WhitespaceInUrl)
    } else {
        match scheme_rest(u, sc) {
            None => Err(HostError::InvalidScheme),
            Some(rest) => {
                let auth = authority_of(rest);
                if auth.len() == 0 {
                    Err(HostError::MissingHost)
                } else if contains_char(auth, '@') {
                    Err(HostError::UserinfoNotAllowed)
                } else if auth[0] == '[' {
                    Err(HostError::Ipv6NotSupported)
                } else {
                    let h = fold_seq(
                        drop_char_end(trim_spec(take_until_char(auth, ':')), '.'),
                    );
                    if h.len() == 0 {
                        Err(HostError::MissingHost)
                    } else {
                        Ok(h)
                    }
                }
            },
        }
    }
}

/// Validates a URL under the scheme constraint and extracts its host,
/// lowercased and stripped of port, trailing dots and surrounding
/// whitespace.
#[verifier::rlimit(80)]
pub fn extract_host(raw_url: &str, scheme_constraint: SchemeConstraint) -> (r: Result<
    String,
    HostError,
>)
    ensures
        match r {
            Ok(h) => host_of(raw_url@, scheme_constraint) == Ok::<Seq<char>, HostError>(h@),
            Err(e) => host_of(raw_url@, scheme_constraint) == Err::<Seq<char>, HostError>(e),
        },
{
    let url = trim_str(raw_url);
    let n = url.unicode_len();
    if n == 0 {
        return Err(HostError::EmptyUrl);
    }
    if contains_whitespace(url) {
        return Err(HostError::WhitespaceInUrl);
    }
    // Demand the scheme prefix the constraint allows.
    let start: usize = match scheme_constraint {
        SchemeConstraint::HttpsOnly => {
            if starts_with_str(url, "https://") {
                proof {
                    reveal_strlit("https://");
                }
                8
            } else {
                return Err(HostError::InvalidScheme);
            }
        },
        SchemeConstraint::HttpOrHttps => {
            if starts_with_str(url, "http://") {
                proof {
                    reveal_strlit("http://");
                }
                7
            } else if starts_with_str(url, "https://") {
                proof {
                    reveal_strlit("https://");
                }
                8
            } else {
                return Err(HostError::InvalidScheme);
            }
        },
    };
    let ghost rest = scheme_rest(url@, scheme_constraint).unwrap();
    proof {
        assert(rest =~= url@.skip(start as int));
    }
    // The authority reaches to the first `/`, `?` or `#`.
    let mut e: usize = start;
    while e < n && not_authority_end_at(url, e)
        invariant
            start <= e <= n,
            n == url@.len(),
            forall|i: int| start <= i < e ==> !is_authority_end(#[trigger] url@[i]),
        decreases n - e,
    {
        e = e + 1;
    }
    proof {
        assert forall|i: int| 0 <= i < e - start implies !is_authority_end(#[trigger] rest[i]) by {
            assert(!is_authority_end(url@[start + i]));
        }
        if e < n {
            assert(is_authority_end(rest[e - start]));
        }
        lemma_find_authority_end(rest, e - start);
        assert(authority_of(rest) =~= url@.subrange(start as int, e as int));
    }
    let ghost auth = authority_of(rest);
    if e == start {
        return Err(HostError::MissingHost);
    }
    // Reject userinfo anywhere in the authority.
    let at = find_char_from(url, start, '@');
    if at < e {
        proof {
            assert(auth[at - start] == '@');
        }
        return Err(HostError::UserinfoNotAllowed);
    }
    proof {
        assert forall|i: int| 0 <= i < auth.len() implies #[trigger] auth[i] != '@' by {
            assert(url@[start + i] != '@');
        }
    }
    // Reject IPv6 literal hosts.
    if s_get(url, start) == '[' {
        return Err(HostError::Ipv6NotSupported);
    }
    // Cut the port at the first `:`.
    let mut c: usize = start;
    while c < e && s_get(url, c) != ':'
        invariant
            start <= c <= e <= n,
            n == url@.len(),
            forall|i: int| start <= i < c ==> #[trigger] url@[i] != ':',
        decreases e - c,
    {
        c = c + 1;
    }
    proof {
        assert forall|i: int| 0 <= i < c - start implies #[trigger] auth[i] != ':' by {
            assert(url@[start + i] != ':');
        }
        if c < e {
            assert(auth[c - start] == ':');
        }
        lemma_find_char_at(auth, ':', c - start);
        assert(take_until_char(auth, ':') =~= url@.subrange(start as int, c as int));
    }
    let ghost seg = take_until_char(auth, ':');
    proof {
        assert forall|i: int| 0 <= i < seg.len() implies !crate::text::is_ws_char(
            #[trigger] seg[i],
        ) by {
            assert(!crate::text::is_ws_char(url@[start + i]));
        }
        lemma_trim_noop(seg);
    }
    // Strip trailing dots from the host.
    let mut b: usize = c;
    while b > start && s_get(url, b - 1) == '.'
        invariant
            start <= b <= c <= n,
            n == url@.len(),
            forall|i: int| b <= i < c ==> #[trigger] url@[i] == '.',
        decreases b,
    {
        b = b - 1;
    }
    proof {
        assert forall|i: int| b - start <= i < seg.len() implies #[trigger] seg[i] == '.' by {
            assert(url@[start + i] == '.');
        }
        if b > start {
            assert(seg[b - start - 1] != '.');
        }
        lemma_drop_char_end_take(seg, '.', b - start);
        assert(drop_char_end(seg, '.') =~= url@.subrange(start as int, b as int));
    }
    if b == start {
        return Err(HostError::MissingHost);
    }
    let host = fold_str(url.substring_char(start, b));
    proof {
        assert(host@ == fold_seq(drop_char_end(trim_spec(seg), '.')));
        assert(host@.len() > 0);
    }
    Ok(host)
}

} // verus!
