//! Strict parsing of IPv4 literals and the classification of
//! non-globally-routable IPv4 address space.
//!
//! The literal grammar is the conservative one of common standard-library
//! parsers: exactly four decimal octets separated by `.`, each of one to
//! three digits, at most 255, with no leading zero. Octal, hexadecimal,
//! bare-decimal and zero-padded notations are deliberately rejected, so
//! such strings fall through as ordinary hostnames.

use vstd::prelude::*;
use vstd::string::StrSliceExecFns;
use crate::text::s_get;

verus! {

/// An IPv4 address as its four octets.
#[derive(Debug, Clone, Copy, PartialEq, Eq, Structural)]
pub struct Ipv4Address {
    pub a: u8,
    pub b: u8,
    pub c: u8,
    pub d: u8,
}

pub open spec fn is_dec_digit(c: char) -> bool {
    '0' <= c && c <= '9'
}

pub open spec fn dec_val(c: char) -> int {
    c as int - '0' as int
}

/// The length of the run of decimal digits starting at `i`.
pub open spec fn dec_run_len(s: Seq<char>, i: int) -> int
    decreases s.len() - i,
    when 0 <= i <= s.len()
{
    if i < s.len() && is_dec_digit(s[i]) {
        1 + dec_run_len(s, i + 1)
    } else {
        0
    }
}

/// The decimal value of the digits in `[from, to)`.
pub open spec fn dec_value(s: Seq<char>, from: int, to: int) -> int
    decreases to - from,
    when from <= to
{
    if to <= from {
        0
    } else {
        dec_value(s, from, to - 1) * 10 + dec_val(s[to - 1])
    }
}

/// `dec_run_len` names the maximal digit run.
pub proof fn lemma_dec_run_len(s: Seq<char>, i: int, j: int)
    requires
        0 <= i <= j <= s.len(),
        forall|k: int| i <= k < j ==> is_dec_digit(#[trigger] s[k]),
        j == s.len() || !is_dec_digit(s[j]),
    ensures
        dec_run_len(s, i) == j - i,
    decreases j - i,
{
    if i < j {
        lemma_dec_run_len(s, i + 1, j);
    }
}

/// One octet read at `i`: one to three decimal digits, no leading zero,
/// at most 255, and not followed by a further digit.
pub open spec fn scan_octet(s: Seq<char>, i: int) -> Option<(u8, int)> {
    let n = dec_run_len(s, i);
    if n == 0 || n > 3 {
        None
    } else if s[i] == '0' && n > 1 {
        None
    } else {
        let v = dec_value(s, i, i + n);
        if v <= 255 {
            Some((v as u8, i + n))
        } else {
            None
        }
    }
}

/// A full dotted-quad IPv4 literal read at `i`, and the position after it.
pub open spec fn scan_ipv4(s: Seq<char>, i: int) -> Option<(Ipv4Address, int)> {
    match scan_octet(s, i) {
        None => None,
        Some((a, p1)) => if p1 < s.len() && s[p1] == '.' {
            match scan_octet(s, p1 + 1) {
                None => None,
                Some((b, p2)) => if p2 < s.len() && s[p2] == '.' {
                    match scan_octet(s, p2 + 1) {
                        None => None,
                        Some((c, p3)) => if p3 < s.len() && s[p3] == '.' {
                            match scan_octet(s, p3 + 1) {
                                None => None,
                                Some((d, p4)) => Some((Ipv4Address { a, b, c, d }, p4)),
                            }
                        } else {
                            None
                        },
                    }
                } else {
                    None
                },
            }
        } else {
            None
        },
    }
}

/// A run of decimal digits stays inside the sequence.
pub proof fn lemma_dec_run_in_seq(s: Seq<char>, i: int)
    requires
        0 <= i <= s.len(),
    ensures
        0 <= dec_run_len(s, i) <= s.len() - i,
    decreases s.len() - i,
{
    if i < s.len() && is_dec_digit(s[i]) {
        lemma_dec_run_in_seq(s, i + 1);
    }
}

/// An octet ends inside the sequence, after where it began.
pub proof fn lemma_scan_octet_range(s: Seq<char>, i: int)
    requires
        0 <= i <= s.len(),
        scan_octet(s, i) is Some,
    ensures
        ({
            let (v, p) = scan_octet(s, i).unwrap();
            i < p <= s.len()
        }),
{
    lemma_dec_run_in_seq(s, i);
}

/// An IPv4 literal ends inside the sequence, after where it began.
pub proof fn lemma_scan_ipv4_range(s: Seq<char>, i: int)
    requires
        0 <= i <= s.len(),
        scan_ipv4(s, i) is Some,
    ensures
        ({
            let (ip, p) = scan_ipv4(s, i).unwrap();
            i < p <= s.len()
        }),
{
    lemma_scan_octet_range(s, i);
    let (a, p1) = scan_octet(s, i).unwrap();
    lemma_scan_octet_range(s, p1 + 1);
    let (b, p2) = scan_octet(s, p1 + 1).unwrap();
    lemma_scan_octet_range(s, p2 + 1);
    let (c, p3) = scan_octet(s, p2 + 1).unwrap();
    lemma_scan_octet_range(s, p3 + 1);
}

/// What a whole string parses to as an IPv4 literal, if anything.
pub open spec fn parse_ipv4(s: Seq<char>) -> Option<Ipv4Address> {
    match scan_ipv4(s, 0) {
        Some((ip, p)) => if p == s.len() {
            Some(ip)
        } else {
            None
        },
        None => None,
    }
}

pub fn is_dec_digit_exec(c: char) -> (r: bool)
    ensures
        r == is_dec_digit(c),
{
    '0' <= c && c <= '9'
}

/// Reads one octet at `i`, executable form.
fn scan_octet_exec(s: &str, i: usize) -> (r: Option<(u8, usize)>)
    requires
        i <= s@.len(),
    ensures
        match r {
            Some((v, j)) => scan_octet(s@, i as int) == Some((v, j as int)) && i < j <= s@.len(),
            None => scan_octet(s@, i as int) is None,
        },
{
    let n_s = s.unicode_len();
    let mut j = i;
    while j < n_s && is_dec_digit_exec(s.get_char(j))
        invariant
            i <= j <= n_s,
            n_s == s@.len(),
            forall|k: int| i <= k < j ==> is_dec_digit(#[trigger] s@[k]),
        decreases n_s - j,
    {
        j = j + 1;
    }
    proof {
        lemma_dec_run_len(s@, i as int, j as int);
    }
    let n = j - i;
    if n == 0 || n > 3 {
        return None;
    }
    if s_get(s, i) == '0' && n > 1 {
        return None;
    }
    let mut v: u16 = dec_digit_value(s_get(s, i)) as u16;
    proof {
        assert(dec_value(s@, i as int, i as int) == 0);
        assert(v as int == dec_value(s@, i as int, i + 1));
    }
    if n >= 2 {
        v = v * 10 + dec_digit_value(s_get(s, i + 1)) as u16;
        proof {
            assert(v as int == dec_value(s@, i as int, i + 2));
        }
    }
    if n == 3 {
        v = v * 10 + dec_digit_value(s_get(s, i + 2)) as u16;
        proof {
            assert(v as int == dec_value(s@, i as int, i + 3));
        }
    }
    proof {
        assert(v as int == dec_value(s@, i as int, i + n));
    }
    if v <= 255 {
        Some((v as u8, j))
    } else {
        None
    }
}

/// The value of one decimal digit.
fn dec_digit_value(c: char) -> (r: u8)
    requires
        is_dec_digit(c),
    ensures
        r as int == dec_val(c),
        r <= 9,
{
    (c as u8) - 48
}

/// Reads a dotted-quad IPv4 literal at `i`, executable form.
pub fn scan_ipv4_exec(s: &str, i: usize) -> (r: Option<(Ipv4Address, usize)>)
    requires
        i <= s@.len(),
    ensures
        match r {
            Some((ip, j)) => scan_ipv4(s@, i as int) == Some((ip, j as int)) && i < j <= s@.len(),
            None => scan_ipv4(s@, i as int) is None,
        },
{
    let n = s.unicode_len();
    let (a, p1) = match scan_octet_exec(s, i) {
        Some(x) => x,
        None => {
            return None;
        },
    };
    if !(p1 < n && s_get(s, p1) == '.') {
        return None;
    }
    let (b, p2) = match scan_octet_exec(s, p1 + 1) {
        Some(x) => x,
        None => {
            return None;
        },
    };
    if !(p2 < n && s_get(s, p2) == '.') {
        return None;
    }
    let (c, p3) = match scan_octet_exec(s, p2 + 1) {
        Some(x) => x,
        None => {
            return None;
        },
    };
    if !(p3 < n && s_get(s, p3) == '.') {
        return None;
    }
    let (d, p4) = match scan_octet_exec(s, p3 + 1) {
        Some(x) => x,
        None => {
            return None;
        },
    };
    Some((Ipv4Address { a, b, c, d }, p4))
}

/// Parses a whole string as an IPv4 literal, executable form.
pub fn parse_ipv4_exec(s: &str) -> (r: Option<Ipv4Address>)
    ensures
        match r {
            Some(ip) => parse_ipv4(s@) == Some(ip),
            None => parse_ipv4(s@) is None,
        },
{
    match scan_ipv4_exec(s, 0) {
        Some((ip, p)) => {
            if p == s.unicode_len() {
                Some(ip)
            } else {
                None
            }
        },
        None => None,
    }
}

/// The IPv4 ranges this guard treats as non-global: loopback, the private
/// ranges, link-local, unspecified, broadcast, multicast, shared address
/// space, reserved, the special-purpose and documentation blocks, and the
/// benchmarking range.
pub open spec fn ipv4_non_global(ip: Ipv4Address) -> bool {
    ip.a == 127  // loopback 127.0.0.0/8
    || ip.a == 10  // private 10.0.0.0/8
    || (ip.a == 172 && 16 <= ip.b && ip.b <= 31)  // private 172.16.0.0/12
    || (ip.a == 192 && ip.b == 168)  // private 192.168.0.0/16
    || (ip.a == 169 && ip.b == 254)  // link-local 169.254.0.0/16
    || (ip.a == 0 && ip.b == 0 && ip.c == 0 && ip.d == 0)  // unspecified
    || (ip.a == 255 && ip.b == 255 && ip.c == 255 && ip.d == 255)  // broadcast
    || (224 <= ip.a && ip.a <= 239)  // multicast 224.0.0.0/4
    || (ip.a == 100 && 64 <= ip.b && ip.b <= 127)  // shared address space 100.64.0.0/10
    || ip.a >= 240  // reserved 240.0.0.0/4
    || (ip.a == 192 && ip.b == 0 && (ip.c == 0 || ip.c == 2))  // special-purpose 192.0.0.0/24, documentation 192.0.2.0/24
    || (ip.a == 198 && ip.b == 51 && ip.c == 100)  // documentation 198.51.100.0/24
    || (ip.a == 203 && ip.b == 0 && ip.c == 113)  // documentation 203.0.113.0/24
    || (ip.a == 198 && (ip.b == 18 || ip.b == 19))  // benchmarking 198.18.0.0/15
}

/// Whether the IPv4 address is not globally routable.
pub fn is_non_global_v4(v4: Ipv4Address) -> (r: bool)
    ensures
        r == ipv4_non_global(v4),
{
    v4.a == 127 || v4.a == 10 || (v4.a == 172 && 16 <= v4.b && v4.b <= 31) || (v4.a == 192 && v4.b
        == 168) || (v4.a == 169 && v4.b == 254) || (v4.a == 0 && v4.b == 0 && v4.c == 0 && v4.d
        == 0) || (v4.a == 255 && v4.b == 255 && v4.c == 255 && v4.d == 255) || (224 <= v4.a && v4.a
        <= 239) || (v4.a == 100 && 64 <= v4.b && v4.b <= 127) || v4.a >= 240 || (v4.a == 192 && v4.b
        == 0 && (v4.c == 0 || v4.c == 2)) || (v4.a == 198 && v4.b == 51 && v4.c == 100) || (v4.a
        == 203 && v4.b == 0 && v4.c == 113) || (v4.a == 198 && (v4.b == 18 || v4.b == 19))
}

} // verus!
