//! Strict parsing of IPv6 literals and the classification of
//! non-globally-routable IPv6 address space.
//!
//! The literal grammar is the conservative one of common standard-library
//! parsers: up to eight hexadecimal groups of one to four digits separated
//! by `:`, at most one `::` standing for one or more zero groups, and an
//! optional trailing embedded IPv4 literal filling the last two groups. An
//! embedded IPv4 literal is only accepted when it completes all eight
//! groups or follows the `::`.

use vstd::prelude::*;
use vstd::string::StrSliceExecFns;
use crate::ipv4::{
    Ipv4Address, ipv4_non_global, is_dec_digit, dec_val, scan_ipv4, scan_ipv4_exec,
    is_non_global_v4,
};
use crate::text::s_get;

verus! {

/// An IPv6 address as its eight 16-bit groups.
#[derive(Debug, PartialEq, Eq)]
pub struct Ipv6Address {
    pub segments: Vec<u16>,
}

impl Ipv6Address {
    /// An IPv6 address holds exactly eight groups.
    pub open spec fn wf(&self) -> bool {
        self.segments@.len() == 8
    }
}

pub open spec fn is_hex_digit(c: char) -> bool {
    is_dec_digit(c) || ('a' <= c && c <= 'f') || ('A' <= c && c <= 'F')
}

pub open spec fn hex_val(c: char) -> int {
    if is_dec_digit(c) {
        dec_val(c)
    } else if 'a' <= c && c <= 'f' {
        c as int - 'a' as int + 10
    } else {
        c as int - 'A' as int + 10
    }
}

/// The length of the run of hexadecimal digits starting at `i`.
pub open spec fn hex_run_len(s: Seq<char>, i: int) -> int
    decreases s.len() - i,
    when 0 <= i <= s.len()
{
    if i < s.len() && is_hex_digit(s[i]) {
        1 + hex_run_len(s, i + 1)
    } else {
        0
    }
}

/// The hexadecimal value of the digits in `[from, to)`.
pub open spec fn hex_value(s: Seq<char>, from: int, to: int) -> int
    decreases to - from,
    when from <= to
{
    if to <= from {
        0
    } else {
        hex_value(s, from, to - 1) * 16 + hex_val(s[to - 1])
    }
}

/// `hex_run_len` names the maximal hexadecimal digit run.
pub proof fn lemma_hex_run_len(s: Seq<char>, i: int, j: int)
    requires
        0 <= i <= j <= s.len(),
        forall|k: int| i <= k < j ==> is_hex_digit(#[trigger] s[k]),
        j == s.len() || !is_hex_digit(s[j]),
    ensures
        hex_run_len(s, i) == j - i,
    decreases j - i,
{
    if i < j {
        lemma_hex_run_len(s, i + 1, j);
    }
}

/// One group read at `i`: one to four hexadecimal digits not followed by a
/// further digit.
pub open spec fn scan_hex_group(s: Seq<char>, i: int) -> Option<(u16, int)> {
    let n = hex_run_len(s, i);
    if n == 0 || n > 4 {
        None
    } else {
        Some((hex_value(s, i, i + n) as u16, i + n))
    }
}

/// The two 16-bit groups an embedded IPv4 address stands for.
pub open spec fn v4_groups(ip: Ipv4Address) -> Seq<u16> {
    seq![
        ((ip.a as int) * 256 + (ip.b as int)) as u16,
        ((ip.c as int) * 256 + (ip.d as int)) as u16,
    ]
}

/// Reads up to `limit - idx` further groups at `pos`: each group after the
/// first is preceded by `:`; where at least two group slots are left, a
/// trailing embedded IPv4 literal is tried first and ends the run. Yields
/// the groups, the position after them, and whether the run ended in an
/// embedded IPv4 literal.
pub open spec fn scan_groups(s: Seq<char>, pos: int, idx: int, limit: int) -> (Seq<u16>, int, bool)
    decreases limit - idx,
    when idx <= limit
{
    if idx >= limit {
        (Seq::empty(), pos, false)
    } else {
        let gpos = if idx == 0 {
            pos
        } else if pos < s.len() && s[pos] == ':' {
            pos + 1
        } else {
            -1
        };
        if gpos < 0 {
            (Seq::empty(), pos, false)
        } else {
            let four = if limit - idx >= 2 {
                scan_ipv4(s, gpos)
            } else {
                None
            };
            match four {
                Some((ip, p2)) => (v4_groups(ip), p2, true),
                None => match scan_hex_group(s, gpos) {
                    Some((g, p2)) => {
                        let (rest, p3, f) = scan_groups(s, p2, idx + 1, limit);
                        (seq![g] + rest, p3, f)
                    },
                    None => (Seq::empty(), pos, false),
                },
            }
        }
    }
}

/// A run of `n` zero groups.
pub open spec fn zero_groups(n: int) -> Seq<u16> {
    Seq::new(n as nat, |i: int| 0u16)
}

/// What a whole string parses to as an IPv6 literal, if anything: either
/// eight leading groups, or fewer groups, a `::`, and trailing groups that
/// together leave at least one zero group for the `::` to stand for.
pub open spec fn parse_ipv6(s: Seq<char>) -> Option<Seq<u16>> {
    let (head, p, head4) = scan_groups(s, 0, 0, 8);
    if head.len() == 8 {
        if p == s.len() {
            Some(head)
        } else {
            None
        }
    } else if head4 {
        None
    } else if p + 2 <= s.len() && s[p] == ':' && s[p + 1] == ':' {
        let (tail, q, _) = scan_groups(s, p + 2, 0, 8 - head.len() - 1);
        if q == s.len() {
            Some(head + zero_groups(8 - head.len() - tail.len()) + tail)
        } else {
            None
        }
    } else {
        None
    }
}

/// The groups a run yields never outnumber the slots it was given.
pub proof fn lemma_scan_groups_len(s: Seq<char>, pos: int, idx: int, limit: int)
    requires
        0 <= idx <= limit,
        0 <= pos <= s.len(),
    ensures
        ({
            let (g, p, f) = scan_groups(s, pos, idx, limit);
            g.len() <= limit - idx && pos <= p <= s.len()
        }),
    decreases limit - idx,
{
    if idx < limit {
        let gpos = if idx == 0 {
            pos
        } else if pos < s.len() && s[pos] == ':' {
            pos + 1
        } else {
            -1int
        };
        if gpos >= 0 {
            let four = if limit - idx >= 2 {
                scan_ipv4(s, gpos)
            } else {
                None
            };
            match four {
                Some((ip, p2)) => {
                    crate::ipv4::lemma_scan_ipv4_range(s, gpos);
                },
                None => {
                    match scan_hex_group(s, gpos) {
                        Some((g, p2)) => {
                            lemma_hex_group_range(s, gpos);
                            lemma_scan_groups_len(s, p2, idx + 1, limit);
                        },
                        None => {},
                    }
                },
            }
        }
    }
}

/// A hexadecimal group ends inside the sequence, after where it began.
pub proof fn lemma_hex_group_range(s: Seq<char>, i: int)
    requires
        0 <= i <= s.len(),
        scan_hex_group(s, i) is Some,
    ensures
        ({
            let (g, p) = scan_hex_group(s, i).unwrap();
            i < p <= s.len()
        }),
{
    lemma_hex_run_in_seq(s, i);
}

/// A run of hexadecimal digits stays inside the sequence.
pub proof fn lemma_hex_run_in_seq(s: Seq<char>, i: int)
    requires
        0 <= i <= s.len(),
    ensures
        0 <= hex_run_len(s, i) <= s.len() - i,
    decreases s.len() - i,
{
    if i < s.len() && is_hex_digit(s[i]) {
        lemma_hex_run_in_seq(s, i + 1);
    }
}

/// Reads one group at `i`, executable form.
fn scan_hex_group_exec(s: &str, i: usize) -> (r: Option<(u16, usize)>)
    requires
        i <= s@.len(),
    ensures
        match r {
            Some((g, j)) => scan_hex_group(s@, i as int) == Some((g, j as int)) && i < j
                <= s@.len(),
            None => scan_hex_group(s@, i as int) is None,
        },
{
    let n_s = s.unicode_len();
    let mut j = i;
    while j < n_s && is_hex_digit_exec(s.get_char(j))
        invariant
            i <= j <= n_s,
            n_s == s@.len(),
            forall|k: int| i <= k < j ==> is_hex_digit(#[trigger] s@[k]),
        decreases n_s - j,
    {
        j = j + 1;
    }
    proof {
        lemma_hex_run_len(s@, i as int, j as int);
    }
    let n = j - i;
    if n == 0 || n > 4 {
        return None;
    }
    let mut v: u32 = hex_digit_value(s_get(s, i)) as u32;
    proof {
        assert(hex_value(s@, i as int, i as int) == 0);
        assert(v as int == hex_value(s@, i as int, i + 1));
    }
    if n >= 2 {
        v = v * 16 + hex_digit_value(s_get(s, i + 1)) as u32;
        proof {
            assert(v as int == hex_value(s@, i as int, i + 2));
        }
    }
    if n >= 3 {
        v = v * 16 + hex_digit_value(s_get(s, i + 2)) as u32;
        proof {
            assert(v as int == hex_value(s@, i as int, i + 3));
        }
    }
    if n == 4 {
        v = v * 16 + hex_digit_value(s_get(s, i + 3)) as u32;
        proof {
            assert(v as int == hex_value(s@, i as int, i + 4));
        }
    }
    proof {
        assert(v as int == hex_value(s@, i as int, i + n));
    }
    Some((v as u16, j))
}

pub fn is_hex_digit_exec(c: char) -> (r: bool)
    ensures
        r == is_hex_digit(c),
{
    ('0' <= c && c <= '9') || ('a' <= c && c <= 'f') || ('A' <= c && c <= 'F')
}

/// The value of one hexadecimal digit.
fn hex_digit_value(c: char) -> (r: u8)
    requires
        is_hex_digit(c),
    ensures
        r as int == hex_val(c),
        r <= 15,
{
    if '0' <= c && c <= '9' {
        (c as u8) - 48
    } else if 'a' <= c && c <= 'f' {
        (c as u8) - 97 + 10
    } else {
        (c as u8) - 65 + 10
    }
}

/// Reads up to `limit - idx` further groups at `pos`, executable form.
fn scan_groups_exec(s: &str, pos: usize, idx: usize, limit: usize) -> (r: (Vec<u16>, usize, bool))
    requires
        pos <= s@.len(),
        idx <= limit,
        limit <= 8,
    ensures
        ({
            let (g, p, f) = scan_groups(s@, pos as int, idx as int, limit as int);
            r.0@ == g && r.1 == p && r.2 == f && pos <= r.1 <= s@.len()
        }),
    decreases limit - idx,
{
    if idx >= limit {
        return (Vec::new(), pos, false);
    }
    let gpos: usize;
    if idx == 0 {
        gpos = pos;
    } else if pos < s.unicode_len() && s_get(s, pos) == ':' {
        gpos = pos + 1;
    } else {
        return (Vec::new(), pos, false);
    }
    if limit - idx >= 2 {
        match scan_ipv4_exec(s, gpos) {
            Some((ip, p2)) => {
                let hi: u16 = (ip.a as u16) * 256 + (ip.b as u16);
                let lo: u16 = (ip.c as u16) * 256 + (ip.d as u16);
                let mut v: Vec<u16> = Vec::new();
                v.push(hi);
                v.push(lo);
                proof {
                    assert(v@ =~= v4_groups(ip));
                }
                return (v, p2, true);
            },
            None => {},
        }
    }
    match scan_hex_group_exec(s, gpos) {
        Some((g, p2)) => {
            let (rest, p3, f) = scan_groups_exec(s, p2, idx + 1, limit);
            let mut v = rest;
            v.insert(0, g);
            proof {
                let (sg, sp, sf) = scan_groups(s@, pos as int, idx as int, limit as int);
                assert(v@ =~= sg);
            }
            (v, p3, f)
        },
        None => (Vec::new(), pos, false),
    }
}

/// Parses a whole string as an IPv6 literal, executable form.
pub fn parse_ipv6_exec(s: &str) -> (r: Option<Ipv6Address>)
    ensures
        match r {
            Some(ip) => parse_ipv6(s@) == Some(ip.segments@) && ip.wf(),
            None => parse_ipv6(s@) is None,
        },
{
    let n = s.unicode_len();
    let (head, p, head4) = scan_groups_exec(s, 0, 0, 8);
    proof {
        lemma_scan_groups_len(s@, 0, 0, 8);
    }
    if head.len() == 8 {
        if p == n {
            return Some(Ipv6Address { segments: head });
        } else {
            return None;
        }
    }
    if head4 {
        return None;
    }
    if !(p < n && p + 1 < n && s_get(s, p) == ':' && s_get(s, p + 1) == ':') {
        return None;
    }
    let limit = 8 - head.len() - 1;
    let (tail, q, _) = scan_groups_exec(s, p + 2, 0, limit);
    proof {
        lemma_scan_groups_len(s@, p + 2, 0, limit as int);
    }
    if q != n {
        return None;
    }
    let zeros = 8 - head.len() - tail.len();
    let mut segments = head;
    let mut z: usize = 0;
    while z < zeros
        invariant
            0 <= z <= zeros,
            segments@ =~= scan_groups(s@, 0, 0, 8).0 + zero_groups(z as int),
        decreases zeros - z,
    {
        segments.push(0u16);
        z = z + 1;
        proof {
            assert(segments@ =~= scan_groups(s@, 0, 0, 8).0 + zero_groups(z as int));
        }
    }
    let mut t: usize = 0;
    let tn = tail.len();
    while t < tn
        invariant
            0 <= t <= tn,
            tn == tail@.len(),
            segments@ =~= scan_groups(s@, 0, 0, 8).0 + zero_groups(zeros as int) + tail@.take(
                t as int,
            ),
        decreases tn - t,
    {
        let x = tail[t];
        segments.push(x);
        t = t + 1;
        proof {
            assert(segments@ =~= scan_groups(s@, 0, 0, 8).0 + zero_groups(zeros as int)
                + tail@.take(t as int));
        }
    }
    proof {
        assert(tail@.take(tn as int) =~= tail@);
        assert(segments@ =~= parse_ipv6(s@).unwrap());
    }
    Some(Ipv6Address { segments })
}

/// The embedded IPv4 address of an IPv4-mapped IPv6 address.
pub open spec fn mapped_v4(g: Seq<u16>) -> Ipv4Address {
    Ipv4Address {
        a: (g[6] / 256) as u8,
        b: (g[6] % 256) as u8,
        c: (g[7] / 256) as u8,
        d: (g[7] % 256) as u8,
    }
}

/// The IPv6 ranges this guard treats as non-global: loopback, unspecified,
/// multicast, unique-local, link-local, documentation, and any IPv4-mapped
/// address whose embedded IPv4 address is itself non-global.
pub open spec fn ipv6_non_global(g: Seq<u16>) -> bool {
    (g[0] == 0 && g[1] == 0 && g[2] == 0 && g[3] == 0 && g[4] == 0 && g[5] == 0 && g[6] == 0
        && g[7] == 1)  // loopback ::1
    || (g[0] == 0 && g[1] == 0 && g[2] == 0 && g[3] == 0 && g[4] == 0 && g[5] == 0 && g[6] == 0
        && g[7] == 0)  // unspecified ::
    || g[0] >= 0xff00  // multicast ff00::/8
    || (0xfc00 <= g[0] && g[0] < 0xfe00)  // unique-local fc00::/7
    || (0xfe80 <= g[0] && g[0] < 0xfec0)  // link-local fe80::/10
    || (g[0] == 0x2001 && g[1] == 0x0db8)  // documentation 2001:db8::/32
    || (g[0] == 0 && g[1] == 0 && g[2] == 0 && g[3] == 0 && g[4] == 0 && g[5] == 0xffff
        && ipv4_non_global(mapped_v4(g)))  // IPv4-mapped ::ffff:a.b.c.d
}

/// Whether the IPv6 address is not globally routable.
pub fn is_non_global_v6(v6: &Ipv6Address) -> (r: bool)
    requires
        v6.wf(),
    ensures
        r == ipv6_non_global(v6.segments@),
{
    let g = &v6.segments;
    let all_zero_head = g[0] == 0 && g[1] == 0 && g[2] == 0 && g[3] == 0 && g[4] == 0;
    if all_zero_head && g[5] == 0 && g[6] == 0 && (g[7] == 1 || g[7] == 0) {
        return true;
    }
    if g[0] >= 0xff00 || (0xfc00 <= g[0] && g[0] < 0xfe00) || (0xfe80 <= g[0] && g[0] < 0xfec0) || (
    g[0] == 0x2001 && g[1] == 0x0db8) {
        return true;
    }
    if all_zero_head && g[5] == 0xffff {
        let v4 = Ipv4Address {
            a: (g[6] / 256) as u8,
            b: (g[6] % 256) as u8,
            c: (g[7] / 256) as u8,
            d: (g[7] % 256) as u8,
        };
        return is_non_global_v4(v4);
    }
    false
}

} // verus!
