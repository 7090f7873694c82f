//! Normalization of operator-supplied allowlist entries.

use vstd::prelude::*;
use vstd::string::StrSliceExecFns;
use vstd::string::StringExecFns;
use crate::text::{
    fold_seq, fold_str, trim_spec, trim_str, trim_dots_spec, take_until_char, has_ws,
    contains_whitespace, lemma_find_char_at, lemma_drop_char_start_skip, lemma_drop_char_end_take,
    find_char_from, s_get, eq_ranges, str_eq, fold_char, find_char_at, drop_char_start,
    drop_char_end, lemma_fold_seq_idempotent, lemma_find_char_at_props,
    lemma_drop_char_start_exists, lemma_drop_char_end_exists,
};

verus! {

/// `pre` is a prefix of `s`.
pub open spec fn starts_with(s: Seq<char>, pre: Seq<char>) -> bool {
    pre.len() <= s.len() && s.take(pre.len() as int) == pre
}

/// The scheme prefix the normalizer strips: `https://` first, then
/// `http://`.
pub open spec fn strip_scheme(s: Seq<char>) -> Seq<char> {
    if starts_with(s, "https://"@) {
        s.skip(8)
    } else if starts_with(s, "http://"@) {
        s.skip(7)
    } else {
        s
    }
}

/// What one allowlist entry normalizes to: trim and lowercase-fold; reject
/// the empty result; strip a scheme prefix; drop everything from the first
/// `/`; strip surrounding dots; drop everything from the first `:`; reject
/// an empty or whitespace-holding result.
pub open spec fn norm_domain_spec(s: Seq<char>) -> Option<Seq<char>> {
    let t = fold_seq(trim_spec(s));
    if t.len() == 0 {
        None
    } else {
        let u = strip_scheme(t);
        let v = take_until_char(u, '/');
        let w = trim_dots_spec(v);
        let x = take_until_char(w, ':');
        if x.len() == 0 || has_ws(x) {
            None
        } else {
            Some(x)
        }
    }
}

/// Whether `s` starts with the characters of the literal-like `pre`,
/// executable form.
pub fn starts_with_str(s: &str, pre: &str) -> (r: bool)
    ensures
        r == starts_with(s@, pre@),
{
    let n = s.unicode_len();
    let m = pre.unicode_len();
    if m > n {
        return false;
    }
    let r = eq_ranges(s, 0, m, pre, 0, m);
    proof {
        assert(pre@.subrange(0, m as int) =~= pre@);
        assert(s@.subrange(0, m as int) =~= s@.take(m as int));
    }
    r
}

/// Canonicalizes one allowlist entry, or returns nothing when the entry
/// normalizes to an empty or whitespace-holding string.
#[verifier::rlimit(60)]
pub fn normalize_domain(raw: &str) -> (r: Option<String>)
    ensures
        match r {
            Some(d) => norm_domain_spec(raw@) == Some(d@),
            None => norm_domain_spec(raw@) is None,
        },
{
    let trimmed = trim_str(raw);
    let folded = fold_str(trimmed);
    let ts: &str = folded.as_str();
    let n = ts.unicode_len();
    proof {
        assert(ts@ == fold_seq(trim_spec(raw@)));
    }
    if n == 0 {
        return None;
    }
    // Strip a scheme prefix.
    let start: usize = if starts_with_str(ts, "https://") {
        proof {
            reveal_strlit("https://");
        }
        8
    } else if starts_with_str(ts, "http://") {
        proof {
            reveal_strlit("https://");
            reveal_strlit("http://");
        }
        7
    } else {
        proof {
            reveal_strlit("https://");
            reveal_strlit("http://");
        }
        0
    };
    proof {
        assert(strip_scheme(ts@) =~= ts@.skip(start as int));
    }
    let ghost u = strip_scheme(ts@);
    // Drop everything from the first `/`.
    let slash = find_char_from(ts, start, '/');
    proof {
        assert forall|i: int| 0 <= i < slash - start implies #[trigger] u[i] != '/' by {
            assert(ts@[start + i] != '/');
        }
        if slash < n {
            assert(u[slash - start] == '/');
        }
        lemma_find_char_at(u, '/', slash - start);
        assert(take_until_char(u, '/') =~= ts@.subrange(start as int, slash as int));
    }
    let ghost v = take_until_char(u, '/');
    // Strip surrounding dots.
    let mut a: usize = start;
    while a < slash && s_get(ts, a) == '.'
        invariant
            start <= a <= slash <= n,
            n == ts@.len(),
            forall|i: int| start <= i < a ==> #[trigger] ts@[i] == '.',
        decreases slash - a,
    {
        a = a + 1;
    }
    let mut b: usize = slash;
    while b > a && s_get(ts, b - 1) == '.'
        invariant
            a <= b <= slash <= n,
            n == ts@.len(),
            forall|i: int| b <= i < slash ==> #[trigger] ts@[i] == '.',
        decreases b,
    {
        b = b - 1;
    }
    proof {
        assert forall|i: int| 0 <= i < a - start implies #[trigger] v[i] == '.' by {
            assert(ts@[start + i] == '.');
        }
        if a < slash {
            assert(v[a - start] != '.');
        }
        lemma_drop_char_start_skip(v, '.', a - start);
        let v2 = v.skip(a - start);
        assert(v2 =~= ts@.subrange(a as int, slash as int));
        assert forall|i: int| b - a <= i < v2.len() implies #[trigger] v2[i] == '.' by {
            assert(ts@[a + i] == '.');
        }
        if b > a {
            assert(v2[b - a - 1] != '.');
        }
        lemma_drop_char_end_take(v2, '.', b - a);
        assert(trim_dots_spec(v) =~= ts@.subrange(a as int, b as int));
    }
    let ghost w = trim_dots_spec(v);
    // Drop everything from the first `:`.
    let mut c: usize = a;
    while c < b && s_get(ts, c) != ':'
        invariant
            a <= c <= b <= n,
            n == ts@.len(),
            forall|i: int| a <= i < c ==> #[trigger] ts@[i] != ':',
        decreases b - c,
    {
        c = c + 1;
    }
    proof {
        assert forall|i: int| 0 <= i < c - a implies #[trigger] w[i] != ':' by {
            assert(ts@[a + i] != ':');
        }
        if c < b {
            assert(w[c - a] == ':');
        }
        lemma_find_char_at(w, ':', c - a);
        assert(take_until_char(w, ':') =~= ts@.subrange(a as int, c as int));
    }
    let host = ts.substring_char(a, c);
    if host.unicode_len() == 0 {
        return None;
    }
    if contains_whitespace(host) {
        return None;
    }
    Some(String::from_str(host))
}

/// Normalizing is idempotent: a pattern the normalizer produced passes
/// through it unchanged. The one exception is a pattern ending in `.`,
/// which only arises when trailing dots stand right before a port, and
/// which a second pass would strip.
pub proof fn lemma_normalize_domain_idempotent(s: Seq<char>)
    requires
        norm_domain_spec(s) is Some,
        norm_domain_spec(s).unwrap().last() != '.',
    ensures
        norm_domain_spec(norm_domain_spec(s).unwrap()) == norm_domain_spec(s),
{
    let t = fold_seq(trim_spec(s));
    let u = strip_scheme(t);
    let v = take_until_char(u, '/');
    let w = trim_dots_spec(v);
    let d = take_until_char(w, ':');
    assert(norm_domain_spec(s) == Some(d));
    assert(d.len() > 0 && !has_ws(d));
    // Name the cut positions so characters of `d` map back into `t`.
    lemma_find_char_at_props(u, '/');
    let f1 = find_char_at(u, '/');
    lemma_drop_char_start_exists(v, '.');
    let k1 = choose|k: int|
        0 <= k <= v.len() && drop_char_start(v, '.') == v.skip(k) && (v.skip(k).len() == 0
            || v.skip(k)[0] != '.');
    let v2 = v.skip(k1);
    lemma_drop_char_end_exists(v2, '.');
    let k2 = choose|k: int| 0 <= k <= v2.len() && drop_char_end(v2, '.') == v2.take(k);
    lemma_find_char_at_props(w, ':');
    let f2 = find_char_at(w, ':');
    reveal_strlit("https://");
    reveal_strlit("http://");
    let off: int = if starts_with(t, "https://"@) {
        8
    } else if starts_with(t, "http://"@) {
        7
    } else {
        0
    };
    assert(0 <= off <= t.len());
    assert(u =~= t.skip(off));
    assert(f1 <= u.len());
    assert(v.len() == f1);
    assert(v2.len() == v.len() - k1);
    assert(w == v2.take(k2));
    assert(w.len() == k2);
    assert(f2 <= w.len());
    assert(d == w.take(f2));
    assert(d.len() == f2);
    assert(u.len() == t.len() - off);
    // Characters of `d` are characters of the folded `t`, so stay folded.
    lemma_fold_seq_idempotent(trim_spec(s));
    assert forall|i: int| 0 <= i < d.len() implies fold_char(#[trigger] d[i]) == d[i] by {
        assert(d[i] == w[i]);
        assert(w[i] == v2[i]);
        assert(v2[i] == v[k1 + i]);
        assert(k1 + i < u.len());
        assert(v[k1 + i] == u[k1 + i]);
        assert(u[k1 + i] == t.skip(off)[k1 + i]);
        assert(t.skip(off)[k1 + i] == t[off + k1 + i]);
        assert(fold_seq(t)[off + k1 + i] == fold_char(t[off + k1 + i]));
        assert(fold_seq(t) == t);
    }
    // `d` holds no `/` and no `:`.
    assert forall|i: int| 0 <= i < d.len() implies #[trigger] d[i] != '/' && d[i] != ':' by {
        assert(d[i] == w[i]);
        assert(w[i] != ':');
        assert(w[i] == v2[i]);
        assert(v2[i] == v[k1 + i]);
        assert(k1 + i < v.len());
        assert(v[k1 + i] == u[k1 + i]);
        assert(u[k1 + i] != '/');
    }
    // `d` neither begins nor ends with `.`.
    assert(d[0] == v2[0]);
    assert(d[0] != '.');
    // A second pass changes nothing, step by step.
    assert forall|i: int| 0 <= i < d.len() implies !crate::text::is_ws_char(#[trigger] d[i]) by {
        if crate::text::is_ws_char(d[i]) {
            assert(has_ws(d));
        }
    }
    crate::text::lemma_trim_noop(d);
    assert(fold_seq(d) =~= d);
    let t9 = fold_seq(trim_spec(d));
    assert(t9 == d);
    proof_strip_scheme_noop(d);
    lemma_find_char_at(d, '/', d.len() as int);
    assert(d.take(d.len() as int) =~= d);
    assert(take_until_char(d, '/') == d);
    lemma_drop_char_start_skip(d, '.', 0);
    assert(d.skip(0) =~= d);
    lemma_drop_char_end_take(d, '.', d.len() as int);
    assert(trim_dots_spec(d) == d);
    lemma_find_char_at(d, ':', d.len() as int);
    assert(take_until_char(d, ':') == d);
}

/// A sequence without `:` carries no scheme prefix to strip.
proof fn proof_strip_scheme_noop(d: Seq<char>)
    requires
        forall|i: int| 0 <= i < d.len() ==> #[trigger] d[i] != ':',
    ensures
        strip_scheme(d) == d,
{
    reveal_strlit("https://");
    reveal_strlit("http://");
    if starts_with(d, "https://"@) {
        assert(d.take(8)[5] == d[5]);
        assert(d[5] == ':');
        assert(false);
    }
    if starts_with(d, "http://"@) {
        assert(d.take(7)[4] == d[4]);
        assert(d[4] == ':');
        assert(false);
    }
}

/// Strict lexicographic order over character sequences, by code point.
pub open spec fn lex_lt(a: Seq<char>, b: Seq<char>) -> bool
    decreases a.len(),
{
    b.len() > 0 && (a.len() == 0 || a[0] < b[0] || (a[0] == b[0] && lex_lt(
        a.drop_first(),
        b.drop_first(),
    )))
}

/// Nothing is lexicographically below itself.
pub proof fn lemma_lex_irrefl(a: Seq<char>)
    ensures
        !lex_lt(a, a),
    decreases a.len(),
{
    if a.len() > 0 {
        lemma_lex_irrefl(a.drop_first());
    }
}

/// Two sequences are lexicographically ordered one way or the other, or
/// equal.
pub proof fn lemma_lex_trichotomy(a: Seq<char>, b: Seq<char>)
    ensures
        lex_lt(a, b) || lex_lt(b, a) || a == b,
    decreases a.len(),
{
    if a.len() == 0 && b.len() == 0 {
        assert(a =~= b);
    } else if a.len() > 0 && b.len() > 0 && a[0] == b[0] {
        lemma_lex_trichotomy(a.drop_first(), b.drop_first());
        if a.drop_first() == b.drop_first() {
            assert(a.drop_first().len() == a.len() - 1);
            assert(b.drop_first().len() == b.len() - 1);
            assert(a.len() == b.len());
            assert forall|i: int| 0 <= i < a.len() implies a[i] == b[i] by {
                if i > 0 {
                    assert(a.drop_first()[i - 1] == a[i]);
                    assert(b.drop_first()[i - 1] == b[i]);
                }
            }
            assert(a =~= b);
        }
    }
}

/// The lexicographic order runs one way only.
pub proof fn lemma_lex_asym(a: Seq<char>, b: Seq<char>)
    requires
        lex_lt(a, b),
    ensures
        !lex_lt(b, a),
        a != b,
    decreases a.len(),
{
    lemma_lex_irrefl(a);
    if a.len() > 0 && b.len() > 0 && a[0] == b[0] {
        lemma_lex_asym(a.drop_first(), b.drop_first());
    }
}

/// The lexicographic order is transitive.
pub proof fn lemma_lex_trans(a: Seq<char>, b: Seq<char>, c: Seq<char>)
    requires
        lex_lt(a, b),
        lex_lt(b, c),
    ensures
        lex_lt(a, c),
    decreases a.len(),
{
    if a.len() > 0 && b.len() > 0 && c.len() > 0 && a[0] == b[0] && b[0] == c[0] {
        lemma_lex_trans(a.drop_first(), b.drop_first(), c.drop_first());
    }
}

/// A shared prefix up to the first difference decides the order.
pub proof fn lemma_lex_decided(a: Seq<char>, b: Seq<char>, j: int)
    requires
        0 <= j <= a.len(),
        j <= b.len(),
        forall|i: int| 0 <= i < j ==> a[i] == #[trigger] b[i],
        j == a.len() || j == b.len() || a[j] != b[j],
    ensures
        lex_lt(a, b) <==> (j < b.len() && (j == a.len() || a[j] < b[j])),
    decreases j,
{
    if j > 0 {
        assert forall|i: int| 0 <= i < j - 1 implies a.drop_first()[i] == #[trigger] b.drop_first()[i] by {
            assert(a[i + 1] == b[i + 1]);
        }
        lemma_lex_decided(a.drop_first(), b.drop_first(), j - 1);
    }
}

/// Whether `a` comes lexicographically before `b`, executable form.
fn str_lt(a: &str, b: &str) -> (r: bool)
    ensures
        r == lex_lt(a@, b@),
{
    let na = a.unicode_len();
    let nb = b.unicode_len();
    let mut j: usize = 0;
    while j < na && j < nb && s_get(a, j) == s_get(b, j)
        invariant
            0 <= j <= na,
            j <= nb,
            na == a@.len(),
            nb == b@.len(),
            forall|i: int| 0 <= i < j ==> a@[i] == #[trigger] b@[i],
        decreases na - j,
    {
        j = j + 1;
    }
    proof {
        lemma_lex_decided(a@, b@, j as int);
    }
    if j < nb {
        if j == na {
            true
        } else {
            s_get(a, j) < s_get(b, j)
        }
    } else {
        false
    }
}

/// The allowlist entries are in strictly ascending lexicographic order, so
/// each occurs once.
pub open spec fn strictly_sorted(r: Seq<Seq<char>>) -> bool {
    forall|i: int, j: int| 0 <= i < j < r.len() ==> lex_lt(#[trigger] r[i], #[trigger] r[j])
}

/// The set of patterns the entries normalize to, invalid entries dropped.
pub open spec fn normalized_of(ds: Seq<Seq<char>>) -> Set<Seq<char>> {
    Set::new(
        |x: Seq<char>|
            exists|i: int| 0 <= i < ds.len() && norm_domain_spec(#[trigger] ds[i]) == Some(x),
    )
}

/// `r` is the canonical allowlist of `ds`: strictly sorted and holding
/// exactly the normalized patterns.
pub open spec fn is_normalized_allowlist(ds: Seq<Seq<char>>, r: Seq<Seq<char>>) -> bool {
    strictly_sorted(r) && r.to_set() == normalized_of(ds)
}

/// Places `d` into a strictly sorted list, keeping it sorted and dropping
/// a duplicate.
fn insert_unique_sorted(v: &mut Vec<String>, d: String)
    requires
        strictly_sorted(old(v).deep_view()),
    ensures
        strictly_sorted(final(v).deep_view()),
        final(v).deep_view().to_set() == old(v).deep_view().to_set().insert(d@),
{
    let ghost dv = old(v).deep_view();
    proof {
        assert(dv.len() == old(v)@.len());
        assert(forall|k: int| 0 <= k < dv.len() ==> #[trigger] dv[k] == old(v)@[k]@);
    }
    let n = v.len();
    let mut i: usize = 0;
    while i < n && str_lt(v[i].as_str(), d.as_str())
        invariant
            0 <= i <= n,
            n == v@.len(),
            v@ == old(v)@,
            dv.len() == n,
            forall|k: int| 0 <= k < dv.len() ==> #[trigger] dv[k] == old(v)@[k]@,
            forall|k: int| 0 <= k < i ==> lex_lt(#[trigger] dv[k], d@),
        decreases n - i,
    {
        proof {
            assert(dv[i as int] == v@[i as int]@);
        }
        i = i + 1;
    }
    proof {
        assert(forall|k: int| 0 <= k < v@.len() ==> #[trigger] dv[k] == v@[k]@);
    }
    if i < n && str_eq(v[i].as_str(), d.as_str()) {
        proof {
            assert(dv.contains(d@)) by {
                assert(dv[i as int] == d@);
            }
            assert(dv.to_set().insert(d@) =~= dv.to_set());
        }
        return ;
    }
    proof {
        if i < n {
            lemma_lex_trichotomy(dv[i as int], d@);
        }
    }
    v.insert(i, d);
    proof {
        let nv = v.deep_view();
        assert(nv.len() == dv.len() + 1);
        assert forall|k: int| 0 <= k < nv.len() implies #[trigger] nv[k] == (if k < i {
            dv[k]
        } else if k == i {
            d@
        } else {
            dv[k - 1]
        }) by {
            if k < i {
                assert(v@[k] == old(v)@[k]);
            } else if k > i {
                assert(v@[k] == old(v)@[k - 1]);
            }
        }
        assert forall|p: int, q: int| 0 <= p < q < nv.len() implies lex_lt(
            #[trigger] nv[p],
            #[trigger] nv[q],
        ) by {
            if q == i {
                assert(lex_lt(dv[p], d@));
            } else if p == i {
                if q - 1 > i {
                    lemma_lex_trans(d@, dv[i as int], dv[q - 1]);
                }
            } else if p < i && q > i {
                if q - 1 == p {
                    assert(false);
                } else {
                    assert(lex_lt(dv[p], dv[q - 1]));
                }
            }
        }
        assert(nv.to_set() =~= dv.to_set().insert(d@)) by {
            assert forall|x: Seq<char>| #[trigger] nv.to_set().contains(x) implies dv.to_set().insert(
                d@,
            ).contains(x) by {
                let k = choose|k: int| 0 <= k < nv.len() && nv[k] == x;
                if k < i {
                    assert(dv.contains(x)) by {
                        assert(dv[k] == x);
                    }
                } else if k > i {
                    assert(dv.contains(x)) by {
                        assert(dv[k - 1] == x);
                    }
                }
            }
            assert forall|x: Seq<char>| #[trigger] dv.to_set().insert(d@).contains(x) implies nv.to_set().contains(
                x,
            ) by {
                if x == d@ {
                    assert(nv.contains(x)) by {
                        assert(nv[i as int] == x);
                    }
                } else {
                    let k = choose|k: int| 0 <= k < dv.len() && dv[k] == x;
                    if k < i {
                        assert(nv.contains(x)) by {
                            assert(nv[k] == x);
                        }
                    } else {
                        assert(nv.contains(x)) by {
                            assert(nv[k + 1] == x);
                        }
                    }
                }
            }
        }
    }
}

/// Canonicalizes a whole allowlist: every entry normalized, invalid
/// entries dropped, duplicates removed, and the result sorted.
pub fn normalize_allowed_domains(domains: Vec<String>) -> (r: Vec<String>)
    ensures
        is_normalized_allowlist(domains.deep_view(), r.deep_view()),
{
    let ghost ds = domains.deep_view();
    let mut out: Vec<String> = Vec::new();
    let n = domains.len();
    let mut k: usize = 0;
    proof {
        assert(out.deep_view().to_set() =~= normalized_of(ds.take(0)));
    }
    while k < n
        invariant
            0 <= k <= n,
            n == domains@.len(),
            ds == domains.deep_view(),
            strictly_sorted(out.deep_view()),
            out.deep_view().to_set() == normalized_of(ds.take(k as int)),
        decreases n - k,
    {
        let ghost before = out.deep_view().to_set();
        let entry: &String = &domains[k];
        proof {
            assert(ds[k as int] == entry@);
        }
        match normalize_domain(entry.as_str()) {
            Some(d) => {
                let ghost dd = d@;
                insert_unique_sorted(&mut out, d);
                proof {
                    assert(normalized_of(ds.take(k + 1)) =~= before.insert(dd)) by {
                        assert forall|x: Seq<char>| #[trigger] normalized_of(
                            ds.take(k + 1),
                        ).contains(x) implies before.insert(dd).contains(x) by {
                            let i = choose|i: int|
                                0 <= i < k + 1 && norm_domain_spec(
                                    #[trigger] ds.take(k + 1)[i],
                                ) == Some(x);
                            if i < k {
                                assert(norm_domain_spec(ds.take(k as int)[i]) == Some(x));
                            }
                        }
                        assert forall|x: Seq<char>| #[trigger] before.insert(dd).contains(
                            x,
                        ) implies normalized_of(ds.take(k + 1)).contains(x) by {
                            if x == dd {
                                assert(norm_domain_spec(ds.take(k + 1)[k as int]) == Some(x));
                            } else {
                                let i = choose|i: int|
                                    0 <= i < k && norm_domain_spec(
                                        #[trigger] ds.take(k as int)[i],
                                    ) == Some(x);
                                assert(norm_domain_spec(ds.take(k + 1)[i]) == Some(x));
                            }
                        }
                    }
                }
            },
            None => {
                proof {
                    assert(normalized_of(ds.take(k + 1)) =~= before) by {
                        assert forall|x: Seq<char>| #[trigger] normalized_of(
                            ds.take(k + 1),
                        ).contains(x) implies before.contains(x) by {
                            let i = choose|i: int|
                                0 <= i < k + 1 && norm_domain_spec(
                                    #[trigger] ds.take(k + 1)[i],
                                ) == Some(x);
                            assert(i < k);
                            assert(norm_domain_spec(ds.take(k as int)[i]) == Some(x));
                        }
                        assert forall|x: Seq<char>| #[trigger] before.contains(
                            x,
                        ) implies normalized_of(ds.take(k + 1)).contains(x) by {
                            let i = choose|i: int|
                                0 <= i < k && norm_domain_spec(
                                    #[trigger] ds.take(k as int)[i],
                                ) == Some(x);
                            assert(norm_domain_spec(ds.take(k + 1)[i]) == Some(x));
                        }
                    }
                }
            },
        }
        k = k + 1;
    }
    proof {
        assert(ds.take(n as int) =~= ds);
    }
    out
}

/// Two strictly sorted allowlists holding the same patterns are the same
/// list.
pub proof fn lemma_sorted_unique(r1: Seq<Seq<char>>, r2: Seq<Seq<char>>)
    requires
        strictly_sorted(r1),
        strictly_sorted(r2),
        r1.to_set() == r2.to_set(),
    ensures
        r1 == r2,
    decreases r1.len(),
{
    if r1.len() == 0 {
        if r2.len() > 0 {
            assert(r2.to_set().contains(r2[0])) by {
                assert(r2[0] == r2[0]);
            }
            assert(r1.contains(r2[0]));
            assert(false);
        }
        assert(r1 =~= r2);
    } else if r2.len() == 0 {
        assert(r1.to_set().contains(r1[0])) by {
            assert(r1[0] == r1[0]);
        }
        assert(r2.contains(r1[0]));
        assert(false);
    } else {
        // The heads are both the least element, so they agree.
        assert(r2.to_set().contains(r1[0])) by {
            assert(r1.to_set().contains(r1[0])) by {
                assert(r1[0] == r1[0]);
            }
        }
        let k = choose|k: int| 0 <= k < r2.len() && r2[k] == r1[0];
        assert(r1.to_set().contains(r2[0])) by {
            assert(r2.to_set().contains(r2[0])) by {
                assert(r2[0] == r2[0]);
            }
        }
        let m = choose|m: int| 0 <= m < r1.len() && r1[m] == r2[0];
        if k > 0 && m > 0 {
            assert(lex_lt(r2[0], r2[k]));
            assert(lex_lt(r1[0], r1[m]));
            lemma_lex_asym(r1[0], r2[0]);
            assert(false);
        }
        assert(r1[0] == r2[0]);
        // The tails hold the same patterns.
        let t1 = r1.drop_first();
        let t2 = r2.drop_first();
        assert forall|p: int, q: int| 0 <= p < q < t1.len() implies lex_lt(
            #[trigger] t1[p],
            #[trigger] t1[q],
        ) by {
            assert(lex_lt(r1[p + 1], r1[q + 1]));
        }
        assert forall|p: int, q: int| 0 <= p < q < t2.len() implies lex_lt(
            #[trigger] t2[p],
            #[trigger] t2[q],
        ) by {
            assert(lex_lt(r2[p + 1], r2[q + 1]));
        }
        assert(t1.to_set() =~= t2.to_set()) by {
            assert forall|x: Seq<char>| #[trigger] t1.to_set().contains(x) implies t2.to_set().contains(
                x,
            ) by {
                let p = choose|p: int| 0 <= p < t1.len() && t1[p] == x;
                assert(r1[p + 1] == x);
                assert(lex_lt(r1[0], x));
                lemma_lex_asym(r1[0], x);
                assert(r2.to_set().contains(x)) by {
                    assert(r1.to_set().contains(x)) by {
                        assert(r1[p + 1] == x);
                    }
                }
                let q = choose|q: int| 0 <= q < r2.len() && r2[q] == x;
                assert(q > 0);
                assert(t2.contains(x)) by {
                    assert(t2[q - 1] == x);
                }
            }
            assert forall|x: Seq<char>| #[trigger] t2.to_set().contains(x) implies t1.to_set().contains(
                x,
            ) by {
                let p = choose|p: int| 0 <= p < t2.len() && t2[p] == x;
                assert(r2[p + 1] == x);
                assert(lex_lt(r2[0], x));
                lemma_lex_asym(r2[0], x);
                assert(r1.to_set().contains(x)) by {
                    assert(r2.to_set().contains(x)) by {
                        assert(r2[p + 1] == x);
                    }
                }
                let q = choose|q: int| 0 <= q < r1.len() && r1[q] == x;
                assert(q > 0);
                assert(t1.contains(x)) by {
                    assert(t1[q - 1] == x);
                }
            }
        }
        lemma_sorted_unique(t1, t2);
        assert forall|i: int| 0 <= i < r1.len() implies r1[i] == r2[i] by {
            if i > 0 {
                assert(t1[i - 1] == t2[i - 1]);
            }
        }
        assert(r1 =~= r2);
    }
}

/// Entries drawn from the same set normalize to the same pattern set.
pub proof fn lemma_same_entries_same_normalized(d1: Seq<Seq<char>>, d2: Seq<Seq<char>>)
    requires
        d1.to_set() == d2.to_set(),
    ensures
        normalized_of(d1) == normalized_of(d2),
{
    assert(normalized_of(d1) =~= normalized_of(d2)) by {
        assert forall|x: Seq<char>| #[trigger] normalized_of(d1).contains(x) implies normalized_of(
            d2,
        ).contains(x) by {
            let i = choose|i: int| 0 <= i < d1.len() && norm_domain_spec(#[trigger] d1[i]) == Some(x);
            assert(d2.to_set().contains(d1[i])) by {
                assert(d1.to_set().contains(d1[i])) by {
                    assert(d1[i] == d1[i]);
                }
            }
            let j = choose|j: int| 0 <= j < d2.len() && d2[j] == d1[i];
            assert(norm_domain_spec(d2[j]) == Some(x));
        }
        assert forall|x: Seq<char>| #[trigger] normalized_of(d2).contains(x) implies normalized_of(
            d1,
        ).contains(x) by {
            let i = choose|i: int| 0 <= i < d2.len() && norm_domain_spec(#[trigger] d2[i]) == Some(x);
            assert(d1.to_set().contains(d2[i])) by {
                assert(d2.to_set().contains(d2[i])) by {
                    assert(d2[i] == d2[i]);
                }
            }
            let j = choose|j: int| 0 <= j < d1.len() && d1[j] == d2[i];
            assert(norm_domain_spec(d1[j]) == Some(x));
        }
    }
}

/// Normalizing an allowlist is order-independent and deduplicating: two
/// entry lists drawn from the same set of entries — permuted or duplicated
/// as they may be — yield the same canonical allowlist.
pub proof fn lemma_normalize_allowed_domains_order_independent(
    d1: Seq<Seq<char>>,
    d2: Seq<Seq<char>>,
    r1: Seq<Seq<char>>,
    r2: Seq<Seq<char>>,
)
    requires
        d1.to_set() == d2.to_set(),
        is_normalized_allowlist(d1, r1),
        is_normalized_allowlist(d2, r2),
    ensures
        r1 == r2,
{
    lemma_same_entries_same_normalized(d1, d2);
    lemma_sorted_unique(r1, r2);
}

} // verus!
