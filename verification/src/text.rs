//! Character classes and sequence-level text operations shared by the
//! normalizer, the host extractor and the classifier.

use vstd::prelude::*;
use vstd::string::StrSliceExecFns;

verus! {

/// The Unicode `White_Space` code points, as trimming and the embedded
/// whitespace checks understand them.
pub open spec fn is_ws_char(c: char) -> bool {
    c == '\u{9}' || c == '\u{a}' || c == '\u{b}' || c == '\u{c}' || c == '\u{d}' || c == ' '
        || c == '\u{85}' || c == '\u{a0}' || c == '\u{1680}' || ('\u{2000}' <= c
        && c <= '\u{200a}') || c == '\u{2028}' || c == '\u{2029}' || c == '\u{202f}'
        || c == '\u{205f}' || c == '\u{3000}'
}

pub fn is_whitespace_char(c: char) -> (r: bool)
    ensures
        r == is_ws_char(c),
{
    c == '\u{9}' || c == '\u{a}' || c == '\u{b}' || c == '\u{c}' || c == '\u{d}' || c == ' '
        || c == '\u{85}' || c == '\u{a0}' || c == '\u{1680}' || ('\u{2000}' <= c
        && c <= '\u{200a}') || c == '\u{2028}' || c == '\u{2029}' || c == '\u{202f}'
        || c == '\u{205f}' || c == '\u{3000}'
}

/// ASCII lowercase folding of a single character; anything outside `A`..`Z`
/// is left as it is.
pub open spec fn fold_char(c: char) -> char {
    if 'A' <= c && c <= 'Z' {
        ((c as u32) + 32) as char
    } else {
        c
    }
}

pub fn to_folded_char(c: char) -> (r: char)
    ensures
        r == fold_char(c),
{
    if 'A' <= c && c <= 'Z' {
        let b: u8 = c as u8;
        (b + 32) as char
    } else {
        c
    }
}

/// ASCII lowercase folding of a whole character sequence.
pub open spec fn fold_seq(s: Seq<char>) -> Seq<char> {
    s.map_values(|c: char| fold_char(c))
}

/// Folding twice is the same as folding once.
pub proof fn lemma_fold_seq_idempotent(s: Seq<char>)
    ensures
        fold_seq(fold_seq(s)) == fold_seq(s),
{
    assert(fold_seq(fold_seq(s)) =~= fold_seq(s)) by {
        assert forall|i: int| 0 <= i < s.len() implies fold_char(fold_char(s[i])) == fold_char(
            s[i],
        ) by {
            if 'A' <= s[i] && s[i] <= 'Z' {
                assert(!('A' <= fold_char(s[i]) && fold_char(s[i]) <= 'Z'));
            }
        }
    }
}

/// The longest prefix of characters satisfying `p`, dropped.
pub open spec fn drop_while(s: Seq<char>, p: spec_fn(char) -> bool) -> Seq<char>
    decreases s.len(),
{
    if s.len() > 0 && p(s[0]) {
        drop_while(s.drop_first(), p)
    } else {
        s
    }
}

/// The longest suffix of characters satisfying `p`, dropped.
pub open spec fn drop_end_while(s: Seq<char>, p: spec_fn(char) -> bool) -> Seq<char>
    decreases s.len(),
{
    if s.len() > 0 && p(s.last()) {
        drop_end_while(s.drop_last(), p)
    } else {
        s
    }
}

/// `drop_while` removes exactly the leading run of characters satisfying `p`.
pub proof fn lemma_drop_while_skip(s: Seq<char>, p: spec_fn(char) -> bool, k: int)
    requires
        0 <= k <= s.len(),
        forall|i: int| 0 <= i < k ==> p(#[trigger] s[i]),
        k == s.len() || !p(s[k]),
    ensures
        drop_while(s, p) == s.skip(k),
    decreases k,
{
    if k == 0 {
        assert(s.skip(0) =~= s);
    } else {
        lemma_drop_while_skip(s.drop_first(), p, k - 1);
        assert(s.drop_first().skip(k - 1) =~= s.skip(k));
    }
}

/// `drop_end_while` removes exactly the trailing run of characters
/// satisfying `p`.
pub proof fn lemma_drop_end_while_take(s: Seq<char>, p: spec_fn(char) -> bool, k: int)
    requires
        0 <= k <= s.len(),
        forall|i: int| k <= i < s.len() ==> p(#[trigger] s[i]),
        k == 0 || !p(s[k - 1]),
    ensures
        drop_end_while(s, p) == s.take(k),
    decreases s.len() - k,
{
    if k == s.len() {
        assert(s.take(k) =~= s);
        if s.len() > 0 && p(s.last()) {
            assert(false);
        }
    } else {
        lemma_drop_end_while_take(s.drop_last(), p, k);
        assert(s.drop_last().take(k) =~= s.take(k));
    }
}

/// Surrounding whitespace removed.
pub open spec fn trim_spec(s: Seq<char>) -> Seq<char> {
    drop_end_while(drop_while(s, |c: char| is_ws_char(c)), |c: char| is_ws_char(c))
}

/// The longest prefix of copies of `c`, dropped.
pub open spec fn drop_char_start(s: Seq<char>, c: char) -> Seq<char>
    decreases s.len(),
{
    if s.len() > 0 && s[0] == c {
        drop_char_start(s.drop_first(), c)
    } else {
        s
    }
}

/// The longest suffix of copies of `c`, dropped.
pub open spec fn drop_char_end(s: Seq<char>, c: char) -> Seq<char>
    decreases s.len(),
{
    if s.len() > 0 && s.last() == c {
        drop_char_end(s.drop_last(), c)
    } else {
        s
    }
}

/// `drop_char_start` removes exactly the leading run of copies of `c`.
pub proof fn lemma_drop_char_start_skip(s: Seq<char>, c: char, k: int)
    requires
        0 <= k <= s.len(),
        forall|i: int| 0 <= i < k ==> #[trigger] s[i] == c,
        k == s.len() || s[k] != c,
    ensures
        drop_char_start(s, c) == s.skip(k),
    decreases k,
{
    if k == 0 {
        assert(s.skip(0) =~= s);
    } else {
        lemma_drop_char_start_skip(s.drop_first(), c, k - 1);
        assert(s.drop_first().skip(k - 1) =~= s.skip(k));
    }
}

/// `drop_char_end` removes exactly the trailing run of copies of `c`.
pub proof fn lemma_drop_char_end_take(s: Seq<char>, c: char, k: int)
    requires
        0 <= k <= s.len(),
        forall|i: int| k <= i < s.len() ==> #[trigger] s[i] == c,
        k == 0 || s[k - 1] != c,
    ensures
        drop_char_end(s, c) == s.take(k),
    decreases s.len() - k,
{
    if k == s.len() {
        assert(s.take(k) =~= s);
    } else {
        lemma_drop_char_end_take(s.drop_last(), c, k);
        assert(s.drop_last().take(k) =~= s.take(k));
    }
}

/// Trimming a sequence without whitespace changes nothing.
pub proof fn lemma_trim_noop(s: Seq<char>)
    requires
        forall|i: int| 0 <= i < s.len() ==> !is_ws_char(#[trigger] s[i]),
    ensures
        trim_spec(s) == s,
{
    let p = |c: char| is_ws_char(c);
    lemma_drop_while_skip(s, p, 0);
    assert(s.skip(0) =~= s);
    lemma_drop_end_while_take(s, p, s.len() as int);
    assert(s.take(s.len() as int) =~= s);
}

/// Leading and trailing `.` characters removed.
pub open spec fn trim_dots_spec(s: Seq<char>) -> Seq<char> {
    drop_char_end(drop_char_start(s, '.'), '.')
}

/// The index of the first occurrence of `c`, or the length if there is
/// none.
pub open spec fn find_char_at(s: Seq<char>, c: char) -> int
    decreases s.len(),
{
    if s.len() == 0 {
        0
    } else if s[0] == c {
        0
    } else {
        1 + find_char_at(s.drop_first(), c)
    }
}

/// `find_char_at` names the first index holding `c`.
pub proof fn lemma_find_char_at(s: Seq<char>, c: char, k: int)
    requires
        0 <= k <= s.len(),
        forall|i: int| 0 <= i < k ==> #[trigger] s[i] != c,
        k == s.len() || s[k] == c,
    ensures
        find_char_at(s, c) == k,
    decreases k,
{
    if k == 0 {
    } else {
        lemma_find_char_at(s.drop_first(), c, k - 1);
    }
}

/// Everything before the first occurrence of `c` (the whole sequence when
/// `c` does not occur).
pub open spec fn take_until_char(s: Seq<char>, c: char) -> Seq<char> {
    s.take(find_char_at(s, c))
}

/// `find_char_at` stays inside the sequence and `c` does not occur before
/// it.
pub proof fn lemma_find_char_at_props(s: Seq<char>, c: char)
    ensures
        0 <= find_char_at(s, c) <= s.len(),
        forall|i: int| 0 <= i < find_char_at(s, c) ==> #[trigger] s[i] != c,
    decreases s.len(),
{
    if s.len() > 0 && s[0] != c {
        lemma_find_char_at_props(s.drop_first(), c);
        assert forall|i: int| 0 <= i < find_char_at(s, c) implies #[trigger] s[i] != c by {
            if i > 0 {
                assert(s.drop_first()[i - 1] != c);
            }
        }
    }
}

/// `drop_char_start` leaves some suffix whose first character, if any, is
/// not `c`.
pub proof fn lemma_drop_char_start_exists(s: Seq<char>, c: char)
    ensures
        exists|k: int|
            0 <= k <= s.len() && drop_char_start(s, c) == s.skip(k) && (s.skip(k).len() == 0
                || s.skip(k)[0] != c),
    decreases s.len(),
{
    if s.len() > 0 && s[0] == c {
        lemma_drop_char_start_exists(s.drop_first(), c);
        let k = choose|k: int|
            0 <= k <= s.drop_first().len() && drop_char_start(s.drop_first(), c)
                == s.drop_first().skip(k) && (s.drop_first().skip(k).len() == 0
                || s.drop_first().skip(k)[0] != c);
        assert(s.drop_first().skip(k) =~= s.skip(k + 1));
    } else {
        assert(s.skip(0) =~= s);
    }
}

/// `drop_char_end` leaves some prefix.
pub proof fn lemma_drop_char_end_exists(s: Seq<char>, c: char)
    ensures
        exists|k: int| 0 <= k <= s.len() && drop_char_end(s, c) == s.take(k),
    decreases s.len(),
{
    if s.len() > 0 && s.last() == c {
        lemma_drop_char_end_exists(s.drop_last(), c);
        let k = choose|k: int|
            0 <= k <= s.drop_last().len() && drop_char_end(s.drop_last(), c) == s.drop_last().take(
                k,
            );
        assert(s.drop_last().take(k) =~= s.take(k));
    } else {
        assert(s.take(s.len() as int) =~= s);
    }
}

/// Some character of `s` is whitespace.
pub open spec fn has_ws(s: Seq<char>) -> bool {
    exists|i: int| 0 <= i < s.len() && is_ws_char(#[trigger] s[i])
}

/// `suf` is a suffix of `s`.
pub open spec fn is_suffix_of(suf: Seq<char>, s: Seq<char>) -> bool {
    suf.len() <= s.len() && s.skip(s.len() - suf.len()) == suf
}

/// The label after the last `.` (the whole sequence when no `.` occurs).
pub open spec fn last_label(s: Seq<char>) -> Seq<char>
    decreases s.len(),
{
    if s.len() == 0 {
        s
    } else if s.last() == '.' {
        Seq::empty()
    } else {
        last_label(s.drop_last()).push(s.last())
    }
}

/// `last_label` is the part after the last `.`.
pub proof fn lemma_last_label(s: Seq<char>, k: int)
    requires
        0 <= k <= s.len(),
        forall|i: int| k <= i < s.len() ==> #[trigger] s[i] != '.',
        k == 0 || s[k - 1] == '.',
    ensures
        last_label(s) == s.skip(k),
    decreases s.len(),
{
    if s.len() == 0 {
        assert(s.skip(0) =~= s);
    } else if s.last() == '.' {
        assert(k == s.len());
        assert(s.skip(k) =~= Seq::<char>::empty());
    } else {
        assert(k < s.len());
        lemma_last_label(s.drop_last(), k);
        assert(s.drop_last().skip(k).push(s.last()) =~= s.skip(k));
    }
}

/// Surrounding whitespace removed, as an executable operation.
pub fn trim_str<'a>(s: &'a str) -> (r: &'a str)
    ensures
        r@ == trim_spec(s@),
{
    let n = s.unicode_len();
    let mut a: usize = 0;
    while a < n && is_whitespace_char(s.get_char(a))
        invariant
            0 <= a <= n,
            n == s@.len(),
            forall|i: int| 0 <= i < a ==> is_ws_char(#[trigger] s@[i]),
        decreases n - a,
    {
        a = a + 1;
    }
    let mut b: usize = n;
    while b > a && is_whitespace_char(s.get_char(b - 1))
        invariant
            a <= b <= n,
            n == s@.len(),
            forall|i: int| 0 <= i < a ==> is_ws_char(#[trigger] s@[i]),
            a == n || !is_ws_char(s@[a as int]),
            forall|i: int| b <= i < n ==> is_ws_char(#[trigger] s@[i]),
        decreases b,
    {
        b = b - 1;
    }
    proof {
        let p = |c: char| is_ws_char(c);
        lemma_drop_while_skip(s@, p, a as int);
        let t = s@.skip(a as int);
        assert(forall|i: int| b - a <= i < t.len() ==> p(#[trigger] t[i]));
        if b > a {
            assert(!p(t[b - a - 1]));
        }
        lemma_drop_end_while_take(t, p, b - a);
        assert(t.take(b - a) =~= s@.subrange(a as int, b as int));
    }
    s.substring_char(a, b)
}

/// ASCII lowercase folding, as an executable operation.
pub fn fold_str(s: &str) -> (r: String)
    ensures
        r@ == fold_seq(s@),
{
    let n = s.unicode_len();
    let mut r = String::new();
    let mut i: usize = 0;
    while i < n
        invariant
            0 <= i <= n,
            n == s@.len(),
            r@ =~= fold_seq(s@.take(i as int)),
        decreases n - i,
    {
        let c = to_folded_char(s.get_char(i));
        push_char(&mut r, c);
        i = i + 1;
        proof {
            assert(fold_seq(s@.take(i as int)) =~= fold_seq(s@.take(i - 1)).push(
                fold_char(s@[i - 1]),
            ));
        }
    }
    proof {
        assert(s@.take(n as int) =~= s@);
    }
    r
}

/// Relies on `String::push`: appends exactly one character at the end.
#[verifier::external_body]
pub fn push_char(s: &mut String, c: char)
    ensures
        final(s)@ == old(s)@.push(c),
{
    s.push(c);
}

/// Whether two character ranges hold the same characters.
pub fn eq_ranges(a: &str, af: usize, at: usize, b: &str, bf: usize, bt: usize) -> (r: bool)
    requires
        af <= at <= a@.len(),
        bf <= bt <= b@.len(),
    ensures
        r == (a@.subrange(af as int, at as int) == b@.subrange(bf as int, bt as int)),
{
    if at - af != bt - bf {
        proof {
            assert(a@.subrange(af as int, at as int).len() != b@.subrange(
                bf as int,
                bt as int,
            ).len());
        }
        return false;
    }
    let len = at - af;
    let mut i: usize = 0;
    while i < len
        invariant
            0 <= i <= len,
            af + len <= a@.len(),
            bf + len <= b@.len(),
            at == af + len,
            bt == bf + len,
            forall|j: int| 0 <= j < i ==> #[trigger] a@[af + j] == b@[bf + j],
        decreases len - i,
    {
        if s_get(a, af + i) != s_get(b, bf + i) {
            proof {
                let sa = a@.subrange(af as int, at as int);
                let sb = b@.subrange(bf as int, bt as int);
                assert(sa[i as int] != sb[i as int]);
            }
            return false;
        }
        i = i + 1;
    }
    proof {
        let sa = a@.subrange(af as int, at as int);
        let sb = b@.subrange(bf as int, bt as int);
        assert forall|j: int| 0 <= j < len implies sa[j] == sb[j] by {
            assert(a@[af + j] == b@[bf + j]);
        }
        assert(sa =~= sb);
    }
    true
}

/// The character at one position, as an executable operation.
pub fn s_get(s: &str, i: usize) -> (c: char)
    requires
        i < s@.len(),
    ensures
        c == s@[i as int],
{
    s.get_char(i)
}

/// Whether the whole of `a` holds the same characters as the whole of `b`.
pub fn str_eq(a: &str, b: &str) -> (r: bool)
    ensures
        r == (a@ == b@),
{
    let r = eq_ranges(a, 0, a.unicode_len(), b, 0, b.unicode_len());
    proof {
        assert(a@.subrange(0, a@.len() as int) =~= a@);
        assert(b@.subrange(0, b@.len() as int) =~= b@);
    }
    r
}

/// Whether some character of `s` is whitespace.
pub fn contains_whitespace(s: &str) -> (r: bool)
    ensures
        r == has_ws(s@),
{
    let n = s.unicode_len();
    let mut i: usize = 0;
    while i < n
        invariant
            0 <= i <= n,
            n == s@.len(),
            forall|j: int| 0 <= j < i ==> !is_ws_char(#[trigger] s@[j]),
        decreases n - i,
    {
        if is_whitespace_char(s.get_char(i)) {
            return true;
        }
        i = i + 1;
    }
    false
}

/// The index of the first occurrence of `c` at or after `from`, or the
/// length if there is none.
pub fn find_char_from(s: &str, from: usize, c: char) -> (r: usize)
    requires
        from <= s@.len(),
    ensures
        from <= r <= s@.len(),
        forall|j: int| from <= j < r ==> s@[j] != c,
        r < s@.len() ==> s@[r as int] == c,
{
    let n = s.unicode_len();
    let mut i: usize = from;
    while i < n && s.get_char(i) != c
        invariant
            from <= i <= n,
            n == s@.len(),
            forall|j: int| from <= j < i ==> s@[j] != c,
        decreases n - i,
    {
        i = i + 1;
    }
    i
}

} // verus!

