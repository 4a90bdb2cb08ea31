//! Verified text utilities shared by the output parsers.
//!
//! The external tools emit loosely structured, line oriented text.  Every
//! parser in this crate is specified against the spec-level models defined
//! here: line splitting, whitespace trimming, substring search, whitespace
//! tokenisation and best-effort integer parsing.

use vstd::prelude::*;

verus! {

/// The whitespace characters recognised by the trimming and tokenising
/// helpers: space, tab, carriage return and line feed.
pub open spec fn is_space(c: char) -> bool {
    c == ' ' || c == '\t' || c == '\r' || c == '\n'
}

/// Index of the first occurrence of `c` in `s`, or `s.len()` if absent.
pub open spec fn spec_find_char(s: Seq<char>, c: char) -> int
    decreases s.len(),
{
    if s.len() == 0 {
        0
    } else if s[0] == c {
        0
    } else {
        1 + spec_find_char(s.skip(1), c)
    }
}

/// Index of the first whitespace character in `s`, or `s.len()` if absent.
pub open spec fn spec_find_space(s: Seq<char>) -> int
    decreases s.len(),
{
    if s.len() == 0 {
        0
    } else if is_space(s[0]) {
        0
    } else {
        1 + spec_find_space(s.skip(1))
    }
}

pub proof fn lemma_find_char(s: Seq<char>, c: char)
    ensures
        0 <= spec_find_char(s, c) <= s.len(),
        spec_find_char(s, c) < s.len() ==> s[spec_find_char(s, c)] == c,
        forall|j: int| 0 <= j < spec_find_char(s, c) ==> s[j] != c,
    decreases s.len(),
{
    if s.len() != 0 && s[0] != c {
        lemma_find_char(s.skip(1), c);
        assert forall|j: int| 0 <= j < spec_find_char(s, c) implies s[j] != c by {
            if j > 0 {
                assert(s.skip(1)[j - 1] == s[j]);
            }
        }
        if spec_find_char(s, c) < s.len() {
            assert(s.skip(1)[spec_find_char(s, c) - 1] == s[spec_find_char(s, c)]);
        }
    }
}

pub proof fn lemma_find_space(s: Seq<char>)
    ensures
        0 <= spec_find_space(s) <= s.len(),
        spec_find_space(s) < s.len() ==> is_space(s[spec_find_space(s)]),
        forall|j: int| 0 <= j < spec_find_space(s) ==> !is_space(#[trigger] s[j]),
    decreases s.len(),
{
    if s.len() != 0 && !is_space(s[0]) {
        lemma_find_space(s.skip(1));
        assert forall|j: int| 0 <= j < spec_find_space(s) implies !is_space(#[trigger] s[j]) by {
            if j > 0 {
                assert(s.skip(1)[j - 1] == s[j]);
            }
        }
        if spec_find_space(s) < s.len() {
            assert(s.skip(1)[spec_find_space(s) - 1] == s[spec_find_space(s)]);
        }
    }
}

/// `spec_find_char` computed from a known first occurrence.
pub proof fn lemma_find_char_at(s: Seq<char>, c: char, i: int)
    requires
        0 <= i <= s.len(),
        forall|j: int| 0 <= j < i ==> s[j] != c,
        i < s.len() ==> s[i] == c,
        i == s.len() ==> forall|j: int| 0 <= j < s.len() ==> s[j] != c,
    ensures
        spec_find_char(s, c) == i,
    decreases i,
{
    lemma_find_char(s, c);
    if spec_find_char(s, c) < i {
        assert(s[spec_find_char(s, c)] == c);
    }
}

/// Splitting on a separator character, with Rust `str::split` semantics:
/// the result is never empty, and an empty input yields one empty piece.
pub open spec fn spec_split(s: Seq<char>, c: char) -> Seq<Seq<char>>
    decreases s.len(),
{
    let i = spec_find_char(s, c);
    if !(0 <= i < s.len()) {
        seq![s]
    } else {
        seq![s.take(i)] + spec_split(s.skip(i + 1), c)
    }
}

pub proof fn lemma_split_len(s: Seq<char>, c: char)
    ensures
        spec_split(s, c).len() >= 1,
    decreases s.len(),
{
    let i = spec_find_char(s, c);
    lemma_find_char(s, c);
    if 0 <= i < s.len() {
        lemma_split_len(s.skip(i + 1), c);
    }
}

/// A line piece with a trailing carriage return removed.
pub open spec fn strip_cr(l: Seq<char>) -> Seq<char> {
    if l.len() > 0 && l.last() == '\r' {
        l.take(l.len() - 1)
    } else {
        l
    }
}

/// The lines of `s`, with Rust `str::lines` semantics: pieces are cut at
/// `'\n'`, a final empty piece is dropped, and a `'\r'` that preceded a
/// `'\n'` is removed from its line.
pub open spec fn spec_lines(s: Seq<char>) -> Seq<Seq<char>> {
    let parts = spec_split(s, '\n');
    if parts.last().len() == 0 {
        parts.drop_last().map(|i: int, l: Seq<char>| strip_cr(l))
    } else {
        Seq::new(
            parts.len(),
            |i: int|
                if i < parts.len() - 1 {
                    strip_cr(parts[i])
                } else {
                    parts[i]
                },
        )
    }
}

/// `s` with leading whitespace removed.
pub open spec fn spec_trim_start(s: Seq<char>) -> Seq<char>
    decreases s.len(),
{
    if s.len() > 0 && is_space(s[0]) {
        spec_trim_start(s.skip(1))
    } else {
        s
    }
}

/// `s` with trailing whitespace removed.
pub open spec fn spec_trim_end(s: Seq<char>) -> Seq<char>
    decreases s.len(),
{
    if s.len() > 0 && is_space(s.last()) {
        spec_trim_end(s.drop_last())
    } else {
        s
    }
}

/// `s` with whitespace removed from both ends.
pub open spec fn spec_trim(s: Seq<char>) -> Seq<char> {
    spec_trim_end(spec_trim_start(s))
}

pub proof fn lemma_trim_start_skip(s: Seq<char>, a: int)
    requires
        0 <= a <= s.len(),
        forall|j: int| 0 <= j < a ==> is_space(#[trigger] s[j]),
        a < s.len() ==> !is_space(s[a]),
    ensures
        spec_trim_start(s) == s.skip(a),
    decreases a,
{
    if a == 0 {
        if s.len() > 0 && is_space(s[0]) {
            assert(false);
        }
        assert(s.skip(0) =~= s);
    } else {
        assert(is_space(s[0]));
        lemma_trim_start_skip(s.skip(1), a - 1);
        assert(s.skip(1).skip(a - 1) =~= s.skip(a));
    }
}

pub proof fn lemma_trim_end_take(s: Seq<char>, b: int)
    requires
        0 <= b <= s.len(),
        forall|j: int| b <= j < s.len() ==> is_space(#[trigger] s[j]),
        b > 0 ==> !is_space(s[b - 1]),
    ensures
        spec_trim_end(s) == s.take(b),
    decreases s.len() - b,
{
    if b == s.len() {
        if s.len() > 0 && is_space(s.last()) {
            assert(false);
        }
        assert(s.take(s.len() as int) =~= s);
    } else {
        assert(is_space(s.last()));
        lemma_trim_end_take(s.drop_last(), b);
        assert(s.drop_last().take(b) =~= s.take(b));
    }
}

/// `p` is a prefix of `s`.
pub open spec fn is_prefix_of(p: Seq<char>, s: Seq<char>) -> bool {
    p.len() <= s.len() && s.take(p.len() as int) == p
}

/// `s` contains `p` as a contiguous subsequence.
pub open spec fn spec_contains(s: Seq<char>, p: Seq<char>) -> bool {
    exists|i: int| 0 <= i <= s.len() - p.len() && is_prefix_of(p, #[trigger] s.skip(i))
}

/// Index of the first occurrence of `p` in `s`; greater than
/// `s.len() - p.len()` when there is none.
pub open spec fn spec_find_sub(s: Seq<char>, p: Seq<char>) -> int
    decreases s.len(),
{
    if is_prefix_of(p, s) {
        0
    } else if s.len() == 0 {
        1
    } else {
        1 + spec_find_sub(s.skip(1), p)
    }
}

pub proof fn lemma_find_sub(s: Seq<char>, p: Seq<char>)
    ensures
        spec_find_sub(s, p) >= 0,
        spec_contains(s, p) ==> {
            &&& spec_find_sub(s, p) + p.len() <= s.len()
            &&& is_prefix_of(p, s.skip(spec_find_sub(s, p)))
            &&& forall|j: int|
                0 <= j < spec_find_sub(s, p) ==> !is_prefix_of(p, #[trigger] s.skip(j))
        },
        !spec_contains(s, p) ==> spec_find_sub(s, p) + p.len() > s.len(),
    decreases s.len(),
{
    if is_prefix_of(p, s) {
        assert(s.skip(0) =~= s);
        assert(spec_contains(s, p)) by {
            assert(0 <= 0 <= s.len() - p.len() && is_prefix_of(p, s.skip(0)));
        }
    } else if s.len() == 0 {
        if spec_contains(s, p) {
            let i = choose|i: int| 0 <= i <= s.len() - p.len() && is_prefix_of(p, #[trigger] s.skip(i));
            assert(p.len() == 0);
            assert(s.take(p.len() as int) =~= p);
            assert(false);
        }
    } else {
        lemma_find_sub(s.skip(1), p);
        if spec_contains(s, p) {
            let i = choose|i: int| 0 <= i <= s.len() - p.len() && is_prefix_of(p, #[trigger] s.skip(i));
            assert(i >= 1) by {
                if i == 0 {
                    assert(s.skip(0) =~= s);
                }
            }
            assert(s.skip(1).skip(i - 1) =~= s.skip(i));
            assert(spec_contains(s.skip(1), p)) by {
                assert(0 <= i - 1 <= s.skip(1).len() - p.len() && is_prefix_of(p, s.skip(1).skip(i - 1)));
            }
            let f = spec_find_sub(s, p);
            assert(s.skip(1).skip(f - 1) =~= s.skip(f));
            assert forall|j: int| 0 <= j < f implies !is_prefix_of(p, #[trigger] s.skip(j)) by {
                if j > 0 {
                    assert(s.skip(1).skip(j - 1) =~= s.skip(j));
                } else {
                    assert(s.skip(0) =~= s);
                }
            }
        } else {
            if spec_contains(s.skip(1), p) {
                let i = choose|i: int|
                    0 <= i <= s.skip(1).len() - p.len() && is_prefix_of(p, #[trigger] s.skip(1).skip(i));
                assert(s.skip(1).skip(i) =~= s.skip(i + 1));
                assert(spec_contains(s, p)) by {
                    assert(0 <= i + 1 <= s.len() - p.len() && is_prefix_of(p, s.skip(i + 1)));
                }
            }
        }
    }
}

/// The text after the first occurrence of `p` in `s` (meaningful only when
/// `spec_contains(s, p)` holds).
pub open spec fn spec_after_first(s: Seq<char>, p: Seq<char>) -> Seq<char> {
    s.skip(spec_find_sub(s, p) + p.len())
}

/// The tokens of `s`: maximal runs of non-whitespace characters, in order.
pub open spec fn spec_tokens(s: Seq<char>) -> Seq<Seq<char>>
    decreases s.len(),
{
    if s.len() == 0 {
        Seq::empty()
    } else if is_space(s[0]) {
        spec_tokens(s.skip(1))
    } else {
        let e = spec_find_space(s);
        if e < 1 || e > s.len() {
            Seq::empty()
        } else {
            seq![s.take(e)] + spec_tokens(s.skip(e))
        }
    }
}

/// The views of a sequence of owned strings.
pub open spec fn seq_views(v: Seq<String>) -> Seq<Seq<char>> {
    Seq::new(v.len(), |i: int| v[i]@)
}

/// `spec_find_space` computed from a known first whitespace position.
pub proof fn lemma_find_space_at(s: Seq<char>, i: int)
    requires
        0 <= i <= s.len(),
        forall|j: int| 0 <= j < i ==> !is_space(#[trigger] s[j]),
        i < s.len() ==> is_space(s[i]),
    ensures
        spec_find_space(s) == i,
    decreases i,
{
    lemma_find_space(s);
    if spec_find_space(s) < i {
        assert(is_space(s[spec_find_space(s)]));
    }
}

pub fn starts_with_str(s: &str, p: &str) -> (r: bool)
    ensures
        r == is_prefix_of(p@, s@),
{
    let n = s.unicode_len();
    let m = p.unicode_len();
    if m > n {
        return false;
    }
    let mut j: usize = 0;
    while j < m
        invariant
            0 <= j <= m,
            m <= n,
            n == s@.len(),
            m == p@.len(),
            forall|k: int| 0 <= k < j ==> s@[k] == p@[k],
        decreases m - j,
    {
        if s.get_char(j) != p.get_char(j) {
            assert(!is_prefix_of(p@, s@)) by {
                assert(s@.take(p@.len() as int)[j as int] == s@[j as int]);
            }
            return false;
        }
        j += 1;
    }
    assert(s@.take(p@.len() as int) =~= p@);
    true
}

/// Whether `p@` occurs at position `i` of `s@`.
fn match_at(s: &str, p: &str, i: usize) -> (r: bool)
    requires
        i <= s@.len(),
    ensures
        r == is_prefix_of(p@, s@.skip(i as int)),
{
    let n = s.unicode_len();
    let m = p.unicode_len();
    if m > n - i {
        return false;
    }
    let mut j: usize = 0;
    while j < m
        invariant
            0 <= j <= m,
            i + m <= n,
            n == s@.len(),
            m == p@.len(),
            forall|k: int| 0 <= k < j ==> s@[i + k] == p@[k],
        decreases m - j,
    {
        if s.get_char(i + j) != p.get_char(j) {
            assert(!is_prefix_of(p@, s@.skip(i as int))) by {
                assert(s@.skip(i as int).take(p@.len() as int)[j as int] == s@[i + j]);
            }
            return false;
        }
        j += 1;
    }
    assert(s@.skip(i as int).take(p@.len() as int) =~= p@);
    true
}

/// Index of the first occurrence of `p` in `s`, if any.
pub fn find_sub_str(s: &str, p: &str) -> (r: Option<usize>)
    ensures
        match r {
            Some(i) => spec_contains(s@, p@) && i == spec_find_sub(s@, p@),
            None => !spec_contains(s@, p@),
        },
{
    let n = s.unicode_len();
    let m = p.unicode_len();
    if m == 0 {
        proof {
            assert(s@.skip(0) =~= s@);
            assert(s@.take(0) =~= p@);
            assert(spec_contains(s@, p@)) by {
                assert(0 <= 0 <= s@.len() - p@.len() && is_prefix_of(p@, s@.skip(0)));
            }
            lemma_find_sub(s@, p@);
        }
        return Some(0);
    }
    if m > n {
        proof {
            if spec_contains(s@, p@) {
                let k = choose|k: int|
                    0 <= k <= s@.len() - p@.len() && is_prefix_of(p@, #[trigger] s@.skip(k));
            }
        }
        return None;
    }
    let mut i: usize = 0;
    while i <= n - m
        invariant
            0 <= i <= n - m + 1,
            1 <= m <= n,
            n == s@.len(),
            m == p@.len(),
            forall|j: int| 0 <= j < i ==> !is_prefix_of(p@, #[trigger] s@.skip(j)),
        decreases n - m + 1 - i,
    {
        if match_at(s, p, i) {
            proof {
                assert(spec_contains(s@, p@)) by {
                    assert(0 <= i <= s@.len() - p@.len() && is_prefix_of(p@, s@.skip(i as int)));
                }
                lemma_find_sub(s@, p@);
                let f = spec_find_sub(s@, p@);
                if f < i {
                    assert(!is_prefix_of(p@, s@.skip(f)));
                }
            }
            return Some(i);
        }
        i += 1;
    }
    proof {
        if spec_contains(s@, p@) {
            let k = choose|k: int|
                0 <= k <= s@.len() - p@.len() && is_prefix_of(p@, #[trigger] s@.skip(k));
            assert(!is_prefix_of(p@, s@.skip(k)));
        }
    }
    None
}

/// Index of the first occurrence of the character `c` in `s`, if any.
pub fn find_char_str(s: &str, c: char) -> (r: Option<usize>)
    ensures
        match r {
            Some(i) => i == spec_find_char(s@, c) && i < s@.len(),
            None => spec_find_char(s@, c) == s@.len(),
        },
{
    let n = s.unicode_len();
    let mut i: usize = 0;
    while i < n
        invariant
            0 <= i <= n,
            n == s@.len(),
            forall|j: int| 0 <= j < i ==> s@[j] != c,
        decreases n - i,
    {
        if s.get_char(i) == c {
            proof {
                lemma_find_char_at(s@, c, i as int);
            }
            return Some(i);
        }
        i += 1;
    }
    proof {
        lemma_find_char_at(s@, c, n as int);
    }
    None
}

/// Character-wise equality of two string slices.
pub fn str_eq_str(a: &str, b: &str) -> (r: bool)
    ensures
        r == (a@ == b@),
{
    let n = a.unicode_len();
    let m = b.unicode_len();
    if n != m {
        return false;
    }
    let mut i: usize = 0;
    while i < n
        invariant
            0 <= i <= n,
            n == a@.len(),
            n == b@.len(),
            forall|k: int| 0 <= k < i ==> a@[k] == b@[k],
        decreases n - i,
    {
        if a.get_char(i) != b.get_char(i) {
            return false;
        }
        i += 1;
    }
    proof {
        assert(a@ =~= b@);
    }
    true
}

pub fn contains_str(s: &str, p: &str) -> (r: bool)
    ensures
        r == spec_contains(s@, p@),
{
    find_sub_str(s, p).is_some()
}

/// The text after the first occurrence of `p` in `s`, if any.
pub fn after_first_str<'a>(s: &'a str, p: &str) -> (r: Option<&'a str>)
    ensures
        match r {
            Some(t) => spec_contains(s@, p@) && t@ == spec_after_first(s@, p@),
            None => !spec_contains(s@, p@),
        },
{
    match find_sub_str(s, p) {
        Some(i) => {
            proof {
                lemma_find_sub(s@, p@);
            }
            let n = s.unicode_len();
            let m = p.unicode_len();
            Some(s.substring_char(i + m, n))
        }
        None => None,
    }
}

pub fn trim_str<'a>(s: &'a str) -> (r: &'a str)
    ensures
        r@ == spec_trim(s@),
{
    let n = s.unicode_len();
    let mut a: usize = 0;
    while a < n && is_space_char(s.get_char(a))
        invariant
            0 <= a <= n,
            n == s@.len(),
            forall|j: int| 0 <= j < a ==> is_space(#[trigger] s@[j]),
        decreases n - a,
    {
        a += 1;
    }
    proof {
        lemma_trim_start_skip(s@, a as int);
    }
    if a == n {
        let r = s.substring_char(n, n);
        proof {
            assert(spec_trim_end(s@.skip(a as int)) =~= s@.skip(a as int));
            assert(r@ =~= s@.subrange(n as int, n as int));
        }
        return r;
    }
    let mut b: usize = n;
    while b > a + 1 && is_space_char(s.get_char(b - 1))
        invariant
            a < b <= n,
            n == s@.len(),
            forall|j: int| b <= j < n ==> is_space(#[trigger] s@[j]),
        decreases b,
    {
        b -= 1;
    }
    let r = s.substring_char(a, b);
    proof {
        let t = s@.skip(a as int);
        if is_space(s@[b - 1]) {
            // only possible when b == a + 1, but s@[a] is not a space
            assert(!is_space(s@[a as int]));
            assert(false);
        }
        lemma_trim_end_take(t, b - a);
        assert(t.take(b - a) =~= s@.subrange(a as int, b as int));
    }
    r
}

/// Exec counterpart of `is_space`.
pub fn is_space_char(c: char) -> (r: bool)
    ensures
        r == is_space(c),
{
    c == ' ' || c == '\t' || c == '\r' || c == '\n'
}

/// Splits `s` on the separator `c`, with Rust `str::split` semantics.
pub fn split_char_vec(s: &str, c: char) -> (r: Vec<String>)
    ensures
        seq_views(r@) == spec_split(s@, c),
{
    let n = s.unicode_len();
    let mut acc: Vec<String> = Vec::new();
    let mut st: usize = 0;
    let mut i: usize = 0;
    proof {
        assert(s@.skip(0) =~= s@);
        assert(seq_views(acc@) + spec_split(s@, c) =~= spec_split(s@, c));
    }
    while i < n
        invariant
            0 <= st <= i <= n,
            n == s@.len(),
            forall|j: int| st <= j < i ==> s@[j] != c,
            spec_split(s@, c) =~= seq_views(acc@) + spec_split(s@.skip(st as int), c),
        decreases n - i,
    {
        if s.get_char(i) == c {
            let piece = s.substring_char(st, i).to_owned();
            proof {
                let t = s@.skip(st as int);
                lemma_find_char_at(t, c, i - st) ;
                assert(t.take(i - st) =~= s@.subrange(st as int, i as int));
                assert(t.skip(i - st + 1) =~= s@.skip(i + 1));
                assert(seq_views(acc@.push(piece)) =~= seq_views(acc@) + seq![piece@]);
            }
            acc.push(piece);
            proof {
                assert(spec_split(s@, c) =~= seq_views(acc@) + spec_split(s@.skip(i + 1), c));
            }
            st = i + 1;
        }
        i += 1;
    }
    let piece = s.substring_char(st, n).to_owned();
    proof {
        let t = s@.skip(st as int);
        lemma_find_char_at(t, c, n - st);
        assert(t =~= s@.subrange(st as int, n as int));
        assert(seq_views(acc@.push(piece)) =~= seq_views(acc@) + seq![piece@]);
    }
    acc.push(piece);
    proof {
        assert(seq_views(acc@) =~= spec_split(s@, c));
    }
    acc
}

/// The lines of `s`, with Rust `str::lines` semantics.
pub fn lines_vec(s: &str) -> (r: Vec<String>)
    ensures
        seq_views(r@) == spec_lines(s@),
{
    let mut parts = split_char_vec(s, '\n');
    proof {
        lemma_split_len(s@, '\n');
    }
    let ghost orig = parts@;
    let last_empty = parts[parts.len() - 1].as_str().is_empty();
    if last_empty {
        parts.pop();
    }
    let ghost kept = parts@;
    let mut out: Vec<String> = Vec::new();
    let mut i: usize = 0;
    while i < parts.len()
        invariant
            0 <= i <= parts.len(),
            parts@ == kept,
            out@.len() == i,
            forall|j: int|
                0 <= j < i ==> #[trigger] out@[j]@ == if last_empty || j < kept.len() - 1 {
                    strip_cr(kept[j]@)
                } else {
                    kept[j]@
                },
        decreases parts.len() - i,
    {
        let line = &parts[i];
        let ln = line.as_str().unicode_len();
        if (last_empty || i + 1 < parts.len()) && ln > 0 && line.as_str().get_char(ln - 1) == '\r' {
            let stripped = line.as_str().substring_char(0, ln - 1).to_owned();
            proof {
                assert(stripped@ =~= strip_cr(kept[i as int]@));
            }
            out.push(stripped);
        } else {
            let same = line.clone();
            proof {
                if last_empty || i + 1 < parts.len() {
                    assert(same@ =~= strip_cr(kept[i as int]@));
                }
            }
            out.push(same);
        }
        i += 1;
    }
    proof {
        let pv = spec_split(s@, '\n');
        assert(seq_views(orig) == pv);
        assert(pv.last() == seq_views(orig).last());
        if last_empty {
            assert(kept =~= orig.drop_last());
            assert(seq_views(out@) =~= pv.drop_last().map(|i: int, l: Seq<char>| strip_cr(l))) by {
                assert forall|j: int| 0 <= j < out@.len() implies
                    seq_views(out@)[j] == pv.drop_last().map(|i: int, l: Seq<char>| strip_cr(l))[j] by {
                    assert(seq_views(kept)[j] == pv[j]);
                }
            }
        } else {
            assert(kept == orig);
            assert(seq_views(out@) =~= spec_lines(s@)) by {
                assert forall|j: int| 0 <= j < out@.len() implies
                    seq_views(out@)[j] == spec_lines(s@)[j] by {
                    assert(seq_views(kept)[j] == pv[j]);
                }
            }
        }
    }
    out
}

/// Splits `s` into whitespace separated tokens.
pub fn split_ws_vec(s: &str) -> (r: Vec<String>)
    ensures
        seq_views(r@) == spec_tokens(s@),
{
    let n = s.unicode_len();
    let mut acc: Vec<String> = Vec::new();
    let mut i: usize = 0;
    proof {
        assert(s@.skip(0) =~= s@);
        assert(seq_views(acc@) + spec_tokens(s@) =~= spec_tokens(s@));
    }
    while i < n
        invariant
            0 <= i <= n,
            n == s@.len(),
            spec_tokens(s@) =~= seq_views(acc@) + spec_tokens(s@.skip(i as int)),
        decreases n - i,
    {
        if is_space_char(s.get_char(i)) {
            proof {
                let t = s@.skip(i as int);
                assert(t[0] == s@[i as int]);
                assert(t.skip(1) =~= s@.skip(i + 1));
            }
            i += 1;
        } else {
            let st = i;
            let mut e = i + 1;
            while e < n && !is_space_char(s.get_char(e))
                invariant
                    st < e <= n,
                    n == s@.len(),
                    forall|j: int| st <= j < e ==> !is_space(#[trigger] s@[j]),
                decreases n - e,
            {
                e += 1;
            }
            let piece = s.substring_char(st, e).to_owned();
            proof {
                let t = s@.skip(st as int);
                assert(t[0] == s@[st as int]);
                lemma_find_space_at(t, e - st);
                assert(t.take(e - st) =~= s@.subrange(st as int, e as int));
                assert(t.skip(e - st) =~= s@.skip(e as int));
                assert(seq_views(acc@.push(piece)) =~= seq_views(acc@) + seq![piece@]);
            }
            acc.push(piece);
            proof {
                assert(spec_tokens(s@) =~= seq_views(acc@) + spec_tokens(s@.skip(e as int)));
            }
            i = e;
        }
    }
    proof {
        assert(s@.skip(n as int) =~= Seq::<char>::empty());
        assert(seq_views(acc@) =~= spec_tokens(s@));
    }
    acc
}

/// `p` is a suffix of `s`.
pub open spec fn is_suffix_of(p: Seq<char>, s: Seq<char>) -> bool {
    p.len() <= s.len() && s.skip(s.len() - p.len()) == p
}

pub fn ends_with_str(s: &str, p: &str) -> (r: bool)
    ensures
        r == is_suffix_of(p@, s@),
{
    let n = s.unicode_len();
    let m = p.unicode_len();
    if m > n {
        return false;
    }
    let mut j: usize = 0;
    while j < m
        invariant
            0 <= j <= m,
            m <= n,
            n == s@.len(),
            m == p@.len(),
            forall|k: int| 0 <= k < j ==> s@[n - m + k] == p@[k],
        decreases m - j,
    {
        if s.get_char(n - m + j) != p.get_char(j) {
            assert(!is_suffix_of(p@, s@)) by {
                assert(s@.skip(n - m)[j as int] == s@[n - m + j]);
            }
            return false;
        }
        j += 1;
    }
    assert(s@.skip(n - m) =~= p@);
    true
}

/// `s` with every trailing repetition of `p` removed.
pub open spec fn strip_suffix_all(s: Seq<char>, p: Seq<char>) -> Seq<char>
    decreases s.len(),
{
    if p.len() > 0 && is_suffix_of(p, s) {
        strip_suffix_all(s.take(s.len() - p.len()), p)
    } else {
        s
    }
}

/// Removes every trailing repetition of `p` from `s`.
pub fn strip_suffix_all_str<'a>(s: &'a str, p: &str) -> (r: &'a str)
    ensures
        r@ == strip_suffix_all(s@, p@),
    decreases s@.len(),
{
    let m = p.unicode_len();
    if m > 0 && ends_with_str(s, p) {
        let n = s.unicode_len();
        let shorter = s.substring_char(0, n - m);
        proof {
            assert(shorter@ =~= s@.take(s@.len() - p@.len()));
        }
        strip_suffix_all_str(shorter, p)
    } else {
        s
    }
}

pub open spec fn lower_char(c: char) -> char {
    if 'A' <= c && c <= 'Z' {
        ((c as u8) + 32) as char
    } else {
        c
    }
}

/// `s` with ASCII capitals lowered; other characters are untouched.
pub open spec fn spec_ascii_lower(s: Seq<char>) -> Seq<char> {
    s.map(|i: int, c: char| lower_char(c))
}

/// Equality up to ASCII case.
pub open spec fn ascii_eq_ci(a: Seq<char>, b: Seq<char>) -> bool {
    spec_ascii_lower(a) == spec_ascii_lower(b)
}

/// Compares two strings ignoring ASCII case.
pub fn eq_ignore_ascii_case_str(a: &str, b: &str) -> (r: bool)
    ensures
        r == ascii_eq_ci(a@, b@),
{
    let n = a.unicode_len();
    let m = b.unicode_len();
    if n != m {
        proof {
            assert(spec_ascii_lower(a@).len() != spec_ascii_lower(b@).len());
        }
        return false;
    }
    let mut i: usize = 0;
    while i < n
        invariant
            0 <= i <= n,
            n == a@.len(),
            n == b@.len(),
            forall|k: int| 0 <= k < i ==> lower_char(a@[k]) == lower_char(b@[k]),
        decreases n - i,
    {
        let ca = a.get_char(i);
        let cb = b.get_char(i);
        let la: char = if 'A' <= ca && ca <= 'Z' {
            ((ca as u8) + 32) as char
        } else {
            ca
        };
        let lb: char = if 'A' <= cb && cb <= 'Z' {
            ((cb as u8) + 32) as char
        } else {
            cb
        };
        if la != lb {
            proof {
                assert(spec_ascii_lower(a@)[i as int] == lower_char(a@[i as int]));
                assert(spec_ascii_lower(b@)[i as int] == lower_char(b@[i as int]));
            }
            return false;
        }
        i += 1;
    }
    proof {
        assert(spec_ascii_lower(a@) =~= spec_ascii_lower(b@)) by {
            assert forall|k: int| 0 <= k < n implies spec_ascii_lower(a@)[k] == spec_ascii_lower(
                b@,
            )[k] by {
                assert(spec_ascii_lower(a@)[k] == lower_char(a@[k]));
                assert(spec_ascii_lower(b@)[k] == lower_char(b@[k]));
            }
        }
    }
    true
}

/// Lines joined with one `'\n'` after each line.
pub open spec fn join_nl(ls: Seq<Seq<char>>) -> Seq<char>
    decreases ls.len(),
{
    if ls.len() == 0 {
        Seq::empty()
    } else {
        join_nl(ls.drop_last()) + ls.last() + seq!['\n']
    }
}

/// `join_nl` unrolled from the front.
pub proof fn lemma_join_nl_left(ls: Seq<Seq<char>>)
    requires
        ls.len() > 0,
    ensures
        join_nl(ls) == ls[0] + seq!['\n'] + join_nl(ls.skip(1)),
    decreases ls.len(),
{
    if ls.len() == 1 {
        assert(ls.drop_last() =~= Seq::<Seq<char>>::empty());
        assert(ls.skip(1) =~= Seq::<Seq<char>>::empty());
        assert(join_nl(ls.drop_last()) + ls.last() + seq!['\n'] =~= ls[0] + seq!['\n'] + join_nl(
            ls.skip(1),
        ));
    } else {
        let dl = ls.drop_last();
        lemma_join_nl_left(dl);
        assert(ls.skip(1).drop_last() =~= dl.skip(1));
        assert(ls.skip(1).last() == ls.last());
        assert(join_nl(ls.skip(1)) == join_nl(dl.skip(1)) + ls.last() + seq!['\n']);
        assert(join_nl(ls) == (dl[0] + seq!['\n'] + join_nl(dl.skip(1))) + ls.last() + seq!['\n']);
        assert((dl[0] + seq!['\n'] + join_nl(dl.skip(1))) + ls.last() + seq!['\n'] =~= ls[0] + seq![
            '\n',
        ] + (join_nl(dl.skip(1)) + ls.last() + seq!['\n']));
    }
}

/// A line fit for joining: no embedded newline and no trailing carriage
/// return.
pub open spec fn joinable_line(l: Seq<char>) -> bool {
    &&& forall|j: int| 0 <= j < l.len() ==> l[j] != '\n'
    &&& (l.len() == 0 || l.last() != '\r')
}

/// Splitting a newline-joined block recovers the lines plus the final
/// empty piece.
pub proof fn lemma_split_join(ls: Seq<Seq<char>>)
    requires
        forall|k: int| 0 <= k < ls.len() ==> joinable_line(#[trigger] ls[k]),
    ensures
        spec_split(join_nl(ls), '\n') == ls + seq![Seq::<char>::empty()],
    decreases ls.len(),
{
    if ls.len() == 0 {
        assert(join_nl(ls) =~= Seq::<char>::empty());
        assert(spec_split(Seq::<char>::empty(), '\n') =~= seq![Seq::<char>::empty()]);
        assert(ls + seq![Seq::<char>::empty()] =~= seq![Seq::<char>::empty()]);
    } else {
        lemma_join_nl_left(ls);
        let l0 = ls[0];
        let rest = join_nl(ls.skip(1));
        let s = join_nl(ls);
        assert(s == l0 + seq!['\n'] + rest);
        assert(joinable_line(l0));
        lemma_find_char_at(s, '\n', l0.len() as int);
        assert(s.take(l0.len() as int) =~= l0);
        assert(s.skip(l0.len() as int + 1) =~= rest);
        assert forall|k: int| 0 <= k < ls.skip(1).len() implies joinable_line(
            #[trigger] ls.skip(1)[k],
        ) by {
            assert(ls.skip(1)[k] == ls[k + 1]);
        }
        lemma_split_join(ls.skip(1));
        assert(spec_split(s, '\n') == seq![l0] + (ls.skip(1) + seq![Seq::<char>::empty()]));
        assert(seq![l0] + (ls.skip(1) + seq![Seq::<char>::empty()]) =~= ls + seq![Seq::<
            char,
        >::empty()]);
    }
}

/// The lines of a newline-joined block are the lines themselves.
pub proof fn lemma_lines_join(ls: Seq<Seq<char>>)
    requires
        forall|k: int| 0 <= k < ls.len() ==> joinable_line(#[trigger] ls[k]),
    ensures
        spec_lines(join_nl(ls)) == ls,
    decreases ls.len(),
{
    lemma_split_join(ls);
    let parts = spec_split(join_nl(ls), '\n');
    assert(parts.last().len() == 0);
    assert(parts.drop_last() =~= ls);
    assert(spec_lines(join_nl(ls)) =~= ls) by {
        assert forall|k: int| 0 <= k < ls.len() implies spec_lines(join_nl(ls))[k] == ls[k] by {
            assert(parts.drop_last().map(|i: int, l: Seq<char>| strip_cr(l))[k] == strip_cr(
                parts.drop_last()[k],
            ));
            assert(strip_cr(ls[k]) == ls[k]);
        }
    }
}

/// Joins lines into one text, one `'\n'` after each line.
pub fn join_lines(lines: &Vec<String>) -> (r: String)
    ensures
        r@ == join_nl(seq_views(lines@)),
{
    let ghost lv = seq_views(lines@);
    let mut out = String::new();
    let mut i: usize = 0;
    proof {
        assert(lv.take(0) =~= Seq::<Seq<char>>::empty());
        assert(out@ =~= join_nl(lv.take(0)));
    }
    while i < lines.len()
        invariant
            0 <= i <= lines@.len(),
            lv == seq_views(lines@),
            out@ == join_nl(lv.take(i as int)),
        decreases lines@.len() - i,
    {
        proof {
            assert(seq_views(lines@)[i as int] == lines@[i as int]@);
            assert(lv.take(i + 1).drop_last() =~= lv.take(i as int));
            assert(lv.take(i + 1).last() == lv[i as int]);
        }
        out.append(lines[i].as_str());
        out.append("\n");
        proof {
            reveal_strlit("\n");
            assert("\n"@ =~= seq!['\n']);
            assert(out@ =~= join_nl(lv.take(i + 1)));
        }
        i += 1;
    }
    proof {
        assert(lv.take(lines@.len() as int) =~= lv);
    }
    out
}

/// Comma-separated values, each trimmed.
pub open spec fn split_commas(v: Seq<char>) -> Seq<Seq<char>> {
    spec_split(v, ',').map(|i: int, p: Seq<char>| spec_trim(p))
}

/// Splits on commas and trims each piece.
pub fn split_commas_vec(s: &str) -> (r: Vec<String>)
    ensures
        seq_views(r@) == split_commas(s@),
{
    let parts = split_char_vec(s, ',');
    let ghost pv = seq_views(parts@);
    let mut out: Vec<String> = Vec::new();
    let mut i: usize = 0;
    proof {
        assert(pv.len() == spec_split(s@, ',').len());
    }
    while i < parts.len()
        invariant
            0 <= i <= parts@.len(),
            pv == seq_views(parts@),
            pv == spec_split(s@, ','),
            out@.len() == i,
            forall|k: int| 0 <= k < i ==> (#[trigger] out@[k])@ == spec_trim(pv[k]),
        decreases parts@.len() - i,
    {
        proof {
            assert(seq_views(parts@)[i as int] == parts@[i as int]@);
        }
        let t = trim_str(parts[i].as_str()).to_owned();
        out.push(t);
        i += 1;
    }
    proof {
        assert(seq_views(out@) =~= split_commas(s@)) by {
            assert forall|k: int| 0 <= k < out@.len() implies seq_views(out@)[k] == split_commas(
                s@,
            )[k] by {
                assert(seq_views(out@)[k] == out@[k]@);
                assert(split_commas(s@)[k] == spec_trim(spec_split(s@, ',')[k]));
            }
        }
    }
    out
}

pub open spec fn is_digit_char(c: char) -> bool {
    '0' <= c && c <= '9'
}

pub open spec fn digit_val(c: char) -> int {
    c as u32 - '0' as u32
}

/// A non-empty sequence of decimal digits.
pub open spec fn is_digit_seq(s: Seq<char>) -> bool {
    s.len() > 0 && forall|i: int| 0 <= i < s.len() ==> is_digit_char(#[trigger] s[i])
}

/// The value of a digit sequence read in base ten.
pub open spec fn digits_val(s: Seq<char>) -> int
    decreases s.len(),
{
    if s.len() == 0 {
        0
    } else {
        digits_val(s.drop_last()) * 10 + digit_val(s.last())
    }
}

pub proof fn lemma_digits_val_nonneg(s: Seq<char>)
    requires
        forall|i: int| 0 <= i < s.len() ==> is_digit_char(#[trigger] s[i]),
    ensures
        digits_val(s) >= 0,
    decreases s.len(),
{
    if s.len() > 0 {
        lemma_digits_val_nonneg(s.drop_last());
    }
}

/// The value of a digit sequence never falls when digits are appended.
pub proof fn lemma_digits_val_mono(s: Seq<char>, j: int)
    requires
        forall|i: int| 0 <= i < s.len() ==> is_digit_char(#[trigger] s[i]),
        0 <= j <= s.len(),
    ensures
        digits_val(s) >= digits_val(s.take(j)),
    decreases s.len() - j,
{
    if j < s.len() {
        lemma_digits_val_mono(s, j + 1);
        assert(s.take(j + 1).drop_last() =~= s.take(j));
        assert(s.take(j + 1).last() == s[j]);
        lemma_digits_val_nonneg(s.take(j));
    } else {
        assert(s.take(j) =~= s);
    }
}

/// Best-effort unsigned decimal parse: the digits of `s` after an optional
/// leading `'+'`, if they are well formed and their value fits in a `u64`.
pub open spec fn spec_parse_u64(s: Seq<char>) -> Option<u64> {
    let t = if s.len() >= 1 && s[0] == '+' {
        s.skip(1)
    } else {
        s
    };
    if is_digit_seq(t) && digits_val(t) <= u64::MAX {
        Some(digits_val(t) as u64)
    } else {
        None
    }
}

/// Best-effort signed decimal parse, with an optional `'+'` or `'-'` sign;
/// the magnitude must be at most `i64::MAX`.
pub open spec fn spec_parse_i64(s: Seq<char>) -> Option<i64> {
    if s.len() >= 1 && s[0] == '-' {
        let t = s.skip(1);
        if is_digit_seq(t) && digits_val(t) <= i64::MAX {
            Some((-digits_val(t)) as i64)
        } else {
            None
        }
    } else {
        let t = if s.len() >= 1 && s[0] == '+' {
            s.skip(1)
        } else {
            s
        };
        if is_digit_seq(t) && digits_val(t) <= i64::MAX {
            Some(digits_val(t) as i64)
        } else {
            None
        }
    }
}

/// Parses the digits of `s` starting at `start` as a decimal number no
/// greater than `max`.
fn parse_digits(s: &str, start: usize, max: u64) -> (r: Option<u64>)
    requires
        start <= s@.len(),
        max >= 9,
    ensures
        ({
            let t = s@.skip(start as int);
            match r {
                Some(v) => is_digit_seq(t) && digits_val(t) == v && v <= max,
                None => !(is_digit_seq(t) && digits_val(t) <= max),
            }
        }),
{
    let n = s.unicode_len();
    let ghost t = s@.skip(start as int);
    if start == n {
        return None;
    }
    let mut acc: u64 = 0;
    let mut i: usize = start;
    while i < n
        invariant
            start <= i <= n,
            max >= 9,
            n == s@.len(),
            t == s@.skip(start as int),
            forall|j: int| 0 <= j < i - start ==> is_digit_char(#[trigger] t[j]),
            acc == digits_val(t.take(i - start)),
            acc <= max,
        decreases n - i,
    {
        let c = s.get_char(i);
        proof {
            assert(t[i - start] == s@[i as int]);
        }
        if !('0' <= c && c <= '9') {
            proof {
                assert(!is_digit_seq(t));
            }
            return None;
        }
        let d: u64 = (c as u32 - '0' as u32) as u64;
        proof {
            assert(t.take(i - start + 1).drop_last() =~= t.take(i - start));
            assert(t.take(i - start + 1).last() == t[i - start]);
        }
        if acc > (max - d) / 10 {
            proof {
                assert(digits_val(t.take(i - start + 1)) > max) by (nonlinear_arith)
                    requires
                        digits_val(t.take(i - start + 1)) == acc * 10 + d,
                        acc > (max - d) / 10,
                        0 <= d <= 9,
                        d <= max,
                        acc >= 0,
                {}
                if is_digit_seq(t) {
                    lemma_digits_val_mono(t, i - start + 1);
                }
            }
            return None;
        }
        proof {
            assert(acc * 10 + d <= max) by (nonlinear_arith)
                requires
                    acc <= (max - d) / 10,
                    0 <= d <= 9,
                    d <= max,
                    acc >= 0,
            {}
        }
        acc = acc * 10 + d;
        i += 1;
    }
    proof {
        assert(t.take(n - start) =~= t);
        assert(is_digit_seq(t));
    }
    Some(acc)
}

/// Rust `str::parse::<u64>` behaviour, with `None` for anything rejected.
pub fn parse_u64_opt(s: &str) -> (r: Option<u64>)
    ensures
        r == spec_parse_u64(s@),
{
    let n = s.unicode_len();
    let start: usize = if n >= 1 && s.get_char(0) == '+' {
        1
    } else {
        0
    };
    proof {
        if start == 0 {
            assert(s@.skip(0) =~= s@);
        }
    }
    parse_digits(s, start, u64::MAX)
}

/// Rust `str::parse::<i64>` behaviour, except that a magnitude above
/// `i64::MAX` is rejected even with a leading minus sign.
pub fn parse_i64_opt(s: &str) -> (r: Option<i64>)
    ensures
        r == spec_parse_i64(s@),
{
    let n = s.unicode_len();
    if n >= 1 && s.get_char(0) == '-' {
        match parse_digits(s, 1, i64::MAX as u64) {
            Some(v) => Some(-(v as i64)),
            None => None,
        }
    } else {
        let start: usize = if n >= 1 && s.get_char(0) == '+' {
            1
        } else {
            0
        };
        proof {
            if start == 0 {
                assert(s@.skip(0) =~= s@);
            }
        }
        match parse_digits(s, start, i64::MAX as u64) {
            Some(v) => Some(v as i64),
            None => None,
        }
    }
}

pub open spec fn spec_parse_u32(s: Seq<char>) -> Option<u32> {
    match spec_parse_u64(s) {
        Some(v) => if v <= u32::MAX {
            Some(v as u32)
        } else {
            None
        },
        None => None,
    }
}

pub open spec fn spec_parse_u16(s: Seq<char>) -> Option<u16> {
    match spec_parse_u64(s) {
        Some(v) => if v <= u16::MAX {
            Some(v as u16)
        } else {
            None
        },
        None => None,
    }
}

pub open spec fn spec_parse_i32(s: Seq<char>) -> Option<i32> {
    match spec_parse_i64(s) {
        Some(v) => if i32::MIN <= v <= i32::MAX {
            Some(v as i32)
        } else {
            None
        },
        None => None,
    }
}

pub open spec fn spec_parse_i16(s: Seq<char>) -> Option<i16> {
    match spec_parse_i64(s) {
        Some(v) => if i16::MIN <= v <= i16::MAX {
            Some(v as i16)
        } else {
            None
        },
        None => None,
    }
}

/// `str::parse::<u32>().unwrap_or(0)`: the zero default absorbs malformed
/// numeric fields instead of failing the record.
pub open spec fn spec_u32_or_zero(s: Seq<char>) -> u32 {
    match spec_parse_u32(s) {
        Some(v) => v,
        None => 0,
    }
}

pub open spec fn spec_u64_or_zero(s: Seq<char>) -> u64 {
    match spec_parse_u64(s) {
        Some(v) => v,
        None => 0,
    }
}

pub open spec fn spec_u16_or_zero(s: Seq<char>) -> u16 {
    match spec_parse_u16(s) {
        Some(v) => v,
        None => 0,
    }
}

pub open spec fn spec_i32_or_zero(s: Seq<char>) -> i32 {
    match spec_parse_i32(s) {
        Some(v) => v,
        None => 0,
    }
}

pub fn parse_u32_opt(s: &str) -> (r: Option<u32>)
    ensures
        r == spec_parse_u32(s@),
{
    match parse_u64_opt(s) {
        Some(v) => if v <= u32::MAX as u64 {
            Some(v as u32)
        } else {
            None
        },
        None => None,
    }
}

pub fn parse_u16_opt(s: &str) -> (r: Option<u16>)
    ensures
        r == spec_parse_u16(s@),
{
    match parse_u64_opt(s) {
        Some(v) => if v <= u16::MAX as u64 {
            Some(v as u16)
        } else {
            None
        },
        None => None,
    }
}

pub fn parse_i32_opt(s: &str) -> (r: Option<i32>)
    ensures
        r == spec_parse_i32(s@),
{
    match parse_i64_opt(s) {
        Some(v) => if i32::MIN as i64 <= v && v <= i32::MAX as i64 {
            Some(v as i32)
        } else {
            None
        },
        None => None,
    }
}

pub fn parse_i16_opt(s: &str) -> (r: Option<i16>)
    ensures
        r == spec_parse_i16(s@),
{
    match parse_i64_opt(s) {
        Some(v) => if i16::MIN as i64 <= v && v <= i16::MAX as i64 {
            Some(v as i16)
        } else {
            None
        },
        None => None,
    }
}

pub open spec fn digit_char(d: int) -> char {
    (('0' as u8) + d) as char
}

/// The decimal digits of `n`, most significant first, no sign, no leading
/// zero (except for zero itself).
pub open spec fn spec_u64_dec(n: int) -> Seq<char>
    decreases n,
{
    if n < 10 {
        seq![digit_char(if n >= 0 {
            n
        } else {
            0
        })]
    } else {
        spec_u64_dec(n / 10).push(digit_char(n % 10))
    }
}

/// Decimal rendering consists of digits and reads back as the number.
pub proof fn lemma_u64_dec_val(n: int)
    requires
        n >= 0,
    ensures
        is_digit_seq(spec_u64_dec(n)),
        digits_val(spec_u64_dec(n)) == n,
        spec_u64_dec(n)[0] != '+',
        spec_u64_dec(n)[0] != '-',
    decreases n,
{
    if n < 10 {
        let s = spec_u64_dec(n);
        assert(s.len() == 1);
        assert(s[0] == digit_char(n));
        assert(is_digit_char(digit_char(n)));
        assert(digit_char(n) != '+' && digit_char(n) != '-');
        assert(s.drop_last() =~= Seq::<char>::empty());
        assert(digits_val(Seq::<char>::empty()) == 0);
        assert(digits_val(s) == digits_val(s.drop_last()) * 10 + digit_val(s.last()));
        assert(digits_val(s) == digit_val(digit_char(n)));
        assert(digit_val(digit_char(n)) == n);
    } else {
        lemma_u64_dec_val(n / 10);
        let p = spec_u64_dec(n / 10);
        let s = spec_u64_dec(n);
        assert(s == p.push(digit_char(n % 10)));
        assert(s.drop_last() =~= p);
        assert(s.last() == digit_char(n % 10));
        assert(is_digit_char(digit_char(n % 10)) && digit_val(digit_char(n % 10)) == n % 10) by {
            lemma_digit_char_val(n % 10);
        }
        assert(is_digit_seq(s)) by {
            assert forall|i: int| 0 <= i < s.len() implies is_digit_char(#[trigger] s[i]) by {
                if i < p.len() {
                    assert(s[i] == p[i]);
                }
            }
        }
        assert(digits_val(s) == digits_val(p) * 10 + (n % 10));
        assert((n / 10) * 10 + (n % 10) == n) by (nonlinear_arith)
            requires
                n >= 10,
        {}
        assert(s[0] == p[0]);
    }
}

proof fn lemma_digit_char_val(d: int)
    requires
        0 <= d <= 9,
    ensures
        is_digit_char(digit_char(d)),
        digit_val(digit_char(d)) == d,
{
    assert(is_digit_char(digit_char(d)));
    assert(digit_val(digit_char(d)) == d);
}

/// A number's decimal rendering parses back to the number.
pub proof fn lemma_u64_dec_round_trip(n: int)
    requires
        0 <= n <= u64::MAX,
    ensures
        spec_parse_u64(spec_u64_dec(n)) == Some(n as u64),
{
    lemma_u64_dec_val(n);
    let s = spec_u64_dec(n);
    assert(s[0] != '+');
}

fn digit_str(d: u64) -> (r: &'static str)
    requires
        d <= 9,
    ensures
        r@ == seq![digit_char(d as int)],
{
    let r: &'static str = match d {
        0 => "0",
        1 => "1",
        2 => "2",
        3 => "3",
        4 => "4",
        5 => "5",
        6 => "6",
        7 => "7",
        8 => "8",
        _ => "9",
    };
    proof {
        reveal_strlit("0");
        reveal_strlit("1");
        reveal_strlit("2");
        reveal_strlit("3");
        reveal_strlit("4");
        reveal_strlit("5");
        reveal_strlit("6");
        reveal_strlit("7");
        reveal_strlit("8");
        reveal_strlit("9");
        assert(r@ =~= seq![digit_char(d as int)]);
    }
    r
}

/// Renders `n` in decimal.
pub fn u64_to_dec(n: u64) -> (r: String)
    ensures
        r@ == spec_u64_dec(n as int),
    decreases n,
{
    if n < 10 {
        digit_str(n).to_owned()
    } else {
        let prefix = u64_to_dec(n / 10);
        let r = prefix.concat(digit_str(n % 10));
        proof {
            assert(r@ =~= spec_u64_dec(n as int));
        }
        r
    }
}

pub fn parse_u32_or_zero(s: &str) -> (r: u32)
    ensures
        r == spec_u32_or_zero(s@),
{
    match parse_u32_opt(s) {
        Some(v) => v,
        None => 0,
    }
}

pub fn parse_u64_or_zero(s: &str) -> (r: u64)
    ensures
        r == spec_u64_or_zero(s@),
{
    match parse_u64_opt(s) {
        Some(v) => v,
        None => 0,
    }
}

pub fn parse_u16_or_zero(s: &str) -> (r: u16)
    ensures
        r == spec_u16_or_zero(s@),
{
    match parse_u16_opt(s) {
        Some(v) => v,
        None => 0,
    }
}

pub fn parse_i32_or_zero(s: &str) -> (r: i32)
    ensures
        r == spec_i32_or_zero(s@),
{
    match parse_i32_opt(s) {
        Some(v) => v,
        None => 0,
    }
}

} // verus!
