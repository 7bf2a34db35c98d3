//! Character-level helpers shared by the grammar compiler and the lexer.

use vstd::prelude::*;
use vstd::string::StrSliceExecFns;

verus! {

/// The whitespace that separates and surrounds words: the characters of
/// Unicode's White_Space property (those `char::is_whitespace` accepts).
pub open spec fn is_ws(c: char) -> bool {
    ('\u{9}' <= c && c <= '\u{d}') || c == ' ' || c == '\u{85}' || c == '\u{a0}' || c == '\u{1680}'
        || ('\u{2000}' <= c && c <= '\u{200a}') || c == '\u{2028}' || c == '\u{2029}' || c == '\u{202f}'
        || c == '\u{205f}' || c == '\u{3000}'
}

/// Number of leading whitespace characters of `s`.
pub open spec fn lead_ws(s: Seq<char>) -> nat
    decreases s.len(),
{
    if s.len() > 0 && is_ws(s[0]) {
        1 + lead_ws(s.drop_first())
    } else {
        0
    }
}

/// Number of trailing whitespace characters of `s`.
pub open spec fn trail_ws(s: Seq<char>) -> nat
    decreases s.len(),
{
    if s.len() > 0 && is_ws(s.last()) {
        1 + trail_ws(s.drop_last())
    } else {
        0
    }
}

/// `s` without its leading whitespace.
pub open spec fn trim_start(s: Seq<char>) -> Seq<char> {
    s.skip(lead_ws(s) as int)
}

/// `s` without its leading and trailing whitespace.
pub open spec fn trim(s: Seq<char>) -> Seq<char> {
    let t = trim_start(s);
    t.take(t.len() - trail_ws(t))
}

pub proof fn lemma_lead_ws_bound(s: Seq<char>)
    ensures
        lead_ws(s) <= s.len(),
        forall|i: int| 0 <= i < lead_ws(s) ==> is_ws(#[trigger] s[i]),
        lead_ws(s) < s.len() ==> !is_ws(s[lead_ws(s) as int]),
    decreases s.len(),
{
    if s.len() > 0 && is_ws(s[0]) {
        lemma_lead_ws_bound(s.drop_first());
        assert forall|i: int| 0 <= i < lead_ws(s) implies is_ws(#[trigger] s[i]) by {
            if i > 0 {
                assert(s[i] == s.drop_first()[i - 1]);
            }
        }
    }
}

pub proof fn lemma_trail_ws_bound(s: Seq<char>)
    ensures
        trail_ws(s) <= s.len(),
        forall|i: int| s.len() - trail_ws(s) <= i < s.len() ==> is_ws(#[trigger] s[i]),
        trail_ws(s) < s.len() ==> !is_ws(s[s.len() - trail_ws(s) - 1]),
    decreases s.len(),
{
    if s.len() > 0 && is_ws(s.last()) {
        lemma_trail_ws_bound(s.drop_last());
        assert forall|i: int| s.len() - trail_ws(s) <= i < s.len() implies is_ws(
            #[trigger] s[i],
        ) by {
            if i < s.len() - 1 {
                assert(s[i] == s.drop_last()[i]);
            }
        }
    }
}

/// Whether `c` is whitespace.
pub fn is_space(c: char) -> (r: bool)
    ensures
        r == is_ws(c),
{
    ('\u{9}' <= c && c <= '\u{d}') || c == ' ' || c == '\u{85}' || c == '\u{a0}' || c == '\u{1680}'
        || ('\u{2000}' <= c && c <= '\u{200a}') || c == '\u{2028}' || c == '\u{2029}' || c == '\u{202f}'
        || c == '\u{205f}' || c == '\u{3000}'
}

/// `s@.subrange(lo, hi)` trimmed, as indices into `s`.
pub fn trim_range(s: &[char], lo: usize, hi: usize) -> (r: (usize, usize))
    requires
        lo <= hi <= s@.len(),
    ensures
        lo <= r.0 <= r.1 <= hi,
        r.0 == lo + lead_ws(s@.subrange(lo as int, hi as int)),
        s@.subrange(r.0 as int, r.1 as int) == trim(s@.subrange(lo as int, hi as int)),
{
    let ghost x = s@.subrange(lo as int, hi as int);
    let mut a = lo;
    while a < hi && is_space(s[a])
        invariant
            lo <= a <= hi <= s@.len(),
            forall|k: int| lo <= k < a ==> is_ws(#[trigger] s@[k]),
        decreases hi - a,
    {
        a = a + 1;
    }
    proof {
        lemma_lead_ws_bound(x);
        let n = lead_ws(x);
        if n < a - lo {
            assert(x[n as int] == s@[lo + n]);
        }
        if n > a - lo {
            assert(x[a - lo] == s@[a as int]);
        }
        assert(trim_start(x) == s@.subrange(a as int, hi as int));
    }
    let mut b = hi;
    while b > a && is_space(s[b - 1])
        invariant
            lo <= a <= b <= hi <= s@.len(),
            forall|k: int| b <= k < hi ==> is_ws(#[trigger] s@[k]),
        decreases b - a,
    {
        b = b - 1;
    }
    proof {
        let t = s@.subrange(a as int, hi as int);
        lemma_trail_ws_bound(t);
        let n = trail_ws(t);
        if n < hi - b {
            assert(t[t.len() - n - 1] == s@[hi - n - 1]);
        }
        if n > hi - b {
            assert(t[b - a - 1] == s@[b - 1]);
        }
        assert(t.take(t.len() - n) == s@.subrange(a as int, b as int));
    }
    (a, b)
}

/// The characters of `s` in order.
pub(crate) fn chars_of(s: &str) -> (r: Vec<char>)
    ensures
        r@ == s@,
{
    let n = s.unicode_len();
    let mut r: Vec<char> = Vec::new();
    let mut i: usize = 0;
    while i < n
        invariant
            n == s@.len(),
            i <= n,
            r@ == s@.take(i as int),
        decreases n - i,
    {
        r.push(s.get_char(i));
        assert(r@ =~= s@.take(i + 1));
        i = i + 1;
    }
    assert(r@ =~= s@);
    r
}

/// Relies on collecting characters into a `String`: the string of exactly these characters.
#[verifier::external_body]
pub(crate) fn string_of(s: &[char]) -> (r: String)
    ensures
        r@ == s@,
{
    s.iter().collect()
}

/// The characters `s[lo..hi]` as a new vector.
pub fn slice_vec(s: &[char], lo: usize, hi: usize) -> (r: Vec<char>)
    requires
        lo <= hi <= s@.len(),
    ensures
        r@ == s@.subrange(lo as int, hi as int),
{
    let mut r: Vec<char> = Vec::new();
    let mut i = lo;
    while i < hi
        invariant
            lo <= i <= hi <= s@.len(),
            r@ == s@.subrange(lo as int, i as int),
        decreases hi - i,
    {
        r.push(s[i]);
        i = i + 1;
    }
    r
}

/// Whether `s[lo..hi]` equals `t`.
pub fn range_eq(s: &[char], lo: usize, hi: usize, t: &[char]) -> (r: bool)
    requires
        lo <= hi <= s@.len(),
    ensures
        r == (s@.subrange(lo as int, hi as int) == t@),
{
    if hi - lo != t.len() {
        return false;
    }
    let mut i: usize = 0;
    while i < t.len()
        invariant
            hi - lo == t@.len(),
            lo <= hi <= s@.len(),
            0 <= i <= t@.len(),
            forall|k: int| 0 <= k < i ==> s@[lo + k] == t@[k],
        decreases t@.len() - i,
    {
        if s[lo + i] != t[i] {
            assert(s@.subrange(lo as int, hi as int)[i as int] != t@[i as int]);
            return false;
        }
        i = i + 1;
    }
    assert(s@.subrange(lo as int, hi as int) =~= t@);
    true
}


/// Index of the first line break of `s` at or after `from`, or the length of `s`.
pub open spec fn line_end(s: Seq<char>, from: int) -> int
    decreases s.len() - from,
{
    if from >= s.len() || s[from] == '\n' {
        from
    } else {
        line_end(s, from + 1)
    }
}

pub proof fn lemma_line_end(s: Seq<char>, from: int)
    requires
        0 <= from <= s.len(),
    ensures
        from <= line_end(s, from) <= s.len(),
        line_end(s, from) < s.len() ==> s[line_end(s, from)] == '\n',
        forall|k: int| from <= k < line_end(s, from) ==> s[k] != '\n',
    decreases s.len() - from,
{
    if from < s.len() && s[from] != '\n' {
        lemma_line_end(s, from + 1);
    }
}

/// Index of the first line break of `s` at or after `from`, or the length of `s`.
pub fn find_line_end(s: &[char], from: usize) -> (r: usize)
    requires
        from <= s@.len(),
    ensures
        r == line_end(s@, from as int),
        from <= r <= s@.len(),
{
    proof {
        lemma_line_end(s@, from as int);
    }
    let mut i = from;
    while i < s.len() && s[i] != '\n'
        invariant
            from <= i <= s@.len(),
            line_end(s@, i as int) == line_end(s@, from as int),
        decreases s@.len() - i,
    {
        i = i + 1;
    }
    i
}


/// Index of the first `c` in `s` at or after `k`.
pub open spec fn index_from(s: Seq<char>, c: char, k: int) -> Option<int>
    decreases s.len() - k,
{
    if k < 0 || k >= s.len() {
        None
    } else if s[k] == c {
        Some(k)
    } else {
        index_from(s, c, k + 1)
    }
}

/// Index of the first `c` in `s`.
pub open spec fn index_of(s: Seq<char>, c: char) -> Option<int> {
    index_from(s, c, 0)
}

pub proof fn lemma_index_from(s: Seq<char>, c: char, k: int)
    requires
        0 <= k,
    ensures
        match index_from(s, c, k) {
            Some(j) => k <= j < s.len() && s[j] == c && forall|m: int| k <= m < j ==> s[m] != c,
            None => forall|m: int| k <= m < s.len() ==> s[m] != c,
        },
    decreases s.len() - k,
{
    if k < s.len() && s[k] != c {
        lemma_index_from(s, c, k + 1);
    }
}

/// Index of the first `c` in `s`.
pub fn find_char(s: &[char], c: char) -> (r: Option<usize>)
    ensures
        r == (match index_of(s@, c) {
            Some(j) => Some(j as usize),
            None => None::<usize>,
        }),
{
    proof {
        lemma_index_from(s@, c, 0);
    }
    let mut i: usize = 0;
    while i < s.len()
        invariant
            i <= s@.len(),
            index_of(s@, c) == index_from(s@, c, i as int),
        decreases s@.len() - i,
    {
        if s[i] == c {
            return Some(i);
        }
        i = i + 1;
    }
    None
}

/// Length of the word (run of non-whitespace) that starts `s`.
pub open spec fn word_len(s: Seq<char>) -> nat
    decreases s.len(),
{
    if s.len() > 0 && !is_ws(s[0]) {
        1 + word_len(s.drop_first())
    } else {
        0
    }
}

pub proof fn lemma_word_len(s: Seq<char>)
    ensures
        word_len(s) <= s.len(),
        forall|i: int| 0 <= i < word_len(s) ==> !is_ws(#[trigger] s[i]),
        word_len(s) < s.len() ==> is_ws(s[word_len(s) as int]),
    decreases s.len(),
{
    if s.len() > 0 && !is_ws(s[0]) {
        lemma_word_len(s.drop_first());
        assert forall|i: int| 0 <= i < word_len(s) implies !is_ws(#[trigger] s[i]) by {
            if i > 0 {
                assert(s[i] == s.drop_first()[i - 1]);
            }
        }
    }
}

/// The whitespace-separated words of `s`.
pub open spec fn words(s: Seq<char>) -> Seq<Seq<char>>
    decreases s.len() via words_decreases
{
    let t = trim_start(s);
    if t.len() == 0 {
        seq![]
    } else {
        let n = word_len(t);
        seq![t.take(n as int)] + words(t.skip(n as int))
    }
}

#[via_fn]
proof fn words_decreases(s: Seq<char>) {
    lemma_lead_ws_bound(s);
    let t = trim_start(s);
    if t.len() > 0 {
        lemma_word_len(t);
    }
}

/// The whitespace-separated words of `s[lo..hi]`.
pub fn split_words(s: &[char], lo: usize, hi: usize) -> (r: Vec<String>)
    requires
        lo <= hi <= s@.len(),
    ensures
        r@.map_values(|w: String| w@) == words(s@.subrange(lo as int, hi as int)),
{
    let mut r: Vec<String> = Vec::new();
    let mut pos = lo;
    let ghost whole = words(s@.subrange(lo as int, hi as int));
    assert(r@.map_values(|w: String| w@) + words(s@.subrange(pos as int, hi as int)) =~= whole);
    while pos < hi
        invariant
            lo <= pos <= hi <= s@.len(),
            r@.map_values(|w: String| w@) + words(s@.subrange(pos as int, hi as int)) == whole,
        decreases hi - pos,
    {
        let ghost x = s@.subrange(pos as int, hi as int);
        let a = skip_ws_to(s, pos, hi);
        proof {
            lemma_lead_ws_bound(x);
            assert(trim_start(x) =~= s@.subrange(a as int, hi as int));
        }
        if a == hi {
            assert(words(x) == Seq::<Seq<char>>::empty());
            pos = hi;
        } else {
            let mut b = a;
            while b < hi && !is_space(s[b])
                invariant
                    a <= b <= hi <= s@.len(),
                    forall|k: int| a <= k < b ==> !is_ws(#[trigger] s@[k]),
                decreases hi - b,
            {
                b = b + 1;
            }
            let ghost t = s@.subrange(a as int, hi as int);
            proof {
                lemma_word_len(t);
                let n = word_len(t);
                if n < b - a {
                    assert(t[n as int] == s@[a + n]);
                }
                if n > b - a {
                    assert(t[b - a] == s@[b as int]);
                }
                assert(t.take(n as int) =~= s@.subrange(a as int, b as int));
                assert(t.skip(n as int) =~= s@.subrange(b as int, hi as int));
            }
            let w = string_of(&s[a..b]);
            let ghost before = r@.map_values(|w: String| w@);
            r.push(w);
            assert(r@.map_values(|w: String| w@) =~= before.push(s@.subrange(a as int, b as int)));
            assert(words(x) == seq![s@.subrange(a as int, b as int)] + words(s@.subrange(b as int, hi as int)));
            assert(before + words(x) =~= r@.map_values(|w: String| w@) + words(s@.subrange(b as int, hi as int)));
            pos = b;
        }
    }
    assert(words(s@.subrange(pos as int, hi as int)) =~= Seq::<Seq<char>>::empty()) by {
        assert(s@.subrange(pos as int, hi as int).len() == 0);
    }
    assert(r@.map_values(|w: String| w@) + Seq::<Seq<char>>::empty() =~= r@.map_values(|w: String| w@));
    r
}

/// Index of the first non-whitespace character of `s[from..hi]`, or `hi`.
pub fn skip_ws_to(s: &[char], from: usize, hi: usize) -> (r: usize)
    requires
        from <= hi <= s@.len(),
    ensures
        r == from + lead_ws(s@.subrange(from as int, hi as int)),
        r <= hi,
{
    let ghost x = s@.subrange(from as int, hi as int);
    let mut i = from;
    proof {
        lemma_lead_ws_bound(x);
    }
    while i < hi && is_space(s[i])
        invariant
            from <= i <= hi <= s@.len(),
            forall|k: int| from <= k < i ==> is_ws(#[trigger] s@[k]),
        decreases hi - i,
    {
        i = i + 1;
    }
    proof {
        let n = lead_ws(x);
        if n < i - from {
            assert(x[n as int] == s@[from + n]);
        }
        if n > i - from {
            assert(x[i - from] == s@[i as int]);
        }
    }
    i
}

/// The lines of `s` from index `from` on (split at each line break), each
/// trimmed, the empty ones left out.
pub open spec fn grammar_lines(s: Seq<char>, from: int) -> Seq<Seq<char>>
    decreases s.len() + 1 - from via grammar_lines_decreases
{
    if from < 0 || from > s.len() {
        seq![]
    } else {
        let e = line_end(s, from);
        let t = trim(s.subrange(from, e));
        if t.len() == 0 {
            grammar_lines(s, e + 1)
        } else {
            seq![t] + grammar_lines(s, e + 1)
        }
    }
}

#[via_fn]
proof fn grammar_lines_decreases(s: Seq<char>, from: int) {
    if 0 <= from <= s.len() {
        lemma_line_end(s, from);
    }
}

/// The trimmed, non-empty lines of `s`.
pub fn split_lines(s: &[char]) -> (r: Vec<Vec<char>>)
    ensures
        r@.map_values(|l: Vec<char>| l@) == grammar_lines(s@, 0),
{
    let mut r: Vec<Vec<char>> = Vec::new();
    let mut from: usize = 0;
    loop
        invariant
            from <= s@.len(),
            r@.map_values(|l: Vec<char>| l@) + grammar_lines(s@, from as int) == grammar_lines(s@, 0),
        decreases s@.len() - from,
    {
        let e = find_line_end(s, from);
        let (a, b) = trim_range(s, from, e);
        let ghost before = r@.map_values(|l: Vec<char>| l@);
        if a < b {
            let line = slice_vec(s, a, b);
            r.push(line);
            assert(r@.map_values(|l: Vec<char>| l@) =~= before.push(line@));
            assert(before + grammar_lines(s@, from as int) =~= r@.map_values(|l: Vec<char>| l@)
                + grammar_lines(s@, e + 1));
        }
        if e == s.len() {
            assert(grammar_lines(s@, e + 1) =~= Seq::<Seq<char>>::empty());
            assert(r@.map_values(|l: Vec<char>| l@) + Seq::<Seq<char>>::empty() =~= r@.map_values(
                |l: Vec<char>| l@));
            return r;
        }
        from = e + 1;
    }
}

} // verus!
