//! Reading typed rules: `name: sym $var(type) ...`, where a type is `%int`,
//! `!pattern`, or an array `%[ $elem separator ]`.

use vstd::prelude::*;
use crate::ast_rules::{regex_compiles, ParseErr, RegToken};
use crate::parser_structs::{
    has_path, sym_views, wf_list, ArrayType, Kind, KindView, RuleMap, Sym, SymTree, SymView,
};
use crate::text::{
    chars_of, find_line_end, is_space, is_ws, lead_ws, lemma_lead_ws_bound, lemma_line_end, lemma_word_len, line_end,
    skip_ws_to, string_of, word_len,
};

verus! {

/// How many more `oc` than `cc` characters `s` holds.
pub open spec fn nesting(s: Seq<char>, oc: char, cc: char) -> int
    decreases s.len(),
{
    if s.len() == 0 {
        0
    } else {
        nesting(s.drop_last(), oc, cc) + if s.last() == oc {
            1int
        } else if s.last() == cc {
            -1int
        } else {
            0int
        }
    }
}

/// The first index `k` at or after `from` at which the brackets of
/// `s[..k + 1]` balance.
pub open spec fn close_from(s: Seq<char>, oc: char, cc: char, from: int) -> Option<int>
    decreases s.len() - from,
{
    if from < 1 || from >= s.len() {
        None
    } else if nesting(s.take(from + 1), oc, cc) == 0 {
        Some(from)
    } else {
        close_from(s, oc, cc, from + 1)
    }
}

/// Index of the bracket `cc` that closes the bracket `oc` opening `s`, if
/// `s` opens with one and it is closed.
pub open spec fn close_of(s: Seq<char>, oc: char, cc: char) -> Option<int> {
    if s.len() > 0 && s[0] == oc {
        close_from(s, oc, cc, 1)
    } else {
        None
    }
}

proof fn lemma_close_from(s: Seq<char>, oc: char, cc: char, from: int)
    requires
        1 <= from,
    ensures
        close_from(s, oc, cc, from) matches Some(c) ==> from <= c < s.len(),
    decreases s.len() - from,
{
    if from < s.len() && nesting(s.take(from + 1), oc, cc) != 0 {
        lemma_close_from(s, oc, cc, from + 1);
    }
}

/// Scans the (possibly nested) brackets that open `text`: the index of the
/// closing `cc` of the opening `oc`, if `text` opens with `oc` and it is closed.
/// The text between them is `text[1..r]`, what follows is `text[r + 1..]`.
pub fn consume_inner(text: &[char], oc: char, cc: char) -> (r: Option<usize>)
    requires
        oc != cc,
    ensures
        r == (match close_of(text@, oc, cc) {
            Some(c) => Some(c as usize),
            None => None::<usize>,
        }),
        r matches Some(c) ==> 1 <= c < text@.len(),
        close_of(text@, oc, cc) matches Some(c) ==> 1 <= c < text@.len(),
{
    proof {
        lemma_close_from(text@, oc, cc, 1);
    }
    if text.len() == 0 || text[0] != oc {
        return None;
    }
    proof {
        assert(text@.take(1).drop_last() =~= Seq::<char>::empty());
        assert(nesting(Seq::<char>::empty(), oc, cc) == 0);
        assert(text@.take(1).last() == oc);
        assert(nesting(text@.take(1), oc, cc) == 1);
    }
    let mut depth: usize = 1;
    let mut k: usize = 1;
    while k < text.len()
        invariant
            text@.len() > 0,
            text@[0] == oc,
            1 <= k <= text@.len(),
            1 <= depth <= k,
            depth == nesting(text@.take(k as int), oc, cc),
            close_of(text@, oc, cc) == close_from(text@, oc, cc, k as int),
        decreases text@.len() - k,
    {
        let c = text[k];
        assert(text@.take(k + 1).drop_last() =~= text@.take(k as int));
        if c == oc {
            depth = depth + 1;
        } else if c == cc {
            depth = depth - 1;
        }
        if depth == 0 {
            return Some(k);
        }
        k = k + 1;
    }
    None
}

/// Whether `c` marks a symbol other than a plain reference.
pub open spec fn is_marker(c: char) -> bool {
    c == '$' || c == '!' || c == '%'
}

/// The first word of `s`: the index after it, and the word.
pub open spec fn first_word(s: Seq<char>) -> Option<(int, Seq<char>)> {
    let a = lead_ws(s) as int;
    let n = word_len(s.skip(a)) as int;
    if a <= s.len() && n > 0 && a + n <= s.len() {
        Some((a + n, s.subrange(a, a + n)))
    } else {
        None
    }
}

/// A plain reference at the start of `s`: a word not opened by a marker.
pub open spec fn token_sym_of(s: Seq<char>) -> Option<(int, Seq<char>)> {
    match first_word(s) {
        Some((e, w)) => if is_marker(w[0]) {
            None
        } else {
            Some((e, w))
        },
        None => None,
    }
}

/// The first word of `s[lo..hi]`, as the indices of its ends.
fn word_at(s: &[char], lo: usize, hi: usize) -> (r: Option<(usize, usize)>)
    requires
        lo <= hi <= s@.len(),
    ensures
        match first_word(s@.subrange(lo as int, hi as int)) {
            Some((e, w)) => r matches Some((a, b)) && lo <= a < b <= hi && b == lo + e && s@.subrange(
                a as int,
                b as int,
            ) == w,
            None => r is None,
        },
{
    let ghost x = s@.subrange(lo as int, hi as int);
    let a = skip_ws_to(s, lo, hi);
    let mut b = a;
    while b < hi && !is_space(s[b])
        invariant
            a <= b <= hi <= s@.len(),
            forall|k: int| a <= k < b ==> !is_ws(#[trigger] s@[k]),
        decreases hi - b,
    {
        b = b + 1;
    }
    proof {
        lemma_lead_ws_bound(x);
        let t = x.skip(lead_ws(x) as int);
        assert(t =~= s@.subrange(a as int, hi as int));
        lemma_word_len(t);
        let n = word_len(t);
        if n < b - a {
            assert(t[n as int] == s@[a + n]);
        }
        if n > b - a {
            assert(t[b - a] == s@[b as int]);
        }
        assert(x.subrange(a - lo, b - lo) =~= s@.subrange(a as int, b as int));
    }
    if a == b {
        None
    } else {
        Some((a, b))
    }
}

/// Reads a plain reference at the start of `source`: the length read and the symbol.
pub fn consume_token(source: &[char]) -> (r: Option<(usize, Sym)>)
    ensures
        match token_sym_of(source@) {
            Some((e, w)) => r matches Some((n, sym)) && n == e && sym.view() == SymView::Token(w),
            None => r is None,
        },
{
    assert(source@.subrange(0, source@.len() as int) =~= source@);
    match word_at(source, 0, source.len()) {
        Some((a, b)) => {
            let c = source[a];
            assert(source@.subrange(a as int, b as int)[0] == c);
            if c == '$' || c == '!' || c == '%' {
                None
            } else {
                Some((b, Sym::Token(string_of(&source[a..b]))))
            }
        },
        None => None,
    }
}


/// A character that may stand in a variable's name.
pub open spec fn is_name_char(c: char) -> bool {
    !is_ws(c) && c != '^' && c != '('
}

/// Length of the run of name characters that starts `s`.
pub open spec fn name_len(s: Seq<char>) -> nat
    decreases s.len(),
{
    if s.len() > 0 && is_name_char(s[0]) {
        1 + name_len(s.drop_first())
    } else {
        0
    }
}

proof fn lemma_name_len(s: Seq<char>)
    ensures
        name_len(s) <= s.len(),
        forall|i: int| 0 <= i < name_len(s) ==> is_name_char(#[trigger] s[i]),
        name_len(s) < s.len() ==> !is_name_char(s[name_len(s) as int]),
    decreases s.len(),
{
    if s.len() > 0 && is_name_char(s[0]) {
        lemma_name_len(s.drop_first());
        assert forall|i: int| 0 <= i < name_len(s) implies is_name_char(#[trigger] s[i]) by {
            if i > 0 {
                assert(s[i] == s.drop_first()[i - 1]);
            }
        }
    }
}

/// The symbol at the start of `s`: a plain reference, else a variable.
/// The index after it and the symbol; or the text of a malformed type.
pub open spec fn sym_of(s: Seq<char>) -> Result<Option<(int, SymView)>, Seq<char>>
    decreases s.len(), 2int,
{
    match token_sym_of(s) {
        Some((e, w)) => Ok(Some((e, SymView::Token(w)))),
        None => var_of(s),
    }
}

/// The variable `$name` or `$name(type)` at the start of `s`; without a
/// type, or with one that names no kind, its kind is the unknown symbol
/// `name`.
pub open spec fn var_of(s: Seq<char>) -> Result<Option<(int, SymView)>, Seq<char>>
    decreases s.len(), 1int,
{
    let a = lead_ws(s) as int;
    if !(0 <= a < s.len() && s[a] == '$') {
        Ok(None)
    } else {
        let st = a + 1;
        let n = name_len(s.skip(st)) as int;
        if n == 0 || st + n > s.len() {
            Ok(None)
        } else {
            let name = s.subrange(st, st + n);
            let e = st + n;
            let unknown = SymView::Var(name, KindView::UnknownSym(name));
            match close_of(s.skip(e), '(', ')') {
                Some(c) => if 1 <= c && e + c < s.len() {
                    match type_of(s.subrange(e + 1, e + c)) {
                        Err(x) => Err(x),
                        Ok(Some((_, k))) => Ok(Some((e + c + 1, SymView::Var(name, k)))),
                        Ok(None) => Ok(Some((e + c + 1, unknown))),
                    }
                } else {
                    Ok(None)
                },
                None => Ok(Some((e, unknown))),
            }
        }
    }
}

/// The separator of an array type at the start of `t`: a literal `%[lit]`
/// or a plain reference.
pub open spec fn sep_of(t: Seq<char>) -> Option<Seq<char>> {
    let a = lead_ws(t) as int;
    if 0 <= a < t.len() && t[a] == '%' && close_of(t.skip(a + 1), '[', ']') is Some
        && 1 <= close_of(t.skip(a + 1), '[', ']')->0 && a + 1 + close_of(t.skip(a + 1), '[', ']')->0 < t.len() {
        Some(t.subrange(a + 2, a + 1 + close_of(t.skip(a + 1), '[', ']')->0))
    } else {
        match token_sym_of(t) {
            Some((_, w)) => Some(w),
            None => None,
        }
    }
}

/// The word that follows the marker at index `a` of `s`.
pub open spec fn marked_word(s: Seq<char>, a: int) -> Option<Seq<char>> {
    let n = word_len(s.skip(a + 1)) as int;
    if n == 0 || a + 1 + n > s.len() {
        None
    } else {
        Some(s.subrange(a + 1, a + 1 + n))
    }
}

/// The type at the start of `s`: `%[ $elem sep ]` (an array whose element
/// must be an untyped variable), `%int`, or `!pattern`. The index after it
/// and the kind; no kind when none of these stands there; or the text of a
/// malformed type.
pub open spec fn type_of(s: Seq<char>) -> Result<Option<(int, KindView)>, Seq<char>>
    decreases s.len(), 0int,
{
    let a = lead_ws(s) as int;
    if 0 <= a < s.len() && s[a] == '%' {
        let cl = close_of(s.skip(a + 1), '[', ']');
        if cl is Some && 1 <= cl->0 && a + 1 + cl->0 < s.len() {
            let c = cl->0;
            let inner = s.subrange(a + 2, a + 1 + c);
            match sym_of(inner) {
                Err(x) => Err(x),
                Ok(Some((k, SymView::Var(_, KindView::UnknownSym(el))))) => if 0 <= k <= inner.len() {
                    match sep_of(inner.skip(k)) {
                        Some(sep) => Ok(Some((a + 2 + c, KindView::Array(Box::new(KindView::UnknownSym(el)), sep)))),
                        None => Err(s),
                    }
                } else {
                    Err(s)
                },
                _ => Err(s),
            }
        } else {
            match marked_word(s, a) {
                None => Ok(None),
                Some(w) => if w == seq!['i', 'n', 't'] {
                    Ok(Some((a + 1 + w.len(), KindView::Int)))
                } else {
                    Err(s)
                },
            }
        }
    } else if 0 <= a < s.len() && s[a] == '!' {
        match marked_word(s, a) {
            None => Ok(None),
            Some(p) => if regex_compiles(p) {
                Ok(Some((a + 1 + p.len(), KindView::Reg(p))))
            } else {
                Err(s)
            },
        }
    } else {
        Ok(None)
    }
}

/// Whether `r` is the outcome `spec` of reading a symbol.
pub open spec fn sym_result_is(r: Result<Option<(usize, Sym)>, ParseErr>, spec: Result<Option<(int, SymView)>, Seq<char>>) -> bool {
    match (r, spec) {
        (Ok(None), Ok(None)) => true,
        (Ok(Some((n, sym))), Ok(Some((e, v)))) => n == e && sym.view() == v,
        (Err(ParseErr::InvalidType(m)), Err(t)) => m@ == t,
        _ => false,
    }
}

/// Whether `r` is the outcome `spec` of reading a type.
pub open spec fn kind_result_is(r: Result<Option<(usize, Kind)>, ParseErr>, spec: Result<Option<(int, KindView)>, Seq<char>>) -> bool {
    match (r, spec) {
        (Ok(None), Ok(None)) => true,
        (Ok(Some((n, k))), Ok(Some((e, v)))) => n == e && k.view() == v,
        (Err(ParseErr::InvalidType(m)), Err(t)) => m@ == t,
        _ => false,
    }
}

/// The word after the marker at index `a` of `s`, as the index after it.
fn marked_word_end(s: &[char], a: usize) -> (r: Option<usize>)
    requires
        a < s@.len(),
    ensures
        match marked_word(s@, a as int) {
            Some(w) => r matches Some(b) && a + 1 < b <= s@.len() && s@.subrange(a + 1, b as int) == w
                && b == a + 1 + w.len(),
            None => r is None,
        },
{
    let len = s.len();
    let mut b = a + 1;
    while b < len && !is_space(s[b])
        invariant
            len == s@.len(),
            a + 1 <= b <= s@.len(),
            forall|k: int| a + 1 <= k < b ==> !is_ws(#[trigger] s@[k]),
        decreases s@.len() - b,
    {
        b = b + 1;
    }
    proof {
        let t = s@.skip(a + 1);
        lemma_word_len(t);
        let n = word_len(t);
        if n < b - a - 1 {
            assert(t[n as int] == s@[a + 1 + n]);
        }
        if n > b - a - 1 {
            assert(t[b - a - 1] == s@[b as int]);
        }
    }
    if b == a + 1 {
        None
    } else {
        Some(b)
    }
}

/// Reads the separator of an array type at the start of `t`.
fn consume_sep(t: &[char]) -> (r: Option<String>)
    ensures
        match sep_of(t@) {
            Some(w) => r matches Some(x) && x@ == w,
            None => r is None,
        },
{
    assert(t@.subrange(0, t@.len() as int) =~= t@);
    let a = skip_ws_to(t, 0, t.len());
    if a < t.len() && t[a] == '%' {
        let rest = &t[a + 1..t.len()];
        assert(rest@ =~= t@.skip(a + 1));
        if let Some(c) = consume_inner(rest, '[', ']') {
            if a + 1 + c < t.len() {
                return Some(string_of(&t[a + 2..a + 1 + c]));
            }
        }
    }
    match consume_token(t) {
        Some((_, Sym::Token(w))) => Some(w),
        _ => None,
    }
}

/// Reads the symbol at the start of `s`: a plain reference, else a variable.
pub fn consume_sym(s: &[char]) -> (r: Result<Option<(usize, Sym)>, ParseErr>)
    ensures
        sym_result_is(r, sym_of(s@)),
    decreases s@.len(), 2int,
{
    match consume_token(s) {
        Some(t) => Ok(Some(t)),
        None => consume_var(s),
    }
}

/// Reads the variable `$name` or `$name(type)` at the start of `s`.
#[verifier::rlimit(80)]
pub fn consume_var(s: &[char]) -> (r: Result<Option<(usize, Sym)>, ParseErr>)
    ensures
        sym_result_is(r, var_of(s@)),
    decreases s@.len(), 1int,
{
    assert(s@.subrange(0, s@.len() as int) =~= s@);
    let a = skip_ws_to(s, 0, s.len());
    if !(a < s.len() && s[a] == '$') {
        return Ok(None);
    }
    let st = a + 1;
    let mut e = st;
    while e < s.len() && !is_space(s[e]) && s[e] != '^' && s[e] != '('
        invariant
            st <= e <= s@.len(),
            forall|k: int| st <= k < e ==> is_name_char(#[trigger] s@[k]),
        decreases s@.len() - e,
    {
        e = e + 1;
    }
    proof {
        let t = s@.skip(st as int);
        lemma_name_len(t);
        let n = name_len(t);
        if n < e - st {
            assert(t[n as int] == s@[st + n]);
        }
        if n > e - st {
            assert(t[e - st] == s@[e as int]);
        }
    }
    if e == st {
        return Ok(None);
    }
    let name = string_of(&s[st..e]);
    let rest = &s[e..s.len()];
    assert(rest@ =~= s@.skip(e as int));
    match consume_inner(rest, '(', ')') {
        Some(c) => {
            let inner = &s[e + 1..e + c];
            match consume_type(inner) {
                Err(x) => Err(x),
                Ok(Some((_, k))) => Ok(Some((e + c + 1, Sym::Var((name, k))))),
                Ok(None) => {
                    let n2 = name.clone();
                    Ok(Some((e + c + 1, Sym::Var((name, Kind::UnknownSym(n2))))))
                },
            }
        },
        None => {
            let n2 = name.clone();
            Ok(Some((e, Sym::Var((name, Kind::UnknownSym(n2))))))
        },
    }
}

/// Reads the type at the start of `text`: `%[ $elem sep ]`, `%int` or
/// `!pattern`. Fails on an array whose element is not an untyped variable
/// or that has no separator, on an unknown builtin type, and on a pattern
/// that does not compile.
#[verifier::rlimit(80)]
pub fn consume_type(text: &[char]) -> (r: Result<Option<(usize, Kind)>, ParseErr>)
    ensures
        kind_result_is(r, type_of(text@)),
    decreases text@.len(), 0int,
{
    assert(text@.subrange(0, text@.len() as int) =~= text@);
    let a = skip_ws_to(text, 0, text.len());
    if a < text.len() && text[a] == '%' {
        let rest = &text[a + 1..text.len()];
        assert(rest@ =~= text@.skip(a + 1));
        let cl = consume_inner(rest, '[', ']');
        let arr = match cl {
            Some(c) => a + 1 + c < text.len(),
            None => false,
        };
        if arr {
            let c = match cl {
                Some(c) => c,
                None => 0,
            };
            let inner = &text[a + 2..a + 1 + c];
            match consume_sym(inner) {
                Err(x) => return Err(x),
                Ok(Some((k, Sym::Var((_, Kind::UnknownSym(el)))))) => {
                    let after = &inner[k..inner.len()];
                    assert(after@ =~= inner@.skip(k as int));
                    match consume_sep(after) {
                        Some(separator) => {
                            return Ok(Some((a + 2 + c, Kind::Array(ArrayType { kind: Box::new(Kind::UnknownSym(el)), separator }))));
                        },
                        None => return Err(ParseErr::InvalidType(string_of(text))),
                    }
                },
                _ => return Err(ParseErr::InvalidType(string_of(text))),
            }
        }
        match marked_word_end(text, a) {
            None => Ok(None),
            Some(b) => {
                let w = &text[a + 1..b];
                if w.len() == 3 && w[0] == 'i' && w[1] == 'n' && w[2] == 't' {
                    assert(w@ =~= seq!['i', 'n', 't']);
                    Ok(Some((b, Kind::Int)))
                } else {
                    assert(w@ != seq!['i', 'n', 't']) by {
                        if w@.len() == 3 {
                            assert(w@ =~= seq!['i', 'n', 't'] ==> (w@[0] == 'i' && w@[1] == 'n' && w@[2] == 't'));
                        }
                    }
                    Err(ParseErr::InvalidType(string_of(text)))
                }
            },
        }
    } else if a < text.len() && text[a] == '!' {
        match marked_word_end(text, a) {
            None => Ok(None),
            Some(b) => match RegToken::new(&text[a + 1..b]) {
                Ok(t) => Ok(Some((b, Kind::Reg(t)))),
                Err(_) => Err(ParseErr::InvalidType(string_of(text))),
            },
        }
    } else {
        Ok(None)
    }
}


/// The symbols read one after another from the start of `s`, up to the
/// first place where no symbol stands.
pub open spec fn syms_of(s: Seq<char>) -> Result<Seq<SymView>, Seq<char>>
    decreases s.len(),
{
    match sym_of(s) {
        Err(x) => Err(x),
        Ok(None) => Ok(seq![]),
        Ok(Some((k, v))) => if 0 < k <= s.len() {
            match syms_of(s.skip(k)) {
                Ok(r) => Ok(seq![v] + r),
                Err(x) => Err(x),
            }
        } else {
            Ok(seq![v])
        },
    }
}

/// A character that may stand in a rule's name.
pub open spec fn is_ident_char(c: char) -> bool {
    ('a' <= c && c <= 'z') || c == '|' || c == '_'
}

/// Length of the run of name characters that starts `s`.
pub open spec fn ident_len(s: Seq<char>) -> nat
    decreases s.len(),
{
    if s.len() > 0 && is_ident_char(s[0]) {
        1 + ident_len(s.drop_first())
    } else {
        0
    }
}

proof fn lemma_ident_len(s: Seq<char>)
    ensures
        ident_len(s) <= s.len(),
        forall|i: int| 0 <= i < ident_len(s) ==> is_ident_char(#[trigger] s[i]),
        ident_len(s) < s.len() ==> !is_ident_char(s[ident_len(s) as int]),
    decreases s.len(),
{
    if s.len() > 0 && is_ident_char(s[0]) {
        lemma_ident_len(s.drop_first());
        assert forall|i: int| 0 <= i < ident_len(s) implies is_ident_char(#[trigger] s[i]) by {
            if i > 0 {
                assert(s[i] == s.drop_first()[i - 1]);
            }
        }
    }
}

/// The rule on `line`, `[$]name: sym sym ...` with a name of lower-case
/// letters, `_` and `|` right before the colon; no rule when the line has
/// another shape.
pub open spec fn lang_rule_of(line: Seq<char>) -> Result<Option<(Seq<char>, Seq<SymView>)>, Seq<char>> {
    let a: int = if line.len() > 0 && line[0] == '$' {
        1
    } else {
        0
    };
    let n = ident_len(line.skip(a)) as int;
    if n == 0 || a + n >= line.len() || line[a + n] != ':' {
        Ok(None)
    } else {
        match syms_of(line.skip(a + n + 1)) {
            Ok(v) => Ok(Some((line.subrange(a, a + n), v))),
            Err(x) => Err(x),
        }
    }
}

/// Reads the rule on `line`: its name and symbols, or nothing when the line
/// is no rule.
pub fn consume_rule(line: &[char]) -> (r: Result<Option<(String, Vec<Sym>)>, ParseErr>)
    ensures
        match lang_rule_of(line@) {
            Ok(None) => r matches Ok(None),
            Ok(Some((name, v))) => r matches Ok(Some((n, syms))) && n@ == name && sym_views(syms@) == v,
            Err(t) => r matches Err(ParseErr::InvalidType(m)) && m@ == t,
        },
{
    let len = line.len();
    let a: usize = if len > 0 && line[0] == '$' { 1 } else { 0 };
    let mut e = a;
    while e < len && (('a' <= line[e] && line[e] <= 'z') || line[e] == '|' || line[e] == '_')
        invariant
            len == line@.len(),
            a <= e <= len,
            a <= 1,
            a <= len,
            forall|k: int| a <= k < e ==> is_ident_char(#[trigger] line@[k]),
        decreases len - e,
    {
        e = e + 1;
    }
    proof {
        let t = line@.skip(a as int);
        lemma_ident_len(t);
        let n = ident_len(t);
        if n < e - a {
            assert(t[n as int] == line@[a + n]);
        }
        if n > e - a {
            assert(t[e - a] == line@[e as int]);
        }
    }
    if e == a || e >= len || line[e] != ':' {
        return Ok(None);
    }
    let body = &line[e + 1..len];
    assert(body@ =~= line@.skip(e + 1));
    let mut syms: Vec<Sym> = Vec::new();
    let mut pos: usize = 0;
    let ghost whole = body@;
    assert(whole.skip(0) =~= whole);
    assert(line@.subrange(a as int, e as int) == line@.subrange(a as int, a + ident_len(line@.skip(a as int))));
    assert(lang_rule_of(line@) == match syms_of(whole) {
        Ok(v) => Ok(Some((line@.subrange(a as int, e as int), v))),
        Err(x) => Err::<Option<(Seq<char>, Seq<SymView>)>, Seq<char>>(x),
    });
    loop
        invariant
            len == line@.len(),
            a < e < len,
            lang_rule_of(line@) == match syms_of(whole) {
                Ok(v) => Ok(Some((line@.subrange(a as int, e as int), v))),
                Err(x) => Err::<Option<(Seq<char>, Seq<SymView>)>, Seq<char>>(x),
            },
            whole == body@,
            pos <= whole.len(),
            match syms_of(whole.skip(pos as int)) {
                Ok(rest) => syms_of(whole) == Ok::<Seq<SymView>, Seq<char>>(sym_views(syms@) + rest),
                Err(x) => syms_of(whole) == Err::<Seq<SymView>, Seq<char>>(x),
            },
        decreases whole.len() - pos,
    {
        let rest = &body[pos..body.len()];
        assert(rest@ =~= whole.skip(pos as int));
        let ghost before = sym_views(syms@);
        match consume_sym(rest) {
            Err(x) => return Err(x),
            Ok(None) => {
                assert(before + seq![] =~= before);
                return Ok(Some((string_of(&line[a..e]), syms)));
            },
            Ok(Some((k, sym))) => {
                syms.push(sym);
                assert(sym_views(syms@) =~= before.push(sym.view()));
                if k == 0 || k > rest.len() {
                    assert(before + seq![sym.view()] =~= sym_views(syms@));
                    return Ok(Some((string_of(&line[a..e]), syms)));
                }
                proof {
                    assert(whole.skip(pos as int).skip(k as int) =~= whole.skip(pos + k));
                    match syms_of(whole.skip(pos + k)) {
                        Ok(r2) => {
                            assert(before + (seq![sym.view()] + r2) =~= sym_views(syms@) + r2);
                        },
                        Err(_) => {},
                    }
                }
                pos = pos + k;
            },
        }
    }
}

/// The rules of the lines of `s` from index `from` on, in order; or the
/// first malformed type.
pub open spec fn lang_rules(s: Seq<char>, from: int) -> Result<Seq<(Seq<char>, Seq<SymView>)>, Seq<char>>
    decreases s.len() + 1 - from via lang_rules_decreases
{
    if from < 0 || from > s.len() {
        Ok(seq![])
    } else {
        let e = line_end(s, from);
        match lang_rule_of(s.subrange(from, e)) {
            Err(x) => Err(x),
            Ok(None) => lang_rules(s, e + 1),
            Ok(Some(rule)) => match lang_rules(s, e + 1) {
                Ok(rest) => Ok(seq![rule] + rest),
                Err(x) => Err(x),
            },
        }
    }
}

#[via_fn]
proof fn lang_rules_decreases(s: Seq<char>, from: int) {
    if 0 <= from <= s.len() {
        lemma_line_end(s, from);
    }
}

/// Whether `map` holds one well-formed symbol trie per rule name of
/// `rules`, whose paths are the prefixes of that name's symbol lists.
pub open spec fn map_of(map: Seq<(String, SymTree)>, rules: Seq<(Seq<char>, Seq<SymView>)>) -> bool {
    &&& forall|a: int, b: int| 0 <= a < b < map.len() ==> (#[trigger] map[a]).0@ != (#[trigger] map[b]).0@
    &&& forall|j: int|
        #![trigger rules[j]]
        0 <= j < rules.len() ==> exists|i: int| #![trigger map[i]] 0 <= i < map.len() && map[i].0@ == rules[j].0
    &&& forall|i: int|
        #![trigger map[i]]
        0 <= i < map.len() ==> exists|j: int| #![trigger rules[j]] 0 <= j < rules.len() && map[i].0@ == rules[j].0
    &&& forall|i: int| 0 <= i < map.len() ==> wf_list((#[trigger] map[i]).1.children@)
    &&& forall|i: int, p: Seq<SymView>|
        0 <= i < map.len() ==> (#[trigger] has_path(map[i].1.children@, p) <==> exists|j: int|
            0 <= j < rules.len() && rules[j].0 == map[i].0@ && p.is_prefix_of(rules[j].1))
}

/// Index of the entry named `name`.
fn tree_pos(map: &Vec<(String, SymTree)>, name: &String) -> (r: Option<usize>)
    ensures
        match r {
            Some(i) => i < map@.len() && map@[i as int].0@ == name@,
            None => forall|i: int| 0 <= i < map@.len() ==> (#[trigger] map@[i]).0@ != name@,
        },
{
    let mut i: usize = 0;
    while i < map.len()
        invariant
            i <= map@.len(),
            forall|k: int| 0 <= k < i ==> (#[trigger] map@[k]).0@ != name@,
        decreases map@.len() - i,
    {
        if map[i].0 == *name {
            return Some(i);
        }
        i = i + 1;
    }
    None
}


proof fn lemma_step_names(
    m0: Seq<(String, SymTree)>,
    m1: Seq<(String, SymTree)>,
    mp: Seq<(String, SymTree)>,
    done: Seq<(Seq<char>, Seq<SymView>)>,
    rule: (Seq<char>, Seq<SymView>),
    i: int,
    existed: bool,
    n: String,
)
    requires
        map_of(m0, done),
        0 <= i < m1.len(),
        existed ==> m1 == m0 && m0[i].0@ == rule.0,
        !existed ==> m1 == m0.push(m1[i]) && i == m0.len() && m1[i].0@ == rule.0
            && forall|k: int| 0 <= k < m0.len() ==> (#[trigger] m0[k]).0@ != rule.0,
        mp.len() == m1.len(),
        mp[i].0 == n,
        forall|k: int| 0 <= k < mp.len() && k != i ==> mp[k] == m1[k],
        n@ == rule.0,
    ensures
        forall|a: int, b: int| 0 <= a < b < mp.len() ==> (#[trigger] mp[a]).0@ != (#[trigger] mp[b]).0@,
        forall|j: int|
            #![trigger done.push(rule)[j]]
            0 <= j < done.push(rule).len() ==> exists|k: int| #![trigger mp[k]] 0 <= k < mp.len() && mp[k].0@ == done.push(rule)[j].0,
        forall|k: int|
            #![trigger mp[k]]
            0 <= k < mp.len() ==> exists|j: int| #![trigger done.push(rule)[j]] 0 <= j < done.push(rule).len() && mp[k].0@ == done.push(rule)[j].0,
{
    let d2 = done.push(rule);
    assert forall|a: int, b: int| 0 <= a < b < mp.len() implies (#[trigger] mp[a]).0@ != (#[trigger] mp[b]).0@ by {
        if !existed && b == m0.len() {
            assert(m0[a] == mp[a]);
        } else if a != i && b != i {
            assert(m0[a] == mp[a] && m0[b] == mp[b]);
        } else if a == i {
            assert(m0[b] == mp[b]);
        } else {
            assert(m0[a] == mp[a]);
        }
    }
    assert forall|j: int| #![trigger d2[j]] 0 <= j < d2.len() implies exists|k: int| #![trigger mp[k]] 0 <= k < mp.len()
        && mp[k].0@ == d2[j].0 by {
        if j == done.len() {
            assert(mp[i].0@ == d2[j].0);
        } else {
            assert(d2[j] == done[j]);
            let k = choose|k: int| #![trigger m0[k]] 0 <= k < m0.len() && m0[k].0@ == done[j].0;
            if k == i {
                assert(mp[k].0@ == d2[j].0);
            } else {
                assert(mp[k] == m0[k]);
            }
        }
    }
    assert forall|k: int| #![trigger mp[k]] 0 <= k < mp.len() implies exists|j: int| #![trigger d2[j]] 0 <= j < d2.len()
        && mp[k].0@ == d2[j].0 by {
        if k == i {
            assert(d2[done.len() as int].0 == mp[k].0@);
        } else {
            assert(mp[k] == m0[k]);
            let j = choose|j: int| #![trigger done[j]] 0 <= j < done.len() && m0[k].0@ == done[j].0;
            assert(d2[j] == done[j]);
        }
    }
}

proof fn lemma_step_paths(
    m0: Seq<(String, SymTree)>,
    m1: Seq<(String, SymTree)>,
    mp: Seq<(String, SymTree)>,
    done: Seq<(Seq<char>, Seq<SymView>)>,
    rule: (Seq<char>, Seq<SymView>),
    i: int,
    existed: bool,
    t0: SymTree,
    tree: SymTree,
)
    requires
        map_of(m0, done),
        0 <= i < m1.len(),
        existed ==> m1 == m0 && m0[i].0@ == rule.0,
        !existed ==> m1 == m0.push(m1[i]) && i == m0.len() && m1[i].0@ == rule.0 && t0.children@.len() == 0
            && forall|k: int| 0 <= k < m0.len() ==> (#[trigger] m0[k]).0@ != rule.0,
        t0 == m1[i].1,
        mp.len() == m1.len(),
        mp[i].1 == tree,
        mp[i].0@ == rule.0,
        forall|k: int| 0 <= k < mp.len() && k != i ==> mp[k] == m1[k],
        forall|a: int, b: int| 0 <= a < b < mp.len() ==> (#[trigger] mp[a]).0@ != (#[trigger] mp[b]).0@,
        forall|p: Seq<SymView>| #[trigger] has_path(tree.children@, p) <==> has_path(t0.children@, p)
            || p.is_prefix_of(rule.1),
    ensures
        forall|k: int, p: Seq<SymView>|
            0 <= k < mp.len() ==> (#[trigger] has_path(mp[k].1.children@, p) <==> exists|j: int|
                0 <= j < done.push(rule).len() && done.push(rule)[j].0 == mp[k].0@ && p.is_prefix_of(done.push(rule)[j].1)),
{
    let d2 = done.push(rule);
    assert forall|k: int, p: Seq<SymView>| 0 <= k < mp.len() implies (#[trigger] has_path(
        mp[k].1.children@, p) <==> exists|j: int| 0 <= j < d2.len() && d2[j].0 == mp[k].0@
        && p.is_prefix_of(d2[j].1)) by {
        assert forall|j: int| 0 <= j < done.len() implies d2[j] == done[j] by {}
        if k == i {
            if existed {
                assert(has_path(t0.children@, p) <==> exists|j: int| 0 <= j < done.len()
                    && done[j].0 == m0[k].0@ && p.is_prefix_of(done[j].1));
            } else {
                assert(!has_path(t0.children@, p) || p.len() == 0);
                assert forall|j: int| 0 <= j < done.len() implies done[j].0 != rule.0 by {
                    let q = choose|q: int| #![trigger m0[q]] 0 <= q < m0.len() && m0[q].0@ == done[j].0;
                }
                if p.len() == 0 {
                    assert(p.is_prefix_of(d2[done.len() as int].1));
                }
            }
            if p.is_prefix_of(rule.1) {
                assert(d2[done.len() as int].0 == mp[k].0@ && p.is_prefix_of(d2[done.len() as int].1));
            }
        } else {
            assert(mp[k] == m0[k]);
            assert(m0[k].0@ != rule.0) by {
                assert(mp[k].0@ != mp[i].0@);
            }
            assert(has_path(m0[k].1.children@, p) <==> exists|j: int| 0 <= j < done.len()
                && done[j].0 == m0[k].0@ && p.is_prefix_of(done[j].1));
        }
    }
}

proof fn lemma_map_step(
    m0: Seq<(String, SymTree)>,
    m1: Seq<(String, SymTree)>,
    mp: Seq<(String, SymTree)>,
    done: Seq<(Seq<char>, Seq<SymView>)>,
    rule: (Seq<char>, Seq<SymView>),
    i: int,
    existed: bool,
    t0: SymTree,
    tree: SymTree,
    n: String,
)
    requires
        map_of(m0, done),
        0 <= i < m1.len(),
        existed ==> m1 == m0 && m0[i].0@ == rule.0,
        !existed ==> m1 == m0.push(m1[i]) && i == m0.len() && m1[i].0@ == rule.0 && t0.children@.len() == 0
            && forall|k: int| 0 <= k < m0.len() ==> (#[trigger] m0[k]).0@ != rule.0,
        t0 == m1[i].1,
        mp == m1.update(i, (n, tree)),
        n@ == rule.0,
        wf_list(tree.children@),
        forall|p: Seq<SymView>| #[trigger] has_path(tree.children@, p) <==> has_path(t0.children@, p)
            || p.is_prefix_of(rule.1),
    ensures
        map_of(mp, done.push(rule)),
{
    assert forall|k: int| 0 <= k < mp.len() && k != i implies mp[k] == m1[k] by {}
    lemma_step_names(m0, m1, mp, done, rule, i, existed, n);
    lemma_step_paths(m0, m1, mp, done, rule, i, existed, t0, tree);
    assert forall|k: int| 0 <= k < mp.len() implies wf_list((#[trigger] mp[k]).1.children@) by {
        if k != i {
            assert(mp[k] == m1[k]);
            if !existed {
                assert(m1[k] == m0[k]);
            }
        }
    }
}

/// Reads the typed rules of `source`, one per line, into one symbol trie per
/// rule name. Lines that are no rule are skipped; a malformed type fails.
#[verifier::rlimit(80)]
pub fn parse(source: &str) -> (r: Result<RuleMap, ParseErr>)
    ensures
        match r {
            Ok(map) => lang_rules(source@, 0) matches Ok(rules) && map_of(map@, rules),
            Err(e) => lang_rules(source@, 0) matches Err(t) && e matches ParseErr::InvalidType(m) && m@ == t,
        },
{
    let chars = chars_of(source);
    let ghost s = chars@;
    let mut map: Vec<(String, SymTree)> = Vec::new();
    let ghost mut done: Seq<(Seq<char>, Seq<SymView>)> = seq![];
    let mut from: usize = 0;
    loop
        invariant
            s == chars@,
            s == source@,
            from <= s.len(),
            map_of(map@, done),
            match lang_rules(s, from as int) {
                Ok(rest) => lang_rules(s, 0) == Ok::<_, Seq<char>>(done + rest),
                Err(x) => lang_rules(s, 0) == Err::<Seq<(Seq<char>, Seq<SymView>)>, _>(x),
            },
        decreases s.len() - from,
    {
        let e = find_line_end(chars.as_slice(), from);
        let line = &chars[from..e];
        match consume_rule(line) {
            Err(x) => return Err(x),
            Ok(None) => {},
            Ok(Some((name, syms))) => {
                let ghost m0 = map@;
                let ghost rule = (name@, sym_views(syms@));
                let found = tree_pos(&map, &name);
                let i = match found {
                    Some(i) => i,
                    None => {
                        map.push((name.clone(), SymTree::new()));
                        map.len() - 1
                    },
                };
                let ghost m1 = map@;
                proof {
                    if found is Some {
                        assert(m1 == m0);
                    } else {
                        assert(m1 =~= m0.push(m1[i as int]));
                    }
                }
                assert(wf_list(m1[i as int].1.children@)) by {
                    if found is Some {
                        assert(m1 == m0);
                    } else {
                        assert(m1[i as int].1.children@.len() == 0);
                    }
                }
                let (n, mut tree) = map.remove(i);
                let ghost t0 = tree;
                tree.add_path(syms.as_slice());
                map.insert(i, (n, tree));
                proof {
                    let d2 = done.push(rule);
                    assert(map@ =~= m1.update(i as int, (n, tree)));
                    lemma_map_step(m0, m1, map@, done, rule, i as int, found is Some, t0, tree, n);
                    match lang_rules(s, e + 1) {
                        Ok(rest) => {
                            assert(done + (seq![rule] + rest) =~= d2 + rest);
                        },
                        Err(_) => {},
                    }
                    done = d2;
                }
            },
        }
        if e == chars.len() {
            proof {
                assert(lang_rules(s, e + 1) == Ok::<Seq<(Seq<char>, Seq<SymView>)>, Seq<char>>(seq![]));
                assert(done + seq![] =~= done);
            }
            return Ok(map);
        }
        from = e + 1;
    }
}

} // verus!
