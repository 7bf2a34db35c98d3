//! Turns source text into tokens with the token definitions of a grammar.

use vstd::prelude::*;
use crate::ast_rules::{def_consume, AstRules, TokenDefinition};
use crate::text::{find_line_end, lead_ws, line_end, string_of, trim, trim_range};

verus! {

/// A lexed token: the name of the definition that matched, the matched text
/// and the (0-based) line it stands on.
pub struct Token {
    pub key: String,
    pub value: String,
    pub line_nr: usize,
}

/// Input that no token definition recognizes, at a (0-based) line and column.
pub struct UnrecognizedInput {
    pub line_nr: usize,
    pub column: usize,
}

/// The first definition, from index `k` on, that consumes a non-empty prefix
/// of `s`, with the length it consumes.
pub open spec fn first_def(defs: Seq<(String, TokenDefinition)>, s: Seq<char>, k: int) -> Option<(int, nat)>
    decreases defs.len() - k,
{
    if k < 0 || k >= defs.len() {
        None
    } else if def_consume(defs[k].1, s) > 0 {
        Some((k, def_consume(defs[k].1, s)))
    } else {
        first_def(defs, s, k + 1)
    }
}

/// Lexing of one stream: the (name, text) pairs of the tokens found, and the
/// length of the rest that no definition recognized (0: all of it was lexed).
/// The first definition in declaration order that consumes a non-empty
/// prefix wins; lexing goes on with the rest, trimmed of whitespace on both
/// sides.
pub open spec fn lex_stream(defs: Seq<(String, TokenDefinition)>, s: Seq<char>) -> (Seq<(Seq<char>, Seq<char>)>, nat)
    decreases s.len() via lex_stream_decreases
{
    if s.len() == 0 {
        (seq![], 0)
    } else {
        match first_def(defs, s, 0) {
            None => (seq![], s.len()),
            Some((i, n)) => if 0 <= i < defs.len() && 0 < n <= s.len() {
                let rest = s.skip(n as int);
                let tail = trim(rest);
                let (ts, left) = lex_stream(defs, tail);
                (seq![(defs[i].0@, s.take(n as int))] + ts, left)
            } else {
                (seq![], s.len())
            },
        }
    }
}

#[via_fn]
proof fn lex_stream_decreases(defs: Seq<(String, TokenDefinition)>, s: Seq<char>) {
    if let Some((i, n)) = first_def(defs, s, 0) {
        if 0 < n <= s.len() {
            let rest = s.skip(n as int);
            crate::text::lemma_lead_ws_bound(rest);
            crate::text::lemma_trail_ws_bound(crate::text::trim_start(rest));
        }
    }
}

/// Whether `toks` are the tokens `lexed`, all on line `line_nr`.
pub open spec fn tokens_are(toks: Seq<Token>, lexed: Seq<(Seq<char>, Seq<char>)>, line_nr: usize) -> bool {
    &&& toks.len() == lexed.len()
    &&& forall|i: int|
        0 <= i < toks.len() ==> (#[trigger] toks[i]).key@ == lexed[i].0 && toks[i].value@
            == lexed[i].1 && toks[i].line_nr == line_nr
}

proof fn lemma_first_def_bound(defs: Seq<(String, TokenDefinition)>, s: Seq<char>, k: int)
    ensures
        first_def(defs, s, k) matches Some((i, n)) ==> k <= i < defs.len() && n == def_consume(defs[i].1, s) && n > 0,
    decreases defs.len() - k,
{
    if 0 <= k < defs.len() && def_consume(defs[k].1, s) == 0 {
        lemma_first_def_bound(defs, s, k + 1);
    }
}

/// The first definition that consumes a non-empty prefix of `s`.
fn find_def(defs: &Vec<(String, TokenDefinition)>, s: &[char]) -> (r: Option<(usize, usize)>)
    ensures
        match first_def(defs@, s@, 0) {
            Some((i, n)) => r == Some((i as usize, n as usize)) && n <= s@.len() && 0 <= i < defs@.len()
                && n > 0,
            None => r is None,
        },
        r matches Some((i, n)) ==> first_def(defs@, s@, 0) == Some((i as int, n as nat)),
{
    proof {
        lemma_first_def_bound(defs@, s@, 0);
    }
    let mut k: usize = 0;
    while k < defs.len()
        invariant
            k <= defs@.len(),
            first_def(defs@, s@, 0) == first_def(defs@, s@, k as int),
        decreases defs@.len() - k,
    {
        let n = defs[k].1.consume(s);
        if n > 0 {
            return Some((k, n));
        }
        k = k + 1;
    }
    None
}

/// Lexes `stream`, found on line `line_nr`, with the definitions `tokens`.
/// Returns the tokens and the length of the unrecognized rest (0: none).
pub fn consume_tokens(line_nr: usize, stream: &[char], tokens: &Vec<(String, TokenDefinition)>) -> (r: (Vec<Token>, usize))
    ensures
        tokens_are(r.0@, lex_stream(tokens@, stream@).0, line_nr),
        r.1 == lex_stream(tokens@, stream@).1,
        r.1 <= stream@.len(),
{
    let mut found: Vec<Token> = Vec::new();
    let mut pos: usize = 0;
    let mut end: usize = stream.len();
    let ghost s = stream@;
    assert(s.subrange(0, s.len() as int) =~= s);
    loop
        invariant
            pos <= end <= s.len(),
            s == stream@,
            ({
                let (ts, left) = lex_stream(tokens@, s.subrange(pos as int, end as int));
                let (all, all_left) = lex_stream(tokens@, s);
                &&& all_left == left
                &&& all.len() == found@.len() + ts.len()
                &&& forall|i: int| 0 <= i < ts.len() ==> all[found@.len() + i] == #[trigger] ts[i]
                &&& tokens_are(found@, all.take(found@.len() as int), line_nr)
            }),
        decreases end - pos,
    {
        let ghost rest = s.subrange(pos as int, end as int);
        if pos == end {
            assert(rest.len() == 0);
            let ghost all = lex_stream(tokens@, s).0;
            assert(all.take(found@.len() as int) =~= all);
            return (found, 0);
        }
        let piece = &stream[pos..end];
        match find_def(tokens, piece) {
            None => {
                let ghost all = lex_stream(tokens@, s).0;
                assert(all.take(found@.len() as int) =~= all);
                return (found, end - pos);
            },
            Some((i, n)) => {
                let key = tokens[i].0.clone();
                let value = string_of(&stream[pos..pos + n]);
                let ghost old_found = found@;
                found.push(Token { key, value, line_nr });
                let (a, b) = trim_range(stream, pos + n, end);
                proof {
                    let after = rest.skip(n as int);
                    assert(after =~= s.subrange(pos + n, end as int));
                    let (all, all_left) = lex_stream(tokens@, s);
                    let (ts, left) = lex_stream(tokens@, rest);
                    let (ts2, left2) = lex_stream(tokens@, s.subrange(a as int, b as int));
                    assert(first_def(tokens@, rest, 0) == Some((i as int, n as nat)));
                    assert(lex_stream(tokens@, rest).0 == seq![(tokens@[i as int].0@, rest.take(n as int))]
                        + lex_stream(tokens@, s.subrange(a as int, b as int)).0);
                    assert(ts == seq![(tokens@[i as int].0@, rest.take(n as int))] + ts2);
                    assert(rest.take(n as int) =~= stream@.subrange(pos as int, pos + n));
                    assert forall|k: int| 0 <= k < ts2.len() implies all[found@.len() + k] == #[trigger] ts2[k] by {
                        assert(ts[k + 1] == ts2[k]);
                    }
                    assert(all[old_found.len() as int] == ts[0]);
                    assert forall|k: int| 0 <= k < found@.len() implies (#[trigger] found@[k]).key@
                        == all.take(found@.len() as int)[k].0 && found@[k].value@ == all.take(
                        found@.len() as int)[k].1 && found@[k].line_nr == line_nr by {
                        if k < old_found.len() {
                            assert(found@[k] == old_found[k]);
                            assert(all.take(old_found.len() as int)[k] == all.take(found@.len() as int)[k]);
                        }
                    }
                }
                pos = a;
                end = b;
            },
        }
    }
}

/// Tokens as (name, text, line) triples.
pub open spec fn token_triples(toks: Seq<Token>) -> Seq<(Seq<char>, Seq<char>, nat)> {
    toks.map_values(|t: Token| (t.key@, t.value@, t.line_nr as nat))
}

/// Lexing of the lines of `s` from index `from` on, the first of them being
/// line `line_nr`: each line is trimmed and lexed on its own. The result is
/// the (name, text, line) triples of all tokens, or the line and column of
/// the first input that no definition recognizes.
pub open spec fn lex_lines(defs: Seq<(String, TokenDefinition)>, s: Seq<char>, from: int, line_nr: nat)
    -> Result<Seq<(Seq<char>, Seq<char>, nat)>, (nat, nat)>
    decreases s.len() + 1 - from via lex_lines_decreases
{
    if from < 0 || from > s.len() {
        Ok(seq![])
    } else {
        let e = line_end(s, from);
        let line = s.subrange(from, e);
        let t = trim(line);
        let (ts, left) = lex_stream(defs, t);
        if left > 0 {
            Err((line_nr, (lead_ws(line) + t.len() - left) as nat))
        } else {
            let here = ts.map_values(|p: (Seq<char>, Seq<char>)| (p.0, p.1, line_nr));
            match lex_lines(defs, s, e + 1, line_nr + 1) {
                Ok(rest) => Ok(here + rest),
                Err(x) => Err(x),
            }
        }
    }
}

#[via_fn]
proof fn lex_lines_decreases(defs: Seq<(String, TokenDefinition)>, s: Seq<char>, from: int, line_nr: nat) {
    if 0 <= from <= s.len() {
        crate::text::lemma_line_end(s, from);
    }
}

/// Lexes `source` line by line with the token definitions of `rules`.
/// Fails at the first input that no definition recognizes.
pub fn lex(source: &str, rules: &AstRules) -> (r: Result<Vec<Token>, UnrecognizedInput>)
    ensures
        match r {
            Ok(v) => lex_lines(rules.tokens@, source@, 0, 0) == Ok::<_, (nat, nat)>(token_triples(v@)),
            Err(e) => lex_lines(rules.tokens@, source@, 0, 0) == Err::<Seq<(Seq<char>, Seq<char>, nat)>, _>(
                (e.line_nr as nat, e.column as nat)),
        },
{
    let chars = crate::text::chars_of(source);
    let ghost s = chars@;
    let mut found: Vec<Token> = Vec::new();
    let mut from: usize = 0;
    let mut line_nr: usize = 0;
    loop
        invariant
            from <= s.len(),
            line_nr <= from,
            s == chars@,
            s == source@,
            match lex_lines(rules.tokens@, s, from as int, line_nr as nat) {
                Ok(rest) => lex_lines(rules.tokens@, s, 0, 0) == Ok::<_, (nat, nat)>(token_triples(found@) + rest),
                Err(x) => lex_lines(rules.tokens@, s, 0, 0) == Err::<Seq<(Seq<char>, Seq<char>, nat)>, _>(x),
            },
        decreases s.len() - from,
    {
        let e = find_line_end(&chars, from);
        let (a, b) = trim_range(&chars, from, e);
        let piece = &chars[a..b];
        let (toks, left) = consume_tokens(line_nr, piece, &rules.tokens);
        let ghost line = s.subrange(from as int, e as int);
        proof {
            assert(piece@ =~= trim(line));
            crate::text::lemma_lead_ws_bound(line);
        }
        if left > 0 {
            return Err(UnrecognizedInput { line_nr, column: b - left - from });
        }
        let ghost before = found@;
        let mut toks = toks;
        found.append(&mut toks);
        proof {
            let (ts, _) = lex_stream(rules.tokens@, piece@);
            let here = ts.map_values(|p: (Seq<char>, Seq<char>)| (p.0, p.1, line_nr as nat));
            assert(token_triples(found@) =~= token_triples(before) + here);
        }
        if e == chars.len() {
            proof {
                assert(lex_lines(rules.tokens@, s, e + 1, line_nr as nat + 1) == Ok::<Seq<(Seq<char>, Seq<char>, nat)>, (nat, nat)>(seq![]));
                let (ts, _) = lex_stream(rules.tokens@, piece@);
                let here = ts.map_values(|p: (Seq<char>, Seq<char>)| (p.0, p.1, line_nr as nat));
                assert(here + seq![] =~= here);
            }
            return Ok(found);
        }
        proof {
            let (ts, _) = lex_stream(rules.tokens@, piece@);
            let here = ts.map_values(|p: (Seq<char>, Seq<char>)| (p.0, p.1, line_nr as nat));
            match lex_lines(rules.tokens@, s, e + 1, line_nr as nat + 1) {
                Ok(rest) => {
                    assert(token_triples(before) + (here + rest) =~= token_triples(found@) + rest);
                },
                Err(x) => {},
            }
        }
        from = e + 1;
        line_nr = line_nr + 1;
    }
}


/// Lexing is deterministic: any two results of lexing one stream with the
/// same definitions, on the same line, are the same tokens.
pub proof fn lemma_lex_deterministic(
    defs: Seq<(String, TokenDefinition)>,
    s: Seq<char>,
    line_nr: usize,
    a: Seq<Token>,
    b: Seq<Token>,
)
    requires
        tokens_are(a, lex_stream(defs, s).0, line_nr),
        tokens_are(b, lex_stream(defs, s).0, line_nr),
    ensures
        token_triples(a) == token_triples(b),
{
    assert(token_triples(a) =~= token_triples(b));
}

} // verus!
