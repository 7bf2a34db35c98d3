//! Priority-ordered recursive matching of tokens against rule tries.

use vstd::prelude::*;
use crate::ast_lexer::Token;
use crate::ast_rules::{
    compiled_from, has_node, lemma_find_unique, rule_name, rule_syms, token_end, trie_facts, line_has,
    child_pos, find_child, has_alt, lemma_find_from, wf_node, is_token_def, is_token_name, AstRules, RuleNode, TokenDefinition,
};

verus! {

/// How deep nonterminal references may nest in one match; deeper expansions
/// fail, so that self-referential grammars cannot recurse without end.
pub const MAX_DEPTH: usize = 256;

/// Matching of `toks` from index `pos` against the trie under `node`, with
/// `depth` nonterminal expansions left: whether it matched, and the index
/// reached.
pub open spec fn match_node(
    defs: Seq<(String, TokenDefinition)>,
    rules: Seq<(String, RuleNode)>,
    toks: Seq<Token>,
    pos: int,
    node: RuleNode,
    depth: nat,
) -> (bool, int)
    decreases depth, node, 1nat, 0int,
{
    match_children(defs, rules, toks, pos, node, 0, depth)
}

/// Matching from the `i`-th child of `node` on. Children are tried in order.
/// A child named by a token definition that the next token has commits the
/// match to that child (a failure there fails the whole match, at `pos`). A child naming a nonterminal expands it (one level
/// of depth); when the expansion and then the child's own subtree match,
/// that is the result, else the next child is tried. When no child
/// matches, the match ends here if `node` is terminal, else it fails.
pub open spec fn match_children(
    defs: Seq<(String, TokenDefinition)>,
    rules: Seq<(String, RuleNode)>,
    toks: Seq<Token>,
    pos: int,
    node: RuleNode,
    i: int,
    depth: nat,
) -> (bool, int)
    decreases depth, node, 0nat, node.children@.len() - i,
{
    if i < 0 || i >= node.children@.len() {
        (node.terminal, pos)
    } else {
        let name = node.children@[i].0@;
        let child = node.children@[i].1;
        if is_token_name(defs, name) {
            if 0 <= pos < toks.len() && toks[pos].key@ == name {
                let (ok, p) = match_node(defs, rules, toks, pos + 1, child, depth);
                if ok {
                    (true, p)
                } else {
                    (false, pos)
                }
            } else {
                match_children(defs, rules, toks, pos, node, i + 1, depth)
            }
        } else if depth > 0 && find_child(rules, name) is Some && 0 <= find_child(rules, name)->0 < rules.len() {
            let sub = rules[find_child(rules, name)->0].1;
            let (ok, p) = match_node(defs, rules, toks, pos, sub, (depth - 1) as nat);
            if ok {
                let (ok2, end2) = match_node(defs, rules, toks, p, child, depth);
                if ok2 {
                    (true, end2)
                } else {
                    match_children(defs, rules, toks, pos, node, i + 1, depth)
                }
            } else {
                match_children(defs, rules, toks, pos, node, i + 1, depth)
            }
        } else {
            match_children(defs, rules, toks, pos, node, i + 1, depth)
        }
    }
}

/// Matches `tokens` from index `pos` against the trie under `node`.
pub fn parse_node(tokens: &[Token], pos: usize, node: &RuleNode, ast: &AstRules, depth: usize) -> (r: (bool, usize))
    requires
        pos <= tokens@.len(),
    ensures
        r.0 == match_node(ast.tokens@, ast.rules@, tokens@, pos as int, *node, depth as nat).0,
        r.1 == match_node(ast.tokens@, ast.rules@, tokens@, pos as int, *node, depth as nat).1,
        r.1 <= tokens@.len(),
        !r.0 ==> r.1 == pos,
    decreases depth, node, 1nat, 0int,
{
    let mut i: usize = 0;
    while i < node.children.len()
        invariant
            pos <= tokens@.len(),
            i <= node.children@.len(),
            match_node(ast.tokens@, ast.rules@, tokens@, pos as int, *node, depth as nat)
                == match_children(ast.tokens@, ast.rules@, tokens@, pos as int, *node, i as int, depth as nat),
        decreases node.children@.len() - i,
    {
        let name = &node.children[i].0;
        let child = &node.children[i].1;
        if is_token_def(&ast.tokens, name) {
            if pos < tokens.len() && tokens[pos].key == *name {
                let (ok, p) = parse_node(tokens, pos + 1, child, ast, depth);
                if ok {
                    return (true, p);
                } else {
                    return (false, pos);
                }
            }
        } else if depth > 0 {
            proof {
                lemma_find_from(ast.rules@, name@, 0);
            }
            if let Some(k) = child_pos(&ast.rules, name) {
                let (ok, p) = parse_node(tokens, pos, &ast.rules[k].1, ast, depth - 1);
                if ok {
                    let (ok2, end2) = parse_node(tokens, p, child, ast, depth);
                    if ok2 {
                        return (true, end2);
                    }
                }
            }
        }
        i = i + 1;
    }
    (node.terminal, pos)
}

/// Outcome of matching tokens against a grammar: whether the root
/// nonterminal matched, and how many tokens it consumed.
pub struct ParseOutcome {
    pub matched: bool,
    pub consumed: usize,
}

/// Matching of `toks` against the root nonterminal of a grammar with
/// nonterminals `rules` and root `root`: fails when the root has no trie.
pub open spec fn match_root(
    defs: Seq<(String, TokenDefinition)>,
    rules: Seq<(String, RuleNode)>,
    root: Seq<char>,
    toks: Seq<Token>,
) -> (bool, int) {
    match find_child(rules, root) {
        Some(k) => if 0 <= k < rules.len() {
            match_node(defs, rules, toks, 0, rules[k].1, MAX_DEPTH as nat)
        } else {
            (false, 0)
        },
        None => (false, 0),
    }
}

/// Matches `tokens` against the root nonterminal of `ast`. Tokens left over
/// after a successful match are not an error: `consumed` tells how many
/// were used. A failed match consumes nothing (`consumed` is 0).
pub fn parse(tokens: &[Token], ast: &AstRules) -> (r: ParseOutcome)
    ensures
        !r.matched ==> r.consumed == 0,
        r.matched == match_root(ast.tokens@, ast.rules@, ast.root_rule@, tokens@).0,
        r.consumed == match_root(ast.tokens@, ast.rules@, ast.root_rule@, tokens@).1,
{
    proof {
        lemma_find_from(ast.rules@, ast.root_rule@, 0);
    }
    match child_pos(&ast.rules, &ast.root_rule) {
        Some(k) => {
            let (matched, consumed) = parse_node(tokens, 0, &ast.rules[k].1, ast, MAX_DEPTH);
            ParseOutcome { matched, consumed }
        },
        None => ParseOutcome { matched: false, consumed: 0 },
    }
}


/// Whether every symbol in the trie under `node` names a token definition.
pub open spec fn all_tokens(defs: Seq<(String, TokenDefinition)>, node: RuleNode) -> bool
    decreases node,
{
    forall|i: int|
        0 <= i < node.children@.len() ==> is_token_name(defs, (#[trigger] node.children@[i]).0@)
            && all_tokens(defs, node.children@[i].1)
}

/// Whether the tokens of `toks` from `pos` on have the names `path`, and
/// then there are no more.
pub open spec fn keys_are(toks: Seq<Token>, pos: int, path: Seq<Seq<char>>) -> bool {
    &&& 0 <= pos
    &&& toks.len() == pos + path.len()
    &&& forall|k: int| 0 <= k < path.len() ==> (#[trigger] toks[pos + k]).key@ == path[k]
}

proof fn lemma_no_token_left(
    defs: Seq<(String, TokenDefinition)>,
    rules: Seq<(String, RuleNode)>,
    toks: Seq<Token>,
    pos: int,
    node: RuleNode,
    i: int,
    depth: nat,
)
    requires
        all_tokens(defs, node),
        pos == toks.len(),
        0 <= i,
    ensures
        match_children(defs, rules, toks, pos, node, i, depth) == (node.terminal, pos),
    decreases node.children@.len() - i,
{
    if i < node.children@.len() {
        lemma_no_token_left(defs, rules, toks, pos, node, i + 1, depth);
    }
}

proof fn lemma_skip_to(
    defs: Seq<(String, TokenDefinition)>,
    rules: Seq<(String, RuleNode)>,
    toks: Seq<Token>,
    pos: int,
    node: RuleNode,
    i: int,
    t: int,
    depth: nat,
)
    requires
        all_tokens(defs, node),
        0 <= i <= t < node.children@.len(),
        0 <= pos < toks.len(),
        forall|j: int| i <= j < t ==> (#[trigger] node.children@[j]).0@ != toks[pos].key@,
    ensures
        match_children(defs, rules, toks, pos, node, i, depth) == match_children(defs, rules, toks, pos, node, t, depth),
    decreases t - i,
{
    if i < t {
        lemma_skip_to(defs, rules, toks, pos, node, i + 1, t, depth);
    }
}

/// An alternative stored in a trie of token symbols matches exactly the
/// tokens that carry its symbols, and consumes all of them.
pub proof fn lemma_alternative_matches(
    defs: Seq<(String, TokenDefinition)>,
    rules: Seq<(String, RuleNode)>,
    toks: Seq<Token>,
    pos: int,
    node: RuleNode,
    path: Seq<Seq<char>>,
    depth: nat,
    max: nat,
)
    requires
        wf_node(node, max),
        all_tokens(defs, node),
        has_alt(node, path),
        keys_are(toks, pos, path),
    ensures
        match_node(defs, rules, toks, pos, node, depth) == (true, toks.len() as int),
    decreases path.len(),
{
    if path.len() == 0 {
        lemma_no_token_left(defs, rules, toks, pos, node, 0, depth);
    } else {
        lemma_find_from(node.children@, path[0], 0);
        let i = find_child(node.children@, path[0])->0;
        assert(toks[pos + 0].key@ == path[0]);
        assert forall|j: int| 0 <= j < i implies (#[trigger] node.children@[j]).0@ != toks[pos].key@ by {}
        lemma_skip_to(defs, rules, toks, pos, node, 0, i, depth);
        let rest = path.drop_first();
        assert forall|k: int| 0 <= k < rest.len() implies (#[trigger] toks[pos + 1 + k]).key@ == rest[k] by {
            assert(toks[pos + (k + 1)].key@ == path[k + 1]);
        }
        lemma_alternative_matches(defs, rules, toks, pos + 1, node.children@[i].1, rest, depth, max);
    }
}

/// What trying the `i`-th child of `node` decides: `None` when the match
/// moves on to the next child, else the outcome.
pub open spec fn attempt(
    defs: Seq<(String, TokenDefinition)>,
    rules: Seq<(String, RuleNode)>,
    toks: Seq<Token>,
    pos: int,
    node: RuleNode,
    i: int,
    depth: nat,
) -> Option<(bool, int)> {
    let name = node.children@[i].0@;
    let child = node.children@[i].1;
    if is_token_name(defs, name) {
        if 0 <= pos < toks.len() && toks[pos].key@ == name {
            let (ok, p) = match_node(defs, rules, toks, pos + 1, child, depth);
            Some(if ok { (true, p) } else { (false, pos) })
        } else {
            None
        }
    } else if depth > 0 && find_child(rules, name) is Some && 0 <= find_child(rules, name)->0 < rules.len() {
        let (ok, p) = match_node(defs, rules, toks, pos, rules[find_child(rules, name)->0].1, (depth - 1) as nat);
        if ok && match_node(defs, rules, toks, p, child, depth).0 {
            Some(match_node(defs, rules, toks, p, child, depth))
        } else {
            None
        }
    } else {
        None
    }
}

/// Ordered choice: children are tried by ascending priority, so when the
/// children before the `i`-th (those declared earlier) do not decide and the
/// `i`-th does, its outcome is the outcome of the match, whatever later
/// alternatives would give.
pub proof fn lemma_ordered_choice(
    defs: Seq<(String, TokenDefinition)>,
    rules: Seq<(String, RuleNode)>,
    toks: Seq<Token>,
    pos: int,
    node: RuleNode,
    i: int,
    depth: nat,
    max: nat,
)
    requires
        wf_node(node, max),
        0 <= i < node.children@.len(),
        forall|j: int| 0 <= j < i ==> #[trigger] attempt(defs, rules, toks, pos, node, j, depth) is None,
        attempt(defs, rules, toks, pos, node, i, depth) is Some,
    ensures
        forall|j: int| i < j < node.children@.len() ==> node.children@[i].1.priority <= (
            #[trigger] node.children@[j]).1.priority,
        match_node(defs, rules, toks, pos, node, depth) == attempt(defs, rules, toks, pos, node, i, depth)->0,
{
    lemma_attempts(defs, rules, toks, pos, node, 0, i, depth);
}

proof fn lemma_attempts(
    defs: Seq<(String, TokenDefinition)>,
    rules: Seq<(String, RuleNode)>,
    toks: Seq<Token>,
    pos: int,
    node: RuleNode,
    k: int,
    i: int,
    depth: nat,
)
    requires
        0 <= k <= i < node.children@.len(),
        forall|j: int| k <= j < i ==> #[trigger] attempt(defs, rules, toks, pos, node, j, depth) is None,
        attempt(defs, rules, toks, pos, node, i, depth) is Some,
    ensures
        match_children(defs, rules, toks, pos, node, k, depth) == attempt(defs, rules, toks, pos, node, i, depth)->0,
    decreases i - k,
{
    if k < i {
        assert(attempt(defs, rules, toks, pos, node, k, depth) is None);
        lemma_attempts(defs, rules, toks, pos, node, k + 1, i, depth);
    }
}


proof fn lemma_all_tokens(defs: Seq<(String, TokenDefinition)>, node: RuleNode, max: nat)
    requires
        wf_node(node, max),
        forall|p: Seq<Seq<char>>| p.len() > 0 && #[trigger] has_node(node, p) ==> is_token_name(defs, p.last()),
    ensures
        all_tokens(defs, node),
    decreases node,
{
    assert forall|i: int| 0 <= i < node.children@.len() implies is_token_name(defs, (#[trigger] node.children@[i]).0@)
        && all_tokens(defs, node.children@[i].1) by {
        let name = node.children@[i].0@;
        let child = node.children@[i].1;
        lemma_find_unique(node.children@, name, i);
        assert forall|q: Seq<Seq<char>>| #[trigger] has_node(child, q) implies has_node(node, seq![name] + q) by {
            assert((seq![name] + q).drop_first() =~= q);
        }
        assert(has_node(node, seq![name])) by {
            assert(has_node(child, Seq::<Seq<char>>::empty()));
            assert(seq![name] + Seq::<Seq<char>>::empty() =~= seq![name]);
        }
        assert forall|q: Seq<Seq<char>>| q.len() > 0 && #[trigger] has_node(child, q) implies is_token_name(
            defs, q.last()) by {
            assert(has_node(node, seq![name] + q));
            assert((seq![name] + q).last() == q.last());
        }
        lemma_all_tokens(defs, child, max);
    }
}

/// Terminal correctness of a compiled grammar: when every symbol of a
/// nonterminal's rule lines names a token, the tokens that carry the symbols
/// of one of those lines, in order, match that nonterminal and are all
/// consumed.
pub proof fn lemma_compiled_alternative_matches(
    a: AstRules,
    lines: Seq<Seq<char>>,
    i: int,
    j: int,
    toks: Seq<Token>,
    depth: nat,
)
    requires
        compiled_from(a, lines),
        0 <= i < a.rules@.len(),
        token_end(lines, 0) <= j < lines.len(),
        rule_name(lines, j) == a.rules@[i].0@,
        forall|k: int, s: int|
            token_end(lines, 0) <= k < lines.len() && rule_name(lines, k) == a.rules@[i].0@ && 0 <= s < rule_syms(
                lines,
                k,
            ).len() ==> is_token_name(a.tokens@, #[trigger] rule_syms(lines, k)[s]),
        keys_are(toks, 0, rule_syms(lines, j)),
    ensures
        match_node(a.tokens@, a.rules@, toks, 0, a.rules@[i].1, depth) == (true, toks.len() as int),
{
    let m = token_end(lines, 0);
    let n = lines.len() as int;
    let name = a.rules@[i].0@;
    let t = a.rules@[i].1;
    assert(trie_facts(t, lines, m, n, name));
    assert(wf_node(t, u32::MAX as nat));
    assert forall|p: Seq<Seq<char>>| p.len() > 0 && #[trigger] has_node(t, p) implies is_token_name(a.tokens@, p.last()) by {
        let k = choose|k: int| m <= k < n && line_has(lines, k, name, p);
        let syms = rule_syms(lines, k);
        assert(p.last() == syms[p.len() - 1]);
    }
    lemma_all_tokens(a.tokens@, t, u32::MAX as nat);
    assert(has_alt(t, rule_syms(lines, j)));
    lemma_alternative_matches(a.tokens@, a.rules@, toks, 0, t, rule_syms(lines, j), depth, u32::MAX as nat);
}


proof fn lemma_attempt_none(
    defs: Seq<(String, TokenDefinition)>,
    rules: Seq<(String, RuleNode)>,
    toks: Seq<Token>,
    pos: int,
    node: RuleNode,
    i: int,
    depth: nat,
)
    requires
        0 <= i < node.children@.len(),
        attempt(defs, rules, toks, pos, node, i, depth) is None,
    ensures
        match_children(defs, rules, toks, pos, node, i, depth) == match_children(defs, rules, toks, pos, node, i + 1, depth),
{
}

/// Ordered choice between alternatives: `first` is the trie of a
/// nonterminal (its root no end of an alternative) cut down to its first,
/// earliest-declared child. Whenever that child alone matches, the whole
/// trie gives exactly its outcome, whatever the later children would give.
pub proof fn lemma_earlier_alternative_selected(
    defs: Seq<(String, TokenDefinition)>,
    rules: Seq<(String, RuleNode)>,
    toks: Seq<Token>,
    pos: int,
    node: RuleNode,
    first: RuleNode,
    depth: nat,
)
    requires
        node.children@.len() >= 1,
        !node.terminal,
        !first.terminal,
        first.children@ == seq![node.children@[0]],
        match_node(defs, rules, toks, pos, first, depth).0,
    ensures
        match_node(defs, rules, toks, pos, node, depth) == match_node(defs, rules, toks, pos, first, depth),
{
    assert(attempt(defs, rules, toks, pos, first, 0, depth) == attempt(defs, rules, toks, pos, node, 0, depth));
    if attempt(defs, rules, toks, pos, first, 0, depth) is None {
        lemma_attempt_none(defs, rules, toks, pos, first, 0, depth);
        assert(!match_node(defs, rules, toks, pos, first, depth).0);
    } else {
        lemma_attempts(defs, rules, toks, pos, node, 0, 0, depth);
        lemma_attempts(defs, rules, toks, pos, first, 0, 0, depth);
    }
}


/// Ordered choice in a compiled grammar: for the trie of any nonterminal,
/// and that trie cut down to its first (earliest-declared) child, whenever
/// the cut-down trie matches, the whole trie gives its outcome. (A compiled
/// trie's root ends no alternative, since rule lines are never empty.)
pub proof fn lemma_compiled_earlier_alternative(
    a: AstRules,
    lines: Seq<Seq<char>>,
    i: int,
    first: RuleNode,
    toks: Seq<Token>,
    pos: int,
    depth: nat,
)
    requires
        compiled_from(a, lines),
        0 <= i < a.rules@.len(),
        a.rules@[i].1.children@.len() >= 1,
        !first.terminal,
        first.children@ == seq![a.rules@[i].1.children@[0]],
        match_node(a.tokens@, a.rules@, toks, pos, first, depth).0,
    ensures
        match_node(a.tokens@, a.rules@, toks, pos, a.rules@[i].1, depth) == match_node(
            a.tokens@,
            a.rules@,
            toks,
            pos,
            first,
            depth,
        ),
{
    assert(!a.rules@[i].1.terminal);
    lemma_earlier_alternative_selected(a.tokens@, a.rules@, toks, pos, a.rules@[i].1, first, depth);
}

} // verus!
