use seb_lang::ast_lexer::{consume_tokens, lex};
use seb_lang::ast_parser::parse;
use seb_lang::ast_rules::{add_rule, AstRules, ExactToken, ParseErr, RegToken, RuleNode, TokenDefinition};

fn cs(s: &str) -> Vec<char> {
    s.chars().collect()
}

fn node_count(n: &RuleNode) -> usize {
    1 + n.children.iter().map(|(_, c)| node_count(c)).sum::<usize>()
}

fn compile(src: &str) -> AstRules {
    match AstRules::parse(src) {
        Ok(a) => a,
        Err(e) => panic!("grammar refused: {}", e.message()),
    }
}

#[test]
fn exact_token_matches_whole_literal_only() {
    let t = ExactToken::new(&cs("ab"));
    assert_eq!(t.consume(&cs("abc")), 2);
    assert_eq!(t.consume(&cs("ab")), 2);
    assert_eq!(t.consume(&cs("a")), 0);
    assert_eq!(t.consume(&cs("acb")), 0);
    assert_eq!(t.consume(&cs("")), 0);
}

#[test]
fn regex_token_matches_only_at_start() {
    let t = RegToken::new(&cs(r"\d+")).ok().unwrap();
    assert_eq!(t.consume(&cs("42x")), 2);
    assert_eq!(t.consume(&cs("x42")), 0);
    assert_eq!(t.consume(&cs("")), 0);
    assert_eq!(t.characters().iter().collect::<String>(), r"\d+");
}

#[test]
fn regex_token_refuses_bad_pattern() {
    assert!(RegToken::new(&cs("(")).is_err());
}

#[test]
fn definition_consume_dispatches() {
    let e = TokenDefinition::Exact(ExactToken::new(&cs("if")));
    let r = TokenDefinition::Reg(RegToken::new(&cs("[a-z]+")).ok().unwrap());
    assert_eq!(e.consume(&cs("if x")), 2);
    assert_eq!(r.consume(&cs("abc1")), 3);
}

#[test]
fn greeting_end_to_end() {
    let g = compile("#greeting hello\n*root: greeting\n");
    let toks = lex("hello", &g).ok().unwrap();
    assert_eq!(toks.len(), 1);
    assert_eq!(toks[0].key, "greeting");
    assert_eq!(toks[0].value, "hello");
    assert_eq!(toks[0].line_nr, 0);
    let out = parse(&toks, &g);
    assert!(out.matched);
    assert_eq!(out.consumed, 1);
}

#[test]
fn number_end_to_end() {
    let g = compile("#num !\\d+\n*root: num");
    let toks = lex("42", &g).ok().unwrap();
    assert_eq!(toks.len(), 1);
    assert_eq!(toks[0].key, "num");
    assert_eq!(toks[0].value, "42");
    assert!(parse(&toks, &g).matched);
}

#[test]
fn regex_marker_on_name() {
    let g = compile("#!word [a-z]+\n*root: word");
    let toks = lex("  abc  ", &g).ok().unwrap();
    assert_eq!(toks.len(), 1);
    assert_eq!(toks[0].value, "abc");
}

#[test]
fn lexing_is_deterministic() {
    let g = compile("#plus +\n#num !\\d+\n*root: num plus num");
    let a = lex("1 + 22\n3", &g).ok().unwrap();
    let b = lex("1 + 22\n3", &g).ok().unwrap();
    assert_eq!(a.len(), 4);
    assert_eq!(a.len(), b.len());
    for (x, y) in a.iter().zip(b.iter()) {
        assert_eq!(x.key, y.key);
        assert_eq!(x.value, y.value);
        assert_eq!(x.line_nr, y.line_nr);
    }
    assert_eq!(a[2].value, "22");
    assert_eq!(a[3].line_nr, 1);
}

#[test]
fn declaration_order_breaks_ties() {
    let g = compile("#kw if\n#id ![a-z]+\n*root: id");
    let toks = lex("if", &g).ok().unwrap();
    assert_eq!(toks[0].key, "kw");
    let g2 = compile("#id ![a-z]+\n#kw if\n*root: id");
    let toks2 = lex("if", &g2).ok().unwrap();
    assert_eq!(toks2[0].key, "id");
}

#[test]
fn consume_tokens_reports_unrecognized_rest() {
    let g = compile("#a a\n*root: a");
    let (toks, left) = consume_tokens(3, &cs("a a ?b"), &g.tokens);
    assert_eq!(toks.len(), 2);
    assert_eq!(toks[1].line_nr, 3);
    assert_eq!(left, 2);
}

#[test]
fn lex_fails_on_unrecognized_input() {
    let g = compile("#a a\n*root: a");
    match lex("a\n a ?", &g) {
        Err(e) => {
            assert_eq!(e.line_nr, 1);
            assert_eq!(e.column, 3);
        }
        Ok(_) => panic!("expected an error"),
    }
}

#[test]
fn empty_line_gives_no_tokens() {
    let g = compile("#a a\n*root: a");
    assert_eq!(lex("", &g).ok().unwrap().len(), 0);
    assert_eq!(lex("\n   \n", &g).ok().unwrap().len(), 0);
}

#[test]
fn inserting_twice_adds_no_node() {
    let mut root = RuleNode::new(0);
    let path = vec!["a".to_string(), "b".to_string()];
    assert!(!add_rule(1, &mut root, &path));
    let after_one = node_count(&root);
    assert_eq!(after_one, 3);
    add_rule(2, &mut root, &path);
    assert_eq!(node_count(&root), after_one);
    assert!(root.children[0].1.children[0].1.terminal);
    assert_eq!(root.children[0].1.priority, 1);
}

#[test]
fn shared_prefix_keeps_first_priority() {
    let mut root = RuleNode::new(0);
    add_rule(1, &mut root, &vec!["a".to_string(), "b".to_string()]);
    add_rule(2, &mut root, &vec!["a".to_string(), "c".to_string()]);
    add_rule(3, &mut root, &vec!["a".to_string()]);
    assert_eq!(root.children.len(), 1);
    let a = &root.children[0].1;
    assert_eq!(a.priority, 1);
    assert!(a.terminal);
    assert_eq!(a.children.len(), 2);
    assert_eq!(a.children[0].1.priority, 1);
    assert_eq!(a.children[1].1.priority, 2);
    assert!(add_rule(4, &mut root, &vec![]));
}

#[test]
fn inserted_alternatives_match_fully() {
    let g = compile("#a a\n#b b\n#c c\n*root: a b c\nroot: a b\nroot: c");
    for input in ["a b c", "a b", "c"] {
        let toks = lex(input, &g).ok().unwrap();
        let out = parse(&toks, &g);
        assert!(out.matched, "{}", input);
        assert_eq!(out.consumed, toks.len(), "{}", input);
    }
    let toks = lex("b", &g).ok().unwrap();
    assert!(!parse(&toks, &g).matched);
}

#[test]
fn earlier_alternative_wins() {
    let g = compile("#a a\n#b b\nx: a\n*root: x b\nroot: a");
    let toks = lex("a b", &g).ok().unwrap();
    let out = parse(&toks, &g);
    assert!(out.matched);
    assert_eq!(out.consumed, 2);
    let g2 = compile("#a a\n#b b\nx: a\n*root: a\nroot: x b");
    let out2 = parse(&toks, &g2);
    assert!(out2.matched);
    assert_eq!(out2.consumed, 1);
}

#[test]
fn token_match_commits_to_its_branch() {
    let g = compile("#a a\n#b b\n#c c\nx: a c\n*root: a b\nroot: x");
    let toks = lex("a c", &g).ok().unwrap();
    assert!(!parse(&toks, &g).matched);
    let g1 = compile("#a a\n#b b\n#c c\n*r: a b");
    let out = parse(&toks, &g1);
    assert!(!out.matched);
    assert_eq!(out.consumed, 0);
    let g2 = compile("#a a\n#b b\n#c c\nx: a c\n*root: x\nroot: a b");
    assert!(parse(&toks, &g2).matched);
}

#[test]
fn trailing_tokens_are_left_over() {
    let g = compile("#a a\n*root: a");
    let toks = lex("a a", &g).ok().unwrap();
    let out = parse(&toks, &g);
    assert!(out.matched);
    assert_eq!(out.consumed, 1);
}

#[test]
fn self_reference_terminates() {
    let g = compile("#a a\n*root: root a\nroot: a");
    let toks = lex("a a", &g).ok().unwrap();
    let out = parse(&toks, &g);
    assert!(out.matched);
    assert_eq!(out.consumed, 1);
}

#[test]
fn missing_root_is_refused() {
    assert!(matches!(AstRules::parse("#a a\nroot: a"), Err(ParseErr::NoRoot)));
}

#[test]
fn last_root_wins() {
    let g = compile("#a a\n*one: a\n*two: a a");
    assert_eq!(g.root_rule, "two");
}

#[test]
fn bad_token_line_is_refused() {
    match AstRules::parse("#name\n*root: name") {
        Err(ParseErr::InvalidTokenDef(s)) => assert_eq!(s, "name"),
        _ => panic!("expected InvalidTokenDef"),
    }
}

#[test]
fn bad_regex_is_refused() {
    assert!(matches!(AstRules::parse("#!p (\n*root: p"), Err(ParseErr::TokenInvalidReg(_))));
}

#[test]
fn bad_rule_line_is_refused() {
    match AstRules::parse("#a a\nroot a") {
        Err(ParseErr::InvalidRuleDef(s)) => assert_eq!(s, "root a"),
        _ => panic!("expected InvalidRuleDef"),
    }
    assert!(matches!(AstRules::parse("#a a\n*root:"), Err(ParseErr::InvalidRuleDef(_))));
}

#[test]
fn undefined_name_is_refused() {
    match AstRules::parse("#a a\n*root: a missing") {
        Err(ParseErr::UndefinedName(s)) => assert_eq!(s, "missing"),
        _ => panic!("expected UndefinedName"),
    }
}

#[test]
fn compiled_grammar_shape() {
    let g = compile("#a a\n\n  #b b  \n*root: a b\nroot: a\nother: b");
    assert_eq!(g.tokens.len(), 2);
    assert_eq!(g.tokens[1].0, "b");
    assert_eq!(g.rules.len(), 2);
    assert_eq!(g.rules[0].0, "root");
    assert!(!g.rules[0].1.terminal);
    assert_eq!(g.rules[0].1.children.len(), 1);
}

#[test]
fn compiled_priorities_count_declarations() {
    let g = compile("#greeting hello\n*root: greeting");
    let root = &g.rules[0].1;
    assert_eq!(root.priority, 0);
    assert_eq!(root.children.len(), 1);
    assert_eq!(root.children[0].0, "greeting");
    assert_eq!(root.children[0].1.priority, 1);
    assert!(root.children[0].1.terminal);
    assert!(root.children[0].1.children.is_empty());
    let g2 = compile("#a a\n#b b\n*r: a b\nother: a\nr: a\nr: b");
    let r = &g2.rules[0].1;
    assert_eq!(r.children.len(), 2);
    assert_eq!(r.children[0].1.priority, 1);
    assert_eq!(r.children[0].1.children[0].1.priority, 1);
    assert!(r.children[0].1.terminal);
    assert_eq!(r.children[1].0, "b");
    assert_eq!(r.children[1].1.priority, 3);
}

#[test]
fn second_insert_keeps_priorities() {
    let mut root = RuleNode::new(0);
    let path = vec!["a".to_string(), "b".to_string()];
    add_rule(1, &mut root, &path);
    add_rule(5, &mut root, &path);
    assert_eq!(root.children[0].1.priority, 1);
    assert_eq!(root.children[0].1.children[0].1.priority, 1);
    assert_eq!(node_count(&root), 3);
}

#[test]
fn rest_is_trimmed_on_both_sides() {
    let defs = vec![
        ("A".to_string(), TokenDefinition::Exact(ExactToken::new(&cs("a")))),
        ("B".to_string(), TokenDefinition::Exact(ExactToken::new(&cs("b ")))),
    ];
    let (toks, left) = consume_tokens(0, &cs("a b "), &defs);
    assert_eq!(toks.len(), 1);
    assert_eq!(toks[0].key, "A");
    assert_eq!(left, 1);
}

#[test]
fn unicode_whitespace_separates_and_trims() {
    let g = compile("\u{a0}#a a\u{3000}\n*root: a\u{2003}a");
    let toks = lex("\u{a0}a\u{3000}a\u{85}", &g).ok().unwrap();
    assert_eq!(toks.len(), 2);
    assert_eq!(toks[1].value, "a");
    let out = parse(&toks, &g);
    assert!(out.matched);
    assert_eq!(out.consumed, 2);
}
