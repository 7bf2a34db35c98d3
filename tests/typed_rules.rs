use seb_lang::parser_lang::{consume_inner, consume_rule, consume_token, consume_type, parse};
use seb_lang::parser_structs::{Kind, Sym, SymTree};
use seb_lang::ast_rules::ParseErr;

fn cs(s: &str) -> Vec<char> {
    s.chars().collect()
}

#[test]
fn array_type_compiles() {
    let (n, k) = consume_type(&cs("%[ $x %[,] ]")).ok().unwrap().unwrap();
    assert_eq!(n, 12);
    match k {
        Kind::Array(a) => {
            assert!(matches!(*a.kind, Kind::UnknownSym(ref s) if s == "x"));
            assert_eq!(a.separator, ",");
        }
        _ => panic!("expected an array"),
    }
}

#[test]
fn array_variable_in_rule() {
    let (name, syms) = consume_rule(&cs("list: $items(%[ $x %[,] ])")).ok().unwrap().unwrap();
    assert_eq!(name, "list");
    assert_eq!(syms.len(), 1);
    match &syms[0] {
        Sym::Var((n, Kind::Array(a))) => {
            assert_eq!(n, "items");
            assert_eq!(a.separator, ",");
            assert!(matches!(*a.kind, Kind::UnknownSym(ref s) if s == "x"));
        }
        _ => panic!("expected an array variable"),
    }
}

#[test]
fn typed_array_element_is_refused() {
    assert!(matches!(consume_type(&cs("%[ $x(%int) , ]")), Err(ParseErr::InvalidType(_))));
    assert!(matches!(consume_type(&cs("%[ x , ]")), Err(ParseErr::InvalidType(_))));
    assert!(parse("list: $items(%[ $x(%int) , ])").is_err());
}

#[test]
fn builtin_and_regex_types() {
    assert!(matches!(consume_type(&cs("%int")), Ok(Some((4, Kind::Int)))));
    assert!(matches!(consume_type(&cs("%float")), Err(ParseErr::InvalidType(_))));
    match consume_type(&cs(r"!\d+")) {
        Ok(Some((4, Kind::Reg(t)))) => assert_eq!(t.characters().iter().collect::<String>(), r"\d+"),
        _ => panic!("expected a regex kind"),
    }
    assert!(matches!(consume_type(&cs("!(")), Err(ParseErr::InvalidType(_))));
    assert!(matches!(consume_type(&cs("plain")), Ok(None)));
}

#[test]
fn bare_word_separator() {
    match consume_type(&cs("%[$x ;]")).ok().unwrap() {
        Some((_, Kind::Array(a))) => assert_eq!(a.separator, ";"),
        _ => panic!("expected an array"),
    }
}

#[test]
fn nested_brackets() {
    assert_eq!(consume_inner(&cs("(a(b)c)d"), '(', ')'), Some(6));
    assert_eq!(consume_inner(&cs("(a(b)c"), '(', ')'), None);
    assert_eq!(consume_inner(&cs("x(a)"), '(', ')'), None);
}

#[test]
fn plain_reference() {
    match consume_token(&cs("  word rest")) {
        Some((6, Sym::Token(w))) => assert_eq!(w, "word"),
        _ => panic!("expected a token"),
    }
    assert!(consume_token(&cs("$v")).is_none());
    assert!(consume_token(&cs("   ")).is_none());
}

#[test]
fn untyped_variable_defers() {
    let (_, syms) = consume_rule(&cs("r: $thing other")).ok().unwrap().unwrap();
    assert_eq!(syms.len(), 2);
    assert!(matches!(&syms[0], Sym::Var((n, Kind::UnknownSym(k))) if n == "thing" && k == "thing"));
    assert!(matches!(&syms[1], Sym::Token(t) if t == "other"));
}

#[test]
fn non_rule_lines_are_skipped() {
    assert!(consume_rule(&cs("Not a rule")).ok().unwrap().is_none());
    let map = parse("# comment\nexpr: a b\nexpr: a c\nexpr: a b\nterm: $n(%int)").ok().unwrap();
    assert_eq!(map.len(), 2);
    assert_eq!(map[0].0, "expr");
    let expr = &map[0].1;
    assert_eq!(expr.children.len(), 1);
    assert_eq!(expr.children[0].children.len(), 2);
}

#[test]
fn regex_kind_is_copied_into_tree() {
    let map = parse(r"num: $v(!\d+)").ok().unwrap();
    match &map[0].1.children[0].sym {
        Sym::Var((n, Kind::Reg(t))) => {
            assert_eq!(n, "v");
            assert_eq!(t.characters().iter().collect::<String>(), r"\d+");
            assert_eq!(t.consume(&cs("12a")), 2);
        }
        _ => panic!("expected a regex variable"),
    }
}

#[test]
fn adding_a_path_twice_changes_nothing() {
    let (_, syms) = consume_rule(&cs("r: a $x(%int) b")).ok().unwrap().unwrap();
    let mut t = SymTree::new();
    t.add_path(&syms);
    t.add_path(&syms);
    assert_eq!(t.children.len(), 1);
    assert_eq!(t.children[0].children.len(), 1);
    assert_eq!(t.children[0].children[0].children.len(), 1);
    assert!(t.children[0].children[0].children[0].children.is_empty());
}

#[test]
fn new_children_go_last() {
    let (_, first) = consume_rule(&cs("r: b x")).ok().unwrap().unwrap();
    let (_, second) = consume_rule(&cs("r: a y")).ok().unwrap().unwrap();
    let (_, third) = consume_rule(&cs("r: b z")).ok().unwrap().unwrap();
    let mut t = SymTree::new();
    t.add_path(&first);
    t.add_path(&second);
    t.add_path(&third);
    assert_eq!(t.children.len(), 2);
    assert!(matches!(&t.children[0].sym, Sym::Token(s) if s == "b"));
    assert!(matches!(&t.children[1].sym, Sym::Token(s) if s == "a"));
    assert!(matches!(&t.children[0].children[1].sym, Sym::Token(s) if s == "z"));
}
