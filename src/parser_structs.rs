//! Typed symbols and the tries of symbol sequences built from them.

use vstd::prelude::*;
use crate::ast_rules::RegToken;

verus! {

/// An array type: elements of one kind, separated by a separator token.
pub struct ArrayType {
    pub kind: Box<Kind>,
    pub separator: String,
}

/// The type of a variable symbol.
pub enum Kind {
    Reg(RegToken),
    Array(ArrayType),
    Int,
    UnknownSym(String),
}

/// A kind, over plain values; a regular expression is seen through its pattern.
pub enum KindView {
    Reg(Seq<char>),
    Array(Box<KindView>, Seq<char>),
    Int,
    UnknownSym(Seq<char>),
}

/// A symbol, over plain values.
pub enum SymView {
    Token(Seq<char>),
    Var(Seq<char>, KindView),
}

impl Kind {
    pub open spec fn view(&self) -> KindView
        decreases self,
    {
        match self {
            Kind::Reg(t) => KindView::Reg(t.pattern()),
            Kind::Array(a) => KindView::Array(Box::new(a.kind.view()), a.separator@),
            Kind::Int => KindView::Int,
            Kind::UnknownSym(s) => KindView::UnknownSym(s@),
        }
    }

    /// Whether two kinds are the same (regular expressions by their pattern).
    pub fn same(&self, other: &Kind) -> (r: bool)
        ensures
            r == (self.view() == other.view()),
        decreases self,
    {
        match (self, other) {
            (Kind::Reg(a), Kind::Reg(b)) => {
                let x = a.characters();
                assert(x@.subrange(0, x@.len() as int) =~= x@);
                crate::text::range_eq(x, 0, x.len(), b.characters())
            },
            (Kind::Array(a), Kind::Array(b)) => a.kind.same(&b.kind) && a.separator == b.separator,
            (Kind::Int, Kind::Int) => true,
            (Kind::UnknownSym(a), Kind::UnknownSym(b)) => *a == *b,
            _ => false,
        }
    }
}

/// A symbol of a rule: a reference to a token or nonterminal, or a typed variable.
pub enum Sym {
    Token(String),
    Var((String, Kind)),
}

impl Sym {
    pub open spec fn view(&self) -> SymView {
        match self {
            Sym::Token(s) => SymView::Token(s@),
            Sym::Var((n, k)) => SymView::Var(n@, k.view()),
        }
    }

    /// Whether two symbols are the same.
    pub fn same(&self, other: &Sym) -> (r: bool)
        ensures
            r == (self.view() == other.view()),
    {
        match (self, other) {
            (Sym::Token(a), Sym::Token(b)) => *a == *b,
            (Sym::Var((a, ka)), Sym::Var((b, kb))) => *a == *b && ka.same(kb),
            _ => false,
        }
    }
}

/// A node of a symbol trie.
pub struct SymNode {
    pub sym: Sym,
    pub children: Vec<SymNode>,
}

/// The symbol trie of one nonterminal: the roots of its alternatives.
pub struct SymTree {
    pub children: Vec<SymNode>,
}

/// The symbol tries of a grammar, by nonterminal name.
pub type RuleMap = Vec<(String, SymTree)>;

/// Index of the first node, from index `k` on, with symbol `s`.
pub open spec fn find_sym_from(children: Seq<SymNode>, s: SymView, k: int) -> Option<int>
    decreases children.len() - k,
{
    if k < 0 || k >= children.len() {
        None
    } else if children[k].sym.view() == s {
        Some(k)
    } else {
        find_sym_from(children, s, k + 1)
    }
}

pub proof fn lemma_find_sym_from(children: Seq<SymNode>, s: SymView, k: int)
    requires
        0 <= k,
    ensures
        match find_sym_from(children, s, k) {
            Some(j) => k <= j < children.len() && children[j].sym.view() == s && forall|m: int|
                k <= m < j ==> (#[trigger] children[m]).sym.view() != s,
            None => forall|m: int| k <= m < children.len() ==> (#[trigger] children[m]).sym.view() != s,
        },
    decreases children.len() - k,
{
    if k < children.len() && children[k].sym.view() != s {
        lemma_find_sym_from(children, s, k + 1);
    }
}

/// Whether the symbol sequence `path` leads from the nodes `children` down
/// through the trie.
pub open spec fn has_path(children: Seq<SymNode>, path: Seq<SymView>) -> bool
    decreases path.len(),
{
    if path.len() == 0 {
        true
    } else {
        match find_sym_from(children, path[0], 0) {
            Some(i) => has_path(children[i].children@, path.drop_first()),
            None => false,
        }
    }
}

/// Sibling nodes carry distinct symbols, at every level.
pub open spec fn wf_syms(node: SymNode) -> bool
    decreases node,
{
    &&& forall|i: int, j: int|
        0 <= i < j < node.children@.len() ==> (#[trigger] node.children@[i]).sym.view() != (
        #[trigger] node.children@[j]).sym.view()
    &&& forall|i: int| 0 <= i < node.children@.len() ==> wf_syms(#[trigger] node.children@[i])
}

/// Sibling nodes carry distinct symbols, at every level below `children`.
pub open spec fn wf_list(children: Seq<SymNode>) -> bool {
    &&& forall|i: int, j: int|
        0 <= i < j < children.len() ==> (#[trigger] children[i]).sym.view() != (#[trigger] children[j]).sym.view()
    &&& forall|i: int| 0 <= i < children.len() ==> wf_syms(#[trigger] children[i])
}

/// The views of a list of symbols.
pub open spec fn sym_views(path: Seq<Sym>) -> Seq<SymView> {
    path.map_values(|s: Sym| s.view())
}

fn sym_pos(children: &Vec<SymNode>, sym: &Sym) -> (r: Option<usize>)
    ensures
        r == (match find_sym_from(children@, sym.view(), 0) {
            Some(i) => Some(i as usize),
            None => None::<usize>,
        }),
        r matches Some(i) ==> i < children@.len() && children@[i as int].sym.view() == sym.view(),
{
    proof {
        lemma_find_sym_from(children@, sym.view(), 0);
    }
    let mut i: usize = 0;
    while i < children.len()
        invariant
            i <= children@.len(),
            find_sym_from(children@, sym.view(), 0) == find_sym_from(children@, sym.view(), i as int),
        decreases children@.len() - i,
    {
        if children[i].sym.same(sym) {
            return Some(i);
        }
        i = i + 1;
    }
    None
}

/// A copy of a kind.
pub fn copy_kind(k: &Kind) -> (r: Kind)
    ensures
        r.view() == k.view(),
    decreases k,
{
    match k {
        Kind::Reg(t) => Kind::Reg(t.copy()),
        Kind::Array(a) => Kind::Array(ArrayType { kind: Box::new(copy_kind(&a.kind)), separator: a.separator.clone() }),
        Kind::Int => Kind::Int,
        Kind::UnknownSym(s) => Kind::UnknownSym(s.clone()),
    }
}

/// A copy of a symbol.
pub fn copy_sym(s: &Sym) -> (r: Sym)
    ensures
        r.view() == s.view(),
{
    match s {
        Sym::Token(n) => Sym::Token(n.clone()),
        Sym::Var((n, k)) => Sym::Var((n.clone(), copy_kind(k))),
    }
}



/// `a` and `b` are the same tree: the same symbols, with the same children
/// in the same order, at every level.
pub open spec fn same_tree(a: SymNode, b: SymNode) -> bool
    decreases a,
{
    &&& a.sym.view() == b.sym.view()
    &&& a.children@.len() == b.children@.len()
    &&& forall|i: int| 0 <= i < a.children@.len() ==> same_tree(#[trigger] a.children@[i], b.children@[i])
}

/// The node lists `a` and `b` are the same trees, in the same order.
pub open spec fn same_list(a: Seq<SymNode>, b: Seq<SymNode>) -> bool {
    &&& a.len() == b.len()
    &&& forall|i: int| 0 <= i < a.len() ==> same_tree(#[trigger] a[i], b[i])
}

pub proof fn lemma_same_tree_refl(a: SymNode)
    ensures
        same_tree(a, a),
    decreases a,
{
    assert forall|i: int| 0 <= i < a.children@.len() implies same_tree(#[trigger] a.children@[i], a.children@[i]) by {
        lemma_same_tree_refl(a.children@[i]);
    }
}

/// Adding a symbol sequence a second time changes nothing: the tree after
/// the second insertion is the tree after the first.
pub proof fn lemma_add_path_twice(t0: Seq<SymNode>, t1: Seq<SymNode>, t2: Seq<SymNode>, path: Seq<SymView>)
    requires
        forall|p: Seq<SymView>| #[trigger] has_path(t1, p) <==> has_path(t0, p) || p.is_prefix_of(path),
        has_path(t1, path) ==> same_list(t2, t1),
    ensures
        same_list(t2, t1),
{
    assert(path.is_prefix_of(path));
}

proof fn lemma_find_sym_unique(children: Seq<SymNode>, s: SymView, i: int)
    requires
        0 <= i < children.len(),
        children[i].sym.view() == s,
        forall|a: int, b: int|
            0 <= a < b < children.len() ==> (#[trigger] children[a]).sym.view() != (#[trigger] children[b]).sym.view(),
    ensures
        find_sym_from(children, s, 0) == Some(i),
{
    lemma_find_sym_from(children, s, 0);
    let j = find_sym_from(children, s, 0)->0;
    if j < i {
        assert(children[j].sym.view() != children[i].sym.view());
    }
}

/// Inserts the symbol sequence `path` below the nodes `children`, sharing
/// the longest prefix already present.
#[verifier::rlimit(60)]
fn add_path_to(children: &mut Vec<SymNode>, path: &[Sym])
    requires
        wf_list(old(children)@),
    ensures
        wf_list(final(children)@),
        forall|p: Seq<SymView>| #[trigger] has_path(final(children)@, p) <==> has_path(old(children)@, p)
            || p.is_prefix_of(sym_views(path@)),
        has_path(old(children)@, sym_views(path@)) ==> same_list(final(children)@, old(children)@),
        old(children)@.len() <= final(children)@.len() <= old(children)@.len() + 1,
        forall|k: int| 0 <= k < old(children)@.len() ==> (#[trigger] final(children)@[k]).sym.view() == old(children)@[k].sym.view(),
        final(children)@.len() == old(children)@.len() + 1 ==> path@.len() > 0 && final(children)@.last().sym.view()
            == path@[0].view(),
    decreases path@.len(),
{
    let ghost o = children@;
    let ghost full = sym_views(path@);
    if path.len() == 0 {
        assert forall|p: Seq<SymView>| #[trigger] has_path(children@, p) <==> has_path(o, p)
            || p.is_prefix_of(full) by {
            if p.is_prefix_of(full) {
                assert(p.len() == 0);
            }
        }
        assert forall|k: int| 0 <= k < o.len() implies same_tree(#[trigger] o[k], o[k]) by {
            lemma_same_tree_refl(o[k]);
        }
        return;
    }
    let sym = &path[0];
    let rest = &path[1..path.len()];
    let found = sym_pos(children, sym);
    proof {
        lemma_find_sym_from(children@, sym.view(), 0);
    }
    let i = match found {
        Some(i) => {
            assert(children@[i as int].sym.view() == sym.view());
            i
        },
        None => {
            let s2 = copy_sym(sym);
            children.push(SymNode { sym: s2, children: Vec::new() });
            assert(children@[children@.len() - 1].sym.view() == sym.view());
            children.len() - 1
        },
    };
    let ghost o1 = children@;
    proof {
        lemma_find_sym_from(o, sym.view(), 0);
        assert(wf_list(o1)) by {
            assert forall|a: int, b: int| 0 <= a < b < o1.len() implies (#[trigger] o1[a]).sym.view()
                != (#[trigger] o1[b]).sym.view() by {
                if b == o.len() {
                    assert(o[a] == o1[a]);
                }
            }
            assert forall|a: int| 0 <= a < o1.len() implies wf_syms(#[trigger] o1[a]) by {
                if a < o.len() {
                    assert(o[a] == o1[a]);
                }
            }
        }
        lemma_find_sym_unique(o1, sym.view(), i as int);
    }
    let mut node = children.remove(i);
    let ghost c = node;
    add_path_to(&mut node.children, rest);
    children.insert(i, node);
    proof {
        let rpath = sym_views(rest@);
        assert(rpath =~= full.drop_first());
        let n = children@;
        assert(n =~= o1.update(i as int, node));
        assert(c == o1[i as int]);
        assert(wf_list(n)) by {
            assert forall|a: int, b: int| 0 <= a < b < n.len() implies (#[trigger] n[a]).sym.view()
                != (#[trigger] n[b]).sym.view() by {
                assert(o1[a].sym.view() != o1[b].sym.view());
            }
            assert forall|a: int| 0 <= a < n.len() implies wf_syms(#[trigger] n[a]) by {
                if a != i {
                    assert(n[a] == o1[a]);
                }
            }
        }
        if has_path(o, full) {
            lemma_find_sym_from(o, full[0], 0);
            assert(found is Some);
            lemma_find_sym_unique(o, sym.view(), i as int);
            assert(has_path(c.children@, rpath));
            assert(o1 == o);
            assert forall|k: int| 0 <= k < n.len() implies same_tree(#[trigger] n[k], o[k]) by {
                if k != i {
                    assert(n[k] == o[k]);
                    lemma_same_tree_refl(o[k]);
                } else {
                    assert(node.sym == c.sym);
                    assert(same_list(node.children@, c.children@));
                }
            }
        }
        assert forall|p: Seq<SymView>| #[trigger] has_path(n, p) <==> has_path(o, p) || p.is_prefix_of(full) by {
            if p.len() > 0 {
                lemma_find_sym_from(n, p[0], 0);
                lemma_find_sym_from(o, p[0], 0);
                if p[0] == sym.view() {
                    lemma_find_sym_unique(n, sym.view(), i as int);
                    assert(has_path(n, p) == has_path(node.children@, p.drop_first()));
                    if found is Some {
                        lemma_find_sym_unique(o, sym.view(), i as int);
                        assert(has_path(o, p) == has_path(c.children@, p.drop_first()));
                    } else {
                        assert(has_path(c.children@, p.drop_first()) ==> p.drop_first().len() == 0);
                    }
                    assert(p.is_prefix_of(full) == p.drop_first().is_prefix_of(rpath)) by {
                        if p.drop_first().is_prefix_of(rpath) {
                            assert forall|k: int| 0 <= k < p.len() implies p[k] == full[k] by {
                                if k > 0 {
                                    assert(p[k] == p.drop_first()[k - 1]);
                                }
                            }
                        }
                        if p.is_prefix_of(full) {
                            assert forall|k: int| 0 <= k < p.len() - 1 implies p.drop_first()[k] == rpath[k] by {
                                assert(p[k + 1] == full[k + 1]);
                            }
                        }
                    }
                } else {
                    assert(!p.is_prefix_of(full)) by {
                        assert(p[0] != full[0]);
                    }
                    match find_sym_from(n, p[0], 0) {
                        Some(j) => {
                            lemma_find_sym_unique(n, p[0], j);
                            assert(j != i);
                            assert(n[j] == o1[j]);
                            if j < o.len() {
                                assert(o[j] == o1[j]);
                                lemma_find_sym_unique(o, p[0], j);
                            }
                        },
                        None => {
                            if let Some(j) = find_sym_from(o, p[0], 0) {
                                assert(n[j].sym.view() == o[j].sym.view());
                            }
                        },
                    }
                }
            }
        }
    }
}

impl SymTree {
    pub fn new() -> (r: Self)
        ensures
            r.children@.len() == 0,
    {
        SymTree { children: Vec::new() }
    }

    /// Inserts the symbol sequence `path`, sharing the longest prefix already
    /// present. Existing children keep their places; a new child goes last.
    pub fn add_path(&mut self, path: &[Sym])
        requires
            wf_list(old(self).children@),
        ensures
            wf_list(final(self).children@),
            forall|p: Seq<SymView>| #[trigger] has_path(final(self).children@, p) <==> has_path(
                old(self).children@,
                p,
            ) || p.is_prefix_of(sym_views(path@)),
            has_path(old(self).children@, sym_views(path@)) ==> same_list(final(self).children@, old(self).children@),
            old(self).children@.len() <= final(self).children@.len() <= old(self).children@.len() + 1,
            forall|k: int| 0 <= k < old(self).children@.len() ==> (#[trigger] final(self).children@[k]).sym.view()
                == old(self).children@[k].sym.view(),
            final(self).children@.len() == old(self).children@.len() + 1 ==> path@.len() > 0
                && final(self).children@.last().sym.view() == path@[0].view(),
    {
        add_path_to(&mut self.children, path);
    }
}

impl SymNode {
    pub fn new(sym: Sym) -> (r: Self)
        ensures
            r.sym == sym,
            r.children@.len() == 0,
    {
        SymNode { sym, children: Vec::new() }
    }

    /// Inserts the symbol sequence `path` below this node. Existing children
    /// keep their places; a new child goes last.
    pub fn add_path(&mut self, path: &[Sym])
        requires
            wf_list(old(self).children@),
        ensures
            final(self).sym == old(self).sym,
            wf_list(final(self).children@),
            forall|p: Seq<SymView>| #[trigger] has_path(final(self).children@, p) <==> has_path(
                old(self).children@,
                p,
            ) || p.is_prefix_of(sym_views(path@)),
            has_path(old(self).children@, sym_views(path@)) ==> same_list(final(self).children@, old(self).children@),
            old(self).children@.len() <= final(self).children@.len() <= old(self).children@.len() + 1,
            forall|k: int| 0 <= k < old(self).children@.len() ==> (#[trigger] final(self).children@[k]).sym.view()
                == old(self).children@[k].sym.view(),
            final(self).children@.len() == old(self).children@.len() + 1 ==> path@.len() > 0
                && final(self).children@.last().sym.view() == path@[0].view(),
    {
        add_path_to(&mut self.children, path);
    }
}

} // verus!
