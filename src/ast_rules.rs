//! Token definitions, rule tries and the compiler of the grammar language.

use vstd::prelude::*;
use crate::text::{
    find_char, index_of, lemma_index_from, range_eq, slice_vec, split_lines, split_words, string_of,
    trim, trim_range, words, grammar_lines,
};

verus! {

#[verifier::external_type_specification]
#[verifier::external_body]
pub struct ExRegex(regex::Regex);

#[verifier::external_type_specification]
#[verifier::external_body]
pub struct ExRegexError(regex::Error);

/// Whether `pattern` is accepted by the regular-expression compiler.
pub uninterp spec fn regex_compiles(pattern: Seq<char>) -> bool;

/// The leftmost-first match of `pattern` in `hay`: the text before the match
/// and the matched text.
pub uninterp spec fn regex_find_of(pattern: Seq<char>, hay: Seq<char>) -> Option<(Seq<char>, Seq<char>)>;

/// Relies on `regex::Regex::new`: a pattern is compiled or refused, depending
/// on the pattern alone.
#[verifier::external_body]
fn compile_regex(pattern: &[char]) -> (r: Result<regex::Regex, regex::Error>)
    ensures
        r is Ok <==> regex_compiles(pattern@),
{
    let p: String = pattern.iter().collect();
    regex::Regex::new(&p)
}

/// Relies on `regex::Regex::find`: the first match of the token's pattern in
/// `hay`; the match is a piece of `hay`, so the text before it followed by it
/// is a prefix of `hay`.
#[verifier::external_body]
fn find_match(tok: &RegToken, hay: &[char]) -> (r: Option<(Vec<char>, Vec<char>)>)
    ensures
        r is None <==> regex_find_of(tok.characters@, hay@) is None,
        r matches Some((pre, m)) ==> regex_find_of(tok.characters@, hay@) == Some((pre@, m@))
            && pre@.len() + m@.len() <= hay@.len()
            && hay@.take(pre@.len() + m@.len() as int) == pre@ + m@,
{
    let s: String = hay.iter().collect();
    tok.reg.find(&s).map(|m| (s[..m.start()].chars().collect(), m.as_str().chars().collect()))
}

/// Relies on `regex::Regex::clone`: a copy of the same compiled pattern.
#[verifier::external_body]
fn clone_regex(reg: &regex::Regex) -> regex::Regex {
    reg.clone()
}

/// Length of the prefix of `s` that the literal `lit` consumes: all of `lit`
/// when `s` starts with it, else nothing.
pub open spec fn exact_consume(lit: Seq<char>, s: Seq<char>) -> nat {
    if lit.len() <= s.len() && s.take(lit.len() as int) == lit {
        lit.len()
    } else {
        0
    }
}

/// Length of the prefix consumed by a regular expression whose search gave
/// `found`: the match, when it starts at offset 0, else nothing.
pub open spec fn found_consume(found: Option<(Seq<char>, Seq<char>)>) -> nat {
    match found {
        Some((pre, m)) => if pre.len() == 0 {
            m.len()
        } else {
            0
        },
        None => 0,
    }
}

/// A token that matches one exact literal.
pub struct ExactToken {
    pub characters: Vec<char>,
}

impl ExactToken {
    pub fn new(characters: &[char]) -> (r: Self)
        ensures
            r.characters@ == characters@,
    {
        ExactToken { characters: slice_vec(characters, 0, characters.len()) }
    }

    pub fn characters(&self) -> (r: &[char])
        ensures
            r@ == self.characters@,
    {
        self.characters.as_slice()
    }

    /// Length of the prefix of `stream` that this literal matches (0: no match).
    pub fn consume(&self, stream: &[char]) -> (r: usize)
        ensures
            r == exact_consume(self.characters@, stream@),
    {
        let n = self.characters.len();
        if n <= stream.len() && range_eq(stream, 0, n, self.characters.as_slice()) {
            n
        } else {
            0
        }
    }
}

/// A token that matches a regular expression at the start of the stream.
/// `reg` is always the compilation of `characters`: both fields are private
/// and set together only by `new` (and copied together by `copy`).
pub struct RegToken {
    characters: Vec<char>,
    reg: regex::Regex,
}

/// Length of the prefix consumed, given what the search of a regular
/// expression in the stream found.
pub fn consume_found(found: &Option<(Vec<char>, Vec<char>)>) -> (r: usize)
    ensures
        r == found_consume(
            match found {
                Some((pre, m)) => Some((pre@, m@)),
                None => None,
            },
        ),
{
    match found {
        Some((pre, m)) => if pre.len() == 0 {
            m.len()
        } else {
            0
        },
        None => 0,
    }
}

impl RegToken {
    /// The pattern `characters`, compiled; fails when the pattern is refused.
    pub fn new(characters: &[char]) -> (r: Result<Self, regex::Error>)
        ensures
            r is Ok <==> regex_compiles(characters@),
            r matches Ok(t) ==> t.pattern() == characters@,
    {
        match compile_regex(characters) {
            Ok(reg) => Ok(RegToken { characters: slice_vec(characters, 0, characters.len()), reg }),
            Err(e) => Err(e),
        }
    }

    /// A copy of this token, with the same pattern.
    pub fn copy(&self) -> (r: Self)
        ensures
            r.pattern() == self.pattern(),
    {
        RegToken { characters: slice_vec(self.characters.as_slice(), 0, self.characters.len()), reg: clone_regex(&self.reg) }
    }

    pub closed spec fn pattern(&self) -> Seq<char> {
        self.characters@
    }

    pub fn characters(&self) -> (r: &[char])
        ensures
            r@ == self.pattern(),
    {
        self.characters.as_slice()
    }

    /// Length of the prefix of `stream` that the pattern matches (0: no match);
    /// a match that does not start at offset 0 is no match.
    pub fn consume(&self, stream: &[char]) -> (r: usize)
        ensures
            r == found_consume(regex_find_of(self.pattern(), stream@)),
            r <= stream@.len(),
    {
        let found = find_match(self, stream);
        consume_found(&found)
    }
}

/// A token definition: an exact literal or a regular expression.
pub enum TokenDefinition {
    Exact(ExactToken),
    Reg(RegToken),
}

/// Length of the prefix of `s` that definition `d` consumes.
pub open spec fn def_consume(d: TokenDefinition, s: Seq<char>) -> nat {
    match d {
        TokenDefinition::Exact(t) => exact_consume(t.characters@, s),
        TokenDefinition::Reg(t) => found_consume(regex_find_of(t.pattern(), s)),
    }
}

impl TokenDefinition {
    pub open spec fn pattern(&self) -> Seq<char> {
        match self {
            TokenDefinition::Exact(t) => t.characters@,
            TokenDefinition::Reg(t) => t.pattern(),
        }
    }

    pub fn characters(&self) -> (r: &[char])
        ensures
            r@ == self.pattern(),
    {
        match self {
            TokenDefinition::Exact(t) => t.characters(),
            TokenDefinition::Reg(t) => t.characters(),
        }
    }

    /// Length of the prefix of `stream` that this definition consumes (0: no match).
    pub fn consume(&self, stream: &[char]) -> (r: usize)
        ensures
            r == def_consume(*self, stream@),
            r <= stream@.len(),
    {
        match self {
            TokenDefinition::Exact(t) => t.consume(stream),
            TokenDefinition::Reg(t) => t.consume(stream),
        }
    }
}


/// A node of a rule trie. The children are kept in the order in which they
/// were created, which is ascending priority.
pub struct RuleNode {
    pub priority: u32,
    pub terminal: bool,
    pub children: Vec<(String, RuleNode)>,
}

/// Index of the first entry named `name`, at or after index `k`.
pub open spec fn find_from(children: Seq<(String, RuleNode)>, name: Seq<char>, k: int) -> Option<int>
    decreases children.len() - k,
{
    if k < 0 || k >= children.len() {
        None
    } else if children[k].0@ == name {
        Some(k)
    } else {
        find_from(children, name, k + 1)
    }
}

/// Index of the first entry named `name`, if any.
pub open spec fn find_child(children: Seq<(String, RuleNode)>, name: Seq<char>) -> Option<int> {
    find_from(children, name, 0)
}

pub proof fn lemma_find_from(children: Seq<(String, RuleNode)>, name: Seq<char>, k: int)
    requires
        0 <= k,
    ensures
        match find_from(children, name, k) {
            Some(j) => k <= j < children.len() && children[j].0@ == name && forall|m: int|
                k <= m < j ==> (#[trigger] children[m]).0@ != name,
            None => forall|m: int| k <= m < children.len() ==> (#[trigger] children[m]).0@ != name,
        },
    decreases children.len() - k,
{
    if k < children.len() && children[k].0@ != name {
        lemma_find_from(children, name, k + 1);
    }
}

/// Whether the path of symbols `path` leads from `node` to a node.
pub open spec fn has_node(node: RuleNode, path: Seq<Seq<char>>) -> bool
    decreases path.len(),
{
    if path.len() == 0 {
        true
    } else {
        match find_child(node.children@, path[0]) {
            Some(i) => has_node(node.children@[i].1, path.drop_first()),
            None => false,
        }
    }
}

/// Whether the path of symbols `path` leads from `node` to a terminal node:
/// `path` is one of the alternatives stored under `node`.
pub open spec fn has_alt(node: RuleNode, path: Seq<Seq<char>>) -> bool
    decreases path.len(),
{
    if path.len() == 0 {
        node.terminal
    } else {
        match find_child(node.children@, path[0]) {
            Some(i) => has_alt(node.children@[i].1, path.drop_first()),
            None => false,
        }
    }
}

/// Well-formed trie: sibling names are distinct, sibling priorities ascend,
/// and no priority below `node` exceeds `max`.
pub open spec fn wf_node(node: RuleNode, max: nat) -> bool
    decreases node,
{
    &&& node.priority <= max
    &&& forall|i: int, j: int|
        0 <= i < j < node.children@.len() ==> (#[trigger] node.children@[i]).0@ != (
        #[trigger] node.children@[j]).0@ && node.children@[i].1.priority
            <= node.children@[j].1.priority
    &&& forall|i: int|
        0 <= i < node.children@.len() ==> wf_node(#[trigger] node.children@[i].1, max)
}

/// Number of nodes of a trie.
pub open spec fn node_count(node: RuleNode) -> nat
    decreases node,
{
    1 + children_count(node.children@)
}

/// Number of nodes under a list of children.
pub open spec fn children_count(children: Seq<(String, RuleNode)>) -> nat
    decreases children,
{
    if children.len() == 0 {
        0
    } else {
        children_count(children.drop_last()) + node_count(children.last().1)
    }
}

proof fn lemma_children_count_update(children: Seq<(String, RuleNode)>, i: int, c: (String, RuleNode))
    requires
        0 <= i < children.len(),
        node_count(c.1) == node_count(children[i].1),
    ensures
        children_count(children.update(i, c)) == children_count(children),
    decreases children.len(),
{
    let u = children.update(i, c);
    if i < children.len() - 1 {
        assert(u.drop_last() =~= children.drop_last().update(i, c));
        lemma_children_count_update(children.drop_last(), i, c);
    } else {
        assert(u.drop_last() =~= children.drop_last());
    }
}

impl RuleNode {
    pub fn new(priority: u32) -> (r: Self)
        ensures
            r.priority == priority,
            !r.terminal,
            r.children@.len() == 0,
    {
        RuleNode { priority, terminal: false, children: Vec::new() }
    }
}

/// Index of the first entry named `name`.
pub(crate) fn child_pos(children: &Vec<(String, RuleNode)>, name: &String) -> (r: Option<usize>)
    ensures
        r == (match find_child(children@, name@) {
            Some(i) => Some(i as usize),
            None => None::<usize>,
        }),
        match r {
            Some(i) => i < children@.len() && children@[i as int].0@ == name@,
            None => forall|i: int| 0 <= i < children@.len() ==> (#[trigger] children@[i]).0@ != name@,
        },
{
    proof {
        lemma_find_from(children@, name@, 0);
    }
    let mut i: usize = 0;
    while i < children.len()
        invariant
            i <= children@.len(),
            find_child(children@, name@) == find_from(children@, name@, i as int),
            forall|k: int| 0 <= k < i ==> (#[trigger] children@[k]).0@ != name@,
        decreases children@.len() - i,
    {
        if children[i].0 == *name {
            return Some(i);
        }
        i = i + 1;
    }
    None
}

pub proof fn lemma_find_unique(children: Seq<(String, RuleNode)>, name: Seq<char>, i: int)
    requires
        0 <= i < children.len(),
        children[i].0@ == name,
        forall|a: int, b: int|
            0 <= a < b < children.len() ==> (#[trigger] children[a]).0@ != (#[trigger] children[b]).0@,
    ensures
        find_child(children, name) == Some(i),
{
    lemma_find_from(children, name, 0);
    let j = find_child(children, name)->0;
    if j < i {
        assert(children[j].0@ != children[i].0@);
    }
}

/// `new` is `old` with the path `path` inserted: the nodes of `new` are
/// those of `old` and the prefixes of `path`; its alternatives are those of
/// `old` and `path` (when not empty); no node is added when `path` was
/// already there.
pub open spec fn inserted(old: RuleNode, new: RuleNode, path: Seq<Seq<char>>) -> bool {
    &&& forall|p: Seq<Seq<char>>| #[trigger] has_node(new, p) <==> has_node(old, p) || p.is_prefix_of(path)
    &&& forall|p: Seq<Seq<char>>| #[trigger] has_alt(new, p) <==> has_alt(old, p) || (p == path && path.len() > 0)
    &&& has_node(old, path) ==> node_count(new) == node_count(old)
}

/// The node that `path` leads to from `node` (`node` itself where the path
/// leaves the trie).
pub open spec fn node_at(node: RuleNode, path: Seq<Seq<char>>) -> RuleNode
    decreases path.len(),
{
    if path.len() == 0 {
        node
    } else {
        match find_child(node.children@, path[0]) {
            Some(i) => node_at(node.children@[i].1, path.drop_first()),
            None => node,
        }
    }
}

/// Every node of `new` that `old` had keeps its priority; every other node
/// of `new` has priority `prio`.
pub open spec fn prios_kept(old: RuleNode, new: RuleNode, prio: nat) -> bool {
    forall|p: Seq<Seq<char>>|
        #[trigger] has_node(new, p) ==> node_at(new, p).priority == if has_node(old, p) {
            node_at(old, p).priority as nat
        } else {
            prio
        }
}

/// Inserting the same alternative twice adds no node the second time.
pub proof fn lemma_insert_twice(n0: RuleNode, n1: RuleNode, n2: RuleNode, path: Seq<Seq<char>>, prio: nat)
    requires
        inserted(n0, n1, path),
        inserted(n1, n2, path),
        prios_kept(n1, n2, prio),
    ensures
        node_count(n2) == node_count(n1),
        forall|p: Seq<Seq<char>>| #[trigger] has_node(n2, p) ==> node_at(n2, p).priority == node_at(n1, p).priority,
        forall|p: Seq<Seq<char>>| #[trigger] has_node(n2, p) == has_node(n1, p),
        forall|p: Seq<Seq<char>>| #[trigger] has_alt(n2, p) == has_alt(n1, p),
{
    assert(path.is_prefix_of(path));
    assert(has_node(n1, path));
    assert forall|p: Seq<Seq<char>>| #[trigger] has_alt(n2, p) == has_alt(n1, p) by {
        if p == path && path.len() > 0 {
            assert(has_alt(n1, path));
        }
    }
    assert forall|p: Seq<Seq<char>>| #[trigger] has_node(n2, p) == has_node(n1, p) by {
        if p.is_prefix_of(path) {
            assert(has_node(n1, p));
        }
    }
    assert forall|p: Seq<Seq<char>>| #[trigger] has_node(n2, p) implies node_at(n2, p).priority == node_at(n1, p).priority by {
        assert(has_node(n1, p));
    }
}

/// Inserts the alternative `rule_vec` with priority `priority` under `node`:
/// nodes are shared along the longest prefix already present, the missing
/// ones are created with `priority`, and the last one is marked terminal.
/// Returns whether `rule_vec` is empty (then `node` itself ends it).
#[verifier::rlimit(100)]
pub fn add_rule(priority: u32, node: &mut RuleNode, rule_vec: &[String]) -> (r: bool)
    requires
        wf_node(*old(node), priority as nat),
    ensures
        r == (rule_vec@.len() == 0),
        wf_node(*final(node), priority as nat),
        final(node).priority == old(node).priority,
        final(node).terminal == old(node).terminal,
        inserted(*old(node), *final(node), rule_vec@.map_values(|s: String| s@)),
        prios_kept(*old(node), *final(node), priority as nat),
    decreases rule_vec@.len(),
{
    if rule_vec.len() == 0 {
        return true;
    }
    let ghost o = *node;
    let name = &rule_vec[0];
    let rest = &rule_vec[1..rule_vec.len()];
    let found = child_pos(&node.children, name);
    let i = match found {
        Some(i) => i,
        None => {
            node.children.push((name.clone(), RuleNode::new(priority)));
            node.children.len() - 1
        }
    };
    let ghost o1 = *node;
    proof {
        assert(wf_node(o1, priority as nat)) by {
            assert forall|a: int, b: int| 0 <= a < b < o1.children@.len() implies
                (#[trigger] o1.children@[a]).0@ != (#[trigger] o1.children@[b]).0@
                && o1.children@[a].1.priority <= o1.children@[b].1.priority by {
                if b == o.children@.len() {
                    assert(o.children@[a] == o1.children@[a]);
                    assert(wf_node(o.children@[a].1, priority as nat));
                }
            }
            assert forall|a: int| 0 <= a < o1.children@.len() implies wf_node(
                #[trigger] o1.children@[a].1, priority as nat) by {
                if a < o.children@.len() {
                    assert(o.children@[a] == o1.children@[a]);
                }
            }
        }
        lemma_find_unique(o1.children@, name@, i as int);
    }
    let (cname, mut child) = node.children.remove(i);
    let ghost c = child;
    let empty = add_rule(priority, &mut child, rest);
    let ghost ca = child;
    if empty {
        child.terminal = true;
    }
    node.children.insert(i, (cname, child));
    proof {
        let path = rule_vec@.map_values(|s: String| s@);
        let rpath = rest@.map_values(|s: String| s@);
        assert(rpath =~= path.drop_first());
        let n = *node;
        assert(n.children@ =~= o1.children@.update(i as int, (cname, child)));
        assert(c == o1.children@[i as int].1);
        // the updated child, seen through its children, is the recursive result
        assert forall|q: Seq<Seq<char>>| #[trigger] has_node(child, q) == has_node(ca, q) by {
            if q.len() > 0 {
                assert(child.children == ca.children);
            }
        }
        assert(rpath.len() == rest@.len());
        assert forall|q: Seq<Seq<char>>| #[trigger] has_alt(child, q) == (has_alt(c, q) || q == rpath) by {
            assert(has_alt(ca, q) <==> has_alt(c, q) || (q == rpath && rpath.len() > 0));
            if q.len() > 0 {
                assert(child.children == ca.children);
                assert(has_alt(ca, q) == has_alt(child, q));
            } else {
                assert(q =~= Seq::<Seq<char>>::empty());
                if rpath.len() == 0 {
                    assert(rpath =~= q);
                }
            }
        }
        assert(wf_node(child, priority as nat)) by {
            assert(child.children == ca.children);
        }
        assert(wf_node(n, priority as nat)) by {
            assert forall|a: int, b: int| 0 <= a < b < n.children@.len() implies
                (#[trigger] n.children@[a]).0@ != (#[trigger] n.children@[b]).0@
                && n.children@[a].1.priority <= n.children@[b].1.priority by {
                assert(o1.children@[a].0@ != o1.children@[b].0@);
            }
            assert forall|a: int| 0 <= a < n.children@.len() implies wf_node(
                #[trigger] n.children@[a].1, priority as nat) by {
                if a != i {
                    assert(n.children@[a] == o1.children@[a]);
                }
            }
        }
        if found is None {
            assert forall|q: Seq<Seq<char>>| #[trigger] has_node(c, q) == (q.len() == 0) by {}
            assert forall|q: Seq<Seq<char>>| !(#[trigger] has_alt(c, q)) by {}
        }
        assert forall|p: Seq<Seq<char>>| #[trigger] has_node(n, p) <==> has_node(o, p)
            || p.is_prefix_of(path) by {
            if p.len() > 0 {
                if p[0] == name@ {
                    lemma_find_unique(n.children@, name@, i as int);
                    if found is Some {
                        lemma_find_unique(o.children@, name@, i as int);
                    } else {
                        assert(find_child(o.children@, p[0]) is None);
                    }
                    assert(has_node(n, p) == has_node(child, p.drop_first()));
                    assert(has_node(ca, p.drop_first()) <==> has_node(c, p.drop_first())
                        || p.drop_first().is_prefix_of(rpath));
                    if found is None {
                        assert(has_node(c, p.drop_first()) ==> p.drop_first().is_prefix_of(rpath));
                    } else {
                        assert(has_node(o, p) == has_node(c, p.drop_first()));
                    }
                    assert(p.is_prefix_of(path) == p.drop_first().is_prefix_of(rpath)) by {
                        if p.drop_first().is_prefix_of(rpath) {
                            assert forall|k: int| 0 <= k < p.len() implies p[k] == path[k] by {
                                if k > 0 {
                                    assert(p[k] == p.drop_first()[k - 1]);
                                }
                            }
                        }
                        if p.is_prefix_of(path) {
                            assert forall|k: int| 0 <= k < p.len() - 1 implies
                                p.drop_first()[k] == rpath[k] by {
                                assert(p[k + 1] == path[k + 1]);
                            }
                        }
                    }
                } else {
                    assert(!p.is_prefix_of(path)) by {
                        assert(p[0] != path[0]);
                    }
                    lemma_find_from(n.children@, p[0], 0);
                    lemma_find_from(o.children@, p[0], 0);
                    match find_child(n.children@, p[0]) {
                        Some(j) => {
                            lemma_find_unique(n.children@, p[0], j);
                            assert(j != i);
                            assert(n.children@[j] == o1.children@[j]);
                            if j < o.children@.len() {
                                assert(o.children@[j] == o1.children@[j]);
                                lemma_find_unique(o.children@, p[0], j);
                            }
                        }
                        None => {
                            if let Some(j) = find_child(o.children@, p[0]) {
                                assert(n.children@[j].0@ == o.children@[j].0@);
                            }
                        }
                    }
                }
            }
        }
        assert forall|p: Seq<Seq<char>>| #[trigger] has_alt(n, p) <==> has_alt(o, p)
            || (p == path && path.len() > 0) by {
            if p.len() > 0 {
                if p[0] == name@ {
                    lemma_find_unique(n.children@, name@, i as int);
                    if found is Some {
                        lemma_find_unique(o.children@, name@, i as int);
                    } else {
                        assert(find_child(o.children@, p[0]) is None);
                    }
                    assert(has_alt(n, p) == has_alt(child, p.drop_first()));
                    if found is Some {
                        assert(has_alt(o, p) == has_alt(c, p.drop_first()));
                    } else {
                        assert(!has_alt(o, p));
                    }
                    assert((p == path) == (p.drop_first() == rpath)) by {
                        if p.drop_first() == rpath {
                            assert forall|k: int| 0 <= k < p.len() implies p[k] == path[k] by {
                                if k > 0 {
                                    assert(p[k] == p.drop_first()[k - 1]);
                                }
                            }
                            assert(p =~= path);
                        }
                    }
                } else {
                    assert(p != path);
                    lemma_find_from(n.children@, p[0], 0);
                    lemma_find_from(o.children@, p[0], 0);
                    match find_child(n.children@, p[0]) {
                        Some(j) => {
                            lemma_find_unique(n.children@, p[0], j);
                            assert(j != i);
                            assert(n.children@[j] == o1.children@[j]);
                            if j < o.children@.len() {
                                assert(o.children@[j] == o1.children@[j]);
                                lemma_find_unique(o.children@, p[0], j);
                            }
                        }
                        None => {
                            if let Some(j) = find_child(o.children@, p[0]) {
                                assert(n.children@[j].0@ == o.children@[j].0@);
                            }
                        }
                    }
                }
            }
        }
        assert(forall|q: Seq<Seq<char>>| #[trigger] has_node(ca, q) ==> node_at(ca, q).priority == if has_node(c, q) {
            node_at(c, q).priority as nat
        } else {
            priority as nat
        });
        assert forall|q: Seq<Seq<char>>| #[trigger] has_node(ca, q) implies node_at(child, q).priority == node_at(ca, q).priority by {
            if q.len() > 0 {
                assert(child.children == ca.children);
            }
        }
        assert forall|p: Seq<Seq<char>>| #[trigger] has_node(n, p) implies node_at(n, p).priority == if has_node(o, p) {
            node_at(o, p).priority as nat
        } else {
            priority as nat
        } by {
            if p.len() > 0 {
                lemma_find_from(n.children@, p[0], 0);
                lemma_find_from(o.children@, p[0], 0);
                if p[0] == name@ {
                    lemma_find_unique(n.children@, name@, i as int);
                    let q = p.drop_first();
                    assert(node_at(n, p) == node_at(child, q));
                    assert(has_node(n, p) == has_node(child, q));
                    assert(has_node(ca, q));
                    assert(node_at(child, q).priority == node_at(ca, q).priority);
                    if found is Some {
                        lemma_find_unique(o.children@, name@, i as int);
                        assert(has_node(o, p) == has_node(c, q));
                        assert(node_at(o, p) == node_at(c, q));
                    } else {
                        assert(!has_node(o, p));
                        assert(has_node(c, q) == (q.len() == 0));
                        assert(c.priority == priority);
                    }
                } else {
                    match find_child(n.children@, p[0]) {
                        Some(j) => {
                            lemma_find_unique(n.children@, p[0], j);
                            assert(n.children@[j] == o1.children@[j]);
                            if j < o.children@.len() {
                                assert(o.children@[j] == o1.children@[j]);
                                lemma_find_unique(o.children@, p[0], j);
                            }
                        },
                        None => {},
                    }
                }
            }
        }
        if has_node(o, path) {
            assert(found is Some) by {
                if found is None {
                    assert(find_child(o.children@, path[0]) is None);
                }
            }
            lemma_find_unique(o.children@, name@, i as int);
            assert(o1 == o);
            assert(has_node(c, rpath));
            assert(node_count(child) == node_count(ca)) by {
                assert(child.children == ca.children);
            }
            lemma_children_count_update(o.children@, i as int, (cname, child));
        }
    }
    false
}


/// A compiled grammar: token definitions in declaration order, one rule trie
/// per nonterminal, and the name of the root nonterminal.
pub struct AstRules {
    pub tokens: Vec<(String, TokenDefinition)>,
    pub rules: Vec<(String, RuleNode)>,
    pub root_rule: String,
}


/// Why a grammar was refused.
pub enum ParseErr {
    InvalidTokenDef(String),
    TokenReassign(String),
    TokenInvalidReg(String),
    InvalidRuleDef(String),
    UndefinedName(String),
    InvalidType(String),
    NoRoot,
    ConsumeErr,
}

/// The errors of a grammar, over plain text.
pub enum GrammarError {
    InvalidTokenDef(Seq<char>),
    TokenInvalidReg(Seq<char>),
    InvalidRuleDef(Seq<char>),
    UndefinedName(Seq<char>),
    NoRoot,
}

/// Whether `e` is the error `g`.
pub open spec fn err_is(e: ParseErr, g: GrammarError) -> bool {
    match (e, g) {
        (ParseErr::InvalidTokenDef(s), GrammarError::InvalidTokenDef(t)) => s@ == t,
        (ParseErr::TokenInvalidReg(s), GrammarError::TokenInvalidReg(t)) => s@ == t,
        (ParseErr::InvalidRuleDef(s), GrammarError::InvalidRuleDef(t)) => s@ == t,
        (ParseErr::UndefinedName(s), GrammarError::UndefinedName(t)) => s@ == t,
        (ParseErr::NoRoot, GrammarError::NoRoot) => true,
        _ => false,
    }
}

impl ParseErr {
    /// A short description of the error.
    pub fn message(&self) -> (r: String) {
        let s = match self {
            ParseErr::InvalidTokenDef(_) => "invalid token definition",
            ParseErr::TokenReassign(_) => "token defined twice",
            ParseErr::TokenInvalidReg(_) => "invalid regular expression in token definition",
            ParseErr::InvalidRuleDef(_) => "invalid rule definition",
            ParseErr::UndefinedName(_) => "reference to an undefined name",
            ParseErr::InvalidType(_) => "invalid type expression",
            ParseErr::NoRoot => "no root rule declared (mark one with *)",
            ParseErr::ConsumeErr => "no line of the expected kind",
        };
        s.to_string()
    }
}

/// A grammar line that defines a token: it starts with `#`.
pub open spec fn is_token_line(line: Seq<char>) -> bool {
    line.len() > 0 && line[0] == '#'
}

/// What a token line `#name pattern` defines: the name, whether the pattern
/// is a regular expression, and the pattern. A `!` before the name, or
/// before a pattern of more than that one character, marks a regular
/// expression (the `!` is not part of the name or the pattern).
pub open spec fn token_def_of(line: Seq<char>) -> Result<(Seq<char>, bool, Seq<char>), GrammarError> {
    let body = line.skip(1);
    match index_of(body, ' ') {
        None => Err(GrammarError::InvalidTokenDef(body)),
        Some(sp) => {
            let name = body.take(sp);
            let pat = body.skip(sp + 1);
            if pat.len() == 0 || name.len() == 0 {
                Err(GrammarError::InvalidTokenDef(body))
            } else if name[0] == '!' {
                if regex_compiles(pat) {
                    Ok((name.skip(1), true, pat))
                } else {
                    Err(GrammarError::TokenInvalidReg(body))
                }
            } else if pat.len() > 1 && pat[0] == '!' {
                if regex_compiles(pat.skip(1)) {
                    Ok((name, true, pat.skip(1)))
                } else {
                    Err(GrammarError::TokenInvalidReg(body))
                }
            } else {
                Ok((name, false, pat))
            }
        }
    }
}

/// Whether `d` is a definition of the given kind with pattern `pat`.
pub open spec fn def_is(d: TokenDefinition, reg: bool, pat: Seq<char>) -> bool {
    match d {
        TokenDefinition::Exact(t) => !reg && t.characters@ == pat,
        TokenDefinition::Reg(t) => reg && t.pattern() == pat,
    }
}

/// What a rule line `[*]name: sym sym ...` declares: the nonterminal's name
/// (trimmed), its symbols, and whether it is marked as the root.
pub open spec fn rule_of_line(line: Seq<char>) -> Result<(Seq<char>, Seq<Seq<char>>, bool), GrammarError> {
    match index_of(line, ':') {
        None => Err(GrammarError::InvalidRuleDef(line)),
        Some(c) => {
            let head = line.take(c);
            let root = head.len() > 0 && head[0] == '*';
            let name = trim(if root { head.skip(1) } else { head });
            let syms = words(line.skip(c + 1));
            if name.len() == 0 || syms.len() == 0 {
                Err(GrammarError::InvalidRuleDef(line))
            } else {
                Ok((name, syms, root))
            }
        }
    }
}


/// Index of the first line, from `k` on, that is no token line.
pub open spec fn token_end(lines: Seq<Seq<char>>, k: int) -> int
    decreases lines.len() - k,
{
    if 0 <= k < lines.len() && is_token_line(lines[k]) {
        token_end(lines, k + 1)
    } else {
        k
    }
}

pub proof fn lemma_token_end(lines: Seq<Seq<char>>, k: int)
    requires
        0 <= k <= lines.len(),
    ensures
        k <= token_end(lines, k) <= lines.len(),
        forall|i: int| k <= i < token_end(lines, k) ==> is_token_line(#[trigger] lines[i]),
    decreases lines.len() - k,
{
    if k < lines.len() && is_token_line(lines[k]) {
        lemma_token_end(lines, k + 1);
    }
}

/// The first error among the token lines `k..m`.
pub open spec fn first_token_error(lines: Seq<Seq<char>>, k: int, m: int) -> Option<GrammarError>
    decreases m - k,
{
    if k < 0 || k >= m || k >= lines.len() {
        None
    } else {
        match token_def_of(lines[k]) {
            Err(g) => Some(g),
            Ok(_) => first_token_error(lines, k + 1, m),
        }
    }
}

/// The first error among the rule lines from `k` on.
pub open spec fn first_rule_error(lines: Seq<Seq<char>>, k: int) -> Option<GrammarError>
    decreases lines.len() - k,
{
    if k < 0 || k >= lines.len() {
        None
    } else {
        match rule_of_line(lines[k]) {
            Err(g) => Some(g),
            Ok(_) => first_rule_error(lines, k + 1),
        }
    }
}

pub open spec fn tok_name(lines: Seq<Seq<char>>, i: int) -> Seq<char> {
    token_def_of(lines[i])->Ok_0.0
}

pub open spec fn rule_name(lines: Seq<Seq<char>>, j: int) -> Seq<char> {
    rule_of_line(lines[j])->Ok_0.0
}

pub open spec fn rule_syms(lines: Seq<Seq<char>>, j: int) -> Seq<Seq<char>> {
    rule_of_line(lines[j])->Ok_0.1
}

/// The name of the last rule line in `m..k` that is marked as the root.
pub open spec fn last_root(lines: Seq<Seq<char>>, m: int, k: int) -> Option<Seq<char>>
    decreases k - m,
{
    if k <= m {
        None
    } else if rule_of_line(lines[k - 1])->Ok_0.2 {
        Some(rule_name(lines, k - 1))
    } else {
        last_root(lines, m, k - 1)
    }
}

/// Whether `s` names a token (lines `0..m`) or a nonterminal (lines `m..`).
pub open spec fn is_defined(lines: Seq<Seq<char>>, m: int, s: Seq<char>) -> bool {
    (exists|i: int| 0 <= i < m && tok_name(lines, i) == s) || (exists|j: int|
        m <= j < lines.len() && rule_name(lines, j) == s)
}

/// The first of `syms[k..]` that names nothing.
pub open spec fn undefined_from(lines: Seq<Seq<char>>, m: int, syms: Seq<Seq<char>>, k: int) -> Option<Seq<char>>
    decreases syms.len() - k,
{
    if k < 0 || k >= syms.len() {
        None
    } else if !is_defined(lines, m, syms[k]) {
        Some(syms[k])
    } else {
        undefined_from(lines, m, syms, k + 1)
    }
}

/// The first symbol, in the rule lines from `j` on, that names nothing.
pub open spec fn first_undefined(lines: Seq<Seq<char>>, m: int, j: int) -> Option<Seq<char>>
    decreases lines.len() - j,
{
    if j < 0 || j >= lines.len() {
        None
    } else {
        match undefined_from(lines, m, rule_syms(lines, j), 0) {
            Some(s) => Some(s),
            None => first_undefined(lines, m, j + 1),
        }
    }
}

/// Why the grammar made of `lines` is refused, if it is: the first bad token
/// line, else the first bad rule line, else a missing root, else the first
/// reference to an undefined name.
pub open spec fn grammar_error(lines: Seq<Seq<char>>) -> Option<GrammarError> {
    let m = token_end(lines, 0);
    if first_token_error(lines, 0, m) is Some {
        first_token_error(lines, 0, m)
    } else if first_rule_error(lines, m) is Some {
        first_rule_error(lines, m)
    } else if last_root(lines, m, lines.len() as int) is None {
        Some(GrammarError::NoRoot)
    } else {
        match first_undefined(lines, m, m) {
            Some(s) => Some(GrammarError::UndefinedName(s)),
            None => None,
        }
    }
}

/// Whether `r` is the compiled form of the accepted grammar `lines`: its
/// tokens are those of the token lines, in order; it has one trie per
/// declared nonterminal, whose alternatives are exactly the symbol lists of
/// that nonterminal's rule lines, whose nodes are exactly their prefixes,
/// and whose priorities count that nonterminal's lines (see `trie_facts`);
/// its root is the last one marked.
pub open spec fn compiled_from(r: AstRules, lines: Seq<Seq<char>>) -> bool {
    let m = token_end(lines, 0);
    let n = lines.len() as int;
    &&& r.tokens@.len() == m
    &&& forall|i: int|
        0 <= i < m ==> (#[trigger] r.tokens@[i]).0@ == tok_name(lines, i) && def_is(
            r.tokens@[i].1,
            token_def_of(lines[i])->Ok_0.1,
            token_def_of(lines[i])->Ok_0.2,
        )
    &&& forall|a: int, b: int|
        0 <= a < b < r.rules@.len() ==> (#[trigger] r.rules@[a]).0@ != (#[trigger] r.rules@[b]).0@
    &&& forall|j: int| m <= j < n ==> #[trigger] find_child(r.rules@, rule_name(lines, j)) is Some
    &&& forall|i: int|
        0 <= i < r.rules@.len() ==> exists|j: int| m <= j < n && rule_name(lines, j) == (#[trigger] r.rules@[i]).0@
    &&& forall|i: int|
        0 <= i < r.rules@.len() ==> wf_node(#[trigger] r.rules@[i].1, u32::MAX as nat) && !r.rules@[i].1.terminal
    &&& forall|i: int, p: Seq<Seq<char>>|
        0 <= i < r.rules@.len() ==> (#[trigger] has_alt(r.rules@[i].1, p) <==> exists|j: int|
            m <= j < n && rule_name(lines, j) == r.rules@[i].0@ && rule_syms(lines, j) == p)
    &&& forall|i: int|
        0 <= i < r.rules@.len() ==> trie_facts((#[trigger] r.rules@[i]).1, lines, m, n, r.rules@[i].0@)
    &&& last_root(lines, m, n) == Some(r.root_rule@)
}

pub proof fn lemma_wf_mono(node: RuleNode, a: nat, b: nat)
    requires
        wf_node(node, a),
        a <= b,
    ensures
        wf_node(node, b),
    decreases node,
{
    assert forall|i: int| 0 <= i < node.children@.len() implies wf_node(#[trigger] node.children@[i].1, b) by {
        lemma_wf_mono(node.children@[i].1, a, b);
    }
}


/// Reads the token lines at the start of `lines`.
fn read_tokens(lines: &Vec<Vec<char>>) -> (r: Result<(Vec<(String, TokenDefinition)>, usize), ParseErr>)
    ensures
        ({
            let ls = line_views(lines@);
            let m = token_end(ls, 0);
            match r {
                Ok((toks, end)) => first_token_error(ls, 0, m) is None && end == m && toks@.len() == m
                    && forall|i: int| 0 <= i < m ==> (#[trigger] toks@[i]).0@ == tok_name(ls, i) && def_is(
                        toks@[i].1,
                        token_def_of(ls[i])->Ok_0.1,
                        token_def_of(ls[i])->Ok_0.2,
                    ),
                Err(e) => first_token_error(ls, 0, m) matches Some(g) && err_is(e, g),
            }
        }),
{
    let ghost ls = line_views(lines@);
    let ghost m = token_end(ls, 0);
    proof {
        lemma_token_end(ls, 0);
    }
    let mut toks: Vec<(String, TokenDefinition)> = Vec::new();
    let mut pos: usize = 0;
    loop
        invariant
            ls == line_views(lines@),
            m == token_end(ls, 0),
            0 <= m <= ls.len(),
            pos <= m,
            token_end(ls, pos as int) == m,
            first_token_error(ls, 0, m) == first_token_error(ls, pos as int, m),
            toks@.len() == pos,
            forall|i: int| 0 <= i < pos ==> (#[trigger] toks@[i]).0@ == tok_name(ls, i) && def_is(
                toks@[i].1,
                token_def_of(ls[i])->Ok_0.1,
                token_def_of(ls[i])->Ok_0.2,
            ),
        decreases m - pos,
    {
        let ghost pos0 = pos;
        let ghost t0 = toks@;
        proof {
            lemma_token_end(ls, pos as int);
            if pos < ls.len() {
                assert(ls[pos as int] == lines@[pos as int]@);
                if is_token_line(ls[pos as int]) {
                    lemma_token_end(ls, pos + 1);
                    assert(token_end(ls, pos as int) == token_end(ls, pos + 1));
                }
            }
        }
        match AstRules::consume_token_def(lines, &mut pos) {
            Ok(t) => {
                toks.push(t);
                assert forall|i: int| 0 <= i < pos implies (#[trigger] toks@[i]).0@ == tok_name(ls, i) && def_is(
                    toks@[i].1,
                    token_def_of(ls[i])->Ok_0.1,
                    token_def_of(ls[i])->Ok_0.2,
                ) by {
                    if i < pos0 {
                        assert(toks@[i] == t0[i]);
                    }
                }
            },
            Err(ParseErr::ConsumeErr) => {
                return Ok((toks, pos));
            },
            Err(e) => {
                return Err(e);
            },
        }
    }
}


/// Whether `rules` holds the tries of the rule lines `m..k` of `ls`.
pub open spec fn tries_of(rules: Seq<(String, RuleNode)>, counts: Seq<u32>, ls: Seq<Seq<char>>, m: int, k: int) -> bool {
    &&& rules.len() == counts.len()
    &&& forall|a: int, b: int|
        0 <= a < b < rules.len() ==> (#[trigger] rules[a]).0@ != (#[trigger] rules[b]).0@
    &&& forall|j: int| m <= j < k ==> #[trigger] find_child(rules, rule_name(ls, j)) is Some
    &&& forall|i: int|
        0 <= i < rules.len() ==> exists|j: int| m <= j < k && rule_name(ls, j) == (#[trigger] rules[i]).0@
    &&& forall|i: int|
        0 <= i < rules.len() ==> wf_node(#[trigger] rules[i].1, counts[i] as nat) && !rules[i].1.terminal
    &&& forall|i: int, p: Seq<Seq<char>>|
        0 <= i < rules.len() ==> (#[trigger] has_alt(rules[i].1, p) <==> exists|j: int|
            m <= j < k && rule_name(ls, j) == rules[i].0@ && rule_syms(ls, j) == p)
}

/// Whether `name` is the name of a token definition.
pub open spec fn is_token_name(defs: Seq<(String, TokenDefinition)>, name: Seq<char>) -> bool {
    exists|k: int| 0 <= k < defs.len() && (#[trigger] defs[k]).0@ == name
}

/// Whether `name` is the name of a token definition.
pub(crate) fn is_token_def(defs: &Vec<(String, TokenDefinition)>, name: &String) -> (r: bool)
    ensures
        r == is_token_name(defs@, name@),
{
    let mut k: usize = 0;
    while k < defs.len()
        invariant
            k <= defs@.len(),
            forall|m: int| 0 <= m < k ==> (#[trigger] defs@[m]).0@ != name@,
        decreases defs@.len() - k,
    {
        if defs[k].0 == *name {
            return true;
        }
        k = k + 1;
    }
    false
}

/// The text of each line.
pub open spec fn line_views(lines: Seq<Vec<char>>) -> Seq<Seq<char>> {
    lines.map_values(|l: Vec<char>| l@)
}

/// Whether `rules` holds well-formed tries of the rule lines `m..k` of `ls`.
pub open spec fn tries_shape(rules: Seq<(String, RuleNode)>, ls: Seq<Seq<char>>, m: int, k: int) -> bool {
    &&& forall|a: int, b: int|
        0 <= a < b < rules.len() ==> (#[trigger] rules[a]).0@ != (#[trigger] rules[b]).0@
    &&& forall|j: int| m <= j < k ==> #[trigger] find_child(rules, rule_name(ls, j)) is Some
    &&& forall|i: int|
        0 <= i < rules.len() ==> exists|j: int| m <= j < k && rule_name(ls, j) == (#[trigger] rules[i]).0@
    &&& forall|i: int|
        0 <= i < rules.len() ==> wf_node(#[trigger] rules[i].1, u32::MAX as nat) && !rules[i].1.terminal
    &&& forall|i: int, p: Seq<Seq<char>>|
        0 <= i < rules.len() ==> (#[trigger] has_alt(rules[i].1, p) <==> exists|j: int|
            m <= j < k && rule_name(ls, j) == rules[i].0@ && rule_syms(ls, j) == p)
}


/// Number of rule lines in `m..k` that declare `name`.
pub open spec fn rank(ls: Seq<Seq<char>>, m: int, k: int, name: Seq<char>) -> nat
    decreases k - m,
{
    if k <= m {
        0
    } else {
        rank(ls, m, k - 1, name) + if rule_name(ls, k - 1) == name {
            1nat
        } else {
            0nat
        }
    }
}

/// `n`, capped at the largest priority.
pub open spec fn capped(n: nat) -> nat {
    if n < u32::MAX {
        n
    } else {
        u32::MAX as nat
    }
}

/// Whether rule line `j` declares `name` with symbols that start with `p`.
pub open spec fn line_has(ls: Seq<Seq<char>>, j: int, name: Seq<char>, p: Seq<Seq<char>>) -> bool {
    rule_name(ls, j) == name && p.is_prefix_of(rule_syms(ls, j))
}

/// The first rule line in `j..k` that declares `name` with symbols that
/// start with `p` (`k` when there is none).
pub open spec fn first_line(ls: Seq<Seq<char>>, j: int, k: int, name: Seq<char>, p: Seq<Seq<char>>) -> int
    decreases k - j,
{
    if j >= k {
        k
    } else if line_has(ls, j, name, p) {
        j
    } else {
        first_line(ls, j + 1, k, name, p)
    }
}

/// The trie `node` of nonterminal `name`, built from the rule lines `m..k`:
/// its root has priority 0; its nodes are the prefixes of the symbol lists
/// of `name`'s lines; a node has the priority of the line that created it,
/// the first of them with that prefix, counted among `name`'s lines from 1.
pub open spec fn trie_facts(node: RuleNode, ls: Seq<Seq<char>>, m: int, k: int, name: Seq<char>) -> bool {
    &&& node.priority == 0
    &&& forall|p: Seq<Seq<char>>|
        #[trigger] has_node(node, p) <==> (p.len() == 0 || exists|j: int| m <= j < k && line_has(ls, j, name, p))
    &&& forall|p: Seq<Seq<char>>|
        p.len() > 0 && #[trigger] has_node(node, p) ==> node_at(node, p).priority == capped(
            rank(ls, m, first_line(ls, m, k, name, p) + 1, name),
        )
}

proof fn lemma_first_line(ls: Seq<Seq<char>>, j: int, k: int, name: Seq<char>, p: Seq<Seq<char>>)
    requires
        j <= k,
    ensures
        j <= first_line(ls, j, k, name, p) <= k,
        first_line(ls, j, k, name, p) < k ==> line_has(ls, first_line(ls, j, k, name, p), name, p),
        first_line(ls, j, k, name, p) < k <==> exists|i: int| j <= i < k && line_has(ls, i, name, p),
        first_line(ls, j, k, name, p) < k ==> first_line(ls, j, k + 1, name, p) == first_line(ls, j, k, name, p),
        first_line(ls, j, k, name, p) == k ==> first_line(ls, j, k + 1, name, p) == if line_has(ls, k, name, p) {
            k
        } else {
            k + 1
        },
    decreases k - j,
{
    if j < k && !line_has(ls, j, name, p) {
        lemma_first_line(ls, j + 1, k, name, p);
        if exists|i: int| j <= i < k && line_has(ls, i, name, p) {
            let i = choose|i: int| j <= i < k && line_has(ls, i, name, p);
            assert(i != j);
        }
    }
    if j == k {
        assert(first_line(ls, k + 1, k + 1, name, p) == k + 1);
    }
}

proof fn lemma_rank_step(ls: Seq<Seq<char>>, m: int, k: int, name: Seq<char>)
    requires
        m <= k,
    ensures
        rank(ls, m, k + 1, name) == rank(ls, m, k, name) + if rule_name(ls, k) == name { 1nat } else { 0nat },
{
}

/// A trie of another nonterminal than that of line `k` is still built from
/// the lines `m..k + 1`.
proof fn lemma_facts_other(node: RuleNode, ls: Seq<Seq<char>>, m: int, k: int, name: Seq<char>)
    requires
        m <= k,
        trie_facts(node, ls, m, k, name),
        rule_name(ls, k) != name,
    ensures
        trie_facts(node, ls, m, k + 1, name),
{
    assert forall|p: Seq<Seq<char>>| #[trigger] has_node(node, p) <==> (p.len() == 0 || exists|j: int|
        m <= j < k + 1 && line_has(ls, j, name, p)) by {
        if exists|j: int| m <= j < k + 1 && line_has(ls, j, name, p) {
            let j = choose|j: int| m <= j < k + 1 && line_has(ls, j, name, p);
            assert(j != k);
        }
    }
    assert forall|p: Seq<Seq<char>>| p.len() > 0 && #[trigger] has_node(node, p) implies node_at(node, p).priority
        == capped(rank(ls, m, first_line(ls, m, k + 1, name, p) + 1, name)) by {
        lemma_first_line(ls, m, k, name, p);
    }
}

/// The trie of the nonterminal of line `k`, after that line is inserted
/// with its priority, is built from the lines `m..k + 1`.
proof fn lemma_facts_step(
    old: RuleNode,
    new: RuleNode,
    ls: Seq<Seq<char>>,
    m: int,
    k: int,
    name: Seq<char>,
    prio: nat,
)
    requires
        m <= k,
        trie_facts(old, ls, m, k, name),
        rule_name(ls, k) == name,
        inserted(old, new, rule_syms(ls, k)),
        prios_kept(old, new, prio),
        new.priority == old.priority,
        prio == capped(rank(ls, m, k + 1, name)),
    ensures
        trie_facts(new, ls, m, k + 1, name),
{
    let path = rule_syms(ls, k);
    assert forall|p: Seq<Seq<char>>| #[trigger] has_node(new, p) <==> (p.len() == 0 || exists|j: int|
        m <= j < k + 1 && line_has(ls, j, name, p)) by {
        if exists|j: int| m <= j < k + 1 && line_has(ls, j, name, p) {
            let j = choose|j: int| m <= j < k + 1 && line_has(ls, j, name, p);
            if j < k {
                assert(has_node(old, p));
            }
        }
        if p.is_prefix_of(path) {
            assert(line_has(ls, k, name, p));
        }
        if has_node(old, p) && p.len() > 0 {
            let j = choose|j: int| m <= j < k && line_has(ls, j, name, p);
            assert(m <= j < k + 1);
        }
    }
    assert forall|p: Seq<Seq<char>>| p.len() > 0 && #[trigger] has_node(new, p) implies node_at(new, p).priority
        == capped(rank(ls, m, first_line(ls, m, k + 1, name, p) + 1, name)) by {
        lemma_first_line(ls, m, k, name, p);
        if has_node(old, p) {
            let j = choose|j: int| m <= j < k && line_has(ls, j, name, p);
            assert(first_line(ls, m, k, name, p) < k);
        } else {
            assert(p.is_prefix_of(path));
            assert(line_has(ls, k, name, p));
            if first_line(ls, m, k, name, p) < k {
                assert(has_node(old, p));
            }
        }
    }
}

proof fn lemma_facts_new(node: RuleNode, ls: Seq<Seq<char>>, m: int, k: int, name: Seq<char>)
    requires
        m <= k,
        node.priority == 0,
        node.children@.len() == 0,
        forall|j: int| m <= j < k ==> rule_name(ls, j) != name,
    ensures
        trie_facts(node, ls, m, k, name),
        rank(ls, m, k, name) == 0,
    decreases k - m,
{
    assert forall|p: Seq<Seq<char>>| #[trigger] has_node(node, p) <==> (p.len() == 0 || exists|j: int|
        m <= j < k && line_has(ls, j, name, p)) by {
        if p.len() > 0 {
            assert(find_child(node.children@, p[0]) is None);
        }
    }
    if k > m {
        lemma_facts_new(node, ls, m, k - 1, name);
    }
}


/// Every trie of `rules` is built from the rule lines `m..k`, and `counts`
/// holds how many lines each nonterminal has there.
pub open spec fn facts_of(rules: Seq<(String, RuleNode)>, counts: Seq<u32>, ls: Seq<Seq<char>>, m: int, k: int) -> bool {
    forall|i: int|
        0 <= i < rules.len() ==> trie_facts((#[trigger] rules[i]).1, ls, m, k, rules[i].0@) && counts[i]
            == capped(rank(ls, m, k, rules[i].0@))
}

proof fn lemma_facts_loop(
    r0: Seq<(String, RuleNode)>,
    c0: Seq<u32>,
    r1: Seq<(String, RuleNode)>,
    c1: Seq<u32>,
    rs: Seq<(String, RuleNode)>,
    cs: Seq<u32>,
    ls: Seq<Seq<char>>,
    m: int,
    pos: int,
    i: int,
    existed: bool,
    name: Seq<char>,
    node: RuleNode,
    n: String,
    p: u32,
)
    requires
        m <= pos,
        facts_of(r0, c0, ls, m, pos),
        tries_of(r0, c0, ls, m, pos),
        existed ==> r1 == r0 && c1 == c0 && 0 <= i < r0.len() && r0[i].0@ == name,
        !existed ==> r1 == r0.push(r1[i]) && c1 == c0.push(0) && i == r0.len() && r1[i].0@ == name
            && r1[i].1.priority == 0 && r1[i].1.children@.len() == 0
            && forall|k: int| 0 <= k < r0.len() ==> (#[trigger] r0[k]).0@ != name,
        rule_name(ls, pos) == name,
        inserted(r1[i].1, node, rule_syms(ls, pos)),
        prios_kept(r1[i].1, node, p as nat),
        node.priority == r1[i].1.priority,
        p == if c1[i] < u32::MAX { (c1[i] + 1) as u32 } else { c1[i] },
        rs == r1.update(i, (n, node)),
        n@ == name,
        cs == c1.update(i, p),
    ensures
        facts_of(rs, cs, ls, m, pos + 1),
{
    if !existed {
        assert forall|j: int| m <= j < pos implies rule_name(ls, j) != name by {
            lemma_find_from(r0, rule_name(ls, j), 0);
            assert(find_child(r0, rule_name(ls, j)) is Some);
        }
        lemma_facts_new(r1[i].1, ls, m, pos, name);
    }
    assert(trie_facts(r1[i].1, ls, m, pos, name) && c1[i] == capped(rank(ls, m, pos, name))) by {
        if existed {
            assert(r0[i] == r1[i]);
        }
    }
    lemma_rank_step(ls, m, pos, name);
    lemma_facts_step(r1[i].1, node, ls, m, pos, name, p as nat);
    assert forall|k: int| 0 <= k < rs.len() implies trie_facts((#[trigger] rs[k]).1, ls, m, pos + 1, rs[k].0@)
        && cs[k] == capped(rank(ls, m, pos + 1, rs[k].0@)) by {
        if k != i {
            assert(rs[k] == r0[k]);
            assert(cs[k] == c0[k]);
            assert(r0[k].0@ != name) by {
                if existed {
                    assert(r0[k].0@ != r0[i].0@);
                }
            }
            lemma_rank_step(ls, m, pos, r0[k].0@);
            lemma_facts_other(r0[k].1, ls, m, pos, r0[k].0@);
        }
    }
}

/// Reads the rule lines of `lines` from index `m` on and builds their tries.
#[verifier::rlimit(100)]
fn read_rules(lines: &Vec<Vec<char>>, m: usize) -> (r: Result<(Vec<(String, RuleNode)>, Vec<Vec<String>>, Option<String>), ParseErr>)
    requires
        m <= lines@.len(),
    ensures
        r is Ok ==> first_rule_error(line_views(lines@), m as int) is None,
        r matches Ok((rules, parsed, root)) ==> tries_shape(rules@, line_views(lines@), m as int, lines@.len() as int),
        r matches Ok((rules, parsed, root)) ==> forall|i: int| 0 <= i < rules@.len() ==> trie_facts(
            (#[trigger] rules@[i]).1, line_views(lines@), m as int, lines@.len() as int, rules@[i].0@),
        r matches Ok((rules, parsed, root)) ==> last_root(line_views(lines@), m as int, lines@.len() as int)
            == (match root {
                Some(s) => Some(s@),
                None => None::<Seq<char>>,
            }),
        r matches Ok((rules, parsed, root)) ==> parsed@.len() == lines@.len() - m,
        r matches Ok((rules, parsed, root)) ==> forall|k: int| 0 <= k < parsed@.len() ==> (#[trigger] parsed@[k])@.map_values(|w: String| w@)
            == rule_syms(line_views(lines@), m + k),
        r matches Err(e) ==> first_rule_error(line_views(lines@), m as int) matches Some(g) && err_is(e, g),
{
    let ghost ls = line_views(lines@);
    let mut rules: Vec<(String, RuleNode)> = Vec::new();
    let mut counts: Vec<u32> = Vec::new();
    let mut parsed: Vec<Vec<String>> = Vec::new();
    let mut root: Option<String> = None;
    let mut pos: usize = m;
    loop
        invariant
            ls == line_views(lines@),
            m <= pos <= ls.len(),
            first_rule_error(ls, m as int) == first_rule_error(ls, pos as int),
            tries_of(rules@, counts@, ls, m as int, pos as int),
            facts_of(rules@, counts@, ls, m as int, pos as int),
            last_root(ls, m as int, pos as int) == (match root {
                Some(s) => Some(s@),
                None => None::<Seq<char>>,
            }),
            parsed@.len() == pos - m,
            forall|k: int| 0 <= k < parsed@.len() ==> (#[trigger] parsed@[k])@.map_values(|w: String| w@)
                == rule_syms(ls, m + k),
        decreases ls.len() - pos,
    {
        let ghost pos0 = pos;
        proof {
            if pos < ls.len() {
                assert(ls[pos as int] == lines@[pos as int]@);
            }
        }
        match AstRules::consume_rule(lines, &mut pos) {
            Ok((name, syms, is_root)) => {
                let ghost r0 = rules@;
                let ghost c0 = counts@;
                let ghost pa0 = parsed@;
                let ghost path = syms@.map_values(|w: String| w@);
                let found = child_pos(&rules, &name);
                let i = match found {
                    Some(i) => i,
                    None => {
                        rules.push((name.clone(), RuleNode::new(0)));
                        counts.push(0);
                        rules.len() - 1
                    },
                };
                let ghost r1 = rules@;
                let ghost c1 = counts@;
                proof {
                    lemma_find_from(r0, name@, 0);
                    if found is None {
                        assert(r1 =~= r0.push(r1[i as int]));
                        assert(c1 =~= c0.push(0));
                    }
                    assert(wf_node(rules@[i as int].1, counts@[i as int] as nat));
                }
                let c = counts[i];
                let p: u32 = if c < u32::MAX { c + 1 } else { c };
                let (n, mut node) = rules.remove(i);
                let ghost old_node = node;
                proof {
                    lemma_wf_mono(node, c as nat, p as nat);
                }
                add_rule(p, &mut node, syms.as_slice());
                rules.insert(i, (n, node));
                counts.set(i, p);
                let ghost name_v = name@;
                if is_root {
                    root = Some(name);
                }
                parsed.push(syms);
                proof {
                    let rs = rules@;
                    assert(rs =~= r1.update(i as int, (n, node)));
                    assert(rule_name(ls, pos0 as int) == name_v);
                    assert(rule_syms(ls, pos0 as int) == path);
                    assert(counts@ =~= c1.update(i as int, p));
                    assert(old_node == r1[i as int].1);
                    lemma_facts_loop(r0, c0, r1, c1, rs, counts@, ls, m as int, pos0 as int, i as int,
                        found is Some, name_v, node, n, p);
                    assert(path.len() > 0);
                    assert(n@ == name_v);
                    assert forall|a: int, b: int| 0 <= a < b < rs.len() implies (#[trigger] rs[a]).0@
                        != (#[trigger] rs[b]).0@ by {
                        if found is None && b == r0.len() {
                            assert(r0[a] == rs[a]);
                        } else {
                            assert(r1[a].0@ != r1[b].0@);
                        }
                    }
                    assert forall|j: int| m <= j < pos implies #[trigger] find_child(rs, rule_name(ls, j)) is Some by {
                        lemma_find_from(rs, rule_name(ls, j), 0);
                        if j == pos0 {
                            assert(rs[i as int].0@ == rule_name(ls, j));
                        } else {
                            lemma_find_from(r0, rule_name(ls, j), 0);
                            let q = find_child(r0, rule_name(ls, j))->0;
                            assert(rs[q].0@ == r0[q].0@);
                        }
                    }
                    assert forall|k: int| 0 <= k < rs.len() implies exists|j: int| m <= j < pos && rule_name(ls, j)
                        == (#[trigger] rs[k]).0@ by {
                        if k == i {
                            assert(rule_name(ls, pos0 as int) == rs[k].0@);
                        } else {
                            assert(rs[k] == r0[k]);
                            let j = choose|j: int| m <= j < pos0 && rule_name(ls, j) == r0[k].0@;
                            assert(rule_name(ls, j) == rs[k].0@);
                        }
                    }
                    assert forall|k: int| 0 <= k < rs.len() implies wf_node(#[trigger] rs[k].1, counts@[k] as nat)
                        && !rs[k].1.terminal by {
                        if k != i {
                            assert(rs[k] == r0[k]);
                            assert(counts@[k] == c0[k]);
                        }
                    }
                    assert forall|k: int, q: Seq<Seq<char>>| 0 <= k < rs.len() implies (#[trigger] has_alt(
                        rs[k].1, q) <==> exists|j: int| m <= j < pos && rule_name(ls, j) == rs[k].0@
                        && rule_syms(ls, j) == q) by {
                        if k == i {
                            if found is Some {
                                assert(r0[k] == r1[k]);
                                assert(has_alt(old_node, q) <==> exists|j: int| m <= j < pos0 && rule_name(ls, j)
                                    == r0[k].0@ && rule_syms(ls, j) == q);
                            } else {
                                assert(!has_alt(old_node, q)) by {
                                    if q.len() > 0 {
                                        assert(find_child(old_node.children@, q[0]) is None);
                                    }
                                }
                                assert(forall|j: int| m <= j < pos0 ==> rule_name(ls, j) != name_v) by {
                                    assert forall|j: int| m <= j < pos0 implies rule_name(ls, j) != name_v by {
                                        lemma_find_from(r0, rule_name(ls, j), 0);
                                        assert(find_child(r0, rule_name(ls, j)) is Some);
                                    }
                                }
                            }
                            if q == path {
                                assert(m <= pos0 < pos && rule_name(ls, pos0 as int) == rs[k].0@
                                    && rule_syms(ls, pos0 as int) == q);
                            }
                        } else {
                            assert(rs[k] == r0[k]);
                            assert(r0[k].0@ != name_v) by {
                                if found is Some {
                                    assert(r1[k].0@ != r1[i as int].0@);
                                } else {
                                    assert(r1[k].0@ != r1[i as int].0@);
                                }
                            }
                            assert(has_alt(r0[k].1, q) <==> exists|j: int| m <= j < pos0 && rule_name(ls, j)
                                == r0[k].0@ && rule_syms(ls, j) == q);
                        }
                    }
                    assert forall|k: int| 0 <= k < parsed@.len() implies (#[trigger] parsed@[k])@.map_values(
                        |w: String| w@) == rule_syms(ls, m + k) by {
                        if k < parsed@.len() - 1 {
                            assert(parsed@[k] == pa0[k]);
                        }
                    }
                }
            },
            Err(ParseErr::ConsumeErr) => {
                assert(pos == ls.len());
                assert(tries_of(rules@, counts@, ls, m as int, ls.len() as int));
                assert(first_rule_error(ls, m as int) is None);
                assert(parsed@.len() == ls.len() - m);
                assert forall|k: int| 0 <= k < rules@.len() implies wf_node(#[trigger] rules@[k].1, u32::MAX as nat)
                    && !rules@[k].1.terminal by {
                    lemma_wf_mono(rules@[k].1, counts@[k] as nat, u32::MAX as nat);
                }
                assert(last_root(ls, m as int, ls.len() as int) == (match root {
                        Some(s) => Some(s@),
                        None => None::<Seq<char>>,
                    }));
                return Ok((rules, parsed, root));
            },
            Err(e) => {
                return Err(e);
            },
        }
    }
}

proof fn lemma_defined(
    tokens: Seq<(String, TokenDefinition)>,
    rules: Seq<(String, RuleNode)>,
    ls: Seq<Seq<char>>,
    m: int,
    s: Seq<char>,
)
    requires
        0 <= m <= ls.len(),
        tokens.len() == m,
        forall|i: int| 0 <= i < m ==> (#[trigger] tokens[i]).0@ == tok_name(ls, i),
        tries_shape(rules, ls, m, ls.len() as int),
    ensures
        is_defined(ls, m, s) == (is_token_name(tokens, s) || find_child(rules, s) is Some),
{
    lemma_find_from(rules, s, 0);
    if is_token_name(tokens, s) {
        let k = choose|k: int| 0 <= k < tokens.len() && (#[trigger] tokens[k]).0@ == s;
        assert(tok_name(ls, k) == s);
    }
    if exists|i: int| 0 <= i < m && tok_name(ls, i) == s {
        let i = choose|i: int| 0 <= i < m && tok_name(ls, i) == s;
        assert(tokens[i].0@ == s);
    }
    if let Some(q) = find_child(rules, s) {
        assert(exists|j: int| m <= j < ls.len() && rule_name(ls, j) == rules[q].0@);
    }
    if exists|j: int| m <= j < ls.len() && rule_name(ls, j) == s {
        let j = choose|j: int| m <= j < ls.len() && rule_name(ls, j) == s;
        assert(find_child(rules, rule_name(ls, j)) is Some);
    }
}

/// The first symbol of the parsed rule lines that names neither a token nor
/// a nonterminal.
fn find_undefined(
    tokens: &Vec<(String, TokenDefinition)>,
    rules: &Vec<(String, RuleNode)>,
    parsed: &Vec<Vec<String>>,
    Ghost(ls): Ghost<Seq<Seq<char>>>,
    m: usize,
) -> (r: Option<String>)
    requires
        m <= ls.len(),
        tokens@.len() == m,
        forall|i: int| 0 <= i < m ==> (#[trigger] tokens@[i]).0@ == tok_name(ls, i),
        tries_shape(rules@, ls, m as int, ls.len() as int),
        parsed@.len() == ls.len() - m,
        forall|k: int| 0 <= k < parsed@.len() ==> (#[trigger] parsed@[k])@.map_values(|w: String| w@)
            == rule_syms(ls, m + k),
    ensures
        (match r {
            Some(s) => Some(s@),
            None => None::<Seq<char>>,
        }) == first_undefined(ls, m as int, m as int),
{
    let mut k: usize = 0;
    while k < parsed.len()
        invariant
            m <= ls.len(),
            tokens@.len() == m,
            forall|i: int| 0 <= i < m ==> (#[trigger] tokens@[i]).0@ == tok_name(ls, i),
            tries_shape(rules@, ls, m as int, ls.len() as int),
            parsed@.len() == ls.len() - m,
            forall|k: int| 0 <= k < parsed@.len() ==> (#[trigger] parsed@[k])@.map_values(|w: String| w@)
                == rule_syms(ls, m + k),
            k <= parsed@.len(),
            first_undefined(ls, m as int, m as int) == first_undefined(ls, m as int, m + k),
        decreases parsed@.len() - k,
    {
        let syms = &parsed[k];
        let ghost sv = rule_syms(ls, m + k);
        assert(syms@.map_values(|w: String| w@) == sv);
        let mut t: usize = 0;
        while t < syms.len()
            invariant
                m <= ls.len(),
                tokens@.len() == m,
                forall|i: int| 0 <= i < m ==> (#[trigger] tokens@[i]).0@ == tok_name(ls, i),
                tries_shape(rules@, ls, m as int, ls.len() as int),
                syms@.map_values(|w: String| w@) == sv,
                sv == rule_syms(ls, m + k),
                k < parsed@.len(),
                parsed@.len() == ls.len() - m,
                first_undefined(ls, m as int, m as int) == first_undefined(ls, m as int, m + k),
                t <= syms@.len(),
                undefined_from(ls, m as int, sv, 0) == undefined_from(ls, m as int, sv, t as int),
            decreases syms@.len() - t,
        {
            let s = &syms[t];
            assert(sv[t as int] == s@);
            proof {
                lemma_defined(tokens@, rules@, ls, m as int, s@);
                lemma_find_from(rules@, s@, 0);
            }
            if !is_token_def(tokens, s) && child_pos(rules, s).is_none() {
                assert(!is_defined(ls, m as int, sv[t as int]));
                assert(undefined_from(ls, m as int, sv, t as int) == Some(sv[t as int]));
                assert(first_undefined(ls, m as int, m + k) == Some(sv[t as int]));
                return Some(s.clone());
            }
            t = t + 1;
        }
        k = k + 1;
    }
    None
}

impl AstRules {
    /// Compiles the grammar `source`: first the token lines (`#name pattern`,
    /// `#!name pattern` or `#name !pattern` for a regular expression), then
    /// the rule lines (`name: sym sym ...`, the root marked `*name: ...`).
    /// Blank lines are skipped; the last rule marked as the root wins.
    /// A pattern of more than one character that starts with `!` is always
    /// read as a regular expression, so an exact literal cannot start with
    /// `!`: `#neq !=` defines the regular expression `=`, and the literal
    /// `!=` is written as the regular expression `#!neq !=`.
    pub fn parse(source: &str) -> (r: Result<AstRules, ParseErr>)
        ensures
            match r {
                Ok(a) => grammar_error(grammar_lines(source@, 0)) is None && compiled_from(a, grammar_lines(source@, 0)),
                Err(e) => grammar_error(grammar_lines(source@, 0)) matches Some(g) && err_is(e, g),
            },
    {
        let chars = crate::text::chars_of(source);
        let lines = split_lines(chars.as_slice());
        let ghost ls = line_views(lines@);
        assert(ls == grammar_lines(source@, 0));
        let (tokens, m) = match read_tokens(&lines) {
            Ok(t) => t,
            Err(e) => return Err(e),
        };
        proof {
            lemma_token_end(ls, 0);
        }
        let (rules, parsed, root) = match read_rules(&lines, m) {
            Ok(t) => t,
            Err(e) => return Err(e),
        };
        let root_rule = match root {
            Some(s) => s,
            None => return Err(ParseErr::NoRoot),
        };
        match find_undefined(&tokens, &rules, &parsed, Ghost(ls), m) {
            Some(s) => Err(ParseErr::UndefinedName(s)),
            None => Ok(AstRules { tokens, rules, root_rule }),
        }
    }

    /// Reads the token definition on line `*pos` of `lines`, and moves past it.
    /// Fails with `ConsumeErr` when there is no such line or it is no token line.
    pub fn consume_token_def(lines: &Vec<Vec<char>>, pos: &mut usize) -> (r: Result<(String, TokenDefinition), ParseErr>)
        requires
            *old(pos) <= lines@.len(),
        ensures
            if *old(pos) < lines@.len() && is_token_line(lines@[*old(pos) as int]@) {
                match token_def_of(lines@[*old(pos) as int]@) {
                    Ok((name, reg, pat)) => r matches Ok((n, d)) && n@ == name && def_is(d, reg, pat)
                        && *final(pos) == *old(pos) + 1,
                    Err(g) => r matches Err(e) && err_is(e, g) && *final(pos) == *old(pos),
                }
            } else {
                r matches Err(ParseErr::ConsumeErr) && *final(pos) == *old(pos)
            },
    {
        if *pos >= lines.len() {
            return Err(ParseErr::ConsumeErr);
        }
        let line = &lines[*pos];
        if line.len() == 0 || line[0] != '#' {
            return Err(ParseErr::ConsumeErr);
        }
        let body = &line[1..line.len()];
        let ghost b = body@;
        assert(b =~= line@.skip(1));
        proof {
            lemma_index_from(b, ' ', 0);
        }
        let sp = match find_char(body, ' ') {
            Some(sp) => sp,
            None => return Err(ParseErr::InvalidTokenDef(string_of(body))),
        };
        let name = &body[0..sp];
        let pat = &body[sp + 1..body.len()];
        assert(name@ =~= b.take(sp as int));
        assert(pat@ =~= b.skip(sp + 1));
        if pat.len() == 0 || name.len() == 0 {
            return Err(ParseErr::InvalidTokenDef(string_of(body)));
        }
        if name[0] == '!' {
            let n = &name[1..name.len()];
            assert(n@ =~= name@.skip(1));
            match RegToken::new(pat) {
                Ok(t) => {
                    *pos = *pos + 1;
                    Ok((string_of(n), TokenDefinition::Reg(t)))
                },
                Err(_) => Err(ParseErr::TokenInvalidReg(string_of(body))),
            }
        } else if pat.len() > 1 && pat[0] == '!' {
            let p = &pat[1..pat.len()];
            assert(p@ =~= pat@.skip(1));
            match RegToken::new(p) {
                Ok(t) => {
                    *pos = *pos + 1;
                    Ok((string_of(name), TokenDefinition::Reg(t)))
                },
                Err(_) => Err(ParseErr::TokenInvalidReg(string_of(body))),
            }
        } else {
            *pos = *pos + 1;
            Ok((string_of(name), TokenDefinition::Exact(ExactToken::new(pat))))
        }
    }

    /// Reads the rule on line `*pos` of `lines`, and moves past it. Fails with
    /// `ConsumeErr` when there is no such line.
    pub fn consume_rule(lines: &Vec<Vec<char>>, pos: &mut usize) -> (r: Result<(String, Vec<String>, bool), ParseErr>)
        requires
            *old(pos) <= lines@.len(),
        ensures
            if *old(pos) < lines@.len() {
                match rule_of_line(lines@[*old(pos) as int]@) {
                    Ok((name, syms, root)) => r matches Ok((n, v, is_root)) && n@ == name
                        && v@.map_values(|w: String| w@) == syms && is_root == root
                        && *final(pos) == *old(pos) + 1,
                    Err(g) => r matches Err(e) && err_is(e, g) && *final(pos) == *old(pos),
                }
            } else {
                r matches Err(ParseErr::ConsumeErr) && *final(pos) == *old(pos)
            },
    {
        if *pos >= lines.len() {
            return Err(ParseErr::ConsumeErr);
        }
        let line = &lines[*pos];
        proof {
            lemma_index_from(line@, ':', 0);
        }
        let c = match find_char(line.as_slice(), ':') {
            Some(c) => c,
            None => return Err(ParseErr::InvalidRuleDef(string_of(line.as_slice()))),
        };
        let len = line.len();
        assert(c < len);
        let root = c > 0 && line[0] == '*';
        let start: usize = if root { 1 } else { 0 };
        let (a, b) = trim_range(line.as_slice(), start, c);
        proof {
            let head = line@.take(c as int);
            if root {
                assert(line@.subrange(1, c as int) =~= head.skip(1));
            } else {
                assert(line@.subrange(0, c as int) =~= head);
            }
        }
        let syms = split_words(line.as_slice(), c + 1, len);
        assert(line@.subrange(c + 1, line@.len() as int) =~= line@.skip(c + 1));
        if a == b || syms.len() == 0 {
            return Err(ParseErr::InvalidRuleDef(string_of(line.as_slice())));
        }
        *pos = *pos + 1;
        Ok((string_of(&line[a..b]), syms, root))
    }
}


proof fn lemma_no_root(lines: Seq<Seq<char>>, m: int, k: int)
    requires
        0 <= m <= k <= lines.len(),
        forall|j: int| m <= j < lines.len() ==> !(#[trigger] rule_of_line(lines[j]))->Ok_0.2,
    ensures
        last_root(lines, m, k) is None,
    decreases k - m,
{
    if k > m {
        assert(!rule_of_line(lines[k - 1])->Ok_0.2);
        lemma_no_root(lines, m, k - 1);
    }
}

/// A grammar whose lines are all well formed but that marks no rule as the
/// root is refused, with the error `NoRoot`.
pub proof fn lemma_missing_root(lines: Seq<Seq<char>>)
    requires
        first_token_error(lines, 0, token_end(lines, 0)) is None,
        first_rule_error(lines, token_end(lines, 0)) is None,
        forall|j: int| token_end(lines, 0) <= j < lines.len() ==> !(#[trigger] rule_of_line(lines[j]))->Ok_0.2,
    ensures
        grammar_error(lines) == Some(GrammarError::NoRoot),
{
    lemma_token_end(lines, 0);
    lemma_no_root(lines, token_end(lines, 0), lines.len() as int);
}

} // verus!
