//! C syntax trees: tree-sitter's concrete syntax tree of a translation
//! unit, copied into an arena of nodes in preorder.

use vstd::prelude::*;
use crate::text::{string_is, chars_to_string};

verus! {

#[verifier::external_type_specification]
#[verifier::external_body]
pub struct ExParser(tree_sitter::Parser);

#[verifier::external_type_specification]
#[verifier::external_body]
pub struct ExTree(tree_sitter::Tree);

#[verifier::external_type_specification]
#[verifier::external_body]
pub struct ExTreeCursor<'a>(tree_sitter::TreeCursor<'a>);

#[verifier::external_type_specification]
#[verifier::external_body]
pub struct ExNode<'a>(tree_sitter::Node<'a>);

/// `Parser::new`: a parser with no language set.
#[verifier::external_body]
fn ts_parser_new() -> (r: tree_sitter::Parser) {
    tree_sitter::Parser::new()
}

/// Whether tree-sitter-c's language is assigned to the parser.
pub uninterp spec fn c_language_set(p: tree_sitter::Parser) -> bool;

/// `Parser::set_language` with tree-sitter-c's `LANGUAGE`; whether it was
/// accepted. It always is: the grammar's ABI version (15) lies in the
/// range this tree-sitter accepts (13 to 15), and the language is
/// parseable; the parser then has the language assigned.
#[verifier::external_body]
fn ts_set_c_language(p: &mut tree_sitter::Parser) -> (r: bool)
    ensures
        r,
        c_language_set(*final(p)),
{
    p.set_language(&tree_sitter_c::LANGUAGE.into()).is_ok()
}

/// `Parser::parse` of `source` with no earlier tree. Its documentation
/// gives `None` only for a parser with no language assigned, so a parser
/// that has one gives a tree (and keeps its language).
#[verifier::external_body]
fn ts_parse(p: &mut tree_sitter::Parser, source: &str) -> (r: Option<tree_sitter::Tree>)
    ensures
        c_language_set(*old(p)) ==> r is Some && c_language_set(*final(p)),
{
    p.parse(source, None)
}

/// `Tree::walk`: a cursor on the root node.
#[verifier::external_body]
fn ts_walk<'a>(t: &'a tree_sitter::Tree) -> (r: tree_sitter::TreeCursor<'a>) {
    t.walk()
}

/// `TreeCursor::node`: the node under the cursor.
#[verifier::external_body]
fn ts_cursor_node<'a>(c: &tree_sitter::TreeCursor<'a>) -> (r: tree_sitter::Node<'a>) {
    c.node()
}

/// `TreeCursor::field_name`: the field name of the node under the cursor.
#[verifier::external_body]
fn ts_field_name(c: &tree_sitter::TreeCursor) -> (r: Option<String>) {
    c.field_name().map(|f| f.to_string())
}

/// `TreeCursor::goto_first_child`: whether the cursor moved.
#[verifier::external_body]
fn ts_goto_first_child(c: &mut tree_sitter::TreeCursor) -> (r: bool) {
    c.goto_first_child()
}

/// `TreeCursor::goto_next_sibling`: whether the cursor moved.
#[verifier::external_body]
fn ts_goto_next_sibling(c: &mut tree_sitter::TreeCursor) -> (r: bool) {
    c.goto_next_sibling()
}

/// `TreeCursor::goto_parent`: whether the cursor moved.
#[verifier::external_body]
fn ts_goto_parent(c: &mut tree_sitter::TreeCursor) -> (r: bool) {
    c.goto_parent()
}

/// `Node::kind`: the grammar kind of the node.
#[verifier::external_body]
fn ts_kind(n: &tree_sitter::Node) -> (r: String) {
    n.kind().to_string()
}

/// `Node::is_named`.
#[verifier::external_body]
fn ts_is_named(n: &tree_sitter::Node) -> (r: bool) {
    n.is_named()
}

/// `Node::has_error`: whether the node or a descendant is a syntax error.
#[verifier::external_body]
fn ts_has_error(n: &tree_sitter::Node) -> (r: bool) {
    n.has_error()
}

/// `Node::start_position`: zero-based row and column, as `u32`.
#[verifier::external_body]
fn ts_start_position(n: &tree_sitter::Node) -> (r: (u32, u32)) {
    let p = n.start_position();
    (p.row as u32, p.column as u32)
}

/// `Node::byte_range` sliced out of `source`: the node's text, empty when
/// the range does not lie in `source` on character boundaries (so a node
/// of another source cannot make it panic).
#[verifier::external_body]
fn ts_text(n: &tree_sitter::Node, source: &str) -> (r: String) {
    match source.get(n.byte_range()) {
        Some(t) => t.to_string(),
        None => String::new(),
    }
}

/// One node of a syntax tree: its grammar kind, the field name it has in its
/// parent, whether it is a named node, its source text, its start position
/// (zero-based row and column), whether it or a descendant is a syntax
/// error, and its parent.
#[derive(Debug, Clone)]
pub struct SyntaxNode {
    pub kind: String,
    pub field: Option<String>,
    pub named: bool,
    pub text: String,
    pub row: u32,
    pub col: u32,
    pub has_error: bool,
    pub parent: Option<usize>,
}

/// A syntax tree: node 0 is the root; `children[i]` lists the children of
/// node `i` in order.
#[derive(Debug)]
pub struct SyntaxTree {
    pub nodes: Vec<SyntaxNode>,
    pub children: Vec<Vec<usize>>,
}

/// The tree's shape: one child list per node, and every child comes after
/// its parent.
pub open spec fn tree_wf(t: SyntaxTree) -> bool {
    &&& t.nodes@.len() >= 1
    &&& t.children@.len() == t.nodes@.len()
    &&& forall|i: int, k: int| 0 <= i < t.children@.len() && 0 <= k < t.children@[i]@.len()
        ==> i < #[trigger] t.children@[i]@[k] < t.nodes@.len()
}

/// `syntax tree too large`.
pub open spec fn tree_too_large_message() -> Seq<char> {
    seq!['s', 'y', 'n', 't', 'a', 'x', ' ', 't', 'r', 'e', 'e', ' ', 't', 'o', 'o', ' ', 'l', 'a', 'r', 'g', 'e']
}

fn tree_too_large() -> (r: String)
    ensures
        r@ == tree_too_large_message(),
{
    let v: Vec<char> = vec!['s', 'y', 'n', 't', 'a', 'x', ' ', 't', 'r', 'e', 'e', ' ', 't', 'o', 'o', ' ', 'l', 'a', 'r', 'g', 'e'];
    proof { assert(v@ =~= tree_too_large_message()); }
    chars_to_string(v.as_slice())
}

/// Parses C source with tree-sitter and copies the tree, node by node in
/// preorder. The parser always gives a tree; the one failure left is a tree
/// of `usize::MAX - 1` nodes or more, which no memory holds.
pub fn parse_c_source(source: &str) -> (r: Result<SyntaxTree, String>)
    ensures
        r matches Ok(t) ==> tree_wf(t),
        r is Err ==> r->Err_0@ == tree_too_large_message(),
{
    let mut parser = ts_parser_new();
    ts_set_c_language(&mut parser);
    let tree = match ts_parse(&mut parser, source) {
        Some(t) => t,
        None => {
            return Err(tree_too_large());
        },
    };
    let mut cursor = ts_walk(&tree);
    let mut nodes: Vec<SyntaxNode> = Vec::new();
    let mut children: Vec<Vec<usize>> = Vec::new();
    let mut up: Vec<usize> = Vec::new();
    let mut visit = true;
    let mut done = false;
    while !done
        invariant
            children@.len() == nodes@.len(),
            up@.len() <= nodes@.len(),
            nodes@.len() < usize::MAX,
            forall|j: int| 0 <= j < up@.len() ==> #[trigger] up@[j] < nodes@.len(),
            forall|i: int, k: int| 0 <= i < children@.len() && 0 <= k < children@[i]@.len()
                ==> i < #[trigger] children@[i]@[k] < nodes@.len(),
            !visit ==> nodes@.len() >= 1,
            done ==> nodes@.len() >= 1,
        decreases 3 * (usize::MAX - nodes@.len()) + up@.len() + (if visit { 0int } else { 1int }) + (if done { 0int } else { 1int }),
    {
        if visit {
            if nodes.len() >= usize::MAX - 1 {
                return Err(tree_too_large());
            }
            let n = ts_cursor_node(&cursor);
            let (row, col) = ts_start_position(&n);
            let parent: Option<usize> = if up.len() > 0 { Some(up[up.len() - 1]) } else { None };
            let idx = nodes.len();
            nodes.push(SyntaxNode {
                kind: ts_kind(&n),
                field: ts_field_name(&cursor),
                named: ts_is_named(&n),
                text: ts_text(&n, source),
                row,
                col,
                has_error: ts_has_error(&n),
                parent,
            });
            children.push(Vec::new());
            if let Some(p) = parent {
                let mut list = children[p].clone();
                list.push(idx);
                let ghost before = children@;
                children.set(p, list);
                proof {
                    assert forall|i: int, k: int| 0 <= i < children@.len() && 0 <= k < children@[i]@.len()
                        implies i < #[trigger] children@[i]@[k] < nodes@.len() by {
                        if i != p && i < idx {
                            assert(children@[i] == before[i]);
                        }
                    }
                }
            }
            if ts_goto_first_child(&mut cursor) {
                up.push(idx);
            } else {
                visit = false;
            }
        } else if ts_goto_next_sibling(&mut cursor) {
            visit = true;
        } else if up.len() > 0 && ts_goto_parent(&mut cursor) {
            up.pop();
        } else {
            done = true;
        }
    }
    Ok(SyntaxTree { nodes, children })
}

/// Whether the tree has a syntax error: its root, or a node below it, is an
/// error node.
pub fn has_parse_errors(tree: &SyntaxTree) -> (r: bool)
    requires
        tree_wf(*tree),
    ensures
        r == tree.nodes@[0].has_error,
{
    tree.nodes[0].has_error
}

/// The first of `kids` whose field name is `f`.
pub open spec fn field_pick(t: SyntaxTree, kids: Seq<usize>, f: Seq<char>) -> Option<usize>
    decreases kids.len(),
{
    if kids.len() == 0 {
        None
    } else if t.nodes@[kids[0] as int].field matches Some(name) && name@ == f {
        Some(kids[0])
    } else {
        field_pick(t, kids.drop_first(), f)
    }
}

/// Named node number `k` (from zero) among `kids`.
pub open spec fn named_pick(t: SyntaxTree, kids: Seq<usize>, k: int) -> Option<usize>
    decreases kids.len(),
{
    if kids.len() == 0 {
        None
    } else if t.nodes@[kids[0] as int].named {
        if k == 0 {
            Some(kids[0])
        } else {
            named_pick(t, kids.drop_first(), k - 1)
        }
    } else {
        named_pick(t, kids.drop_first(), k)
    }
}

/// `c`, when it is a node after `i`.
pub open spec fn below(t: SyntaxTree, i: int, c: Option<usize>) -> Option<usize> {
    match c {
        Some(x) => if i < x < t.nodes@.len() { Some(x) } else { None },
        None => None,
    }
}

/// The first child of node `i` with field name `f`.
pub open spec fn field_child(t: SyntaxTree, i: int, f: Seq<char>) -> Option<usize> {
    below(t, i, field_pick(t, t.children@[i]@, f))
}

/// Named child `k` of node `i`.
pub open spec fn named_child_at(t: SyntaxTree, i: int, k: int) -> Option<usize> {
    below(t, i, named_pick(t, t.children@[i]@, k))
}

/// Child `k` of node `i`, counting all children.
pub open spec fn child_at(t: SyntaxTree, i: int, k: int) -> Option<usize> {
    if 0 <= k < t.children@[i]@.len() {
        below(t, i, Some(t.children@[i]@[k]))
    } else {
        None
    }
}

impl SyntaxTree {
    /// The kind of node `i` is `k`.
    pub fn kind_is(&self, i: usize, k: &str) -> (r: bool)
        requires
            i < self.nodes@.len(),
        ensures
            r == (self.nodes@[i as int].kind@ == k@),
    {
        string_is(&self.nodes[i].kind, k)
    }

    /// The first child of node `i` with field name `f`.
    pub fn child_by_field(&self, i: usize, f: &str) -> (r: Option<usize>)
        requires
            tree_wf(*self),
            i < self.nodes@.len(),
        ensures
            r == field_child(*self, i as int, f@),
            r == field_pick(*self, self.children@[i as int]@, f@),
            match r {
                Some(c) => i < c < self.nodes@.len() && self.children@[i as int]@.contains(c),
                None => true,
            },
    {
        let kids = &self.children[i];
        let mut k: usize = 0;
        proof { assert(kids@.subrange(0, kids@.len() as int) =~= kids@); }
        while k < kids.len()
            invariant
                tree_wf(*self),
                i < self.nodes@.len(),
                *kids == self.children@[i as int],
                k <= kids@.len(),
                field_pick(*self, kids@, f@) == field_pick(*self, kids@.subrange(k as int, kids@.len() as int), f@),
            decreases kids@.len() - k,
        {
            let c = kids[k];
            proof {
                assert(i < self.children@[i as int]@[k as int] < self.nodes@.len());
                assert(kids@.subrange(k as int, kids@.len() as int).drop_first()
                    =~= kids@.subrange(k + 1, kids@.len() as int));
            }
            match &self.nodes[c].field {
                Some(name) => {
                    if string_is(name, f) {
                        proof { assert(kids@.subrange(k as int, kids@.len() as int)[0] == c); }
                        return Some(c);
                    }
                },
                None => {},
            }
            k = k + 1;
        }
        proof { assert(kids@.subrange(k as int, kids@.len() as int).len() == 0); }
        None
    }

    /// Child `k` of node `i`, counting all children.
    pub fn child(&self, i: usize, k: usize) -> (r: Option<usize>)
        requires
            tree_wf(*self),
            i < self.nodes@.len(),
        ensures
            r == child_at(*self, i as int, k as int),
            match r {
                Some(c) => i < c < self.nodes@.len() && k < self.children@[i as int]@.len()
                    && c == self.children@[i as int]@[k as int],
                None => k >= self.children@[i as int]@.len(),
            },
    {
        if k < self.children[i].len() {
            proof { assert(i < self.children@[i as int]@[k as int] < self.nodes@.len()); }
            Some(self.children[i][k])
        } else {
            None
        }
    }

    /// Named child `k` of node `i` (counting named children only).
    pub fn named_child(&self, i: usize, k: usize) -> (r: Option<usize>)
        requires
            tree_wf(*self),
            i < self.nodes@.len(),
        ensures
            r == named_child_at(*self, i as int, k as int),
            r == named_pick(*self, self.children@[i as int]@, k as int),
            match r {
                Some(c) => i < c < self.nodes@.len() && self.children@[i as int]@.contains(c),
                None => true,
            },
    {
        let kids = &self.children[i];
        let mut seen: usize = 0;
        let mut j: usize = 0;
        proof { assert(kids@.subrange(0, kids@.len() as int) =~= kids@); }
        while j < kids.len()
            invariant
                tree_wf(*self),
                i < self.nodes@.len(),
                *kids == self.children@[i as int],
                j <= kids@.len(),
                seen <= j,
                seen <= k,
                named_pick(*self, kids@, k as int)
                    == named_pick(*self, kids@.subrange(j as int, kids@.len() as int), k - seen),
            decreases kids@.len() - j,
        {
            let c = kids[j];
            proof {
                assert(i < self.children@[i as int]@[j as int] < self.nodes@.len());
                assert(kids@.subrange(j as int, kids@.len() as int).drop_first()
                    =~= kids@.subrange(j + 1, kids@.len() as int));
            }
            if self.nodes[c].named {
                if seen == k {
                    proof { assert(kids@.subrange(j as int, kids@.len() as int)[0] == c); }
                    return Some(c);
                }
                seen = seen + 1;
            }
            j = j + 1;
        }
        proof { assert(kids@.subrange(j as int, kids@.len() as int).len() == 0); }
        None
    }
}

} // verus!
