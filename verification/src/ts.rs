//! The tree-sitter Python parser, behind trusted wrappers.
//!
//! A node of a parse is identified by the source that was parsed and the
//! child indices that lead to it from the root. What tree-sitter answers
//! about a node depends on nothing else, so each answer is named by a spec
//! function of those two values. The types below carry the source and the
//! path beside tree-sitter's own values; their fields are private to this
//! module, so every tree and node outside it comes from these wrappers.

use vstd::prelude::*;

verus! {

#[verifier::external_type_specification]
#[verifier::external_body]
pub struct ExParser(tree_sitter::Parser);

#[verifier::external_type_specification]
#[verifier::external_body]
pub struct ExTree(tree_sitter::Tree);

#[verifier::external_type_specification]
#[verifier::external_body]
pub struct ExNode<'tree>(tree_sitter::Node<'tree>);

/// What `tree_sitter::Node::kind` gives for the node at `path` of the
/// Python parse of `source`.
pub uninterp spec fn ts_kind(source: Seq<char>, path: Seq<u32>) -> Seq<char>;

/// What `tree_sitter::Node::start_byte` gives for the node at `path` of the
/// Python parse of `source`.
pub uninterp spec fn ts_start_byte(source: Seq<char>, path: Seq<u32>) -> usize;

/// What `tree_sitter::Node::end_byte` gives for the node at `path` of the
/// Python parse of `source`.
pub uninterp spec fn ts_end_byte(source: Seq<char>, path: Seq<u32>) -> usize;

/// What `tree_sitter::Node::child_count` gives for the node at `path` of the
/// Python parse of `source`.
pub uninterp spec fn ts_child_count(source: Seq<char>, path: Seq<u32>) -> u32;

/// What `tree_sitter::Node::field_name_for_child` gives for the child at
/// `path` (the last index of `path` taken in the node at the rest of it) of
/// the Python parse of `source`.
pub uninterp spec fn ts_field_name(source: Seq<char>, path: Seq<u32>) -> Option<Seq<char>>;

/// A tree-sitter parser, and whether a language has been set on it.
pub struct PyParser {
    parser: tree_sitter::Parser,
    ready: bool,
}

/// A tree-sitter tree and the source it is the Python parse of.
pub struct PyTree {
    tree: tree_sitter::Tree,
    source: Ghost<Seq<char>>,
}

/// A node of a `PyTree`, with the source parsed and the node's path.
pub struct PyNode<'t> {
    node: tree_sitter::Node<'t>,
    source: Ghost<Seq<char>>,
    path: Ghost<Seq<u32>>,
}

impl PyParser {
    /// A language has been set on the parser.
    pub closed spec fn ready(&self) -> bool {
        self.ready
    }
}

impl PyTree {
    /// The source this tree is the Python parse of.
    pub closed spec fn source(&self) -> Seq<char> {
        self.source@
    }
}

impl<'t> PyNode<'t> {
    /// The source parsed.
    pub closed spec fn source(&self) -> Seq<char> {
        self.source@
    }

    /// The child indices leading from the root to this node.
    pub closed spec fn path(&self) -> Seq<u32> {
        self.path@
    }
}

/// `tree_sitter::Parser::new`: a parser with no language set.
#[verifier::external_body]
pub fn new_parser() -> (r: PyParser)
    ensures
        !r.ready(),
{
    PyParser { parser: tree_sitter::Parser::new(), ready: false }
}

/// `tree_sitter::Parser::set_language` with the grammar
/// `tree_sitter_python::LANGUAGE`: `true` when it is accepted, and then the
/// parser is ready. The sources brought show that it is accepted: the
/// grammar's ABI version (15) lies in the range tree-sitter takes (13 to 15)
/// and the grammar has a lexer, so `set_language` returns `Ok`.
#[verifier::external_body]
pub fn set_python_language(p: &mut PyParser) -> (r: bool)
    ensures
        r,
        final(p).ready(),
{
    match p.parser.set_language(&tree_sitter_python::LANGUAGE.into()) {
        Ok(()) => {
            p.ready = true;
            true
        },
        Err(_) => false,
    }
}

/// `tree_sitter::Parser::parse` on the UTF-8 text of `source`, with no old
/// tree. The source shows it returns `None` only when no language is set.
#[verifier::external_body]
pub fn parse_text(p: &mut PyParser, source: &str) -> (r: Option<PyTree>)
    ensures
        old(p).ready() ==> r is Some,
        r matches Some(t) ==> t.source() == source@,
        final(p).ready() == old(p).ready(),
{
    match p.parser.parse(source, None) {
        Some(tree) => Some(PyTree { tree, source: Ghost(source@) }),
        None => None,
    }
}

/// `tree_sitter::Tree::root_node`: the node at the empty path.
#[verifier::external_body]
pub fn root_node<'t>(t: &'t PyTree) -> (r: PyNode<'t>)
    ensures
        r.source() == t.source(),
        r.path() == Seq::<u32>::empty(),
{
    PyNode { node: t.tree.root_node(), source: Ghost(t.source@), path: Ghost(Seq::empty()) }
}

/// `tree_sitter::Node::kind`, copied into a `String`.
#[verifier::external_body]
pub fn node_kind(n: &PyNode) -> (r: String)
    ensures
        r@ == ts_kind(n.source(), n.path()),
{
    n.node.kind().to_string()
}

/// `tree_sitter::Node::start_byte`.
#[verifier::external_body]
pub fn node_start_byte(n: &PyNode) -> (r: usize)
    ensures
        r == ts_start_byte(n.source(), n.path()),
{
    n.node.start_byte()
}

/// `tree_sitter::Node::end_byte`.
#[verifier::external_body]
pub fn node_end_byte(n: &PyNode) -> (r: usize)
    ensures
        r == ts_end_byte(n.source(), n.path()),
{
    n.node.end_byte()
}

/// `tree_sitter::Node::child_count`.
#[verifier::external_body]
pub fn node_child_count(n: &PyNode) -> (r: u32)
    ensures
        r == ts_child_count(n.source(), n.path()),
{
    n.node.child_count()
}

/// `tree_sitter::Node::child`: the child at index `i`, which the source
/// shows is there whenever `i` is below the child count.
#[verifier::external_body]
pub fn node_child<'t>(n: &PyNode<'t>, i: u32) -> (r: Option<PyNode<'t>>)
    ensures
        i < ts_child_count(n.source(), n.path()) ==> r is Some,
        r matches Some(c) ==> c.source() == n.source() && c.path() == n.path().push(i),
{
    match n.node.child(i) {
        Some(c) => Some(PyNode { node: c, source: Ghost(n.source@), path: Ghost(n.path@.push(i)) }),
        None => None,
    }
}

/// `tree_sitter::Node::field_name_for_child`, copied into a `String`.
#[verifier::external_body]
pub fn node_field_name_for_child(n: &PyNode, i: u32) -> (r: Option<String>)
    ensures
        match r {
            Some(s) => ts_field_name(n.source(), n.path().push(i)) == Some(s@),
            None => ts_field_name(n.source(), n.path().push(i)) is None,
        },
{
    match n.node.field_name_for_child(i) {
        Some(name) => Some(name.to_string()),
        None => None,
    }
}

} // verus!
