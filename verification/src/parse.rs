//! The Python syntax tree the rest of the library reads, and the function
//! that obtains it from tree-sitter.
//!
//! `parse_python` runs the tree-sitter Python parser and copies the parse
//! tree into a [`SyntaxTree`]: a table of nodes in pre-order (each node
//! before its descendants, siblings left to right), each with its kind, its
//! character range in the source, its parent and its children.

use vstd::prelude::*;
use crate::chars::eq_str;
use crate::pyutil::{str_chars, char_offsets, utf8_char_starts, lemma_char_starts_encode};
use crate::ts::{PyNode, ts_kind, ts_start_byte, ts_end_byte, ts_child_count, ts_field_name};
use crate::ts::{new_parser, set_python_language, parse_text, root_node, node_kind, node_start_byte, node_end_byte};
use crate::ts::{node_child_count, node_child, node_field_name_for_child};
use vstd::utf8::encode_utf8;
use vstd::string::StringSliceAdditionalSpecFns;

verus! {

/// The node kinds of the Python grammar that the library tells apart.
#[derive(Clone, Copy, PartialEq, Eq, Structural, Debug)]
pub enum NodeKind {
    Module,
    Block,
    ExpressionStatement,
    Assignment,
    ReturnStatement,
    Yield,
    Str,
    Comment,
    Subscript,
    ArgumentList,
    Parameters,
    ParenthesizedExpression,
    ListLiteral,
    TupleLiteral,
    SetLiteral,
    DictLiteral,
    Pair,
    GeneratorExpression,
    ListComprehension,
    SetComprehension,
    DictionaryComprehension,
    Other,
}

/// The grammar field names the library reads.
#[derive(Clone, Copy, PartialEq, Eq, Structural, Debug)]
pub enum FieldName {
    Left,
    Value,
    Other,
}

/// The kind named `name` in the Python grammar.
pub open spec fn spec_kind_of_name(name: Seq<char>) -> NodeKind {
    if name == "module"@ {
        NodeKind::Module
    } else if name == "block"@ {
        NodeKind::Block
    } else if name == "expression_statement"@ {
        NodeKind::ExpressionStatement
    } else if name == "assignment"@ {
        NodeKind::Assignment
    } else if name == "return_statement"@ {
        NodeKind::ReturnStatement
    } else if name == "yield"@ {
        NodeKind::Yield
    } else if name == "string"@ {
        NodeKind::Str
    } else if name == "comment"@ {
        NodeKind::Comment
    } else if name == "subscript"@ {
        NodeKind::Subscript
    } else if name == "argument_list"@ {
        NodeKind::ArgumentList
    } else if name == "parameters"@ {
        NodeKind::Parameters
    } else if name == "parenthesized_expression"@ {
        NodeKind::ParenthesizedExpression
    } else if name == "list"@ {
        NodeKind::ListLiteral
    } else if name == "tuple"@ {
        NodeKind::TupleLiteral
    } else if name == "set"@ {
        NodeKind::SetLiteral
    } else if name == "dictionary"@ {
        NodeKind::DictLiteral
    } else if name == "pair"@ {
        NodeKind::Pair
    } else if name == "generator_expression"@ {
        NodeKind::GeneratorExpression
    } else if name == "list_comprehension"@ {
        NodeKind::ListComprehension
    } else if name == "set_comprehension"@ {
        NodeKind::SetComprehension
    } else if name == "dictionary_comprehension"@ {
        NodeKind::DictionaryComprehension
    } else {
        NodeKind::Other
    }
}

/// The field named `name`.
pub open spec fn spec_field_of_name(name: Seq<char>) -> FieldName {
    if name == "left"@ {
        FieldName::Left
    } else if name == "value"@ {
        FieldName::Value
    } else {
        FieldName::Other
    }
}

pub fn kind_of_name(name: &[char]) -> (r: NodeKind)
    ensures
        r == spec_kind_of_name(name@),
{
    if eq_str(name, "module") {
        NodeKind::Module
    } else if eq_str(name, "block") {
        NodeKind::Block
    } else if eq_str(name, "expression_statement") {
        NodeKind::ExpressionStatement
    } else if eq_str(name, "assignment") {
        NodeKind::Assignment
    } else if eq_str(name, "return_statement") {
        NodeKind::ReturnStatement
    } else if eq_str(name, "yield") {
        NodeKind::Yield
    } else if eq_str(name, "string") {
        NodeKind::Str
    } else if eq_str(name, "comment") {
        NodeKind::Comment
    } else if eq_str(name, "subscript") {
        NodeKind::Subscript
    } else if eq_str(name, "argument_list") {
        NodeKind::ArgumentList
    } else if eq_str(name, "parameters") {
        NodeKind::Parameters
    } else if eq_str(name, "parenthesized_expression") {
        NodeKind::ParenthesizedExpression
    } else if eq_str(name, "list") {
        NodeKind::ListLiteral
    } else if eq_str(name, "tuple") {
        NodeKind::TupleLiteral
    } else if eq_str(name, "set") {
        NodeKind::SetLiteral
    } else if eq_str(name, "dictionary") {
        NodeKind::DictLiteral
    } else if eq_str(name, "pair") {
        NodeKind::Pair
    } else if eq_str(name, "generator_expression") {
        NodeKind::GeneratorExpression
    } else if eq_str(name, "list_comprehension") {
        NodeKind::ListComprehension
    } else if eq_str(name, "set_comprehension") {
        NodeKind::SetComprehension
    } else if eq_str(name, "dictionary_comprehension") {
        NodeKind::DictionaryComprehension
    } else {
        NodeKind::Other
    }
}

pub fn field_of_name(name: &[char]) -> (r: FieldName)
    ensures
        r == spec_field_of_name(name@),
{
    if eq_str(name, "left") {
        FieldName::Left
    } else if eq_str(name, "value") {
        FieldName::Value
    } else {
        FieldName::Other
    }
}

/// One node of the syntax tree.
pub struct SyntaxNode {
    pub kind: NodeKind,
    /// Character offset where the node starts.
    pub start: usize,
    /// Character offset just past the node's end.
    pub end: usize,
    /// Index of the parent node; `None` for the root.
    pub parent: Option<usize>,
    /// The grammar field under which the parent holds this node.
    pub field: Option<FieldName>,
    /// Indices of the children, left to right.
    pub children: Vec<usize>,
}

/// A syntax tree: `nodes[0]` is the root and nodes are in pre-order.
pub struct SyntaxTree {
    pub nodes: Vec<SyntaxNode>,
}

/// Node `i` of a tree of `count` nodes over a text of length `n`: its range
/// lies in the text, its parent comes before it, its children after it.
pub open spec fn node_wf(nd: SyntaxNode, i: int, count: int, n: nat) -> bool {
    &&& nd.start <= nd.end <= n
    &&& (nd.parent matches Some(p) ==> p < i)
    &&& forall|j: int| 0 <= j < nd.children@.len() ==> i < #[trigger] nd.children@[j] < count
}

impl SyntaxTree {
    /// Well-formed over a source text of `n` characters.
    pub open spec fn wf(&self, n: nat) -> bool {
        forall|i: int| 0 <= i < self.nodes@.len() ==> node_wf(#[trigger] self.nodes@[i], i, self.nodes@.len() as int, n)
    }

    pub open spec fn len(&self) -> nat {
        self.nodes@.len()
    }

    pub open spec fn kind(&self, i: int) -> NodeKind {
        self.nodes@[i].kind
    }

    pub open spec fn start(&self, i: int) -> int {
        self.nodes@[i].start as int
    }

    pub open spec fn end(&self, i: int) -> int {
        self.nodes@[i].end as int
    }

    pub open spec fn parent(&self, i: int) -> Option<usize> {
        self.nodes@[i].parent
    }

    pub open spec fn children(&self, i: int) -> Seq<usize> {
        self.nodes@[i].children@
    }
}

/// Why a source could not be turned into a syntax tree.
#[derive(Debug)]
pub enum ParseError {
    /// The Python grammar could not be loaded into the parser.
    Language,
    /// The parser produced no tree.
    NoTree,
    /// The parser reported a node outside the source, or a missing child.
    BadNode,
}

/// A node as the walk copies it, before its children are listed: kind,
/// character range, parent and field.
pub type NodeInfo = (NodeKind, usize, usize, Option<usize>, Option<FieldName>);

impl SyntaxNode {
    pub open spec fn info(&self) -> NodeInfo {
        (self.kind, self.start, self.end, self.parent, self.field)
    }
}

/// A node waiting to be copied: its path in the parse, its parent's index and
/// its field.
pub type WalkEntry = (Seq<u32>, Option<usize>, Option<FieldName>);

/// The field named by tree-sitter's field name, if there is one.
pub open spec fn field_of(f: Option<Seq<char>>) -> Option<FieldName> {
    match f {
        Some(name) => Some(spec_field_of_name(name)),
        None => None,
    }
}

/// The entries for the children `lo..hi` of the node at `path`, copied as
/// node `idx`, the last child first (so the first child is copied next).
pub open spec fn child_entries(source: Seq<char>, path: Seq<u32>, idx: usize, hi: int, lo: int) -> Seq<WalkEntry>
    decreases hi - lo,
{
    if hi <= lo {
        Seq::empty()
    } else {
        seq![(path.push((hi - 1) as u32), Some(idx), field_of(ts_field_name(source, path.push((hi - 1) as u32))))]
            + child_entries(source, path, idx, hi - 1, lo)
    }
}

/// The node copied for entry `e`: its kind and its byte range turned into a
/// character range, or `None` when the range does not lie in the source.
pub open spec fn entry_node(source: Seq<char>, e: WalkEntry) -> Option<NodeInfo> {
    let bytes = encode_utf8(source);
    let sb = ts_start_byte(source, e.0);
    let eb = ts_end_byte(source, e.0);
    if sb > eb || eb > bytes.len() {
        None
    } else {
        let start = utf8_char_starts(bytes.take(sb as int));
        let end = utf8_char_starts(bytes.take(eb as int));
        if start > end || end > source.len() {
            None
        } else {
            Some((spec_kind_of_name(ts_kind(source, e.0)), start as usize, end as usize, e.1, e.2))
        }
    }
}

/// The nodes copied by the pre-order walk over the parse of `source`: the
/// last entry of `stack` is copied next and replaced by its children's
/// entries. `None` when a node's range does not lie in the source, or when
/// more than `fuel` nodes remain.
pub open spec fn walk(source: Seq<char>, stack: Seq<WalkEntry>, nodes: Seq<NodeInfo>, fuel: nat) -> Option<
    Seq<NodeInfo>,
>
    decreases fuel,
{
    if stack.len() == 0 {
        Some(nodes)
    } else if fuel == 0 {
        None
    } else {
        let e = stack.last();
        match entry_node(source, e) {
            None => None,
            Some(nd) => walk(
                source,
                stack.drop_last() + child_entries(source, e.0, nodes.len() as usize, ts_child_count(source, e.0) as int, 0),
                nodes.push(nd),
                (fuel - 1) as nat,
            ),
        }
    }
}

/// tree-sitter's Python parse of `source`, its nodes in pre-order.
pub open spec fn spec_python_nodes(source: Seq<char>) -> Option<Seq<NodeInfo>> {
    walk(source, seq![(Seq::<u32>::empty(), None, None)], Seq::empty(), usize::MAX as nat)
}

/// The parse of `source` copies into a tree: every node's range lies in
/// the source, and there is a node.
pub open spec fn spec_parse_ok(source: Seq<char>) -> bool {
    spec_python_nodes(source) matches Some(ns) && ns.len() > 0
}

/// The children of node `p` among `nodes[..i]`: those whose parent is `p`,
/// in order.
pub open spec fn children_upto(nodes: Seq<NodeInfo>, p: int, i: int) -> Seq<usize>
    decreases i,
{
    if i <= 0 {
        Seq::empty()
    } else if nodes[i - 1].3 == Some(p as usize) {
        children_upto(nodes, p, i - 1).push((i - 1) as usize)
    } else {
        children_upto(nodes, p, i - 1)
    }
}

impl SyntaxTree {
    /// The nodes without their children lists.
    pub open spec fn infos(&self) -> Seq<NodeInfo> {
        self.nodes@.map_values(|n: SyntaxNode| n.info())
    }

    /// This tree is tree-sitter's Python parse of `source`, copied: its nodes
    /// are those of the pre-order walk, each listing the nodes whose parent
    /// it is.
    pub open spec fn is_parse_of(&self, source: Seq<char>) -> bool {
        &&& spec_python_nodes(source) == Some(self.infos())
        &&& forall|p: int|
            0 <= p < self.nodes@.len() ==> #[trigger] self.nodes@[p].children@ == children_upto(
                self.infos(),
                p,
                self.nodes@.len() as int,
            )
    }
}

proof fn lemma_child_entries_push(source: Seq<char>, path: Seq<u32>, idx: usize, hi: int, lo: int)
    requires
        1 <= lo <= hi,
    ensures
        child_entries(source, path, idx, hi, lo - 1) == child_entries(source, path, idx, hi, lo).push(
            (path.push((lo - 1) as u32), Some(idx), field_of(ts_field_name(source, path.push((lo - 1) as u32)))),
        ),
    decreases hi - lo,
{
    let e = (path.push((lo - 1) as u32), Some(idx), field_of(ts_field_name(source, path.push((lo - 1) as u32))));
    if hi == lo {
        assert(child_entries(source, path, idx, hi - 1, lo - 1) =~= Seq::<WalkEntry>::empty());
        assert(child_entries(source, path, idx, hi, lo - 1) =~= seq![e]);
    } else {
        lemma_child_entries_push(source, path, idx, hi - 1, lo);
        let h = (path.push((hi - 1) as u32), Some(idx), field_of(ts_field_name(source, path.push((hi - 1) as u32))));
        assert(seq![h] + child_entries(source, path, idx, hi - 1, lo).push(e) =~= (seq![h] + child_entries(
            source,
            path,
            idx,
            hi - 1,
            lo,
        )).push(e));
    }
}

pub open spec fn stack_view<'t>(stack: Seq<(PyNode<'t>, Option<usize>, Option<FieldName>)>) -> Seq<WalkEntry> {
    stack.map_values(|e: (PyNode<'t>, Option<usize>, Option<FieldName>)| (e.0.path(), e.1, e.2))
}

/// Parse `source` as Python with tree-sitter and copy the tree: the nodes of
/// the pre-order walk, each with its kind, its character range, its parent,
/// its field and its children. It fails exactly when the parse does not copy
/// into a tree.
pub fn parse_python(source: &str) -> (r: Result<SyntaxTree, ParseError>)
    ensures
        r matches Ok(t) ==> t.is_parse_of(source@) && t.wf(source@.len()) && t.len() >= 1,
        r is Ok <==> spec_parse_ok(source@),
{
    let mut parser = new_parser();
    if !set_python_language(&mut parser) {
        return Err(ParseError::Language);
    }
    let tree = match parse_text(&mut parser, source) {
        Some(t) => t,
        None => {
            return Err(ParseError::NoTree);
        },
    };
    let chars = str_chars(source);
    let bytes = source.as_bytes();
    let offsets = char_offsets(bytes);
    proof {
        lemma_char_starts_encode(source@);
    }
    let n = chars.len();
    let ghost src = source@;
    let ghost init = seq![(Seq::<u32>::empty(), Option::<usize>::None, Option::<FieldName>::None)];
    let mut nodes: Vec<SyntaxNode> = Vec::new();
    let mut stack: Vec<(PyNode, Option<usize>, Option<FieldName>)> = Vec::new();
    let root = root_node(&tree);
    stack.push((root, None, None));
    // Every iteration copies one node; the count bounds the walk for the
    // verifier, and a tree with that many nodes cannot exist in memory.
    let mut fuel: usize = usize::MAX;
    assert(stack_view(stack@) =~= init);
    assert(nodes@.map_values(|nd: SyntaxNode| nd.info()) =~= Seq::<NodeInfo>::empty());
    while stack.len() > 0
        invariant
            n == source@.len(),
            src == source@,
            bytes@ == encode_utf8(src),
            utf8_char_starts(bytes@) == n,
            offsets@.len() == bytes@.len() + 1,
            forall|b: int| 0 <= b <= bytes@.len() ==> #[trigger] offsets@[b] == utf8_char_starts(bytes@.take(b)),
            forall|j: int| 0 <= j < stack@.len() ==> (#[trigger] stack@[j]).0.source() == src,
            forall|j: int| 0 <= j < stack@.len() ==> ((#[trigger] stack@[j]).1 matches Some(p) ==> p < nodes@.len()),
            forall|i: int| 0 <= i < nodes@.len() ==> node_wf(#[trigger] nodes@[i], i, nodes@.len() as int, n as nat),
            forall|i: int| 0 <= i < nodes@.len() ==> (#[trigger] nodes@[i]).children@.len() == 0,
            walk(src, stack_view(stack@), nodes@.map_values(|nd: SyntaxNode| nd.info()), fuel as nat)
                == spec_python_nodes(src),
        decreases fuel,
    {
        let ghost sv = stack_view(stack@);
        let ghost infos = nodes@.map_values(|nd: SyntaxNode| nd.info());
        if fuel == 0 {
            return Err(ParseError::BadNode);
        }
        fuel -= 1;
        let (node, parent, field) = stack.pop().unwrap();
        let ghost e = sv.last();
        proof {
            assert(stack_view(stack@) =~= sv.drop_last());
            assert(e == (node.path(), parent, field));
        }
        let idx = nodes.len();
        let name = node_kind(&node);
        let name_chars = str_chars(name.as_str());
        let kind = kind_of_name(name_chars.as_slice());
        let sb = node_start_byte(&node);
        let eb = node_end_byte(&node);
        if sb > eb || eb >= offsets.len() {
            return Err(ParseError::BadNode);
        }
        let start = offsets[sb];
        let end = offsets[eb];
        if start > end || end > n {
            return Err(ParseError::BadNode);
        }
        let ghost nd: NodeInfo = (kind, start, end, parent, field);
        assert(entry_node(src, e) == Some(nd));
        nodes.push(SyntaxNode { kind, start, end, parent, field, children: Vec::new() });
        assert(nodes@.map_values(|x: SyntaxNode| x.info()) =~= infos.push(nd));
        let count = node_child_count(&node);
        let ghost base = stack_view(stack@);
        let mut c = count;
        assert(child_entries(src, e.0, idx, count as int, count as int) =~= Seq::<WalkEntry>::empty());
        assert(stack_view(stack@) =~= base + child_entries(src, e.0, idx, count as int, c as int));
        while c > 0
            invariant
                idx + 1 == nodes@.len(),
                c <= count,
                count == ts_child_count(src, e.0),
                node.source() == src,
                node.path() == e.0,
                forall|j: int| 0 <= j < stack@.len() ==> (#[trigger] stack@[j]).0.source() == src,
                forall|j: int| 0 <= j < stack@.len() ==> ((#[trigger] stack@[j]).1 matches Some(p) ==> p < nodes@.len()),
                stack_view(stack@) == base + child_entries(src, e.0, idx, count as int, c as int),
            decreases c,
        {
            c -= 1;
            let child = match node_child(&node, c) {
                Some(ch) => ch,
                None => {
                    return Err(ParseError::BadNode);
                },
            };
            let fname = match node_field_name_for_child(&node, c) {
                Some(f) => {
                    let f_chars = str_chars(f.as_str());
                    Some(field_of_name(f_chars.as_slice()))
                },
                None => None,
            };
            let ghost before = stack_view(stack@);
            stack.push((child, Some(idx), fname));
            proof {
                lemma_child_entries_push(src, e.0, idx, count as int, c + 1);
                assert(fname == field_of(ts_field_name(src, e.0.push(c))));
                assert(stack_view(stack@) =~= before.push((e.0.push(c), Some(idx), fname)));
            }
        }
    }
    if nodes.len() == 0 {
        return Err(ParseError::NoTree);
    }
    let ghost infos = nodes@.map_values(|nd: SyntaxNode| nd.info());
    assert(walk(src, Seq::empty(), infos, fuel as nat) == Some(infos));
    let mut i: usize = 0;
    while i < nodes.len()
        invariant
            0 <= i <= nodes@.len(),
            infos == nodes@.map_values(|nd: SyntaxNode| nd.info()),
            forall|k: int| 0 <= k < nodes@.len() ==> node_wf(#[trigger] nodes@[k], k, nodes@.len() as int, n as nat),
            forall|k: int| 0 <= k < nodes@.len() ==> #[trigger] nodes@[k].children@ == children_upto(infos, k, i as int),
            forall|k: int| 0 <= k < nodes@.len() ==> #[trigger] nodes@[k].children@.len() > 0 ==> nodes@[k].children@.last() < i,
        decreases nodes@.len() - i,
    {
        proof {
            assert(infos[i as int] == nodes@[i as int].info());
        }
        if let Some(p) = nodes[i].parent {
            nodes[p].children.push(i);
        }
        proof {
            assert(nodes@.map_values(|nd: SyntaxNode| nd.info()) =~= infos);
        }
        i += 1;
    }
    Ok(SyntaxTree { nodes })
}


/// Kinds whose brackets already allow a split string to continue across lines.
pub open spec fn kind_provides_parens(k: NodeKind) -> bool {
    k == NodeKind::ArgumentList || k == NodeKind::ParenthesizedExpression || k == NodeKind::ListLiteral
        || k == NodeKind::TupleLiteral || k == NodeKind::SetLiteral || k == NodeKind::GeneratorExpression
        || k == NodeKind::ListComprehension || k == NodeKind::SetComprehension
}

/// Kinds that stop the search for enclosing brackets: splitting there needs
/// explicit parentheses.
pub open spec fn kind_blocks_parens(k: NodeKind) -> bool {
    k == NodeKind::Pair || k == NodeKind::DictLiteral || k == NodeKind::DictionaryComprehension
        || k == NodeKind::Assignment || k == NodeKind::ExpressionStatement || k
        == NodeKind::ReturnStatement || k == NodeKind::Yield
}

/// Kinds that count as an enclosing bracketed expression.
pub open spec fn kind_is_bracketed(k: NodeKind) -> bool {
    k == NodeKind::ParenthesizedExpression || k == NodeKind::TupleLiteral || k == NodeKind::ListLiteral
        || k == NodeKind::SetLiteral || k == NodeKind::DictLiteral || k == NodeKind::ArgumentList || k
        == NodeKind::Parameters || k == NodeKind::Subscript || k == NodeKind::GeneratorExpression || k
        == NodeKind::ListComprehension || k == NodeKind::SetComprehension || k
        == NodeKind::DictionaryComprehension || k == NodeKind::Pair
}

impl SyntaxTree {
    /// The text of node `i`.
    pub open spec fn text(&self, src: Seq<char>, i: int) -> Seq<char> {
        src.subrange(self.start(i), self.end(i))
    }

    /// Walking up from node `j` (inclusive), the first node whose kind either
    /// provides brackets (`true`) or blocks them (`false`); `false` at the root.
    pub open spec fn parens_from(&self, j: int) -> bool
        decreases j + 1,
    {
        if j < 0 || j >= self.len() {
            false
        } else if kind_provides_parens(self.kind(j)) {
            true
        } else if kind_blocks_parens(self.kind(j)) {
            false
        } else {
            match self.parent(j) {
                Some(p) => if p < j {
                    self.parens_from(p as int)
                } else {
                    false
                },
                None => false,
            }
        }
    }

    /// Whether the brackets around node `i` already allow implicit line
    /// continuation.
    pub open spec fn context_provides_parens(&self, i: int) -> bool {
        match self.parent(i) {
            Some(p) => if p < i {
                self.parens_from(p as int)
            } else {
                false
            },
            None => false,
        }
    }

    /// Whether node `j` or one of its ancestors has a bracketed kind.
    pub open spec fn bracketed_from(&self, j: int) -> bool
        decreases j + 1,
    {
        if j < 0 || j >= self.len() {
            false
        } else if kind_is_bracketed(self.kind(j)) {
            true
        } else {
            match self.parent(j) {
                Some(p) => if p < j {
                    self.bracketed_from(p as int)
                } else {
                    false
                },
                None => false,
            }
        }
    }

    /// Whether some ancestor of node `i` is a bracketed expression.
    pub open spec fn inside_parenthesized(&self, i: int) -> bool {
        match self.parent(i) {
            Some(p) => if p < i {
                self.bracketed_from(p as int)
            } else {
                false
            },
            None => false,
        }
    }

    /// Among the children `kids[from..]` of a node, the first held under `field`.
    pub open spec fn field_child_from(&self, kids: Seq<usize>, from: int, field: FieldName) -> Option<usize>
        decreases kids.len() - from,
    {
        if from < 0 || from >= kids.len() {
            None
        } else if kids[from] < self.len() && self.nodes@[kids[from] as int].field == Some(field) {
            Some(kids[from])
        } else {
            self.field_child_from(kids, from + 1, field)
        }
    }

    /// The first child of node `i` held under `field` (`child_by_field_name`).
    pub open spec fn field_child(&self, i: int, field: FieldName) -> Option<usize> {
        self.field_child_from(self.children(i), 0, field)
    }

    /// A subscript whose value is the name `Literal` or ends in `.Literal`.
    pub open spec fn is_literal_subscript(&self, src: Seq<char>, j: int) -> bool {
        &&& self.kind(j) == NodeKind::Subscript
        &&& self.field_child(j, FieldName::Value) matches Some(v)
        &&& (self.text(src, v as int) == "Literal"@ || crate::chars::ends_with(
            self.text(src, v as int),
            ".Literal"@,
        ))
    }

    /// Whether node `j` or one of its ancestors is a `typing.Literal[...]`
    /// subscript.
    pub open spec fn literal_from(&self, src: Seq<char>, j: int) -> bool
        decreases j + 1,
    {
        if j < 0 || j >= self.len() {
            false
        } else if self.is_literal_subscript(src, j) {
            true
        } else {
            match self.parent(j) {
                Some(p) => if p < j {
                    self.literal_from(src, p as int)
                } else {
                    false
                },
                None => false,
            }
        }
    }

    /// Whether some ancestor of node `i` is a `typing.Literal[...]` subscript
    /// (whose values must not be edited).
    pub open spec fn inside_typing_literal(&self, src: Seq<char>, i: int) -> bool {
        match self.parent(i) {
            Some(p) => if p < i {
                self.literal_from(src, p as int)
            } else {
                false
            },
            None => false,
        }
    }

    /// Walking up from node `j` (inclusive), the first node of kind `k`.
    pub open spec fn ancestor_of_kind_from(&self, j: int, k: NodeKind) -> Option<usize>
        decreases j + 1,
    {
        if j < 0 || j >= self.len() {
            None
        } else if self.kind(j) == k {
            Some(j as usize)
        } else {
            match self.parent(j) {
                Some(p) => if p < j {
                    self.ancestor_of_kind_from(p as int, k)
                } else {
                    None
                },
                None => None,
            }
        }
    }

    /// The nearest proper ancestor of node `i` of kind `k`.
    pub open spec fn nearest_ancestor(&self, i: int, k: NodeKind) -> Option<usize> {
        match self.parent(i) {
            Some(p) => if p < i {
                self.ancestor_of_kind_from(p as int, k)
            } else {
                None
            },
            None => None,
        }
    }

    /// The text of node `i`.
    pub fn node_text(&self, src: &[char], i: usize) -> (r: Vec<char>)
        requires
            self.wf(src@.len()),
            i < self.len(),
        ensures
            r@ == self.text(src@, i as int),
    {
        let nd = &self.nodes[i];
        proof {
            assert(node_wf(self.nodes@[i as int], i as int, self.nodes@.len() as int, src@.len()));
        }
        crate::pyutil::slice_to_vec(src, nd.start, nd.end)
    }

    /// Whether the brackets around node `i` already allow implicit line
    /// continuation: the nearest enclosing call arguments, parenthesized
    /// expression, list, tuple, set, generator or comprehension, unless a
    /// dictionary, pair, assignment, statement or `yield` comes first.
    pub fn provides_parens(&self, i: usize) -> (r: bool)
        requires
            i < self.len(),
        ensures
            r == self.context_provides_parens(i as int),
    {
        let mut cur = self.nodes[i].parent;
        let mut prev: usize = i;
        if let Some(p) = cur {
            if p >= i {
                return false;
            }
        }
        while cur.is_some()
            invariant
                i < self.len(),
                prev <= i,
                cur matches Some(c) ==> c < prev,
                self.context_provides_parens(i as int) == match cur {
                    Some(c) => self.parens_from(c as int),
                    None => false,
                },
            decreases prev,
        {
            let c = cur.unwrap();
            let k = self.nodes[c].kind;
            if matches!(k, NodeKind::ArgumentList | NodeKind::ParenthesizedExpression | NodeKind::ListLiteral
                | NodeKind::TupleLiteral | NodeKind::SetLiteral | NodeKind::GeneratorExpression
                | NodeKind::ListComprehension | NodeKind::SetComprehension) {
                return true;
            }
            if matches!(k, NodeKind::Pair | NodeKind::DictLiteral | NodeKind::DictionaryComprehension
                | NodeKind::Assignment | NodeKind::ExpressionStatement | NodeKind::ReturnStatement
                | NodeKind::Yield) {
                return false;
            }
            let next = self.nodes[c].parent;
            if let Some(p) = next {
                if p >= c {
                    return false;
                }
            }
            prev = c;
            cur = next;
        }
        false
    }

    /// Whether some ancestor of node `i` is a bracketed expression
    /// (parenthesized, tuple, list, set, dictionary, arguments, parameters,
    /// subscript, generator, comprehension or dictionary pair).
    pub fn is_inside_parenthesized(&self, i: usize) -> (r: bool)
        requires
            i < self.len(),
        ensures
            r == self.inside_parenthesized(i as int),
    {
        let mut cur = self.nodes[i].parent;
        let mut prev: usize = i;
        if let Some(p) = cur {
            if p >= i {
                return false;
            }
        }
        while cur.is_some()
            invariant
                i < self.len(),
                prev <= i,
                cur matches Some(c) ==> c < prev,
                self.inside_parenthesized(i as int) == match cur {
                    Some(c) => self.bracketed_from(c as int),
                    None => false,
                },
            decreases prev,
        {
            let c = cur.unwrap();
            let k = self.nodes[c].kind;
            if matches!(k, NodeKind::ParenthesizedExpression | NodeKind::TupleLiteral | NodeKind::ListLiteral
                | NodeKind::SetLiteral | NodeKind::DictLiteral | NodeKind::ArgumentList | NodeKind::Parameters
                | NodeKind::Subscript | NodeKind::GeneratorExpression | NodeKind::ListComprehension
                | NodeKind::SetComprehension | NodeKind::DictionaryComprehension | NodeKind::Pair) {
                return true;
            }
            let next = self.nodes[c].parent;
            if let Some(p) = next {
                if p >= c {
                    return false;
                }
            }
            prev = c;
            cur = next;
        }
        false
    }

    /// The first child of node `i` held under `field` (`child_by_field_name`).
    pub fn child_by_field(&self, i: usize, field: FieldName) -> (r: Option<usize>)
        requires
            i < self.len(),
        ensures
            r == self.field_child(i as int, field),
            r matches Some(c) ==> c < self.len(),
    {
        let kids = &self.nodes[i].children;
        let mut j: usize = 0;
        while j < kids.len()
            invariant
                i < self.len(),
                kids@ == self.children(i as int),
                j <= kids@.len(),
                self.field_child(i as int, field) == self.field_child_from(kids@, j as int, field),
            decreases kids@.len() - j,
        {
            let c = kids[j];
            if c < self.nodes.len() && self.nodes[c].field == Some(field) {
                return Some(c);
            }
            j += 1;
        }
        None
    }

    /// The nearest proper ancestor of node `i` of kind `k`.
    pub fn nearest_ancestor_of_kind(&self, i: usize, k: NodeKind) -> (r: Option<usize>)
        requires
            i < self.len(),
        ensures
            r == self.nearest_ancestor(i as int, k),
            r matches Some(a) ==> a < self.len(),
    {
        let mut cur = self.nodes[i].parent;
        let mut prev: usize = i;
        if let Some(p) = cur {
            if p >= i {
                return None;
            }
        }
        while cur.is_some()
            invariant
                i < self.len(),
                prev <= i,
                cur matches Some(c) ==> c < prev,
                self.nearest_ancestor(i as int, k) == match cur {
                    Some(c) => self.ancestor_of_kind_from(c as int, k),
                    None => None,
                },
            decreases prev,
        {
            let c = cur.unwrap();
            if self.nodes[c].kind == k {
                return Some(c);
            }
            let next = self.nodes[c].parent;
            if let Some(p) = next {
                if p >= c {
                    return None;
                }
            }
            prev = c;
            cur = next;
        }
        None
    }

    /// Whether some ancestor of node `i` is a subscript whose value is the
    /// name `Literal` or ends in `.Literal` (`typing.Literal[...]`).
    pub fn is_inside_typing_literal(&self, src: &[char], i: usize) -> (r: bool)
        requires
            self.wf(src@.len()),
            i < self.len(),
        ensures
            r == self.inside_typing_literal(src@, i as int),
    {
        let mut cur = self.nodes[i].parent;
        let mut prev: usize = i;
        if let Some(p) = cur {
            if p >= i {
                return false;
            }
        }
        while cur.is_some()
            invariant
                self.wf(src@.len()),
                i < self.len(),
                prev <= i,
                cur matches Some(c) ==> c < prev,
                self.inside_typing_literal(src@, i as int) == match cur {
                    Some(c) => self.literal_from(src@, c as int),
                    None => false,
                },
            decreases prev,
        {
            let c = cur.unwrap();
            if self.nodes[c].kind == NodeKind::Subscript {
                if let Some(v) = self.child_by_field(c, FieldName::Value) {
                    let text = self.node_text(src, v);
                    if crate::chars::eq_str(text.as_slice(), "Literal") || crate::chars::ends_with_str(
                        text.as_slice(),
                        ".Literal",
                    ) {
                        return true;
                    }
                }
            }
            let next = self.nodes[c].parent;
            if let Some(p) = next {
                if p >= c {
                    return false;
                }
            }
            prev = c;
            cur = next;
        }
        false
    }
}

} // verus!
