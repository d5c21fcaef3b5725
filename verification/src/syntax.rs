//! Syntax trees of Rust sources as plain values, and the parser that produces them.

use crate::text;
use vstd::prelude::*;
use vstd::utf8::*;

verus! {

/// One node of a syntax tree. A tree is the list of its nodes, each before its children and
/// each child with its whole subtree before the next one; `depth` is 0 for the root.
#[derive(Debug, Clone, Copy)]
pub struct SyntaxNode {
    /// Name of the node in the grammar.
    pub kind: &'static str,
    /// Whether the node stands for a named rule of the grammar.
    pub named: bool,
    /// Whether the node is or holds a syntax error.
    pub has_error: bool,
    /// Distance from the root.
    pub depth: usize,
    pub start_byte: usize,
    pub end_byte: usize,
    /// 0-based line on which the node starts.
    pub start_row: usize,
    /// 0-based line on which the node ends.
    pub end_row: usize,
}

/// What a `SyntaxNode` holds, as mathematical values.
pub struct NodeView {
    pub kind: Seq<char>,
    pub named: bool,
    pub has_error: bool,
    pub depth: int,
    pub start_byte: int,
    pub end_byte: int,
    pub start_row: int,
    pub end_row: int,
}

impl View for SyntaxNode {
    type V = NodeView;

    open spec fn view(&self) -> NodeView {
        NodeView {
            kind: self.kind@,
            named: self.named,
            has_error: self.has_error,
            depth: self.depth as int,
            start_byte: self.start_byte as int,
            end_byte: self.end_byte as int,
            start_row: self.start_row as int,
            end_row: self.end_row as int,
        }
    }
}

/// What each node of a list holds.
pub open spec fn node_views(nodes: Seq<SyntaxNode>) -> Seq<NodeView> {
    nodes.map_values(|n: SyntaxNode| n@)
}

/// Whether node `i` is a proper ancestor of node `j`.
pub open spec fn above(t: Seq<NodeView>, i: int, j: int) -> bool {
    0 <= i < j && forall|k: int| i < k <= j ==> (#[trigger] t[k]).depth > t[i].depth
}

/// Whether the range of a node lies in the text, its rows are those of its ends, and its lines
/// can be counted from 1.
pub open spec fn node_in_text(source: Seq<char>, n: NodeView) -> bool {
    &&& n.start_byte <= n.end_byte
    &&& text::boundary(source, n.start_byte)
    &&& text::boundary(source, n.end_byte)
    &&& n.start_row + 1 == text::line_at(source, n.start_byte)
    &&& n.end_row + 1 == text::line_at(source, n.end_byte)
    &&& n.start_row < usize::MAX
    &&& n.end_row < usize::MAX
}

/// Whether two nodes, the first before the second, lie one in the other if the first is an
/// ancestor, and one behind the other if not.
pub open spec fn pair_nested(t: Seq<NodeView>, i: int, j: int) -> bool {
    if above(t, i, j) {
        t[i].start_byte <= t[j].start_byte && t[j].end_byte <= t[i].end_byte
    } else {
        t[i].end_byte <= t[j].start_byte
    }
}

/// Whether each node is the root or at most one level below the node listed before it.
pub open spec fn depth_steps(t: Seq<NodeView>, i: int) -> bool {
    if i == 0 {
        t[i].depth == 0
    } else {
        1 <= t[i].depth <= t[i - 1].depth + 1
    }
}

/// Whether `t` lists the nodes of a tree over `source`.
pub open spec fn is_syntax_tree(source: Seq<char>, t: Seq<NodeView>) -> bool {
    &&& t.len() > 0
    &&& forall|i: int| 0 <= i < t.len() ==> #[trigger] depth_steps(t, i)
    &&& forall|i: int| 0 <= i < t.len() ==> node_in_text(source, #[trigger] t[i])
    &&& forall|i: int, j: int| 0 <= i < j < t.len() ==> #[trigger] pair_nested(t, i, j)
}

/// Whether `path` holds, for each depth, the node of that depth on the way from the root to
/// node `n - 1`.
spec fn is_path(t: Seq<NodeView>, path: Seq<usize>, n: int) -> bool {
    &&& 0 < n <= t.len()
    &&& path.len() == t[n - 1].depth + 1
    &&& path.last() == n - 1
    &&& forall|d: int| 0 <= d < path.len() ==> (#[trigger] path[d]) < n
    &&& forall|d: int| 0 <= d < path.len() ==> t[#[trigger] path[d] as int].depth == d
    &&& forall|d: int, k: int|
        0 <= d < path.len() && path[d] < k < n ==> (#[trigger] t[k]).depth > (#[trigger] t[path[d] as int]).depth
}

/// Node `n` nests with every earlier node if it lies in its parent and behind the sibling
/// before it.
proof fn lemma_nested_step(t: Seq<NodeView>, path: Seq<usize>, n: int)
    requires
        n < t.len(),
        is_path(t, path, n),
        1 <= t[n].depth <= path.len(),
        forall|i: int| 0 <= i <= n ==> (#[trigger] t[i]).start_byte <= t[i].end_byte,
        forall|i: int, j: int| 0 <= i < j < n ==> #[trigger] pair_nested(t, i, j),
        t[path[t[n].depth - 1] as int].start_byte <= t[n].start_byte,
        t[n].end_byte <= t[path[t[n].depth - 1] as int].end_byte,
        t[n].depth < path.len() ==> t[path[t[n].depth] as int].end_byte <= t[n].start_byte,
    ensures
        forall|i: int, j: int| 0 <= i < j < n + 1 ==> #[trigger] pair_nested(t, i, j),
{
    let d = t[n].depth;
    let p = path[d - 1] as int;
    assert forall|i: int, j: int| 0 <= i < j < n + 1 implies #[trigger] pair_nested(t, i, j) by {
        if j == n {
            if above(t, i, n) {
                if i != p {
                    if i > p {
                        assert(t[i].depth > t[p].depth);
                        assert(t[n].depth > t[i].depth);
                    } else {
                        assert(above(t, i, p));
                        assert(pair_nested(t, i, p));
                    }
                }
            } else {
                if i == p {
                    assert(above(t, p, n));
                }
                if d < path.len() {
                    let s = path[d] as int;
                    if i > s {
                        assert(above(t, s, i));
                        assert(pair_nested(t, s, i));
                    } else if i < s {
                        if above(t, i, s) {
                            assert(above(t, i, n)) by {
                                assert forall|k: int| i < k <= n implies (#[trigger] t[k]).depth
                                    > t[i].depth by {
                                    if k > s && k < n {
                                        assert(t[k].depth > t[s].depth);
                                    }
                                }
                            }
                        }
                        assert(pair_nested(t, i, s));
                    }
                } else {
                    assert(p == n - 1);
                    if above(t, i, p) {
                        assert(above(t, i, n));
                    }
                    assert(pair_nested(t, i, p));
                }
            }
        }
    }
}

/// Whether the nodes form a tree over `source`.
pub fn check_syntax_tree(source: &str, nodes: &Vec<SyntaxNode>) -> (r: bool)
    ensures
        r == is_syntax_tree(source@, node_views(nodes@)),
{
    let ghost t = node_views(nodes@);
    if nodes.len() == 0 {
        return false;
    }
    let rows = text::newline_counts(source);
    let mut path: Vec<usize> = Vec::new();
    let mut n: usize = 0;
    while n < nodes.len()
        invariant
            t == node_views(nodes@),
            rows@.len() == encode_utf8(source@).len() + 1,
            forall|i: int|
                0 <= i < rows@.len() ==> #[trigger] rows@[i] + 1 == text::line_at(source@, i),
            n <= nodes@.len(),
            n == 0 ==> path@.len() == 0,
            n > 0 ==> is_path(t, path@, n as int),
            forall|i: int| 0 <= i < n ==> #[trigger] depth_steps(t, i),
            forall|i: int| 0 <= i < n ==> node_in_text(source@, #[trigger] t[i]),
            forall|i: int, j: int| 0 <= i < j < n ==> #[trigger] pair_nested(t, i, j),
        decreases nodes@.len() - n,
    {
        let node = nodes[n];
        assert(t[n as int] == node@);
        if !(node.start_byte <= node.end_byte && source.is_char_boundary(node.start_byte)
            && source.is_char_boundary(node.end_byte)) {
            assert(!node_in_text(source@, t[n as int]));
            return false;
        }
        proof {
            encode_utf8_valid_utf8(source@);
            text::lemma_boundary_range(encode_utf8(source@), node.start_byte as int);
            text::lemma_boundary_range(encode_utf8(source@), node.end_byte as int);
        }
        if !(node.start_row == rows[node.start_byte] && node.end_row == rows[node.end_byte]
            && node.start_row < usize::MAX && node.end_row < usize::MAX) {
            assert(!node_in_text(source@, t[n as int]));
            return false;
        }
        if n == 0 {
            if node.depth != 0 {
                assert(!depth_steps(t, 0));
                return false;
            }
            path.push(n);
        } else {
            let d = node.depth;
            if d < 1 || d > path.len() {
                assert(!depth_steps(t, n as int));
                return false;
            }
            let parent = nodes[path[d - 1]];
            let ghost p = path@[d - 1] as int;
            assert(above(t, p, n as int));
            if node.start_byte < parent.start_byte || parent.end_byte < node.end_byte {
                assert(!pair_nested(t, p, n as int));
                return false;
            }
            if d < path.len() {
                let sibling = nodes[path[d]];
                let ghost s = path@[d as int] as int;
                if sibling.end_byte > node.start_byte {
                    assert(!above(t, s, n as int));
                    assert(!pair_nested(t, s, n as int));
                    return false;
                }
            }
            proof {
                lemma_nested_step(t, path@, n as int);
            }
            path.truncate(d);
            path.push(n);
        }
        n += 1;
    }
    true
}

/// The error with which a tree-sitter parser refuses a grammar of another ABI version.
#[verifier::external_type_specification]
#[verifier::external_body]
pub struct ExLanguageError(tree_sitter::LanguageError);

/// Whether tree-sitter's parser for Rust can come to this outcome for a text: an error if the
/// parser refuses the grammar, `None` if it yields no tree, and otherwise the nodes of the
/// tree. A text beyond ASCII may have several outcomes, one for each locale.
pub uninterp spec fn parser_yields(
    source: Seq<char>,
    outcome: Result<Option<Seq<NodeView>>, ()>,
) -> bool;

/// What tree-sitter's parser for Rust makes of a text that has one outcome, as an ASCII text
/// has.
pub open spec fn rust_syntax(source: Seq<char>) -> Result<Option<Seq<NodeView>>, ()> {
    choose|outcome: Result<Option<Seq<NodeView>>, ()>| parser_yields(source, outcome)
}

/// The outcome of a parse, with the nodes by what they hold.
pub open spec fn parse_view(
    r: Result<Option<Vec<SyntaxNode>>, tree_sitter::LanguageError>,
) -> Result<Option<Seq<NodeView>>, ()> {
    match r {
        Ok(Some(nodes)) => Ok(Some(node_views(nodes@))),
        Ok(None) => Ok(None),
        Err(_) => Err(()),
    }
}

/// Whether a text is short enough for tree-sitter, which counts bytes in 32 bits.
pub open spec fn fits_parser(source: Seq<char>) -> bool {
    encode_utf8(source).len() < u32::MAX
}

/// Whether a text is short enough for tree-sitter.
pub fn short_enough(source: &str) -> (r: bool)
    ensures
        r == fits_parser(source@),
{
    let bytes = source.as_bytes();
    bytes.len() < u32::MAX as usize
}

/// `tree_sitter::Parser::parse` with the grammar `tree_sitter_rust::LANGUAGE`, the nodes of
/// its tree read off in preorder with a `TreeCursor`. Claimed is that the outcome is one that
/// the parser can come to for this text, and that it is the only one of an ASCII text. The
/// scanner of the grammar asks the C library whether a character is a letter or whitespace,
/// and the answer for other characters depends on the locale, so of other texts it is not
/// claimed that two calls agree. Whether the nodes form a tree over the text is not claimed,
/// nor that a tree comes out.
#[verifier::external_body]
pub(crate) fn parse_rust(source: &str) -> (r: Result<
    Option<Vec<SyntaxNode>>,
    tree_sitter::LanguageError,
>)
    requires
        fits_parser(source@),
    ensures
        parser_yields(source@, parse_view(r)),
        is_ascii_chars(source@) ==> parse_view(r) == rust_syntax(source@),
{
    let mut parser = tree_sitter::Parser::new();
    parser.set_language(&tree_sitter_rust::LANGUAGE.into())?;
    Ok(parser.parse(source, None).map(|tree| {
        let mut cursor = tree.walk();
        (0..tree.root_node().descendant_count()).map(|i| {
            cursor.goto_descendant(i);
            let n = cursor.node();
            SyntaxNode { kind: n.kind(), named: n.is_named(), has_error: n.has_error(),
                depth: cursor.depth() as usize, start_byte: n.start_byte(), end_byte: n.end_byte(),
                start_row: n.start_position().row, end_row: n.end_position().row }
        }).collect()
    }))
}

} // verus!
