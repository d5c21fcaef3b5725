//! Splitting a Rust source into semantic chunks along its syntax tree.

use crate::chunk_kind::ChunkKind;
use crate::chunk_kind;
use crate::chunk_laws;
use crate::order;
use crate::syntax;
use crate::syntax::{NodeView, SyntaxNode};
use crate::text;
use vstd::prelude::*;
use vstd::utf8::*;

verus! {

/// Configuration controlling how source code is split into semantic chunks.
#[derive(Debug, Clone, Copy)]
pub struct ChunkConfig {
    /// Upper limit on characters per chunk. A block without inner blocks and the code between
    /// blocks stay whole, however long they are; every other chunk keeps the limit.
    pub max_chars: usize,
    /// Soft target: adjacent chunks smaller than this are merged together.
    pub target_chars: usize,
}

/// A single semantic code chunk extracted from a Rust source file.
#[derive(Debug)]
pub struct CodeChunk {
    /// 1-based index within the chunked file.
    pub index: usize,
    /// Semantic kind (function, struct, impl, gap, etc.).
    pub kind: ChunkKind,
    pub start_byte: usize,
    pub end_byte: usize,
    /// 1-based source line where the chunk starts.
    pub start_line: usize,
    /// 1-based source line where the chunk ends.
    pub end_line: usize,
    /// Full text of the chunk.
    pub text: String,
}

/// What a `CodeChunk` holds, as mathematical values.
pub struct ChunkView {
    pub index: int,
    pub kind: ChunkKind,
    pub start_byte: int,
    pub end_byte: int,
    pub start_line: int,
    pub end_line: int,
    pub text: Seq<char>,
}

impl View for CodeChunk {
    type V = ChunkView;

    open spec fn view(&self) -> ChunkView {
        ChunkView {
            index: self.index as int,
            kind: self.kind,
            start_byte: self.start_byte as int,
            end_byte: self.end_byte as int,
            start_line: self.start_line as int,
            end_line: self.end_line as int,
            text: self.text@,
        }
    }
}

/// What each chunk of a list holds.
pub open spec fn chunk_views(chunks: Seq<CodeChunk>) -> Seq<ChunkView> {
    chunks.map_values(|c: CodeChunk| c@)
}

impl Clone for CodeChunk {
    fn clone(&self) -> (r: Self)
        ensures
            r@ == self@,
    {
        CodeChunk {
            index: self.index,
            kind: self.kind,
            start_byte: self.start_byte,
            end_byte: self.end_byte,
            start_line: self.start_line,
            end_line: self.end_line,
            text: self.text.clone(),
        }
    }
}

/// The first `max_lines` lines of a text, with line feeds between them.
pub open spec fn preview_of(s: Seq<char>, max_lines: nat) -> Seq<char> {
    let all = text::lines(s);
    let n = if max_lines < all.len() {
        max_lines
    } else {
        all.len()
    };
    text::join(all.take(n as int), "\n"@)
}

impl CodeChunk {
    /// The first `max_lines` lines of the chunk.
    pub fn preview(&self, max_lines: usize) -> (r: String)
        ensures
            r@ == preview_of(self.text@, max_lines as nat),
    {
        let all = text::lines_of(self.text.as_str());
        let n: usize = if max_lines < all.len() {
            max_lines
        } else {
            all.len()
        };
        assert(text::views(all@).subrange(0, n as int) == text::lines(self.text@).take(n as int));
        text::join_between(&all, 0, n, "\n")
    }
}

/// A range of the source that may become a chunk.
#[derive(Debug, Clone, Copy)]
pub struct CandidateChunk {
    pub kind: ChunkKind,
    pub start_byte: usize,
    pub end_byte: usize,
    pub start_line: usize,
    pub end_line: usize,
}

/// What a `CandidateChunk` holds, as mathematical values.
pub struct Span {
    pub kind: ChunkKind,
    pub start_byte: int,
    pub end_byte: int,
    pub start_line: int,
    pub end_line: int,
}

impl View for CandidateChunk {
    type V = Span;

    open spec fn view(&self) -> Span {
        Span {
            kind: self.kind,
            start_byte: self.start_byte as int,
            end_byte: self.end_byte as int,
            start_line: self.start_line as int,
            end_line: self.end_line as int,
        }
    }
}

/// What each candidate of a list holds.
pub open spec fn spans(v: Seq<CandidateChunk>) -> Seq<Span> {
    v.map_values(|c: CandidateChunk| c@)
}

/// Whether a span is a range of the text.
pub open spec fn in_text(source: Seq<char>, c: Span) -> bool {
    &&& c.start_byte <= c.end_byte
    &&& text::boundary(source, c.start_byte)
    &&& text::boundary(source, c.end_byte)
}

/// Whether every span is a range of the text.
pub open spec fn all_in_text(source: Seq<char>, s: Seq<Span>) -> bool {
    forall|i: int| 0 <= i < s.len() ==> in_text(source, #[trigger] s[i])
}

/// Number of characters between two byte offsets.
pub open spec fn chars_between(source: Seq<char>, a: int, b: int) -> nat {
    text::byte_slice(source, a, b).len()
}

/// Names of the grammar nodes at which a source may be cut.
pub open spec fn is_boundary_kind(kind: Seq<char>) -> bool {
    ||| kind == "function_item"@
    ||| kind == "impl_item"@
    ||| kind == "struct_item"@
    ||| kind == "enum_item"@
    ||| kind == "trait_item"@
    ||| kind == "mod_item"@
    ||| kind == "macro_definition"@
    ||| kind == "const_item"@
    ||| kind == "static_item"@
    ||| kind == "type_item"@
    ||| kind == "use_declaration"@
}

/// Whether a node of the grammar is a semantic block.
pub fn is_semantic_boundary(kind: &str) -> (r: bool)
    ensures
        r == is_boundary_kind(kind@),
{
    text::same_text(kind, "function_item") || text::same_text(kind, "impl_item")
        || text::same_text(kind, "struct_item") || text::same_text(kind, "enum_item")
        || text::same_text(kind, "trait_item") || text::same_text(kind, "mod_item")
        || text::same_text(kind, "macro_definition") || text::same_text(kind, "const_item")
        || text::same_text(kind, "static_item") || text::same_text(kind, "type_item")
        || text::same_text(kind, "use_declaration")
}

/// The range of a node, under the kind that `name` stands for.
pub open spec fn span_of(n: NodeView, name: Seq<char>) -> Span {
    Span {
        kind: chunk_kind::kind_of(name),
        start_byte: n.start_byte,
        end_byte: n.end_byte,
        start_line: n.start_row + 1,
        end_line: n.end_row + 1,
    }
}

impl CandidateChunk {
    /// The range of a node, under the kind that `fallback_kind` stands for.
    pub fn from_node(node: &SyntaxNode, fallback_kind: &str) -> (r: Self)
        requires
            node.start_row < usize::MAX,
            node.end_row < usize::MAX,
        ensures
            r@ == span_of(node@, fallback_kind@),
    {
        CandidateChunk {
            kind: ChunkKind::from(fallback_kind),
            start_byte: node.start_byte,
            end_byte: node.end_byte,
            start_line: node.start_row + 1,
            end_line: node.end_row + 1,
        }
    }

    /// Number of characters in the range.
    pub fn char_len(&self, source: &str) -> (n: usize)
        requires
            in_text(source@, self@),
        ensures
            n == chars_between(source@, self.start_byte as int, self.end_byte as int),
    {
        count_chars(source, self.start_byte, self.end_byte)
    }
}

/// Number of characters between two byte offsets.
fn count_chars(source: &str, a: usize, b: usize) -> (n: usize)
    requires
        text::boundary(source@, a as int),
        text::boundary(source@, b as int),
        a <= b,
    ensures
        n == chars_between(source@, a as int, b as int),
{
    text::slice_bytes(source, a, b).unicode_len()
}

/// Whether a node is a semantic block of at most `max` characters.
pub open spec fn is_taken(source: Seq<char>, max: nat, n: NodeView) -> bool {
    is_boundary_kind(n.kind) && chars_between(source, n.start_byte, n.end_byte) <= max
}

/// Whether node `j` is a semantic block below node `i`, with nothing but named nodes on the
/// way to it.
pub open spec fn is_inner_block(t: Seq<NodeView>, i: int, j: int) -> bool {
    &&& j < t.len()
    &&& syntax::above(t, i, j)
    &&& t[j].named
    &&& is_boundary_kind(t[j].kind)
    &&& forall|k: int| #[trigger] syntax::above(t, k, j) && syntax::above(t, i, k) ==> t[k].named
}

/// Whether there is a smaller semantic block in node `i`.
pub open spec fn has_inner_block(t: Seq<NodeView>, i: int) -> bool {
    exists|j: int| #[trigger] is_inner_block(t, i, j)
}

/// Whether the search for blocks passes through a node: through the root, and through named
/// nodes.
pub open spec fn is_entered(t: Seq<NodeView>, i: int) -> bool {
    i == 0 || t[i].named
}

/// Whether the search for blocks goes on below every ancestor of node `i`.
pub open spec fn path_open(source: Seq<char>, max: nat, t: Seq<NodeView>, i: int) -> bool {
    forall|j: int|
        #[trigger] syntax::above(t, j, i) ==> is_entered(t, j) && !is_taken(source, max, t[j])
}

/// Whether node `i` becomes a candidate: a semantic block, found through named nodes and in
/// no block that fits, which fits itself or has no smaller semantic block in it.
pub open spec fn is_candidate(source: Seq<char>, max: nat, t: Seq<NodeView>, i: int) -> bool {
    &&& is_entered(t, i)
    &&& path_open(source, max, t, i)
    &&& is_boundary_kind(t[i].kind)
    &&& (is_taken(source, max, t[i]) || !has_inner_block(t, i))
}

/// The candidates among the first `n` nodes, in the order of the nodes.
pub open spec fn candidates_upto(
    source: Seq<char>,
    max: nat,
    t: Seq<NodeView>,
    n: nat,
) -> Seq<Span>
    decreases n,
{
    if n == 0 {
        Seq::empty()
    } else {
        let before = candidates_upto(source, max, t, (n - 1) as nat);
        if is_candidate(source, max, t, n - 1) {
            before.push(span_of(t[n - 1], t[n - 1].kind))
        } else {
            before
        }
    }
}

/// Position behind the subtree of node `i`.
fn subtree_end(nodes: &Vec<SyntaxNode>, i: usize) -> (e: usize)
    requires
        i < nodes@.len(),
    ensures
        i < e <= nodes@.len(),
        forall|k: int| i < k < e ==> syntax::above(syntax::node_views(nodes@), i as int, k),
        e < nodes@.len() ==> nodes@[e as int].depth <= nodes@[i as int].depth,
{
    let ghost t = syntax::node_views(nodes@);
    let total = nodes.len();
    let mut e: usize = i + 1;
    while e < total && nodes[e].depth > nodes[i].depth
        invariant
            t == syntax::node_views(nodes@),
            i < e <= total == nodes@.len(),
            forall|k: int| i < k < e ==> (#[trigger] t[k]).depth > t[i as int].depth,
        decreases nodes@.len() - e,
    {
        e += 1;
    }
    e
}

/// Whether there is a smaller semantic block in node `i`.
fn find_inner_block(nodes: &Vec<SyntaxNode>, i: usize) -> (r: bool)
    requires
        i < nodes@.len(),
    ensures
        r == has_inner_block(syntax::node_views(nodes@), i as int),
{
    let ghost t = syntax::node_views(nodes@);
    let ghost top = i as int;
    let e = subtree_end(nodes, i);
    let mut j: usize = i + 1;
    while j < e
        invariant
            t == syntax::node_views(nodes@),
            top == i,
            i < j <= nodes@.len(),
            e <= nodes@.len(),
            forall|k: int| i < k < e ==> #[trigger] syntax::above(t, top, k),
            forall|k: int| k < j ==> !#[trigger] is_inner_block(t, top, k),
            j < e ==> way_named(t, top, j as int),
        decreases nodes@.len() - j,
    {
        let node = nodes[j];
        let ghost n = j as int;
        assert(t[n] == node@);
        assert(syntax::above(t, top, n));
        let next: usize;
        if !node.named {
            next = subtree_end(nodes, j);
            assert forall|k: int| k < next implies !#[trigger] is_inner_block(t, top, k) by {
                if n < k {
                    assert(syntax::above(t, n, k));
                }
            }
        } else {
            if is_semantic_boundary(node.kind) {
                assert(is_inner_block(t, top, n));
                return true;
            }
            next = j + 1;
        }
        if next < e {
            proof {
                assert forall|k: int| n < k < next implies (#[trigger] t[k]).depth > t[n].depth by {
                    assert(syntax::above(t, n, k));
                }
                lemma_way_goes_on(t, top, n, next as int);
            }
        }
        j = next;
    }
    assert forall|k: int| !#[trigger] is_inner_block(t, top, k) by {
        if k >= e && is_inner_block(t, top, k) {
            assert(t[e as int].depth > t[top].depth);
            assert(t[e as int] == nodes@[e as int]@);
        }
    }
    false
}

/// Whether every node between node `i` and its descendant `j` is named.
spec fn way_named(t: Seq<NodeView>, i: int, j: int) -> bool {
    forall|k: int| #[trigger] syntax::above(t, k, j) && syntax::above(t, i, k) ==> t[k].named
}

/// The way to the next node to visit is made of named nodes.
proof fn lemma_way_goes_on(t: Seq<NodeView>, top: int, i: int, e: int)
    requires
        0 <= top < i < e < t.len(),
        way_named(t, top, i),
        forall|k: int| i < k < e ==> t[k].depth > t[i].depth,
        t[e].depth <= t[i].depth || (e == i + 1 && t[i].named),
    ensures
        way_named(t, top, e),
{
    assert forall|k: int| #[trigger] syntax::above(t, k, e) && syntax::above(
        t,
        top,
        k,
    ) implies t[k].named by {
        assert(t[e].depth > t[k].depth);
        if k < i {
            assert(syntax::above(t, k, i));
        }
    }
}

/// Appends the candidates of a syntax tree, in the order of its nodes.
pub fn collect_semantic_candidates(
    nodes: &Vec<SyntaxNode>,
    source: &str,
    max_chars: usize,
    out: &mut Vec<CandidateChunk>,
)
    requires
        syntax::is_syntax_tree(source@, syntax::node_views(nodes@)),
    ensures
        spans(final(out)@) == spans(old(out)@) + candidates_upto(
            source@,
            max_chars as nat,
            syntax::node_views(nodes@),
            nodes@.len(),
        ),
{
    let ghost t = syntax::node_views(nodes@);
    let ghost max = max_chars as nat;
    let ghost start = spans(out@);
    let mut i: usize = 0;
    assert(spans(out@) == start + candidates_upto(source@, max, t, 0));
    while i < nodes.len()
        invariant
            t == syntax::node_views(nodes@),
            max == max_chars,
            syntax::is_syntax_tree(source@, t),
            i <= nodes@.len(),
            spans(out@) == start + candidates_upto(source@, max, t, i as nat),
            i < nodes@.len() ==> path_open(source@, max, t, i as int),
        decreases nodes@.len() - i,
    {
        let node = nodes[i];
        let ghost n = i as int;
        assert(t[n] == node@);
        assert(syntax::node_in_text(source@, t[n]));
        let ghost before = spans(out@);
        let semantic = is_semantic_boundary(node.kind);
        let next: usize;
        if i > 0 && !node.named {
            next = subtree_end(nodes, i);
            proof {
                lemma_skipped(source@, max, t, n, next as int);
            }
        } else if semantic && count_chars(source, node.start_byte, node.end_byte) <= max_chars {
            let c = CandidateChunk::from_node(&node, node.kind);
            out.push(c);
            assert(spans(out@) == before.push(c@));
            next = subtree_end(nodes, i);
            assert(is_candidate(source@, max, t, n));
            proof {
                lemma_skipped(source@, max, t, n, next as int);
            }
        } else {
            if semantic && !find_inner_block(nodes, i) {
                let c = CandidateChunk::from_node(&node, node.kind);
                out.push(c);
                assert(spans(out@) == before.push(c@));
            }
            next = i + 1;
        }
        assert(spans(out@) == start + candidates_upto(source@, max, t, next as nat));
        if next < nodes.len() {
            proof {
                assert forall|k: int| n < k < next implies (#[trigger] t[k]).depth > t[n].depth by {
                    assert(syntax::above(t, n, k));
                }
                lemma_path_goes_on(source@, max, t, n, next as int);
            }
        }
        i = next;
    }
}

/// Nothing below a node that is taken or not entered is a candidate.
proof fn lemma_skipped(source: Seq<char>, max: nat, t: Seq<NodeView>, i: int, e: int)
    requires
        0 <= i < e <= t.len(),
        !is_entered(t, i) || is_taken(source, max, t[i]),
        forall|k: int| i < k < e ==> syntax::above(t, i, k),
    ensures
        candidates_upto(source, max, t, e as nat) == candidates_upto(source, max, t, (i + 1) as nat),
    decreases e,
{
    if e > i + 1 {
        assert(syntax::above(t, i, e - 1));
        assert forall|k: int| i < k < e - 1 implies syntax::above(t, i, k) by {
            assert forall|m: int| i < m <= k implies (#[trigger] t[m]).depth > t[i].depth by {}
        }
        lemma_skipped(source, max, t, i, e - 1);
    }
}

/// The way to the next node to visit is open.
proof fn lemma_path_goes_on(source: Seq<char>, max: nat, t: Seq<NodeView>, i: int, e: int)
    requires
        0 <= i < e < t.len(),
        path_open(source, max, t, i),
        forall|k: int| i < k < e ==> t[k].depth > t[i].depth,
        t[e].depth <= t[i].depth || (e == i + 1 && is_entered(t, i) && !is_taken(source, max, t[i])),
    ensures
        path_open(source, max, t, e),
{
    assert forall|j: int| #[trigger] syntax::above(t, j, e) implies is_entered(t, j) && !is_taken(
        source,
        max,
        t[j],
    ) by {
        if j < i {
            assert(syntax::above(t, j, i));
        } else if j > i {
            assert(t[e].depth > t[j].depth);
        } else {
            assert(t[e].depth > t[j].depth);
        }
    }
}

/// Whether the range of `b` lies in the range of `a`.
pub open spec fn covers(a: Span, b: Span) -> bool {
    b.start_byte >= a.start_byte && b.end_byte <= a.end_byte
}

/// Whether an earlier span covers span `i`.
pub open spec fn covered_before(s: Seq<Span>, i: int) -> bool {
    exists|j: int| 0 <= j < i && covers(#[trigger] s[j], s[i])
}

/// Those of the first `n` spans that no earlier span covers.
pub open spec fn uncovered_upto(s: Seq<Span>, n: nat) -> Seq<Span>
    decreases n,
{
    if n == 0 {
        Seq::empty()
    } else {
        let before = uncovered_upto(s, (n - 1) as nat);
        if covered_before(s, n - 1) {
            before
        } else {
            before.push(s[n - 1])
        }
    }
}

/// Whether one of `r` covers `c`.
pub open spec fn covered_in(r: Seq<Span>, c: Span) -> bool {
    exists|k: int| 0 <= k < r.len() && covers(#[trigger] r[k], c)
}

/// One of the kept spans covers each span of the list.
pub proof fn lemma_uncovered_cover(s: Seq<Span>, n: nat)
    requires
        n <= s.len(),
    ensures
        forall|j: int| 0 <= j < n ==> covered_in(uncovered_upto(s, n), #[trigger] s[j]),
    decreases n,
{
    if n > 0 {
        let m = (n - 1) as nat;
        let before = uncovered_upto(s, m);
        let r = uncovered_upto(s, n);
        lemma_uncovered_cover(s, m);
        assert forall|j: int| 0 <= j < n implies covered_in(r, #[trigger] s[j]) by {
            if j < m {
                assert(covered_in(before, s[j]));
                let k = choose|k: int| 0 <= k < before.len() && covers(#[trigger] before[k], s[j]);
                assert(covers(r[k], s[j]));
            } else if covered_before(s, m as int) {
                let i = choose|i: int| 0 <= i < m && covers(#[trigger] s[i], s[j]);
                assert(covered_in(before, s[i]));
                let k = choose|k: int| 0 <= k < before.len() && covers(#[trigger] before[k], s[i]);
                assert(covers(r[k], s[j]));
            } else {
                assert(covers(r[before.len() as int], s[j]));
            }
        }
    }
}

/// Every kept span is one of the list.
pub proof fn lemma_uncovered_origin(s: Seq<Span>, n: nat, k: int)
    requires
        n <= s.len(),
        0 <= k < uncovered_upto(s, n).len(),
    ensures
        exists|j: int| 0 <= j < n && #[trigger] s[j] == uncovered_upto(s, n)[k],
    decreases n,
{
    let m = (n - 1) as nat;
    let before = uncovered_upto(s, m);
    if k < before.len() {
        lemma_uncovered_origin(s, m, k);
    } else {
        assert(s[n - 1] == uncovered_upto(s, n)[k]);
    }
}

/// A kept span covers span `n` exactly if any earlier span does.
proof fn lemma_covered_step(s: Seq<Span>, n: nat)
    requires
        n < s.len(),
    ensures
        covered_in(uncovered_upto(s, n), s[n as int]) == covered_before(s, n as int),
{
    let r = uncovered_upto(s, n);
    let c = s[n as int];
    if covered_in(r, c) {
        let k = choose|k: int| 0 <= k < r.len() && covers(#[trigger] r[k], c);
        lemma_uncovered_origin(s, n, k);
        let j = choose|j: int| 0 <= j < n && #[trigger] s[j] == r[k];
        assert(covers(s[j], c));
    } else if covered_before(s, n as int) {
        let j = choose|j: int| 0 <= j < n && covers(#[trigger] s[j], c);
        lemma_uncovered_cover(s, n);
        assert(covered_in(r, s[j]));
        let k = choose|k: int| 0 <= k < r.len() && covers(#[trigger] r[k], s[j]);
        assert(covers(r[k], c));
    }
}

/// The chunks whose range lies in the range of no earlier chunk.
pub fn remove_nested_duplicates(chunks: Vec<CandidateChunk>) -> (result: Vec<CandidateChunk>)
    ensures
        spans(result@) == uncovered_upto(spans(chunks@), chunks@.len()),
{
    let ghost s = spans(chunks@);
    let mut result: Vec<CandidateChunk> = Vec::new();
    let mut n: usize = 0;
    assert(spans(result@) == uncovered_upto(s, 0));
    while n < chunks.len()
        invariant
            s == spans(chunks@),
            n <= chunks@.len(),
            spans(result@) == uncovered_upto(s, n as nat),
        decreases chunks@.len() - n,
    {
        let chunk = chunks[n];
        assert(s[n as int] == chunk@);
        let ghost before = spans(result@);
        let nested = is_nested(&result, &chunk);
        proof {
            lemma_covered_step(s, n as nat);
        }
        if !nested {
            result.push(chunk);
            assert(spans(result@) == before.push(chunk@));
        }
        n += 1;
    }
    result
}

/// Whether the range of `chunk` lies in the range of one of `kept`.
fn is_nested(kept: &Vec<CandidateChunk>, chunk: &CandidateChunk) -> (r: bool)
    ensures
        r == covered_in(spans(kept@), chunk@),
{
    let mut k: usize = 0;
    while k < kept.len()
        invariant
            k <= kept@.len(),
            forall|m: int| 0 <= m < k ==> !covers(#[trigger] spans(kept@)[m], chunk@),
        decreases kept@.len() - k,
    {
        let existing = kept[k];
        assert(spans(kept@)[k as int] == existing@);
        if chunk.start_byte >= existing.start_byte && chunk.end_byte <= existing.end_byte {
            return true;
        }
        k += 1;
    }
    false
}

/// Whether the lines of a text can be counted from 1.
pub open spec fn lines_countable(source: Seq<char>) -> bool {
    encode_utf8(source).len() < usize::MAX
}

/// The 1-based line of a byte offset.
pub fn byte_to_line(source: &str, byte: usize) -> (line: usize)
    requires
        byte <= encode_utf8(source@).len(),
        byte < usize::MAX,
    ensures
        line == text::line_at(source@, byte as int),
{
    let bytes = source.as_bytes();
    let ghost b = encode_utf8(source@);
    let mut count: usize = 0;
    let mut i: usize = 0;
    while i < byte
        invariant
            bytes@ == b,
            i <= byte <= b.len(),
            count <= i,
            count == text::newlines(b.take(i as int)),
        decreases byte - i,
    {
        assert(b.take(i + 1).drop_last() == b.take(i as int));
        if bytes[i] == 10 {
            count += 1;
        }
        i += 1;
    }
    count + 1
}

/// The range between two byte offsets as a gap.
pub open spec fn gap_of(source: Seq<char>, a: int, b: int) -> Span {
    Span {
        kind: ChunkKind::Gap,
        start_byte: a,
        end_byte: b,
        start_line: text::line_at(source, a),
        end_line: text::line_at(source, b),
    }
}

/// The range between two byte offsets as a gap.
pub fn gap_chunk(source: &str, start_byte: usize, end_byte: usize) -> (r: CandidateChunk)
    requires
        lines_countable(source@),
        start_byte <= encode_utf8(source@).len(),
        end_byte <= encode_utf8(source@).len(),
    ensures
        r@ == gap_of(source@, start_byte as int, end_byte as int),
{
    CandidateChunk {
        kind: ChunkKind::Gap,
        start_byte,
        end_byte,
        start_line: byte_to_line(source, start_byte),
        end_line: byte_to_line(source, end_byte),
    }
}

/// The gap between two byte offsets, if it holds more than whitespace.
pub open spec fn gap_between(source: Seq<char>, a: int, b: int) -> Seq<Span> {
    if a < b && !text::is_blank(text::byte_slice(source, a, b)) {
        seq![gap_of(source, a, b)]
    } else {
        Seq::empty()
    }
}

/// Where the text behind the first `n` spans begins.
pub open spec fn cursor_at(s: Seq<Span>, n: nat) -> int {
    if n == 0 {
        0
    } else {
        s[n - 1].end_byte
    }
}

/// Whether the text before span `k` can be taken.
pub open spec fn text_cuttable(source: Seq<char>, s: Seq<Span>, k: int) -> bool {
    text::cuttable(source, cursor_at(s, k as nat), s[k].start_byte)
}

/// Whether the text before, between and behind the spans can be taken.
pub open spec fn gaps_cuttable(source: Seq<char>, s: Seq<Span>) -> bool {
    &&& forall|k: int| 0 <= k < s.len() ==> #[trigger] text_cuttable(source, s, k)
    &&& text::cuttable(source, cursor_at(s, s.len()), encode_utf8(source).len() as int)
}

/// The first `n` spans, each after the gap before it.
pub open spec fn gapped_upto(source: Seq<char>, s: Seq<Span>, n: nat) -> Seq<Span>
    decreases n,
{
    if n == 0 {
        Seq::empty()
    } else {
        let c = s[n - 1];
        (gapped_upto(source, s, (n - 1) as nat) + gap_between(
            source,
            cursor_at(s, (n - 1) as nat),
            c.start_byte,
        )).push(c)
    }
}

/// The spans with the gaps before, between and behind them, in order.
pub open spec fn gapped(source: Seq<char>, s: Seq<Span>) -> Seq<Span> {
    gapped_upto(source, s, s.len()) + gap_between(
        source,
        cursor_at(s, s.len()),
        encode_utf8(source).len() as int,
    )
}

/// The start of each span.
pub open spec fn starts(s: Seq<Span>) -> Seq<int> {
    s.map_values(|c: Span| c.start_byte)
}

/// The spans by ascending start, those with the same start in their own order.
pub open spec fn sorted_by_start(s: Seq<Span>) -> Seq<Span> {
    order::stable_order(starts(s)).map_values(|i: int| s[i])
}

/// The chunks by ascending start, those with the same start in their own order.
pub fn sort_by_start(chunks: Vec<CandidateChunk>) -> (result: Vec<CandidateChunk>)
    ensures
        spans(result@) == sorted_by_start(spans(chunks@)),
{
    let ghost s = spans(chunks@);
    let mut keys: Vec<usize> = Vec::new();
    let mut i: usize = 0;
    while i < chunks.len()
        invariant
            i <= chunks@.len(),
            keys@.len() == i,
            forall|j: int| 0 <= j < i ==> keys@[j] == chunks@[j].start_byte,
        decreases chunks@.len() - i,
    {
        keys.push(chunks[i].start_byte);
        i += 1;
    }
    assert(order::ints(keys@) == starts(s));
    let order = order::order_by(&keys);
    let ghost o = order::stable_order(starts(s));
    proof {
        order::lemma_stable_order(starts(s));
        assert(order::ints(order@).len() == order@.len());
    }
    let mut result: Vec<CandidateChunk> = Vec::new();
    let mut n: usize = 0;
    while n < order.len()
        invariant
            s == spans(chunks@),
            o == order::ints(order@),
            order::is_stable_order(starts(s), o, s.len()),
            n <= order@.len() == s.len(),
            result@.len() == n,
            forall|j: int| 0 <= j < n ==> (#[trigger] result@[j])@ == s[o[j]],
        decreases order@.len() - n,
    {
        assert(o[n as int] == order@[n as int]);
        result.push(chunks[order[n]]);
        n += 1;
    }
    assert(spans(result@) == sorted_by_start(s));
    result
}

/// The chunks with a gap chunk for each stretch of other code before, between and behind
/// them, by ascending start.
pub fn include_gaps_as_chunks(source: &str, chunks: Vec<CandidateChunk>) -> (result: Vec<
    CandidateChunk,
>)
    requires
        lines_countable(source@),
        gaps_cuttable(source@, spans(chunks@)),
    ensures
        spans(result@) == sorted_by_start(gapped(source@, spans(chunks@))),
{
    let ghost s = spans(chunks@);
    let mut result: Vec<CandidateChunk> = Vec::new();
    let mut cursor: usize = 0;
    let mut n: usize = 0;
    assert(spans(result@) == gapped_upto(source@, s, 0));
    while n < chunks.len()
        invariant
            s == spans(chunks@),
            lines_countable(source@),
            gaps_cuttable(source@, s),
            n <= chunks@.len(),
            cursor == cursor_at(s, n as nat),
            spans(result@) == gapped_upto(source@, s, n as nat),
        decreases chunks@.len() - n,
    {
        let chunk = chunks[n];
        assert(s[n as int] == chunk@);
        assert(text_cuttable(source@, s, n as int));
        push_gap(source, cursor, chunk.start_byte, &mut result);
        let ghost before = result@;
        cursor = chunk.end_byte;
        result.push(chunk);
        assert(spans(result@) == spans(before).push(chunk@));
        n += 1;
    }
    push_gap(source, cursor, source.len(), &mut result);
    sort_by_start(result)
}

/// Appends the gap between two byte offsets, if it holds more than whitespace.
fn push_gap(source: &str, a: usize, b: usize, out: &mut Vec<CandidateChunk>)
    requires
        lines_countable(source@),
        text::cuttable(source@, a as int, b as int),
    ensures
        spans(final(out)@) == spans(old(out)@) + gap_between(source@, a as int, b as int),
{
    if a < b && !text::blank(text::slice_bytes(source, a, b)) {
        proof {
            encode_utf8_valid_utf8(source@);
            text::lemma_boundary_range(encode_utf8(source@), a as int);
            text::lemma_boundary_range(encode_utf8(source@), b as int);
        }
        let gap = gap_chunk(source, a, b);
        out.push(gap);
        assert(spans(out@) == spans(old(out)@).push(gap@));
    }
    assert(spans(out@) == spans(old(out)@) + gap_between(source@, a as int, b as int));
}

/// The kind of a chunk that is merged from two.
pub open spec fn merged_kind(a: ChunkKind, b: ChunkKind) -> ChunkKind {
    if a == b {
        a
    } else if a == ChunkKind::Gap {
        b
    } else if b == ChunkKind::Gap {
        a
    } else {
        ChunkKind::Mixed
    }
}

/// The kind of a chunk that is merged from two.
pub fn merge_kind(a: &ChunkKind, b: &ChunkKind) -> (r: ChunkKind)
    ensures
        r == merged_kind(*a, *b),
{
    if *a == *b {
        *a
    } else if *a == ChunkKind::Gap {
        *b
    } else if *b == ChunkKind::Gap {
        *a
    } else {
        ChunkKind::Mixed
    }
}

/// Whether two neighbours become one chunk: the result fits, and either one of them is a gap
/// or both are below the target size.
pub open spec fn is_mergeable(source: Seq<char>, config: ChunkConfig, a: Span, b: Span) -> bool {
    &&& chars_between(source, a.start_byte, b.end_byte) <= config.max_chars
    &&& {
        ||| a.kind == ChunkKind::Gap
        ||| b.kind == ChunkKind::Gap
        ||| {
            &&& chars_between(source, a.start_byte, a.end_byte) < config.target_chars
            &&& chars_between(source, b.start_byte, b.end_byte) < config.target_chars
        }
    }
}

/// The span over two neighbours.
pub open spec fn merged_span(a: Span, b: Span) -> Span {
    Span {
        kind: merged_kind(a.kind, b.kind),
        start_byte: a.start_byte,
        end_byte: b.end_byte,
        start_line: a.start_line,
        end_line: b.end_line,
    }
}

/// The first `n` spans, each merged into the one before it where that is allowed.
pub open spec fn merged_upto(
    source: Seq<char>,
    config: ChunkConfig,
    s: Seq<Span>,
    n: nat,
) -> Seq<Span>
    decreases n,
{
    if n == 0 {
        Seq::empty()
    } else {
        let before = merged_upto(source, config, s, (n - 1) as nat);
        let next = s[n - 1];
        if before.len() > 0 && is_mergeable(source, config, before.last(), next) {
            before.drop_last().push(merged_span(before.last(), next))
        } else {
            before.push(next)
        }
    }
}

/// The span into which span `n` may be merged: the last one that the spans before it make.
pub open spec fn running(source: Seq<char>, config: ChunkConfig, s: Seq<Span>, n: int) -> Span {
    merged_upto(source, config, s, n as nat).last()
}

/// Whether the characters of the spans can be counted, and those of each together with the
/// span into which it may be merged. A single span has no neighbour and is not measured.
pub open spec fn can_be_merged(source: Seq<char>, config: ChunkConfig, s: Seq<Span>) -> bool {
    s.len() > 1 ==> {
        &&& all_in_text(source, s)
        &&& forall|n: int|
            0 < n < s.len() ==> (#[trigger] running(source, config, s, n)).start_byte
                <= s[n].end_byte
    }
}

/// Merging keeps the ranges in the text.
proof fn lemma_merged_in_text(source: Seq<char>, config: ChunkConfig, s: Seq<Span>, n: nat)
    requires
        n <= s.len(),
        s.len() > 1,
        can_be_merged(source, config, s),
    ensures
        all_in_text(source, merged_upto(source, config, s, n)),
        n > 0 ==> merged_upto(source, config, s, n).len() > 0,
    decreases n,
{
    if n > 0 {
        let m = (n - 1) as nat;
        let before = merged_upto(source, config, s, m);
        let r = merged_upto(source, config, s, n);
        let next = s[n - 1];
        lemma_merged_in_text(source, config, s, m);
        assert(in_text(source, next));
        if before.len() > 0 {
            assert(in_text(source, before.last()));
            assert(running(source, config, s, m as int).start_byte <= next.end_byte);
        }
        assert forall|k: int| 0 <= k < r.len() implies in_text(source, #[trigger] r[k]) by {
            if k < r.len() - 1 {
                assert(r[k] == before[k]);
            }
        }
    }
}

/// The chunks, each merged into the one before it where that is allowed.
pub fn merge_small_neighbors(
    source: &str,
    chunks: Vec<CandidateChunk>,
    config: ChunkConfig,
) -> (result: Vec<CandidateChunk>)
    requires
        can_be_merged(source@, config, spans(chunks@)),
    ensures
        spans(result@) == merged_upto(source@, config, spans(chunks@), chunks@.len()),
{
    let ghost s = spans(chunks@);
    let mut result: Vec<CandidateChunk> = Vec::new();
    let mut current: Option<CandidateChunk> = None;
    let mut n: usize = 0;
    while n < chunks.len()
        invariant
            s == spans(chunks@),
            can_be_merged(source@, config, s),
            n <= chunks@.len(),
            match current {
                None => n == 0 && result@.len() == 0,
                Some(c) => n > 0 && spans(result@).push(c@) == merged_upto(
                    source@,
                    config,
                    s,
                    n as nat,
                ),
            },
        decreases chunks@.len() - n,
    {
        let next = chunks[n];
        assert(s[n as int] == next@);
        let ghost before = merged_upto(source@, config, s, n as nat);
        match current {
            None => {
                current = Some(next);
                assert(spans(result@).push(next@) == merged_upto(source@, config, s, 1));
            },
            Some(existing) => {
                proof {
                    lemma_merged_in_text(source@, config, s, n as nat);
                    assert(before.last() == existing@);
                    assert(in_text(source@, before.last()));
                    assert(in_text(source@, s[n as int]));
                    assert(running(source@, config, s, n as int).start_byte
                        <= s[n as int].end_byte);
                    assert(before.drop_last() == spans(result@));
                }
                let combined_chars = count_chars(source, existing.start_byte, next.end_byte);
                let existing_chars = existing.char_len(source);
                let next_chars = next.char_len(source);
                let should_merge = existing.kind == ChunkKind::Gap || next.kind == ChunkKind::Gap
                    || (existing_chars < config.target_chars && next_chars < config.target_chars
                    && combined_chars <= config.max_chars);
                if should_merge && combined_chars <= config.max_chars {
                    let merged = CandidateChunk {
                        kind: merge_kind(&existing.kind, &next.kind),
                        start_byte: existing.start_byte,
                        end_byte: next.end_byte,
                        start_line: existing.start_line,
                        end_line: next.end_line,
                    };
                    assert(merged@ == merged_span(existing@, next@));
                    current = Some(merged);
                } else {
                    let ghost kept = spans(result@);
                    result.push(existing);
                    assert(spans(result@) == kept.push(existing@));
                    current = Some(next);
                }
            },
        }
        n += 1;
    }
    if let Some(last) = current {
        let ghost kept = spans(result@);
        result.push(last);
        assert(spans(result@) == kept.push(last@));
    } else {
        assert(spans(result@) == merged_upto(source@, config, s, 0));
    }
    result
}

/// The candidates of a tree, or its root if there are none.
pub open spec fn candidates_or_root(source: Seq<char>, max: nat, t: Seq<NodeView>) -> Seq<Span> {
    let found = candidates_upto(source, max, t, t.len());
    if found.len() == 0 {
        seq![span_of(t[0], "source_file"@)]
    } else {
        found
    }
}

/// The pieces that cover a source before neighbours are merged.
pub open spec fn pieces_of(source: Seq<char>, config: ChunkConfig, t: Seq<NodeView>) -> Seq<Span> {
    let found = sorted_by_start(candidates_or_root(source, config.max_chars as nat, t));
    sorted_by_start(gapped(source, uncovered_upto(found, found.len())))
}

/// The ranges into which a source with syntax tree `t` is split.
pub open spec fn chunk_spans(source: Seq<char>, config: ChunkConfig, t: Seq<NodeView>) -> Seq<
    Span,
> {
    let pieces = pieces_of(source, config, t);
    merged_upto(source, config, pieces, pieces.len())
}

/// Chunk number `i` (from 0) of a source, over the range `c`.
pub open spec fn chunk_at(source: Seq<char>, c: Span, i: int) -> ChunkView {
    ChunkView {
        index: i + 1,
        kind: c.kind,
        start_byte: c.start_byte,
        end_byte: c.end_byte,
        start_line: c.start_line,
        end_line: c.end_line,
        text: text::byte_slice(source, c.start_byte, c.end_byte),
    }
}

/// The chunks of a source with syntax tree `t`.
pub open spec fn chunks_of(source: Seq<char>, config: ChunkConfig, t: Seq<NodeView>) -> Seq<
    ChunkView,
> {
    chunk_spans(source, config, t).map(|i: int, c: Span| chunk_at(source, c, i))
}

/// Splits a source along its syntax tree.
pub fn chunk_tree(source: &str, nodes: &Vec<SyntaxNode>, config: ChunkConfig) -> (r: Vec<CodeChunk>)
    requires
        syntax::is_syntax_tree(source@, syntax::node_views(nodes@)),
        lines_countable(source@),
    ensures
        chunk_views(r@) == chunks_of(source@, config, syntax::node_views(nodes@)),
{
    let ghost t = syntax::node_views(nodes@);
    let ghost max = config.max_chars as nat;
    let mut candidates: Vec<CandidateChunk> = Vec::new();
    collect_semantic_candidates(nodes, source, config.max_chars, &mut candidates);
    assert(spans(candidates@) == candidates_upto(source@, max, t, t.len()));
    assert(spans(candidates@).len() == candidates@.len());
    if candidates.len() == 0 {
        assert(syntax::node_in_text(source@, t[0]));
        assert(t[0] == nodes@[0]@);
        let root = CandidateChunk::from_node(&nodes[0], "source_file");
        candidates.push(root);
        assert(spans(candidates@) == seq![span_of(t[0], "source_file"@)]);
    }
    let ghost found = candidates_or_root(source@, max, t);
    assert(spans(candidates@) == found);
    proof {
        chunk_laws::lemma_found(source@, max, t);
        chunk_laws::lemma_ordered_sorted(source@, found);
        chunk_laws::lemma_uncovered_ordered(source@, found, found.len());
        chunk_laws::lemma_gaps_cuttable(source@, uncovered_upto(found, found.len()));
        chunk_laws::lemma_pieces(source@, config, t);
        chunk_laws::lemma_pieces_mergeable(source@, config, pieces_of(source@, config, t));
        chunk_laws::law_chunks_partition_source(source@, config, t);
    }
    let candidates = sort_by_start(candidates);
    let candidates = remove_nested_duplicates(candidates);
    let candidates = include_gaps_as_chunks(source, candidates);
    assert(spans(candidates@) == pieces_of(source@, config, t));
    let merged = merge_small_neighbors(source, candidates, config);
    let ghost s = chunk_spans(source@, config, t);
    assert(spans(merged@) == s);
    let mut r: Vec<CodeChunk> = Vec::new();
    let mut i: usize = 0;
    while i < merged.len()
        invariant
            s == spans(merged@),
            all_in_text(source@, s),
            i <= merged@.len(),
            r@.len() == i,
            forall|k: int| 0 <= k < i ==> (#[trigger] r@[k])@ == chunk_at(source@, s[k], k),
        decreases merged@.len() - i,
    {
        let c = merged[i];
        assert(s[i as int] == c@);
        assert(in_text(source@, s[i as int]));
        let text = text::slice_bytes(source, c.start_byte, c.end_byte).to_owned();
        r.push(
            CodeChunk {
                index: i + 1,
                kind: c.kind,
                start_byte: c.start_byte,
                end_byte: c.end_byte,
                start_line: c.start_line,
                end_line: c.end_line,
                text,
            },
        );
        i += 1;
    }
    assert(chunk_views(r@) == chunks_of(source@, config, t));
    r
}

/// Why a source could not be split.
#[derive(Debug, Clone, Copy, PartialEq, Eq, Structural)]
pub enum ChunkError {
    /// The configured limit is below 1000 characters.
    MaxCharsTooSmall,
    /// The configured target is above the limit.
    TargetAboveMax,
    /// The source is longer than the parser can count.
    SourceTooLarge,
    /// The parser refused the Rust grammar.
    GrammarRejected,
    /// The parser yielded no tree.
    NotParsed,
    /// The nodes that the parser yielded do not form a tree over the source.
    MalformedTree,
}

impl ChunkError {
    /// The message that describes the error.
    pub open spec fn text(self) -> Seq<char> {
        match self {
            ChunkError::MaxCharsTooSmall => "max_chars should be at least 1000"@,
            ChunkError::TargetAboveMax => "target_chars cannot be greater than max_chars"@,
            ChunkError::SourceTooLarge => "source is too large for tree-sitter"@,
            ChunkError::GrammarRejected => "failed to load tree-sitter Rust grammar"@,
            ChunkError::NotParsed => "tree-sitter failed to parse source"@,
            ChunkError::MalformedTree => "tree-sitter returned a malformed syntax tree"@,
        }
    }

    /// The message that describes the error.
    pub fn message(&self) -> (r: &'static str)
        ensures
            r@ == self.text(),
    {
        match self {
            ChunkError::MaxCharsTooSmall => "max_chars should be at least 1000",
            ChunkError::TargetAboveMax => "target_chars cannot be greater than max_chars",
            ChunkError::SourceTooLarge => "source is too large for tree-sitter",
            ChunkError::GrammarRejected => "failed to load tree-sitter Rust grammar",
            ChunkError::NotParsed => "tree-sitter failed to parse source",
            ChunkError::MalformedTree => "tree-sitter returned a malformed syntax tree",
        }
    }
}

/// Whether the limits are sound and the source is short enough to be parsed.
pub open spec fn limits_outcome(source: Seq<char>, config: ChunkConfig) -> Result<(), ChunkError> {
    if config.max_chars < 1000 {
        Err(ChunkError::MaxCharsTooSmall)
    } else if config.target_chars > config.max_chars {
        Err(ChunkError::TargetAboveMax)
    } else if !syntax::fits_parser(source) {
        Err(ChunkError::SourceTooLarge)
    } else {
        Ok(())
    }
}

/// What comes of splitting a source within sound limits, given what the parser makes of it.
pub open spec fn parsed_outcome(
    source: Seq<char>,
    config: ChunkConfig,
    parsed: Result<Option<Seq<NodeView>>, ()>,
) -> Result<Seq<ChunkView>, ChunkError> {
    match parsed {
        Err(_) => Err(ChunkError::GrammarRejected),
        Ok(None) => Err(ChunkError::NotParsed),
        Ok(Some(t)) => if syntax::is_syntax_tree(source, t) {
            Ok(chunks_of(source, config, t))
        } else {
            Err(ChunkError::MalformedTree)
        },
    }
}

/// What comes of splitting a source, given what the parser makes of it.
pub open spec fn chunk_outcome(
    source: Seq<char>,
    config: ChunkConfig,
    parsed: Result<Option<Seq<NodeView>>, ()>,
) -> Result<Seq<ChunkView>, ChunkError> {
    match limits_outcome(source, config) {
        Err(e) => Err(e),
        Ok(_) => parsed_outcome(source, config, parsed),
    }
}

/// Chunks or an error, with the chunks by what they hold.
pub open spec fn chunks_view(r: Result<Vec<CodeChunk>, ChunkError>) -> Result<
    Seq<ChunkView>,
    ChunkError,
> {
    match r {
        Ok(chunks) => Ok(chunk_views(chunks@)),
        Err(e) => Err(e),
    }
}

/// Checks the limits and that the source is short enough to be parsed.
pub fn check_limits(source: &str, config: ChunkConfig) -> (r: Result<(), ChunkError>)
    ensures
        r == limits_outcome(source@, config),
{
    if config.max_chars < 1000 {
        return Err(ChunkError::MaxCharsTooSmall);
    }
    if config.target_chars > config.max_chars {
        return Err(ChunkError::TargetAboveMax);
    }
    if !syntax::short_enough(source) {
        return Err(ChunkError::SourceTooLarge);
    }
    Ok(())
}

/// Splits a source along what the parser made of it.
pub fn chunk_parsed(
    source: &str,
    config: ChunkConfig,
    parsed: &Result<Option<Vec<SyntaxNode>>, tree_sitter::LanguageError>,
) -> (r: Result<Vec<CodeChunk>, ChunkError>)
    requires
        lines_countable(source@),
    ensures
        chunks_view(r) == parsed_outcome(source@, config, syntax::parse_view(*parsed)),
{
    match parsed {
        Err(_) => Err(ChunkError::GrammarRejected),
        Ok(None) => Err(ChunkError::NotParsed),
        Ok(Some(nodes)) => {
            if syntax::check_syntax_tree(source, nodes) {
                Ok(chunk_tree(source, nodes, config))
            } else {
                Err(ChunkError::MalformedTree)
            }
        },
    }
}

/// Parse a Rust source string and split it into semantic chunks respecting AST boundaries.
///
/// Uses tree-sitter to identify top-level items (functions, structs, impls, and so on),
/// inserts gap chunks for inter-item code, and merges neighbours that are smaller than
/// `config.target_chars`. What tree-sitter makes of a text beyond ASCII may differ between
/// locales; the chunks are those of an outcome that it can come to for this text.
pub fn chunk_rust_source(source: &str, config: ChunkConfig) -> (r: Result<
    Vec<CodeChunk>,
    ChunkError,
>)
    ensures
        limits_outcome(source@, config) matches Err(e) ==> r == Err::<Vec<CodeChunk>, ChunkError>(
            e,
        ),
        limits_outcome(source@, config) is Ok ==> exists|
            parsed: Result<Option<Seq<NodeView>>, ()>,
        | #[trigger]
            syntax::parser_yields(source@, parsed) && chunks_view(r) == parsed_outcome(
                source@,
                config,
                parsed,
            ),
        is_ascii_chars(source@) ==> chunks_view(r) == chunk_outcome(
            source@,
            config,
            syntax::rust_syntax(source@),
        ),
{
    match check_limits(source, config) {
        Err(e) => Err(e),
        Ok(_) => chunk_parsed(source, config, &syntax::parse_rust(source)),
    }
}

} // verus!
