//! What holds of the chunks of every source: they stand in order, do not overlap, leave out
//! nothing but whitespace, keep semantic blocks whole and are merged as far as allowed.

use crate::chunker;
use crate::chunker::{ChunkConfig, Span};
use crate::order;
use crate::syntax;
use crate::syntax::NodeView;
use crate::text;
use vstd::prelude::*;
use vstd::utf8::*;

verus! {

/// Whether each span ends before the next one begins.
pub open spec fn ordered(s: Seq<Span>) -> bool {
    forall|i: int, j: int|
        0 <= i < j < s.len() ==> (#[trigger] s[i]).end_byte <= (#[trigger] s[j]).start_byte
}

/// The positions of the candidates among the first `n` nodes.
spec fn candidate_ids(source: Seq<char>, max: nat, t: Seq<NodeView>, n: nat) -> Seq<int>
    decreases n,
{
    if n == 0 {
        Seq::empty()
    } else {
        let before = candidate_ids(source, max, t, (n - 1) as nat);
        if chunker::is_candidate(source, max, t, n - 1) {
            before.push(n - 1)
        } else {
            before
        }
    }
}

/// The candidates are the ranges of the candidate nodes, in the order of the nodes.
proof fn lemma_candidate_ids(source: Seq<char>, max: nat, t: Seq<NodeView>, n: nat)
    ensures
        chunker::candidates_upto(source, max, t, n) == candidate_ids(source, max, t, n).map_values(
            |i: int| chunker::span_of(t[i], t[i].kind),
        ),
        forall|k: int|
            0 <= k < candidate_ids(source, max, t, n).len() ==> {
                let i = #[trigger] candidate_ids(source, max, t, n)[k];
                0 <= i < n && chunker::is_candidate(source, max, t, i)
            },
        forall|a: int, b: int|
            0 <= a < b < candidate_ids(source, max, t, n).len() ==> #[trigger] candidate_ids(
                source,
                max,
                t,
                n,
            )[a] < #[trigger] candidate_ids(source, max, t, n)[b],
    decreases n,
{
    let f = |i: int| chunker::span_of(t[i], t[i].kind);
    let ids = candidate_ids(source, max, t, n);
    if n > 0 {
        let before = candidate_ids(source, max, t, (n - 1) as nat);
        lemma_candidate_ids(source, max, t, (n - 1) as nat);
        if chunker::is_candidate(source, max, t, n - 1) {
            assert(ids.map_values(f) == before.map_values(f).push(f(n - 1)));
        }
    }
    assert(chunker::candidates_upto(source, max, t, n) == ids.map_values(f));
}

/// Whether node `j` is a semantic block that the search for blocks can come to: named nodes
/// lead to it from the root.
pub open spec fn is_block(t: Seq<NodeView>, j: int) -> bool {
    &&& 0 <= j < t.len()
    &&& chunker::is_entered(t, j)
    &&& chunker::is_boundary_kind(t[j].kind)
    &&& forall|k: int| #[trigger] syntax::above(t, k, j) ==> chunker::is_entered(t, k)
}

/// A block below a node is an inner block of that node.
pub proof fn lemma_block_is_inner(t: Seq<NodeView>, i: int, j: int)
    requires
        syntax::above(t, i, j),
        is_block(t, j),
    ensures
        chunker::is_inner_block(t, i, j),
{
    assert forall|k: int| #[trigger] syntax::above(t, k, j) && syntax::above(
        t,
        i,
        k,
    ) implies t[k].named by {
        assert(chunker::is_entered(t, k));
    }
}

/// Ancestors of an ancestor are ancestors.
pub proof fn lemma_above_trans(t: Seq<NodeView>, i: int, j: int, k: int)
    requires
        syntax::above(t, i, j),
        syntax::above(t, j, k),
    ensures
        syntax::above(t, i, k),
{
    assert(t[j].depth > t[i].depth);
    assert forall|m: int| i < m <= k implies (#[trigger] t[m]).depth > t[i].depth by {
        if m > j {
            assert(t[m].depth > t[j].depth);
        }
    }
}

/// Of two ancestors of a node, the one listed first is an ancestor of the other.
pub proof fn lemma_above_linear(t: Seq<NodeView>, i: int, j: int, k: int)
    requires
        syntax::above(t, i, k),
        syntax::above(t, j, k),
        i < j,
    ensures
        syntax::above(t, i, j),
{
}

/// A block to which the way is not open lies in a candidate that fits the limit: the first
/// taken node among its ancestors from `from` on, there being none before.
proof fn lemma_taken_ancestor(source: Seq<char>, max: nat, t: Seq<NodeView>, j: int, from: int)
    requires
        is_block(t, j),
        !chunker::path_open(source, max, t, j),
        0 <= from,
        forall|k: int|
            #[trigger] syntax::above(t, k, j) && k < from ==> !chunker::is_taken(source, max, t[k]),
    ensures
        exists|k: int|
            #[trigger] syntax::above(t, k, j) && chunker::is_candidate(source, max, t, k)
                && chunker::is_taken(source, max, t[k]),
    decreases j - from,
{
    if syntax::above(t, from, j) && chunker::is_taken(source, max, t[from]) {
        assert forall|m: int| #[trigger] syntax::above(t, m, from) implies chunker::is_entered(t, m)
            && !chunker::is_taken(source, max, t[m]) by {
            lemma_above_trans(t, m, from, j);
        }
        assert(chunker::path_open(source, max, t, from));
        assert(chunker::is_candidate(source, max, t, from));
    } else {
        assert(from < j) by {
            if from >= j {
                assert forall|k: int| #[trigger] syntax::above(t, k, j) implies chunker::is_entered(
                    t,
                    k,
                ) && !chunker::is_taken(source, max, t[k]) by {}
                assert(chunker::path_open(source, max, t, j));
            }
        }
        lemma_taken_ancestor(source, max, t, j, from + 1);
    }
}

/// Where there is a block there is a candidate: the block itself, one around it that fits the
/// limit, or one of its inner blocks.
proof fn lemma_block_yields_candidate(source: Seq<char>, max: nat, t: Seq<NodeView>, j: int) -> (c:
    int)
    requires
        is_block(t, j),
    ensures
        0 <= c < t.len(),
        chunker::is_candidate(source, max, t, c),
        c == j || (syntax::above(t, c, j) && chunker::is_taken(source, max, t[c]))
            || chunker::is_inner_block(t, j, c),
        chunker::is_inner_block(t, j, c) ==> chunker::path_open(source, max, t, j)
            && !chunker::is_taken(source, max, t[j]) && chunker::has_inner_block(t, j),
    decreases t.len() - j,
{
    if !chunker::path_open(source, max, t, j) {
        lemma_taken_ancestor(source, max, t, j, 0);
        choose|k: int|
            #[trigger] syntax::above(t, k, j) && chunker::is_candidate(source, max, t, k)
                && chunker::is_taken(source, max, t[k])
    } else if chunker::is_taken(source, max, t[j]) || !chunker::has_inner_block(t, j) {
        j
    } else {
        let m = choose|m: int| #[trigger] chunker::is_inner_block(t, j, m);
        assert forall|k: int| #[trigger] syntax::above(t, k, m) implies chunker::is_entered(t, k) by {
            if k < j {
                lemma_above_linear(t, k, j, m);
            } else if k > j {
                lemma_above_linear(t, j, k, m);
            }
        }
        assert(is_block(t, m));
        let c = lemma_block_yields_candidate(source, max, t, m);
        assert(is_block(t, c));
        if c == m {
        } else if syntax::above(t, c, m) && chunker::is_taken(source, max, t[c]) {
            assert(c != j);
            if c < j {
                lemma_above_linear(t, c, j, m);
            } else {
                lemma_above_linear(t, j, c, m);
            }
        } else {
            lemma_above_trans(t, j, m, c);
        }
        lemma_block_is_inner(t, j, c);
        c
    }
}

/// No candidate lies below another one.
pub proof fn lemma_candidates_apart(source: Seq<char>, max: nat, t: Seq<NodeView>, i: int, j: int)
    requires
        syntax::is_syntax_tree(source, t),
        0 <= i < j < t.len(),
        chunker::is_candidate(source, max, t, i),
        chunker::is_candidate(source, max, t, j),
    ensures
        t[i].end_byte <= t[j].start_byte,
{
    if syntax::above(t, i, j) {
        assert(is_block(t, j));
        lemma_block_is_inner(t, i, j);
        assert(!chunker::is_taken(source, max, t[i]));
    }
    assert(syntax::pair_nested(t, i, j));
}

/// The candidates of a tree, or its root, are ranges of the text in order.
pub proof fn lemma_found(source: Seq<char>, max: nat, t: Seq<NodeView>)
    requires
        syntax::is_syntax_tree(source, t),
    ensures
        chunker::candidates_or_root(source, max, t).len() > 0,
        chunker::all_in_text(source, chunker::candidates_or_root(source, max, t)),
        ordered(chunker::candidates_or_root(source, max, t)),
{
    let s = chunker::candidates_or_root(source, max, t);
    let ids = candidate_ids(source, max, t, t.len());
    lemma_candidate_ids(source, max, t, t.len());
    if ids.len() == 0 {
        assert(syntax::node_in_text(source, t[0]));
    } else {
        assert forall|k: int| 0 <= k < s.len() implies chunker::in_text(source, #[trigger] s[k]) by {
            assert(syntax::node_in_text(source, t[ids[k]]));
        }
        assert forall|a: int, b: int| 0 <= a < b < s.len() implies (#[trigger] s[a]).end_byte <= (
        #[trigger] s[b]).start_byte by {
            lemma_candidates_apart(source, max, t, ids[a], ids[b]);
        }
    }
}

/// Spans in order are sorted already.
pub proof fn lemma_ordered_sorted(source: Seq<char>, s: Seq<Span>)
    requires
        chunker::all_in_text(source, s),
        ordered(s),
    ensures
        chunker::sorted_by_start(s) == s,
{
    let keys = chunker::starts(s);
    assert forall|i: int, j: int| 0 <= i <= j < keys.len() implies keys[i] <= keys[j] by {
        assert(chunker::in_text(source, s[i]));
        if i < j {
            assert(s[i].end_byte <= s[j].start_byte);
        }
    }
    order::lemma_sorted_order(keys);
    assert(chunker::sorted_by_start(s) == s);
}

/// The text around ranges of the text can be taken.
pub proof fn lemma_gaps_cuttable(source: Seq<char>, s: Seq<Span>)
    requires
        chunker::all_in_text(source, s),
    ensures
        chunker::gaps_cuttable(source, s),
{
    text::lemma_byte_slice_all(source);
    assert forall|k: int| 0 <= k < s.len() implies #[trigger] chunker::text_cuttable(
        source,
        s,
        k,
    ) by {
        assert(chunker::in_text(source, s[k]));
        if k > 0 {
            assert(chunker::in_text(source, s[k - 1]));
        }
    }
    if s.len() > 0 {
        assert(chunker::in_text(source, s[s.len() - 1]));
    }
}

/// Leaving out covered spans keeps the rest in order.
pub proof fn lemma_uncovered_ordered(source: Seq<char>, s: Seq<Span>, n: nat)
    requires
        n <= s.len(),
        chunker::all_in_text(source, s),
        ordered(s),
    ensures
        chunker::all_in_text(source, chunker::uncovered_upto(s, n)),
        ordered(chunker::uncovered_upto(s, n)),
        n > 0 ==> chunker::uncovered_upto(s, n).len() > 0,
        forall|k: int, j: int|
            0 <= k < chunker::uncovered_upto(s, n).len() && n <= j < s.len()
                ==> (#[trigger] chunker::uncovered_upto(s, n)[k]).end_byte <= (
            #[trigger] s[j]).start_byte,
    decreases n,
{
    if n > 0 {
        let m = (n - 1) as nat;
        let before = chunker::uncovered_upto(s, m);
        let r = chunker::uncovered_upto(s, n);
        lemma_uncovered_ordered(source, s, m);
        assert(chunker::in_text(source, s[n - 1]));
        assert forall|k: int| 0 <= k < r.len() implies chunker::in_text(source, #[trigger] r[k]) by {
            if k < before.len() {
                assert(r[k] == before[k]);
            }
        }
        assert forall|k: int, j: int| 0 <= k < r.len() && n <= j < s.len() implies (
        #[trigger] r[k]).end_byte <= (#[trigger] s[j]).start_byte by {
            if k < before.len() {
                assert(r[k] == before[k]);
            }
        }
        assert forall|a: int, b: int| 0 <= a < b < r.len() implies (#[trigger] r[a]).end_byte <= (
        #[trigger] r[b]).start_byte by {
            assert(r[a] == before[a]);
            if b < before.len() {
                assert(r[b] == before[b]);
            } else {
                assert(before[a].end_byte <= s[n - 1].start_byte);
            }
        }
    }
}

/// Where the text before span `k` ends: at the start of the span, or at the end of the text
/// behind the last one.
pub open spec fn next_start(source: Seq<char>, s: Seq<Span>, k: int) -> int {
    if k < s.len() {
        s[k].start_byte
    } else {
        encode_utf8(source).len() as int
    }
}

/// The text between span `k - 1` and span `k`.
pub open spec fn text_before(source: Seq<char>, s: Seq<Span>, k: int) -> Seq<char> {
    text::byte_slice(source, chunker::cursor_at(s, k as nat), next_start(source, s, k))
}

/// Whether the text before each of the first `n` spans is blank.
pub open spec fn blank_before(source: Seq<char>, s: Seq<Span>, n: int) -> bool {
    forall|k: int| 0 <= k < n ==> text::is_blank(#[trigger] text_before(source, s, k))
}

/// Appending a span leaves the text before the others as it was.
proof fn lemma_text_before_push(source: Seq<char>, s: Seq<Span>, c: Span, k: int)
    requires
        0 <= k < s.len(),
    ensures
        text_before(source, s.push(c), k) == text_before(source, s, k),
{
    if k > 0 {
        assert(s.push(c)[k - 1] == s[k - 1]);
    }
    assert(s.push(c)[k] == s[k]);
}

/// What the spans of a partly covered text keep: they are ranges in order, end at `end`, and
/// have only whitespace before each of them.
pub open spec fn laid_out(source: Seq<char>, s: Seq<Span>, end: int) -> bool {
    &&& chunker::all_in_text(source, s)
    &&& ordered(s)
    &&& chunker::cursor_at(s, s.len()) == end
    &&& blank_before(source, s, s.len() as int)
}

/// Laying out one more span behind the others, with only whitespace before it.
proof fn lemma_laid_out_push(source: Seq<char>, s: Seq<Span>, end: int, c: Span)
    requires
        laid_out(source, s, end),
        chunker::in_text(source, c),
        end <= c.start_byte,
        text::is_blank(text::byte_slice(source, end, c.start_byte)),
    ensures
        laid_out(source, s.push(c), c.end_byte),
{
    let r = s.push(c);
    assert forall|k: int| 0 <= k < r.len() implies text::is_blank(
        #[trigger] text_before(source, r, k),
    ) by {
        if k < s.len() {
            lemma_text_before_push(source, s, c, k);
        } else if k > 0 {
            assert(r[k - 1] == s.last());
        }
    }
    assert forall|a: int, b: int| 0 <= a < b < r.len() implies (#[trigger] r[a]).end_byte <= (
    #[trigger] r[b]).start_byte by {
        assert(r[a] == s[a]);
        if b == s.len() {
            if a < s.len() - 1 {
                assert(s[a].end_byte <= s.last().start_byte);
                assert(chunker::in_text(source, s.last()));
            }
        }
    }
    assert forall|k: int| 0 <= k < r.len() implies chunker::in_text(source, #[trigger] r[k]) by {
        if k < s.len() {
            assert(r[k] == s[k]);
        }
    }
}

/// Laying out a gap where it holds more than whitespace leaves only whitespace before `b`.
proof fn lemma_gap_laid_out(source: Seq<char>, s: Seq<Span>, a: int, b: int)
    requires
        laid_out(source, s, a),
        text::boundary(source, a),
        text::boundary(source, b),
        a <= b,
    ensures
        ({
            let r = s + chunker::gap_between(source, a, b);
            let end = chunker::cursor_at(r, r.len());
            &&& laid_out(source, r, end)
            &&& a <= end <= b
            &&& text::boundary(source, end)
            &&& text::is_blank(text::byte_slice(source, end, b))
        }),
{
    let gap = chunker::gap_between(source, a, b);
    text::lemma_byte_slice_empty(source, a);
    text::lemma_byte_slice_empty(source, b);
    if gap.len() > 0 {
        let g = chunker::gap_of(source, a, b);
        lemma_laid_out_push(source, s, a, g);
        assert(s + gap == s.push(g));
    } else {
        assert(s + gap == s);
    }
}

/// The first `n` spans with the gaps before them are laid out up to the end of span `n - 1`.
proof fn lemma_gapped_upto(source: Seq<char>, s: Seq<Span>, n: nat)
    requires
        n <= s.len(),
        chunker::all_in_text(source, s),
        ordered(s),
    ensures
        laid_out(source, chunker::gapped_upto(source, s, n), chunker::cursor_at(s, n)),
        text::boundary(source, chunker::cursor_at(s, n)),
        0 <= chunker::cursor_at(s, n),
        forall|j: int|
            0 <= j < n ==> chunker::covered_in(
                chunker::gapped_upto(source, s, n),
                #[trigger] s[j],
            ),
    decreases n,
{
    text::lemma_byte_slice_all(source);
    if n > 0 {
        let m = (n - 1) as nat;
        let before = chunker::gapped_upto(source, s, m);
        let cur = chunker::cursor_at(s, m);
        let c = s[n - 1];
        lemma_gapped_upto(source, s, m);
        assert(chunker::in_text(source, c));
        encode_utf8_valid_utf8(source);
        text::lemma_boundary_range(encode_utf8(source), c.start_byte);
        if m > 0 {
            assert(s[m - 1].end_byte <= c.start_byte);
        }
        lemma_gap_laid_out(source, before, cur, c.start_byte);
        let mid = before + chunker::gap_between(source, cur, c.start_byte);
        lemma_laid_out_push(source, mid, chunker::cursor_at(mid, mid.len()), c);
        let r = chunker::gapped_upto(source, s, n);
        assert(r == mid.push(c));
        assert forall|j: int| 0 <= j < n implies chunker::covered_in(r, #[trigger] s[j]) by {
            if j < m {
                let k = choose|k: int|
                    0 <= k < before.len() && chunker::covers(#[trigger] before[k], s[j]);
                assert(r[k] == before[k]);
            } else {
                assert(chunker::covers(r[mid.len() as int], s[j]));
            }
        }
    }
}

/// Whether the spans are ranges of the text, in order, with nothing but whitespace before,
/// between and behind them.
pub open spec fn partitions(source: Seq<char>, s: Seq<Span>) -> bool {
    &&& chunker::all_in_text(source, s)
    &&& ordered(s)
    &&& blank_before(source, s, s.len() as int + 1)
}

/// Spans in order partition the text once the gaps are added.
pub proof fn lemma_gapped(source: Seq<char>, s: Seq<Span>)
    requires
        chunker::all_in_text(source, s),
        ordered(s),
    ensures
        partitions(source, chunker::gapped(source, s)),
        forall|j: int|
            0 <= j < s.len() ==> chunker::covered_in(chunker::gapped(source, s), #[trigger] s[j]),
        s.len() > 0 ==> chunker::gapped(source, s).len() > 0,
{
    let before = chunker::gapped_upto(source, s, s.len());
    let cur = chunker::cursor_at(s, s.len());
    let len = encode_utf8(source).len() as int;
    let r = chunker::gapped(source, s);
    lemma_gapped_upto(source, s, s.len());
    text::lemma_byte_slice_all(source);
    encode_utf8_valid_utf8(source);
    text::lemma_boundary_range(encode_utf8(source), cur);
    lemma_gap_laid_out(source, before, cur, len);
    assert forall|k: int| 0 <= k < r.len() + 1 implies text::is_blank(
        #[trigger] text_before(source, r, k),
    ) by {}
    assert forall|j: int| 0 <= j < s.len() implies chunker::covered_in(r, #[trigger] s[j]) by {
        let k = choose|k: int| 0 <= k < before.len() && chunker::covers(#[trigger] before[k], s[j]);
        assert(r[k] == before[k]);
    }
}

/// The pieces of a source with a syntax tree partition it, and each candidate lies in one.
pub proof fn lemma_pieces(source: Seq<char>, config: ChunkConfig, t: Seq<NodeView>)
    requires
        syntax::is_syntax_tree(source, t),
    ensures
        partitions(source, chunker::pieces_of(source, config, t)),
        chunker::pieces_of(source, config, t).len() > 0,
        ({
            let found = chunker::candidates_or_root(source, config.max_chars as nat, t);
            &&& chunker::sorted_by_start(found) == found
            &&& chunker::pieces_of(source, config, t) == chunker::gapped(
                source,
                chunker::uncovered_upto(found, found.len()),
            )
            &&& forall|j: int|
                0 <= j < found.len() ==> chunker::covered_in(
                    chunker::pieces_of(source, config, t),
                    #[trigger] found[j],
                )
        }),
{
    let found = chunker::candidates_or_root(source, config.max_chars as nat, t);
    lemma_found(source, config.max_chars as nat, t);
    lemma_ordered_sorted(source, found);
    let kept = chunker::uncovered_upto(found, found.len());
    lemma_uncovered_ordered(source, found, found.len());
    let pieces = chunker::gapped(source, kept);
    lemma_gapped(source, kept);
    lemma_ordered_sorted(source, pieces);
    chunker::lemma_uncovered_cover(found, found.len());
    assert forall|j: int| 0 <= j < found.len() implies chunker::covered_in(
        pieces,
        #[trigger] found[j],
    ) by {
        let k = choose|k: int| 0 <= k < kept.len() && chunker::covers(#[trigger] kept[k], found[j]);
        assert(chunker::covered_in(pieces, kept[k]));
        let m = choose|m: int|
            0 <= m < pieces.len() && chunker::covers(#[trigger] pieces[m], kept[k]);
        assert(chunker::covers(pieces[m], found[j]));
    }
}

/// A longer range holds at least as many characters.
pub proof fn lemma_chars_monotone(source: Seq<char>, a: int, b: int, c: int, d: int)
    requires
        text::boundary(source, a),
        text::boundary(source, b),
        text::boundary(source, c),
        text::boundary(source, d),
        a <= b <= c <= d,
    ensures
        chunker::chars_between(source, b, c) <= chunker::chars_between(source, a, d),
{
    text::lemma_byte_slice_join(source, a, b, d);
    text::lemma_byte_slice_join(source, b, c, d);
}

/// Whether no two neighbours among the spans can be merged.
pub open spec fn none_mergeable(source: Seq<char>, config: ChunkConfig, s: Seq<Span>) -> bool {
    forall|k: int|
        0 < k < s.len() ==> !chunker::is_mergeable(source, config, s[k - 1], #[trigger] s[k])
}

/// Whether every span longer than the limit is one of the pieces.
pub open spec fn long_ones_among(
    source: Seq<char>,
    config: ChunkConfig,
    s: Seq<Span>,
    pieces: Seq<Span>,
) -> bool {
    forall|k: int|
        0 <= k < s.len() && chunker::chars_between(
            source,
            (#[trigger] s[k]).start_byte,
            s[k].end_byte,
        ) > config.max_chars ==> pieces.contains(s[k])
}

/// Whether every span of `s` lies in one of `r`.
pub open spec fn all_covered(r: Seq<Span>, s: Seq<Span>) -> bool {
    forall|j: int| 0 <= j < s.len() ==> chunker::covered_in(r, #[trigger] s[j])
}

/// What merging keeps of the first `n` pieces.
spec fn merge_kept(source: Seq<char>, config: ChunkConfig, p: Seq<Span>, n: nat) -> bool {
    let m = chunker::merged_upto(source, config, p, n);
    &&& laid_out(source, m, chunker::cursor_at(p, n))
    &&& n > 0 ==> m.len() > 0
    &&& all_covered(m, p.take(n as int))
    &&& long_ones_among(source, config, m, p)
    &&& none_mergeable(source, config, m)
}

/// A neighbour that could not take in a span cannot take in a longer one in its place.
proof fn lemma_stays_unmergeable(source: Seq<char>, config: ChunkConfig, x: Span, a: Span, b: Span)
    requires
        chunker::in_text(source, x),
        chunker::in_text(source, a),
        chunker::in_text(source, b),
        x.end_byte <= a.start_byte,
        a.end_byte <= b.start_byte,
        !chunker::is_mergeable(source, config, x, a),
    ensures
        !chunker::is_mergeable(source, config, x, chunker::merged_span(a, b)),
{
    lemma_chars_monotone(source, x.start_byte, x.start_byte, a.end_byte, b.end_byte);
    lemma_chars_monotone(source, a.start_byte, a.start_byte, a.end_byte, b.end_byte);
}

proof fn lemma_merge_joins(source: Seq<char>, config: ChunkConfig, p: Seq<Span>, n: nat)
    requires
        0 < n <= p.len(),
        partitions(source, p),
        merge_kept(source, config, p, (n - 1) as nat),
        chunker::merged_upto(source, config, p, (n - 1) as nat).len() > 0,
        chunker::is_mergeable(
            source,
            config,
            chunker::merged_upto(source, config, p, (n - 1) as nat).last(),
            p[n - 1],
        ),
    ensures
        merge_kept(source, config, p, n),
{
    let before = chunker::merged_upto(source, config, p, (n - 1) as nat);
    let r = chunker::merged_upto(source, config, p, n);
    let last = before.last();
    let next = p[n - 1];
    let joined = chunker::merged_span(last, next);
    assert(r == before.drop_last().push(joined));
    assert(chunker::in_text(source, last));
    assert(chunker::in_text(source, next));
    assert(last.end_byte <= next.start_byte) by {
        if n > 1 {
            assert(p[n - 2].end_byte <= p[n - 1].start_byte);
        } else {
            assert(before.len() == 0);
        }
    }
    assert forall|k: int| 0 <= k < r.len() implies text::is_blank(
        #[trigger] text_before(source, r, k),
    ) by {
        assert(text_before(source, r, k) == text_before(source, before, k)) by {
            if k > 0 {
                assert(r[k - 1] == before[k - 1]);
            }
            if k < r.len() - 1 {
                assert(r[k] == before[k]);
            }
        }
    }
    assert forall|a: int, b: int| 0 <= a < b < r.len() implies (#[trigger] r[a]).end_byte <= (
    #[trigger] r[b]).start_byte by {
        assert(r[a] == before[a]);
        assert(r[b].start_byte == before[b].start_byte);
    }
    assert forall|k: int| 0 <= k < r.len() implies chunker::in_text(source, #[trigger] r[k]) by {
        if k < r.len() - 1 {
            assert(r[k] == before[k]);
        }
    }
    assert forall|j: int| 0 <= j < p.take(n as int).len() implies chunker::covered_in(
        r,
        #[trigger] p.take(n as int)[j],
    ) by {
        if j < n - 1 {
            assert(p.take(n as int)[j] == p.take(n - 1)[j]);
            let k = choose|k: int|
                0 <= k < before.len() && chunker::covers(#[trigger] before[k], p[j]);
            assert(chunker::covers(r[k], p[j]));
        } else {
            assert(chunker::covers(r[r.len() - 1], p[j]));
        }
    }
    assert forall|k: int| 0 <= k < r.len() && chunker::chars_between(
        source,
        (#[trigger] r[k]).start_byte,
        r[k].end_byte,
    ) > config.max_chars implies p.contains(r[k]) by {
        if k < r.len() - 1 {
            assert(r[k] == before[k]);
        }
    }
    assert forall|k: int| 0 < k < r.len() implies !chunker::is_mergeable(
        source,
        config,
        r[k - 1],
        #[trigger] r[k],
    ) by {
        assert(r[k - 1] == before[k - 1]);
        if k < r.len() - 1 {
            assert(r[k] == before[k]);
        } else {
            assert(!chunker::is_mergeable(source, config, before[k - 1], before[k]));
            lemma_stays_unmergeable(source, config, before[k - 1], last, next);
        }
    }
}

proof fn lemma_merge_appends(source: Seq<char>, config: ChunkConfig, p: Seq<Span>, n: nat)
    requires
        0 < n <= p.len(),
        partitions(source, p),
        merge_kept(source, config, p, (n - 1) as nat),
        chunker::merged_upto(source, config, p, n) == chunker::merged_upto(
            source,
            config,
            p,
            (n - 1) as nat,
        ).push(p[n - 1]),
        chunker::merged_upto(source, config, p, (n - 1) as nat).len() > 0
            ==> !chunker::is_mergeable(
            source,
            config,
            chunker::merged_upto(source, config, p, (n - 1) as nat).last(),
            p[n - 1],
        ),
    ensures
        merge_kept(source, config, p, n),
{
    let before = chunker::merged_upto(source, config, p, (n - 1) as nat);
    let r = chunker::merged_upto(source, config, p, n);
    let next = p[n - 1];
    let cur = chunker::cursor_at(p, (n - 1) as nat);
    assert(chunker::in_text(source, next));
    assert(cur <= next.start_byte) by {
        if n > 1 {
            assert(p[n - 2].end_byte <= p[n - 1].start_byte);
        } else {
            encode_utf8_valid_utf8(source);
            text::lemma_boundary_range(encode_utf8(source), next.start_byte);
        }
    }
    assert(text::is_blank(text_before(source, p, n - 1)));
    lemma_laid_out_push(source, before, cur, next);
    assert forall|j: int| 0 <= j < p.take(n as int).len() implies chunker::covered_in(
        r,
        #[trigger] p.take(n as int)[j],
    ) by {
        if j < n - 1 {
            assert(p.take(n as int)[j] == p.take(n - 1)[j]);
            let k = choose|k: int|
                0 <= k < before.len() && chunker::covers(#[trigger] before[k], p[j]);
            assert(chunker::covers(r[k], p[j]));
        } else {
            assert(chunker::covers(r[r.len() - 1], p[j]));
        }
    }
    assert forall|k: int| 0 <= k < r.len() && chunker::chars_between(
        source,
        (#[trigger] r[k]).start_byte,
        r[k].end_byte,
    ) > config.max_chars implies p.contains(r[k]) by {
        if k < r.len() - 1 {
            assert(r[k] == before[k]);
        } else {
            assert(r[k] == p[n - 1]);
        }
    }
    assert forall|k: int| 0 < k < r.len() implies !chunker::is_mergeable(
        source,
        config,
        r[k - 1],
        #[trigger] r[k],
    ) by {
        assert(r[k - 1] == before[k - 1]);
        if k < r.len() - 1 {
            assert(r[k] == before[k]);
        }
    }
}

proof fn lemma_merge_kept(source: Seq<char>, config: ChunkConfig, p: Seq<Span>, n: nat)
    requires
        n <= p.len(),
        partitions(source, p),
    ensures
        merge_kept(source, config, p, n),
    decreases n,
{
    if n > 0 {
        let m = (n - 1) as nat;
        let before = chunker::merged_upto(source, config, p, m);
        lemma_merge_kept(source, config, p, m);
        if before.len() > 0 && chunker::is_mergeable(source, config, before.last(), p[n - 1]) {
            lemma_merge_joins(source, config, p, n);
        } else {
            lemma_merge_appends(source, config, p, n);
        }
    }
}

/// Pieces that partition a text can be merged.
pub proof fn lemma_pieces_mergeable(source: Seq<char>, config: ChunkConfig, p: Seq<Span>)
    requires
        partitions(source, p),
    ensures
        chunker::can_be_merged(source, config, p),
{
    assert forall|n: int| 0 < n < p.len() implies (#[trigger] chunker::running(
        source,
        config,
        p,
        n,
    )).start_byte <= p[n].end_byte by {
        let m = chunker::merged_upto(source, config, p, n as nat);
        lemma_merge_kept(source, config, p, n as nat);
        assert(chunker::in_text(source, m[m.len() - 1]));
        assert(p[n - 1].end_byte <= p[n].start_byte);
        assert(chunker::in_text(source, p[n]));
    }
}

/// The ranges into which a source is split are in order, do not overlap, and leave out
/// nothing but whitespace.
pub proof fn law_chunks_partition_source(source: Seq<char>, config: ChunkConfig, t: Seq<NodeView>)
    requires
        syntax::is_syntax_tree(source, t),
    ensures
        partitions(source, chunker::chunk_spans(source, config, t)),
        chunker::chunk_spans(source, config, t).len() > 0,
{
    let p = chunker::pieces_of(source, config, t);
    let r = chunker::chunk_spans(source, config, t);
    lemma_pieces(source, config, t);
    lemma_merge_kept(source, config, p, p.len());
    assert(text::is_blank(text_before(source, p, p.len() as int)));
    assert forall|k: int| 0 <= k < r.len() + 1 implies text::is_blank(
        #[trigger] text_before(source, r, k),
    ) by {}
}

/// Every candidate lies whole in one chunk.
proof fn lemma_candidate_covered(source: Seq<char>, config: ChunkConfig, t: Seq<NodeView>, i: int)
    requires
        syntax::is_syntax_tree(source, t),
        0 <= i < t.len(),
        chunker::is_candidate(source, config.max_chars as nat, t, i),
    ensures
        chunker::covered_in(
            chunker::chunk_spans(source, config, t),
            chunker::span_of(t[i], t[i].kind),
        ),
{
    let max = config.max_chars as nat;
    let p = chunker::pieces_of(source, config, t);
    let r = chunker::chunk_spans(source, config, t);
    let c = chunker::span_of(t[i], t[i].kind);
    let found = chunker::candidates_or_root(source, max, t);
    lemma_pieces(source, config, t);
    lemma_merge_kept(source, config, p, p.len());
    lemma_candidate_listed(source, max, t, t.len(), i);
    let j = choose|j: int|
        0 <= j < chunker::candidates_upto(source, max, t, t.len()).len()
            && chunker::candidates_upto(source, max, t, t.len())[j] == c;
    assert(found[j] == c);
    assert(chunker::covered_in(p, found[j]));
    let k = choose|k: int| 0 <= k < p.len() && chunker::covers(#[trigger] p[k], c);
    assert(chunker::covered_in(r, p.take(p.len() as int)[k]));
    let m = choose|m: int| 0 <= m < r.len() && chunker::covers(#[trigger] r[m], p[k]);
    assert(chunker::covers(r[m], c));
}

/// Every semantic block that fits the limit, and every one without an inner block, lies whole
/// in one chunk.
pub proof fn law_blocks_stay_whole(
    source: Seq<char>,
    config: ChunkConfig,
    t: Seq<NodeView>,
    i: int,
)
    requires
        syntax::is_syntax_tree(source, t),
        is_block(t, i),
        chunker::is_taken(source, config.max_chars as nat, t[i]) || !chunker::has_inner_block(t, i),
    ensures
        chunker::covered_in(
            chunker::chunk_spans(source, config, t),
            chunker::span_of(t[i], t[i].kind),
        ),
{
    let r = chunker::chunk_spans(source, config, t);
    let c = lemma_block_yields_candidate(source, config.max_chars as nat, t, i);
    lemma_candidate_covered(source, config, t, c);
    if c != i {
        assert(syntax::pair_nested(t, c, i));
        let around = chunker::span_of(t[c], t[c].kind);
        let k = choose|k: int| 0 <= k < r.len() && chunker::covers(#[trigger] r[k], around);
        assert(chunker::covers(r[k], chunker::span_of(t[i], t[i].kind)));
    }
}

pub proof fn lemma_candidate_listed(source: Seq<char>, max: nat, t: Seq<NodeView>, n: nat, i: int)
    requires
        0 <= i < n,
        chunker::is_candidate(source, max, t, i),
    ensures
        chunker::candidates_upto(source, max, t, n).contains(chunker::span_of(t[i], t[i].kind)),
    decreases n,
{
    let r = chunker::candidates_upto(source, max, t, n);
    let before = chunker::candidates_upto(source, max, t, (n - 1) as nat);
    if i == n - 1 {
        assert(r[before.len() as int] == chunker::span_of(t[i], t[i].kind));
    } else {
        lemma_candidate_listed(source, max, t, (n - 1) as nat, i);
        let k = choose|k: int|
            0 <= k < before.len() && before[k] == chunker::span_of(t[i], t[i].kind);
        assert(r[k] == before[k]);
    }
}

/// Every piece is one of the kept spans or a gap.
proof fn lemma_gapped_origin(source: Seq<char>, s: Seq<Span>, n: nat, c: Span)
    requires
        n <= s.len(),
        chunker::gapped_upto(source, s, n).contains(c),
    ensures
        s.contains(c) || (c == chunker::gap_of(source, c.start_byte, c.end_byte) && c.start_byte
            < c.end_byte),
    decreases n,
{
    let r = chunker::gapped_upto(source, s, n);
    let k = choose|k: int| 0 <= k < r.len() && r[k] == c;
    if n > 0 {
        let before = chunker::gapped_upto(source, s, (n - 1) as nat);
        let gap = chunker::gap_between(
            source,
            chunker::cursor_at(s, (n - 1) as nat),
            s[n - 1].start_byte,
        );
        if k < before.len() {
            assert(before[k] == c);
            lemma_gapped_origin(source, s, (n - 1) as nat, c);
        } else if k < before.len() + gap.len() {
            assert(c == gap[k - before.len()]);
        } else {
            assert(c == s[n - 1]);
        }
    }
}

/// Every kept span is one of the pieces.
pub proof fn lemma_gapped_holds(source: Seq<char>, s: Seq<Span>, n: nat, j: int)
    requires
        0 <= j < n <= s.len(),
    ensures
        chunker::gapped_upto(source, s, n).contains(s[j]),
    decreases n,
{
    let r = chunker::gapped_upto(source, s, n);
    if j == n - 1 {
        assert(r.last() == s[j]);
    } else {
        let before = chunker::gapped_upto(source, s, (n - 1) as nat);
        lemma_gapped_holds(source, s, (n - 1) as nat, j);
        let k = choose|k: int| 0 <= k < before.len() && before[k] == s[j];
        assert(r[k] == s[j]);
    }
}

/// Whether a node holds no text.
pub open spec fn is_empty_node(n: NodeView) -> bool {
    n.start_byte == n.end_byte
}

/// Whether no semantic block lies in the range of a span. Blocks without text, and blocks that
/// hold such a one, are let pass.
pub open spec fn is_blockless(t: Seq<NodeView>, c: Span) -> bool {
    forall|j: int| #[trigger]
        is_block(t, j) && c.start_byte <= t[j].start_byte && t[j].end_byte <= c.end_byte ==> {
            ||| is_empty_node(t[j])
            ||| exists|m: int| #[trigger] chunker::is_inner_block(t, j, m) && is_empty_node(t[m])
        }
}

/// Whether a span is code between blocks, a block without inner blocks, or the root of a tree
/// without blocks.
pub open spec fn is_indivisible(source: Seq<char>, t: Seq<NodeView>, c: Span) -> bool {
    ||| c == chunker::gap_of(source, c.start_byte, c.end_byte) && is_blockless(t, c)
    ||| exists|i: int| #[trigger]
        is_block(t, i) && !chunker::has_inner_block(t, i) && c == chunker::span_of(
            t[i],
            t[i].kind,
        )
    ||| {
        &&& forall|j: int| !#[trigger] is_block(t, j)
        &&& c == chunker::span_of(t[0], "source_file"@)
    }
}

/// A tree with a block has candidates.
proof fn lemma_no_candidate_no_block(source: Seq<char>, max: nat, t: Seq<NodeView>)
    requires
        chunker::candidates_upto(source, max, t, t.len()).len() == 0,
    ensures
        forall|j: int| !#[trigger] is_block(t, j),
{
    assert forall|j: int| !#[trigger] is_block(t, j) by {
        if is_block(t, j) {
            let c = lemma_block_yields_candidate(source, max, t, j);
            lemma_candidate_listed(source, max, t, t.len(), c);
        }
    }
}

/// A gap that is none of the kept spans shares no text with a candidate.
proof fn lemma_candidate_outside_gap(
    source: Seq<char>,
    config: ChunkConfig,
    t: Seq<NodeView>,
    m: int,
    i: int,
)
    requires
        syntax::is_syntax_tree(source, t),
        0 <= m < chunker::pieces_of(source, config, t).len(),
        0 <= i < t.len(),
        chunker::is_candidate(source, config.max_chars as nat, t, i),
        ({
            let found = chunker::candidates_or_root(source, config.max_chars as nat, t);
            !chunker::uncovered_upto(found, found.len()).contains(
                chunker::pieces_of(source, config, t)[m],
            )
        }),
    ensures
        ({
            let c = chunker::pieces_of(source, config, t)[m];
            ||| t[i].end_byte <= c.start_byte
            ||| c.end_byte <= t[i].start_byte
        }),
{
    let max = config.max_chars as nat;
    let p = chunker::pieces_of(source, config, t);
    let found = chunker::candidates_or_root(source, max, t);
    let kept = chunker::uncovered_upto(found, found.len());
    let before = chunker::gapped_upto(source, kept, kept.len());
    lemma_pieces(source, config, t);
    lemma_candidate_listed(source, max, t, t.len(), i);
    let a = choose|a: int|
        0 <= a < chunker::candidates_upto(source, max, t, t.len()).len()
            && chunker::candidates_upto(source, max, t, t.len())[a] == chunker::span_of(
            t[i],
            t[i].kind,
        );
    chunker::lemma_uncovered_cover(found, found.len());
    assert(chunker::covered_in(kept, found[a]));
    let b = choose|b: int| 0 <= b < kept.len() && chunker::covers(#[trigger] kept[b], found[a]);
    lemma_gapped_holds(source, kept, kept.len(), b);
    let k = choose|k: int| 0 <= k < before.len() && before[k] == kept[b];
    assert(p[k] == kept[b]);
    assert(k != m);
    assert(chunker::in_text(source, p[k]));
}

/// The code between two blocks holds no block.
proof fn lemma_gap_blockless(source: Seq<char>, config: ChunkConfig, t: Seq<NodeView>, m: int)
    requires
        syntax::is_syntax_tree(source, t),
        0 <= m < chunker::pieces_of(source, config, t).len(),
        ({
            let found = chunker::candidates_or_root(source, config.max_chars as nat, t);
            !chunker::uncovered_upto(found, found.len()).contains(
                chunker::pieces_of(source, config, t)[m],
            )
        }),
    ensures
        is_blockless(t, chunker::pieces_of(source, config, t)[m]),
{
    let max = config.max_chars as nat;
    let c = chunker::pieces_of(source, config, t)[m];
    assert forall|j: int| #[trigger]
        is_block(t, j) && c.start_byte <= t[j].start_byte && t[j].end_byte <= c.end_byte implies {
        ||| is_empty_node(t[j])
        ||| exists|k: int| #[trigger] chunker::is_inner_block(t, j, k) && is_empty_node(t[k])
    } by {
        let i = lemma_block_yields_candidate(source, max, t, j);
        lemma_candidate_outside_gap(source, config, t, m, i);
        assert(syntax::node_in_text(source, t[i]));
        assert(syntax::node_in_text(source, t[j]));
        if i != j {
            if chunker::is_inner_block(t, j, i) {
                assert(syntax::pair_nested(t, j, i));
            } else {
                assert(syntax::pair_nested(t, i, j));
            }
        }
    }
}

/// A piece is code between blocks, a candidate, or the root of a tree without blocks.
pub proof fn lemma_piece_origin(source: Seq<char>, config: ChunkConfig, t: Seq<NodeView>, m: int)
    requires
        syntax::is_syntax_tree(source, t),
        0 <= m < chunker::pieces_of(source, config, t).len(),
    ensures
        ({
            let c = chunker::pieces_of(source, config, t)[m];
            ||| c == chunker::gap_of(source, c.start_byte, c.end_byte) && is_blockless(t, c)
                && c.start_byte < c.end_byte
            ||| exists|i: int|
                0 <= i < t.len() && #[trigger] chunker::is_candidate(
                    source,
                    config.max_chars as nat,
                    t,
                    i,
                ) && c == chunker::span_of(t[i], t[i].kind)
            ||| {
                &&& forall|j: int| !#[trigger] is_block(t, j)
                &&& c == chunker::span_of(t[0], "source_file"@)
            }
        }),
{
    let max = config.max_chars as nat;
    let p = chunker::pieces_of(source, config, t);
    let c = p[m];
    let found = chunker::candidates_or_root(source, max, t);
    let kept = chunker::uncovered_upto(found, found.len());
    let before = chunker::gapped_upto(source, kept, kept.len());
    lemma_pieces(source, config, t);
    if kept.contains(c) {
        let j = choose|j: int| 0 <= j < kept.len() && kept[j] == c;
        chunker::lemma_uncovered_origin(found, found.len(), j);
        let i = choose|i: int| 0 <= i < found.len() && #[trigger] found[i] == kept[j];
        let ids = candidate_ids(source, max, t, t.len());
        lemma_candidate_ids(source, max, t, t.len());
        if ids.len() > 0 {
            assert(chunker::is_candidate(source, max, t, ids[i]));
        } else {
            lemma_no_candidate_no_block(source, max, t);
        }
    } else {
        lemma_gap_blockless(source, config, t, m);
        if m < before.len() {
            assert(before[m] == c);
            lemma_gapped_origin(source, kept, kept.len(), c);
        }
    }
}

/// A chunk longer than the limit is a single piece: a block without inner blocks, the code
/// between two blocks, which holds no block, or a source without blocks.
pub proof fn law_long_chunks_are_indivisible(
    source: Seq<char>,
    config: ChunkConfig,
    t: Seq<NodeView>,
    k: int,
)
    requires
        syntax::is_syntax_tree(source, t),
        0 <= k < chunker::chunk_spans(source, config, t).len(),
        ({
            let c = chunker::chunk_spans(source, config, t)[k];
            chunker::chars_between(source, c.start_byte, c.end_byte) > config.max_chars
        }),
    ensures
        is_indivisible(source, t, chunker::chunk_spans(source, config, t)[k]),
{
    let max = config.max_chars as nat;
    let p = chunker::pieces_of(source, config, t);
    let c = chunker::chunk_spans(source, config, t)[k];
    lemma_pieces(source, config, t);
    lemma_merge_kept(source, config, p, p.len());
    assert(p.contains(c));
    let m = choose|m: int| 0 <= m < p.len() && p[m] == c;
    lemma_piece_origin(source, config, t, m);
    if exists|i: int|
        0 <= i < t.len() && #[trigger] chunker::is_candidate(source, max, t, i) && c
            == chunker::span_of(t[i], t[i].kind) {
        let i = choose|i: int|
            0 <= i < t.len() && #[trigger] chunker::is_candidate(source, max, t, i) && c
                == chunker::span_of(t[i], t[i].kind);
        assert(is_block(t, i));
    }
}

/// A span with text of its own, among spans in order, is not left out.
pub proof fn lemma_uncovered_keeps(s: Seq<Span>, n: nat, j: int)
    requires
        0 <= j < n <= s.len(),
        ordered(s),
        s[j].start_byte < s[j].end_byte,
    ensures
        chunker::uncovered_upto(s, n).contains(s[j]),
    decreases n,
{
    let r = chunker::uncovered_upto(s, n);
    let before = chunker::uncovered_upto(s, (n - 1) as nat);
    if j == n - 1 {
        assert(!chunker::covered_before(s, j));
        assert(r.last() == s[j]);
    } else {
        lemma_uncovered_keeps(s, (n - 1) as nat, j);
        let k = choose|k: int| 0 <= k < before.len() && before[k] == s[j];
        assert(r[k] == s[j]);
    }
}

/// A piece longer than the limit is not merged with its neighbours.
proof fn lemma_long_piece_stays(
    source: Seq<char>,
    config: ChunkConfig,
    p: Seq<Span>,
    n: nat,
    j: int,
)
    requires
        0 <= j < n <= p.len(),
        partitions(source, p),
        chunker::chars_between(source, p[j].start_byte, p[j].end_byte) > config.max_chars,
    ensures
        chunker::merged_upto(source, config, p, n).contains(p[j]),
    decreases n,
{
    let before = chunker::merged_upto(source, config, p, (n - 1) as nat);
    let r = chunker::merged_upto(source, config, p, n);
    let next = p[n - 1];
    lemma_merge_kept(source, config, p, (n - 1) as nat);
    assert(chunker::in_text(source, next));
    assert(chunker::in_text(source, p[j]));
    if before.len() > 0 {
        assert(chunker::in_text(source, before.last()));
        assert(n > 1);
        assert(p[n - 2].end_byte <= next.start_byte);
    }
    if j == n - 1 {
        if before.len() > 0 {
            lemma_chars_monotone(
                source,
                before.last().start_byte,
                next.start_byte,
                next.end_byte,
                next.end_byte,
            );
        }
        assert(r.last() == p[j]);
    } else {
        lemma_long_piece_stays(source, config, p, (n - 1) as nat, j);
        let k = choose|k: int| 0 <= k < before.len() && before[k] == p[j];
        if k == before.len() - 1 {
            lemma_chars_monotone(
                source,
                p[j].start_byte,
                p[j].start_byte,
                p[j].end_byte,
                next.end_byte,
            );
        }
        assert(r[k] == p[j]);
    }
}

/// A semantic block that is longer than the limit and has no inner block is a chunk of its
/// own kind.
pub proof fn law_long_blocks_are_chunks(
    source: Seq<char>,
    config: ChunkConfig,
    t: Seq<NodeView>,
    i: int,
)
    requires
        syntax::is_syntax_tree(source, t),
        is_block(t, i),
        chunker::chars_between(source, t[i].start_byte, t[i].end_byte) > config.max_chars,
        !chunker::has_inner_block(t, i),
    ensures
        chunker::chunk_spans(source, config, t).contains(chunker::span_of(t[i], t[i].kind)),
{
    let max = config.max_chars as nat;
    let c = chunker::span_of(t[i], t[i].kind);
    let p = chunker::pieces_of(source, config, t);
    let found = chunker::candidates_or_root(source, max, t);
    let kept = chunker::uncovered_upto(found, found.len());
    let before = chunker::gapped_upto(source, kept, kept.len());
    assert(syntax::node_in_text(source, t[i]));
    let k = lemma_block_yields_candidate(source, max, t, i);
    if k != i {
        assert(syntax::node_in_text(source, t[k]));
        assert(syntax::pair_nested(t, k, i));
        lemma_chars_monotone(
            source,
            t[k].start_byte,
            t[i].start_byte,
            t[i].end_byte,
            t[k].end_byte,
        );
    }
    lemma_pieces(source, config, t);
    lemma_found(source, max, t);
    lemma_candidate_listed(source, max, t, t.len(), i);
    let a = choose|a: int|
        0 <= a < chunker::candidates_upto(source, max, t, t.len()).len()
            && chunker::candidates_upto(source, max, t, t.len())[a] == c;
    assert(found[a] == c);
    text::lemma_byte_slice_empty(source, c.start_byte);
    lemma_uncovered_keeps(found, found.len(), a);
    let b = choose|b: int| 0 <= b < kept.len() && kept[b] == c;
    lemma_gapped_holds(source, kept, kept.len(), b);
    let m = choose|m: int| 0 <= m < before.len() && before[m] == c;
    assert(p[m] == c);
    lemma_long_piece_stays(source, config, p, p.len(), m);
}

/// Whether the line numbers of a span are those of its byte offsets.
pub open spec fn lines_match(source: Seq<char>, c: Span) -> bool {
    &&& c.start_line == text::line_at(source, c.start_byte)
    &&& c.end_line == text::line_at(source, c.end_byte)
}

/// Whether the line numbers of every span are those of its byte offsets.
pub open spec fn all_lines_match(source: Seq<char>, s: Seq<Span>) -> bool {
    forall|k: int| 0 <= k < s.len() ==> lines_match(source, #[trigger] s[k])
}

/// Merging keeps the line numbers right.
proof fn lemma_merged_lines(source: Seq<char>, config: ChunkConfig, p: Seq<Span>, n: nat)
    requires
        n <= p.len(),
        all_lines_match(source, p),
    ensures
        all_lines_match(source, chunker::merged_upto(source, config, p, n)),
    decreases n,
{
    if n > 0 {
        let before = chunker::merged_upto(source, config, p, (n - 1) as nat);
        let r = chunker::merged_upto(source, config, p, n);
        lemma_merged_lines(source, config, p, (n - 1) as nat);
        assert(lines_match(source, p[n - 1]));
        if before.len() > 0 {
            assert(lines_match(source, before.last()));
        }
        assert forall|k: int| 0 <= k < r.len() implies lines_match(source, #[trigger] r[k]) by {
            if k < r.len() - 1 {
                assert(r[k] == before[k]);
            }
        }
    }
}

/// Every chunk has the 1-based numbers of the lines on which it starts and ends.
pub proof fn law_chunks_know_their_lines(source: Seq<char>, config: ChunkConfig, t: Seq<NodeView>)
    requires
        syntax::is_syntax_tree(source, t),
    ensures
        all_lines_match(source, chunker::chunk_spans(source, config, t)),
{
    let max = config.max_chars as nat;
    let p = chunker::pieces_of(source, config, t);
    assert forall|m: int| 0 <= m < p.len() implies lines_match(source, #[trigger] p[m]) by {
        let c = p[m];
        lemma_piece_origin(source, config, t, m);
        assert(syntax::node_in_text(source, t[0]));
        if exists|i: int|
            0 <= i < t.len() && #[trigger] chunker::is_candidate(source, max, t, i) && c
                == chunker::span_of(t[i], t[i].kind) {
            let i = choose|i: int|
                0 <= i < t.len() && #[trigger] chunker::is_candidate(source, max, t, i) && c
                    == chunker::span_of(t[i], t[i].kind);
            assert(syntax::node_in_text(source, t[i]));
        }
    }
    lemma_merged_lines(source, config, p, p.len());
}

/// Small neighbours do not stay apart: no two adjacent chunks could still be merged.
pub proof fn law_chunks_are_fully_merged(source: Seq<char>, config: ChunkConfig, t: Seq<NodeView>)
    requires
        syntax::is_syntax_tree(source, t),
    ensures
        none_mergeable(source, config, chunker::chunk_spans(source, config, t)),
{
    let p = chunker::pieces_of(source, config, t);
    lemma_pieces(source, config, t);
    lemma_merge_kept(source, config, p, p.len());
}

} // verus!
