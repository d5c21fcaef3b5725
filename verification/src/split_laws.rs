//! What holds of the chunks of every source, in terms of its syntax tree and of the chunks
//! themselves.

use crate::chunk_kind;
use crate::chunk_kind::ChunkKind;
use crate::chunk_laws;
use crate::chunker;
use crate::chunker::{ChunkConfig, ChunkError, ChunkView, Span};
use crate::order;
use crate::rewrite_laws;
use crate::syntax;
use crate::syntax::NodeView;
use crate::text;
use vstd::prelude::*;
use vstd::utf8::*;

verus! {

/// The kind of chunk that an item with this name in the grammar makes.
pub open spec fn item_kind(name: Seq<char>) -> Option<ChunkKind> {
    if name == "function_item"@ {
        Some(ChunkKind::Function)
    } else if name == "impl_item"@ {
        Some(ChunkKind::Impl)
    } else if name == "struct_item"@ {
        Some(ChunkKind::Struct)
    } else if name == "enum_item"@ {
        Some(ChunkKind::Enum)
    } else if name == "trait_item"@ {
        Some(ChunkKind::Trait)
    } else if name == "mod_item"@ {
        Some(ChunkKind::Mod)
    } else if name == "macro_definition"@ {
        Some(ChunkKind::Macro)
    } else if name == "const_item"@ {
        Some(ChunkKind::Const)
    } else if name == "static_item"@ {
        Some(ChunkKind::Static)
    } else if name == "type_item"@ {
        Some(ChunkKind::Type)
    } else if name == "use_declaration"@ {
        Some(ChunkKind::Use)
    } else {
        None
    }
}

/// Whether node `i` is an item to which named nodes lead from the root.
pub open spec fn is_item(t: Seq<NodeView>, i: int) -> bool {
    &&& 0 <= i < t.len()
    &&& i == 0 || t[i].named
    &&& item_kind(t[i].kind) is Some
    &&& forall|k: int| #[trigger] syntax::above(t, k, i) ==> k == 0 || t[k].named
}

/// Number of characters of a node.
pub open spec fn size(source: Seq<char>, n: NodeView) -> nat {
    text::byte_slice(source, n.start_byte, n.end_byte).len()
}

/// Whether node `i` is an item along which the source is cut: it lies in no item that fits the
/// limit, and fits the limit itself or holds no other item.
pub open spec fn is_cut(source: Seq<char>, max: nat, t: Seq<NodeView>, i: int) -> bool {
    &&& is_item(t, i)
    &&& forall|k: int| #[trigger] syntax::above(t, k, i) && is_item(t, k) ==> size(source, t[k]) > max
    &&& size(source, t[i]) <= max || forall|j: int|
        #![trigger is_item(t, j)]
        syntax::above(t, i, j) ==> !is_item(t, j)
}

/// Whether every item has text.
pub open spec fn items_have_text(t: Seq<NodeView>) -> bool {
    forall|i: int| #[trigger] is_item(t, i) ==> t[i].start_byte < t[i].end_byte
}

/// Whether the range of node `i` lies in a chunk.
pub open spec fn lies_in(t: Seq<NodeView>, i: int, c: ChunkView) -> bool {
    c.start_byte <= t[i].start_byte && t[i].end_byte <= c.end_byte
}

proof fn lemma_item_kind(name: Seq<char>)
    ensures
        item_kind(name) is Some <==> chunker::is_boundary_kind(name),
        item_kind(name) matches Some(k) ==> chunk_kind::kind_of(name) == k && k != ChunkKind::Gap
            && k != ChunkKind::Mixed && k != ChunkKind::Unknown,
{
    reveal_strlit("function");
    reveal_strlit("function_item");
    reveal_strlit("impl");
    reveal_strlit("impl_item");
    reveal_strlit("struct");
    reveal_strlit("struct_item");
    reveal_strlit("enum");
    reveal_strlit("enum_item");
    reveal_strlit("trait");
    reveal_strlit("trait_item");
    reveal_strlit("mod");
    reveal_strlit("mod_item");
    reveal_strlit("macro_definition");
    reveal_strlit("const");
    reveal_strlit("const_item");
    reveal_strlit("static");
    reveal_strlit("static_item");
    reveal_strlit("type");
    reveal_strlit("type_item");
    reveal_strlit("use");
    reveal_strlit("use_declaration");
    assert("function"@.len() == 8);
    assert("function_item"@.len() == 13);
    assert("impl"@.len() == 4);
    assert("impl_item"@.len() == 9);
    assert("struct"@.len() == 6);
    assert("struct_item"@.len() == 11);
    assert("enum"@.len() == 4);
    assert("enum_item"@.len() == 9);
    assert("trait"@.len() == 5);
    assert("trait_item"@.len() == 10);
    assert("mod"@.len() == 3);
    assert("mod_item"@.len() == 8);
    assert("macro_definition"@.len() == 16);
    assert("const"@.len() == 5);
    assert("const_item"@.len() == 10);
    assert("static"@.len() == 6);
    assert("static_item"@.len() == 11);
    assert("type"@.len() == 4);
    assert("type_item"@.len() == 9);
    assert("use"@.len() == 3);
    assert("use_declaration"@.len() == 15);
    assert("function"@[0] == 'f' && "mod_item"@[0] == 'm');
    assert("impl_item"@[0] == 'i' && "enum_item"@[0] == 'e' && "type_item"@[0] == 't');
    assert("struct_item"@[2] == 'r' && "static_item"@[2] == 'a');
    assert("trait_item"@[0] == 't' && "const_item"@[0] == 'c');
}

/// Items are the semantic blocks of the search.
proof fn lemma_item_is_block(t: Seq<NodeView>, i: int)
    ensures
        is_item(t, i) <==> chunk_laws::is_block(t, i),
{
    if 0 <= i < t.len() {
        lemma_item_kind(t[i].kind);
    }
    if is_item(t, i) {
        assert forall|k: int| #[trigger] syntax::above(t, k, i) implies chunker::is_entered(t, k) by {}
    }
    if chunk_laws::is_block(t, i) {
        assert forall|k: int| #[trigger] syntax::above(t, k, i) implies k == 0 || t[k].named by {
            assert(chunker::is_entered(t, k));
        }
    }
}

/// An item has an inner block exactly if there is an item below it.
proof fn lemma_inner_item(t: Seq<NodeView>, i: int)
    requires
        is_item(t, i),
    ensures
        chunker::has_inner_block(t, i) <==> exists|j: int|
            #![trigger is_item(t, j)]
            syntax::above(t, i, j) && is_item(t, j),
{
    lemma_item_is_block(t, i);
    if chunker::has_inner_block(t, i) {
        let m = choose|m: int| #[trigger] chunker::is_inner_block(t, i, m);
        assert forall|k: int| #[trigger] syntax::above(t, k, m) implies chunker::is_entered(t, k) by {
            if k < i {
                chunk_laws::lemma_above_linear(t, k, i, m);
            } else if k > i {
                chunk_laws::lemma_above_linear(t, i, k, m);
            }
        }
        assert(chunk_laws::is_block(t, m));
        lemma_item_is_block(t, m);
    }
    if exists|j: int|
        #![trigger is_item(t, j)]
        syntax::above(t, i, j) && is_item(t, j) {
        let j = choose|j: int|
            #![trigger is_item(t, j)]
            syntax::above(t, i, j) && is_item(t, j);
        lemma_item_is_block(t, j);
        chunk_laws::lemma_block_is_inner(t, i, j);
    }
}

/// The items along which the source is cut are the candidates of the search.
proof fn lemma_cut_is_candidate(source: Seq<char>, max: nat, t: Seq<NodeView>, i: int)
    requires
        0 <= i < t.len(),
    ensures
        is_cut(source, max, t, i) <==> chunker::is_candidate(source, max, t, i),
{
    lemma_item_is_block(t, i);
    if is_cut(source, max, t, i) {
        lemma_inner_item(t, i);
        assert forall|k: int| #[trigger] syntax::above(t, k, i) implies chunker::is_entered(t, k)
            && !chunker::is_taken(source, max, t[k]) by {
            lemma_ancestor_item(t, k, i);
            lemma_item_kind(t[k].kind);
        }
    }
    if chunker::is_candidate(source, max, t, i) {
        assert(chunk_laws::is_block(t, i));
        lemma_inner_item(t, i);
        assert forall|k: int| #[trigger] syntax::above(t, k, i) && is_item(t, k) implies size(
            source,
            t[k],
        ) > max by {
            assert(!chunker::is_taken(source, max, t[k]));
            lemma_item_kind(t[k].kind);
        }
        lemma_item_kind(t[i].kind);
    }
}

/// An ancestor of an item is reached, so it is an item if its name is that of one.
proof fn lemma_ancestor_item(t: Seq<NodeView>, k: int, i: int)
    requires
        is_item(t, i),
        syntax::above(t, k, i),
    ensures
        item_kind(t[k].kind) is Some ==> is_item(t, k),
{
    assert forall|m: int| #[trigger] syntax::above(t, m, k) implies m == 0 || t[m].named by {
        chunk_laws::lemma_above_trans(t, m, k, i);
    }
}

/// Every item that fits the limit lies whole in one chunk, and so does every item without an
/// item in it. Items are functions, impls, structs, enums, traits, modules, macro definitions,
/// constants, statics, type aliases and use declarations.
pub proof fn law_items_stay_whole(
    source: Seq<char>,
    config: ChunkConfig,
    t: Seq<NodeView>,
    i: int,
)
    requires
        syntax::is_syntax_tree(source, t),
        is_item(t, i),
        size(source, t[i]) <= config.max_chars || forall|j: int|
            #![trigger is_item(t, j)]
            syntax::above(t, i, j) ==> !is_item(t, j),
    ensures
        ({
            let chunks = chunker::chunks_of(source, config, t);
            exists|k: int| 0 <= k < chunks.len() && lies_in(t, i, #[trigger] chunks[k])
        }),
{
    lemma_item_is_block(t, i);
    lemma_inner_item(t, i);
    lemma_item_kind(t[i].kind);
    chunk_laws::law_blocks_stay_whole(source, config, t, i);
    let r = chunker::chunk_spans(source, config, t);
    let chunks = chunker::chunks_of(source, config, t);
    let c = chunker::span_of(t[i], t[i].kind);
    let k = choose|k: int| 0 <= k < r.len() && chunker::covers(#[trigger] r[k], c);
    assert(lies_in(t, i, chunks[k]));
}

/// The only item of a source, with nothing but whitespace around it, is its only chunk: of its
/// range, its text and its kind, however long it is.
pub proof fn law_lone_item_is_the_chunk(
    source: Seq<char>,
    config: ChunkConfig,
    t: Seq<NodeView>,
    i: int,
)
    requires
        syntax::is_syntax_tree(source, t),
        is_item(t, i),
        forall|j: int| #[trigger] is_item(t, j) ==> j == i,
        text::is_blank(text::byte_slice(source, 0, t[i].start_byte)),
        text::is_blank(
            text::byte_slice(source, t[i].end_byte, encode_utf8(source).len() as int),
        ),
    ensures
        chunker::chunks_of(source, config, t) == seq![
            ChunkView {
                index: 1,
                kind: item_kind(t[i].kind)->0,
                start_byte: t[i].start_byte,
                end_byte: t[i].end_byte,
                start_line: t[i].start_row + 1,
                end_line: t[i].end_row + 1,
                text: text::byte_slice(source, t[i].start_byte, t[i].end_byte),
            },
        ],
{
    let max = config.max_chars as nat;
    let c = chunker::span_of(t[i], t[i].kind);
    lemma_item_kind(t[i].kind);
    assert(is_cut(source, max, t, i)) by {
        assert forall|k: int| #[trigger] syntax::above(t, k, i) && is_item(t, k) implies size(
            source,
            t[k],
        ) > max by {}
        assert forall|j: int| syntax::above(t, i, j) implies !#[trigger] is_item(t, j) by {}
    }
    lemma_only_candidate(source, max, t, i, t.len());
    let found = chunker::candidates_or_root(source, max, t);
    assert(found == seq![c]);
    chunk_laws::lemma_pieces(source, config, t);
    let kept = chunker::uncovered_upto(found, 1);
    assert(!chunker::covered_before(found, 0));
    assert(chunker::uncovered_upto(found, 0) == Seq::<Span>::empty());
    assert(kept == seq![c]);
    let before = chunker::gapped_upto(source, kept, 0);
    assert(before == Seq::<Span>::empty());
    assert(chunker::gapped_upto(source, kept, 1) == seq![c]);
    let p = chunker::pieces_of(source, config, t);
    assert(p == seq![c]);
    assert(chunker::merged_upto(source, config, p, 0) == Seq::<Span>::empty());
    assert(chunker::merged_upto(source, config, p, 1) == seq![c]);
}

/// If node `i` is the only item, it is the only candidate.
proof fn lemma_only_candidate(source: Seq<char>, max: nat, t: Seq<NodeView>, i: int, n: nat)
    requires
        n <= t.len(),
        is_cut(source, max, t, i),
        forall|j: int| #[trigger] is_item(t, j) ==> j == i,
    ensures
        chunker::candidates_upto(source, max, t, n) == if i < n {
            seq![chunker::span_of(t[i], t[i].kind)]
        } else {
            Seq::<Span>::empty()
        },
    decreases n,
{
    if n > 0 {
        lemma_only_candidate(source, max, t, i, (n - 1) as nat);
        lemma_cut_is_candidate(source, max, t, n - 1);
        if n - 1 != i {
            assert(!is_item(t, n - 1));
        }
    }
}

/// Whether a span has been made of the pieces from `lo` up to `hi`.
spec fn is_group(
    source: Seq<char>,
    config: ChunkConfig,
    p: Seq<Span>,
    c: Span,
    lo: int,
    hi: int,
) -> bool {
    &&& 0 <= lo < hi <= p.len()
    &&& c.start_byte == p[lo].start_byte
    &&& c.end_byte == p[hi - 1].end_byte
    &&& hi - lo == 1 ==> c.kind == p[lo].kind
    &&& hi - lo > 1 ==> chunker::chars_between(source, c.start_byte, c.end_byte)
        <= config.max_chars
    &&& forall|i: int|
        lo <= i < hi ==> (#[trigger] p[i]).kind == ChunkKind::Gap || c.kind == p[i].kind || c.kind
            == ChunkKind::Mixed
    &&& c.kind == ChunkKind::Gap ==> forall|i: int|
        lo <= i < hi ==> (#[trigger] p[i]).kind == ChunkKind::Gap
    &&& c.kind != ChunkKind::Gap && c.kind != ChunkKind::Mixed ==> exists|i: int|
        lo <= i < hi && (#[trigger] p[i]).kind == c.kind
    &&& c.kind == ChunkKind::Mixed ==> has_two_kinds(p, lo, hi)
    &&& forall|i: int, j: int|
        lo <= i < hi && lo <= j < hi && i != j && (#[trigger] p[i]).kind != ChunkKind::Gap && (
        #[trigger] p[j]).kind != ChunkKind::Gap ==> chunker::chars_between(
            source,
            p[i].start_byte,
            p[i].end_byte,
        ) < config.target_chars
}

/// Whether pieces of different kinds, neither of them a gap, are among those from `lo` to `hi`.
spec fn has_two_kinds(p: Seq<Span>, lo: int, hi: int) -> bool {
    exists|i: int, j: int|
        lo <= i < hi && lo <= j < hi && (#[trigger] p[i]).kind != (#[trigger] p[j]).kind
            && p[i].kind != ChunkKind::Gap && p[j].kind != ChunkKind::Gap
}

/// Whether no piece has the kind of a merged chunk.
spec fn none_mixed(p: Seq<Span>) -> bool {
    forall|i: int| 0 <= i < p.len() ==> (#[trigger] p[i]).kind != ChunkKind::Mixed
}

/// Whether a span has been made of some of the pieces, and, if `after` is given, the first of
/// them could not be merged into that span.
spec fn is_made_of(
    source: Seq<char>,
    config: ChunkConfig,
    p: Seq<Span>,
    c: Span,
    after: Option<Span>,
) -> bool {
    exists|lo: int, hi: int| #[trigger]
        is_group(source, config, p, c, lo, hi) && (after matches Some(a)
            ==> !chunker::is_mergeable(source, config, a, p[lo]))
}

/// The span before span `k`, if there is one.
spec fn before_span(m: Seq<Span>, k: int) -> Option<Span> {
    if k > 0 {
        Some(m[k - 1])
    } else {
        None
    }
}

/// What merging the first `n` pieces yields is made of pieces; the last span ends with piece
/// `n - 1`.
spec fn groups_kept(source: Seq<char>, config: ChunkConfig, p: Seq<Span>, n: nat) -> bool {
    let m = chunker::merged_upto(source, config, p, n);
    &&& forall|k: int|
        0 <= k < m.len() - 1 ==> is_made_of(
            source,
            config,
            p,
            #[trigger] m[k],
            before_span(m, k),
        )
    &&& n > 0 ==> m.len() > 0 && exists|lo: int| #[trigger]
        is_group(source, config, p, m.last(), lo, n as int) && (m.len() > 1
            ==> !chunker::is_mergeable(source, config, m[m.len() - 2], p[lo]))
}

/// The characters of a piece of a group are among those of the group.
proof fn lemma_piece_in_group(
    source: Seq<char>,
    config: ChunkConfig,
    p: Seq<Span>,
    c: Span,
    lo: int,
    hi: int,
    i: int,
)
    requires
        chunk_laws::partitions(source, p),
        is_group(source, config, p, c, lo, hi),
        lo <= i < hi,
    ensures
        c.start_byte <= p[i].start_byte <= p[i].end_byte <= c.end_byte,
        chunker::in_text(source, c),
        chunker::chars_between(source, p[i].start_byte, p[i].end_byte) <= chunker::chars_between(
            source,
            c.start_byte,
            c.end_byte,
        ),
{
    assert(chunker::in_text(source, p[lo]));
    assert(chunker::in_text(source, p[i]));
    assert(chunker::in_text(source, p[hi - 1]));
    if lo < i {
        assert(p[lo].end_byte <= p[i].start_byte);
    }
    if i < hi - 1 {
        assert(p[i].end_byte <= p[hi - 1].start_byte);
    }
    chunk_laws::lemma_chars_monotone(
        source,
        c.start_byte,
        p[i].start_byte,
        p[i].end_byte,
        c.end_byte,
    );
}

/// Merging one more piece into a group makes a group.
proof fn lemma_group_grows(
    source: Seq<char>,
    config: ChunkConfig,
    p: Seq<Span>,
    c: Span,
    lo: int,
    n: int,
)
    requires
        chunk_laws::partitions(source, p),
        none_mixed(p),
        n < p.len(),
        is_group(source, config, p, c, lo, n),
        chunker::is_mergeable(source, config, c, p[n]),
    ensures
        is_group(source, config, p, chunker::merged_span(c, p[n]), lo, n + 1),
{
    let d = chunker::merged_span(c, p[n]);
    let next = p[n];
    assert(p[n].kind != ChunkKind::Mixed);
    assert forall|i: int, j: int|
        lo <= i < n + 1 && lo <= j < n + 1 && i != j && (#[trigger] p[i]).kind != ChunkKind::Gap && (
        #[trigger] p[j]).kind != ChunkKind::Gap implies chunker::chars_between(
        source,
        p[i].start_byte,
        p[i].end_byte,
    ) < config.target_chars by {
        if i < n && j < n {
        } else {
            let other = if i < n {
                i
            } else {
                j
            };
            assert(p[other].kind != ChunkKind::Gap);
            assert(c.kind != ChunkKind::Gap);
            if i < n {
                lemma_piece_in_group(source, config, p, c, lo, n, i);
            }
        }
    }
    assert forall|i: int| lo <= i < n + 1 implies (#[trigger] p[i]).kind == ChunkKind::Gap || d.kind
        == p[i].kind || d.kind == ChunkKind::Mixed by {
        if i < n {
            assert(p[i].kind == ChunkKind::Gap || c.kind == p[i].kind || c.kind
                == ChunkKind::Mixed);
        }
    }
    if d.kind == ChunkKind::Mixed {
        if c.kind == ChunkKind::Mixed {
            let (i, j) = choose|i: int, j: int|
                lo <= i < n && lo <= j < n && (#[trigger] p[i]).kind != (#[trigger] p[j]).kind
                    && p[i].kind != ChunkKind::Gap && p[j].kind != ChunkKind::Gap;
            assert(p[i].kind != p[j].kind);
        } else {
            let i = choose|i: int| lo <= i < n && (#[trigger] p[i]).kind == c.kind;
            assert(p[i].kind != p[n].kind);
        }
        assert(has_two_kinds(p, lo, n + 1));
    } else if d.kind != ChunkKind::Gap {
        if c.kind == d.kind {
            let i = choose|i: int| lo <= i < n && (#[trigger] p[i]).kind == c.kind;
            assert(p[i].kind == d.kind);
        } else {
            assert(p[n].kind == d.kind);
        }
    }
}

proof fn lemma_groups_kept(source: Seq<char>, config: ChunkConfig, p: Seq<Span>, n: nat)
    requires
        chunk_laws::partitions(source, p),
        none_mixed(p),
        n <= p.len(),
    ensures
        groups_kept(source, config, p, n),
    decreases n,
{
    if n > 0 {
        let m = (n - 1) as nat;
        let before = chunker::merged_upto(source, config, p, m);
        let r = chunker::merged_upto(source, config, p, n);
        let next = p[n - 1];
        lemma_groups_kept(source, config, p, m);
        if before.len() > 0 && chunker::is_mergeable(source, config, before.last(), next) {
            let lo = choose|lo: int| #[trigger]
                is_group(source, config, p, before.last(), lo, m as int) && (before.len() > 1
                    ==> !chunker::is_mergeable(source, config, before[before.len() - 2], p[lo]));
            lemma_group_grows(source, config, p, before.last(), lo, m as int);
            assert(r.last() == chunker::merged_span(before.last(), next));
            if r.len() > 1 {
                assert(r[r.len() - 2] == before[before.len() - 2]);
            }
            assert(is_group(source, config, p, r.last(), lo, n as int));
            assert forall|k: int| 0 <= k < r.len() - 1 implies is_made_of(
                source,
                config,
                p,
                #[trigger] r[k],
                before_span(r, k),
            ) by {
                assert(r[k] == before[k]);
                if k > 0 {
                    assert(r[k - 1] == before[k - 1]);
                }
                assert(before_span(r, k) == before_span(before, k));
            }
        } else {
            assert(r == before.push(next));
            assert(is_group(source, config, p, next, m as int, n as int));
            if r.len() > 1 {
                assert(r[r.len() - 2] == before.last());
            }
            assert forall|k: int| 0 <= k < r.len() - 1 implies is_made_of(
                source,
                config,
                p,
                #[trigger] r[k],
                before_span(r, k),
            ) by {
                assert(r[k] == before[k]);
                if k > 0 {
                    assert(r[k - 1] == before[k - 1]);
                }
                assert(before_span(r, k) == before_span(before, k));
                if k == before.len() - 1 {
                    assert(m > 0);
                    let lo = choose|lo: int| #[trigger]
                        is_group(source, config, p, before.last(), lo, m as int) && (before.len()
                            > 1 ==> !chunker::is_mergeable(
                            source,
                            config,
                            before[before.len() - 2],
                            p[lo],
                        ));
                    assert(is_group(source, config, p, before[k], lo, m as int));
                }
            }
        }
    }
}

/// A source without items is of the kind `Unknown`.
proof fn lemma_root_kind()
    ensures
        chunk_kind::kind_of("source_file"@) == ChunkKind::Unknown,
{
    reveal_strlit("source_file");
    assert("source_file"@.len() == 11);
    assert("source_file"@[1] == 'o');
    reveal_strlit("function");
    reveal_strlit("function_item");
    reveal_strlit("impl");
    reveal_strlit("impl_item");
    reveal_strlit("struct");
    reveal_strlit("struct_item");
    reveal_strlit("enum");
    reveal_strlit("enum_item");
    reveal_strlit("trait");
    reveal_strlit("trait_item");
    reveal_strlit("mod");
    reveal_strlit("mod_item");
    reveal_strlit("macro_definition");
    reveal_strlit("const");
    reveal_strlit("const_item");
    reveal_strlit("static");
    reveal_strlit("static_item");
    reveal_strlit("type");
    reveal_strlit("type_item");
    reveal_strlit("use");
    reveal_strlit("use_declaration");
    reveal_strlit("module_gap");
    reveal_strlit("mixed_semantic_block");
    assert("function"@.len() == 8);
    assert("function_item"@.len() == 13);
    assert("impl"@.len() == 4);
    assert("impl_item"@.len() == 9);
    assert("struct"@.len() == 6);
    assert("struct_item"@[1] == 't');
    assert("enum"@.len() == 4);
    assert("enum_item"@.len() == 9);
    assert("trait"@.len() == 5);
    assert("trait_item"@.len() == 10);
    assert("mod"@.len() == 3);
    assert("mod_item"@.len() == 8);
    assert("macro_definition"@.len() == 16);
    assert("const"@.len() == 5);
    assert("const_item"@.len() == 10);
    assert("static"@.len() == 6);
    assert("static_item"@[1] == 't');
    assert("type"@.len() == 4);
    assert("type_item"@.len() == 9);
    assert("use"@.len() == 3);
    assert("use_declaration"@.len() == 15);
    assert("module_gap"@.len() == 10);
    assert("mixed_semantic_block"@.len() == 20);
}

/// A piece is a gap, an item along which the source is cut, or a source without items.
proof fn lemma_piece(source: Seq<char>, config: ChunkConfig, t: Seq<NodeView>, m: int)
    requires
        syntax::is_syntax_tree(source, t),
        0 <= m < chunker::pieces_of(source, config, t).len(),
    ensures
        ({
            let c = chunker::pieces_of(source, config, t)[m];
            ||| c.kind == ChunkKind::Gap && c.start_byte < c.end_byte
            ||| exists|i: int| #[trigger]
                is_cut(source, config.max_chars as nat, t, i) && c == chunker::span_of(
                    t[i],
                    t[i].kind,
                ) && item_kind(t[i].kind) == Some(c.kind) && c.kind != ChunkKind::Mixed && c.kind
                    != ChunkKind::Unknown && c.kind != ChunkKind::Gap
            ||| c.kind == ChunkKind::Unknown && forall|j: int| !#[trigger] is_item(t, j)
        }),
{
    let max = config.max_chars as nat;
    let c = chunker::pieces_of(source, config, t)[m];
    chunk_laws::lemma_piece_origin(source, config, t, m);
    lemma_root_kind();
    if exists|i: int|
        0 <= i < t.len() && #[trigger] chunker::is_candidate(source, max, t, i) && c
            == chunker::span_of(t[i], t[i].kind) {
        let i = choose|i: int|
            0 <= i < t.len() && #[trigger] chunker::is_candidate(source, max, t, i) && c
                == chunker::span_of(t[i], t[i].kind);
        lemma_cut_is_candidate(source, max, t, i);
        lemma_item_kind(t[i].kind);
        assert(is_cut(source, max, t, i));
    } else if c.kind != ChunkKind::Gap {
        assert forall|j: int| !#[trigger] is_item(t, j) by {
            lemma_item_is_block(t, j);
        }
    }
}

/// An item along which the source is cut, and which has text, is one of the pieces.
proof fn lemma_cut_piece(source: Seq<char>, config: ChunkConfig, t: Seq<NodeView>, i: int)
    requires
        syntax::is_syntax_tree(source, t),
        is_cut(source, config.max_chars as nat, t, i),
        t[i].start_byte < t[i].end_byte,
    ensures
        exists|m: int|
            0 <= m < chunker::pieces_of(source, config, t).len() && #[trigger] chunker::pieces_of(
                source,
                config,
                t,
            )[m] == chunker::span_of(t[i], t[i].kind),
{
    let max = config.max_chars as nat;
    let c = chunker::span_of(t[i], t[i].kind);
    let p = chunker::pieces_of(source, config, t);
    let found = chunker::candidates_or_root(source, max, t);
    let kept = chunker::uncovered_upto(found, found.len());
    let before = chunker::gapped_upto(source, kept, kept.len());
    lemma_cut_is_candidate(source, max, t, i);
    chunk_laws::lemma_pieces(source, config, t);
    chunk_laws::lemma_found(source, max, t);
    chunk_laws::lemma_candidate_listed(source, max, t, t.len(), i);
    let a = choose|a: int|
        0 <= a < chunker::candidates_upto(source, max, t, t.len()).len()
            && chunker::candidates_upto(source, max, t, t.len())[a] == c;
    assert(found[a] == c);
    chunk_laws::lemma_uncovered_keeps(found, found.len(), a);
    let b = choose|b: int| 0 <= b < kept.len() && kept[b] == c;
    chunk_laws::lemma_gapped_holds(source, kept, kept.len(), b);
    let m = choose|m: int| 0 <= m < before.len() && before[m] == c;
    assert(p[m] == c);
}

/// Every chunk is made of consecutive pieces, the first of which could not be merged into the
/// chunk before.
proof fn lemma_chunk_groups(source: Seq<char>, config: ChunkConfig, t: Seq<NodeView>, k: int)
    requires
        syntax::is_syntax_tree(source, t),
        0 <= k < chunker::chunk_spans(source, config, t).len(),
    ensures
        chunk_laws::partitions(source, chunker::pieces_of(source, config, t)),
        is_made_of(
            source,
            config,
            chunker::pieces_of(source, config, t),
            chunker::chunk_spans(source, config, t)[k],
            before_span(chunker::chunk_spans(source, config, t), k),
        ),
{
    let p = chunker::pieces_of(source, config, t);
    let r = chunker::chunk_spans(source, config, t);
    chunk_laws::lemma_pieces(source, config, t);
    assert forall|m: int| 0 <= m < p.len() implies (#[trigger] p[m]).kind != ChunkKind::Mixed by {
        lemma_piece(source, config, t, m);
    }
    lemma_groups_kept(source, config, p, p.len());
    if k == r.len() - 1 {
        let lo = choose|lo: int| #[trigger]
            is_group(source, config, p, r.last(), lo, p.len() as int) && (r.len() > 1
                ==> !chunker::is_mergeable(source, config, r[r.len() - 2], p[lo]));
        assert(is_group(source, config, p, r[k], lo, p.len() as int));
    } else {
        assert(is_made_of(source, config, p, r[k], before_span(r, k)));
    }
}

/// A piece with text that lies in a group is one of those of which the group is made.
proof fn lemma_piece_position(
    source: Seq<char>,
    config: ChunkConfig,
    p: Seq<Span>,
    c: Span,
    lo: int,
    hi: int,
    m: int,
)
    requires
        chunk_laws::partitions(source, p),
        is_group(source, config, p, c, lo, hi),
        0 <= m < p.len(),
        p[m].start_byte < p[m].end_byte,
        c.start_byte <= p[m].start_byte,
        p[m].end_byte <= c.end_byte,
    ensures
        lo <= m < hi,
{
    if m < lo {
        assert(p[m].end_byte <= p[lo].start_byte);
    } else if m >= hi {
        assert(p[hi - 1].end_byte <= p[m].start_byte);
    }
}

/// A chunk that holds an item has the kind of that item, or is mixed; it is mixed if it holds
/// items of different kinds. Items share a chunk only if each is below the target size and the
/// chunk is within the limit, so that a chunk beyond the limit that holds an item is that item.
/// This is about the items along which the source is cut, each with text.
pub proof fn law_chunk_follows_from_its_items(
    source: Seq<char>,
    config: ChunkConfig,
    t: Seq<NodeView>,
    k: int,
    i: int,
    j: int,
)
    requires
        syntax::is_syntax_tree(source, t),
        0 <= k < chunker::chunks_of(source, config, t).len(),
        is_cut(source, config.max_chars as nat, t, i),
        is_cut(source, config.max_chars as nat, t, j),
        t[i].start_byte < t[i].end_byte,
        t[j].start_byte < t[j].end_byte,
        lies_in(t, i, chunker::chunks_of(source, config, t)[k]),
        lies_in(t, j, chunker::chunks_of(source, config, t)[k]),
    ensures
        ({
            let c = chunker::chunks_of(source, config, t)[k];
            &&& c.kind == ChunkKind::Mixed || Some(c.kind) == item_kind(t[i].kind)
            &&& item_kind(t[i].kind) != item_kind(t[j].kind) ==> c.kind == ChunkKind::Mixed
            &&& i != j ==> size(source, t[i]) < config.target_chars && size(source, t[j])
                < config.target_chars && c.text.len() <= config.max_chars
            &&& c.text.len() > config.max_chars ==> c.start_byte == t[i].start_byte && c.end_byte
                == t[i].end_byte && Some(c.kind) == item_kind(t[i].kind)
        }),
{
    let p = chunker::pieces_of(source, config, t);
    let c = chunker::chunk_spans(source, config, t)[k];
    lemma_chunk_groups(source, config, t, k);
    lemma_cut_piece(source, config, t, i);
    lemma_cut_piece(source, config, t, j);
    lemma_item_kind(t[i].kind);
    lemma_item_kind(t[j].kind);
    let a = choose|a: int|
        0 <= a < p.len() && #[trigger] p[a] == chunker::span_of(t[i], t[i].kind);
    let b = choose|b: int|
        0 <= b < p.len() && #[trigger] p[b] == chunker::span_of(t[j], t[j].kind);
    let (lo, hi) = choose|lo: int, hi: int| #[trigger] is_group(source, config, p, c, lo, hi);
    lemma_piece_position(source, config, p, c, lo, hi, a);
    lemma_piece_position(source, config, p, c, lo, hi, b);
    if i != j {
        assert(a != b) by {
            if a == b {
                lemma_cut_is_candidate(source, config.max_chars as nat, t, i);
                lemma_cut_is_candidate(source, config.max_chars as nat, t, j);
                if i < j {
                    chunk_laws::lemma_candidates_apart(
                        source,
                        config.max_chars as nat,
                        t,
                        i,
                        j,
                    );
                } else {
                    chunk_laws::lemma_candidates_apart(
                        source,
                        config.max_chars as nat,
                        t,
                        j,
                        i,
                    );
                }
            }
        }
        assert(p[b].kind != ChunkKind::Gap);
        assert(p[a].kind != ChunkKind::Gap);
    }
}

/// A mixed chunk holds items of different kinds, a chunk of the kind of an item holds an item of
/// that kind, a gap holds none, and a chunk of no known kind comes of a source without items.
/// This is about the items along which the source is cut, each with text.
pub proof fn law_chunk_kind_shows_its_items(
    source: Seq<char>,
    config: ChunkConfig,
    t: Seq<NodeView>,
    k: int,
)
    requires
        syntax::is_syntax_tree(source, t),
        items_have_text(t),
        0 <= k < chunker::chunks_of(source, config, t).len(),
    ensures
        ({
            let max = config.max_chars as nat;
            let c = chunker::chunks_of(source, config, t)[k];
            &&& c.kind == ChunkKind::Mixed ==> exists|i: int, j: int| #[trigger]
                is_cut(source, max, t, i) && #[trigger] is_cut(source, max, t, j) && lies_in(t, i, c)
                    && lies_in(t, j, c) && item_kind(t[i].kind) != item_kind(t[j].kind)
            &&& c.kind == ChunkKind::Gap ==> forall|i: int| #[trigger]
                is_cut(source, max, t, i) ==> !lies_in(t, i, c)
            &&& c.kind == ChunkKind::Unknown ==> forall|i: int| !#[trigger] is_item(t, i)
            &&& c.kind != ChunkKind::Mixed && c.kind != ChunkKind::Gap && c.kind
                != ChunkKind::Unknown ==> exists|i: int| #[trigger]
                is_cut(source, max, t, i) && lies_in(t, i, c) && item_kind(t[i].kind) == Some(
                    c.kind,
                )
        }),
{
    let max = config.max_chars as nat;
    let p = chunker::pieces_of(source, config, t);
    let v = chunker::chunks_of(source, config, t)[k];
    let c = chunker::chunk_spans(source, config, t)[k];
    lemma_chunk_groups(source, config, t, k);
    let (lo, hi) = choose|lo: int, hi: int| #[trigger] is_group(source, config, p, c, lo, hi);
    if c.kind == ChunkKind::Mixed {
        let (a, b) = choose|a: int, b: int|
            lo <= a < hi && lo <= b < hi && (#[trigger] p[a]).kind != (#[trigger] p[b]).kind
                && p[a].kind != ChunkKind::Gap && p[b].kind != ChunkKind::Gap;
        lemma_piece(source, config, t, a);
        lemma_piece(source, config, t, b);
        lemma_piece_in_group(source, config, p, c, lo, hi, a);
        lemma_piece_in_group(source, config, p, c, lo, hi, b);
        let i = choose|i: int| #[trigger]
            is_cut(source, max, t, i) && p[a] == chunker::span_of(t[i], t[i].kind) && item_kind(
                t[i].kind,
            ) == Some(p[a].kind) && p[a].kind != ChunkKind::Mixed && p[a].kind
                != ChunkKind::Unknown && p[a].kind != ChunkKind::Gap;
        let j = choose|j: int| #[trigger]
            is_cut(source, max, t, j) && p[b] == chunker::span_of(t[j], t[j].kind) && item_kind(
                t[j].kind,
            ) == Some(p[b].kind) && p[b].kind != ChunkKind::Mixed && p[b].kind
                != ChunkKind::Unknown && p[b].kind != ChunkKind::Gap;
        assert(is_cut(source, max, t, i) && is_cut(source, max, t, j));
        assert(lies_in(t, i, v) && lies_in(t, j, v));
    } else if c.kind == ChunkKind::Gap {
        assert forall|i: int| #[trigger] is_cut(source, max, t, i) implies !lies_in(t, i, v) by {
            if lies_in(t, i, v) {
                assert(is_item(t, i));
                lemma_cut_piece(source, config, t, i);
                lemma_item_kind(t[i].kind);
                let a = choose|a: int|
                    0 <= a < p.len() && #[trigger] p[a] == chunker::span_of(t[i], t[i].kind);
                lemma_piece_position(source, config, p, c, lo, hi, a);
                assert(p[a].kind == ChunkKind::Gap);
            }
        }
    } else {
        let a = choose|a: int| lo <= a < hi && (#[trigger] p[a]).kind == c.kind;
        lemma_piece(source, config, t, a);
        lemma_piece_in_group(source, config, p, c, lo, hi, a);
        if c.kind != ChunkKind::Unknown {
            let i = choose|i: int| #[trigger]
                is_cut(source, max, t, i) && p[a] == chunker::span_of(t[i], t[i].kind) && item_kind(
                    t[i].kind,
                ) == Some(p[a].kind) && p[a].kind != ChunkKind::Mixed && p[a].kind
                    != ChunkKind::Unknown && p[a].kind != ChunkKind::Gap;
            assert(is_cut(source, max, t, i) && lies_in(t, i, v));
        }
    }
}

/// Neighbours that could be one chunk are one: of two chunks in a row, the text over both is
/// beyond the limit, or neither is a gap and one of them has reached the target size.
pub proof fn law_neighbours_are_merged_where_they_fit(
    source: Seq<char>,
    config: ChunkConfig,
    t: Seq<NodeView>,
    k: int,
)
    requires
        syntax::is_syntax_tree(source, t),
        0 < k < chunker::chunks_of(source, config, t).len(),
    ensures
        ({
            let a = chunker::chunks_of(source, config, t)[k - 1];
            let b = chunker::chunks_of(source, config, t)[k];
            ||| text::byte_slice(source, a.start_byte, b.end_byte).len() > config.max_chars
            ||| a.kind != ChunkKind::Gap && b.kind != ChunkKind::Gap && (a.text.len()
                >= config.target_chars || b.text.len() >= config.target_chars)
        }),
{
    chunk_laws::law_chunks_are_fully_merged(source, config, t);
    let r = chunker::chunk_spans(source, config, t);
    assert(!chunker::is_mergeable(source, config, r[k - 1], r[k]));
}

/// Chunks are filled from the front: a chunk that begins with an item begins there because that
/// item alone could not go into the chunk before.
pub proof fn law_chunks_are_filled_from_the_front(
    source: Seq<char>,
    config: ChunkConfig,
    t: Seq<NodeView>,
    k: int,
    i: int,
)
    requires
        syntax::is_syntax_tree(source, t),
        0 < k < chunker::chunks_of(source, config, t).len(),
        items_have_text(t),
        is_cut(source, config.max_chars as nat, t, i),
        lies_in(t, i, chunker::chunks_of(source, config, t)[k]),
        t[i].start_byte == chunker::chunks_of(source, config, t)[k].start_byte,
    ensures
        ({
            let a = chunker::chunks_of(source, config, t)[k - 1];
            ||| text::byte_slice(source, a.start_byte, t[i].end_byte).len() > config.max_chars
            ||| a.kind != ChunkKind::Gap && (a.text.len() >= config.target_chars || size(
                source,
                t[i],
            ) >= config.target_chars)
        }),
{
    let p = chunker::pieces_of(source, config, t);
    let r = chunker::chunk_spans(source, config, t);
    let c = r[k];
    assert(is_item(t, i));
    lemma_chunk_groups(source, config, t, k);
    lemma_cut_piece(source, config, t, i);
    lemma_item_kind(t[i].kind);
    let m = choose|m: int|
        0 <= m < p.len() && #[trigger] p[m] == chunker::span_of(t[i], t[i].kind);
    let (lo, hi) = choose|lo: int, hi: int| #[trigger]
        is_group(source, config, p, c, lo, hi) && !chunker::is_mergeable(
            source,
            config,
            r[k - 1],
            p[lo],
        );
    lemma_piece_position(source, config, p, c, lo, hi, m);
    assert(chunker::in_text(source, p[lo]));
    lemma_piece(source, config, t, lo);
    assert(p[lo].start_byte < p[lo].end_byte) by {
        if p[lo].kind != ChunkKind::Gap {
            let a = choose|a: int| #[trigger]
                is_cut(source, config.max_chars as nat, t, a) && p[lo] == chunker::span_of(
                    t[a],
                    t[a].kind,
                ) && item_kind(t[a].kind) == Some(p[lo].kind) && p[lo].kind != ChunkKind::Mixed
                    && p[lo].kind != ChunkKind::Unknown && p[lo].kind != ChunkKind::Gap;
            assert(is_item(t, a));
        }
    }
    if lo < m {
        assert(p[lo].end_byte <= p[m].start_byte);
    }
}

/// Likewise, a chunk that begins with code between items begins there because that code could not
/// go into the chunk before: with the code up to any item in the chunk, the chunk before would be
/// beyond the limit.
pub proof fn law_gaps_go_into_the_chunk_before(
    source: Seq<char>,
    config: ChunkConfig,
    t: Seq<NodeView>,
    k: int,
    i: int,
)
    requires
        syntax::is_syntax_tree(source, t),
        items_have_text(t),
        0 < k < chunker::chunks_of(source, config, t).len(),
        is_cut(source, config.max_chars as nat, t, i),
        lies_in(t, i, chunker::chunks_of(source, config, t)[k]),
        forall|j: int| #[trigger]
            is_cut(source, config.max_chars as nat, t, j) ==> t[j].start_byte != chunker::chunks_of(
                source,
                config,
                t,
            )[k].start_byte,
    ensures
        text::byte_slice(
            source,
            chunker::chunks_of(source, config, t)[k - 1].start_byte,
            t[i].start_byte,
        ).len() > config.max_chars,
{
    let p = chunker::pieces_of(source, config, t);
    let r = chunker::chunk_spans(source, config, t);
    let c = r[k];
    assert(is_item(t, i));
    lemma_chunk_groups(source, config, t, k);
    lemma_cut_piece(source, config, t, i);
    chunk_laws::law_chunks_partition_source(source, config, t);
    let m = choose|m: int|
        0 <= m < p.len() && #[trigger] p[m] == chunker::span_of(t[i], t[i].kind);
    let (lo, hi) = choose|lo: int, hi: int| #[trigger]
        is_group(source, config, p, c, lo, hi) && !chunker::is_mergeable(
            source,
            config,
            r[k - 1],
            p[lo],
        );
    lemma_piece_position(source, config, p, c, lo, hi, m);
    lemma_piece(source, config, t, lo);
    assert(p[lo].kind == ChunkKind::Gap);
    assert(lo < m);
    assert(p[lo].end_byte <= p[m].start_byte);
    assert(chunker::in_text(source, p[lo]));
    assert(chunker::in_text(source, p[m]));
    assert(chunker::in_text(source, r[k - 1]));
    assert(r[k - 1].end_byte <= r[k].start_byte);
    chunk_laws::lemma_chars_monotone(
        source,
        r[k - 1].start_byte,
        r[k - 1].start_byte,
        p[lo].end_byte,
        t[i].start_byte,
    );
}

/// The texts of the first `n` chunks, one behind the other.
pub open spec fn chunk_texts(chunks: Seq<ChunkView>, n: nat) -> Seq<char>
    decreases n,
{
    if n == 0 {
        Seq::empty()
    } else {
        chunk_texts(chunks, (n - 1) as nat) + chunks[n - 1].text
    }
}

proof fn lemma_texts_visible(source: Seq<char>, config: ChunkConfig, t: Seq<NodeView>, n: nat)
    requires
        syntax::is_syntax_tree(source, t),
        n <= chunker::chunks_of(source, config, t).len(),
    ensures
        ({
            let s = chunker::chunk_spans(source, config, t);
            &&& text::boundary(source, chunker::cursor_at(s, n))
            &&& 0 <= chunker::cursor_at(s, n)
            &&& rewrite_laws::visible(chunk_texts(chunker::chunks_of(source, config, t), n))
                == rewrite_laws::visible(text::byte_slice(source, 0, chunker::cursor_at(s, n)))
        }),
    decreases n,
{
    let s = chunker::chunk_spans(source, config, t);
    let chunks = chunker::chunks_of(source, config, t);
    chunk_laws::law_chunks_partition_source(source, config, t);
    text::lemma_byte_slice_all(source);
    encode_utf8_valid_utf8(source);
    if n == 0 {
        text::lemma_byte_slice_empty(source, 0);
    } else {
        let m = (n - 1) as nat;
        let cur = chunker::cursor_at(s, m);
        let c = s[m as int];
        lemma_texts_visible(source, config, t, m);
        assert(chunker::in_text(source, c));
        text::lemma_boundary_range(encode_utf8(source), c.start_byte);
        text::lemma_boundary_range(encode_utf8(source), c.end_byte);
        assert(cur <= c.start_byte) by {
            if m > 0 {
                assert(s[m - 1].end_byte <= s[m as int].start_byte);
            }
        }
        let gap = text::byte_slice(source, cur, c.start_byte);
        let own = text::byte_slice(source, c.start_byte, c.end_byte);
        let head = text::byte_slice(source, 0, cur);
        assert(gap == chunk_laws::text_before(source, s, m as int));
        text::lemma_byte_slice_join(source, 0, cur, c.start_byte);
        text::lemma_byte_slice_join(source, 0, c.start_byte, c.end_byte);
        rewrite_laws::lemma_visible_blank(gap);
        rewrite_laws::lemma_visible_add(head, gap);
        rewrite_laws::lemma_visible_add(head + gap, own);
        rewrite_laws::lemma_visible_add(chunk_texts(chunks, m), own);
        assert(chunks[m as int].text == own);
    }
}

/// The chunks hold all the code, and nothing else: their texts in a row have the characters of
/// the source that are not whitespace, each once and in order.
pub proof fn law_chunks_hold_all_code(source: Seq<char>, config: ChunkConfig, t: Seq<NodeView>)
    requires
        syntax::is_syntax_tree(source, t),
    ensures
        ({
            let chunks = chunker::chunks_of(source, config, t);
            rewrite_laws::visible(chunk_texts(chunks, chunks.len())) == rewrite_laws::visible(
                source,
            )
        }),
{
    let s = chunker::chunk_spans(source, config, t);
    let n = s.len();
    let cur = chunker::cursor_at(s, n);
    let len = encode_utf8(source).len() as int;
    chunk_laws::law_chunks_partition_source(source, config, t);
    lemma_texts_visible(source, config, t, n);
    text::lemma_byte_slice_all(source);
    encode_utf8_valid_utf8(source);
    text::lemma_boundary_range(encode_utf8(source), cur);
    let gap = text::byte_slice(source, cur, len);
    let head = text::byte_slice(source, 0, cur);
    assert(gap == chunk_laws::text_before(source, s, n as int));
    text::lemma_byte_slice_join(source, 0, cur, len);
    rewrite_laws::lemma_visible_blank(gap);
    rewrite_laws::lemma_visible_add(head, gap);
}

/// There is at least one chunk. Chunks are numbered from 1 in the order of the source, do not
/// overlap, have the text of their range, and the numbers of the lines on which they start and
/// end.
pub proof fn law_chunks_are_ranges_of_the_source(
    source: Seq<char>,
    config: ChunkConfig,
    t: Seq<NodeView>,
    k: int,
)
    requires
        syntax::is_syntax_tree(source, t),
        0 <= k < chunker::chunks_of(source, config, t).len(),
    ensures
        chunker::chunks_of(source, config, t).len() > 0,
        ({
            let c = chunker::chunks_of(source, config, t)[k];
            &&& c.index == k + 1
            &&& 0 <= c.start_byte <= c.end_byte <= encode_utf8(source).len()
            &&& encode_utf8(c.text) == encode_utf8(source).subrange(c.start_byte, c.end_byte)
            &&& c.start_line == text::line_at(source, c.start_byte)
            &&& c.end_line == text::line_at(source, c.end_byte)
            &&& k + 1 < chunker::chunks_of(source, config, t).len() ==> c.end_byte
                <= chunker::chunks_of(source, config, t)[k + 1].start_byte
        }),
{
    let s = chunker::chunk_spans(source, config, t);
    chunk_laws::law_chunks_partition_source(source, config, t);
    chunk_laws::law_chunks_know_their_lines(source, config, t);
    assert(chunker::in_text(source, s[k]));
    assert(chunk_laws::lines_match(source, s[k]));
    encode_utf8_valid_utf8(source);
    text::lemma_boundary_range(encode_utf8(source), s[k].start_byte);
    text::lemma_boundary_range(encode_utf8(source), s[k].end_byte);
    text::lemma_byte_slice(source, s[k].start_byte, s[k].end_byte);
    if k + 1 < s.len() {
        assert(s[k].end_byte <= s[k + 1].start_byte);
    }
}

/// A source is split whenever the limit is at least 1000 characters, the target is not above it,
/// the source has fewer than `u32::MAX` bytes, and the parser yields a tree over it: nodes listed
/// from the root on, each at most one level below the one before, on character boundaries, with
/// the rows of their ends, and each either inside or behind every node listed before it.
pub proof fn law_sound_sources_are_split(
    source: Seq<char>,
    config: ChunkConfig,
    t: Seq<NodeView>,
)
    requires
        1000 <= config.max_chars,
        config.target_chars <= config.max_chars,
        encode_utf8(source).len() < u32::MAX,
        t.len() > 0,
        t[0].depth == 0,
        forall|i: int, j: int|
            0 <= i && j == i + 1 && j < t.len() ==> 1 <= (#[trigger] t[j]).depth <= (
            #[trigger] t[i]).depth + 1,
        forall|i: int|
            0 <= i < t.len() ==> {
                let n = #[trigger] t[i];
                &&& n.start_byte <= n.end_byte
                &&& text::boundary(source, n.start_byte)
                &&& text::boundary(source, n.end_byte)
                &&& n.start_row + 1 == text::line_at(source, n.start_byte)
                &&& n.end_row + 1 == text::line_at(source, n.end_byte)
                &&& n.start_row < usize::MAX
                &&& n.end_row < usize::MAX
            },
        forall|i: int, j: int|
            0 <= i < j < t.len() ==> if #[trigger] syntax::above(t, i, j) {
                t[i].start_byte <= t[j].start_byte && t[j].end_byte <= t[i].end_byte
            } else {
                t[i].end_byte <= t[j].start_byte
            },
    ensures
        chunker::chunk_outcome(source, config, Ok(Some(t))) == Ok::<Seq<ChunkView>, ChunkError>(
            chunker::chunks_of(source, config, t),
        ),
{
    assert forall|i: int| 0 <= i < t.len() implies #[trigger] syntax::depth_steps(t, i) by {
        if i > 0 {
            assert(t[i].depth <= t[i - 1].depth + 1);
        }
    }
    assert forall|i: int| 0 <= i < t.len() implies syntax::node_in_text(
        source,
        #[trigger] t[i],
    ) by {}
    assert forall|i: int, j: int| 0 <= i < j < t.len() implies #[trigger] syntax::pair_nested(
        t,
        i,
        j,
    ) by {
        assert(syntax::above(t, i, j) || !syntax::above(t, i, j));
    }
}

/// What is refused, and why: limits below 1000 characters, a target above the limit, a source
/// that the parser cannot count, and a parse without a tree. Of several reasons the first in this
/// order is given.
pub proof fn law_refused_sources(
    source: Seq<char>,
    config: ChunkConfig,
    parsed: Result<Option<Seq<NodeView>>, ()>,
)
    ensures
        ({
            let r = chunker::chunk_outcome(source, config, parsed);
            let small = config.max_chars < 1000;
            let above = config.target_chars > config.max_chars;
            let large = encode_utf8(source).len() >= u32::MAX;
            &&& small ==> r == Err::<Seq<ChunkView>, ChunkError>(ChunkError::MaxCharsTooSmall)
            &&& !small && above ==> r == Err::<Seq<ChunkView>, ChunkError>(
                ChunkError::TargetAboveMax,
            )
            &&& !small && !above && large ==> r == Err::<Seq<ChunkView>, ChunkError>(
                ChunkError::SourceTooLarge,
            )
            &&& !small && !above && !large && parsed is Err ==> r == Err::<
                Seq<ChunkView>,
                ChunkError,
            >(ChunkError::GrammarRejected)
            &&& !small && !above && !large && parsed == Ok::<Option<Seq<NodeView>>, ()>(None) ==> r
                == Err::<Seq<ChunkView>, ChunkError>(ChunkError::NotParsed)
        }),
{
}

/// The candidates are the items along which the source is cut, and no others.
pub proof fn law_candidates_are_the_items(source: Seq<char>, max: nat, t: Seq<NodeView>, c: Span)
    ensures
        chunker::candidates_upto(source, max, t, t.len()).contains(c) <==> exists|i: int| #[trigger]
            is_cut(source, max, t, i) && c == chunker::span_of(t[i], t[i].kind),
{
    if exists|i: int| #[trigger]
        is_cut(source, max, t, i) && c == chunker::span_of(t[i], t[i].kind) {
        let i = choose|i: int| #[trigger]
            is_cut(source, max, t, i) && c == chunker::span_of(t[i], t[i].kind);
        lemma_cut_is_candidate(source, max, t, i);
        chunk_laws::lemma_candidate_listed(source, max, t, t.len(), i);
    }
    if chunker::candidates_upto(source, max, t, t.len()).contains(c) {
        let k = choose|k: int|
            0 <= k < chunker::candidates_upto(source, max, t, t.len()).len()
                && chunker::candidates_upto(source, max, t, t.len())[k] == c;
        lemma_candidate_origin(source, max, t, t.len(), k);
    }
}

proof fn lemma_candidate_origin(source: Seq<char>, max: nat, t: Seq<NodeView>, n: nat, k: int)
    requires
        n <= t.len(),
        0 <= k < chunker::candidates_upto(source, max, t, n).len(),
    ensures
        exists|i: int| #[trigger]
            is_cut(source, max, t, i) && chunker::candidates_upto(source, max, t, n)[k]
                == chunker::span_of(t[i], t[i].kind),
    decreases n,
{
    let before = chunker::candidates_upto(source, max, t, (n - 1) as nat);
    if k < before.len() {
        lemma_candidate_origin(source, max, t, (n - 1) as nat, k);
    } else {
        lemma_cut_is_candidate(source, max, t, n - 1);
        assert(is_cut(source, max, t, n - 1));
    }
}

/// Of a list of ranges those stay that lie in no earlier one, and only those; they stay in their
/// order, and every range lies in one that stays.
pub proof fn law_nested_ranges_are_left_out(s: Seq<Span>, i: int)
    requires
        0 <= i < s.len(),
    ensures
        ({
            let r = chunker::uncovered_upto(s, s.len());
            &&& (forall|j: int|
                0 <= j < i ==> !((#[trigger] s[j]).start_byte <= s[i].start_byte && s[i].end_byte
                    <= s[j].end_byte)) ==> r.contains(s[i])
            &&& exists|k: int|
                0 <= k < r.len() && (#[trigger] r[k]).start_byte <= s[i].start_byte && s[i].end_byte
                    <= r[k].end_byte
            &&& forall|a: int, b: int|
                0 <= a < b < r.len() ==> !((#[trigger] r[a]).start_byte <= (
                #[trigger] r[b]).start_byte && r[b].end_byte <= r[a].end_byte)
            &&& forall|k: int| 0 <= k < r.len() ==> s.contains(#[trigger] r[k])
        }),
{
    let r = chunker::uncovered_upto(s, s.len());
    chunker::lemma_uncovered_cover(s, s.len());
    assert(chunker::covered_in(r, s[i]));
    let k = choose|k: int| 0 <= k < r.len() && chunker::covers(#[trigger] r[k], s[i]);
    assert(r[k].start_byte <= s[i].start_byte);
    lemma_uncovered_apart(s, s.len());
    assert forall|k: int| 0 <= k < r.len() implies s.contains(#[trigger] r[k]) by {
        chunker::lemma_uncovered_origin(s, s.len(), k);
    }
    if forall|j: int|
        0 <= j < i ==> !((#[trigger] s[j]).start_byte <= s[i].start_byte && s[i].end_byte
            <= s[j].end_byte) {
        assert(!chunker::covered_before(s, i));
        lemma_uncovered_stays(s, s.len(), i);
    }
}

proof fn lemma_uncovered_stays(s: Seq<Span>, n: nat, i: int)
    requires
        0 <= i < n <= s.len(),
        !chunker::covered_before(s, i),
    ensures
        chunker::uncovered_upto(s, n).contains(s[i]),
    decreases n,
{
    let r = chunker::uncovered_upto(s, n);
    let before = chunker::uncovered_upto(s, (n - 1) as nat);
    if i == n - 1 {
        assert(r.last() == s[i]);
    } else {
        lemma_uncovered_stays(s, (n - 1) as nat, i);
        let k = choose|k: int| 0 <= k < before.len() && before[k] == s[i];
        assert(r[k] == s[i]);
    }
}

proof fn lemma_uncovered_apart(s: Seq<Span>, n: nat)
    requires
        n <= s.len(),
    ensures
        ({
            let r = chunker::uncovered_upto(s, n);
            forall|a: int, b: int|
                0 <= a < b < r.len() ==> !((#[trigger] r[a]).start_byte <= (
                #[trigger] r[b]).start_byte && r[b].end_byte <= r[a].end_byte)
        }),
    decreases n,
{
    if n > 0 {
        let r = chunker::uncovered_upto(s, n);
        let m = (n - 1) as nat;
        let before = chunker::uncovered_upto(s, m);
        lemma_uncovered_apart(s, m);
        assert forall|a: int, b: int| 0 <= a < b < r.len() implies !((#[trigger] r[a]).start_byte <= (
        #[trigger] r[b]).start_byte && r[b].end_byte <= r[a].end_byte) by {
            assert(r[a] == before[a]);
            if b < before.len() {
                assert(r[b] == before[b]);
            } else {
                chunker::lemma_uncovered_origin(s, m, a);
                let j = choose|j: int| 0 <= j < m && #[trigger] s[j] == before[a];
                assert(!chunker::covers(s[j], s[m as int]));
            }
        }
    }
}

/// Sorting by start lists the ranges by ascending start, each as often as before, and those with
/// the same start in the order in which they came: each stands at a position of its own.
pub proof fn law_sorting_keeps_every_range(s: Seq<Span>)
    ensures
        ({
            let r = chunker::sorted_by_start(s);
            &&& r.len() == s.len()
            &&& exists|o: Seq<int>| #[trigger]
                o.len() == s.len() && (forall|k: int|
                    0 <= k < s.len() ==> 0 <= #[trigger] o[k] < s.len() && r[k] == s[o[k]]) && (
                forall|j: int| 0 <= j < s.len() ==> #[trigger] o.contains(j)) && (forall|
                    a: int,
                    b: int,
                |
                    0 <= a < b < s.len() ==> r[a].start_byte < r[b].start_byte || (r[a].start_byte
                        == r[b].start_byte && #[trigger] o[a] < #[trigger] o[b]))
        }),
{
    let keys = chunker::starts(s);
    let o = order::stable_order(keys);
    let r = chunker::sorted_by_start(s);
    order::lemma_stable_order(keys);
    assert(o.len() == s.len());
    assert forall|a: int, b: int| 0 <= a < b < s.len() implies r[a].start_byte < r[b].start_byte || (
    r[a].start_byte == r[b].start_byte && #[trigger] o[a] < #[trigger] o[b]) by {
        assert(keys[o[a]] == r[a].start_byte && keys[o[b]] == r[b].start_byte);
    }
}

/// A source without items, whose root has all but whitespace in its range, is one chunk of no
/// known kind over that range.
pub proof fn law_source_without_items_is_one_chunk(
    source: Seq<char>,
    config: ChunkConfig,
    t: Seq<NodeView>,
)
    requires
        syntax::is_syntax_tree(source, t),
        forall|j: int| !#[trigger] is_item(t, j),
        text::is_blank(text::byte_slice(source, 0, t[0].start_byte)),
        text::is_blank(
            text::byte_slice(source, t[0].end_byte, encode_utf8(source).len() as int),
        ),
    ensures
        chunker::chunks_of(source, config, t) == seq![
            ChunkView {
                index: 1,
                kind: ChunkKind::Unknown,
                start_byte: t[0].start_byte,
                end_byte: t[0].end_byte,
                start_line: t[0].start_row + 1,
                end_line: t[0].end_row + 1,
                text: text::byte_slice(source, t[0].start_byte, t[0].end_byte),
            },
        ],
{
    let max = config.max_chars as nat;
    let c = chunker::span_of(t[0], "source_file"@);
    lemma_root_kind();
    let found = chunker::candidates_or_root(source, max, t);
    let listed = chunker::candidates_upto(source, max, t, t.len());
    assert(listed.len() == 0) by {
        if listed.len() > 0 {
            lemma_candidate_origin(source, max, t, t.len(), 0);
            let i = choose|i: int| #[trigger]
                is_cut(source, max, t, i) && listed[0] == chunker::span_of(t[i], t[i].kind);
            assert(is_item(t, i));
        }
    }
    assert(found == seq![c]);
    chunk_laws::lemma_pieces(source, config, t);
    let kept = chunker::uncovered_upto(found, 1);
    assert(!chunker::covered_before(found, 0));
    assert(chunker::uncovered_upto(found, 0) == Seq::<Span>::empty());
    assert(kept == seq![c]);
    assert(chunker::gapped_upto(source, kept, 0) == Seq::<Span>::empty());
    assert(chunker::gapped_upto(source, kept, 1) == seq![c]);
    let p = chunker::pieces_of(source, config, t);
    assert(p == seq![c]);
    assert(chunker::merged_upto(source, config, p, 0) == Seq::<Span>::empty());
    assert(chunker::merged_upto(source, config, p, 1) == seq![c]);
}

/// The name of an item in the grammar is read as its kind.
pub proof fn law_item_names_are_read(name: Seq<char>)
    ensures
        item_kind(name) matches Some(k) ==> chunk_kind::kind_of(name) == k,
{
    lemma_item_kind(name);
}

} // verus!
