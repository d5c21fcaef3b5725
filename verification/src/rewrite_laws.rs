//! What holds of every rewritten source.

use crate::order;
use crate::rewrite;
use crate::rewrite::{Patch, ValidationError};
use crate::syntax::NodeView;
use crate::text;
use crate::text_laws;
use vstd::prelude::*;
use vstd::utf8::*;

verus! {

/// The characters of a text that are not whitespace.
pub open spec fn visible(s: Seq<char>) -> Seq<char> {
    s.filter(|c: char| !text::is_space(c))
}

pub proof fn lemma_visible_add(a: Seq<char>, b: Seq<char>)
    ensures
        visible(a + b) == visible(a) + visible(b),
{
    Seq::filter_distributes_over_add(a, b, |c: char| !text::is_space(c));
}

pub proof fn lemma_visible_blank(s: Seq<char>)
    requires
        text::is_blank(s),
    ensures
        visible(s) == Seq::<char>::empty(),
    decreases s.len(),
{
    reveal(Seq::filter);
    if s.len() > 0 {
        let r = s.drop_last();
        assert forall|i: int| 0 <= i < r.len() implies text::is_space(#[trigger] r[i]) by {
            assert(r[i] == s[i]);
        }
        lemma_visible_blank(r);
        assert(text::is_space(s[s.len() - 1]));
    }
}

proof fn lemma_visible_trim_end(s: Seq<char>)
    ensures
        visible(text::trim_end(s)) == visible(s),
{
    let k = text::trim_end(s).len() as int;
    text::lemma_trim_end_range(s);
    assert(s == s.take(k) + s.skip(k));
    lemma_visible_add(s.take(k), s.skip(k));
    lemma_visible_blank(s.skip(k));
}

/// Without replacements the source stays as it is.
pub proof fn law_no_replacement_no_change(source: Seq<char>)
    ensures
        rewrite::spliced(source, rewrite::sorted_patches(Seq::empty())) == source,
        rewrite::spliceable(source, rewrite::sorted_patches(Seq::empty())),
{
    let p = rewrite::sorted_patches(Seq::empty());
    order::lemma_stable_order(rewrite::patch_starts(Seq::empty()));
    assert(p.len() == 0);
    text::lemma_byte_slice_all(source);
    assert(rewrite::spliced(source, p) == source);
}

/// Whether the replacements are for ranges of the text that stand in order.
pub open spec fn patches_in_order(source: Seq<char>, p: Seq<Patch>) -> bool {
    &&& forall|k: int|
        0 <= k < p.len() ==> {
            &&& (#[trigger] p[k]).start_byte <= p[k].end_byte
            &&& text::boundary(source, p[k].start_byte)
            &&& text::boundary(source, p[k].end_byte)
        }
    &&& forall|i: int, j: int|
        0 <= i < j < p.len() ==> (#[trigger] p[i]).end_byte <= (#[trigger] p[j]).start_byte
}

/// Whether each replacement has the same visible characters as the text it replaces.
pub open spec fn patches_keep_code(source: Seq<char>, p: Seq<Patch>) -> bool {
    forall|k: int|
        0 <= k < p.len() ==> visible((#[trigger] p[k]).text) == visible(
            text::byte_slice(source, p[k].start_byte, p[k].end_byte),
        )
}

/// Replacements in order are sorted already and can be spliced in.
pub proof fn lemma_in_order_spliceable(source: Seq<char>, p: Seq<Patch>)
    requires
        patches_in_order(source, p),
    ensures
        rewrite::sorted_patches(p) == p,
        rewrite::spliceable(source, p),
        forall|k: int|
            0 <= k <= p.len() ==> text::boundary(source, #[trigger] rewrite::patch_cursor(p, k)),
        forall|k: int|
            0 <= k < p.len() ==> rewrite::patch_cursor(p, k) <= (#[trigger] p[k]).start_byte,
        rewrite::patch_cursor(p, p.len() as int) <= encode_utf8(source).len(),
{
    let keys = rewrite::patch_starts(p);
    assert forall|i: int, j: int| 0 <= i <= j < keys.len() implies keys[i] <= keys[j] by {
        assert(p[i].start_byte <= p[i].end_byte);
        if i < j {
            assert(p[i].end_byte <= p[j].start_byte);
        }
    }
    order::lemma_sorted_order(keys);
    assert(rewrite::sorted_patches(p) == p);
    text::lemma_byte_slice_all(source);
    encode_utf8_valid_utf8(source);
    assert forall|k: int| 0 <= k <= p.len() implies text::boundary(
        source,
        #[trigger] rewrite::patch_cursor(p, k),
    ) by {
        if k > 0 {
            assert(p[k - 1].start_byte <= p[k - 1].end_byte);
        }
    }
    assert forall|k: int| 0 <= k < p.len() implies rewrite::patch_cursor(p, k) <= (
    #[trigger] p[k]).start_byte by {
        text::lemma_boundary_range(encode_utf8(source), p[k].start_byte);
        if k > 0 {
            assert(p[k - 1].end_byte <= p[k].start_byte);
        }
    }
    text::lemma_boundary_range(
        encode_utf8(source),
        rewrite::patch_cursor(p, p.len() as int),
    );
    assert forall|k: int| 0 <= k < p.len() implies #[trigger] rewrite::gap_cuttable(
        source,
        p,
        k,
    ) by {
        assert(text::boundary(source, rewrite::patch_cursor(p, k)));
        assert(p[k].start_byte <= p[k].end_byte);
    }
    assert(text::boundary(source, rewrite::patch_cursor(p, p.len() as int)));
}

proof fn lemma_spliced_visible(source: Seq<char>, p: Seq<Patch>, n: nat)
    requires
        n <= p.len(),
        patches_in_order(source, p),
        patches_keep_code(source, p),
    ensures
        visible(rewrite::spliced_upto(source, p, n)) == visible(
            text::byte_slice(source, 0, rewrite::patch_cursor(p, n as int)),
        ),
    decreases n,
{
    lemma_in_order_spliceable(source, p);
    text::lemma_byte_slice_all(source);
    if n == 0 {
        text::lemma_byte_slice_empty(source, 0);
    } else {
        let m = n - 1;
        let cur = rewrite::patch_cursor(p, m);
        let patch = p[m];
        lemma_spliced_visible(source, p, m as nat);
        assert(text::boundary(source, cur));
        assert(cur <= p[m].start_byte);
        assert(patch.start_byte <= patch.end_byte);
        encode_utf8_valid_utf8(source);
        text::lemma_boundary_range(encode_utf8(source), cur);
        let before = rewrite::spliced_upto(source, p, m as nat);
        let kept = rewrite::kept_text(source, cur, patch.start_byte);
        let new = text::trim_end(patch.text);
        if cur == patch.start_byte {
            text::lemma_byte_slice_empty(source, cur);
        }
        assert(kept == text::byte_slice(source, cur, patch.start_byte));
        lemma_visible_add(before, kept);
        lemma_visible_add(before + kept, new);
        lemma_visible_add(before + kept + new, seq!['\n']);
        lemma_visible_blank(seq!['\n']);
        lemma_visible_trim_end(patch.text);
        let head = text::byte_slice(source, 0, cur);
        let old = text::byte_slice(source, patch.start_byte, patch.end_byte);
        text::lemma_byte_slice_join(source, 0, cur, patch.start_byte);
        text::lemma_byte_slice_join(source, 0, patch.start_byte, patch.end_byte);
        lemma_visible_add(head, kept);
        lemma_visible_add(head + kept, old);
        assert(visible(old) == visible(patch.text));
    }
}

/// Replacements in order that change nothing but whitespace in the ranges they replace change
/// nothing but whitespace in the source.
pub proof fn law_code_is_kept(source: Seq<char>, p: Seq<Patch>)
    requires
        patches_in_order(source, p),
        patches_keep_code(source, p),
    ensures
        rewrite::sorted_patches(p) == p,
        rewrite::spliceable(source, p),
        visible(rewrite::spliced(source, p)) == visible(source),
{
    let cur = rewrite::patch_cursor(p, p.len() as int);
    let len = encode_utf8(source).len() as int;
    lemma_in_order_spliceable(source, p);
    lemma_spliced_visible(source, p, p.len());
    text::lemma_byte_slice_all(source);
    assert(text::boundary(source, cur));
    encode_utf8_valid_utf8(source);
    text::lemma_boundary_range(encode_utf8(source), cur);
    let before = rewrite::spliced_upto(source, p, p.len());
    let kept = rewrite::kept_text(source, cur, len);
    if cur == len {
        text::lemma_byte_slice_empty(source, cur);
    }
    assert(kept == text::byte_slice(source, cur, len));
    lemma_visible_add(before, kept);
    text::lemma_byte_slice_join(source, 0, cur, len);
    lemma_visible_add(text::byte_slice(source, 0, cur), kept);
}

/// Whether no two replacements start at the same place.
pub open spec fn starts_differ(p: Seq<Patch>) -> bool {
    forall|i: int, j: int|
        0 <= i < j < p.len() ==> (#[trigger] p[i]).start_byte != (#[trigger] p[j]).start_byte
}

/// Whether each replacement starts behind the start of the one before it.
spec fn ascending(p: Seq<Patch>) -> bool {
    forall|i: int, j: int|
        0 <= i < j < p.len() ==> (#[trigger] p[i]).start_byte < (#[trigger] p[j]).start_byte
}

/// Sorting keeps the replacements, and puts those with different starts in ascending order.
proof fn lemma_sorted_patches(p: Seq<Patch>)
    requires
        starts_differ(p),
    ensures
        ascending(rewrite::sorted_patches(p)),
        forall|x: Patch| rewrite::sorted_patches(p).contains(x) <==> p.contains(x),
{
    let keys = rewrite::patch_starts(p);
    let o = order::stable_order(keys);
    let s = rewrite::sorted_patches(p);
    order::lemma_stable_order(keys);
    assert forall|i: int, j: int| 0 <= i < j < s.len() implies (#[trigger] s[i]).start_byte < (
    #[trigger] s[j]).start_byte by {
        assert(keys[o[i]] < keys[o[j]] || (keys[o[i]] == keys[o[j]] && o[i] < o[j]));
        assert(p[o[i]] == s[i] && p[o[j]] == s[j]);
    }
    assert forall|x: Patch| s.contains(x) <==> p.contains(x) by {
        if s.contains(x) {
            let i = choose|i: int| 0 <= i < s.len() && s[i] == x;
            assert(p[o[i]] == x);
        }
        if p.contains(x) {
            let j = choose|j: int| 0 <= j < p.len() && p[j] == x;
            assert(o.contains(j));
            let i = choose|i: int| 0 <= i < o.len() && o[i] == j;
            assert(s[i] == x);
        }
    }
}

/// Ascending replacements agree from the front with those that hold the same.
proof fn lemma_ascending_agree(a: Seq<Patch>, b: Seq<Patch>, n: nat)
    requires
        ascending(a),
        ascending(b),
        forall|x: Patch| a.contains(x) <==> b.contains(x),
        n <= a.len(),
    ensures
        n <= b.len(),
        forall|k: int| 0 <= k < n ==> a[k] == b[k],
    decreases n,
{
    if n > 0 {
        let k = n - 1;
        lemma_ascending_agree(a, b, k as nat);
        assert(a.contains(a[k]));
        let m = choose|m: int| 0 <= m < b.len() && b[m] == a[k];
        if m < k {
            assert(a[m] == b[m]);
        }
        assert(b.contains(b[k]));
        let l = choose|l: int| 0 <= l < a.len() && a[l] == b[k];
        if l < k {
            assert(a[l] == b[l]);
        }
        assert(m == k);
    }
}

/// The order in which replacements with different starts are given does not matter.
pub proof fn law_order_of_replacements_is_irrelevant(p: Seq<Patch>, q: Seq<Patch>)
    requires
        starts_differ(p),
        p.to_multiset() == q.to_multiset(),
    ensures
        rewrite::sorted_patches(p) == rewrite::sorted_patches(q),
{
    broadcast use vstd::seq_lib::group_to_multiset_ensures;

    assert(p.no_duplicates());
    p.lemma_multiset_has_no_duplicates();
    q.lemma_multiset_has_no_duplicates_conv();
    assert forall|x: Patch| p.contains(x) <==> q.contains(x) by {
        assert(p.contains(x) <==> p.to_multiset().count(x) > 0);
        assert(q.contains(x) <==> q.to_multiset().count(x) > 0);
    }
    assert forall|i: int, j: int| 0 <= i < j < q.len() implies (#[trigger] q[i]).start_byte != (
    #[trigger] q[j]).start_byte by {
        assert(q.contains(q[i]) && q.contains(q[j]));
        assert(q[i] != q[j]);
        let a = choose|a: int| 0 <= a < p.len() && p[a] == q[i];
        let b = choose|b: int| 0 <= b < p.len() && p[b] == q[j];
        if a < b {
            assert(p[a].start_byte != p[b].start_byte);
        } else {
            assert(p[b].start_byte != p[a].start_byte);
        }
    }
    lemma_sorted_patches(p);
    lemma_sorted_patches(q);
    let a = rewrite::sorted_patches(p);
    let b = rewrite::sorted_patches(q);
    assert forall|x: Patch| a.contains(x) <==> b.contains(x) by {
        assert(a.contains(x) <==> p.contains(x));
        assert(b.contains(x) <==> q.contains(x));
        assert(p.contains(x) <==> q.contains(x));
    }
    lemma_ascending_agree(a, b, a.len());
    lemma_ascending_agree(b, a, b.len());
    assert(a == b);
}

/// What was written stays in front of what is written later.
proof fn lemma_spliced_extends(source: Seq<char>, p: Seq<Patch>, n: nat, m: nat)
    requires
        n <= m <= p.len(),
    ensures
        rewrite::spliced_upto(source, p, n).is_prefix_of(rewrite::spliced_upto(source, p, m)),
    decreases m,
{
    if n < m {
        lemma_spliced_extends(source, p, n, (m - 1) as nat);
    }
}

/// What stands behind a prefix of a text occurs in the text.
proof fn lemma_occurs_behind(s: Seq<char>, head: Seq<char>, x: Seq<char>)
    requires
        (head + x).is_prefix_of(s),
    ensures
        text::occurs(s, x),
{
    let i = head.len() as int;
    assert(s.take(i + x.len()) == head + x);
    assert(s.subrange(i, i + x.len()) == x) by {
        assert forall|k: int| 0 <= k < x.len() implies s[i + k] == x[k] by {
            assert(s.take(i + x.len())[i + k] == (head + x)[i + k]);
        }
    }
}

/// Every replacement stands in the rewritten source, without its trailing whitespace and with
/// a line feed behind it.
pub proof fn law_replacements_are_spliced_in(source: Seq<char>, p: Seq<Patch>, n: int)
    requires
        0 <= n < p.len(),
    ensures
        text::occurs(rewrite::spliced(source, p), text::trim_end(p[n].text) + seq!['\n']),
{
    let head = rewrite::spliced_upto(source, p, n as nat) + rewrite::kept_text(
        source,
        rewrite::patch_cursor(p, n),
        p[n].start_byte,
    );
    let x = text::trim_end(p[n].text) + seq!['\n'];
    let s = rewrite::spliced(source, p);
    assert(rewrite::spliced_upto(source, p, (n + 1) as nat) == head + x);
    lemma_spliced_extends(source, p, (n + 1) as nat, p.len());
    assert((head + x).is_prefix_of(s));
    lemma_occurs_behind(s, head, x);
}

/// Where the text that is kept before replacement `n` ends, the last of it with the source.
pub open spec fn kept_end(source: Seq<char>, p: Seq<Patch>, n: int) -> int {
    if n < p.len() {
        p[n].start_byte
    } else {
        encode_utf8(source).len() as int
    }
}

/// The text before replacement `n` is written behind the replacements before it.
proof fn lemma_kept_text_stands(source: Seq<char>, p: Seq<Patch>, n: int)
    requires
        0 <= n <= p.len(),
    ensures
        (rewrite::spliced_upto(source, p, n as nat) + rewrite::kept_text(
            source,
            rewrite::patch_cursor(p, n),
            kept_end(source, p, n),
        )).is_prefix_of(rewrite::spliced(source, p)),
{
    if n < p.len() {
        let head = rewrite::spliced_upto(source, p, n as nat) + rewrite::kept_text(
            source,
            rewrite::patch_cursor(p, n),
            p[n].start_byte,
        );
        let next = rewrite::spliced_upto(source, p, (n + 1) as nat);
        assert(next == head + (text::trim_end(p[n].text) + seq!['\n']));
        assert(head.is_prefix_of(next));
        lemma_spliced_extends(source, p, (n + 1) as nat, p.len());
    }
}

/// Text that lies in no replaced range stands unchanged in the rewritten source.
pub proof fn law_other_text_is_kept(source: Seq<char>, p: Seq<Patch>, n: int, a: int, b: int)
    requires
        patches_in_order(source, p),
        0 <= n <= p.len(),
        rewrite::patch_cursor(p, n) <= a <= b <= kept_end(source, p, n),
        text::boundary(source, a),
        text::boundary(source, b),
    ensures
        text::occurs(rewrite::spliced(source, p), text::byte_slice(source, a, b)),
{
    let cur = rewrite::patch_cursor(p, n);
    let end = kept_end(source, p, n);
    let head = rewrite::spliced_upto(source, p, n as nat);
    let kept = rewrite::kept_text(source, cur, end);
    let lead = text::byte_slice(source, cur, a);
    let x = text::byte_slice(source, a, b);
    assert(text::boundary(source, cur) && text::boundary(source, end)) by {
        lemma_in_order_spliceable(source, p);
        text::lemma_byte_slice_all(source);
        if n < p.len() {
            assert(p[n].start_byte <= p[n].end_byte);
        }
    }
    assert(kept == lead + x + text::byte_slice(source, b, end)) by {
        text::lemma_byte_slice_join(source, cur, a, end);
        text::lemma_byte_slice_join(source, a, b, end);
        if cur == end {
            text::lemma_byte_slice_empty(source, cur);
        }
    }
    lemma_kept_text_stands(source, p, n);
    let s = rewrite::spliced(source, p);
    let all = head + kept;
    assert(all == head + lead + x + text::byte_slice(source, b, end));
    assert(s.take(all.len() as int) == all);
    assert(s.take((head + lead + x).len() as int) == all.take((head + lead + x).len() as int));
    assert((head + lead + x).is_prefix_of(s));
    lemma_occurs_behind(s, head + lead, x);
}

/// Taking text out of a prefix of the source is taking it out of the source.
proof fn lemma_kept_in_prefix(source: Seq<char>, a: int, u: int, v: int)
    requires
        text::boundary(source, a),
        0 <= u,
        v <= a,
    ensures
        rewrite::kept_text(text::byte_slice(source, 0, a), u, v) == rewrite::kept_text(source, u, v),
{
    text::lemma_byte_slice_all(source);
    encode_utf8_valid_utf8(source);
    text::lemma_boundary_range(encode_utf8(source), a);
    text::lemma_byte_slice(source, 0, a);
    if u < v {
        assert(encode_utf8(source).subrange(0, a).subrange(u, v) == encode_utf8(source).subrange(
            u,
            v,
        ));
    }
}

/// What is written up to replacement `n` depends on the source before it alone.
proof fn lemma_spliced_in_prefix(source: Seq<char>, p: Seq<Patch>, a: int, n: nat)
    requires
        n <= p.len(),
        patches_in_order(source, p),
        text::boundary(source, a),
        n > 0 ==> p[n - 1].start_byte <= a,
    ensures
        rewrite::spliced_upto(text::byte_slice(source, 0, a), p.take(n as int), n)
            == rewrite::spliced_upto(source, p, n),
    decreases n,
{
    if n > 0 {
        let m = (n - 1) as nat;
        let pre = text::byte_slice(source, 0, a);
        lemma_in_order_spliceable(source, p);
        encode_utf8_valid_utf8(source);
        if m > 0 {
            assert(p[m - 1].end_byte <= p[m as int].start_byte);
            assert(p[m - 1].start_byte <= p[m - 1].end_byte);
        }
        lemma_spliced_in_prefix(source, p, a, m);
        assert(text::boundary(source, rewrite::patch_cursor(p, m as int)));
        text::lemma_boundary_range(encode_utf8(source), rewrite::patch_cursor(p, m as int));
        lemma_kept_in_prefix(source, a, rewrite::patch_cursor(p, m as int), p[m as int].start_byte);
        lemma_spliced_ignores_rest(pre, p.take(m as int), p.take(n as int), m);
        assert(p.take(n as int)[m as int] == p[m as int]);
        if m > 0 {
            assert(p.take(n as int)[m - 1] == p[m - 1]);
        }
    }
}

/// What is written up to replacement `n` depends on the first `n` replacements alone.
proof fn lemma_spliced_ignores_rest(source: Seq<char>, p: Seq<Patch>, q: Seq<Patch>, n: nat)
    requires
        n <= p.len(),
        n <= q.len(),
        forall|k: int| 0 <= k < n ==> p[k] == q[k],
    ensures
        rewrite::spliced_upto(source, p, n) == rewrite::spliced_upto(source, q, n),
    decreases n,
{
    if n > 0 {
        lemma_spliced_ignores_rest(source, p, q, (n - 1) as nat);
        assert(p[n - 1] == q[n - 1]);
        if n > 1 {
            assert(p[n - 2] == q[n - 2]);
        }
    }
}

/// The last of several replacements in order is made by itself: the source before it is
/// rewritten with the others, then comes its text without trailing whitespace, a line feed, and
/// the source behind it as it was. Together with `law_no_replacement_no_change` this says what
/// is written, once and in which order.
pub proof fn law_last_replacement_comes_last(source: Seq<char>, p: Seq<Patch>)
    requires
        patches_in_order(source, p),
        p.len() > 0,
    ensures
        ({
            let x = p.last();
            rewrite::spliced(source, rewrite::sorted_patches(p)) == rewrite::spliced(
                text::byte_slice(source, 0, x.start_byte),
                rewrite::sorted_patches(p.drop_last()),
            ) + text::trim_end(x.text) + seq!['\n'] + text::byte_slice(
                source,
                x.end_byte,
                encode_utf8(source).len() as int,
            )
        }),
{
    let n = p.len();
    let m = (n - 1) as nat;
    let x = p.last();
    let q = p.drop_last();
    let a = x.start_byte;
    let len = encode_utf8(source).len() as int;
    let pre = text::byte_slice(source, 0, a);
    assert(x == p[m as int]);
    assert(x.start_byte <= x.end_byte);
    assert(q == p.take(m as int));
    lemma_in_order_spliceable(source, p);
    assert(patches_in_order(source, q)) by {
        assert forall|k: int| 0 <= k < q.len() implies {
            &&& (#[trigger] q[k]).start_byte <= q[k].end_byte
            &&& text::boundary(source, q[k].start_byte)
            &&& text::boundary(source, q[k].end_byte)
        } by {
            assert(q[k] == p[k]);
        }
        assert forall|i: int, j: int| 0 <= i < j < q.len() implies (#[trigger] q[i]).end_byte <= (
        #[trigger] q[j]).start_byte by {
            assert(q[i] == p[i] && q[j] == p[j]);
        }
    }
    lemma_in_order_spliceable(source, q);
    if m > 0 {
        assert(p[m - 1].end_byte <= p[m as int].start_byte);
        assert(p[m - 1].start_byte <= p[m - 1].end_byte);
        assert(q[m - 1] == p[m - 1]);
    }
    lemma_spliced_in_prefix(source, p, a, m);
    encode_utf8_valid_utf8(source);
    let cur = rewrite::patch_cursor(p, m as int);
    assert(text::boundary(source, cur));
    text::lemma_boundary_range(encode_utf8(source), cur);
    text::lemma_boundary_range(encode_utf8(source), a);
    text::lemma_boundary_range(encode_utf8(source), x.end_byte);
    lemma_kept_in_prefix(source, a, cur, a);
    text::lemma_byte_slice_all(source);
    text::lemma_byte_slice(source, 0, a);
    assert(encode_utf8(pre).len() == a);
    assert(rewrite::patch_cursor(q, m as int) == cur);
    assert(rewrite::spliced(pre, q) == rewrite::spliced_upto(source, p, m) + rewrite::kept_text(
        source,
        cur,
        a,
    ));
    if x.end_byte == len {
        text::lemma_byte_slice_empty(source, len);
    }
    assert(rewrite::kept_text(source, x.end_byte, len) == text::byte_slice(
        source,
        x.end_byte,
        len,
    ));
}

/// One replacement: the source before it, its text without trailing whitespace, a line feed, and
/// the source behind it.
pub proof fn law_single_replacement(source: Seq<char>, a: int, b: int, new_text: Seq<char>)
    requires
        a <= b,
        text::boundary(source, a),
        text::boundary(source, b),
    ensures
        ({
            let p = seq![Patch { start_byte: a, end_byte: b, text: new_text }];
            rewrite::spliced(source, rewrite::sorted_patches(p)) == text::byte_slice(source, 0, a)
                + text::trim_end(new_text) + seq!['\n'] + text::byte_slice(
                source,
                b,
                encode_utf8(source).len() as int,
            )
        }),
{
    let p = seq![Patch { start_byte: a, end_byte: b, text: new_text }];
    law_last_replacement_comes_last(source, p);
    assert(p.drop_last() == Seq::<Patch>::empty());
    law_no_replacement_no_change(text::byte_slice(source, 0, a));
}

/// By how much the replacements make the source longer: each takes out the text of its range and
/// puts in its own text without trailing whitespace and a line feed.
pub open spec fn growth(source: Seq<char>, p: Seq<Patch>) -> int
    decreases p.len(),
{
    if p.len() == 0 {
        0
    } else {
        let x = p.last();
        growth(source, p.drop_last()) + text::trim_end(x.text).len() + 1 - text::byte_slice(
            source,
            x.start_byte,
            x.end_byte,
        ).len()
    }
}

proof fn lemma_spliced_len(source: Seq<char>, p: Seq<Patch>, n: nat)
    requires
        n <= p.len(),
        patches_in_order(source, p),
    ensures
        rewrite::spliced_upto(source, p, n).len() == text::byte_slice(
            source,
            0,
            rewrite::patch_cursor(p, n as int),
        ).len() + growth(source, p.take(n as int)),
    decreases n,
{
    lemma_in_order_spliceable(source, p);
    text::lemma_byte_slice_all(source);
    if n == 0 {
        text::lemma_byte_slice_empty(source, 0);
    } else {
        let m = n - 1;
        let cur = rewrite::patch_cursor(p, m);
        let x = p[m];
        lemma_spliced_len(source, p, m as nat);
        assert(text::boundary(source, cur));
        assert(cur <= p[m].start_byte);
        assert(x.start_byte <= x.end_byte);
        encode_utf8_valid_utf8(source);
        text::lemma_boundary_range(encode_utf8(source), cur);
        if cur == x.start_byte {
            text::lemma_byte_slice_empty(source, cur);
        }
        text::lemma_byte_slice_join(source, 0, cur, x.start_byte);
        text::lemma_byte_slice_join(source, 0, x.start_byte, x.end_byte);
        assert(p.take(n as int).drop_last() == p.take(m));
        assert(p.take(n as int).last() == x);
    }
}

/// Nothing is written but the replacements, once each, and the text around them: the rewritten
/// source has the length that follows.
pub proof fn law_nothing_else_is_written(source: Seq<char>, p: Seq<Patch>)
    requires
        patches_in_order(source, p),
    ensures
        rewrite::spliced(source, rewrite::sorted_patches(p)).len() == source.len() + growth(
            source,
            p,
        ),
{
    let cur = rewrite::patch_cursor(p, p.len() as int);
    let len = encode_utf8(source).len() as int;
    lemma_in_order_spliceable(source, p);
    lemma_spliced_len(source, p, p.len());
    assert(p.take(p.len() as int) == p);
    text::lemma_byte_slice_all(source);
    assert(text::boundary(source, cur));
    encode_utf8_valid_utf8(source);
    text::lemma_boundary_range(encode_utf8(source), cur);
    if cur == len {
        text::lemma_byte_slice_empty(source, cur);
    }
    text::lemma_byte_slice_join(source, 0, cur, len);
}

/// Whether three backticks stand side by side somewhere in a text.
pub open spec fn shows_fence(s: Seq<char>) -> bool {
    exists|i: int|
        0 <= i && i + 2 < s.len() && #[trigger] s[i] == '`' && s[i + 1] == '`' && s[i + 2] == '`'
}

proof fn lemma_fence_occurs(s: Seq<char>)
    ensures
        text::occurs(s, "```"@) <==> shows_fence(s),
{
    reveal_strlit("```");
    assert("```"@.len() == 3);
    let f = "```"@;
    if text::occurs(s, f) {
        let i = choose|i: int|
            0 <= i <= s.len() - f.len() && #[trigger] s.subrange(i, i + f.len()) == f;
        let r = s.subrange(i, i + 3);
        assert(r[0] == s[i] && r[1] == s[i + 1] && r[2] == s[i + 2]);
    }
    if shows_fence(s) {
        let i = choose|i: int|
            0 <= i && i + 2 < s.len() && #[trigger] s[i] == '`' && s[i + 1] == '`' && s[i + 2]
                == '`';
        assert(s.subrange(i, i + 3) == f);
    }
}

/// A generated text passes the checks on its text exactly if it has a character that is not
/// whitespace, no three backticks side by side, at most three times the characters of the
/// original (of one character, if the original has none), and is short enough for the parser.
/// Of several reasons to refuse it the first in this order is given.
pub proof fn law_checks_on_generated_text(generated: Seq<char>, original: Seq<char>)
    ensures
        ({
            let shown = exists|i: int|
                0 <= i < generated.len() && !text::is_space(#[trigger] generated[i]);
            let fence = shows_fence(generated);
            let long = generated.len() > 3 * original.len() && generated.len() > 3;
            let unparsable = encode_utf8(generated).len() >= u32::MAX;
            let r = rewrite::text_outcome(generated, original);
            &&& !shown ==> r == Err::<(), ValidationError>(ValidationError::Empty)
            &&& shown && fence ==> r == Err::<(), ValidationError>(ValidationError::MarkdownFences)
            &&& shown && !fence && long ==> r == Err::<(), ValidationError>(
                ValidationError::TooLarge,
            )
            &&& shown && !fence && !long && unparsable ==> r == Err::<(), ValidationError>(
                ValidationError::Unparsable,
            )
            &&& shown && !fence && !long && !unparsable ==> r == Ok::<(), ValidationError>(())
        }),
{
    lemma_fence_occurs(generated);
    if text::is_blank(generated) {
        assert(!exists|i: int| 0 <= i < generated.len() && !text::is_space(#[trigger] generated[i]));
    }
}

/// A text that passes those checks is accepted exactly if the parser yields a tree whose root
/// holds no error; one that does not pass is refused whatever the parser makes of it.
pub proof fn law_parse_decides_on_checked_text(
    generated: Seq<char>,
    original: Seq<char>,
    parsed: Result<Option<Seq<NodeView>>, ()>,
)
    ensures
        ({
            let r = rewrite::validation_outcome(generated, original, parsed);
            &&& rewrite::text_outcome(generated, original) is Err ==> r == rewrite::text_outcome(
                generated,
                original,
            )
            &&& rewrite::text_outcome(generated, original) is Ok ==> {
                &&& r is Ok <==> (parsed matches Ok(Some(t)) && t.len() > 0 && !t[0].has_error)
                &&& parsed is Err ==> r == Err::<(), ValidationError>(
                    ValidationError::GrammarRejected,
                )
                &&& parsed == Ok::<Option<Seq<NodeView>>, ()>(None) ==> r == Err::<
                    (),
                    ValidationError,
                >(ValidationError::NotParsed)
                &&& (parsed matches Ok(Some(t)) && t.len() > 0 && t[0].has_error) ==> r == Err::<
                    (),
                    ValidationError,
                >(ValidationError::ParseErrors)
            }
        }),
{
}

/// Text behind the last line feed is the last line.
proof fn lemma_last_line(a: Seq<char>, last: Seq<char>)
    requires
        last.len() > 0,
        forall|i: int| 0 <= i < last.len() ==> #[trigger] last[i] != '\n',
    ensures
        text::lines(a + seq!['\n'] + last).len() >= 2,
        text::lines(a + seq!['\n'] + last).last() == last,
    decreases a.len(),
{
    let s = a + seq!['\n'] + last;
    let k = text::first_newline(a);
    text::lemma_first_newline(a);
    assert(s[k] == '\n');
    assert forall|i: int| 0 <= i < k implies #[trigger] s[i] != '\n' by {
        assert(s[i] == a[i]);
    }
    text::lemma_first_newline_at(s, k);
    if k == a.len() {
        assert(s.skip(k + 1) == last);
        text::lemma_first_newline_at(last, last.len() as int);
        assert(text::lines(last) == seq![last]);
    } else {
        let rest = a.skip(k + 1);
        assert(s.skip(k + 1) == rest + seq!['\n'] + last);
        lemma_last_line(rest, last);
    }
}

/// Text that does not begin with three backticks once it is trimmed, that is a single line, or
/// whose last line does not begin with three backticks, is only trimmed.
pub proof fn law_unfenced_text_is_only_trimmed(s: Seq<char>, a: Seq<char>, last: Seq<char>)
    ensures
        ({
            let t = text::trim(s);
            &&& !(t.len() >= 3 && t[0] == '`' && t[1] == '`' && t[2] == '`') ==> rewrite::normalized(
                s,
            ) == t
            &&& (forall|i: int| 0 <= i < t.len() ==> #[trigger] t[i] != '\n')
                ==> rewrite::normalized(s) == t
            &&& ({
                let end = text::trim(last);
                &&& t == a + seq!['\n'] + last
                &&& last.len() > 0
                &&& forall|i: int| 0 <= i < last.len() ==> #[trigger] last[i] != '\n'
                &&& !(end.len() >= 3 && end[0] == '`' && end[1] == '`' && end[2] == '`')
            }) ==> rewrite::normalized(s) == t
        }),
{
    let t = text::trim(s);
    lemma_fence_prefix(t);
    if forall|i: int| 0 <= i < t.len() ==> #[trigger] t[i] != '\n' {
        text::lemma_first_newline_at(t, t.len() as int);
        assert(text::lines(t).len() <= 1);
    }
    if t == a + seq!['\n'] + last && last.len() > 0 && (forall|i: int|
        0 <= i < last.len() ==> #[trigger] last[i] != '\n') {
        lemma_last_line(a, last);
        lemma_fence_prefix(text::trim(last));
    }
}

proof fn lemma_fence_prefix(t: Seq<char>)
    ensures
        "```"@.is_prefix_of(t) <==> t.len() >= 3 && t[0] == '`' && t[1] == '`' && t[2] == '`',
{
    reveal_strlit("```");
    assert("```"@.len() == 3);
    if "```"@.is_prefix_of(t) {
        assert(t.subrange(0, 3)[0] == t[0] && t.subrange(0, 3)[1] == t[1] && t.subrange(0, 3)[2]
            == t[2]);
    } else if t.len() >= 3 && t[0] == '`' && t[1] == '`' && t[2] == '`' {
        assert(t.subrange(0, 3) == "```"@);
    }
}

/// The lines of a body before a closing line, joined again, have the visible characters of the
/// body, and are the body if it holds no carriage return.
proof fn lemma_body_lines(body: Seq<char>, close: Seq<char>)
    requires
        close.len() > 0,
        forall|i: int| 0 <= i < close.len() ==> #[trigger] close[i] != '\n',
    ensures
        ({
            let all = text::lines(body + seq!['\n'] + close);
            &&& all.len() >= 2
            &&& all.last() == close
            &&& visible(text::join(all.drop_last(), "\n"@)) == visible(body)
            &&& (forall|i: int| 0 <= i < body.len() ==> #[trigger] body[i] != '\r') ==> text::join(
                all.drop_last(),
                "\n"@,
            ) == body
        }),
    decreases body.len(),
{
    reveal_strlit("\n");
    assert("\n"@ == seq!['\n']);
    lemma_visible_blank(seq!['\n']);
    let s = body + seq!['\n'] + close;
    let all = text::lines(s);
    let k = text::first_newline(body);
    text::lemma_first_newline(body);
    assert(s[k] == '\n');
    assert forall|i: int| 0 <= i < k implies #[trigger] s[i] != '\n' by {
        assert(s[i] == body[i]);
    }
    text::lemma_first_newline_at(s, k);
    let x = body.take(k);
    let line = text::strip_cr(x);
    assert(s.take(k) == x);
    assert(visible(line) == visible(x)) by {
        if x.len() > 0 && x.last() == '\r' {
            assert(x == line + seq!['\r']);
            lemma_visible_add(line, seq!['\r']);
            lemma_visible_blank(seq!['\r']);
        }
    }
    if k == body.len() {
        text::lemma_first_newline_at(close, close.len() as int);
        assert(s.skip(k + 1) == close);
        assert(text::lines(close) == seq![close]);
        assert(x == body);
        assert(all == seq![line] + seq![close]);
        assert(all.drop_last() == seq![line]);
        assert(text::join(all.drop_last(), "\n"@) == line);
    } else {
        let rest = body.skip(k + 1);
        lemma_body_lines(rest, close);
        let tail = text::lines(rest + seq!['\n'] + close);
        assert(s.skip(k + 1) == rest + seq!['\n'] + close);
        assert(all == seq![line] + tail);
        assert(all.drop_last() == seq![line] + tail.drop_last());
        let j = text::join(tail.drop_last(), "\n"@);
        text_laws::law_join_puts_separators_between(
            seq![line],
            tail.drop_last(),
            line,
            "\n"@,
        );
        assert(text::join(all.drop_last(), "\n"@) == line + seq!['\n'] + j);
        assert(body == x + seq!['\n'] + rest);
        lemma_visible_add(line, seq!['\n']);
        lemma_visible_add(line + seq!['\n'], j);
        lemma_visible_add(x, seq!['\n']);
        lemma_visible_add(x + seq!['\n'], rest);
        if forall|i: int| 0 <= i < body.len() ==> #[trigger] body[i] != '\r' {
            assert forall|i: int| 0 <= i < rest.len() implies #[trigger] rest[i] != '\r' by {
                assert(rest[i] == body[k + 1 + i]);
            }
            if x.len() > 0 {
                assert(x.last() == body[k - 1]);
            }
        }
    }
}

/// Whatever stands behind the opening fence on its line, whatever the code is, and however the
/// closing fence is indented or goes on: of fenced text the code is left, with all its visible
/// characters, trimmed, and but for that unchanged if it holds no carriage return.
pub proof fn law_fences_are_cut_off(
    language: Seq<char>,
    body: Seq<char>,
    indent: Seq<char>,
    tail: Seq<char>,
)
    requires
        forall|i: int| 0 <= i < language.len() ==> #[trigger] language[i] != '\n',
        forall|i: int|
            0 <= i < indent.len() ==> #[trigger] indent[i] != '\n' && text::is_space(indent[i]),
        forall|i: int| 0 <= i < tail.len() ==> #[trigger] tail[i] != '\n',
        tail.len() > 0 ==> !text::is_space(tail.last()),
    ensures
        ({
            let r = rewrite::normalized(
                seq!['`', '`', '`'] + language + seq!['\n'] + body + seq!['\n'] + indent + seq![
                    '`',
                    '`',
                    '`',
                ] + tail,
            );
            &&& visible(r) == visible(body)
            &&& text::trim(r) == r
            &&& (forall|i: int| 0 <= i < body.len() ==> #[trigger] body[i] != '\r') ==> r
                == text::trim(body)
        }),
{
    let fence = seq!['`', '`', '`'];
    let close = indent + fence + tail;
    let head = fence + language;
    let inner = body + seq!['\n'] + close;
    let s = fence + language + seq!['\n'] + body + seq!['\n'] + indent + fence + tail;
    assert(s == head + seq!['\n'] + inner);
    assert(s[0] == '`');
    assert(s.last() == close.last());
    assert(close.last() == if tail.len() > 0 {
        tail.last()
    } else {
        '`'
    });
    text::lemma_trim_trimmed(s);
    assert(s[1] == '`' && s[2] == '`');
    lemma_fence_prefix(s);
    let k = head.len() as int;
    assert forall|i: int| 0 <= i < k implies #[trigger] s[i] != '\n' by {
        if i >= 3 {
            assert(s[i] == language[i - 3]);
        }
    }
    text::lemma_first_newline_at(s, k);
    assert(s.skip(k + 1) == inner);
    assert forall|i: int| 0 <= i < close.len() implies #[trigger] close[i] != '\n' by {
        if i < indent.len() {
            assert(close[i] == indent[i]);
        } else if i >= indent.len() + 3 {
            assert(close[i] == tail[i - indent.len() - 3]);
        }
    }
    lemma_body_lines(body, close);
    let rest = text::lines(inner);
    let all = text::lines(s);
    assert(all == seq![text::strip_cr(s.take(k))] + rest);
    assert(all.last() == close);
    lemma_indented_fence(indent, tail);
    lemma_fence_prefix(text::trim(close));
    assert(rewrite::is_fenced(s));
    assert(all.subrange(1, all.len() - 1) == rest.drop_last());
    let joined = text::join(rest.drop_last(), "\n"@);
    rewrite::lemma_trim_twice(joined);
    lemma_visible_trim(joined);
}

/// The closing line, trimmed, begins with the fence.
proof fn lemma_indented_fence(indent: Seq<char>, tail: Seq<char>)
    requires
        forall|i: int| 0 <= i < indent.len() ==> text::is_space(#[trigger] indent[i]),
        tail.len() > 0 ==> !text::is_space(tail.last()),
    ensures
        text::trim(indent + seq!['`', '`', '`'] + tail) == seq!['`', '`', '`'] + tail,
    decreases indent.len(),
{
    let fence = seq!['`', '`', '`'];
    let s = indent + fence + tail;
    if indent.len() == 0 {
        assert(s == fence + tail);
        text::lemma_trim_trimmed(s);
    } else {
        let d = indent.drop_first();
        assert forall|i: int| 0 <= i < d.len() implies text::is_space(#[trigger] d[i]) by {
            assert(d[i] == indent[i + 1]);
        }
        lemma_indented_fence(d, tail);
        assert(s[0] == indent[0]);
        assert(s.drop_first() == d + fence + tail);
    }
}

proof fn lemma_visible_trim(s: Seq<char>)
    ensures
        visible(text::trim(s)) == visible(s),
{
    let a = text::trim_start(s);
    let k = s.len() - a.len();
    text::lemma_trim_start_range(s);
    assert(s == s.take(k) + a);
    lemma_visible_add(s.take(k), a);
    lemma_visible_blank(s.take(k));
    lemma_visible_trim_end(a);
}

} // verus!
