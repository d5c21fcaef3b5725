//! Checking generated chunks and splicing them into the source.

use crate::chunker::CodeChunk;
use crate::order;
use crate::syntax;
use crate::syntax::{NodeView, SyntaxNode};
use crate::text;
use vstd::prelude::*;
use vstd::utf8::*;

verus! {

/// Whether trimmed text is enclosed in a Markdown code fence: it begins with one, and its
/// last line, which is not its first, begins with one too.
pub open spec fn is_fenced(t: Seq<char>) -> bool {
    &&& "```"@.is_prefix_of(t)
    &&& text::lines(t).len() >= 2
    &&& "```"@.is_prefix_of(text::trim(text::lines(t).last()))
}

/// A generated text without surrounding whitespace and without an enclosing code fence.
pub open spec fn normalized(s: Seq<char>) -> Seq<char> {
    let t = text::trim(s);
    if is_fenced(t) {
        let all = text::lines(t);
        text::trim(text::join(all.subrange(1, all.len() - 1), "\n"@))
    } else {
        t
    }
}

/// Text that begins with a fence has a first line that does.
proof fn lemma_first_line_fenced(t: Seq<char>)
    requires
        "```"@.is_prefix_of(t),
    ensures
        text::lines(t).len() >= 1,
        "```"@.is_prefix_of(text::trim_start(text::lines(t)[0])),
{
    reveal_strlit("```");
    let fence = "```"@;
    assert(fence.len() == 3);
    assert forall|i: int| 0 <= i < 3 implies t[i] == '`' by {
        assert(t.subrange(0, 3)[i] == fence[i]);
    }
    let k = text::first_newline(t);
    text::lemma_first_newline(t);
    let first = text::lines(t)[0];
    assert(k >= 3);
    assert(first.len() >= 3) by {
        if k < t.len() {
            assert(t.take(k).last() == t[k - 1]);
        }
    }
    assert forall|i: int| 0 <= i < 3 implies first[i] == '`' by {}
    assert(first.subrange(0, 3) == fence);
    assert(text::trim_start(first) == first);
}

/// Normalize common LLM formatting mistakes before validation.
///
/// Today this mainly strips a single outer Markdown code fence such as
/// ```` ```rust ... ``` ```` when the model otherwise returned valid Rust code.
pub fn normalize_generated_chunk(generated: &str) -> (r: String)
    ensures
        r@ == normalized(generated@),
{
    let trimmed = text::trimmed(generated);
    if !text::has_prefix(trimmed, "```") {
        return trimmed.to_owned();
    }
    let lines = text::lines_of(trimmed);
    let ghost all = text::lines(trimmed@);
    assert(text::views(lines@).len() == lines@.len());
    proof {
        lemma_first_line_fenced(trimmed@);
        assert(all[0] == lines@[0]@);
    }
    if !text::has_prefix(text::trimmed_start(lines[0].as_str()), "```") {
        return trimmed.to_owned();
    }
    if lines.len() == 1 {
        return trimmed.to_owned();
    }
    let last: usize = lines.len() - 1;
    assert(all.last() == lines@[last as int]@);
    if !text::has_prefix(text::trimmed(lines[last].as_str()), "```") {
        return trimmed.to_owned();
    }
    let body = text::join_between(&lines, 1, last, "\n");
    text::trimmed(body.as_str()).to_owned()
}

/// Trimming leaves no whitespace at either end, so trimming again changes nothing.
pub proof fn lemma_trim_twice(s: Seq<char>)
    ensures
        text::trim(text::trim(s)) == text::trim(s),
{
    let a = text::trim_start(s);
    let b = text::trim_end(a);
    text::lemma_trim_start_range(s);
    text::lemma_trim_end_range(a);
    if b.len() > 0 {
        assert(b[0] == a[0]);
        assert(!text::is_space(b[0]));
    }
    text::lemma_trim_trimmed(b);
}

/// A normalized text neither begins nor ends with whitespace.
pub proof fn law_normalized_text_is_trimmed(s: Seq<char>)
    ensures
        text::trim(normalized(s)) == normalized(s),
{
    let t = text::trim(s);
    let all = text::lines(t);
    lemma_trim_twice(s);
    lemma_trim_twice(text::join(all.subrange(1, all.len() - 1), "\n"@));
}

/// Joining a list is its first part, the separator, and the rest joined.
proof fn lemma_join_first(x: Seq<char>, p: Seq<Seq<char>>, sep: Seq<char>)
    requires
        p.len() > 0,
    ensures
        text::join(seq![x] + p, sep) == x + sep + text::join(p, sep),
    decreases p.len(),
{
    let q = seq![x] + p;
    if p.len() == 1 {
        assert(q.drop_last() == seq![x]);
        assert(text::join(q.drop_last(), sep) == x);
        assert(q.last() == p[0]);
    } else {
        lemma_join_first(x, p.drop_last(), sep);
        assert(q.drop_last() == seq![x] + p.drop_last());
        assert(text::join(q, sep) == x + sep + text::join(p.drop_last(), sep) + sep + p.last());
        assert(text::join(q, sep) == x + sep + (text::join(p.drop_last(), sep) + sep + p.last()));
    }
}

/// The lines of a body before a closing fence, joined again, are the body.
proof fn lemma_fenced_body(body: Seq<char>)
    requires
        forall|i: int| 0 <= i < body.len() ==> #[trigger] body[i] != '\r',
    ensures
        ({
            let all = text::lines(body + seq!['\n'] + "```"@);
            &&& all.len() >= 2
            &&& all.last() == "```"@
            &&& text::join(all.drop_last(), "\n"@) == body
        }),
    decreases body.len(),
{
    reveal_strlit("```");
    reveal_strlit("\n");
    let close = "```"@;
    assert(close.len() == 3);
    assert("\n"@ == seq!['\n']);
    let s = body + seq!['\n'] + close;
    let all = text::lines(s);
    let k = text::first_newline(body);
    text::lemma_first_newline(body);
    assert(s[k] == '\n');
    text::lemma_first_newline_at(s, k);
    let x = body.take(k);
    assert(s.take(k) == x);
    assert(text::strip_cr(x) == x);
    if k == body.len() {
        text::lemma_first_newline_at(close, 3);
        assert(s.skip(k + 1) == close);
        assert(text::lines(close) == seq![close]);
        assert(x == body);
        assert(all == seq![body] + seq![close]);
        assert(all.drop_last() == seq![body]);
    } else {
        let rest = body.skip(k + 1);
        lemma_fenced_body(rest);
        let tail = text::lines(rest + seq!['\n'] + close);
        assert(s.skip(k + 1) == rest + seq!['\n'] + close);
        assert(all == seq![x] + tail);
        assert(all.drop_last() == seq![x] + tail.drop_last());
        lemma_join_first(x, tail.drop_last(), "\n"@);
        assert(body == x + seq!['\n'] + rest);
    }
}

/// Code in a fence, with or without the name of a language behind the opening fence, is
/// normalized to the code without surrounding whitespace. Carriage returns before line feeds
/// are left out, so the law is about code without them.
pub proof fn law_fenced_code_is_unwrapped(language: Seq<char>, body: Seq<char>)
    requires
        forall|i: int| 0 <= i < language.len() ==> #[trigger] language[i] != '\n',
        forall|i: int| 0 <= i < body.len() ==> #[trigger] body[i] != '\r',
    ensures
        normalized("```"@ + language + seq!['\n'] + body + seq!['\n'] + "```"@) == text::trim(body),
{
    reveal_strlit("```");
    let fence = "```"@;
    assert(fence.len() == 3);
    let head = fence + language;
    let inner = body + seq!['\n'] + fence;
    let s = fence + language + seq!['\n'] + body + seq!['\n'] + fence;
    assert(s == head + seq!['\n'] + inner);
    assert(s[0] == fence[0]);
    assert(s.last() == fence[2]);
    text::lemma_trim_trimmed(s);
    assert(s.subrange(0, 3) == fence);
    let k = head.len() as int;
    assert forall|i: int| 0 <= i < k implies #[trigger] s[i] != '\n' by {
        if i < 3 {
            assert(s[i] == fence[i]);
        } else {
            assert(s[i] == language[i - 3]);
        }
    }
    text::lemma_first_newline_at(s, k);
    assert(s.skip(k + 1) == inner);
    lemma_fenced_body(body);
    let rest = text::lines(inner);
    let all = text::lines(s);
    assert(all == seq![text::strip_cr(s.take(k))] + rest);
    assert(all.last() == fence);
    text::lemma_trim_trimmed(fence);
    assert(fence.subrange(0, 3) == fence);
    assert(is_fenced(s));
    assert(all.subrange(1, all.len() - 1) == rest.drop_last());
}

/// Why a generated chunk may not replace the original.
#[derive(Debug, Clone, Copy, PartialEq, Eq, Structural)]
pub enum ValidationError {
    /// The chunk holds nothing but whitespace.
    Empty,
    /// The chunk holds a Markdown fence.
    MarkdownFences,
    /// The chunk has more than three times the characters of the original.
    TooLarge,
    /// The chunk is longer than the parser can count.
    Unparsable,
    /// The parser refused the Rust grammar.
    GrammarRejected,
    /// The parser yielded no tree.
    NotParsed,
    /// The chunk is not valid Rust.
    ParseErrors,
}

impl ValidationError {
    /// The message that describes the error.
    pub open spec fn text(self) -> Seq<char> {
        match self {
            ValidationError::Empty => "model returned an empty chunk"@,
            ValidationError::MarkdownFences =>
                "model returned Markdown fences instead of raw Rust code"@,
            ValidationError::TooLarge =>
                "model output is more than 3x larger than original chunk; refusing unsafe replacement"@,
            ValidationError::Unparsable => "generated chunk is too large for tree-sitter"@,
            ValidationError::GrammarRejected => "failed to load tree-sitter Rust grammar"@,
            ValidationError::NotParsed => "tree-sitter failed to parse generated chunk"@,
            ValidationError::ParseErrors => "generated chunk contains Rust parse errors"@,
        }
    }

    /// The message that describes the error.
    pub fn message(&self) -> (r: &'static str)
        ensures
            r@ == self.text(),
    {
        match self {
            ValidationError::Empty => "model returned an empty chunk",
            ValidationError::MarkdownFences =>
                "model returned Markdown fences instead of raw Rust code",
            ValidationError::TooLarge =>
                "model output is more than 3x larger than original chunk; refusing unsafe replacement",
            ValidationError::Unparsable => "generated chunk is too large for tree-sitter",
            ValidationError::GrammarRejected => "failed to load tree-sitter Rust grammar",
            ValidationError::NotParsed => "tree-sitter failed to parse generated chunk",
            ValidationError::ParseErrors => "generated chunk contains Rust parse errors",
        }
    }
}

/// Whether a generated chunk passes the checks on its text alone.
pub open spec fn text_outcome(generated: Seq<char>, original: Seq<char>) -> Result<
    (),
    ValidationError,
> {
    let original_chars = if original.len() == 0 {
        1
    } else {
        original.len()
    };
    if text::is_blank(generated) {
        Err(ValidationError::Empty)
    } else if text::occurs(generated, "```"@) {
        Err(ValidationError::MarkdownFences)
    } else if generated.len() > 3 * original_chars {
        Err(ValidationError::TooLarge)
    } else if !syntax::fits_parser(generated) {
        Err(ValidationError::Unparsable)
    } else {
        Ok(())
    }
}

/// Whether what the parser makes of a generated chunk is a tree without errors.
pub open spec fn tree_outcome(parsed: Result<Option<Seq<NodeView>>, ()>) -> Result<
    (),
    ValidationError,
> {
    match parsed {
        Err(_) => Err(ValidationError::GrammarRejected),
        Ok(None) => Err(ValidationError::NotParsed),
        Ok(Some(t)) => if t.len() == 0 {
            Err(ValidationError::NotParsed)
        } else if t[0].has_error {
            Err(ValidationError::ParseErrors)
        } else {
            Ok(())
        },
    }
}

/// Whether a generated chunk may replace the original, given what the parser makes of it.
pub open spec fn validation_outcome(
    generated: Seq<char>,
    original: Seq<char>,
    parsed: Result<Option<Seq<NodeView>>, ()>,
) -> Result<(), ValidationError> {
    match text_outcome(generated, original) {
        Err(e) => Err(e),
        Ok(_) => tree_outcome(parsed),
    }
}

/// Checks the text of a generated chunk against the original.
pub fn validate_text(generated: &str, original: &str) -> (r: Result<(), ValidationError>)
    ensures
        r == text_outcome(generated@, original@),
{
    if text::blank(generated) {
        return Err(ValidationError::Empty);
    }
    if text::contains(generated, "```") {
        return Err(ValidationError::MarkdownFences);
    }
    let generated_chars = generated.unicode_len();
    let mut original_chars = original.unicode_len();
    if original_chars < 1 {
        original_chars = 1;
    }
    if generated_chars as u128 > original_chars as u128 * 3 {
        return Err(ValidationError::TooLarge);
    }
    if !syntax::short_enough(generated) {
        return Err(ValidationError::Unparsable);
    }
    Ok(())
}

/// Checks what the parser made of a generated chunk.
pub fn validate_tree(
    parsed: &Result<Option<Vec<SyntaxNode>>, tree_sitter::LanguageError>,
) -> (r: Result<(), ValidationError>)
    ensures
        r == tree_outcome(syntax::parse_view(*parsed)),
{
    match parsed {
        Err(_) => Err(ValidationError::GrammarRejected),
        Ok(None) => Err(ValidationError::NotParsed),
        Ok(Some(nodes)) => {
            if nodes.len() == 0 {
                Err(ValidationError::NotParsed)
            } else if nodes[0].has_error {
                Err(ValidationError::ParseErrors)
            } else {
                Ok(())
            }
        },
    }
}

/// Validate that a model-generated chunk is safe to substitute for the original.
///
/// Checks for:
/// - Empty output
/// - Markdown fences (the model was asked to return raw code)
/// - Output that is suspiciously larger than the original (more than three times)
/// - Rust parse errors according to tree-sitter, whose reading of a text beyond ASCII may
///   differ between locales
pub fn validate_generated_chunk(generated: &str, original: &str) -> (r: Result<
    (),
    ValidationError,
>)
    ensures
        text_outcome(generated@, original@) is Err ==> r == text_outcome(generated@, original@),
        text_outcome(generated@, original@) is Ok ==> exists|
            parsed: Result<Option<Seq<NodeView>>, ()>,
        | #[trigger]
            syntax::parser_yields(generated@, parsed) && r == tree_outcome(parsed),
        is_ascii_chars(generated@) ==> r == validation_outcome(
            generated@,
            original@,
            syntax::rust_syntax(generated@),
        ),
{
    match validate_text(generated, original) {
        Err(e) => Err(e),
        Ok(_) => validate_tree(&syntax::parse_rust(generated)),
    }
}

/// A replacement for a range of the source.
pub struct Patch {
    pub start_byte: int,
    pub end_byte: int,
    pub text: Seq<char>,
}

/// The replacement that a chunk and its new text make.
pub open spec fn patch_of(r: (CodeChunk, String)) -> Patch {
    Patch { start_byte: r.0.start_byte as int, end_byte: r.0.end_byte as int, text: r.1@ }
}

/// The replacements of a list.
pub open spec fn patches(s: Seq<(CodeChunk, String)>) -> Seq<Patch> {
    s.map_values(|r: (CodeChunk, String)| patch_of(r))
}

/// Where each replacement starts.
pub open spec fn patch_starts(p: Seq<Patch>) -> Seq<int> {
    p.map_values(|r: Patch| r.start_byte)
}

/// The replacements by ascending start, those with the same start in their own order.
pub open spec fn sorted_patches(p: Seq<Patch>) -> Seq<Patch> {
    order::stable_order(patch_starts(p)).map_values(|i: int| p[i])
}

/// Where the text behind the first `n` replacements begins.
pub open spec fn patch_cursor(p: Seq<Patch>, n: int) -> int {
    if n <= 0 {
        0
    } else {
        p[n - 1].end_byte
    }
}

/// The text between two byte offsets, nothing if they do not ascend.
pub open spec fn kept_text(source: Seq<char>, a: int, b: int) -> Seq<char> {
    if a < b {
        text::byte_slice(source, a, b)
    } else {
        Seq::empty()
    }
}

/// The source up to and with the first `n` replacements: the text between them is kept, and
/// each replacement loses its trailing whitespace and ends in a line feed.
pub open spec fn spliced_upto(source: Seq<char>, p: Seq<Patch>, n: nat) -> Seq<char>
    decreases n,
{
    if n == 0 {
        Seq::empty()
    } else {
        spliced_upto(source, p, (n - 1) as nat) + kept_text(
            source,
            patch_cursor(p, n - 1),
            p[n - 1].start_byte,
        ) + text::trim_end(p[n - 1].text) + seq!['\n']
    }
}

/// The source with the replacements, which stand by ascending start.
pub open spec fn spliced(source: Seq<char>, p: Seq<Patch>) -> Seq<char> {
    spliced_upto(source, p, p.len()) + kept_text(
        source,
        patch_cursor(p, p.len() as int),
        encode_utf8(source).len() as int,
    )
}

/// Whether the text that is kept before replacement `k` can be taken.
pub open spec fn gap_cuttable(source: Seq<char>, p: Seq<Patch>, k: int) -> bool {
    text::cuttable(source, patch_cursor(p, k), p[k].start_byte)
}

/// Whether all the text that is kept between the replacements can be taken.
pub open spec fn spliceable(source: Seq<char>, p: Seq<Patch>) -> bool {
    &&& forall|k: int| 0 <= k < p.len() ==> #[trigger] gap_cuttable(source, p, k)
    &&& text::cuttable(source, patch_cursor(p, p.len() as int), encode_utf8(source).len() as int)
}

/// Takes the order in which replacements are spliced in.
fn splice_order(replacements: &[(CodeChunk, String)]) -> (order: Vec<usize>)
    ensures
        order::ints(order@) == order::stable_order(patch_starts(patches(replacements@))),
        order@.len() == replacements@.len(),
        sorted_patches(patches(replacements@)).len() == replacements@.len(),
        forall|n: int|
            0 <= n < order@.len() ==> (#[trigger] order@[n]) < replacements@.len()
                && sorted_patches(patches(replacements@))[n] == patch_of(
                replacements@[order@[n] as int],
            ),
{
    let ghost all = patches(replacements@);
    let mut keys: Vec<usize> = Vec::new();
    let mut i: usize = 0;
    while i < replacements.len()
        invariant
            i <= replacements@.len(),
            keys@.len() == i,
            forall|j: int| 0 <= j < i ==> keys@[j] == replacements@[j].0.start_byte,
        decreases replacements@.len() - i,
    {
        keys.push(replacements[i].0.start_byte);
        i += 1;
    }
    assert(order::ints(keys@) == patch_starts(all));
    let order = order::order_by(&keys);
    proof {
        let o = order::stable_order(patch_starts(all));
        order::lemma_stable_order(patch_starts(all));
        assert(order::ints(order@).len() == order@.len());
        assert forall|n: int| 0 <= n < order@.len() implies (#[trigger] order@[n])
            < replacements@.len() && sorted_patches(all)[n] == patch_of(
            replacements@[order@[n] as int],
        ) by {
            assert(o[n] == order@[n]);
        }
    }
    order
}

/// Whether the text between two byte offsets can be taken, if they ascend.
fn check_cut(source: &str, a: usize, b: usize) -> (r: bool)
    ensures
        r == text::cuttable(source@, a as int, b as int),
{
    a >= b || (source.is_char_boundary(a) && source.is_char_boundary(b))
}

/// Whether the replacements can be spliced into the source.
pub fn check_spliceable(source: &str, replacements: &[(CodeChunk, String)]) -> (r: bool)
    ensures
        r == spliceable(source@, sorted_patches(patches(replacements@))),
{
    let ghost p = sorted_patches(patches(replacements@));
    let order = splice_order(replacements);
    let mut cursor: usize = 0;
    let mut n: usize = 0;
    while n < order.len()
        invariant
            p == sorted_patches(patches(replacements@)),
            n <= order@.len() == p.len(),
            forall|k: int|
                0 <= k < order@.len() ==> (#[trigger] order@[k]) < replacements@.len() && p[k]
                    == patch_of(replacements@[order@[k] as int]),
            cursor == patch_cursor(p, n as int),
            forall|k: int| 0 <= k < n ==> #[trigger] gap_cuttable(source@, p, k),
        decreases order@.len() - n,
    {
        let chunk = &replacements[order[n]].0;
        assert(p[n as int] == patch_of(replacements@[order@[n as int] as int]));
        if !check_cut(source, cursor, chunk.start_byte) {
            assert(!gap_cuttable(source@, p, n as int));
            return false;
        }
        cursor = chunk.end_byte;
        n += 1;
    }
    check_cut(source, cursor, source.as_bytes().len())
}

/// Build the final source by splicing model-generated replacements into the
/// original source at matching byte ranges.
pub fn build_rewritten_source(source: &str, replacements: &[(CodeChunk, String)]) -> (r: String)
    requires
        spliceable(source@, sorted_patches(patches(replacements@))),
    ensures
        r@ == spliced(source@, sorted_patches(patches(replacements@))),
{
    let ghost p = sorted_patches(patches(replacements@));
    let order = splice_order(replacements);
    let mut output = String::new();
    let mut cursor: usize = 0;
    let mut n: usize = 0;
    while n < order.len()
        invariant
            p == sorted_patches(patches(replacements@)),
            spliceable(source@, p),
            n <= order@.len() == p.len(),
            forall|k: int|
                0 <= k < order@.len() ==> (#[trigger] order@[k]) < replacements@.len() && p[k]
                    == patch_of(replacements@[order@[k] as int]),
            cursor == patch_cursor(p, n as int),
            output@ == spliced_upto(source@, p, n as nat),
        decreases order@.len() - n,
    {
        let at = order[n];
        let chunk = &replacements[at].0;
        let replacement = replacements[at].1.as_str();
        assert(p[n as int] == patch_of(replacements@[at as int]));
        assert(gap_cuttable(source@, p, n as int));
        if cursor < chunk.start_byte {
            output.append(text::slice_bytes(source, cursor, chunk.start_byte));
        } else {
            assert(output@ + Seq::<char>::empty() == output@);
        }
        output.append(text::trimmed_end(replacement));
        output.push('\n');
        cursor = chunk.end_byte;
        n += 1;
    }
    let ghost done = output@;
    let len = source.as_bytes().len();
    if cursor < len {
        output.append(text::slice_bytes(source, cursor, len));
    } else {
        assert(done + Seq::<char>::empty() == done);
    }
    output
}

} // verus!
