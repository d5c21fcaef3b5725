//! What holds of every report.

use crate::chunker;
use crate::chunker::ChunkView;
use crate::report;
use crate::report::ItemView;
use crate::text;
use crate::text_laws;
use vstd::prelude::*;

verus! {

/// The first lines of a plain report: the file and the number of items.
pub open spec fn plain_head(file: Seq<char>, count: nat) -> Seq<char> {
    "Input file: "@ + file + "\n"@ + "Total processed chunks: "@ + text::decimal(count) + "\n\n"@
}

/// The first lines of a Markdown report: the title, the file and the number of items.
pub open spec fn markdown_head(file: Seq<char>, count: nat) -> Seq<char> {
    "# Paladin Code Analysis Report\n\n"@ + "Input file: `"@ + file + "`\n\n"@
        + "Total processed chunks: `"@ + text::decimal(count) + "`\n\n"@
}

/// The number of a chunk as reports show it: with at least three digits.
pub open spec fn shown_number(index: nat) -> Seq<char> {
    text::pad_front(text::decimal(index), 3, '0')
}

proof fn lemma_plain_prefix(items: Seq<ItemView>, more: Seq<ItemView>, n: nat)
    requires
        n <= items.len(),
        n <= more.len(),
        forall|k: int| 0 <= k < n ==> items[k] == more[k],
    ensures
        report::plain_sections(items, n) == report::plain_sections(more, n),
        report::markdown_sections(items, n) == report::markdown_sections(more, n),
    decreases n,
{
    if n > 0 {
        lemma_plain_prefix(items, more, (n - 1) as nat);
        assert(items[n - 1] == more[n - 1]);
    }
}

proof fn lemma_add_assoc(a: Seq<char>, b: Seq<char>, c: Seq<char>)
    ensures
        a + (b + c) == a + b + c,
{
    assert(a + (b + c) == a + b + c);
}

/// A plain report on one item more has the sections of the report without it and behind them,
/// written out, the number, the kind, the lines, the source preview and the response of that
/// item; a report on nothing has no section. So every item has its section, in the order of the
/// items, and each is counted.
pub proof fn law_plain_report_shows_every_item(
    file: Seq<char>,
    items: Seq<ItemView>,
    x: ItemView,
)
    ensures
        report::plain_text(file, Seq::empty()) == plain_head(file, 0),
        ({
            let without = report::plain_text(file, items);
            let with = report::plain_text(file, items.push(x));
            let sections = without.skip(plain_head(file, items.len()).len() as int);
            &&& without == plain_head(file, items.len()) + sections
            &&& with == plain_head(file, items.len() + 1) + sections + ("Chunk #"@ + shown_number(
                x.index,
            ) + " ["@ + x.kind + "] lines "@ + text::decimal(x.start_line) + "-"@ + text::decimal(
                x.end_line,
            ) + "\n"@ + "Source preview:\n"@ + x.source_preview + "\n\nModel response:\n"@
                + x.model_response + "\n\n"@)
        }),
{
    let n = items.len();
    let more = items.push(x);
    lemma_plain_prefix(items, more, n);
    let head = plain_head(file, n);
    let sections = report::plain_sections(items, n);
    assert(report::plain_text(file, Seq::empty()) == plain_head(file, 0));
    assert(report::plain_text(file, items) == head + sections);
    assert(report::plain_text(file, items).skip(head.len() as int) == sections);
    assert(more[n as int] == x);
    assert(report::plain_sections(more, n + 1) == sections + report::plain_section(x));
    assert(report::plain_text(file, more) == plain_head(file, n + 1) + (sections
        + report::plain_section(x)));
    lemma_add_assoc(plain_head(file, n + 1), sections, report::plain_section(x));
}

/// The same of a Markdown report.
pub proof fn law_markdown_report_shows_every_item(
    file: Seq<char>,
    items: Seq<ItemView>,
    x: ItemView,
)
    ensures
        report::markdown_text(file, Seq::empty()) == markdown_head(file, 0),
        ({
            let without = report::markdown_text(file, items);
            let with = report::markdown_text(file, items.push(x));
            let sections = without.skip(markdown_head(file, items.len()).len() as int);
            &&& without == markdown_head(file, items.len()) + sections
            &&& with == markdown_head(file, items.len() + 1) + sections + ("## Chunk #"@
                + shown_number(x.index) + " — `"@ + x.kind + "` lines "@ + text::decimal(
                x.start_line,
            ) + "-"@ + text::decimal(x.end_line) + "\n\n"@ + "### Source preview\n\n"@
                + "```rust\n"@ + x.source_preview + "\n```\n\n"@ + "### Model response\n\n"@
                + x.model_response + "\n\n---\n\n"@)
        }),
{
    let n = items.len();
    let more = items.push(x);
    lemma_plain_prefix(items, more, n);
    let head = markdown_head(file, n);
    let sections = report::markdown_sections(items, n);
    assert(report::markdown_text(file, Seq::empty()) == markdown_head(file, 0));
    assert(report::markdown_text(file, items) == head + sections);
    assert(report::markdown_text(file, items).skip(head.len() as int) == sections);
    assert(more[n as int] == x);
    assert(report::markdown_sections(more, n + 1) == sections + report::markdown_section(x));
    assert(report::markdown_text(file, more) == markdown_head(file, n + 1) + (sections
        + report::markdown_section(x)));
    lemma_add_assoc(markdown_head(file, n + 1), sections, report::markdown_section(x));
}

/// An item shows the number, kind and lines of its chunk, the first 24 lines of its text, and the
/// response whole.
pub proof fn law_items_describe_their_chunk(chunk: ChunkView, response: Seq<char>)
    requires
        chunk.index >= 0,
        chunk.start_line >= 0,
        chunk.end_line >= 0,
    ensures
        ({
            let i = report::item_of(chunk, response);
            &&& i.index == chunk.index
            &&& i.kind == chunk.kind.label()
            &&& i.start_line == chunk.start_line
            &&& i.end_line == chunk.end_line
            &&& i.source_preview == chunker::preview_of(chunk.text, 24)
            &&& i.model_response == response
        }),
{
}

/// A preview has the lines of the text up to the number asked for, a line feed between them:
/// the first line, and behind it the preview of the rest.
pub proof fn law_previews_show_the_first_lines(line: Seq<char>, rest: Seq<char>, n: nat)
    requires
        forall|i: int| 0 <= i < line.len() ==> #[trigger] line[i] != '\n',
        line.len() > 0 ==> line.last() != '\r',
    ensures
        chunker::preview_of(line + seq!['\n'] + rest, 0) == Seq::<char>::empty(),
        chunker::preview_of(line, n + 1) == line,
        chunker::preview_of(line + seq!['\n'] + rest, n + 1) == if n == 0 || rest.len() == 0 {
            line
        } else {
            line + seq!['\n'] + chunker::preview_of(rest, n)
        },
        chunker::preview_of(line + seq!['\r', '\n'] + rest, n) == chunker::preview_of(
            line + seq!['\n'] + rest,
            n,
        ),
{
    reveal_strlit("\n");
    assert("\n"@ == seq!['\n']);
    text_laws::law_lines_end_at_line_feeds(line, rest);
    let s = line + seq!['\n'] + rest;
    let all = text::lines(s);
    let others = text::lines(rest);
    assert(all == seq![line] + others);
    assert(all.take(0) == Seq::<Seq<char>>::empty());
    if line.len() > 0 {
        assert(text::lines(line).take(1) == seq![line]);
    } else {
        assert(text::lines(line).take(0) == Seq::<Seq<char>>::empty());
    }
    if rest.len() == 0 {
        assert(others == Seq::<Seq<char>>::empty());
        assert(all.take(1) == seq![line]);
    } else {
        text::lemma_first_newline(rest);
        assert(others.len() > 0);
        if n == 0 {
            assert(all.take(1) == seq![line]);
        } else {
            let m = if n < others.len() {
                n
            } else {
                others.len()
            };
            assert(all.take((m + 1) as int) == seq![line] + others.take(m as int));
            text_laws::law_join_puts_separators_between(
                seq![line],
                others.take(m as int),
                line,
                "\n"@,
            );
        }
    }
}

/// The listing of a chunk shows its number, kind, lines, number of characters and byte range.
pub proof fn law_listing_shows_the_boundaries(c: ChunkView)
    ensures
        report::boundary_line(c) == "  #"@ + shown_number(c.index as nat) + " "@ + c.kind.label()
            + " lines "@ + text::decimal(c.start_line as nat) + "-"@ + text::decimal(
            c.end_line as nat,
        ) + " chars="@ + text::decimal(c.text.len()) + " bytes="@ + text::decimal(
            c.start_byte as nat,
        ) + ".."@ + text::decimal(c.end_byte as nat),
{
}

} // verus!
