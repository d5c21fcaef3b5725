//! Reports on the answers of the model.

use crate::chunker::CodeChunk;
use crate::chunker;
use crate::text;
use vstd::prelude::*;

verus! {

/// The answer of the model to one chunk.
#[derive(Debug)]
pub struct AnalysisItem {
    pub index: usize,
    pub kind: String,
    pub start_line: usize,
    pub end_line: usize,
    pub source_preview: String,
    pub model_response: String,
}

/// What an `AnalysisItem` holds, as mathematical values.
pub struct ItemView {
    pub index: nat,
    pub kind: Seq<char>,
    pub start_line: nat,
    pub end_line: nat,
    pub source_preview: Seq<char>,
    pub model_response: Seq<char>,
}

impl View for AnalysisItem {
    type V = ItemView;

    open spec fn view(&self) -> ItemView {
        ItemView {
            index: self.index as nat,
            kind: self.kind@,
            start_line: self.start_line as nat,
            end_line: self.end_line as nat,
            source_preview: self.source_preview@,
            model_response: self.model_response@,
        }
    }
}

impl Clone for AnalysisItem {
    fn clone(&self) -> (r: Self)
        ensures
            r@ == self@,
    {
        AnalysisItem {
            index: self.index,
            kind: self.kind.clone(),
            start_line: self.start_line,
            end_line: self.end_line,
            source_preview: self.source_preview.clone(),
            model_response: self.model_response.clone(),
        }
    }
}

/// What each item of a list holds.
pub open spec fn item_views(items: Seq<AnalysisItem>) -> Seq<ItemView> {
    items.map_values(|i: AnalysisItem| i@)
}

/// Number of source lines that an item shows.
pub const PREVIEW_LINES: usize = 24;

/// The item for a chunk and the answer to it.
pub open spec fn item_of(chunk: chunker::ChunkView, response: Seq<char>) -> ItemView {
    ItemView {
        index: chunk.index as nat,
        kind: chunk.kind.label(),
        start_line: chunk.start_line as nat,
        end_line: chunk.end_line as nat,
        source_preview: chunker::preview_of(chunk.text, PREVIEW_LINES as nat),
        model_response: response,
    }
}

impl AnalysisItem {
    /// The item for a chunk and the answer to it.
    pub fn new(chunk: &CodeChunk, response: String) -> (r: Self)
        ensures
            r@ == item_of(chunk@, response@),
    {
        AnalysisItem {
            index: chunk.index,
            kind: chunk.kind.as_str().to_owned(),
            start_line: chunk.start_line,
            end_line: chunk.end_line,
            source_preview: chunk.preview(PREVIEW_LINES),
            model_response: response,
        }
    }
}

/// The section of the Markdown report on one item.
pub open spec fn markdown_section(item: ItemView) -> Seq<char> {
    "## Chunk #"@ + text::pad_front(text::decimal(item.index), 3, '0') + " — `"@ + item.kind
        + "` lines "@ + text::decimal(item.start_line) + "-"@ + text::decimal(item.end_line)
        + "\n\n"@ + "### Source preview\n\n"@ + "```rust\n"@ + item.source_preview + "\n```\n\n"@
        + "### Model response\n\n"@ + item.model_response + "\n\n---\n\n"@
}

/// The sections of the first `n` items.
pub open spec fn markdown_sections(items: Seq<ItemView>, n: nat) -> Seq<char>
    decreases n,
{
    if n == 0 {
        Seq::empty()
    } else {
        markdown_sections(items, (n - 1) as nat) + markdown_section(items[n - 1])
    }
}

/// The Markdown report on a file.
pub open spec fn markdown_text(input_file: Seq<char>, items: Seq<ItemView>) -> Seq<char> {
    "# Paladin Code Analysis Report\n\n"@ + "Input file: `"@ + input_file + "`\n\n"@
        + "Total processed chunks: `"@ + text::decimal(items.len()) + "`\n\n"@ + markdown_sections(
        items,
        items.len(),
    )
}

/// The section of the plain report on one item.
pub open spec fn plain_section(item: ItemView) -> Seq<char> {
    "Chunk #"@ + text::pad_front(text::decimal(item.index), 3, '0') + " ["@ + item.kind
        + "] lines "@ + text::decimal(item.start_line) + "-"@ + text::decimal(item.end_line)
        + "\n"@ + "Source preview:\n"@ + item.source_preview + "\n\nModel response:\n"@
        + item.model_response + "\n\n"@
}

/// The sections of the first `n` items.
pub open spec fn plain_sections(items: Seq<ItemView>, n: nat) -> Seq<char>
    decreases n,
{
    if n == 0 {
        Seq::empty()
    } else {
        plain_sections(items, (n - 1) as nat) + plain_section(items[n - 1])
    }
}

/// The plain report on a file.
pub open spec fn plain_text(input_file: Seq<char>, items: Seq<ItemView>) -> Seq<char> {
    "Input file: "@ + input_file + "\n"@ + "Total processed chunks: "@ + text::decimal(items.len())
        + "\n\n"@ + plain_sections(items, items.len())
}

/// Writes the section of the Markdown report on one item.
fn write_markdown_section(item: &AnalysisItem) -> (r: String)
    ensures
        r@ == markdown_section(item@),
{
    let mut r = String::new();
    r.append("## Chunk #");
    assert(r@ == "## Chunk #"@);
    r.append(text::padded_decimal(item.index, 3).as_str());
    r.append(" — `");
    r.append(item.kind.as_str());
    r.append("` lines ");
    text::push_decimal(&mut r, item.start_line);
    r.append("-");
    text::push_decimal(&mut r, item.end_line);
    r.append("\n\n");
    r.append("### Source preview\n\n");
    r.append("```rust\n");
    r.append(item.source_preview.as_str());
    r.append("\n```\n\n");
    r.append("### Model response\n\n");
    r.append(item.model_response.as_str());
    r.append("\n\n---\n\n");
    r
}

/// Writes the section of the plain report on one item.
fn write_plain_section(item: &AnalysisItem) -> (r: String)
    ensures
        r@ == plain_section(item@),
{
    let mut r = String::new();
    r.append("Chunk #");
    assert(r@ == "Chunk #"@);
    r.append(text::padded_decimal(item.index, 3).as_str());
    r.append(" [");
    r.append(item.kind.as_str());
    r.append("] lines ");
    text::push_decimal(&mut r, item.start_line);
    r.append("-");
    text::push_decimal(&mut r, item.end_line);
    r.append("\n");
    r.append("Source preview:\n");
    r.append(item.source_preview.as_str());
    r.append("\n\nModel response:\n");
    r.append(item.model_response.as_str());
    r.append("\n\n");
    r
}

/// The Markdown report on a file.
pub fn render_markdown_report(input_file: &str, items: &[AnalysisItem]) -> (r: String)
    ensures
        r@ == markdown_text(input_file@, item_views(items@)),
{
    let ghost views = item_views(items@);
    let mut r = String::new();
    r.append("# Paladin Code Analysis Report\n\n");
    assert(r@ == "# Paladin Code Analysis Report\n\n"@);
    r.append("Input file: `");
    r.append(input_file);
    r.append("`\n\n");
    r.append("Total processed chunks: `");
    text::push_decimal(&mut r, items.len());
    r.append("`\n\n");
    let ghost head = r@;
    let mut n: usize = 0;
    assert(r@ == head + markdown_sections(views, 0));
    while n < items.len()
        invariant
            views == item_views(items@),
            n <= items@.len(),
            r@ == head + markdown_sections(views, n as nat),
        decreases items@.len() - n,
    {
        let section = write_markdown_section(&items[n]);
        assert(views[n as int] == items@[n as int]@);
        r.append(section.as_str());
        n += 1;
        assert(r@ == head + markdown_sections(views, n as nat));
    }
    r
}

/// The plain report on a file.
pub fn format_analysis_output(input_file: &str, items: &[AnalysisItem]) -> (r: String)
    ensures
        r@ == plain_text(input_file@, item_views(items@)),
{
    let ghost views = item_views(items@);
    let mut r = String::new();
    r.append("Input file: ");
    assert(r@ == "Input file: "@);
    r.append(input_file);
    r.append("\n");
    r.append("Total processed chunks: ");
    text::push_decimal(&mut r, items.len());
    r.append("\n\n");
    let ghost head = r@;
    let mut n: usize = 0;
    assert(r@ == head + plain_sections(views, 0));
    while n < items.len()
        invariant
            views == item_views(items@),
            n <= items@.len(),
            r@ == head + plain_sections(views, n as nat),
        decreases items@.len() - n,
    {
        let section = write_plain_section(&items[n]);
        assert(views[n as int] == items@[n as int]@);
        r.append(section.as_str());
        n += 1;
        assert(r@ == head + plain_sections(views, n as nat));
    }
    r
}

/// The listing of a chunk's boundaries.
pub open spec fn boundary_line(chunk: chunker::ChunkView) -> Seq<char> {
    "  #"@ + text::pad_front(text::decimal(chunk.index as nat), 3, '0') + " "@
        + chunk.kind.label() + " lines "@ + text::decimal(chunk.start_line as nat) + "-"@
        + text::decimal(chunk.end_line as nat) + " chars="@ + text::decimal(chunk.text.len())
        + " bytes="@ + text::decimal(chunk.start_byte as nat) + ".."@ + text::decimal(
        chunk.end_byte as nat,
    )
}

/// The line on which a dry run lists the boundaries of a chunk.
pub fn format_boundary_line(chunk: &CodeChunk) -> (r: String)
    ensures
        r@ == boundary_line(chunk@),
{
    let mut r = String::new();
    r.append("  #");
    assert(r@ == "  #"@);
    r.append(text::padded_decimal(chunk.index, 3).as_str());
    r.append(" ");
    r.append(chunk.kind.as_str());
    r.append(" lines ");
    text::push_decimal(&mut r, chunk.start_line);
    r.append("-");
    text::push_decimal(&mut r, chunk.end_line);
    r.append(" chars=");
    text::push_decimal(&mut r, chunk.text.as_str().unicode_len());
    r.append(" bytes=");
    text::push_decimal(&mut r, chunk.start_byte);
    r.append("..");
    text::push_decimal(&mut r, chunk.end_byte);
    r
}

} // verus!
