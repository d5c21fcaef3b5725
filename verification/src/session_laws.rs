//! What holds of every run from its chunks to the rewritten source.

use crate::chunk_laws;
use crate::chunker;
use crate::chunker::{ChunkConfig, ChunkView};
use crate::cli::{Cli, Mode};
use crate::rewrite;
use crate::rewrite::{Patch, ValidationError};
use crate::rewrite_laws;
use crate::runlog::Elapsed;
use crate::session;
use crate::session::{ChunkResult, Session, SessionView, VerdictView};
use crate::syntax;
use crate::syntax::NodeView;
use crate::text;
use vstd::prelude::*;
use vstd::utf8::*;

verus! {

/// The replacements of a run, as ranges and texts.
pub open spec fn run_patches(r: Seq<(ChunkView, Seq<char>)>) -> Seq<Patch> {
    r.map_values(
        |x: (ChunkView, Seq<char>)|
            Patch { start_byte: x.0.start_byte, end_byte: x.0.end_byte, text: x.1 },
    )
}

/// The replacements that are spliced into the source are those that the run has recorded.
pub proof fn law_recorded_replacements_are_spliced(s: Session)
    ensures
        rewrite::patches(s.replacements@) == run_patches(s@.replacements),
{
    assert(rewrite::patches(s.replacements@) == run_patches(s@.replacements));
}

/// Whether the replacements are for some of the first `n` chunks, at most one for each, in the
/// order of the chunks.
pub open spec fn in_chunk_order(
    r: Seq<(ChunkView, Seq<char>)>,
    chunks: Seq<ChunkView>,
    n: int,
) -> bool {
    &&& forall|k: int|
        0 <= k < r.len() ==> {
            &&& 1 <= (#[trigger] r[k]).0.index <= n
            &&& r[k].0 == chunks[r[k].0.index - 1]
        }
    &&& forall|a: int, b: int|
        0 <= a < b < r.len() ==> (#[trigger] r[a]).0.index < (#[trigger] r[b]).0.index
}

/// A run that takes the chunks in order keeps its replacements in that order, whether it
/// records chunk `n` (from 0) or passes it over.
pub proof fn law_replacements_stay_in_order(
    s: SessionView,
    mode: Mode,
    chunks: Seq<ChunkView>,
    n: int,
    result: ChunkResult,
    duration: Elapsed,
)
    requires
        0 <= n < chunks.len(),
        chunks[n].index == n + 1,
        in_chunk_order(s.replacements, chunks, n),
    ensures
        in_chunk_order(
            session::session_after(s, mode, chunks[n], result, duration).replacements,
            chunks,
            n + 1,
        ),
        in_chunk_order(s.replacements, chunks, n + 1),
{
}

/// Replacements for the chunks of a source, in their order, can be spliced into it, and in
/// that order. If each differs from its chunk in nothing but whitespace, then so does the
/// result from the source.
pub proof fn law_runs_can_be_rewritten(
    source: Seq<char>,
    config: ChunkConfig,
    t: Seq<NodeView>,
    r: Seq<(ChunkView, Seq<char>)>,
)
    requires
        syntax::is_syntax_tree(source, t),
        in_chunk_order(
            r,
            chunker::chunks_of(source, config, t),
            chunker::chunks_of(source, config, t).len() as int,
        ),
    ensures
        rewrite::sorted_patches(run_patches(r)) == run_patches(r),
        rewrite::spliceable(source, run_patches(r)),
        rewrite_laws::patches_in_order(source, run_patches(r)),
        (forall|k: int|
            0 <= k < r.len() ==> rewrite_laws::visible((#[trigger] r[k]).1)
                == rewrite_laws::visible(r[k].0.text)) ==> rewrite_laws::visible(
            rewrite::spliced(source, run_patches(r)),
        ) == rewrite_laws::visible(source),
{
    let s = chunker::chunk_spans(source, config, t);
    let p = run_patches(r);
    chunk_laws::law_chunks_partition_source(source, config, t);
    assert forall|k: int| 0 <= k < p.len() implies {
        &&& (#[trigger] p[k]).start_byte <= p[k].end_byte
        &&& text::boundary(source, p[k].start_byte)
        &&& text::boundary(source, p[k].end_byte)
    } by {
        assert(r[k].0.index >= 1);
        assert(chunker::in_text(source, s[r[k].0.index - 1]));
    }
    assert forall|a: int, b: int| 0 <= a < b < p.len() implies (#[trigger] p[a]).end_byte <= (
    #[trigger] p[b]).start_byte by {
        assert(r[a].0.index < r[b].0.index);
        assert(s[r[a].0.index - 1].end_byte <= s[r[b].0.index - 1].start_byte);
    }
    rewrite_laws::lemma_in_order_spliceable(source, p);
    if forall|k: int|
        0 <= k < r.len() ==> rewrite_laws::visible((#[trigger] r[k]).1) == rewrite_laws::visible(
            r[k].0.text,
        ) {
        assert forall|k: int| 0 <= k < p.len() implies rewrite_laws::visible(
            (#[trigger] p[k]).text,
        ) == rewrite_laws::visible(
            text::byte_slice(source, p[k].start_byte, p[k].end_byte),
        ) by {
            assert(rewrite_laws::visible(r[k].1) == rewrite_laws::visible(r[k].0.text));
        }
        rewrite_laws::law_code_is_kept(source, p);
    }
}

/// Number of replacements for chunks with a number below `index`, among the first `n`.
spec fn below(r: Seq<(ChunkView, Seq<char>)>, index: int, n: nat) -> int
    decreases n,
{
    if n == 0 || r[n - 1].0.index < index {
        n as int
    } else {
        below(r, index, (n - 1) as nat)
    }
}

proof fn lemma_below(r: Seq<(ChunkView, Seq<char>)>, index: int, n: nat)
    requires
        n <= r.len(),
        n < r.len() ==> r[n as int].0.index >= index,
    ensures
        0 <= below(r, index, n) <= n,
        below(r, index, n) > 0 ==> r[below(r, index, n) - 1].0.index < index,
        below(r, index, n) < r.len() ==> r[below(r, index, n)].0.index >= index,
    decreases n,
{
    if n > 0 && r[n - 1].0.index >= index {
        lemma_below(r, index, (n - 1) as nat);
    }
}

/// A chunk without a replacement, such as one whose answer was refused, stands unchanged in
/// the rewritten source.
pub proof fn law_other_chunks_are_kept(
    source: Seq<char>,
    config: ChunkConfig,
    t: Seq<NodeView>,
    r: Seq<(ChunkView, Seq<char>)>,
    i: int,
)
    requires
        syntax::is_syntax_tree(source, t),
        in_chunk_order(
            r,
            chunker::chunks_of(source, config, t),
            chunker::chunks_of(source, config, t).len() as int,
        ),
        0 <= i < chunker::chunks_of(source, config, t).len(),
        forall|k: int| 0 <= k < r.len() ==> (#[trigger] r[k]).0.index != i + 1,
    ensures
        text::occurs(
            rewrite::spliced(source, run_patches(r)),
            chunker::chunks_of(source, config, t)[i].text,
        ),
{
    let s = chunker::chunk_spans(source, config, t);
    let p = run_patches(r);
    let n = below(r, i + 1, r.len());
    let c = s[i];
    chunk_laws::law_chunks_partition_source(source, config, t);
    law_runs_can_be_rewritten(source, config, t, r);
    lemma_below(r, i + 1, r.len());
    assert(chunker::in_text(source, c));
    encode_utf8_valid_utf8(source);
    text::lemma_boundary_range(encode_utf8(source), c.start_byte);
    text::lemma_boundary_range(encode_utf8(source), c.end_byte);
    if n > 0 {
        assert(r[n - 1].0.index < i + 1);
        assert(s[r[n - 1].0.index - 1].end_byte <= c.start_byte);
        assert(p[n - 1].end_byte == s[r[n - 1].0.index - 1].end_byte);
    }
    if n < r.len() {
        assert(r[n].0.index != i + 1);
        assert(c.end_byte <= s[r[n].0.index - 1].start_byte);
        assert(p[n].start_byte == s[r[n].0.index - 1].start_byte);
    }
    rewrite_laws::law_other_text_is_kept(source, p, n, c.start_byte, c.end_byte);
}

/// Every chunk leaves a status with its number and duration behind those of the chunks before.
/// Without a response it is a failure with the message about that; with code that was asked for
/// and refused, a failure that says why. In both cases nothing else is recorded. Any other
/// response is a success: it is recorded for the report, whole, and as a replacement for its
/// chunk if code was asked for.
pub proof fn law_every_chunk_is_recorded(
    s: SessionView,
    mode: Mode,
    chunk: ChunkView,
    response: Result<Seq<char>, Seq<char>>,
    validation: Result<(), ValidationError>,
    duration: Elapsed,
)
    requires
        chunk.index >= 0,
    ensures
        ({
            let r = session::session_after(
                s,
                mode,
                chunk,
                session::chunk_result(mode, response, validation),
                duration,
            );
            let last = r.log.chunks.last();
            let refused = mode != Mode::Analyze && validation is Err;
            &&& r.log.chunks.len() == s.log.chunks.len() + 1
            &&& r.log.chunks.drop_last() == s.log.chunks
            &&& last.index == chunk.index
            &&& last.duration == duration
            &&& response matches Err(message) ==> {
                &&& last.status == "failed"@
                &&& last.error == Some(message)
                &&& r.items == s.items
                &&& r.replacements == s.replacements
            }
            &&& response is Ok && refused ==> {
                &&& last.status == "failed"@
                &&& last.error == Some(
                    "generated chunk failed validation: "@ + validation->Err_0.text(),
                )
                &&& r.items == s.items
                &&& r.replacements == s.replacements
            }
            &&& response matches Ok(answer) ==> !refused ==> {
                &&& last.status == "ok"@
                &&& last.error is None
                &&& r.items.len() == s.items.len() + 1
                &&& r.items.drop_last() == s.items
                &&& r.items.last().index == chunk.index
                &&& r.items.last().model_response == answer
                &&& mode != Mode::Analyze ==> r.replacements == s.replacements.push((chunk, answer))
                &&& mode == Mode::Analyze ==> r.replacements == s.replacements
            }
        }),
{
    let r = session::session_after(
        s,
        mode,
        chunk,
        session::chunk_result(mode, response, validation),
        duration,
    );
    assert(r.log.chunks.drop_last() == s.log.chunks);
    if response is Ok && !(mode != Mode::Analyze && validation is Err) {
        assert(r.items.drop_last() == s.items);
    }
}

/// A run goes on after a success, and after a failure if failures are skipped. Otherwise it stops
/// and says at which chunk: after a missing response with the log saved, after a refused one with
/// the reason.
pub proof fn law_verdicts(
    skip_failed: bool,
    mode: Mode,
    index: nat,
    response: Result<Seq<char>, Seq<char>>,
    validation: Result<(), ValidationError>,
)
    ensures
        ({
            let v = session::verdict_after(
                skip_failed,
                index as int,
                session::chunk_result(mode, response, validation),
            );
            let refused = mode != Mode::Analyze && validation is Err;
            &&& skip_failed || (response is Ok && !refused) ==> v == VerdictView::Continue
            &&& !skip_failed && response is Err ==> v == (VerdictView::Stop {
                message: "stopped because chunk #"@ + text::decimal(index)
                    + " failed. Use --skip-failed to continue."@,
                save_log: true,
            })
            &&& !skip_failed && response is Ok && refused ==> v == (VerdictView::Stop {
                message: "chunk #"@ + text::decimal(index) + ": "@ + (
                "generated chunk failed validation: "@ + validation->Err_0.text()),
                save_log: false,
            })
        }),
{
}

/// Code that was asked for is judged by the checks on its text and by its parse, against the text
/// of its chunk; a report needs no check.
pub proof fn law_only_code_is_validated(
    mode: Mode,
    chunk: ChunkView,
    answer: Seq<char>,
    message: Seq<char>,
    parsed: Result<Option<Seq<NodeView>>, ()>,
)
    ensures
        mode != Mode::Analyze ==> session::validation_for(mode, chunk, Ok(answer), parsed)
            == rewrite::validation_outcome(answer, chunk.text, parsed),
        mode == Mode::Analyze ==> session::validation_for(mode, chunk, Ok(answer), parsed) is Ok,
        session::validation_for(mode, chunk, Err(message), parsed) is Ok,
{
}

/// What is recorded is what became of the chunk, and the verdict is the one on it. The parser is
/// needed exactly for code that was asked for and passes the checks on its text.
pub proof fn law_records_are_exact(
    before: SessionView,
    after: SessionView,
    cli: Cli,
    chunk: ChunkView,
    result: ChunkResult,
    duration: Elapsed,
    verdict: VerdictView,
    response: Result<Seq<char>, Seq<char>>,
)
    ensures
        session::is_recorded(before, after, cli, chunk, result, duration, verdict) ==> after
            == session::session_after(before, cli.mode, chunk, result, duration) && verdict
            == session::verdict_after(cli.skip_failed, chunk.index, result),
        session::needs_parse(cli.mode, chunk, response) <==> cli.mode != Mode::Analyze && (
        response matches Ok(answer) && rewrite::text_outcome(answer, chunk.text) is Ok),
{
}

} // verus!
