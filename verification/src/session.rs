//! The state of a run over the chunks of a file: the log, the answers and the replacements.

use crate::chunker::{ChunkView, CodeChunk};
use crate::cli;
use crate::cli::{Cli, Mode};
use crate::report;
use crate::report::{AnalysisItem, ItemView};
use crate::rewrite;
use crate::rewrite::ValidationError;
use crate::runlog;
use crate::runlog::{ChunkRunStatus, Elapsed, LogView, RunLog, StatusView, Timestamp};
use crate::syntax;
use crate::syntax::NodeView;
use crate::text;
use vstd::prelude::*;
use vstd::utf8::*;

verus! {

/// What a run has produced so far.
#[derive(Debug)]
pub struct Session {
    pub log: RunLog,
    pub items: Vec<AnalysisItem>,
    pub replacements: Vec<(CodeChunk, String)>,
}

/// A replacement by what it holds.
pub open spec fn replacement_view(r: (CodeChunk, String)) -> (ChunkView, Seq<char>) {
    (r.0@, r.1@)
}

/// What a `Session` holds, as mathematical values.
pub struct SessionView {
    pub log: LogView,
    pub items: Seq<ItemView>,
    pub replacements: Seq<(ChunkView, Seq<char>)>,
}

impl View for Session {
    type V = SessionView;

    open spec fn view(&self) -> SessionView {
        SessionView {
            log: self.log@,
            items: report::item_views(self.items@),
            replacements: self.replacements@.map_values(
                |r: (CodeChunk, String)| replacement_view(r),
            ),
        }
    }
}

/// Whether the run goes on.
#[derive(Debug)]
pub enum Verdict {
    /// The next chunk follows.
    Continue,
    /// The run stops with a message; `save_log` says whether the log is written before.
    Stop { message: String, save_log: bool },
}

/// What a `Verdict` holds, as mathematical values.
pub enum VerdictView {
    Continue,
    Stop { message: Seq<char>, save_log: bool },
}

impl View for Verdict {
    type V = VerdictView;

    open spec fn view(&self) -> VerdictView {
        match *self {
            Verdict::Continue => VerdictView::Continue,
            Verdict::Stop { message, save_log } => VerdictView::Stop { message: message@, save_log },
        }
    }
}

/// What became of a chunk.
pub enum ChunkResult {
    /// No response was obtained.
    NoResponse(Seq<char>),
    /// The response may not replace the chunk.
    Refused(ValidationError),
    /// The response is used.
    Used(Seq<char>),
}

/// What becomes of a chunk, given the response and whether it may replace the chunk.
pub open spec fn chunk_result(
    mode: Mode,
    response: Result<Seq<char>, Seq<char>>,
    validation: Result<(), ValidationError>,
) -> ChunkResult {
    match response {
        Err(message) => ChunkResult::NoResponse(message),
        Ok(answer) => if cli::asks_for_code(mode) && validation is Err {
            ChunkResult::Refused(validation->Err_0)
        } else {
            ChunkResult::Used(answer)
        },
    }
}

/// The message about a refused response.
pub open spec fn refusal_text(e: ValidationError) -> Seq<char> {
    "generated chunk failed validation: "@ + e.text()
}

/// The status that is logged for a chunk.
pub open spec fn status_for(chunk: ChunkView, result: ChunkResult, duration: Elapsed) -> StatusView {
    match result {
        ChunkResult::NoResponse(message) => runlog::failed_status(chunk, message, duration),
        ChunkResult::Refused(e) => runlog::failed_status(chunk, refusal_text(e), duration),
        ChunkResult::Used(_) => runlog::ok_status(chunk, duration),
    }
}

/// What a run has produced after one more chunk: a status in any case, and for a response
/// that is used an item and, if code was asked for, a replacement.
pub open spec fn session_after(
    s: SessionView,
    mode: Mode,
    chunk: ChunkView,
    result: ChunkResult,
    duration: Elapsed,
) -> SessionView {
    SessionView {
        log: runlog::log_with(s.log, status_for(chunk, result, duration)),
        items: match result {
            ChunkResult::Used(answer) => s.items.push(report::item_of(chunk, answer)),
            _ => s.items,
        },
        replacements: match result {
            ChunkResult::Used(answer) if cli::asks_for_code(mode) => s.replacements.push(
                (chunk, answer),
            ),
            _ => s.replacements,
        },
    }
}

/// Whether the run goes on after a chunk: a failure stops it unless failures are skipped.
pub open spec fn verdict_after(skip_failed: bool, index: int, result: ChunkResult) -> VerdictView {
    if skip_failed {
        VerdictView::Continue
    } else {
        match result {
            ChunkResult::NoResponse(_) => VerdictView::Stop {
                message: "stopped because chunk #"@ + text::decimal(index as nat)
                    + " failed. Use --skip-failed to continue."@,
                save_log: true,
            },
            ChunkResult::Refused(e) => VerdictView::Stop {
                message: "chunk #"@ + text::decimal(index as nat) + ": "@ + refusal_text(e),
                save_log: false,
            },
            ChunkResult::Used(_) => VerdictView::Continue,
        }
    }
}

/// Whether what a run has produced fits together: the counts are those of the statuses, there
/// is an item for each success, and a replacement for each item if code was asked for.
pub open spec fn is_consistent(s: SessionView, mode: Mode) -> bool {
    &&& runlog::is_counted(s.log)
    &&& s.items.len() == s.log.chunks_ok
    &&& s.replacements.len() == if cli::asks_for_code(mode) {
        s.items.len()
    } else {
        0
    }
}

/// Every chunk that is recorded keeps what a run has produced consistent.
pub proof fn law_runs_stay_consistent(
    s: SessionView,
    mode: Mode,
    chunk: ChunkView,
    result: ChunkResult,
    duration: Elapsed,
)
    requires
        is_consistent(s, mode),
    ensures
        is_consistent(session_after(s, mode, chunk, result, duration), mode),
{
    let status = status_for(chunk, result, duration);
    runlog::law_counts_follow_statuses(s.log, status);
    match result {
        ChunkResult::NoResponse(message) => {
            runlog::law_statuses_differ(chunk, message, duration);
        },
        ChunkResult::Refused(e) => {
            runlog::law_statuses_differ(chunk, refusal_text(e), duration);
        },
        ChunkResult::Used(_) => {},
    }
}

/// Only a response that passed validation replaces code, and only if code was asked for.
pub proof fn law_replacements_are_validated(
    s: SessionView,
    mode: Mode,
    chunk: ChunkView,
    response: Result<Seq<char>, Seq<char>>,
    validation: Result<(), ValidationError>,
    duration: Elapsed,
)
    ensures
        ({
            let result = chunk_result(mode, response, validation);
            let after = session_after(s, mode, chunk, result, duration);
            after.replacements != s.replacements ==> {
                &&& cli::asks_for_code(mode)
                &&& validation is Ok
                &&& response is Ok
                &&& after.replacements == s.replacements.push((chunk, response->Ok_0))
            }
        }),
{
}

/// A failed chunk stops the run exactly if failures are not skipped.
pub proof fn law_failures_stop_unless_skipped(skip_failed: bool, index: int, result: ChunkResult)
    ensures
        verdict_after(skip_failed, index, result) == VerdictView::Continue <==> (skip_failed
            || result is Used),
{
}

/// A response or the message about its failure, by what it holds.
pub open spec fn response_view(r: Result<String, String>) -> Result<Seq<char>, Seq<char>> {
    match r {
        Ok(s) => Ok(s@),
        Err(s) => Err(s@),
    }
}

/// What the validation of a response says, given what the parser makes of it; a response that
/// was not obtained or that is not code needs none.
pub open spec fn validation_for(
    mode: Mode,
    chunk: ChunkView,
    response: Result<Seq<char>, Seq<char>>,
    parsed: Result<Option<Seq<NodeView>>, ()>,
) -> Result<(), ValidationError> {
    match response {
        Ok(answer) if cli::asks_for_code(mode) => rewrite::validation_outcome(
            answer,
            chunk.text,
            parsed,
        ),
        _ => Ok(()),
    }
}

/// Whether it takes the parser to say what becomes of a response: it is code that passes the
/// checks on its text.
pub open spec fn needs_parse(
    mode: Mode,
    chunk: ChunkView,
    response: Result<Seq<char>, Seq<char>>,
) -> bool {
    &&& response is Ok
    &&& cli::asks_for_code(mode)
    &&& rewrite::text_outcome(response->Ok_0, chunk.text) is Ok
}

/// A response that replaces code has passed the checks on its text, and what the parser made of
/// it is a tree without errors.
pub proof fn law_replacements_parse_without_errors(
    s: SessionView,
    mode: Mode,
    chunk: ChunkView,
    response: Result<Seq<char>, Seq<char>>,
    parsed: Result<Option<Seq<NodeView>>, ()>,
    duration: Elapsed,
)
    ensures
        ({
            let validation = validation_for(mode, chunk, response, parsed);
            let result = chunk_result(mode, response, validation);
            session_after(s, mode, chunk, result, duration).replacements != s.replacements ==> {
                &&& needs_parse(mode, chunk, response)
                &&& parsed matches Ok(Some(t)) && t.len() > 0 && !t[0].has_error
            }
        }),
{
}

/// Whether a run has recorded what became of a chunk, and goes on or stops accordingly.
pub open spec fn is_recorded(
    before: SessionView,
    after: SessionView,
    cli: Cli,
    chunk: ChunkView,
    result: ChunkResult,
    duration: Elapsed,
    verdict: VerdictView,
) -> bool {
    &&& after == session_after(before, cli.mode, chunk, result, duration)
    &&& verdict == verdict_after(cli.skip_failed, chunk.index, result)
}

impl Session {
    /// A run over `chunks_total` chunks of a file.
    pub fn new(
        file: &str,
        model: &str,
        cli: &Cli,
        chunks_total: usize,
        started_at: Timestamp,
    ) -> (r: Self)
        ensures
            r@ == (SessionView {
                log: runlog::empty_log(
                    file@,
                    model@,
                    cli::mode_name(cli.mode),
                    chunks_total as int,
                    started_at,
                ),
                items: Seq::empty(),
                replacements: Seq::empty(),
            }),
            is_consistent(r@, cli.mode),
    {
        let r = Session {
            log: RunLog::new(file, model, cli.mode_string().as_str(), chunks_total, started_at),
            items: Vec::new(),
            replacements: Vec::new(),
        };
        assert(r@.items == Seq::<ItemView>::empty());
        assert(r@.replacements == Seq::<(ChunkView, Seq<char>)>::empty());
        r
    }

    /// Records the response to a chunk, or the message about its failure, given whether the
    /// response may replace the chunk.
    pub fn record_validated(
        &mut self,
        cli: &Cli,
        chunk: &CodeChunk,
        response: Result<String, String>,
        validation: Result<(), ValidationError>,
        duration: Elapsed,
    ) -> (r: Verdict)
        requires
            old(self)@.log.chunks_ok < usize::MAX,
            old(self)@.log.chunks_failed < usize::MAX,
        ensures
            final(self)@ == session_after(
                old(self)@,
                cli.mode,
                chunk@,
                chunk_result(cli.mode, response_view(response), validation),
                duration,
            ),
            is_consistent(old(self)@, cli.mode) ==> is_consistent(final(self)@, cli.mode),
            r@ == verdict_after(
                cli.skip_failed,
                chunk@.index,
                chunk_result(cli.mode, response_view(response), validation),
            ),
    {
        let ghost before = self@;
        let ghost result = chunk_result(cli.mode, response_view(response), validation);
        proof {
            if is_consistent(before, cli.mode) {
                law_runs_stay_consistent(before, cli.mode, chunk@, result, duration);
            }
        }
        match response {
            Err(message) => {
                self.log.push_chunk(ChunkRunStatus::failed(chunk, message.as_str(), duration));
                assert(self@ == session_after(before, cli.mode, chunk@, result, duration));
                if cli.skip_failed {
                    return Verdict::Continue;
                }
                let mut text = String::new();
                text.append("stopped because chunk #");
                assert(text@ == "stopped because chunk #"@);
                text::push_decimal(&mut text, chunk.index);
                text.append(" failed. Use --skip-failed to continue.");
                Verdict::Stop { message: text, save_log: true }
            },
            Ok(answer) => {
                let asks = match cli.mode {
                    Mode::Analyze => false,
                    Mode::Comment | Mode::Rewrite => true,
                };
                if asks {
                    if let Err(e) = validation {
                        let mut msg = String::new();
                        msg.append("generated chunk failed validation: ");
                        assert(msg@ == "generated chunk failed validation: "@);
                        msg.append(e.message());
                        self.log.push_chunk(ChunkRunStatus::failed(chunk, msg.as_str(), duration));
                        assert(self@ == session_after(before, cli.mode, chunk@, result, duration));
                        if cli.skip_failed {
                            return Verdict::Continue;
                        }
                        let mut text = String::new();
                        text.append("chunk #");
                        assert(text@ == "chunk #"@);
                        text::push_decimal(&mut text, chunk.index);
                        text.append(": ");
                        text.append(msg.as_str());
                        return Verdict::Stop { message: text, save_log: false };
                    }
                    let replacement = (chunk.clone(), answer.clone());
                    assert(replacement_view(replacement) == (chunk@, answer@));
                    self.replacements.push(replacement);
                    assert(self@.replacements == before.replacements.push((chunk@, answer@)));
                }
                let ghost item_text = answer@;
                self.items.push(AnalysisItem::new(chunk, answer));
                assert(self@.items == before.items.push(report::item_of(chunk@, item_text)));
                self.log.push_chunk(ChunkRunStatus::ok(chunk, duration));
                assert(self@ == session_after(before, cli.mode, chunk@, result, duration));
                Verdict::Continue
            },
        }
    }

    /// Records the response to a chunk, or the message about its failure. Code that was asked
    /// for is validated first.
    pub fn record(
        &mut self,
        cli: &Cli,
        chunk: &CodeChunk,
        response: Result<String, String>,
        duration: Elapsed,
    ) -> (r: Verdict)
        requires
            old(self)@.log.chunks_ok < usize::MAX,
            old(self)@.log.chunks_failed < usize::MAX,
        ensures
            exists|parsed: Result<Option<Seq<NodeView>>, ()>|
                (needs_parse(cli.mode, chunk@, response_view(response)) ==> syntax::parser_yields(
                    response->Ok_0@,
                    parsed,
                )) && is_recorded(
                    old(self)@,
                    final(self)@,
                    *cli,
                    chunk@,
                    #[trigger] chunk_result(
                        cli.mode,
                        response_view(response),
                        validation_for(cli.mode, chunk@, response_view(response), parsed),
                    ),
                    duration,
                    r@,
                ),
            response is Ok && is_ascii_chars(response->Ok_0@) ==> is_recorded(
                old(self)@,
                final(self)@,
                *cli,
                chunk@,
                chunk_result(
                    cli.mode,
                    response_view(response),
                    validation_for(
                        cli.mode,
                        chunk@,
                        response_view(response),
                        syntax::rust_syntax(response->Ok_0@),
                    ),
                ),
                duration,
                r@,
            ),
            is_consistent(old(self)@, cli.mode) ==> is_consistent(final(self)@, cli.mode),
    {
        let ghost answered = response_view(response);
        let ghost mut parsed: Result<Option<Seq<NodeView>>, ()> = match answered {
            Ok(answer) => syntax::rust_syntax(answer),
            Err(_) => Ok(None),
        };
        let mut validation: Result<(), ValidationError> = Ok(());
        if let Ok(answer) = &response {
            match cli.mode {
                Mode::Analyze => {},
                Mode::Comment | Mode::Rewrite => {
                    validation = rewrite::validate_generated_chunk(
                        answer.as_str(),
                        chunk.text.as_str(),
                    );
                    proof {
                        if needs_parse(cli.mode, chunk@, answered) && !is_ascii_chars(answer@) {
                            parsed = choose|p: Result<Option<Seq<NodeView>>, ()>| #[trigger]
                                syntax::parser_yields(answer@, p) && validation
                                    == rewrite::tree_outcome(p);
                        }
                    }
                },
            }
        }
        assert(validation == validation_for(cli.mode, chunk@, answered, parsed));
        let r = self.record_validated(cli, chunk, response, validation, duration);
        assert(is_recorded(
            old(self)@,
            self@,
            *cli,
            chunk@,
            chunk_result(
                cli.mode,
                answered,
                validation_for(cli.mode, chunk@, answered, parsed),
            ),
            duration,
            r@,
        ));
        r
    }
}

} // verus!
