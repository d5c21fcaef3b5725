//! The log of a run: what was processed, how long it took and what failed.

use crate::chunker::{ChunkView, CodeChunk};
use crate::text;
use vstd::prelude::*;

verus! {

/// A point in time: seconds since the UNIX epoch and nanoseconds within the second.
#[derive(Debug, Clone, Copy, PartialEq, Eq, Structural)]
pub struct Timestamp {
    pub secs: i64,
    pub nanos: u32,
}

/// A span of time: whole seconds and nanoseconds within the next one.
#[derive(Debug, Clone, Copy, PartialEq, Eq, Structural)]
pub struct Elapsed {
    pub secs: u64,
    pub nanos: u32,
}

/// Top-level run log capturing timing, success/failure counts, and per-chunk status.
#[derive(Debug)]
pub struct RunLog {
    pub version: u8,
    pub started_at: Timestamp,
    pub finished_at: Option<Timestamp>,
    pub duration: Option<Elapsed>,
    pub file: String,
    pub model: String,
    pub mode: String,
    pub chunks_total: usize,
    pub chunks_ok: usize,
    pub chunks_failed: usize,
    pub chunks: Vec<ChunkRunStatus>,
}

/// Per-chunk outcome persisted in the run log.
#[derive(Debug)]
pub struct ChunkRunStatus {
    pub index: usize,
    pub kind: String,
    pub start_line: usize,
    pub end_line: usize,
    pub status: String,
    pub duration: Elapsed,
    pub error: Option<String>,
}

/// What a `ChunkRunStatus` holds, as mathematical values.
pub struct StatusView {
    pub index: int,
    pub kind: Seq<char>,
    pub start_line: int,
    pub end_line: int,
    pub status: Seq<char>,
    pub duration: Elapsed,
    pub error: Option<Seq<char>>,
}

impl View for ChunkRunStatus {
    type V = StatusView;

    open spec fn view(&self) -> StatusView {
        StatusView {
            index: self.index as int,
            kind: self.kind@,
            start_line: self.start_line as int,
            end_line: self.end_line as int,
            status: self.status@,
            duration: self.duration,
            error: match self.error {
                Some(e) => Some(e@),
                None => None,
            },
        }
    }
}

/// What each status of a list holds.
pub open spec fn status_views(s: Seq<ChunkRunStatus>) -> Seq<StatusView> {
    s.map_values(|c: ChunkRunStatus| c@)
}

/// The status of a chunk that was processed.
pub open spec fn ok_status(chunk: ChunkView, duration: Elapsed) -> StatusView {
    StatusView {
        index: chunk.index,
        kind: chunk.kind.label(),
        start_line: chunk.start_line,
        end_line: chunk.end_line,
        status: "ok"@,
        duration,
        error: None,
    }
}

/// The status of a chunk that failed.
pub open spec fn failed_status(chunk: ChunkView, error: Seq<char>, duration: Elapsed) -> StatusView {
    StatusView {
        index: chunk.index,
        kind: chunk.kind.label(),
        start_line: chunk.start_line,
        end_line: chunk.end_line,
        status: "failed"@,
        duration,
        error: Some(error),
    }
}

/// Number of statuses that report success.
pub open spec fn ok_count(s: Seq<StatusView>) -> nat
    decreases s.len(),
{
    if s.len() == 0 {
        0
    } else {
        ok_count(s.drop_last()) + if s.last().status == "ok"@ {
            1nat
        } else {
            0nat
        }
    }
}

/// What a `RunLog` holds, as mathematical values.
pub struct LogView {
    pub version: int,
    pub started_at: Timestamp,
    pub finished_at: Option<Timestamp>,
    pub duration: Option<Elapsed>,
    pub file: Seq<char>,
    pub model: Seq<char>,
    pub mode: Seq<char>,
    pub chunks_total: int,
    pub chunks_ok: int,
    pub chunks_failed: int,
    pub chunks: Seq<StatusView>,
}

impl View for RunLog {
    type V = LogView;

    open spec fn view(&self) -> LogView {
        LogView {
            version: self.version as int,
            started_at: self.started_at,
            finished_at: self.finished_at,
            duration: self.duration,
            file: self.file@,
            model: self.model@,
            mode: self.mode@,
            chunks_total: self.chunks_total as int,
            chunks_ok: self.chunks_ok as int,
            chunks_failed: self.chunks_failed as int,
            chunks: status_views(self.chunks@),
        }
    }
}

/// The log of a run that has processed nothing yet.
pub open spec fn empty_log(
    file: Seq<char>,
    model: Seq<char>,
    mode: Seq<char>,
    chunks_total: int,
    started_at: Timestamp,
) -> LogView {
    LogView {
        version: 1,
        started_at,
        finished_at: None,
        duration: None,
        file,
        model,
        mode,
        chunks_total,
        chunks_ok: 0,
        chunks_failed: 0,
        chunks: Seq::empty(),
    }
}

/// The log with one more status.
pub open spec fn log_with(log: LogView, status: StatusView) -> LogView {
    let ok = status.status == "ok"@;
    LogView {
        chunks_ok: if ok {
            log.chunks_ok + 1
        } else {
            log.chunks_ok
        },
        chunks_failed: if ok {
            log.chunks_failed
        } else {
            log.chunks_failed + 1
        },
        chunks: log.chunks.push(status),
        ..log
    }
}

/// The log of a run that has ended.
pub open spec fn finished_log(log: LogView, duration: Elapsed, finished_at: Timestamp) -> LogView {
    LogView { finished_at: Some(finished_at), duration: Some(duration), ..log }
}

/// Whether the counts of a log are those of its statuses.
pub open spec fn is_counted(log: LogView) -> bool {
    &&& log.chunks_ok == ok_count(log.chunks)
    &&& log.chunks_ok + log.chunks_failed == log.chunks.len()
}

impl RunLog {
    /// A log of a run that begins at `started_at`.
    pub fn new(
        file: &str,
        model: &str,
        mode: &str,
        chunks_total: usize,
        started_at: Timestamp,
    ) -> (r: Self)
        ensures
            r@ == empty_log(file@, model@, mode@, chunks_total as int, started_at),
            is_counted(r@),
    {
        let r = RunLog {
            version: 1,
            started_at,
            finished_at: None,
            duration: None,
            file: file.to_owned(),
            model: model.to_owned(),
            mode: mode.to_owned(),
            chunks_total,
            chunks_ok: 0,
            chunks_failed: 0,
            chunks: Vec::new(),
        };
        assert(r@.chunks == Seq::<StatusView>::empty());
        r
    }

    /// Appends the status of a chunk and counts it.
    pub fn push_chunk(&mut self, status: ChunkRunStatus)
        requires
            status@.status == "ok"@ ==> old(self)@.chunks_ok < usize::MAX,
            status@.status != "ok"@ ==> old(self)@.chunks_failed < usize::MAX,
        ensures
            final(self)@ == log_with(old(self)@, status@),
            is_counted(old(self)@) ==> is_counted(final(self)@),
    {
        proof {
            if is_counted(self@) {
                law_counts_follow_statuses(self@, status@);
            }
        }
        if text::same_text(status.status.as_str(), "ok") {
            self.chunks_ok = self.chunks_ok + 1;
        } else {
            self.chunks_failed = self.chunks_failed + 1;
        }
        self.chunks.push(status);
        assert(status_views(self.chunks@) == old(self)@.chunks.push(status@));
    }

    /// Records the end of the run.
    pub fn finish(&mut self, duration: Elapsed, finished_at: Timestamp)
        ensures
            final(self)@ == finished_log(old(self)@, duration, finished_at),
    {
        self.finished_at = Some(finished_at);
        self.duration = Some(duration);
    }
}

impl ChunkRunStatus {
    /// The status of a chunk that was processed.
    pub fn ok(chunk: &CodeChunk, duration: Elapsed) -> (r: Self)
        ensures
            r@ == ok_status(chunk@, duration),
    {
        ChunkRunStatus {
            index: chunk.index,
            kind: chunk.kind.as_str().to_owned(),
            start_line: chunk.start_line,
            end_line: chunk.end_line,
            status: "ok".to_owned(),
            duration,
            error: None,
        }
    }

    /// The status of a chunk that failed.
    pub fn failed(chunk: &CodeChunk, error: &str, duration: Elapsed) -> (r: Self)
        ensures
            r@ == failed_status(chunk@, error@, duration),
    {
        ChunkRunStatus {
            index: chunk.index,
            kind: chunk.kind.as_str().to_owned(),
            start_line: chunk.start_line,
            end_line: chunk.end_line,
            status: "failed".to_owned(),
            duration,
            error: Some(error.to_owned()),
        }
    }
}

/// Logging a status keeps the counts those of the statuses, and ending the run does too.
pub proof fn law_counts_follow_statuses(log: LogView, status: StatusView)
    requires
        is_counted(log),
    ensures
        is_counted(log_with(log, status)),
        forall|d: Elapsed, t: Timestamp| is_counted(#[trigger] finished_log(log, d, t)),
{
    assert(log.chunks.push(status).drop_last() == log.chunks);
}

/// A status of success counts as one, a status of failure does not.
pub proof fn law_statuses_differ(chunk: ChunkView, error: Seq<char>, duration: Elapsed)
    ensures
        ok_status(chunk, duration).status == "ok"@,
        failed_status(chunk, error, duration).status != "ok"@,
{
    reveal_strlit("ok");
    reveal_strlit("failed");
    assert("ok"@.len() == 2);
    assert("failed"@.len() == 6);
}

/// The log after a list of statuses.
pub open spec fn logged(log: LogView, statuses: Seq<StatusView>) -> LogView
    decreases statuses.len(),
{
    if statuses.len() == 0 {
        log
    } else {
        log_with(logged(log, statuses.drop_last()), statuses.last())
    }
}

/// A log keeps every status in the order in which they came, counts those of success and the
/// others, and changes in nothing else.
pub proof fn law_log_keeps_every_status(log: LogView, statuses: Seq<StatusView>)
    ensures
        ({
            let r = logged(log, statuses);
            let ok = statuses.filter(|s: StatusView| s.status == "ok"@).len();
            &&& r.chunks == log.chunks + statuses
            &&& r.chunks_ok == log.chunks_ok + ok
            &&& r.chunks_failed == log.chunks_failed + statuses.len() - ok
            &&& r.version == log.version
            &&& r.started_at == log.started_at
            &&& r.finished_at == log.finished_at
            &&& r.duration == log.duration
            &&& r.file == log.file
            &&& r.model == log.model
            &&& r.mode == log.mode
            &&& r.chunks_total == log.chunks_total
        }),
    decreases statuses.len(),
{
    reveal(Seq::filter);
    if statuses.len() > 0 {
        law_log_keeps_every_status(log, statuses.drop_last());
        let r = logged(log, statuses);
        assert(r.chunks == log.chunks + statuses) by {
            assert((log.chunks + statuses.drop_last()).push(statuses.last()) == log.chunks
                + statuses);
        }
    } else {
        assert(log.chunks + statuses == log.chunks);
    }
}

/// A status shows the number, kind and lines of its chunk, how long it took, and whether and why
/// it failed.
pub proof fn law_statuses_describe_their_chunk(chunk: ChunkView, error: Seq<char>, duration: Elapsed)
    ensures
        ({
            let ok = ok_status(chunk, duration);
            let failed = failed_status(chunk, error, duration);
            &&& ok.index == chunk.index && failed.index == chunk.index
            &&& ok.kind == chunk.kind.label() && failed.kind == chunk.kind.label()
            &&& ok.start_line == chunk.start_line && failed.start_line == chunk.start_line
            &&& ok.end_line == chunk.end_line && failed.end_line == chunk.end_line
            &&& ok.duration == duration && failed.duration == duration
            &&& ok.status == "ok"@ && failed.status == "failed"@
            &&& ok.error is None && failed.error == Some(error)
        }),
{
}

/// A log begins without statuses, and its end is the time and the duration that are recorded for
/// it; nothing else changes then.
pub proof fn law_logs_begin_and_end(
    log: LogView,
    file: Seq<char>,
    model: Seq<char>,
    mode: Seq<char>,
    chunks_total: int,
    started_at: Timestamp,
    duration: Elapsed,
    finished_at: Timestamp,
)
    ensures
        ({
            let r = empty_log(file, model, mode, chunks_total, started_at);
            &&& r.version == 1
            &&& r.started_at == started_at
            &&& r.finished_at is None && r.duration is None
            &&& r.file == file && r.model == model && r.mode == mode
            &&& r.chunks_total == chunks_total
            &&& r.chunks_ok == 0 && r.chunks_failed == 0
            &&& r.chunks.len() == 0
        }),
        ({
            let r = finished_log(log, duration, finished_at);
            &&& r.finished_at == Some(finished_at)
            &&& r.duration == Some(duration)
            &&& r == (LogView { finished_at: r.finished_at, duration: r.duration, ..log })
        }),
{
}

} // verus!
