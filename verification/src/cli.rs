//! The options of a run and the decisions that follow from them.

use crate::cache;
use crate::chunker;
use crate::chunker::{ChunkConfig, ChunkError, CodeChunk};
use crate::prompt;
use crate::prompt::PromptProfile;
use crate::syntax::NodeView;
use crate::text;
use vstd::prelude::*;

verus! {

/// What is done with the chunks.
#[derive(Debug, Clone, Copy, PartialEq, Eq, Structural)]
pub enum Mode {
    /// Analyze chunks and write a report.
    Analyze,
    /// Ask the model to return commented code chunks.
    Comment,
    /// Ask the model to return commented code chunks and write a commented copy of the source.
    Rewrite,
}

/// Logging verbosity.
#[derive(Debug, Clone, Copy, PartialEq, Eq, Structural)]
pub enum LogLevel {
    Error,
    Warn,
    Info,
    Debug,
    Trace,
}

/// The options on which the decisions of a run depend.
#[derive(Debug, Clone, Copy)]
pub struct Cli {
    /// Maximum characters per semantic chunk.
    pub max_chars: usize,
    /// Soft target size. Small chunks are merged until they approach this size.
    pub target_chars: usize,
    /// Processing mode.
    pub mode: Mode,
    /// Prompt profile.
    pub profile: PromptProfile,
    /// Cache time-to-live in seconds. Entries older than this are treated as misses.
    /// 0 disables the limit and keeps entries forever.
    pub cache_ttl: u64,
    /// Start processing at this chunk index, 1-based.
    pub from_chunk: Option<usize>,
    /// Process only this chunk index, 1-based.
    pub only_chunk: Option<usize>,
    /// Continue when a chunk fails.
    pub skip_failed: bool,
    /// Maximum retries per chunk after the first attempt.
    pub max_retries: usize,
    /// Logging verbosity.
    pub log_level: LogLevel,
    /// Suppress all output except errors.
    pub quiet: bool,
}

/// Why options are refused.
#[derive(Debug, Clone, Copy, PartialEq, Eq, Structural)]
pub enum CliError {
    MaxCharsTooSmall { max_chars: usize },
    TargetAboveMax { target_chars: usize, max_chars: usize },
}

impl CliError {
    /// The message that describes the error.
    pub open spec fn text(self) -> Seq<char> {
        match self {
            CliError::MaxCharsTooSmall { max_chars } => "--max-chars must be at least 1000 (got "@
                + text::decimal(max_chars as nat) + ")"@,
            CliError::TargetAboveMax { target_chars, max_chars } => "--target-chars ("@
                + text::decimal(target_chars as nat) + ") cannot exceed --max-chars ("@
                + text::decimal(max_chars as nat) + ")"@,
        }
    }

    /// The message that describes the error.
    pub fn message(&self) -> (r: String)
        ensures
            r@ == self.text(),
    {
        let mut r = String::new();
        match self {
            CliError::MaxCharsTooSmall { max_chars } => {
                r.append("--max-chars must be at least 1000 (got ");
                assert(r@ == "--max-chars must be at least 1000 (got "@);
                text::push_decimal(&mut r, *max_chars);
                r.append(")");
            },
            CliError::TargetAboveMax { target_chars, max_chars } => {
                r.append("--target-chars (");
                assert(r@ == "--target-chars ("@);
                text::push_decimal(&mut r, *target_chars);
                r.append(") cannot exceed --max-chars (");
                text::push_decimal(&mut r, *max_chars);
                r.append(")");
            },
        }
        r
    }
}

/// The name of a mode.
pub open spec fn mode_name(mode: Mode) -> Seq<char> {
    match mode {
        Mode::Analyze => "analyze"@,
        Mode::Comment => "comment"@,
        Mode::Rewrite => "rewrite"@,
    }
}

/// Whether a mode asks for code that is to replace the source.
pub open spec fn asks_for_code(mode: Mode) -> bool {
    mode == Mode::Comment || mode == Mode::Rewrite
}

/// The prompt for a chunk.
pub open spec fn prompt_text(cli: Cli, chunk: chunker::ChunkView) -> Seq<char> {
    if asks_for_code(cli.mode) {
        prompt::commenting_prompt(chunk, cli.profile)
    } else {
        prompt::analysis_prompt(chunk, cli.profile)
    }
}

/// Whether the chunk with a number is processed.
pub open spec fn is_chosen(cli: Cli, index: int) -> bool {
    &&& cli.only_chunk matches Some(only) ==> index == only
    &&& cli.from_chunk matches Some(from) ==> index >= from
}

/// The verbosity, which is that of errors alone if the run is to be quiet.
pub open spec fn verbosity(cli: Cli) -> LogLevel {
    if cli.quiet {
        LogLevel::Error
    } else {
        cli.log_level
    }
}

/// Seconds for which a cached response counts, `None` for ever.
pub open spec fn ttl_of(cli: Cli) -> Option<u64> {
    if cli.cache_ttl == 0 {
        None
    } else {
        Some(cli.cache_ttl)
    }
}

/// Whether options are accepted, and why not.
pub open spec fn options_outcome(cli: Cli) -> Result<(), CliError> {
    if cli.max_chars < 1000 {
        Err(CliError::MaxCharsTooSmall { max_chars: cli.max_chars })
    } else if cli.target_chars > cli.max_chars {
        Err(CliError::TargetAboveMax { target_chars: cli.target_chars, max_chars: cli.max_chars })
    } else {
        Ok(())
    }
}

/// The limits for splitting the source.
pub open spec fn config_of(cli: Cli) -> ChunkConfig {
    ChunkConfig { max_chars: cli.max_chars, target_chars: cli.target_chars }
}

impl Cli {
    /// Validate arguments before heavy work begins.
    pub fn validate(&self) -> (r: Result<(), CliError>)
        ensures
            r == options_outcome(*self),
    {
        if self.max_chars < 1000 {
            return Err(CliError::MaxCharsTooSmall { max_chars: self.max_chars });
        }
        if self.target_chars > self.max_chars {
            return Err(
                CliError::TargetAboveMax {
                    target_chars: self.target_chars,
                    max_chars: self.max_chars,
                },
            );
        }
        Ok(())
    }

    /// The limits for splitting the source.
    pub fn chunk_config(&self) -> (r: ChunkConfig)
        ensures
            r == config_of(*self),
    {
        ChunkConfig { max_chars: self.max_chars, target_chars: self.target_chars }
    }

    /// The name of the mode.
    pub fn mode_string(&self) -> (r: String)
        ensures
            r@ == mode_name(self.mode),
    {
        match self.mode {
            Mode::Analyze => "analyze".to_owned(),
            Mode::Comment => "comment".to_owned(),
            Mode::Rewrite => "rewrite".to_owned(),
        }
    }

    /// The verbosity, which is that of errors alone if the run is to be quiet.
    pub fn effective_log_level(&self) -> (r: LogLevel)
        ensures
            r == verbosity(*self),
    {
        if self.quiet {
            return LogLevel::Error;
        }
        self.log_level
    }

    /// Seconds for which a cached response counts, `None` for ever.
    pub fn cache_ttl_duration(&self) -> (r: Option<u64>)
        ensures
            r == ttl_of(*self),
    {
        if self.cache_ttl == 0 {
            None
        } else {
            Some(self.cache_ttl)
        }
    }

    /// Whether the chunk with a number is processed.
    pub fn selects(&self, index: usize) -> (r: bool)
        ensures
            r == is_chosen(*self, index as int),
    {
        if let Some(only) = self.only_chunk {
            if index != only {
                return false;
            }
        }
        if let Some(from) = self.from_chunk {
            if index < from {
                return false;
            }
        }
        true
    }

    /// The prompt for a chunk.
    pub fn build_prompt(&self, chunk: &CodeChunk) -> (r: String)
        ensures
            r@ == prompt_text(*self, chunk@),
    {
        match self.mode {
            Mode::Analyze => prompt::build_analysis_prompt(chunk, self.profile),
            Mode::Comment | Mode::Rewrite => prompt::build_commenting_prompt(chunk, self.profile),
        }
    }
}

/// The lower-case form of an ASCII letter; other characters stay.
pub open spec fn ascii_lower(c: char) -> char {
    if 'A' <= c <= 'Z' {
        ((c as u32) + 32) as char
    } else {
        c
    }
}

/// A text with its ASCII letters in lower case.
pub open spec fn ascii_lowered(s: Seq<char>) -> Seq<char> {
    s.map_values(|c: char| ascii_lower(c))
}

/// Whether an answer to a yes-or-no question is a yes.
pub open spec fn is_yes(input: Seq<char>) -> bool {
    let answer = ascii_lowered(text::trim(input));
    answer == "y"@ || answer == "yes"@
}

/// Whether an answer to a yes-or-no question is a yes.
pub fn is_confirmation(input: &str) -> (r: bool)
    ensures
        r == is_yes(input@),
{
    let cs = text::chars_of(text::trimmed(input));
    let mut answer = String::new();
    let mut i: usize = 0;
    while i < cs.len()
        invariant
            i <= cs@.len(),
            answer@ == ascii_lowered(cs@.take(i as int)),
        decreases cs@.len() - i,
    {
        let c = cs[i];
        let lower: char = if 'A' <= c && c <= 'Z' {
            ((c as u8) + 32) as char
        } else {
            c
        };
        answer.push(lower);
        i += 1;
        assert(answer@ == ascii_lowered(cs@.take(i as int)));
    }
    assert(cs@.take(i as int) == cs@);
    text::same_text(answer.as_str(), "y") || text::same_text(answer.as_str(), "yes")
}

/// Splitting the source refuses the limits exactly if validation refuses the options.
pub proof fn law_valid_options_split(
    cli: Cli,
    source: Seq<char>,
    parsed: Result<Option<Seq<NodeView>>, ()>,
)
    ensures
        ({
            let outcome = chunker::chunk_outcome(source, config_of(cli), parsed);
            options_outcome(cli) is Err <==> {
                ||| outcome == Err::<Seq<chunker::ChunkView>, ChunkError>(
                    ChunkError::MaxCharsTooSmall,
                )
                ||| outcome == Err::<Seq<chunker::ChunkView>, ChunkError>(
                    ChunkError::TargetAboveMax,
                )
            }
        }),
{
}

/// The names of the modes hold no colon, as the keys of cached responses need it, and differ.
pub proof fn law_mode_names_fit_cache_keys(a: Mode, b: Mode)
    ensures
        cache::has_no_colon(mode_name(a)),
        mode_name(a) == mode_name(b) ==> a == b,
{
    reveal_strlit("analyze");
    reveal_strlit("comment");
    reveal_strlit("rewrite");
    assert("analyze"@[0] == 'a');
    assert("comment"@[0] == 'c');
    assert("rewrite"@[0] == 'r');
}

/// Options are accepted exactly if the limit is at least 1000 characters and the target not above
/// it; the error names the numbers.
pub proof fn law_accepted_options(cli: Cli)
    ensures
        options_outcome(cli) is Ok <==> 1000 <= cli.max_chars && cli.target_chars <= cli.max_chars,
        cli.max_chars < 1000 ==> options_outcome(cli) == Err::<(), CliError>(
            CliError::MaxCharsTooSmall { max_chars: cli.max_chars },
        ),
        cli.max_chars >= 1000 && cli.target_chars > cli.max_chars ==> options_outcome(cli) == Err::<
            (),
            CliError,
        >(CliError::TargetAboveMax { target_chars: cli.target_chars, max_chars: cli.max_chars }),
        config_of(cli).max_chars == cli.max_chars,
        config_of(cli).target_chars == cli.target_chars,
{
}

/// Without a choice every chunk is processed. A first chunk lets it and all behind it through,
/// a single chunk only that one, and both together that one unless it comes before the first.
pub proof fn law_chosen_chunks(cli: Cli, index: int)
    ensures
        cli.only_chunk is None && cli.from_chunk is None ==> is_chosen(cli, index),
        cli.only_chunk is None ==> (cli.from_chunk matches Some(from) ==> (is_chosen(cli, index)
            <==> index >= from)),
        cli.from_chunk is None ==> (cli.only_chunk matches Some(only) ==> (is_chosen(cli, index)
            <==> index == only)),
        cli.only_chunk is Some && cli.from_chunk is Some ==> (is_chosen(cli, index) <==> index
            == cli.only_chunk->0 && index >= cli.from_chunk->0),
{
}

/// A quiet run reports errors alone; otherwise the chosen verbosity holds.
pub proof fn law_quiet_runs_report_errors(cli: Cli)
    ensures
        cli.quiet ==> verbosity(cli) == LogLevel::Error,
        !cli.quiet ==> verbosity(cli) == cli.log_level,
{
}

/// A time to live of 0 means that cached responses never expire; any other is kept.
pub proof fn law_zero_means_no_expiry(cli: Cli)
    ensures
        ttl_of(cli) is None <==> cli.cache_ttl == 0,
        ttl_of(cli) matches Some(t) ==> t == cli.cache_ttl,
{
}

/// An analysis asks for a review, the other modes for comments, with the text of the chunk and
/// the instructions of the profile in the prompt.
pub proof fn law_mode_decides_what_is_asked(cli: Cli, chunk: chunker::ChunkView)
    ensures
        cli.mode == Mode::Analyze ==> prompt_text(cli, chunk) == prompt::analysis_prompt(
            chunk,
            cli.profile,
        ),
        cli.mode != Mode::Analyze ==> prompt_text(cli, chunk) == prompt::commenting_prompt(
            chunk,
            cli.profile,
        ),
{
}

/// Whether `w` is a yes, written in letters of either case.
pub open spec fn spells_yes(w: Seq<char>) -> bool {
    ||| w.len() == 1 && (w[0] == 'y' || w[0] == 'Y')
    ||| w.len() == 3 && (w[0] == 'y' || w[0] == 'Y') && (w[1] == 'e' || w[1] == 'E') && (w[2]
        == 's' || w[2] == 'S')
}

/// An answer is a yes exactly if it is "y" or "yes", in either case, between whitespace.
pub proof fn law_confirmations_spell_yes(input: Seq<char>)
    ensures
        is_yes(input) <==> spells_yes(text::trim(input)),
{
    reveal_strlit("y");
    reveal_strlit("yes");
    assert("y"@.len() == 1);
    assert("yes"@.len() == 3);
    let w = text::trim(input);
    let l = ascii_lowered(w);
    assert forall|i: int| 0 <= i < w.len() implies {
        &&& (#[trigger] l[i] == 'y' <==> (w[i] == 'y' || w[i] == 'Y'))
        &&& (l[i] == 'e' <==> (w[i] == 'e' || w[i] == 'E'))
        &&& (l[i] == 's' <==> (w[i] == 's' || w[i] == 'S'))
    } by {
        lemma_lower(w[i]);
    }
    if l == "yes"@ {
        assert(l[0] == 'y' && l[1] == 'e' && l[2] == 's');
    }
    if l == "y"@ {
        assert(l[0] == 'y');
    }
    if spells_yes(w) {
        if w.len() == 1 {
            assert(l[0] == 'y');
            assert(l == "y"@);
        } else {
            assert(l[0] == 'y' && l[1] == 'e' && l[2] == 's');
            assert(l == "yes"@);
        }
    }
}

proof fn lemma_lower(c: char)
    ensures
        ascii_lower(c) == 'y' <==> (c == 'y' || c == 'Y'),
        ascii_lower(c) == 'e' <==> (c == 'e' || c == 'E'),
        ascii_lower(c) == 's' <==> (c == 's' || c == 'S'),
{
}

/// The message about refused options shows the numbers that were given.
pub proof fn law_messages_show_the_numbers(max_chars: usize, target_chars: usize)
    ensures
        (CliError::MaxCharsTooSmall { max_chars }).text() == "--max-chars must be at least 1000 (got "@
            + text::decimal(max_chars as nat) + ")"@,
        (CliError::TargetAboveMax { target_chars, max_chars }).text() == "--target-chars ("@
            + text::decimal(target_chars as nat) + ") cannot exceed --max-chars ("@ + text::decimal(
            max_chars as nat,
        ) + ")"@,
{
}

} // verus!
