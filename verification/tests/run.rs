use paladin_commenter::chunk_kind::ChunkKind;
use paladin_commenter::chunker::{chunk_rust_source, CodeChunk};
use paladin_commenter::cli::{is_confirmation, Cli, CliError, LogLevel, Mode};
use paladin_commenter::generation::{GenerateStep, Generation};
use paladin_commenter::order::order_by;
use paladin_commenter::prompt::PromptProfile;
use paladin_commenter::rewrite::{build_rewritten_source, check_spliceable, ValidationError};
use paladin_commenter::runlog::{ChunkRunStatus, Elapsed, RunLog, Timestamp};
use paladin_commenter::session::{Session, Verdict};

const START: Timestamp = Timestamp { secs: 1_700_000_000, nanos: 5 };
const SPAN: Elapsed = Elapsed { secs: 2, nanos: 500_000_000 };

fn options(mode: Mode, skip_failed: bool) -> Cli {
    Cli {
        max_chars: 6000,
        target_chars: 3500,
        mode,
        profile: PromptProfile::MaintainerComments,
        cache_ttl: 0,
        from_chunk: None,
        only_chunk: None,
        skip_failed,
        max_retries: 1,
        log_level: LogLevel::Info,
        quiet: false,
    }
}

fn chunk(index: usize, text: &str) -> CodeChunk {
    CodeChunk {
        index,
        kind: ChunkKind::Function,
        start_byte: 0,
        end_byte: text.len(),
        start_line: 4,
        end_line: 9,
        text: text.to_string(),
    }
}

#[test]
fn options_are_validated() {
    let mut cli = options(Mode::Analyze, false);
    assert_eq!(cli.validate(), Ok(()));
    cli.max_chars = 1000;
    cli.target_chars = 1000;
    assert_eq!(cli.validate(), Ok(()));
    cli.target_chars = 1001;
    let error = cli.validate().unwrap_err();
    assert_eq!(error, CliError::TargetAboveMax { target_chars: 1001, max_chars: 1000 });
    assert_eq!(error.message(), "--target-chars (1001) cannot exceed --max-chars (1000)");
    cli.max_chars = 999;
    let error = cli.validate().unwrap_err();
    assert_eq!(error, CliError::MaxCharsTooSmall { max_chars: 999 });
    assert_eq!(error.message(), "--max-chars must be at least 1000 (got 999)");
}

#[test]
fn options_decide() {
    let mut cli = options(Mode::Rewrite, false);
    assert_eq!(cli.mode_string(), "rewrite");
    assert_eq!(options(Mode::Analyze, false).mode_string(), "analyze");
    assert_eq!(options(Mode::Comment, false).mode_string(), "comment");
    assert_eq!(cli.chunk_config().max_chars, 6000);
    assert_eq!(cli.chunk_config().target_chars, 3500);
    assert_eq!(cli.effective_log_level(), LogLevel::Info);
    cli.quiet = true;
    assert_eq!(cli.effective_log_level(), LogLevel::Error);
    assert_eq!(cli.cache_ttl_duration(), None);
    cli.cache_ttl = 86400;
    assert_eq!(cli.cache_ttl_duration(), Some(86400));
}

#[test]
fn chunks_are_selected() {
    let mut cli = options(Mode::Analyze, false);
    assert!(cli.selects(1));
    cli.from_chunk = Some(8);
    assert!(!cli.selects(7));
    assert!(cli.selects(8));
    assert!(cli.selects(9));
    cli.only_chunk = Some(7);
    assert!(!cli.selects(7));
    assert!(!cli.selects(8));
    cli.from_chunk = None;
    assert!(cli.selects(7));
    assert!(!cli.selects(8));
}

#[test]
fn confirmations_are_recognised() {
    for yes in ["y", "Y", "yes", "YES\n", "  yEs \r\n"] {
        assert!(is_confirmation(yes));
    }
    for no in ["", "\n", "n", "no", "ye", "yess", "y es", "\u{178}es"] {
        assert!(!is_confirmation(no));
    }
}

#[test]
fn positions_are_ordered_stably() {
    assert_eq!(order_by(&vec![]), Vec::<usize>::new());
    assert_eq!(order_by(&vec![3, 1, 2]), vec![1, 2, 0]);
    assert_eq!(order_by(&vec![5, 5, 1, 5, 1]), vec![2, 4, 0, 1, 3]);
}

#[test]
fn cache_is_asked_first() {
    let g = Generation::new(true, 2);
    assert!(matches!(g.begin::<u8>(), GenerateStep::Lookup));
    assert!(matches!(Generation::new(false, 2).begin::<u8>(), GenerateStep::Request));
    let hit: Result<Option<String>, u8> = Ok(Some("hit".to_string()));
    assert!(matches!(g.on_lookup(hit), GenerateStep::Done(Ok(s)) if s == "hit"));
    assert!(matches!(g.on_lookup::<u8>(Ok(None)), GenerateStep::Request));
    assert!(matches!(g.on_lookup::<u8>(Err(3)), GenerateStep::Done(Err(3))));
}

#[test]
fn failures_are_retried() {
    let mut g = Generation::new(true, 2);
    assert!(matches!(g.on_reply::<u8>(Err(1)), GenerateStep::Request));
    assert!(matches!(g.on_reply::<u8>(Err(2)), GenerateStep::Request));
    assert!(matches!(g.on_reply::<u8>(Err(3)), GenerateStep::Done(Err(3))));
    let mut g = Generation::new(false, 0);
    assert!(matches!(g.on_reply::<u8>(Err(9)), GenerateStep::Done(Err(9))));
}

#[test]
fn answers_are_stored_and_returned() {
    let mut g = Generation::new(true, 1);
    assert!(matches!(g.on_reply::<u8>(Err(1)), GenerateStep::Request));
    assert!(matches!(g.on_reply::<u8>(Ok("a".to_string())), GenerateStep::Store(s) if s == "a"));
    assert!(
        matches!(g.on_stored::<u8>("a".to_string(), Ok(())), GenerateStep::Done(Ok(s)) if s == "a")
    );
    assert!(matches!(g.on_stored::<u8>("a".to_string(), Err(4)), GenerateStep::Done(Err(4))));
    let mut g = Generation::new(false, 1);
    assert!(matches!(g.on_reply::<u8>(Ok("b".to_string())), GenerateStep::Done(Ok(s)) if s == "b"));
}

#[test]
fn log_counts_statuses() {
    let mut log = RunLog::new("src/main.rs", "gemma4:e4b", "rewrite", 3, START);
    assert_eq!(log.version, 1);
    assert_eq!(log.file, "src/main.rs");
    assert_eq!(log.model, "gemma4:e4b");
    assert_eq!(log.mode, "rewrite");
    assert_eq!((log.chunks_total, log.chunks_ok, log.chunks_failed), (3, 0, 0));
    assert_eq!(log.started_at, START);
    assert_eq!(log.finished_at, None);
    assert_eq!(log.duration, None);
    log.push_chunk(ChunkRunStatus::ok(&chunk(1, "a"), SPAN));
    log.push_chunk(ChunkRunStatus::failed(&chunk(2, "b"), "no answer", SPAN));
    log.push_chunk(ChunkRunStatus::ok(&chunk(3, "c"), SPAN));
    assert_eq!((log.chunks_total, log.chunks_ok, log.chunks_failed), (3, 2, 1));
    let failed = &log.chunks[1];
    assert_eq!(failed.index, 2);
    assert_eq!(failed.kind, "function");
    assert_eq!((failed.start_line, failed.end_line), (4, 9));
    assert_eq!(failed.status, "failed");
    assert_eq!(failed.error, Some("no answer".to_string()));
    assert_eq!(failed.duration, SPAN);
    assert_eq!(log.chunks[0].status, "ok");
    assert_eq!(log.chunks[0].error, None);
    let end = Timestamp { secs: 1_700_000_009, nanos: 0 };
    log.finish(SPAN, end);
    assert_eq!(log.finished_at, Some(end));
    assert_eq!(log.duration, Some(SPAN));
    assert_eq!(log.started_at, START);
}

#[test]
fn analysis_is_recorded_without_validation() {
    let cli = options(Mode::Analyze, false);
    let mut session = Session::new("f.rs", "m", &cli, 1, START);
    let verdict = session.record(&cli, &chunk(1, "fn f() {}"), Ok("```\ntext".to_string()), SPAN);
    assert!(matches!(verdict, Verdict::Continue));
    assert_eq!(session.log.mode, "analyze");
    assert_eq!((session.log.chunks_ok, session.log.chunks_failed), (1, 0));
    assert_eq!(session.items.len(), 1);
    assert_eq!(session.items[0].model_response, "```\ntext");
    assert_eq!(session.items[0].source_preview, "fn f() {}");
    assert_eq!(session.items[0].kind, "function");
    assert!(session.replacements.is_empty());
}

#[test]
fn valid_code_becomes_a_replacement() {
    let cli = options(Mode::Rewrite, false);
    let mut session = Session::new("f.rs", "m", &cli, 1, START);
    let answer = "/// Does nothing.\nfn f() {}";
    let verdict = session.record(&cli, &chunk(1, "fn f() {} // x"), Ok(answer.to_string()), SPAN);
    assert!(matches!(verdict, Verdict::Continue));
    assert_eq!(session.replacements.len(), 1);
    assert_eq!(session.replacements[0].0.index, 1);
    assert_eq!(session.replacements[0].1, answer);
    assert_eq!(session.items.len(), 1);
    assert_eq!((session.log.chunks_ok, session.log.chunks_failed), (1, 0));
}

#[test]
fn invalid_code_stops_the_run() {
    let cli = options(Mode::Comment, false);
    let mut session = Session::new("f.rs", "m", &cli, 1, START);
    let verdict = session.record(&cli, &chunk(12, "fn f() {}"), Ok("  ".to_string()), SPAN);
    let expected = "chunk #12: generated chunk failed validation: model returned an empty chunk";
    assert!(
        matches!(verdict, Verdict::Stop { message, save_log: false } if message == expected)
    );
    assert!(session.replacements.is_empty());
    assert!(session.items.is_empty());
    assert_eq!((session.log.chunks_ok, session.log.chunks_failed), (0, 1));
    assert_eq!(
        session.log.chunks[0].error,
        Some("generated chunk failed validation: model returned an empty chunk".to_string())
    );
}

#[test]
fn missing_response_stops_the_run() {
    let cli = options(Mode::Analyze, false);
    let mut session = Session::new("f.rs", "m", &cli, 1, START);
    let verdict = session.record(&cli, &chunk(3, "fn f() {}"), Err("timeout".to_string()), SPAN);
    let expected = "stopped because chunk #3 failed. Use --skip-failed to continue.";
    assert!(matches!(verdict, Verdict::Stop { message, save_log: true } if message == expected));
    assert_eq!(session.log.chunks[0].error, Some("timeout".to_string()));
}

#[test]
fn failures_can_be_skipped() {
    let cli = options(Mode::Comment, true);
    let mut session = Session::new("f.rs", "m", &cli, 3, START);
    let c = chunk(1, "fn f() {}");
    assert!(matches!(
        session.record(&cli, &c, Err("timeout".to_string()), SPAN),
        Verdict::Continue
    ));
    assert!(matches!(
        session.record(&cli, &c, Ok("fn f( {".to_string()), SPAN),
        Verdict::Continue
    ));
    assert!(matches!(
        session.record_validated(
            &cli,
            &c,
            Ok("fn f() {}".to_string()),
            Err(ValidationError::NotParsed),
            SPAN
        ),
        Verdict::Continue
    ));
    assert!(matches!(
        session.record(&cli, &c, Ok("fn f() {}".to_string()), SPAN),
        Verdict::Continue
    ));
    assert_eq!((session.log.chunks_ok, session.log.chunks_failed), (1, 3));
    assert_eq!(session.items.len(), 1);
    assert_eq!(session.replacements.len(), 1);
    assert_eq!(session.log.chunks.len(), 4);
}

#[test]
fn chunks_without_a_valid_answer_stay_as_they_are() {
    let mut source = String::new();
    for i in 0..5 {
        source.push_str(&format!("fn f{}() {{\n{}}}\n\n", i, "    call();\n".repeat(60)));
    }
    let mut cli = options(Mode::Rewrite, true);
    cli.max_chars = 1000;
    cli.target_chars = 500;
    let chunks = chunk_rust_source(&source, cli.chunk_config()).unwrap();
    assert_eq!(chunks.len(), 5);
    let mut session = Session::new("f.rs", "m", &cli, chunks.len(), START);
    for c in &chunks {
        let response = match c.index {
            2 => Err("timeout".to_string()),
            4 => Ok("fn broken( {".to_string()),
            _ => Ok(format!("// Number {}.\n{}\n\n", c.index, c.text)),
        };
        assert!(matches!(session.record(&cli, c, response, SPAN), Verdict::Continue));
    }
    let numbers: Vec<usize> = session.replacements.iter().map(|r| r.0.index).collect();
    assert_eq!(numbers, vec![1, 3, 5]);
    assert!(check_spliceable(&source, &session.replacements));
    let rewritten = build_rewritten_source(&source, &session.replacements);
    for c in &chunks {
        assert!(rewritten.contains(&c.text));
        assert_eq!(rewritten.contains(&format!("// Number {}.\n", c.index)), c.index % 2 == 1);
    }
}

#[test]
fn answers_beyond_ascii_are_parsed() {
    let cli = options(Mode::Rewrite, true);
    let mut session = Session::new("f.rs", "m", &cli, 2, START);
    let c = chunk(1, "fn f() {} // caf\u{e9}");
    let broken = Ok("fn f( { // caf\u{e9}".to_string());
    assert!(matches!(session.record(&cli, &c, broken, SPAN), Verdict::Continue));
    assert!(session.replacements.is_empty());
    let valid = Ok("// Caf\u{e9}.\nfn f() {} // caf\u{e9}".to_string());
    assert!(matches!(session.record(&cli, &c, valid, SPAN), Verdict::Continue));
    assert_eq!(session.replacements.len(), 1);
}
