use paladin_commenter::chunk_kind::ChunkKind;
use paladin_commenter::chunker::{
    byte_to_line, check_limits, chunk_parsed, chunk_rust_source, chunk_tree,
    collect_semantic_candidates, gap_chunk, include_gaps_as_chunks,
    is_semantic_boundary, merge_kind, merge_small_neighbors, remove_nested_duplicates,
    sort_by_start, CandidateChunk, ChunkConfig, ChunkError, CodeChunk,
};
use paladin_commenter::cli::{Cli, CliError, LogLevel, Mode};
use paladin_commenter::prompt::PromptProfile;
use paladin_commenter::report::format_boundary_line;
use paladin_commenter::syntax::{check_syntax_tree, SyntaxNode};

const CONFIG: ChunkConfig = ChunkConfig { max_chars: 6000, target_chars: 3500 };

/// The listing of a dry run.
fn dry_run_output(source: &str) -> String {
    let mut out = String::new();
    for chunk in &chunk_rust_source(source, CONFIG).unwrap() {
        out.push_str(&format_boundary_line(chunk));
        out.push('\n');
    }
    out
}

#[test]
fn single_small_function_produces_one_chunk() {
    let source = r#"
fn hello() -> &'static str {
    "hello world"
}
"#;

    let out = dry_run_output(source);
    let chunk_lines: Vec<&str> = out.lines().filter(|l| l.trim_start().starts_with('#')).collect();
    assert!(
        !chunk_lines.is_empty(),
        "expected at least one chunk, got stdout:\n{}",
        out
    );
    assert_eq!(out, "  #001 function lines 2-4 chars=48 bytes=1..49\n");
}

#[test]
fn multiple_functions_produce_multiple_or_merged_chunks() {
    let source = r#"
fn alpha() -> i32 { 1 }
fn beta() -> i32 { 2 }
fn gamma() -> i32 { 3 }
"#;

    let out = dry_run_output(source);
    let has_expected_kind = out.contains("function") || out.contains("mixed");
    assert!(
        has_expected_kind,
        "expected a function-like or mixed chunk in output:\n{}",
        out
    );
}

#[test]
fn struct_and_impl_recognised() {
    let source = r#"
pub struct Foo {
    pub x: i32,
}

impl Foo {
    pub fn new(x: i32) -> Self {
        Self { x }
    }
}
"#;

    let out = dry_run_output(source);
    let has_struct_or_impl = out.contains("struct")
        || out.contains("impl")
        || out.contains("mixed")
        || out.contains("function");
    assert!(
        has_struct_or_impl,
        "expected struct or impl kind in output:\n{}",
        out
    );
}

#[test]
fn dry_run_does_not_call_ollama() {
    let source = "fn noop() {}";
    let out = dry_run_output(source);
    assert!(
        out.contains("Dry run") || out.contains("dry run") || out.contains("#"),
        "dry run should succeed without Ollama:\n{}",
        out
    );
}

#[test]
fn invalid_max_chars_fails() {
    let cli = Cli {
        max_chars: 100,
        target_chars: 50,
        mode: Mode::Analyze,
        profile: PromptProfile::MaintainerComments,
        cache_ttl: 0,
        from_chunk: None,
        only_chunk: None,
        skip_failed: false,
        max_retries: 1,
        log_level: LogLevel::Error,
        quiet: false,
    };
    assert_eq!(cli.validate(), Err(CliError::MaxCharsTooSmall { max_chars: 100 }));
    let result = chunk_rust_source("fn f() {}", cli.chunk_config());
    assert!(matches!(result, Err(ChunkError::MaxCharsTooSmall)));
}

#[test]
fn target_above_limit_fails() {
    let result =
        chunk_rust_source("fn f() {}", ChunkConfig { max_chars: 1000, target_chars: 1001 });
    assert!(matches!(result, Err(ChunkError::TargetAboveMax)));
}

#[test]
fn errors_have_messages() {
    assert_eq!(ChunkError::MaxCharsTooSmall.message(), "max_chars should be at least 1000");
    assert_eq!(
        ChunkError::TargetAboveMax.message(),
        "target_chars cannot be greater than max_chars"
    );
    assert_eq!(
        ChunkError::GrammarRejected.message(),
        "failed to load tree-sitter Rust grammar"
    );
    assert_eq!(ChunkError::NotParsed.message(), "tree-sitter failed to parse source");
}

/// Checks that chunks are numbered, in order, hold their text and leave out only whitespace.
fn check_partition(source: &str, chunks: &[CodeChunk]) {
    let mut cursor = 0;
    for (i, c) in chunks.iter().enumerate() {
        assert_eq!(c.index, i + 1);
        assert!(cursor <= c.start_byte);
        assert!(source[cursor..c.start_byte].trim().is_empty());
        assert_eq!(c.text, &source[c.start_byte..c.end_byte]);
        assert_eq!(c.start_line, source[..c.start_byte].matches('\n').count() + 1);
        assert_eq!(c.end_line, source[..c.end_byte].matches('\n').count() + 1);
        cursor = c.end_byte;
    }
    assert!(source[cursor..].trim().is_empty());
}

#[test]
fn every_source_is_partitioned() {
    let sources = [
        "",
        "   \n\n ",
        "// only a comment\n",
        "\u{feff}fn bom() {}\n",
        "fn broken( {\n",
        "fn a() {}}}}} fn b() {}",
        "#!/usr/bin/env run\nfn main() { println!(\"h\u{e9} \u{1f600}\"); }\n",
        "mod m { fn a() {} mod n { const X: &str = \"\u{fc}\"; } }\nstatic S: u8 = 1;\n",
        "macro_rules! m { ($x:expr) => { $x } }\ntype T = u8;\ntrait Q { fn f(&self); }\n",
        "use a::b;\nuse c::d;\r\nenum E { A, B }\r\nlet x = 3;\n",
        "impl<T> X<T> where T: Y { fn f(&self) -> T { loop {} } }",
        "\u{1f600}\u{1f600} fn \u{e9}t\u{e9}() {}",
    ];
    for source in sources {
        let chunks = chunk_rust_source(source, CONFIG).unwrap();
        assert!(!chunks.is_empty());
        check_partition(source, &chunks);
    }
}

fn filler(name: &str, lines: usize) -> String {
    let mut s = format!("fn {}() {{\n", name);
    for i in 0..lines {
        s.push_str(&format!("    let x{} = {};\n", i, i));
    }
    s.push_str("}\n");
    s
}

#[test]
fn large_impl_is_taken_apart() {
    let mut source = String::from("struct S;\n\nimpl S {\n");
    for i in 0..6 {
        source.push_str(&filler(&format!("method{}", i), 40));
    }
    source.push_str("}\n");
    let config = ChunkConfig { max_chars: 1000, target_chars: 600 };
    let chunks = chunk_rust_source(&source, config).unwrap();
    check_partition(&source, &chunks);
    assert!(chunks.len() >= 6);
    for i in 0..6 {
        let head = format!("fn method{}()", i);
        let holding: Vec<&CodeChunk> = chunks.iter().filter(|c| c.text.contains(&head)).collect();
        assert_eq!(holding.len(), 1);
        assert!(holding[0].text.contains(filler(&format!("method{}", i), 40).trim_end()));
    }
    for c in &chunks {
        assert!(c.text.chars().count() <= 1000);
    }
}

#[test]
fn block_without_parts_stays_whole() {
    // A comment block between items is never cut, however long it is.
    let mut source = String::from("fn a() {}\n");
    for i in 0..100 {
        source.push_str(&format!("// line number {} of a long comment\n", i));
    }
    source.push_str("fn b() {}\n");
    let config = ChunkConfig { max_chars: 1000, target_chars: 600 };
    let chunks = chunk_rust_source(&source, config).unwrap();
    check_partition(&source, &chunks);
    let kinds: Vec<ChunkKind> = chunks.iter().map(|c| c.kind).collect();
    assert_eq!(kinds, vec![ChunkKind::Function, ChunkKind::Gap, ChunkKind::Function]);
    assert!(chunks[1].text.chars().count() > 1000);
}

#[test]
fn small_neighbours_are_merged() {
    let source = "fn a() {}\nfn b() {}\nstruct C;\n";
    let chunks = chunk_rust_source(source, CONFIG).unwrap();
    assert_eq!(chunks.len(), 1);
    assert_eq!(chunks[0].kind, ChunkKind::Mixed);
    assert_eq!(chunks[0].text, source.trim_end());
    let chunks = chunk_rust_source("fn a() {}\nfn b() {}\n", CONFIG).unwrap();
    assert_eq!(chunks[0].kind, ChunkKind::Function);
}

#[test]
fn no_adjacent_chunks_could_be_merged() {
    let mut source = String::new();
    for (i, lines) in [3, 50, 5, 5, 60, 1, 2, 30, 30, 4].iter().enumerate() {
        source.push_str(&filler(&format!("f{}", i), *lines));
        source.push_str("\n// note\n");
    }
    let config = ChunkConfig { max_chars: 1500, target_chars: 700 };
    let chunks = chunk_rust_source(&source, config).unwrap();
    check_partition(&source, &chunks);
    for w in chunks.windows(2) {
        let together = source[w[0].start_byte..w[1].end_byte].chars().count();
        let a = w[0].text.chars().count();
        let b = w[1].text.chars().count();
        let gap = w[0].kind == ChunkKind::Gap || w[1].kind == ChunkKind::Gap;
        assert!(together > 1500 || (!gap && (a >= 700 || b >= 700)));
    }
}

#[test]
fn source_without_blocks_is_one_chunk() {
    let chunks = chunk_rust_source("let x = 1;\n", CONFIG).unwrap();
    assert_eq!(chunks.len(), 1);
    assert_eq!(chunks[0].kind, ChunkKind::Unknown);
    assert_eq!(chunks[0].text.trim(), "let x = 1;");
}

#[test]
fn preview_shows_the_first_lines() {
    let chunks = chunk_rust_source("fn a() {\n    1;\r\n    2;\n}\n", CONFIG).unwrap();
    assert_eq!(chunks[0].preview(2), "fn a() {\n    1;");
    assert_eq!(chunks[0].preview(3), "fn a() {\n    1;\n    2;");
    assert_eq!(chunks[0].preview(24), "fn a() {\n    1;\n    2;\n}");
    assert_eq!(chunks[0].preview(0), "");
}

fn candidate(kind: ChunkKind, start_byte: usize, end_byte: usize) -> CandidateChunk {
    CandidateChunk { kind, start_byte, end_byte, start_line: 1, end_line: 1 }
}

fn ranges(v: &[CandidateChunk]) -> Vec<(usize, usize)> {
    v.iter().map(|c| (c.start_byte, c.end_byte)).collect()
}

#[test]
fn nested_candidates_are_removed() {
    let f = ChunkKind::Function;
    let v = vec![
        candidate(f, 0, 10),
        candidate(f, 2, 5),
        candidate(f, 8, 12),
        candidate(f, 10, 12),
        candidate(f, 0, 20),
    ];
    assert_eq!(ranges(&remove_nested_duplicates(v)), vec![(0, 10), (8, 12), (0, 20)]);
}

#[test]
fn candidates_are_sorted_stably() {
    let f = ChunkKind::Function;
    let v = vec![candidate(f, 5, 6), candidate(f, 1, 9), candidate(f, 5, 3), candidate(f, 1, 2)];
    assert_eq!(ranges(&sort_by_start(v)), vec![(1, 9), (1, 2), (5, 6), (5, 3)]);
}

#[test]
fn gaps_are_included_unless_blank() {
    let source = "// x\nfn a() {}\n\nfn b() {} // y\n";
    let f = ChunkKind::Function;
    let v = include_gaps_as_chunks(source, vec![candidate(f, 5, 14), candidate(f, 16, 25)]);
    assert_eq!(ranges(&v), vec![(0, 5), (5, 14), (16, 25), (25, 31)]);
    assert_eq!(v[0].kind, ChunkKind::Gap);
    assert_eq!((v[0].start_line, v[0].end_line), (1, 2));
    assert_eq!((v[3].start_line, v[3].end_line), (4, 5));
}

#[test]
fn lines_are_counted_from_one() {
    let source = "a\nb\n\u{e9}\n";
    assert_eq!(byte_to_line(source, 0), 1);
    assert_eq!(byte_to_line(source, 1), 1);
    assert_eq!(byte_to_line(source, 2), 2);
    assert_eq!(byte_to_line(source, 7), 4);
    let gap = gap_chunk(source, 2, 7);
    assert_eq!((gap.start_line, gap.end_line), (2, 4));
}

#[test]
fn kinds_of_merged_chunks() {
    let (f, g, s) = (ChunkKind::Function, ChunkKind::Gap, ChunkKind::Struct);
    assert_eq!(merge_kind(&f, &f), f);
    assert_eq!(merge_kind(&g, &f), f);
    assert_eq!(merge_kind(&f, &g), f);
    assert_eq!(merge_kind(&g, &g), g);
    assert_eq!(merge_kind(&f, &s), ChunkKind::Mixed);
}

#[test]
fn merging_respects_target_and_limit() {
    let source = "aaaaabbbbbccccc";
    let (f, g) = (ChunkKind::Function, ChunkKind::Gap);
    let config = |max_chars, target_chars| ChunkConfig { max_chars, target_chars };
    let parts = || vec![candidate(f, 0, 5), candidate(f, 5, 10), candidate(f, 10, 15)];
    assert_eq!(ranges(&merge_small_neighbors(source, parts(), config(15, 6))), vec![(0, 10), (10, 15)]);
    assert_eq!(ranges(&merge_small_neighbors(source, parts(), config(15, 11))), vec![(0, 15)]);
    assert_eq!(
        ranges(&merge_small_neighbors(source, parts(), config(15, 5))),
        vec![(0, 5), (5, 10), (10, 15)]
    );
    let gap = vec![candidate(f, 0, 5), candidate(g, 5, 10), candidate(f, 10, 15)];
    assert_eq!(ranges(&merge_small_neighbors(source, gap, config(10, 0))), vec![(0, 10), (10, 15)]);
    assert_eq!(ranges(&merge_small_neighbors(source, vec![], config(10, 0))), vec![]);
    // Ranges out of order stay apart where nothing allows to merge them.
    let unordered = vec![candidate(f, 10, 12), candidate(f, 3, 11), candidate(f, 2, 9)];
    assert_eq!(
        ranges(&merge_small_neighbors(source, unordered, config(15, 0))),
        vec![(10, 12), (3, 11), (2, 9)]
    );
    // A single range is not measured.
    let single = vec![candidate(f, 10, 99)];
    assert_eq!(ranges(&merge_small_neighbors(source, single, config(15, 0))), vec![(10, 99)]);
}

#[test]
fn boundary_kinds() {
    assert!(is_semantic_boundary("function_item"));
    assert!(is_semantic_boundary("use_declaration"));
    assert!(!is_semantic_boundary("source_file"));
    assert!(!is_semantic_boundary("function"));
}

fn node(kind: &'static str, named: bool, depth: usize, start_byte: usize, end_byte: usize) -> SyntaxNode {
    SyntaxNode {
        kind,
        named,
        has_error: false,
        depth,
        start_byte,
        end_byte,
        start_row: 0,
        end_row: 0,
    }
}

#[test]
fn trees_are_told_from_other_lists() {
    let s = "h\u{e9}llo w";
    let root = node("source_file", true, 0, 0, 8);
    assert!(check_syntax_tree(s, &vec![root]));
    assert!(!check_syntax_tree(s, &vec![]));
    // A child, a grandchild and a second child.
    let a = node("a", true, 1, 0, 4);
    let b = node("b", true, 2, 1, 3);
    let c = node("c", true, 1, 4, 8);
    assert!(check_syntax_tree(s, &vec![root, a, b, c]));
    // A second root, a skipped level, an overlap, a child outside its parent.
    assert!(!check_syntax_tree(s, &vec![root, root]));
    assert!(!check_syntax_tree(s, &vec![root, b]));
    assert!(!check_syntax_tree(s, &vec![root, a, node("c", true, 1, 3, 8)]));
    assert!(!check_syntax_tree(s, &vec![root, a, node("b", true, 2, 1, 5)]));
    // Rows that are not those of the range.
    let mut late = root;
    late.end_row = 1;
    assert!(!check_syntax_tree(s, &vec![late]));
    assert!(check_syntax_tree("h\u{e9}ll\n w", &vec![late]));
    late.start_row = 1;
    assert!(!check_syntax_tree("h\u{e9}ll\n w", &vec![late]));
    // A range that cuts a character, ends before it starts, or leaves the text.
    assert!(!check_syntax_tree(s, &vec![node("r", true, 0, 2, 8)]));
    assert!(!check_syntax_tree(s, &vec![node("r", true, 0, 4, 3)]));
    assert!(!check_syntax_tree(s, &vec![node("r", true, 0, 0, 9)]));
}

#[test]
fn tree_is_searched_through_named_nodes() {
    let source = "aaaa bbbb cccc dddd";
    let nodes = vec![
        node("source_file", true, 0, 0, 19),
        // Hidden in an unnamed node.
        node("x", false, 1, 0, 4),
        node("function_item", true, 2, 0, 4),
        // Too long, with a named child that is a block.
        node("impl_item", true, 1, 5, 14),
        node("struct_item", true, 2, 5, 9),
        node("y", false, 2, 10, 14),
        // Too long, without named children.
        node("macro_definition", true, 1, 15, 19),
        node("z", false, 2, 15, 19),
    ];
    assert!(check_syntax_tree(source, &nodes));
    let config = ChunkConfig { max_chars: 4, target_chars: 1 };
    let mut found = Vec::new();
    collect_semantic_candidates(&nodes, source, 4, &mut found);
    assert_eq!(ranges(&found), vec![(5, 9), (15, 19)]);
    let chunks = chunk_tree(source, &nodes, config);
    let texts: Vec<&str> = chunks.iter().map(|c| c.text.as_str()).collect();
    assert_eq!(texts, vec!["aaaa ", "bbbb", " cccc ", "dddd"]);
    // A limit of three makes the struct a block that cannot be taken apart.
    found.clear();
    collect_semantic_candidates(&nodes, source, 3, &mut found);
    assert_eq!(ranges(&found), vec![(5, 9), (15, 19)]);
    // A large limit keeps the impl whole.
    found.clear();
    collect_semantic_candidates(&nodes, source, 9, &mut found);
    assert_eq!(ranges(&found), vec![(5, 14), (15, 19)]);
}

#[test]
fn limits_are_checked() {
    let config = |max_chars, target_chars| ChunkConfig { max_chars, target_chars };
    assert_eq!(check_limits("", config(1000, 1000)), Ok(()));
    assert_eq!(check_limits("", config(1000, 0)), Ok(()));
    assert_eq!(check_limits("", config(999, 0)), Err(ChunkError::MaxCharsTooSmall));
    assert_eq!(check_limits("", config(999, 1000)), Err(ChunkError::MaxCharsTooSmall));
    assert_eq!(check_limits("", config(1000, 1001)), Err(ChunkError::TargetAboveMax));
}

#[test]
fn outcome_of_a_parse_is_read() {
    let none = chunk_parsed("fn f() {}", CONFIG, &Ok(None));
    assert!(matches!(none, Err(ChunkError::NotParsed)));
    let empty = chunk_parsed("fn f() {}", CONFIG, &Ok(Some(vec![])));
    assert!(matches!(empty, Err(ChunkError::MalformedTree)));
    let nodes = vec![node("source_file", true, 0, 0, 9), node("function_item", true, 1, 0, 9)];
    let chunks = chunk_parsed("fn f() {}", CONFIG, &Ok(Some(nodes))).unwrap();
    assert_eq!(chunks.len(), 1);
    assert_eq!(chunks[0].kind, ChunkKind::Function);
    assert_eq!(chunks[0].text, "fn f() {}");
    assert_eq!(ChunkError::SourceTooLarge.message(), "source is too large for tree-sitter");
    assert_eq!(
        ChunkError::MalformedTree.message(),
        "tree-sitter returned a malformed syntax tree"
    );
}

#[test]
fn long_function_without_inner_items_is_kept() {
    let source = filler("long", 200);
    let config = ChunkConfig { max_chars: 1000, target_chars: 600 };
    let chunks = chunk_rust_source(&source, config).unwrap();
    check_partition(&source, &chunks);
    assert_eq!(chunks.len(), 1);
    assert_eq!(chunks[0].kind, ChunkKind::Function);
    assert_eq!(chunks[0].text, source.trim_end());
}

#[test]
fn long_functions_are_chunks_of_their_own() {
    let mut source = String::from("// Two long functions.\n");
    source.push_str(&filler("first", 200));
    source.push_str(&filler("second", 200));
    source.push_str("struct S;\n");
    let config = ChunkConfig { max_chars: 1000, target_chars: 600 };
    let chunks = chunk_rust_source(&source, config).unwrap();
    check_partition(&source, &chunks);
    let kinds: Vec<ChunkKind> = chunks.iter().map(|c| c.kind).collect();
    assert_eq!(
        kinds,
        vec![ChunkKind::Gap, ChunkKind::Function, ChunkKind::Function, ChunkKind::Struct]
    );
    assert_eq!(chunks[1].text, filler("first", 200).trim_end());
    assert_eq!(chunks[2].text, filler("second", 200).trim_end());
}

#[test]
fn long_method_without_inner_items_is_kept() {
    let mut source = String::from("impl S {\n");
    source.push_str(&filler("short", 5));
    source.push_str(&filler("long", 200));
    source.push_str("}\n");
    let config = ChunkConfig { max_chars: 1000, target_chars: 600 };
    let chunks = chunk_rust_source(&source, config).unwrap();
    check_partition(&source, &chunks);
    assert!(chunks.iter().any(
        |c| c.kind == ChunkKind::Function && c.text == filler("long", 200).trim_end()
    ));
}

#[test]
fn long_function_with_an_inner_item_is_taken_apart() {
    let mut source = String::from("fn outer() {\n    const N: u8 = 1;\n");
    source.push_str(&"    call();\n".repeat(200));
    source.push_str("}\n");
    let config = ChunkConfig { max_chars: 1000, target_chars: 600 };
    let chunks = chunk_rust_source(&source, config).unwrap();
    check_partition(&source, &chunks);
    let kinds: Vec<ChunkKind> = chunks.iter().map(|c| c.kind).collect();
    assert_eq!(kinds, vec![ChunkKind::Const, ChunkKind::Gap]);
    assert_eq!(chunks[0].text, "fn outer() {\n    const N: u8 = 1;");
}

#[test]
fn blocks_behind_unnamed_nodes_are_no_inner_blocks() {
    let source = "aaaa bbbb";
    let nodes = vec![
        node("function_item", true, 0, 0, 9),
        node("x", true, 1, 0, 4),
        node("y", false, 1, 5, 9),
        node("struct_item", true, 2, 5, 9),
    ];
    assert!(check_syntax_tree(source, &nodes));
    let mut found = Vec::new();
    collect_semantic_candidates(&nodes, source, 4, &mut found);
    assert_eq!(ranges(&found), vec![(0, 9)]);
}
