use paladin_commenter::chunk_kind::ChunkKind;
use paladin_commenter::chunker::{chunk_rust_source, ChunkConfig, CodeChunk};
use paladin_commenter::rewrite::{
    build_rewritten_source, check_spliceable, normalize_generated_chunk, validate_generated_chunk,
    validate_text, validate_tree, ValidationError,
};
use paladin_commenter::syntax::SyntaxNode;

fn chunk(source: &str, index: usize, start_byte: usize, end_byte: usize) -> CodeChunk {
    CodeChunk {
        index,
        kind: ChunkKind::Function,
        start_byte,
        end_byte,
        start_line: 1,
        end_line: 1,
        text: source[start_byte..end_byte].to_string(),
    }
}

#[test]
fn strips_rust_fences() {
    let input = "```rust\nfn demo() {}\n```";
    assert_eq!(normalize_generated_chunk(input), "fn demo() {}");
}

#[test]
fn strips_plain_fences() {
    let input = "```\nfn demo() {}\n```";
    assert_eq!(normalize_generated_chunk(input), "fn demo() {}");
}

#[test]
fn leaves_unfenced_code_alone() {
    let input = "fn demo() {}";
    assert_eq!(normalize_generated_chunk(input), "fn demo() {}");
}

#[test]
fn normalizing_trims_and_keeps_inner_lines() {
    assert_eq!(normalize_generated_chunk("  \n x \n"), "x");
    assert_eq!(
        normalize_generated_chunk("\n```rust\n\n  a\n\n  b\n\n  ```  \n"),
        "a\n\n  b"
    );
    assert_eq!(normalize_generated_chunk("```rust\r\na\r\nb\r\n```"), "a\nb");
}

#[test]
fn normalizing_keeps_incomplete_fences() {
    assert_eq!(normalize_generated_chunk("```"), "```");
    assert_eq!(normalize_generated_chunk("```rust fn f() {} ```"), "```rust fn f() {} ```");
    assert_eq!(normalize_generated_chunk("```rust\nfn f() {}"), "```rust\nfn f() {}");
    assert_eq!(normalize_generated_chunk("fn f() {}\n```"), "fn f() {}\n```");
    assert_eq!(normalize_generated_chunk("```\n```"), "");
}

#[test]
fn normalized_text_is_trimmed() {
    for s in ["", "  ", "```\n  \n```", " ```\n x \n``` ", "plain"] {
        let n = normalize_generated_chunk(s);
        assert_eq!(n.trim(), n);
    }
}

#[test]
fn valid_replacement_passes() {
    let original = "fn f() -> i32 { 1 }";
    assert_eq!(validate_generated_chunk("/// One.\nfn f() -> i32 { 1 }", original), Ok(()));
}

#[test]
fn empty_replacement_is_refused() {
    assert_eq!(validate_generated_chunk("", "fn f() {}"), Err(ValidationError::Empty));
    assert_eq!(validate_generated_chunk(" \n\t", "fn f() {}"), Err(ValidationError::Empty));
    assert_eq!(ValidationError::Empty.message(), "model returned an empty chunk");
}

#[test]
fn fences_are_refused() {
    assert_eq!(
        validate_generated_chunk("```rust\nfn f() {}\n```", "fn f() {}"),
        Err(ValidationError::MarkdownFences)
    );
    assert_eq!(
        ValidationError::MarkdownFences.message(),
        "model returned Markdown fences instead of raw Rust code"
    );
}

#[test]
fn replacement_may_be_three_times_as_long() {
    let original = "// 4567";
    assert_eq!(validate_text("// 456789012345678901", original), Ok(()));
    assert_eq!(validate_text("// 4567890123456789012", original), Err(ValidationError::TooLarge));
    // An empty original counts as one character.
    assert_eq!(validate_text("abc", ""), Ok(()));
    assert_eq!(validate_text("abcd", ""), Err(ValidationError::TooLarge));
    assert_eq!(
        ValidationError::TooLarge.message(),
        "model output is more than 3x larger than original chunk; refusing unsafe replacement"
    );
}

#[test]
fn parse_errors_are_refused() {
    assert_eq!(
        validate_generated_chunk("fn f( { }", "fn f() { }"),
        Err(ValidationError::ParseErrors)
    );
    assert_eq!(
        ValidationError::ParseErrors.message(),
        "generated chunk contains Rust parse errors"
    );
}

#[test]
fn reading_the_outcome_of_a_parse() {
    let root = |has_error: bool| SyntaxNode {
        kind: "source_file",
        named: true,
        has_error,
        depth: 0,
        start_byte: 0,
        end_byte: 0,
        start_row: 0,
        end_row: 0,
    };
    assert_eq!(validate_tree(&Ok(Some(vec![root(false)]))), Ok(()));
    assert_eq!(validate_tree(&Ok(Some(vec![root(true)]))), Err(ValidationError::ParseErrors));
    assert_eq!(validate_tree(&Ok(Some(vec![]))), Err(ValidationError::NotParsed));
    assert_eq!(validate_tree(&Ok(None)), Err(ValidationError::NotParsed));
    assert_eq!(
        ValidationError::NotParsed.message(),
        "tree-sitter failed to parse generated chunk"
    );
    assert_eq!(
        ValidationError::GrammarRejected.message(),
        "failed to load tree-sitter Rust grammar"
    );
}

#[test]
fn replacements_are_spliced_in() {
    let source = "// top\nfn a() {}\n\nfn b() {}\n// end\n";
    let a = (chunk(source, 1, 7, 16), "/// A.\nfn a() {}\n\n".to_string());
    let b = (chunk(source, 2, 18, 27), "/// B.\nfn b() {}".to_string());
    let expected = "// top\n/// A.\nfn a() {}\n\n\n/// B.\nfn b() {}\n\n// end\n";
    assert!(check_spliceable(source, &[a.clone(), b.clone()]));
    assert_eq!(build_rewritten_source(source, &[a.clone(), b.clone()]), expected);
    // The order in which replacements are given does not matter.
    assert_eq!(build_rewritten_source(source, &[b, a]), expected);
}

#[test]
fn no_replacement_changes_nothing() {
    let source = "fn a() {}\n\n\nfn b() {}";
    assert_eq!(build_rewritten_source(source, &[]), source);
    assert_eq!(build_rewritten_source("", &[]), "");
}

#[test]
fn replacements_outside_the_source_are_recognised() {
    let source = "h\u{e9}llo";
    let mut bad = chunk(source, 1, 0, 0);
    bad.start_byte = 2;
    bad.end_byte = 3;
    assert!(!check_spliceable(source, &[(bad.clone(), String::new())]));
    bad.start_byte = 1;
    bad.end_byte = 2;
    assert!(!check_spliceable(source, &[(bad.clone(), String::new())]));
    bad.end_byte = 100;
    assert!(check_spliceable(source, &[(bad, String::new())]));
}

#[test]
fn replacing_chunks_by_themselves_keeps_the_code() {
    let mut source = String::from("#![allow(dead_code)]\n\nuse std::fmt;\n\n");
    for i in 0..60 {
        source.push_str(&format!("/// Number {}.\nfn f{}() -> usize {{\n    {}\n}}\n\n", i, i, i));
    }
    let config = ChunkConfig { max_chars: 1000, target_chars: 500 };
    let chunks = chunk_rust_source(&source, config).unwrap();
    assert!(chunks.len() > 2);
    let replacements: Vec<(CodeChunk, String)> =
        chunks.iter().skip(1).step_by(2).map(|c| (c.clone(), c.text.clone())).collect();
    assert!(check_spliceable(&source, &replacements));
    let rewritten = build_rewritten_source(&source, &replacements);
    let visible = |s: &str| s.chars().filter(|c| !c.is_whitespace()).collect::<String>();
    assert_eq!(visible(&rewritten), visible(&source));
}

#[test]
fn text_beyond_ascii_is_validated() {
    let original = "fn f() -> &'static str { \"x\" }";
    let generated = "/// Gr\u{fc}\u{df}e.\nfn f() -> &'static str { \"x\" }";
    assert_eq!(validate_generated_chunk(generated, original), Ok(()));
    assert_eq!(validate_generated_chunk("fn \u{e9}(", "fn f() {}"), Err(ValidationError::ParseErrors));
}
