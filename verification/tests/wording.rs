use paladin_commenter::chunk_kind::ChunkKind;
use paladin_commenter::chunker::CodeChunk;
use paladin_commenter::cli::{Cli, LogLevel, Mode};
use paladin_commenter::ollama::{
    check_model_listed, GenerateResponse, ModelInfo, OllamaClient, OllamaError, TagsResponse,
};
use paladin_commenter::prompt::{
    build_analysis_prompt, build_commenting_prompt, profile_instructions, PromptProfile,
};
use paladin_commenter::report::{
    format_analysis_output, format_boundary_line, render_markdown_report, AnalysisItem,
};

fn chunk() -> CodeChunk {
    CodeChunk {
        index: 7,
        kind: ChunkKind::Impl,
        start_byte: 100,
        end_byte: 114,
        start_line: 12,
        end_line: 13,
        text: "impl \u{c9} {\n\n}".to_string(),
    }
}

#[test]
fn analysis_prompt_is_worded() {
    let expected = "You are a senior Rust engineer reviewing one complete semantic code chunk.

Profile:
Focus on security-sensitive behavior: parsing, auth, tokens, secrets, external calls, file system writes, unsafe assumptions, and error handling.

Task:
1. Explain what this code does.
2. Identify public APIs, important structs, functions, traits, and side effects.
3. Identify places where comments would help future maintainers and future LLM code analysis.
4. Suggest concise Rust doc comments or inline comments.
5. Do not rewrite the whole file.
6. Do not invent context outside this chunk.
7. If the chunk is incomplete, say exactly what context is missing.

Chunk metadata:
- chunk_index: 7
- kind: impl
- lines: 12-13

Code chunk:
```rust
impl \u{c9} {

}
```
";
    assert_eq!(build_analysis_prompt(&chunk(), PromptProfile::Security), expected);
}

#[test]
fn commenting_prompt_is_worded() {
    let expected = "You are a senior Rust engineer adding useful comments to code.

Return ONLY valid Rust code for this chunk.

Profile:
Focus on module responsibility, boundaries, dependencies, data flow, and how this chunk fits into the larger system.

Rules:
- Preserve the original behavior exactly.
- Preserve function names, types, visibility, attributes, derives, and signatures.
- Add concise comments only where they improve understanding.
- Keep existing comments that are already clear and useful.
- Improve existing comments when they are vague, outdated, redundant, or missing important context.
- Prefer Rust doc comments `///` for public functions, structs, enums, traits, and methods.
- Use inline `//` comments only for non-obvious logic.
- Comment architecture, business rules, side effects, I/O, security-sensitive logic, parsing, retries, cache behavior, and failure modes.
- Do not over-comment obvious code.
- Do not wrap the result in Markdown fences.
- Do not explain your changes outside the code.
- Do not remove good existing comments.
- Do not add TODOs unless the original code already implies incomplete behavior.

Chunk metadata:
- chunk_index: 7
- kind: impl
- lines: 12-13

Original code:
impl \u{c9} {

}
";
    assert_eq!(build_commenting_prompt(&chunk(), PromptProfile::Architecture), expected);
}

#[test]
fn profiles_have_instructions() {
    assert_eq!(
        profile_instructions(PromptProfile::Explain),
        "Focus on clear explanations of purpose, inputs, outputs, and control flow."
    );
    assert_eq!(
        profile_instructions(PromptProfile::MaintainerComments),
        "Focus on comments that help humans and future LLMs understand architecture, business rules, side effects, and non-obvious implementation decisions."
    );
}

#[test]
fn mode_chooses_the_prompt() {
    let mut cli = Cli {
        max_chars: 6000,
        target_chars: 3500,
        mode: Mode::Analyze,
        profile: PromptProfile::Explain,
        cache_ttl: 0,
        from_chunk: None,
        only_chunk: None,
        skip_failed: false,
        max_retries: 1,
        log_level: LogLevel::Info,
        quiet: false,
    };
    let c = chunk();
    assert_eq!(cli.build_prompt(&c), build_analysis_prompt(&c, PromptProfile::Explain));
    cli.mode = Mode::Comment;
    assert_eq!(cli.build_prompt(&c), build_commenting_prompt(&c, PromptProfile::Explain));
    cli.mode = Mode::Rewrite;
    assert_eq!(cli.build_prompt(&c), build_commenting_prompt(&c, PromptProfile::Explain));
}

#[test]
fn prompts_hold_the_code() {
    let c = chunk();
    assert!(build_analysis_prompt(&c, PromptProfile::Explain).contains(&c.text));
    assert!(build_commenting_prompt(&c, PromptProfile::Explain).contains(&c.text));
}

#[test]
fn boundaries_are_listed() {
    assert_eq!(format_boundary_line(&chunk()), "  #007 impl lines 12-13 chars=11 bytes=100..114");
}

#[test]
fn items_show_the_first_lines() {
    let mut c = chunk();
    c.text = (1..=30).map(|i| format!("line {}", i)).collect::<Vec<String>>().join("\n");
    let item = AnalysisItem::new(&c, "answer".to_string());
    assert_eq!(item.index, 7);
    assert_eq!(item.kind, "impl");
    assert_eq!((item.start_line, item.end_line), (12, 13));
    assert!(item.source_preview.ends_with("line 23\nline 24"));
    assert_eq!(item.model_response, "answer");
}

#[test]
fn markdown_report_is_worded() {
    let items = [AnalysisItem::new(&chunk(), "Fine.".to_string())];
    let expected = "# Paladin Code Analysis Report\n\nInput file: `src/a.rs`\n\nTotal processed chunks: `1`\n\n## Chunk #007 \u{2014} `impl` lines 12-13\n\n### Source preview\n\n```rust\nimpl \u{c9} {\n\n}\n```\n\n### Model response\n\nFine.\n\n---\n\n";
    assert_eq!(render_markdown_report("src/a.rs", &items), expected);
    assert_eq!(
        render_markdown_report("b", &[]),
        "# Paladin Code Analysis Report\n\nInput file: `b`\n\nTotal processed chunks: `0`\n\n"
    );
}

#[test]
fn plain_report_is_worded() {
    let item = AnalysisItem::new(&chunk(), "Fine.".to_string());
    let items = [item.clone(), item];
    let section = "Chunk #007 [impl] lines 12-13\nSource preview:\nimpl \u{c9} {\n\n}\n\nModel response:\nFine.\n\n";
    let expected =
        format!("Input file: src/a.rs\nTotal processed chunks: 2\n\n{}{}", section, section);
    assert_eq!(format_analysis_output("src/a.rs", &items), expected);
}

#[test]
fn server_addresses_are_built() {
    let client = OllamaClient::new("http://host:1//".to_string(), "m".to_string(), 240, 8192);
    assert_eq!(client.base_url, "http://host:1");
    assert_eq!(client.tags_url(), "http://host:1/api/tags");
    assert_eq!(client.generate_url(), "http://host:1/api/generate");
    assert_eq!(client.timeout_seconds, 240);
}

#[test]
fn requests_are_built() {
    let client = OllamaClient::new("http://host".to_string(), "m".to_string(), 240, 8192);
    let request = client.generate_request("Hello");
    assert_eq!(request.model, "m");
    assert_eq!(request.prompt, "Hello");
    assert!(!request.stream);
    assert_eq!(request.options.temperature_percent, 10);
    assert_eq!(request.options.num_ctx, 8192);
    assert_eq!(request.options.repeat_penalty_percent, 112);
}

#[test]
fn replies_are_read() {
    let client = OllamaClient::new("http://host".to_string(), "m".to_string(), 240, 8192);
    let reply = |done: bool| GenerateResponse { response: "\n  answer \n".to_string(), done };
    assert_eq!(client.generate(reply(true)), Ok("answer".to_string()));
    let error = client.generate(reply(false)).unwrap_err();
    assert_eq!(error, OllamaError::Unfinished);
    assert_eq!(error.message(), "Ollama response did not finish cleanly");
}

#[test]
fn models_are_listed_and_checked() {
    let client = OllamaClient::new("http://host".to_string(), "b".to_string(), 240, 8192);
    let reply = TagsResponse {
        models: vec![ModelInfo { name: "a".to_string() }, ModelInfo { name: "b".to_string() }],
    };
    let models = client.list_models(reply);
    assert_eq!(models, vec!["a".to_string(), "b".to_string()]);
    assert_eq!(check_model_listed(&models, "b"), Ok(()));
    assert_eq!(
        check_model_listed(&models, "c"),
        Err("model 'c' was not found in Ollama. Available models: a, b".to_string())
    );
    assert_eq!(
        check_model_listed(&vec![], "c"),
        Err("model 'c' was not found in Ollama. Available models: ".to_string())
    );
}

const PROFILES: [PromptProfile; 4] = [
    PromptProfile::Explain,
    PromptProfile::MaintainerComments,
    PromptProfile::Security,
    PromptProfile::Architecture,
];

#[test]
fn profiles_give_different_prompts() {
    let c = chunk();
    for p in PROFILES {
        for q in PROFILES {
            assert_eq!(build_analysis_prompt(&c, p) == build_analysis_prompt(&c, q), p == q);
            assert_eq!(build_commenting_prompt(&c, p) == build_commenting_prompt(&c, q), p == q);
        }
    }
}

#[test]
fn commented_code_is_not_fenced() {
    let mut c = chunk();
    for p in PROFILES {
        c.text = "fn f() {} // `x` ``".to_string();
        assert!(!build_commenting_prompt(&c, p).contains("```"));
        c.text = "/// ```\nfn f() {}".to_string();
        assert!(build_commenting_prompt(&c, p).contains("```"));
    }
}

#[test]
fn prompts_ignore_byte_offsets() {
    let a = chunk();
    let mut b = chunk();
    b.start_byte = 0;
    b.end_byte = 14;
    for p in PROFILES {
        assert_eq!(build_commenting_prompt(&a, p), build_commenting_prompt(&b, p));
        assert_eq!(build_analysis_prompt(&a, p), build_analysis_prompt(&b, p));
    }
}
