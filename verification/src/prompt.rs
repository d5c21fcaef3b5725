//! The prompts that are sent to the model.

use crate::chunker::{ChunkView, CodeChunk};
use crate::text;
use vstd::prelude::*;

verus! {

/// What the model is asked to pay attention to.
#[derive(Debug, Clone, Copy, PartialEq, Eq, Structural)]
pub enum PromptProfile {
    /// General explanations.
    Explain,
    /// Comments that help maintainers and future LLM analysis.
    MaintainerComments,
    /// Focus on risky logic and security-sensitive areas.
    Security,
    /// Focus on architecture, responsibilities, and boundaries.
    Architecture,
}

/// Instructions of the profile `Explain`.
pub const EXPLAIN: &'static str = "Focus on clear explanations of purpose, inputs, outputs, and control flow.";

/// Instructions of the profile `MaintainerComments`.
pub const MAINTAINER_COMMENTS: &'static str = "Focus on comments that help humans and future LLMs understand architecture, business rules, side effects, and non-obvious implementation decisions.";

/// Instructions of the profile `Security`.
pub const SECURITY: &'static str = "Focus on security-sensitive behavior: parsing, auth, tokens, secrets, external calls, file system writes, unsafe assumptions, and error handling.";

/// Instructions of the profile `Architecture`.
pub const ARCHITECTURE: &'static str = "Focus on module responsibility, boundaries, dependencies, data flow, and how this chunk fits into the larger system.";

/// Opening of the analysis prompt, before the instructions of the profile.
pub const ANALYSIS_ROLE: &'static str = r#"You are a senior Rust engineer reviewing one complete semantic code chunk.

Profile:
"#;

/// The analysis prompt between the instructions and the index of the chunk.
pub const ANALYSIS_TASK: &'static str = r#"

Task:
1. Explain what this code does.
2. Identify public APIs, important structs, functions, traits, and side effects.
3. Identify places where comments would help future maintainers and future LLM code analysis.
4. Suggest concise Rust doc comments or inline comments.
5. Do not rewrite the whole file.
6. Do not invent context outside this chunk.
7. If the chunk is incomplete, say exactly what context is missing.

Chunk metadata:
- chunk_index: "#;

/// The analysis prompt between the line numbers and the code.
pub const ANALYSIS_CODE: &'static str = r#"

Code chunk:
```rust
"#;

/// End of the analysis prompt, behind the code.
pub const ANALYSIS_END: &'static str = r#"
```
"#;

/// Opening of the commenting prompt, before the instructions of the profile.
pub const COMMENTING_ROLE: &'static str = r#"You are a senior Rust engineer adding useful comments to code.

Return ONLY valid Rust code for this chunk.

Profile:
"#;

/// The commenting prompt between the instructions and the index of the chunk.
pub const COMMENTING_RULES: &'static str = r#"

Rules:
- Preserve the original behavior exactly.
- Preserve function names, types, visibility, attributes, derives, and signatures.
- Add concise comments only where they improve understanding.
- Keep existing comments that are already clear and useful.
- Improve existing comments when they are vague, outdated, redundant, or missing important context.
- Prefer Rust doc comments `///` for public functions, structs, enums, traits, and methods.
- Use inline `//` comments only for non-obvious logic.
- Comment architecture, business rules, side effects, I/O, security-sensitive logic, parsing, retries, cache behavior, and failure modes.
- Do not over-comment obvious code.
- Do not wrap the result in Markdown fences.
- Do not explain your changes outside the code.
- Do not remove good existing comments.
- Do not add TODOs unless the original code already implies incomplete behavior.

Chunk metadata:
- chunk_index: "#;

/// The commenting prompt between the line numbers and the code.
pub const COMMENTING_CODE: &'static str = r#"

Original code:
"#;

/// End of the commenting prompt, behind the code.
pub const COMMENTING_END: &'static str = r#"
"#;

/// The instructions of a profile.
pub open spec fn instructions(profile: PromptProfile) -> Seq<char> {
    match profile {
        PromptProfile::Explain => EXPLAIN@,
        PromptProfile::MaintainerComments => MAINTAINER_COMMENTS@,
        PromptProfile::Security => SECURITY@,
        PromptProfile::Architecture => ARCHITECTURE@,
    }
}

/// The instructions of a profile.
pub fn profile_instructions(profile: PromptProfile) -> (r: &'static str)
    ensures
        r@ == instructions(profile),
{
    match profile {
        PromptProfile::Explain => EXPLAIN,
        PromptProfile::MaintainerComments => MAINTAINER_COMMENTS,
        PromptProfile::Security => SECURITY,
        PromptProfile::Architecture => ARCHITECTURE,
    }
}

/// A prompt up to the code of the chunk.
pub open spec fn prompt_head(
    role: Seq<char>,
    task: Seq<char>,
    code: Seq<char>,
    chunk: ChunkView,
    profile: PromptProfile,
) -> Seq<char> {
    role + instructions(profile) + task + text::decimal(chunk.index as nat) + "\n- kind: "@
        + chunk.kind.label() + "\n- lines: "@ + text::decimal(chunk.start_line as nat) + "-"@
        + text::decimal(chunk.end_line as nat) + code
}

/// The prompt that asks for an analysis of a chunk.
pub open spec fn analysis_prompt(chunk: ChunkView, profile: PromptProfile) -> Seq<char> {
    prompt_head(ANALYSIS_ROLE@, ANALYSIS_TASK@, ANALYSIS_CODE@, chunk, profile) + chunk.text
        + ANALYSIS_END@
}

/// The prompt that asks for a commented version of a chunk.
pub open spec fn commenting_prompt(chunk: ChunkView, profile: PromptProfile) -> Seq<char> {
    prompt_head(COMMENTING_ROLE@, COMMENTING_RULES@, COMMENTING_CODE@, chunk, profile) + chunk.text
        + COMMENTING_END@
}

/// Writes a prompt up to the code of the chunk.
fn write_head(
    role: &str,
    task: &str,
    code: &str,
    chunk: &CodeChunk,
    profile: PromptProfile,
) -> (r: String)
    ensures
        r@ == prompt_head(role@, task@, code@, chunk@, profile),
{
    let mut r = String::new();
    r.append(role);
    assert(r@ == role@);
    r.append(profile_instructions(profile));
    r.append(task);
    text::push_decimal(&mut r, chunk.index);
    r.append("\n- kind: ");
    r.append(chunk.kind.as_str());
    r.append("\n- lines: ");
    text::push_decimal(&mut r, chunk.start_line);
    r.append("-");
    text::push_decimal(&mut r, chunk.end_line);
    r.append(code);
    r
}

/// The prompt that asks for an analysis of a chunk.
pub fn build_analysis_prompt(chunk: &CodeChunk, profile: PromptProfile) -> (r: String)
    ensures
        r@ == analysis_prompt(chunk@, profile),
{
    let mut r = write_head(ANALYSIS_ROLE, ANALYSIS_TASK, ANALYSIS_CODE, chunk, profile);
    r.append(chunk.text.as_str());
    r.append(ANALYSIS_END);
    r
}

/// The prompt that asks for a commented version of a chunk.
pub fn build_commenting_prompt(chunk: &CodeChunk, profile: PromptProfile) -> (r: String)
    ensures
        r@ == commenting_prompt(chunk@, profile),
{
    let mut r = write_head(COMMENTING_ROLE, COMMENTING_RULES, COMMENTING_CODE, chunk, profile);
    r.append(chunk.text.as_str());
    r.append(COMMENTING_END);
    r
}

/// Both prompts hold the text of the chunk unchanged.
pub proof fn law_prompts_hold_the_code(chunk: ChunkView, profile: PromptProfile)
    ensures
        text::occurs(analysis_prompt(chunk, profile), chunk.text),
        text::occurs(commenting_prompt(chunk, profile), chunk.text),
{
    let a = prompt_head(ANALYSIS_ROLE@, ANALYSIS_TASK@, ANALYSIS_CODE@, chunk, profile);
    let i = a.len() as int;
    assert(analysis_prompt(chunk, profile).subrange(i, i + chunk.text.len()) == chunk.text);
    let c = prompt_head(COMMENTING_ROLE@, COMMENTING_RULES@, COMMENTING_CODE@, chunk, profile);
    let j = c.len() as int;
    assert(commenting_prompt(chunk, profile).subrange(j, j + chunk.text.len()) == chunk.text);
}

} // verus!
