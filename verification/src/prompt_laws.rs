//! What holds of every prompt.

use crate::chunk_kind::ChunkKind;
use crate::chunker::ChunkView;
use crate::prompt;
use crate::prompt::PromptProfile;
use crate::text;
use vstd::prelude::*;

verus! {

/// Whether two backticks stand side by side at position `i`.
spec fn double_tick(s: Seq<char>, i: int) -> bool {
    s[i] == '`' && s[i + 1] == '`'
}

/// Whether a text neither begins nor ends with a backtick and holds no two side by side.
spec fn is_fence_free(s: Seq<char>) -> bool {
    &&& s.len() > 0
    &&& s[0] != '`'
    &&& s.last() != '`'
    &&& forall|i: int| 0 <= i < s.len() - 1 ==> !#[trigger] double_tick(s, i)
}

proof fn lemma_fence_free_add(a: Seq<char>, b: Seq<char>)
    requires
        is_fence_free(a),
        is_fence_free(b),
    ensures
        is_fence_free(a + b),
{
    let s = a + b;
    assert forall|i: int| 0 <= i < s.len() - 1 implies !#[trigger] double_tick(s, i) by {
        if i < a.len() - 1 {
            assert(!double_tick(a, i));
        } else if i >= a.len() {
            assert(!double_tick(b, i - a.len()));
        }
    }
}

/// A text without backticks is free of fences.
proof fn lemma_tickless(s: Seq<char>)
    requires
        s.len() > 0,
        forall|i: int| 0 <= i < s.len() ==> #[trigger] s[i] != '`',
    ensures
        is_fence_free(s),
{
}

proof fn lemma_decimal_fence_free(n: nat)
    ensures
        is_fence_free(text::decimal(n)),
{
    text::lemma_decimal_value(n);
    lemma_tickless(text::decimal(n));
}

proof fn lemma_label_fence_free(kind: ChunkKind)
    ensures
        is_fence_free(kind.label()),
{
    match kind {
        ChunkKind::Function => {
            reveal_strlit("function");
            assert("function"@.len() == 8);
        },
        ChunkKind::Impl => {
            reveal_strlit("impl");
            assert("impl"@.len() == 4);
        },
        ChunkKind::Struct => {
            reveal_strlit("struct");
            assert("struct"@.len() == 6);
        },
        ChunkKind::Enum => {
            reveal_strlit("enum");
            assert("enum"@.len() == 4);
        },
        ChunkKind::Trait => {
            reveal_strlit("trait");
            assert("trait"@.len() == 5);
        },
        ChunkKind::Mod => {
            reveal_strlit("mod");
            assert("mod"@.len() == 3);
        },
        ChunkKind::Macro => {
            reveal_strlit("macro");
            assert("macro"@.len() == 5);
        },
        ChunkKind::Const => {
            reveal_strlit("const");
            assert("const"@.len() == 5);
        },
        ChunkKind::Static => {
            reveal_strlit("static");
            assert("static"@.len() == 6);
        },
        ChunkKind::Type => {
            reveal_strlit("type");
            assert("type"@.len() == 4);
        },
        ChunkKind::Use => {
            reveal_strlit("use");
            assert("use"@.len() == 3);
        },
        ChunkKind::Gap => {
            reveal_strlit("module_gap");
            assert("module_gap"@.len() == 10);
        },
        ChunkKind::Mixed => {
            reveal_strlit("mixed_semantic_block");
            assert("mixed_semantic_block"@.len() == 20);
        },
        ChunkKind::Unknown => {
            reveal_strlit("unknown");
            assert("unknown"@.len() == 7);
        },
    }
    lemma_tickless(kind.label());
}

/// The instructions are free of fences, and each profile has its own, which shows in two of
/// their first characters.
proof fn lemma_instructions(profile: PromptProfile)
    ensures
        is_fence_free(prompt::instructions(profile)),
        prompt::instructions(profile).len() > 10,
        prompt::instructions(profile)[9] == match profile {
            PromptProfile::Explain => 'c',
            PromptProfile::MaintainerComments => 'c',
            PromptProfile::Security => 's',
            PromptProfile::Architecture => 'm',
        },
        profile == PromptProfile::Explain ==> prompt::instructions(profile)[10] == 'l',
        profile == PromptProfile::MaintainerComments ==> prompt::instructions(profile)[10] == 'o',
{
    match profile {
        PromptProfile::Explain => {
            reveal_strlit("Focus on clear explanations of purpose, inputs, outputs, and control flow.");
            assert(prompt::EXPLAIN@.len() == 74);
        },
        PromptProfile::MaintainerComments => {
            reveal_strlit("Focus on comments that help humans and future LLMs understand architecture, business rules, side effects, and non-obvious implementation decisions.");
            assert(prompt::MAINTAINER_COMMENTS@.len() == 147);
        },
        PromptProfile::Security => {
            reveal_strlit("Focus on security-sensitive behavior: parsing, auth, tokens, secrets, external calls, file system writes, unsafe assumptions, and error handling.");
            assert(prompt::SECURITY@.len() == 145);
        },
        PromptProfile::Architecture => {
            reveal_strlit("Focus on module responsibility, boundaries, dependencies, data flow, and how this chunk fits into the larger system.");
            assert(prompt::ARCHITECTURE@.len() == 116);
        },
    }
    lemma_tickless(prompt::instructions(profile));
}

/// The opening of the commenting prompt is free of fences.
proof fn lemma_role_fence_free()
    ensures
        is_fence_free(prompt::COMMENTING_ROLE@),
{
    reveal_strlit(r#"You are a senior Rust engineer adding useful comments to code.

Return ONLY valid Rust code for this chunk.

Profile:
"#);
    let s = prompt::COMMENTING_ROLE@;
    assert(s.len() == 118);
}

/// The rules of the commenting prompt are free of fences, though they hold backticks.
proof fn lemma_rules_fence_free()
    ensures
        is_fence_free(prompt::COMMENTING_RULES@),
{
    reveal_strlit(r#"

Rules:
- Preserve the original behavior exactly.
- Preserve function names, types, visibility, attributes, derives, and signatures.
- Add concise comments only where they improve understanding.
- Keep existing comments that are already clear and useful.
- Improve existing comments when they are vague, outdated, redundant, or missing important context.
- Prefer Rust doc comments `///` for public functions, structs, enums, traits, and methods.
- Use inline `//` comments only for non-obvious logic.
- Comment architecture, business rules, side effects, I/O, security-sensitive logic, parsing, retries, cache behavior, and failure modes.
- Do not over-comment obvious code.
- Do not wrap the result in Markdown fences.
- Do not explain your changes outside the code.
- Do not remove good existing comments.
- Do not add TODOs unless the original code already implies incomplete behavior.

Chunk metadata:
- chunk_index: "#);
    let s = prompt::COMMENTING_RULES@;
    assert(s.len() == 923);
}

/// What stands before the code in the commenting prompt is free of fences and ends in a line
/// feed.
proof fn lemma_code_fence_free()
    ensures
        is_fence_free(prompt::COMMENTING_CODE@),
        prompt::COMMENTING_CODE@.last() == '\n',
{
    reveal_strlit(r#"

Original code:
"#);
    let s = prompt::COMMENTING_CODE@;
    assert(s.len() == 17);
}

/// The commenting prompt up to the code is free of fences and ends in a line feed.
proof fn lemma_head_fence_free(chunk: ChunkView, profile: PromptProfile)
    ensures
        ({
            let head = prompt::prompt_head(
                prompt::COMMENTING_ROLE@,
                prompt::COMMENTING_RULES@,
                prompt::COMMENTING_CODE@,
                chunk,
                profile,
            );
            is_fence_free(head) && head.last() == '\n'
        }),
{
    reveal_strlit("\n- kind: ");
    reveal_strlit("\n- lines: ");
    reveal_strlit("-");
    assert("\n- kind: "@.len() == 9);
    assert("\n- lines: "@.len() == 10);
    assert("-"@.len() == 1);
    lemma_tickless("\n- kind: "@);
    lemma_tickless("\n- lines: "@);
    lemma_tickless("-"@);
    lemma_role_fence_free();
    lemma_instructions(profile);
    lemma_rules_fence_free();
    lemma_label_fence_free(chunk.kind);
    lemma_decimal_fence_free(chunk.index as nat);
    lemma_decimal_fence_free(chunk.start_line as nat);
    lemma_decimal_fence_free(chunk.end_line as nat);
    lemma_code_fence_free();
    let a = prompt::COMMENTING_ROLE@;
    lemma_fence_free_add(a, prompt::instructions(profile));
    let a = a + prompt::instructions(profile);
    lemma_fence_free_add(a, prompt::COMMENTING_RULES@);
    let a = a + prompt::COMMENTING_RULES@;
    lemma_fence_free_add(a, text::decimal(chunk.index as nat));
    let a = a + text::decimal(chunk.index as nat);
    lemma_fence_free_add(a, "\n- kind: "@);
    let a = a + "\n- kind: "@;
    lemma_fence_free_add(a, chunk.kind.label());
    let a = a + chunk.kind.label();
    lemma_fence_free_add(a, "\n- lines: "@);
    let a = a + "\n- lines: "@;
    lemma_fence_free_add(a, text::decimal(chunk.start_line as nat));
    let a = a + text::decimal(chunk.start_line as nat);
    lemma_fence_free_add(a, "-"@);
    let a = a + "-"@;
    lemma_fence_free_add(a, text::decimal(chunk.end_line as nat));
    let a = a + text::decimal(chunk.end_line as nat);
    lemma_fence_free_add(a, prompt::COMMENTING_CODE@);
}

/// The code in a commenting prompt is not fenced: the prompt holds a Markdown fence exactly if the text of the chunk does.
pub proof fn law_commented_code_is_not_fenced(chunk: ChunkView, profile: PromptProfile)
    ensures
        text::occurs(prompt::commenting_prompt(chunk, profile), "```"@) <==> text::occurs(
            chunk.text,
            "```"@,
        ),
{
    reveal_strlit("```");
    reveal_strlit("\n");
    assert("```"@.len() == 3);
    assert("\n"@.len() == 1);
    let fence = "```"@;
    let head = prompt::prompt_head(
        prompt::COMMENTING_ROLE@,
        prompt::COMMENTING_RULES@,
        prompt::COMMENTING_CODE@,
        chunk,
        profile,
    );
    let h = head.len() as int;
    let n = chunk.text.len() as int;
    let s = prompt::commenting_prompt(chunk, profile);
    assert(s == head + chunk.text + "\n"@);
    lemma_head_fence_free(chunk, profile);
    if text::occurs(chunk.text, fence) {
        let i = choose|i: int|
            0 <= i <= chunk.text.len() - fence.len() && #[trigger] chunk.text.subrange(
                i,
                i + fence.len(),
            ) == fence;
        assert(s.subrange(h + i, h + i + 3) == chunk.text.subrange(i, i + 3));
    }
    if text::occurs(s, fence) {
        let i = choose|i: int|
            0 <= i <= s.len() - fence.len() && #[trigger] s.subrange(i, i + fence.len()) == fence;
        let found = s.subrange(i, i + 3);
        assert(found[0] == s[i] && found[1] == s[i + 1] && found[2] == s[i + 2]);
        assert(s[h - 1] == '\n');
        assert(s[h + n] == '\n');
        if i + 2 < h {
            assert(!double_tick(head, i));
            assert(head[i] == s[i] && head[i + 1] == s[i + 1]);
        }
        assert(h <= i && i + 2 < h + n);
        assert(chunk.text.subrange(i - h, i - h + 3) == found);
    }
}

/// Two profiles give different prompts for a chunk.
pub proof fn law_profiles_give_different_prompts(
    chunk: ChunkView,
    p: PromptProfile,
    q: PromptProfile,
)
    requires
        p != q,
    ensures
        prompt::commenting_prompt(chunk, p) != prompt::commenting_prompt(chunk, q),
        prompt::analysis_prompt(chunk, p) != prompt::analysis_prompt(chunk, q),
{
    lemma_instructions(p);
    lemma_instructions(q);
    lemma_prompt_shows_instructions(chunk, p, 9);
    lemma_prompt_shows_instructions(chunk, p, 10);
    lemma_prompt_shows_instructions(chunk, q, 9);
    lemma_prompt_shows_instructions(chunk, q, 10);
}

/// The instructions stand in a prompt behind its opening.
proof fn lemma_prompt_shows_instructions(chunk: ChunkView, profile: PromptProfile, i: int)
    requires
        0 <= i < prompt::instructions(profile).len(),
    ensures
        prompt::commenting_prompt(chunk, profile)[prompt::COMMENTING_ROLE@.len() + i]
            == prompt::instructions(profile)[i],
        prompt::analysis_prompt(chunk, profile)[prompt::ANALYSIS_ROLE@.len() + i]
            == prompt::instructions(profile)[i],
{
}

/// A prompt shows the number, kind, lines and text of a chunk; where the chunk lies in the
/// source does not matter.
pub proof fn law_prompts_ignore_byte_offsets(a: ChunkView, b: ChunkView, profile: PromptProfile)
    requires
        a == (ChunkView { start_byte: a.start_byte, end_byte: a.end_byte, ..b }),
    ensures
        prompt::commenting_prompt(a, profile) == prompt::commenting_prompt(b, profile),
        prompt::analysis_prompt(a, profile) == prompt::analysis_prompt(b, profile),
{
}

/// What a prompt says about a chunk, its code last.
pub open spec fn about_chunk(chunk: ChunkView, lead: Seq<char>) -> Seq<char> {
    text::decimal(chunk.index as nat) + "\n- kind: "@ + chunk.kind.label() + "\n- lines: "@
        + text::decimal(chunk.start_line as nat) + "-"@ + text::decimal(chunk.end_line as nat) + lead
        + chunk.text
}

/// A commenting prompt is its opening, the instructions, the rules, what is said about the chunk,
/// with the code unfenced at its end, and a line feed; nothing in it depends on anything else.
pub proof fn law_commenting_prompt_holds_everything(chunk: ChunkView, profile: PromptProfile)
    ensures
        prompt::commenting_prompt(chunk, profile) == prompt::COMMENTING_ROLE@
            + prompt::instructions(profile) + prompt::COMMENTING_RULES@ + about_chunk(
            chunk,
            prompt::COMMENTING_CODE@,
        ) + "\n"@,
{
    let head = prompt::COMMENTING_ROLE@ + prompt::instructions(profile) + prompt::COMMENTING_RULES@;
    lemma_head_parts(head, chunk, prompt::COMMENTING_CODE@);
}

/// An analysis prompt is its opening, the instructions, the task, what is said about the chunk,
/// and the end of the fence around the code; nothing in it depends on anything else.
pub proof fn law_analysis_prompt_holds_everything(chunk: ChunkView, profile: PromptProfile)
    ensures
        prompt::analysis_prompt(chunk, profile) == prompt::ANALYSIS_ROLE@ + prompt::instructions(
            profile,
        ) + prompt::ANALYSIS_TASK@ + about_chunk(chunk, prompt::ANALYSIS_CODE@) + "\n```\n"@,
{
    let head = prompt::ANALYSIS_ROLE@ + prompt::instructions(profile) + prompt::ANALYSIS_TASK@;
    lemma_head_parts(head, chunk, prompt::ANALYSIS_CODE@);
}

proof fn lemma_head_parts(head: Seq<char>, chunk: ChunkView, code: Seq<char>)
    ensures
        head + text::decimal(chunk.index as nat) + "\n- kind: "@ + chunk.kind.label()
            + "\n- lines: "@ + text::decimal(chunk.start_line as nat) + "-"@ + text::decimal(
            chunk.end_line as nat,
        ) + code + chunk.text == head + about_chunk(chunk, code),
{
    let a = text::decimal(chunk.index as nat);
    let b = a + "\n- kind: "@;
    let c = b + chunk.kind.label();
    let d = c + "\n- lines: "@;
    let e = d + text::decimal(chunk.start_line as nat);
    let f = e + "-"@;
    let g = f + text::decimal(chunk.end_line as nat);
    let h = g + code;
    assert(head + a + "\n- kind: "@ == head + b);
    assert(head + b + chunk.kind.label() == head + c);
    assert(head + c + "\n- lines: "@ == head + d);
    assert(head + d + text::decimal(chunk.start_line as nat) == head + e);
    assert(head + e + "-"@ == head + f);
    assert(head + f + text::decimal(chunk.end_line as nat) == head + g);
    assert(head + g + code == head + h);
    assert(head + h + chunk.text == head + (h + chunk.text));
}

/// Each profile has the instructions that go with its name.
pub proof fn law_profiles_have_their_instructions(profile: PromptProfile)
    ensures
        prompt::instructions(profile) == match profile {
            PromptProfile::Explain => "Focus on clear explanations of purpose, inputs, outputs, and control flow."@,
            PromptProfile::MaintainerComments => "Focus on comments that help humans and future LLMs understand architecture, business rules, side effects, and non-obvious implementation decisions."@,
            PromptProfile::Security => "Focus on security-sensitive behavior: parsing, auth, tokens, secrets, external calls, file system writes, unsafe assumptions, and error handling."@,
            PromptProfile::Architecture => "Focus on module responsibility, boundaries, dependencies, data flow, and how this chunk fits into the larger system."@,
        },
{
}

} // verus!
