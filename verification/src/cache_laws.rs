//! What holds of every cached request.

use crate::cache;
use crate::text;
use crate::text_laws;
use vstd::prelude::*;
use vstd::utf8::*;

verus! {

/// A digest is taken of all the bytes of a text and written with two hexadecimal digits for each
/// of its bytes.
pub proof fn law_digest_is_of_the_whole_text(s: Seq<char>, i: int)
    requires
        0 <= i < cache::sha256(encode_utf8(s)).len(),
    ensures
        ({
            let h = cache::hash_of(s);
            &&& h.len() == 2 * cache::sha256(encode_utf8(s)).len()
            &&& 16 * text_laws::hex_value(h[2 * i]) + text_laws::hex_value(h[2 * i + 1])
                == cache::sha256(encode_utf8(s))[i]
        }),
{
    text_laws::law_hex_denotes_the_bytes(cache::sha256(encode_utf8(s)), i);
}

/// What identifies a request: its parts, with a colon between them.
pub open spec fn identity(
    model: Seq<char>,
    mode: Seq<char>,
    index: nat,
    chunk_text: Seq<char>,
    prompt: Seq<char>,
) -> Seq<char> {
    text::join(
        seq![
            model,
            mode,
            text::decimal(index),
            cache::hash_of(chunk_text),
            cache::hash_of(prompt),
        ],
        seq![':'],
    )
}

/// The parts stand in the text of a key with a colon between them.
proof fn lemma_identity(
    model: Seq<char>,
    mode: Seq<char>,
    index: nat,
    chunk_text: Seq<char>,
    prompt: Seq<char>,
)
    ensures
        identity(model, mode, index, chunk_text, prompt) == cache::key_text(
            model,
            mode,
            index,
            cache::hash_of(chunk_text),
            cache::hash_of(prompt),
        ),
{
    reveal_strlit(":");
    assert(":"@ == seq![':']);
    let a = seq![model];
    let b = seq![model, mode];
    let c = seq![model, mode, text::decimal(index)];
    let d = seq![model, mode, text::decimal(index), cache::hash_of(chunk_text)];
    let e = seq![
        model,
        mode,
        text::decimal(index),
        cache::hash_of(chunk_text),
        cache::hash_of(prompt),
    ];
    assert(e.drop_last() == d);
    assert(d.drop_last() == c);
    assert(c.drop_last() == b);
    assert(b.drop_last() == a);
    assert(text::join(a, seq![':']) == model);
    assert(text::join(b, seq![':']) == model + seq![':'] + mode);
    assert(text::join(c, seq![':']) == model + seq![':'] + mode + seq![':'] + text::decimal(index));
    assert(text::join(d, seq![':']) == model + seq![':'] + mode + seq![':'] + text::decimal(index)
        + seq![':'] + cache::hash_of(chunk_text));
}

/// The response to a request is kept in a file whose name shows the number of the chunk, with at
/// least three digits, and the first sixteen digits of the digest of what identifies the request.
pub proof fn law_file_is_named_after_the_request(
    model: Seq<char>,
    mode: Seq<char>,
    index: nat,
    chunk_text: Seq<char>,
    prompt: Seq<char>,
)
    ensures
        cache::request_file(model, mode, index, chunk_text, prompt) == "chunk-"@ + text::pad_front(
            text::decimal(index),
            3,
            '0',
        ) + "-"@ + cache::hash_of(identity(model, mode, index, chunk_text, prompt)).take(16)
            + ".json"@,
{
    lemma_identity(model, mode, index, chunk_text, prompt);
}

/// Two requests that share a file are the same request, in every character of the code and of the
/// prompt, unless digests collide: those of the two code texts, those of the two prompts, or the
/// first sixteen digits of those of what identifies the requests. Modes hold no colon.
pub proof fn law_requests_do_not_share_a_file(
    model: Seq<char>,
    mode: Seq<char>,
    index: nat,
    chunk_text: Seq<char>,
    prompt: Seq<char>,
    model2: Seq<char>,
    mode2: Seq<char>,
    index2: nat,
    chunk_text2: Seq<char>,
    prompt2: Seq<char>,
)
    requires
        cache::has_no_colon(mode),
        cache::has_no_colon(mode2),
        cache::hash_of(chunk_text).len() == 64,
        cache::hash_of(chunk_text2).len() == 64,
        cache::hash_of(prompt).len() == 64,
        cache::hash_of(prompt2).len() == 64,
        cache::hash_of(identity(model, mode, index, chunk_text, prompt)).len() == 64,
        cache::hash_of(identity(model2, mode2, index2, chunk_text2, prompt2)).len() == 64,
        cache::hash_of(chunk_text) == cache::hash_of(chunk_text2) ==> chunk_text == chunk_text2,
        cache::hash_of(prompt) == cache::hash_of(prompt2) ==> prompt == prompt2,
        cache::hash_of(identity(model, mode, index, chunk_text, prompt)).take(16) == cache::hash_of(
            identity(model2, mode2, index2, chunk_text2, prompt2),
        ).take(16) ==> identity(model, mode, index, chunk_text, prompt) == identity(
            model2,
            mode2,
            index2,
            chunk_text2,
            prompt2,
        ),
        cache::request_file(model, mode, index, chunk_text, prompt) == cache::request_file(
            model2,
            mode2,
            index2,
            chunk_text2,
            prompt2,
        ),
    ensures
        model == model2,
        mode == mode2,
        index == index2,
        chunk_text == chunk_text2,
        prompt == prompt2,
{
    lemma_identity(model, mode, index, chunk_text, prompt);
    lemma_identity(model2, mode2, index2, chunk_text2, prompt2);
    let k = cache::hash_of(identity(model, mode, index, chunk_text, prompt)).take(16);
    let k2 = cache::hash_of(identity(model2, mode2, index2, chunk_text2, prompt2)).take(16);
    if index != index2 {
        cache::law_files_differ_by_chunk(index, index2, k, k2);
    }
    reveal_strlit(".json");
    assert(".json"@.len() == 5);
    let f = cache::file_name(index, k);
    let f2 = cache::file_name(index2, k2);
    assert(k == f.subrange(f.len() - 21, f.len() - 5));
    assert(k2 == f2.subrange(f2.len() - 21, f2.len() - 5));
    cache::law_key_text_identifies_request(
        model,
        mode,
        index,
        cache::hash_of(chunk_text),
        cache::hash_of(prompt),
        model2,
        mode2,
        index2,
        cache::hash_of(chunk_text2),
        cache::hash_of(prompt2),
    );
}

/// An entry says which request it answers, when it was written, and holds the response whole.
pub proof fn law_entries_hold_request_and_response(
    model: Seq<char>,
    mode: Seq<char>,
    index: nat,
    chunk_text: Seq<char>,
    prompt: Seq<char>,
    response: Seq<char>,
    now: nat,
)
    ensures
        ({
            let e = cache::entry_for(model, mode, index, chunk_text, prompt, response, now);
            &&& e.model == model
            &&& e.mode == mode
            &&& e.chunk_index == index
            &&& e.chunk_hash == cache::hash_of(chunk_text)
            &&& e.prompt_hash == cache::hash_of(prompt)
            &&& e.response == response
            &&& e.created_at_epoch == now
        }),
{
}

/// A stored response is found as long as it is not older than the time to live, for ever if there
/// is none, and what is found is the stored response. Without an entry nothing is found.
pub proof fn law_responses_are_found_until_they_expire(
    ttl: Option<u64>,
    entry: cache::EntryView,
    now: nat,
)
    ensures
        cache::lookup(ttl, None, now) is None,
        cache::lookup(ttl, Some(entry), now) is Some <==> (ttl matches Some(t) ==> now
            <= entry.created_at_epoch + t),
        cache::lookup(ttl, Some(entry), now) matches Some(r) ==> r == entry.response,
{
}

} // verus!
