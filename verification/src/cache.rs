//! The cache of model responses: where a response is stored, what is stored, and when a
//! stored response still counts.

use crate::text;
use sha2::Digest;
use vstd::prelude::*;
use vstd::utf8::*;

verus! {

/// Per-chunk response cache.
///
/// Each entry is a small JSON file keyed by a composite SHA-256 of
/// (model, mode, chunk_index, chunk_content_hash, prompt_hash).
/// An optional time to live causes stale entries to be treated as cache misses.
/// The directory that holds the files is up to the program that reads and writes them.
#[derive(Debug, Clone, Copy)]
pub struct ChunkCache {
    /// Seconds after which an entry no longer counts.
    pub ttl: Option<u64>,
}

/// A stored response.
#[derive(Debug)]
pub struct CacheEntry {
    pub model: String,
    pub mode: String,
    pub chunk_index: usize,
    pub chunk_hash: String,
    pub prompt_hash: String,
    pub response: String,
    /// Seconds since UNIX epoch when the entry was written.
    pub created_at_epoch: u64,
}

/// What a `CacheEntry` holds, as mathematical values.
pub struct EntryView {
    pub model: Seq<char>,
    pub mode: Seq<char>,
    pub chunk_index: nat,
    pub chunk_hash: Seq<char>,
    pub prompt_hash: Seq<char>,
    pub response: Seq<char>,
    pub created_at_epoch: nat,
}

impl View for CacheEntry {
    type V = EntryView;

    open spec fn view(&self) -> EntryView {
        EntryView {
            model: self.model@,
            mode: self.mode@,
            chunk_index: self.chunk_index as nat,
            chunk_hash: self.chunk_hash@,
            prompt_hash: self.prompt_hash@,
            response: self.response@,
            created_at_epoch: self.created_at_epoch as nat,
        }
    }
}

/// The SHA-256 digest of a byte sequence.
pub uninterp spec fn sha256(data: Seq<u8>) -> Seq<u8>;

/// Whether the number of bits of `n` bytes fits the 64-bit length field of SHA-256.
pub open spec fn digestible(n: nat) -> bool {
    n < 0x2000_0000_0000_0000
}

/// `sha2::Sha256` fed with `data`. Claimed is that the digest depends on the data alone and
/// has 32 bytes.
#[verifier::external_body]
fn sha256_digest(data: &[u8]) -> (r: Vec<u8>)
    requires
        digestible(data@.len()),
    ensures
        r@ == sha256(data@),
        r@.len() == 32,
{
    let mut hasher = sha2::Sha256::new();
    hasher.update(data);
    hasher.finalize().to_vec()
}

/// The hexadecimal SHA-256 digest of a text.
pub open spec fn hash_of(s: Seq<char>) -> Seq<char> {
    text::hex(sha256(encode_utf8(s)))
}

/// Whether a text can be hashed.
pub open spec fn hashable(s: Seq<char>) -> bool {
    digestible(encode_utf8(s).len())
}

/// Compute a hex-encoded SHA-256 digest.
pub fn hash_text(text: &str) -> (r: String)
    requires
        hashable(text@),
    ensures
        r@ == hash_of(text@),
        r@.len() == 64,
{
    let digest = sha256_digest(text.as_bytes());
    text::hex_of(&digest)
}

/// The text whose digest identifies a response.
pub open spec fn key_text(
    model: Seq<char>,
    mode: Seq<char>,
    chunk_index: nat,
    chunk_hash: Seq<char>,
    prompt_hash: Seq<char>,
) -> Seq<char> {
    model + ":"@ + mode + ":"@ + text::decimal(chunk_index) + ":"@ + chunk_hash + ":"@ + prompt_hash
}

/// The name of the file for a chunk and the first sixteen characters of a digest.
pub open spec fn file_name(chunk_index: nat, short_key: Seq<char>) -> Seq<char> {
    "chunk-"@ + text::pad_front(text::decimal(chunk_index), 3, '0') + "-"@ + short_key + ".json"@
}

/// The digest that identifies a request.
pub open spec fn request_key(
    model: Seq<char>,
    mode: Seq<char>,
    chunk_index: nat,
    chunk_text: Seq<char>,
    prompt: Seq<char>,
) -> Seq<char> {
    hash_of(key_text(model, mode, chunk_index, hash_of(chunk_text), hash_of(prompt)))
}

/// The name of the file that holds the response to a request.
pub open spec fn request_file(
    model: Seq<char>,
    mode: Seq<char>,
    chunk_index: nat,
    chunk_text: Seq<char>,
    prompt: Seq<char>,
) -> Seq<char> {
    file_name(chunk_index, request_key(model, mode, chunk_index, chunk_text, prompt).take(16))
}

/// Whether the texts of a request can be hashed.
pub open spec fn request_hashable(
    model: Seq<char>,
    mode: Seq<char>,
    chunk_text: Seq<char>,
    prompt: Seq<char>,
) -> bool {
    &&& hashable(chunk_text)
    &&& hashable(prompt)
    &&& encode_utf8(model).len() + encode_utf8(mode).len() < 0x1000_0000_0000_0000
}

/// What a stored entry gives at time `now`: its response, unless it is older than the time to
/// live. An entry from the future counts as new.
pub open spec fn lookup(ttl: Option<u64>, entry: Option<EntryView>, now: nat) -> Option<Seq<char>> {
    match entry {
        None => None,
        Some(e) => match ttl {
            Some(t) if now > e.created_at_epoch && now - e.created_at_epoch > t => None,
            _ => Some(e.response),
        },
    }
}

/// The entry that stores a response.
pub open spec fn entry_for(
    model: Seq<char>,
    mode: Seq<char>,
    chunk_index: nat,
    chunk_text: Seq<char>,
    prompt: Seq<char>,
    response: Seq<char>,
    now: nat,
) -> EntryView {
    EntryView {
        model,
        mode,
        chunk_index,
        chunk_hash: hash_of(chunk_text),
        prompt_hash: hash_of(prompt),
        response,
        created_at_epoch: now,
    }
}

/// What an optional entry holds.
pub open spec fn entry_view(entry: Option<CacheEntry>) -> Option<EntryView> {
    match entry {
        Some(e) => Some(e@),
        None => None,
    }
}

/// The text of a key takes few bytes more than the names in it.
proof fn lemma_key_hashable(
    model: Seq<char>,
    mode: Seq<char>,
    chunk_index: usize,
    chunk_hash: Seq<char>,
    prompt_hash: Seq<char>,
)
    requires
        chunk_hash.len() == 64,
        prompt_hash.len() == 64,
        encode_utf8(model).len() + encode_utf8(mode).len() < 0x1000_0000_0000_0000,
    ensures
        hashable(key_text(model, mode, chunk_index as nat, chunk_hash, prompt_hash)),
{
    reveal_strlit(":");
    assert(":"@.len() == 1);
    let d = text::decimal(chunk_index as nat);
    text::lemma_usize_digits(chunk_index);
    let rest = ":"@ + d + ":"@ + chunk_hash + ":"@ + prompt_hash;
    assert(rest.len() <= 151);
    let key = key_text(model, mode, chunk_index as nat, chunk_hash, prompt_hash);
    assert(key == model + (":"@ + (mode + rest)));
    text::lemma_encode_add(model, ":"@ + (mode + rest));
    text::lemma_encode_add(":"@, mode + rest);
    text::lemma_encode_add(mode, rest);
    text::lemma_encode_len(":"@);
    text::lemma_encode_len(rest);
}

impl ChunkCache {
    /// A cache whose entries count for `ttl` seconds, or for ever.
    pub fn new(ttl: Option<u64>) -> (r: Self)
        ensures
            r.ttl == ttl,
    {
        ChunkCache { ttl }
    }

    /// The name of the file that holds the response to a request.
    pub fn path_for(
        &self,
        model: &str,
        mode: &str,
        chunk_index: usize,
        chunk_text: &str,
        prompt: &str,
    ) -> (r: String)
        requires
            request_hashable(model@, mode@, chunk_text@, prompt@),
        ensures
            r@ == request_file(model@, mode@, chunk_index as nat, chunk_text@, prompt@),
            request_key(model@, mode@, chunk_index as nat, chunk_text@, prompt@).len() == 64,
    {
        let chunk_hash = hash_text(chunk_text);
        let prompt_hash = hash_text(prompt);
        let mut key = String::new();
        key.append(model);
        assert(key@ == model@);
        key.append(":");
        key.append(mode);
        key.append(":");
        text::push_decimal(&mut key, chunk_index);
        key.append(":");
        key.append(chunk_hash.as_str());
        key.append(":");
        key.append(prompt_hash.as_str());
        proof {
            lemma_key_hashable(model@, mode@, chunk_index, chunk_hash@, prompt_hash@);
        }
        let hash = hash_text(key.as_str());
        let short_key = hash.as_str().substring_char(0, 16);
        assert(short_key@ == hash@.take(16));
        let mut name = String::new();
        name.append("chunk-");
        assert(name@ == "chunk-"@);
        name.append(text::padded_decimal(chunk_index, 3).as_str());
        name.append("-");
        name.append(short_key);
        name.append(".json");
        name
    }

    /// The cached response, given the entry that was found, if any, and the time in seconds
    /// since the UNIX epoch. `None` on a miss or an expired entry.
    pub fn get(&self, entry: Option<CacheEntry>, now_epoch: u64) -> (r: Option<String>)
        ensures
            match r {
                Some(response) => lookup(self.ttl, entry_view(entry), now_epoch as nat) == Some(
                    response@,
                ),
                None => lookup(self.ttl, entry_view(entry), now_epoch as nat) is None,
            },
    {
        match entry {
            None => None,
            Some(entry) => {
                if let Some(ttl) = self.ttl {
                    if now_epoch.saturating_sub(entry.created_at_epoch) > ttl {
                        return None;
                    }
                }
                Some(entry.response)
            },
        }
    }

    /// The file in which a response is to be stored, and the entry to store there, given the
    /// time in seconds since the UNIX epoch.
    pub fn put(
        &self,
        model: &str,
        mode: &str,
        chunk_index: usize,
        chunk_text: &str,
        prompt: &str,
        response: &str,
        now_epoch: u64,
    ) -> (r: (String, CacheEntry))
        requires
            request_hashable(model@, mode@, chunk_text@, prompt@),
        ensures
            r.0@ == request_file(model@, mode@, chunk_index as nat, chunk_text@, prompt@),
            request_key(model@, mode@, chunk_index as nat, chunk_text@, prompt@).len() == 64,
            r.1@ == entry_for(
                model@,
                mode@,
                chunk_index as nat,
                chunk_text@,
                prompt@,
                response@,
                now_epoch as nat,
            ),
    {
        let path = self.path_for(model, mode, chunk_index, chunk_text, prompt);
        let entry = CacheEntry {
            model: model.to_owned(),
            mode: mode.to_owned(),
            chunk_index,
            chunk_hash: hash_text(chunk_text),
            prompt_hash: hash_text(prompt),
            response: response.to_owned(),
            created_at_epoch: now_epoch,
        };
        (path, entry)
    }
}

/// What was stored is given back as long as the time to live has not passed since, and not
/// afterwards.
pub proof fn law_get_returns_what_put_stored(
    ttl: Option<u64>,
    model: Seq<char>,
    mode: Seq<char>,
    chunk_index: nat,
    chunk_text: Seq<char>,
    prompt: Seq<char>,
    response: Seq<char>,
    stored: nat,
    now: nat,
)
    ensures
        ({
            let entry = entry_for(model, mode, chunk_index, chunk_text, prompt, response, stored);
            let fresh = match ttl {
                None => true,
                Some(t) => now <= stored + t,
            };
            lookup(ttl, Some(entry), now) == if fresh {
                Some(response)
            } else {
                None
            }
        }),
{
}

/// Chunks with different numbers never share a file, whatever their digests are.
pub proof fn law_files_differ_by_chunk(i: nat, j: nat, short_i: Seq<char>, short_j: Seq<char>)
    requires
        i != j,
        short_i.len() == 16,
        short_j.len() == 16,
    ensures
        file_name(i, short_i) != file_name(j, short_j),
{
    reveal_strlit("chunk-");
    reveal_strlit("-");
    reveal_strlit(".json");
    assert("chunk-"@.len() == 6);
    assert("-"@.len() == 1);
    assert(".json"@.len() == 5);
    let a = file_name(i, short_i);
    let b = file_name(j, short_j);
    let x = text::pad_front(text::decimal(i), 3, '0');
    let y = text::pad_front(text::decimal(j), 3, '0');
    if a == b {
        assert(a.len() == 28 + x.len());
        assert(b.len() == 28 + y.len());
        assert(x == a.subrange(6, a.len() - 22));
        assert(y == b.subrange(6, b.len() - 22));
        text::lemma_decimal_value(i);
        text::lemma_decimal_value(j);
        text::lemma_padded_value(text::decimal(i), 3);
        text::lemma_padded_value(text::decimal(j), 3);
    }
}

/// Whether a text holds no colon.
pub open spec fn has_no_colon(s: Seq<char>) -> bool {
    forall|i: int| 0 <= i < s.len() ==> #[trigger] s[i] != ':'
}

/// The text behind the last colon, and the text before it, can be told apart.
proof fn lemma_split_at_colon(a: Seq<char>, b: Seq<char>, c: Seq<char>, d: Seq<char>)
    requires
        has_no_colon(b),
        has_no_colon(d),
        a + seq![':'] + b == c + seq![':'] + d,
    ensures
        a == c,
        b == d,
{
    let s = a + seq![':'] + b;
    assert(s.len() == a.len() + 1 + b.len());
    assert(s.len() == c.len() + 1 + d.len());
    if b.len() < d.len() {
        assert(s[a.len() as int] == ':');
        assert((c + seq![':'] + d)[a.len() as int] == d[a.len() - c.len() - 1]);
    } else if b.len() > d.len() {
        assert((c + seq![':'] + d)[c.len() as int] == ':');
        assert(s[c.len() as int] == b[c.len() - a.len() - 1]);
    }
    assert(a == s.take(a.len() as int));
    assert(c == s.take(c.len() as int));
    assert(b == s.skip(a.len() as int + 1));
    assert(d == s.skip(c.len() as int + 1));
}

/// The text that is hashed into a key holds everything that identifies a request: requests
/// with the same text agree on the model, the mode, the chunk and both digests. This is for
/// modes without a colon; the model may hold colons.
pub proof fn law_key_text_identifies_request(
    model: Seq<char>,
    mode: Seq<char>,
    index: nat,
    chunk_hash: Seq<char>,
    prompt_hash: Seq<char>,
    model2: Seq<char>,
    mode2: Seq<char>,
    index2: nat,
    chunk_hash2: Seq<char>,
    prompt_hash2: Seq<char>,
)
    requires
        has_no_colon(mode),
        has_no_colon(mode2),
        chunk_hash.len() == 64,
        chunk_hash2.len() == 64,
        prompt_hash.len() == 64,
        prompt_hash2.len() == 64,
        key_text(model, mode, index, chunk_hash, prompt_hash) == key_text(
            model2,
            mode2,
            index2,
            chunk_hash2,
            prompt_hash2,
        ),
    ensures
        model == model2,
        mode == mode2,
        index == index2,
        chunk_hash == chunk_hash2,
        prompt_hash == prompt_hash2,
{
    reveal_strlit(":");
    let colon = ":"@;
    assert(colon == seq![':']);
    let d = text::decimal(index);
    let d2 = text::decimal(index2);
    let key = key_text(model, mode, index, chunk_hash, prompt_hash);
    let key2 = key_text(model2, mode2, index2, chunk_hash2, prompt_hash2);
    let n = key.len() as int;
    assert(prompt_hash == key.subrange(n - 64, n));
    assert(prompt_hash2 == key2.subrange(n - 64, n));
    assert(chunk_hash == key.subrange(n - 129, n - 65));
    assert(chunk_hash2 == key2.subrange(n - 129, n - 65));
    let head = model + colon + mode;
    let head2 = model2 + colon + mode2;
    assert(head + colon + d == key.take(n - 130));
    assert(head2 + colon + d2 == key2.take(n - 130));
    text::lemma_decimal_value(index);
    text::lemma_decimal_value(index2);
    lemma_split_at_colon(head, d, head2, d2);
    lemma_split_at_colon(model, mode, model2, mode2);
}

} // verus!
