use paladin_commenter::cache::{hash_text, ChunkCache};

#[test]
fn digest_of_known_text() {
    assert_eq!(hash_text("abc"), "ba7816bf8f01cfea414140de5dae2223b00361a396177a9cb410ff61f20015ad");
    assert_eq!(hash_text(""), "e3b0c44298fc1c149afbf4c8996fb92427ae41e4649b934ca495991b7852b855");
    assert_eq!(hash_text("h\u{e9}llo"), "3c48591d8d098a4538f5e013dfcf406e948eac4d3277b10bf614e295d6068179");
}

#[test]
fn file_name_of_known_request() {
    let cache = ChunkCache::new(None);
    assert_eq!(
        cache.path_for("gemma4:e4b", "rewrite", 7, "fn f() {}", "Comment this."),
        "chunk-007-ecc6000cae784c58.json"
    );
    assert_eq!(
        cache.path_for("gemma4:e4b", "analyze", 1234, "", ""),
        "chunk-1234-adae6b700220f5f8.json"
    );
}

#[test]
fn chunks_with_different_numbers_have_different_files() {
    let cache = ChunkCache::new(None);
    let a = cache.path_for("m", "comment", 1, "x", "p");
    let b = cache.path_for("m", "comment", 10, "x", "p");
    assert!(a.starts_with("chunk-001-"));
    assert!(b.starts_with("chunk-010-"));
    assert_ne!(a, b);
}

#[test]
fn stored_response_is_found_again() {
    let cache = ChunkCache::new(None);
    let (path, entry) = cache.put("m", "comment", 3, "code", "prompt", "answer", 1000);
    assert_eq!(path, cache.path_for("m", "comment", 3, "code", "prompt"));
    assert_eq!(entry.model, "m");
    assert_eq!(entry.mode, "comment");
    assert_eq!(entry.chunk_index, 3);
    assert_eq!(entry.chunk_hash, hash_text("code"));
    assert_eq!(entry.prompt_hash, hash_text("prompt"));
    assert_eq!(entry.created_at_epoch, 1000);
    assert_eq!(cache.get(Some(entry), u64::MAX), Some("answer".to_string()));
}

#[test]
fn missing_entry_is_a_miss() {
    assert_eq!(ChunkCache::new(None).get(None, 5), None);
    assert_eq!(ChunkCache::new(Some(60)).get(None, 5), None);
}

#[test]
fn entry_counts_until_its_time_to_live_has_passed() {
    let cache = ChunkCache::new(Some(60));
    let stored = |now: u64| {
        let (_, entry) = cache.put("m", "comment", 3, "code", "prompt", "answer", 1000);
        cache.get(Some(entry), now)
    };
    assert_eq!(stored(1000), Some("answer".to_string()));
    assert_eq!(stored(1060), Some("answer".to_string()));
    assert_eq!(stored(1061), None);
    // A clock that was set back makes no entry stale.
    assert_eq!(stored(10), Some("answer".to_string()));
}

#[test]
fn requests_that_differ_in_one_part_have_different_files() {
    let cache = ChunkCache::new(None);
    let base = cache.path_for("m", "comment", 3, "code", "prompt");
    assert_ne!(base, cache.path_for("n", "comment", 3, "code", "prompt"));
    assert_ne!(base, cache.path_for("m", "rewrite", 3, "code", "prompt"));
    assert_ne!(base, cache.path_for("m", "comment", 3, "other", "prompt"));
    assert_ne!(base, cache.path_for("m", "comment", 3, "code", "other"));
}
