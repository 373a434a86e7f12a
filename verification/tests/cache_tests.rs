use hld::cache::{cache_needs_write, lock_path_for, CacheEntry, CacheMap};
use hld::codec::{decode_cache, encode_cache};
use hld::digest::{content_digest, Digest};

fn entry(path: &str, content: &[u8]) -> (String, Digest) {
    (path.to_string(), content_digest(content))
}

fn sample_cache() -> CacheMap {
    let mut cache = CacheMap::new();
    let (p1, d1) = entry("/tmp/foo.txt", b"first content");
    let (p2, d2) = entry("/tmp/bar.txt", b"second content");
    cache.insert(p1, d1);
    cache.insert(p2, d2);
    cache
}

fn same_entries(a: &CacheMap, b: &CacheMap) -> bool {
    if a.entries.len() != b.entries.len() {
        return false;
    }
    for i in 0..a.entries.len() {
        if a.entries[i].path != b.entries[i].path {
            return false;
        }
        if !a.entries[i].digest.eq_digest(&b.entries[i].digest) {
            return false;
        }
    }
    true
}

#[test]
fn cache_round_trip() {
    // the digest read back from the encoded cache is exactly the digest
    // that was stored for the path
    let cache = sample_cache();
    let bytes = encode_cache(&cache);
    let back = decode_cache(&bytes);
    assert!(same_entries(&cache, &back));
    let fresh = content_digest(b"first content");
    let looked_up = back.lookup("/tmp/foo.txt").unwrap();
    assert!(looked_up.eq_digest(&fresh));
}

#[test]
fn cache_round_trip_unusual_paths() {
    let mut cache = CacheMap::new();
    cache.insert("caf\u{e9}/na\u{ef}ve \u{1F4C1}.txt".to_string(), content_digest(b"a"));
    cache.insert("".to_string(), content_digest(b"b"));
    let back = decode_cache(&encode_cache(&cache));
    assert!(same_entries(&cache, &back));
}

#[test]
fn empty_cache_round_trip() {
    let cache = CacheMap::new();
    let bytes = encode_cache(&cache);
    let back = decode_cache(&bytes);
    assert_eq!(back.entries.len(), 0);
}

#[test]
fn corrupt_cache_is_empty() {
    // arbitrary garbage decodes to the empty cache instead of failing
    assert_eq!(decode_cache(&Vec::new()).entries.len(), 0);
    assert_eq!(decode_cache(&vec![1, 2, 3]).entries.len(), 0);
    let mut garbage = Vec::new();
    for i in 0..1000u32 {
        garbage.push((i % 251) as u8);
    }
    assert_eq!(decode_cache(&garbage).entries.len(), 0);
    // a huge entry count with no entries behind it
    assert_eq!(decode_cache(&vec![255u8; 8]).entries.len(), 0);
}

#[test]
fn truncated_cache_is_empty() {
    let cache = sample_cache();
    let mut bytes = encode_cache(&cache);
    bytes.pop();
    assert_eq!(decode_cache(&bytes).entries.len(), 0);
}

#[test]
fn trailing_garbage_is_empty() {
    let cache = sample_cache();
    let mut bytes = encode_cache(&cache);
    bytes.push(0);
    assert_eq!(decode_cache(&bytes).entries.len(), 0);
}

#[test]
fn duplicate_path_cache_rejected() {
    // bytes that decode to two entries with one path are treated as corrupt
    let twisted = CacheMap {
        entries: vec![
            CacheEntry { path: "same".to_string(), digest: content_digest(b"a") },
            CacheEntry { path: "same".to_string(), digest: content_digest(b"b") },
        ],
    };
    let bytes = encode_cache(&twisted);
    assert_eq!(decode_cache(&bytes).entries.len(), 0);
}

#[test]
fn lookup_misses_absent_path() {
    let cache = sample_cache();
    assert!(cache.lookup("/tmp/baz.txt").is_none());
    assert!(cache.lookup("/tmp/foo.txt").is_some());
}

#[test]
fn prune_drops_dead_entries() {
    let cache = sample_cache();
    let pruned = cache.prune(&vec![false, true]);
    assert_eq!(pruned.entries.len(), 1);
    assert_eq!(pruned.entries[0].path, "/tmp/bar.txt");
    assert!(cache.prune(&vec![true, true]).entries.len() == 2);
    assert!(cache.prune(&vec![false, false]).entries.len() == 0);
}

#[test]
fn missing_paths_are_the_uncached_ones() {
    let cache = sample_cache();
    let paths = vec![
        "/tmp/foo.txt".to_string(),
        "/tmp/new.txt".to_string(),
        "/tmp/bar.txt".to_string(),
    ];
    let missing = cache.missing_paths(&paths);
    assert_eq!(missing, vec!["/tmp/new.txt".to_string()]);
}

#[test]
fn merge_and_collect_digests() {
    let mut cache = sample_cache();
    let missing = vec!["/tmp/new.txt".to_string()];
    let fresh = vec![content_digest(b"new content")];
    cache.merge_fresh(&missing, &fresh);
    assert_eq!(cache.entries.len(), 3);
    let paths = vec!["/tmp/foo.txt".to_string(), "/tmp/new.txt".to_string()];
    let collected: Vec<CacheEntry> = cache.digests_for(&paths);
    assert_eq!(collected.len(), 2);
    assert_eq!(collected[0].path, "/tmp/foo.txt");
    assert!(collected[0].digest.eq_digest(&content_digest(b"first content")));
    assert_eq!(collected[1].path, "/tmp/new.txt");
    assert!(collected[1].digest.eq_digest(&content_digest(b"new content")));
}

#[test]
fn needs_write_on_change_only() {
    // written back only when the entry count changed, never on a dry run
    assert!(cache_needs_write(2, 1, 1, false));
    assert!(cache_needs_write(2, 2, 3, false));
    assert!(!cache_needs_write(2, 2, 2, false));
    assert!(!cache_needs_write(2, 1, 3, true));
}

#[test]
fn lock_path_is_a_sibling() {
    assert_eq!(lock_path_for("/var/cache/digests"), "/var/cache/digests.lock");
    assert_eq!(lock_path_for("digests"), "digests.lock");
}
