use hld::applier::{plan_apply, plan_group, GroupMeta, LinkDecision};
use hld::cache::CacheMap;
use hld::digest::content_digest;
use hld::digest::Digest;
use hld::fileid::{get_device_id, FileIdentity};
use hld::finder::{digest_requests, find_duplicates, resolve_digests, Candidate};

fn inode(dev: u64, ino: u64) -> FileIdentity {
    FileIdentity::Inode { device_id: dev, inode_number: ino }
}

fn candidate(path: &str, size: u64, id: FileIdentity) -> Candidate {
    Candidate { path: path.to_string(), size, id }
}

fn hundred_bytes() -> Vec<u8> {
    let mut v = Vec::new();
    for i in 0..100u8 {
        v.push(i.wrapping_mul(7));
    }
    v
}

#[test]
fn digest_is_fixed_width() {
    let d = content_digest(b"hello");
    assert_eq!(d.bytes.len(), 32);
    let e = content_digest(b"");
    assert_eq!(e.bytes.len(), 32);
}

#[test]
fn digest_depends_on_content() {
    let a = content_digest(b"hello");
    let b = content_digest(b"hello");
    let c = content_digest(b"hellp");
    assert!(a.eq_digest(&b));
    assert!(!a.eq_digest(&c));
    // the digest is not the input handed back
    let thirty_two = [9u8; 32];
    let d = content_digest(&thirty_two);
    assert_ne!(d.bytes, thirty_two.to_vec());
}

#[test]
fn deduplication() {
    // two files with the same hundred bytes of content become one group
    let content = hundred_bytes();
    let cands = vec![
        candidate("bar.txt", 100, inode(1, 11)),
        candidate("foo.txt", 100, inode(1, 10)),
    ];
    let cache = CacheMap::new();
    let requests = digest_requests(&cands, &cache);
    assert_eq!(requests, vec!["bar.txt".to_string(), "foo.txt".to_string()]);
    let fresh: Vec<Digest> = requests.iter().map(|_| content_digest(&content)).collect();
    let groups = find_duplicates(&cands, &cache, &fresh);
    assert_eq!(groups.len(), 1);
    assert_eq!(groups[0].paths, vec!["bar.txt".to_string(), "foo.txt".to_string()]);

    let meta = vec![GroupMeta {
        source_size: 100,
        source_id: inode(1, 11),
        target_ids: vec![inode(1, 10)],
    }];
    let plan = plan_apply(&meta).unwrap();
    assert_eq!(plan.bytes_saved, 100);
    assert_eq!(plan.files_deduplicated, 1);
    assert_eq!(plan.decisions[0], vec![LinkDecision::Relink]);
}

#[test]
fn dryrun() {
    // a dry run plans the same statistics; only the caller's execution of
    // the plan differs, so the identities stay distinct afterwards
    let meta = vec![GroupMeta {
        source_size: 100,
        source_id: inode(1, 11),
        target_ids: vec![inode(1, 10)],
    }];
    let plan = plan_apply(&meta).unwrap();
    assert_eq!(plan.bytes_saved, 100);
    assert_eq!(plan.files_deduplicated, 1);
    // nothing was mutated: planning again gives the same outcome
    let again = plan_apply(&meta).unwrap();
    assert_eq!(again.bytes_saved, 100);
    assert_eq!(again.files_deduplicated, 1);
    assert_eq!(again.decisions[0], vec![LinkDecision::Relink]);
}

#[test]
fn no_deduplication_different_files() {
    // distinct content, distinct digests: no group, empty statistics
    let cands = vec![
        candidate("bar.txt", 101, inode(1, 11)),
        candidate("foo.txt", 100, inode(1, 10)),
    ];
    let cache = CacheMap::new();
    let requests = digest_requests(&cands, &cache);
    assert_eq!(requests.len(), 2);
    let fresh = vec![content_digest(b"one content"), content_digest(b"another content")];
    let groups = find_duplicates(&cands, &cache, &fresh);
    assert_eq!(groups.len(), 0);
    let plan = plan_apply(&Vec::new()).unwrap();
    assert_eq!(plan.bytes_saved, 0);
    assert_eq!(plan.files_deduplicated, 0);
}

#[test]
fn no_deduplication_empty_files() {
    // zero-length files are never hashed, never grouped
    let cands = vec![
        candidate("bar.txt", 0, inode(1, 11)),
        candidate("foo.txt", 0, inode(1, 10)),
    ];
    let cache = CacheMap::new();
    let requests = digest_requests(&cands, &cache);
    assert_eq!(requests.len(), 0);
    let groups = find_duplicates(&cands, &cache, &Vec::new());
    assert_eq!(groups.len(), 0);
}

#[test]
fn identity_coalescing() {
    // two paths that are already the same on-disk object are hashed once
    // and resolve to the same digest
    let cands = vec![
        candidate("bar.txt", 100, inode(1, 10)),
        candidate("foo.txt", 100, inode(1, 10)),
    ];
    let cache = CacheMap::new();
    let requests = digest_requests(&cands, &cache);
    assert_eq!(requests, vec!["bar.txt".to_string()]);
    let fresh = vec![content_digest(&hundred_bytes())];
    let resolved = resolve_digests(&cands, &cache, &fresh);
    assert_eq!(resolved.len(), 2);
    assert!(resolved[0].digest.eq_digest(&resolved[1].digest));
    // they still form a duplicate group
    let groups = find_duplicates(&cands, &cache, &fresh);
    assert_eq!(groups.len(), 1);
    assert_eq!(groups[0].paths.len(), 2);
}

#[test]
fn cached_digest_is_reused() {
    // a path present in the cache is not requested for hashing
    let mut cache = CacheMap::new();
    let d = content_digest(&hundred_bytes());
    cache.insert("foo.txt".to_string(), d.duplicate());
    let cands = vec![
        candidate("bar.txt", 100, inode(1, 11)),
        candidate("foo.txt", 100, inode(1, 10)),
    ];
    let requests = digest_requests(&cands, &cache);
    assert_eq!(requests, vec!["bar.txt".to_string()]);
    let fresh = vec![content_digest(&hundred_bytes())];
    let resolved = resolve_digests(&cands, &cache, &fresh);
    assert!(resolved[1].digest.eq_digest(&d));
    // equal digests from cache and fresh hashing still group together
    let groups = find_duplicates(&cands, &cache, &fresh);
    assert_eq!(groups.len(), 1);
}

#[test]
fn symlinking() {
    // after a run that linked the pair, both paths share one identity:
    // a second run decides "already linked" for the target and performs
    // no filesystem work, while the statistics still count the pair
    let meta = vec![GroupMeta {
        source_size: 100,
        source_id: inode(1, 11),
        target_ids: vec![inode(1, 11)],
    }];
    let plan = plan_apply(&meta).unwrap();
    assert_eq!(plan.decisions[0], vec![LinkDecision::AlreadyLinked]);
    assert_eq!(plan.bytes_saved, 100);
    assert_eq!(plan.files_deduplicated, 1);
}

#[test]
fn plan_group_mixed() {
    let decisions = plan_group(inode(1, 5), &vec![inode(1, 5), inode(1, 6), inode(2, 5)]);
    assert_eq!(
        decisions,
        vec![LinkDecision::AlreadyLinked, LinkDecision::Relink, LinkDecision::Relink]
    );
}

#[test]
fn plan_apply_overflow() {
    // statistics that cannot fit their counters are refused
    let meta = vec![GroupMeta {
        source_size: u64::MAX,
        source_id: inode(1, 1),
        target_ids: vec![inode(1, 2), inode(1, 3)],
    }];
    assert!(plan_apply(&meta).is_none());
}

#[test]
fn multiple_groups_statistics() {
    let meta = vec![
        GroupMeta { source_size: 10, source_id: inode(1, 1), target_ids: vec![inode(1, 2)] },
        GroupMeta {
            source_size: 7,
            source_id: inode(1, 3),
            target_ids: vec![inode(1, 4), inode(1, 5)],
        },
    ];
    let plan = plan_apply(&meta).unwrap();
    assert_eq!(plan.bytes_saved, 10 + 7 * 2);
    assert_eq!(plan.files_deduplicated, 3);
}

#[test]
fn device_ids() {
    assert_eq!(get_device_id(FileIdentity::Inode { device_id: 42, inode_number: 7 }), 42);
    assert_eq!(
        get_device_id(FileIdentity::LowRes { volume_serial_number: 9, file_index: 7 }),
        9
    );
    assert_eq!(
        get_device_id(FileIdentity::HighRes { volume_serial_number: 11, file_id: 7 }),
        11
    );
}
