use tpx::attrs::AttrValue;
use tpx::dedup::content_store::{ContentEntry, ContentStore};
use tpx::engine::{
    add_refs, existing_hashes, recovery_truncation, release_refs, diff_versions, list_versions, live_keys, parse_retention, plan_batch, register_pending, resolve_placements,
    select_version, Placement, ProcessedChunk, ProcessedTensor, Shard,
};
use tpx::index::toc::{Toc, TocEntry};
use tpx::types::{ChunkRef, DTypeId, OpenMode, TpxError};
use tpx::version::RetentionPolicy;

fn cref(offset: u64) -> ChunkRef {
    ChunkRef { shard_id: 1, chunk_offset: offset, chunk_len: 64 }
}

fn entry(key: &str, offsets: &[u64]) -> TocEntry {
    TocEntry::new(
        key.to_string(),
        DTypeId::Float32,
        vec![4],
        vec![],
        offsets.iter().map(|&o| cref(o)).collect(),
    )
}

#[test]
fn retention_names_select_policies() {
    assert_eq!(parse_retention("keep_forever"), RetentionPolicy::KeepForever);
    assert_eq!(parse_retention("keep_last_n:5"), RetentionPolicy::KeepLastN(5));
    assert_eq!(parse_retention("keep_last_n:+7"), RetentionPolicy::KeepLastN(7));
    assert_eq!(parse_retention("keep_last_n:abc"), RetentionPolicy::KeepLastN(1));
    assert_eq!(parse_retention("keep_last_n:"), RetentionPolicy::KeepLastN(1));
    assert_eq!(parse_retention("keep_last_n:4294967296"), RetentionPolicy::KeepLastN(1));
    assert_eq!(parse_retention("keep_last_n:4294967295"), RetentionPolicy::KeepLastN(u32::MAX));
    assert_eq!(parse_retention("keep_latest"), RetentionPolicy::KeepLatest);
    assert_eq!(parse_retention("anything"), RetentionPolicy::KeepLatest);
}

#[test]
fn shard_records_puts_and_forgets() {
    let mut shard = Shard::new(2, 4096);
    assert_eq!(shard.allocate_append(100), 4096);
    assert_eq!(shard.append_offset, 4196);

    let refs = vec![cref(10), cref(20)];
    let evicted = shard.record_put("w", &refs, DTypeId::Float32, vec![2], vec![], vec![1, 2], RetentionPolicy::KeepLatest);
    assert!(evicted.is_empty());
    assert_eq!(shard.art.get(b"w"), Some(cref(10)));
    assert_eq!(shard.chunk_count, 2);

    let refs2 = vec![cref(30)];
    let evicted = shard.record_put("w", &refs2, DTypeId::Float32, vec![2], vec![], vec![3], RetentionPolicy::KeepLatest);
    assert_eq!(evicted, vec![1, 2]);
    assert_eq!(shard.art.get(b"w"), Some(cref(30)));
    assert_eq!(shard.chain("w").unwrap().list_versions(), vec![1]);

    shard.forget("w");
    assert_eq!(shard.art.get(b"w"), None);
    assert!(shard.chain("w").is_none());
}

#[test]
fn shard_batch_put_keeps_existing_retention() {
    let mut shard = Shard::new(0, 0);
    shard.record_put("k", &vec![cref(1)], DTypeId::UInt8, vec![1], vec![], vec![11], RetentionPolicy::KeepForever);
    let evicted = shard.record_batch_put("k", &vec![cref(2)], DTypeId::UInt8, vec![1], vec![22]);
    assert!(evicted.is_empty());
    assert_eq!(shard.chain("k").unwrap().list_versions(), vec![0, 1]);
    let evicted = shard.record_batch_put("fresh", &vec![cref(3)], DTypeId::UInt8, vec![1], vec![33]);
    assert!(evicted.is_empty());
    let evicted = shard.record_batch_put("fresh", &vec![cref(4)], DTypeId::UInt8, vec![1], vec![44]);
    assert_eq!(evicted, vec![33]);
}

#[test]
fn shard_loads_table_entries() {
    let mut shard = Shard::new(0, 0);
    shard.load_entry(entry("a", &[100, 200]));
    assert_eq!(shard.art.get(b"a"), Some(cref(200)));
    let chain = shard.chain("a").unwrap();
    assert_eq!(chain.versions[0].chunk_refs, vec![(1u128 << 64) | 100, (1u128 << 64) | 200]);
    let mut dead = entry("a", &[]);
    dead.tombstone = 1;
    shard.load_entry(dead);
    assert_eq!(shard.art.get(b"a"), None);
    assert!(shard.chain("a").is_none());
}

#[test]
fn table_queries_follow_entries() {
    let mut entries = vec![entry("x", &[1]), entry("y", &[2]), entry("x", &[3, 4]), entry("", &[5])];
    let mut gone = entry("z", &[6]);
    gone.tombstone = 1;
    entries.push(gone);
    let toc = Toc::build(entries);
    assert_eq!(live_keys(&toc), vec!["y".to_string(), "x".to_string()]);

    let shard = Shard::new(0, 0);
    assert_eq!(list_versions(&shard, &toc, "x").unwrap(), vec![0, 1]);
    assert!(matches!(list_versions(&shard, &toc, "z"), Err(TpxError::KeyNotFound(_))));
    assert_eq!(select_version(&shard, &toc, "x", 1).unwrap(), 2);
    assert!(matches!(
        select_version(&shard, &toc, "x", 2),
        Err(TpxError::VersionNotFound { version: 2, .. })
    ));
    assert!(matches!(select_version(&shard, &toc, "q", 0), Err(TpxError::KeyNotFound(_))));

    let d = diff_versions(&shard, &toc, "x", 0, 1).unwrap();
    let mut added = d.added.clone();
    added.sort();
    assert_eq!(added, vec![3, 4]);
    assert_eq!(d.removed, vec![1]);
    assert!(matches!(diff_versions(&shard, &toc, "nope", 0, 0), Err(TpxError::KeyNotFound(_))));
}

#[test]
fn batch_plan_reuses_stored_chunks_and_lays_out_new_ones() {
    let mut store = ContentStore::new();
    store.insert(7, ContentEntry::new(3, 999, 12, 1));
    let ts = vec![
        ProcessedTensor {
            shard_id: 0,
            chunks: vec![
                ProcessedChunk { content_hash: 7, chunk_bytes: vec![1, 2, 3] },
                ProcessedChunk { content_hash: 8, chunk_bytes: vec![4, 5] },
            ],
        },
        ProcessedTensor { shard_id: 1, chunks: vec![ProcessedChunk { content_hash: 9, chunk_bytes: vec![6, 7, 8] }] },
    ];
    let plan = plan_batch(&store, &ts);
    assert_eq!(plan.buffer, vec![4, 5, 6, 7, 8]);
    assert_eq!(plan.pending.len(), 2);
    assert_eq!(plan.pending[1].buffer_offset, 2);
    assert_eq!(plan.placements[0][0], Placement::Existing(ChunkRef { shard_id: 3, chunk_offset: 999, chunk_len: 12 }));
    assert_eq!(plan.placements[0][1], Placement::Buffered(0, 2));

    let refs = resolve_placements(&plan.placements, &ts, 10_000);
    assert_eq!(refs[1][0], ChunkRef { shard_id: 1, chunk_offset: 10_002, chunk_len: 3 });
    register_pending(&mut store, &plan.pending, 10_000);
    assert_eq!(store.lookup(9).unwrap().chunk_offset, 10_002);
    assert_eq!(store.lookup(8).unwrap().refcount, 1);
    let _ = AttrValue::Bool(true);
}

#[test]
fn deleted_versions_do_not_come_back() {
    let mut a = entry("k", &[1]);
    a.tombstone = 1;
    let toc = Toc::build(vec![a, entry("k", &[2])]);
    let shard = Shard::new(0, 0);
    assert_eq!(list_versions(&shard, &toc, "k").unwrap(), vec![0]);
    assert_eq!(select_version(&shard, &toc, "k", 0).unwrap(), 1);
    assert!(matches!(select_version(&shard, &toc, "k", 1), Err(TpxError::VersionNotFound { .. })));
}

#[test]
fn batch_reuse_and_eviction_adjust_references() {
    let mut store = ContentStore::new();
    store.insert(5, ContentEntry::new(0, 0, 10, 1));
    let ts = vec![ProcessedTensor {
        shard_id: 0,
        chunks: vec![
            ProcessedChunk { content_hash: 5, chunk_bytes: vec![] },
            ProcessedChunk { content_hash: 6, chunk_bytes: vec![1] },
        ],
    }];
    let placements = vec![vec![Placement::Existing(cref(0)), Placement::Buffered(0, 1)]];
    let hs = existing_hashes(&placements, &ts);
    assert_eq!(hs, vec![5]);
    add_refs(&mut store, &hs);
    assert_eq!(store.lookup(5).unwrap().refcount, 2);
    release_refs(&mut store, &vec![5, 5, 99]);
    assert_eq!(store.lookup(5).unwrap().refcount, 0);
}

#[test]
fn reopen_cuts_back_only_writable_files() {
    assert_eq!(recovery_truncation(10_000, 4096, OpenMode::ReadWrite), Some(4120));
    assert_eq!(recovery_truncation(10_000, 4096, OpenMode::Append), Some(4120));
    assert_eq!(recovery_truncation(10_000, 4096, OpenMode::ReadOnly), None);
    assert_eq!(recovery_truncation(4120, 4096, OpenMode::ReadWrite), None);
}
