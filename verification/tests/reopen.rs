use tpx::attrs::{AttrValue, Attrs};
use tpx::dedup::content_store::{ContentEntry, ContentStore};
use tpx::engine::{dedup_step, list_versions, record_retention, record_written, stored_retention, Shard};
use tpx::index::toc::{Toc, TocEntry};
use tpx::types::{ChunkRef, DTypeId};
use tpx::version::RetentionPolicy;

fn stored_entry(key: &str, offset: u64, retain: RetentionPolicy) -> TocEntry {
    let mut attrs = Attrs::new();
    attrs.set("note".to_string(), AttrValue::Int64(1)).unwrap();
    record_retention(&mut attrs, retain);
    TocEntry::new(
        key.to_string(),
        DTypeId::Float32,
        vec![4],
        attrs.entries,
        vec![ChunkRef { shard_id: 0, chunk_offset: offset, chunk_len: 64 }],
    )
}

#[test]
fn retention_is_stored_with_each_entry() {
    let e = stored_entry("w", 0, RetentionPolicy::KeepLastN(3));
    assert_eq!(stored_retention(&e.attrs), RetentionPolicy::KeepLastN(3));
    for p in [RetentionPolicy::KeepForever, RetentionPolicy::KeepLatest, RetentionPolicy::KeepLastN(0)] {
        assert_eq!(stored_retention(&stored_entry("w", 0, p).attrs), p);
    }
    let plain = TocEntry::new("w".to_string(), DTypeId::Float32, vec![4], vec![], vec![]);
    assert_eq!(stored_retention(&plain.attrs), RetentionPolicy::KeepForever);
}

#[test]
fn evicted_versions_stay_evicted_after_reopen() {
    let key = "training/encoder/weight";
    let entries: Vec<TocEntry> = (0..10u64).map(|i| stored_entry(key, 4096 * (i + 1), RetentionPolicy::KeepLastN(3))).collect();
    let toc = Toc::build(entries.clone());
    let mut shard = Shard::new(0, 0);
    for e in entries {
        shard.load_entry(e);
    }
    assert_eq!(list_versions(&shard, &toc, key).unwrap(), vec![7, 8, 9]);
}

#[test]
fn dedup_reuses_a_stored_chunk() {
    let mut store = ContentStore::new();
    assert_eq!(dedup_step(&mut store, 42), None);
    let r = record_written(&mut store, 42, 3, 8192, 100);
    assert_eq!(r, ChunkRef { shard_id: 3, chunk_offset: 8192, chunk_len: 100 });
    assert_eq!(store.lookup(42), Some(ContentEntry::new(3, 8192, 100, 1)));
    assert_eq!(dedup_step(&mut store, 42), Some(r));
    assert_eq!(store.lookup(42).unwrap().refcount, 2);
    // A second write of the same content keeps the first location.
    record_written(&mut store, 42, 1, 0, 5);
    assert_eq!(store.lookup(42), Some(ContentEntry::new(3, 8192, 100, 2)));
}

#[test]
fn reference_count_wraps_at_the_top() {
    let mut store = ContentStore::new();
    store.insert(7, ContentEntry::new(0, 0, 1, u32::MAX));
    assert_eq!(store.add_ref(7).unwrap(), 0);
    assert_eq!(store.release(7).unwrap(), 0);
    assert_eq!(store.lookup(7).unwrap().refcount, u32::MAX);
}

#[test]
fn user_attributes_leave_out_the_retention_entry() {
    let e = stored_entry("w", 0, RetentionPolicy::KeepLastN(3));
    let user = tpx::engine::user_attrs(e.attrs.clone());
    assert_eq!(user, vec![("note".to_string(), AttrValue::Int64(1))]);
}

#[test]
fn batch_keys_feed_the_history() {
    let mut h = tpx::batch::PrefetchHistory::new();
    h.record_keys(&["a", "b", "c"]);
    h.record_keys(&["a", "b", "d"]);
    assert_eq!(h.recent_sequences.len(), 2);
    let ha = xxhash_rust::xxh64::xxh64(b"a", 0);
    let hb = xxhash_rust::xxh64::xxh64(b"b", 0);
    let hd = xxhash_rust::xxh64::xxh64(b"d", 0);
    assert_eq!(h.recent_sequences[1], vec![ha, hb, hd]);
    assert_eq!(h.predictor.predict_next(ha, hb), Some(hd));
}
