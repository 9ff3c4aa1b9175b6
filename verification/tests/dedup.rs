use tpx::dedup::cdc::{cdc_chunk, CdcConfig};
use tpx::dedup::content_store::{ContentEntry, ContentStore};

#[test]
fn test_cdc_chunking_bounds() {
    let config = CdcConfig::default();
    let data = vec![0xABu8; 1024 * 1024];
    let chunks = cdc_chunk(&data, &config);
    assert!(!chunks.is_empty());
    for c in &chunks {
        assert!(c.len <= config.max_size);
    }
}

#[test]
fn test_content_store_refcounting() {
    let mut store = ContentStore::new();
    let hash = 0x12345678_9ABCDEF0_u128;
    let entry = ContentEntry::new(0, 1024, 2048, 1);

    assert!(store.insert(hash, entry));
    assert_eq!(store.add_ref(hash).unwrap(), 2);
    assert_eq!(store.release(hash).unwrap(), 1);
    assert_eq!(store.release(hash).unwrap(), 0);

    let gc = store.gc_candidates();
    assert_eq!(gc.len(), 1);
    assert_eq!(gc[0].0, hash);
}

#[test]
fn test_street_cdc_dedup_stress() {
    let cfg = CdcConfig::default();

    assert!(cdc_chunk(&[], &cfg).is_empty());
    let single = cdc_chunk(&[42], &cfg);
    assert_eq!(single.len(), 1);
    assert_eq!(single[0].len, 1);

    let rep_data = vec![0xABu8; 512 * 1024];
    let chunks = cdc_chunk(&rep_data, &cfg);
    assert!(!chunks.is_empty());
    let total_len: usize = chunks.iter().map(|c| c.len).sum();
    assert_eq!(total_len, rep_data.len());
    for c in &chunks {
        assert!(c.len <= cfg.max_size);
    }
}
