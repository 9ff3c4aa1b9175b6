use tpx::checkpoint::{checkpoint_block, should_checkpoint};
use tpx::codec::chimp128::{decode_all, encode_all};
use tpx::codec::select::CodecSelection;
use tpx::footer::scan_for_footer;
use tpx::index::art::ArtTree;
use tpx::record::{decode_chunk, encode_chunk};
use tpx::router::shard_for_key;
use tpx::types::{CodecId, DTypeId, FilterId, TpxError};

#[test]
fn chimp_words_round_trip() {
    let vals = vec![0u64, 1, 1, u64::MAX, 42, 42, 7 << 40, 3];
    let bytes = encode_all(&vals);
    assert_eq!(decode_all(&bytes).unwrap(), vals);
}

#[test]
fn chunk_record_round_trip_for_each_codec() {
    let raw: Vec<u8> = (0..4096u32).flat_map(|i| (i % 7).to_le_bytes()).collect();
    for (codec, filter) in [
        (CodecId::Raw, FilterId::NoFilter),
        (CodecId::Zstd, FilterId::ByteShuffle),
        (CodecId::Lz4, FilterId::NoFilter),
        (CodecId::Zstd, FilterId::DeltaZigZag),
    ] {
        let sel = CodecSelection { codec, filter, level: 3 };
        let chunk = encode_chunk(&raw, DTypeId::Int32, sel, 4096).unwrap();
        assert_eq!(chunk.len() % 4096, 0);
        assert_eq!(decode_chunk(&chunk, 0, DTypeId::Int32).unwrap(), raw);
    }
}

#[test]
fn corrupted_chunk_payload_is_refused() {
    let raw = vec![3u8; 1000];
    let sel = CodecSelection { codec: CodecId::Raw, filter: FilterId::NoFilter, level: 0 };
    let mut chunk = encode_chunk(&raw, DTypeId::UInt8, sel, 4096).unwrap();
    chunk[20] ^= 0xFF;
    assert!(matches!(
        decode_chunk(&chunk, 8192, DTypeId::UInt8),
        Err(TpxError::ChunkCrcMismatch { offset: 8192, .. })
    ));
}

#[test]
fn appended_checkpoint_is_found_by_scan() {
    let mut file = vec![0u8; 4096];
    let toc = vec![1u8, 2, 3, 4, 5];
    let (footer, block) = checkpoint_block(&toc, file.len() as u64, 9, false);
    file.extend_from_slice(&block);
    assert_eq!(file.len() % 4096, 0);
    let found = scan_for_footer(&file, file.len() as u64, 4096).unwrap().unwrap();
    assert_eq!(found.0, footer);
    assert_eq!(found.0.toc_offset, 4096);
    assert!(found.0.is_checkpoint());
}

#[test]
fn checkpoint_decision() {
    assert!(should_checkpoint(100, 100, 0, 60000));
    assert!(!should_checkpoint(99, 100, 59999, 60000));
    assert!(should_checkpoint(1, 100, 60000, 60000));
    assert!(!should_checkpoint(0, 100, 60000, 60000));
}

#[test]
fn router_is_stable_and_in_range() {
    for n in [1u16, 2, 4, 7, 16] {
        let a = shard_for_key("model/layer_3/weight", n);
        assert!(a < n);
        assert_eq!(a, shard_for_key("model/layer_3/weight", n));
    }
    assert_eq!(shard_for_key("anything", 0), 0);
}

#[test]
fn art_get_after_insert_and_remove() {
    let mut t = ArtTree::new();
    let keys: Vec<Vec<u8>> = (0..300u32).map(|i| format!("k{}", i).into_bytes()).collect();
    for (i, k) in keys.iter().enumerate() {
        assert_eq!(t.insert(k, i as u64), None);
    }
    for (i, k) in keys.iter().enumerate() {
        assert_eq!(t.get(k), Some(i as u64));
    }
    assert_eq!(t.insert(&keys[5], 1000), Some(5));
    assert_eq!(t.remove(&keys[7]), Some(7));
    assert_eq!(t.get(&keys[7]), None);
    assert_eq!(t.get(&keys[5]), Some(1000));
    assert_eq!(t.get_prefix(b"k1").len(), 111);
    let snap = t.snapshot();
    assert_eq!(snap.get(&keys[5]), Some(1000));
    assert_eq!(snap.get(&keys[7]), None);
    assert_eq!(snap.get_prefix(b"k29").len(), 11);
}
