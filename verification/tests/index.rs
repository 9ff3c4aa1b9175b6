use tpx::attrs::AttrValue;
use tpx::index::art::ArtTree;
use tpx::index::radix_spline::RadixSpline;
use tpx::index::surf::Surf;
use tpx::index::toc::{Toc, TocEntry};
use tpx::types::{ChunkRef, DTypeId};

#[test]
fn test_art_insert_get() {
    let mut tree = ArtTree::new();
    tree.insert(
        b"models/transformer/q",
        ChunkRef { shard_id: 0, chunk_offset: 100, chunk_len: 200 },
    );
    tree.insert(
        b"models/transformer/k",
        ChunkRef { shard_id: 0, chunk_offset: 300, chunk_len: 200 },
    );
    tree.insert(
        b"data/images",
        ChunkRef { shard_id: 1, chunk_offset: 500, chunk_len: 1000 },
    );

    let q = tree.get(b"models/transformer/q").unwrap();
    assert_eq!(q.chunk_offset, 100);

    let prefix = tree.get_prefix(b"models/");
    assert_eq!(prefix.len(), 2);
}

#[test]
fn test_art_remove() {
    let mut tree = ArtTree::new();
    tree.insert(b"k1", 100);
    assert_eq!(tree.get(b"k1"), Some(100));
    let removed = tree.remove(b"k1");
    assert_eq!(removed, Some(100));
    assert_eq!(tree.get(b"k1"), None);
}

#[test]
fn test_surf_no_false_negatives() {
    let keys = vec![b"apple".as_slice(), b"banana".as_slice(), b"cherry".as_slice()];
    let surf = Surf::build(&keys);

    assert!(surf.range_lookup(b"apple", b"apple"));
    assert!(surf.range_lookup(b"banana", b"banana"));
    assert!(surf.range_lookup(b"cherry", b"cherry"));
    assert!(!surf.range_lookup(b"zebra", b"zebra"));
}

#[test]
fn test_radix_spline() {
    let keys = vec![10u64, 20, 30, 40, 50];
    let positions = vec![0u32, 100, 200, 300, 400];
    let rs = RadixSpline::build(&keys, &positions);

    let (lo, hi) = rs.lookup(30);
    assert!(lo <= 200 && 200 <= hi);
}

#[test]
fn test_toc_serialize_deserialize() {
    let mut entries = Vec::new();
    for i in 0..10 {
        entries.push(TocEntry::new(
            format!("layer_{}", i),
            DTypeId::Float32,
            vec![128, 128],
            vec![("id".into(), AttrValue::Int64(i as i64))],
            vec![ChunkRef { shard_id: 0, chunk_offset: i as u64 * 4096, chunk_len: 4096 }],
        ));
    }

    let toc = Toc::build(entries);
    let bytes = toc.serialize();
    let toc2 = Toc::deserialize(&bytes).unwrap();

    assert_eq!(toc.entry_count(), toc2.entry_count());
    let e = toc2.lookup("layer_3").unwrap();
    assert_eq!(e.shape, vec![128, 128]);
}

#[test]
fn test_street_art_prefix_and_edge_keys() {
    let mut art = ArtTree::<u64>::new();

    art.insert(b"model", 100);
    art.insert(b"model/encoder", 200);
    art.insert(b"model/encoder/layer_0", 300);
    art.insert(b"model/encoder/layer_0/weight", 400);
    art.insert(b"model/encoder/layer_0/weight_decay", 500);

    assert_eq!(art.get(b"model"), Some(100));
    assert_eq!(art.get(b"model/encoder"), Some(200));
    assert_eq!(art.get(b"model/encoder/layer_0"), Some(300));
    assert_eq!(art.get(b"model/encoder/layer_0/weight"), Some(400));
    assert_eq!(art.get(b"model/encoder/layer_0/weight_decay"), Some(500));
    assert_eq!(art.get(b"model/enco"), None);

    art.insert(b"", 999);
    assert_eq!(art.get(b""), Some(999));

    let null_key = b"tensor\0with\0nulls";
    art.insert(null_key, 777);
    assert_eq!(art.get(null_key), Some(777));

    let removed = art.remove(b"model/encoder");
    assert_eq!(removed, Some(200));
    assert_eq!(art.get(b"model/encoder"), None);
    assert_eq!(art.get(b"model"), Some(100));
    assert_eq!(art.get(b"model/encoder/layer_0"), Some(300));
    assert_eq!(art.get(b"model/encoder/layer_0/weight"), Some(400));

    let prefix_items = art.get_prefix(b"model");
    let keys: Vec<Vec<u8>> = prefix_items.into_iter().map(|(k, _)| k).collect();
    assert!(keys.contains(&b"model".to_vec()));
    assert!(keys.contains(&b"model/encoder/layer_0".to_vec()));
    assert!(keys.contains(&b"model/encoder/layer_0/weight".to_vec()));
    assert!(!keys.contains(&b"model/encoder".to_vec()));
}

#[test]
fn art_reinsert_after_removal_in_wide_node() {
    let mut t: ArtTree<u64> = ArtTree::new();
    for b in 0u8..30 {
        t.insert(&[7, b], b as u64);
    }
    assert_eq!(t.remove(&[7, 3]), Some(3));
    assert_eq!(t.insert(&[7, 200], 200), None);
    assert_eq!(t.insert(&[7, 201], 201), None);
    for b in 0u8..30 {
        let want = if b == 3 { None } else { Some(b as u64) };
        assert_eq!(t.get(&[7, b]), want);
    }
    assert_eq!(t.get(&[7, 200]), Some(200));
    assert_eq!(t.get(&[7, 201]), Some(201));
}
