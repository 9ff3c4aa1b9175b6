use tpx::footer::ReadAt;
use tpx::attrs::{AttrValue, Attrs};
use tpx::chunk::{pad_to_align, BlockEntry, ChunkHeader};
use tpx::footer::Footer;
use tpx::header::FileHeader;
use tpx::types::{CodecId, FilterId, TpxError, FLAG_CHECKSUMMED};

#[test]
fn test_header_magic_round_trip() {
    let h = FileHeader::new(4, 4096, FLAG_CHECKSUMMED);
    let bytes = h.serialize();
    let h2 = FileHeader::deserialize(&bytes).expect("deserialize header");
    assert_eq!(h.magic, h2.magic);
    assert_eq!(h.format_version, h2.format_version);
    assert_eq!(h.flags, h2.flags);
    assert_eq!(h.shard_count, h2.shard_count);
}

#[test]
fn test_header_rejects_bad_magic() {
    let mut bytes = FileHeader::default().serialize();
    bytes[0] = b'X';
    assert!(matches!(
        FileHeader::deserialize(&bytes),
        Err(TpxError::InvalidMagic { .. })
    ));
}

#[test]
fn test_footer_round_trip() {
    let f = Footer::new(12345, 42, 0xDEADBEEF, false);
    let bytes = f.serialize();
    let f2 = Footer::deserialize(&bytes).expect("deserialize footer");
    assert_eq!(f.toc_offset, f2.toc_offset);
    assert_eq!(f.total_chunks, f2.total_chunks);
    assert_eq!(f.checksum, f2.checksum);
    assert!(f2.is_final());
}

#[test]
fn test_footer_checkpoint_flag() {
    let f = Footer::new(500, 10, 0x1234, true);
    assert!(f.is_checkpoint());
    assert!(!f.is_final());
    let bytes = f.serialize();
    let f2 = Footer::deserialize(&bytes).unwrap();
    assert!(f2.is_checkpoint());
}

#[test]
fn test_global_attrs_tlv_round_trip() {
    let mut attrs = Attrs::new();
    attrs
        .set("producer".to_string(), AttrValue::String("tpx-test-1.0".into()))
        .unwrap();
    attrs
        .set("created_at".to_string(), AttrValue::Int64(1700000000))
        .unwrap();
    attrs
        .set("ratio".to_string(), AttrValue::Float64(std::f64::consts::PI.to_bits()))
        .unwrap();
    attrs.set("flag".to_string(), AttrValue::Bool(true)).unwrap();
    attrs
        .set("blob".to_string(), AttrValue::Bytes(vec![0xCA, 0xFE, 0xBA, 0xBE]))
        .unwrap();

    let bytes = attrs.serialize();
    let attrs2 = Attrs::deserialize(&bytes).unwrap();
    assert_eq!(attrs.len(), attrs2.len());
    assert_eq!(
        attrs2.get("producer"),
        Some(&AttrValue::String("tpx-test-1.0".into()))
    );
    assert_eq!(attrs2.get("flag"), Some(&AttrValue::Bool(true)));
}

#[test]
fn test_chunk_header_round_trip() {
    let header = ChunkHeader::new(CodecId::Raw, FilterId::NoFilter, 3, 4096, 12288, 0xCAFEBABE);
    let table = vec![
        BlockEntry { compressed_len: 4096 },
        BlockEntry { compressed_len: 4096 },
        BlockEntry { compressed_len: 4096 },
    ];
    let bytes = header.serialize(&table);
    let (h2, t2) = ChunkHeader::deserialize(&bytes).unwrap();
    assert_eq!(header, h2);
    assert_eq!(table, t2);
}

#[test]
fn test_pad_to_align_boundary() {
    let mut buf = vec![0u8; 5000];
    pad_to_align(&mut buf, 4096);
    assert_eq!(buf.len(), 8192);
}

#[test]
fn test_pad_already_aligned_is_noop() {
    let mut buf = vec![0u8; 8192];
    pad_to_align(&mut buf, 4096);
    assert_eq!(buf.len(), 8192);
}

#[test]
fn read_at_copies_what_is_there() {
    let src: Vec<u8> = (10..20u8).collect();
    let mut buf = [0xAAu8; 4];
    assert_eq!(src.read_at(2, &mut buf).unwrap(), 4);
    assert_eq!(buf, [12, 13, 14, 15]);
    let mut buf = [0xAAu8; 4];
    assert_eq!(src.as_slice().read_at(8, &mut buf).unwrap(), 2);
    assert_eq!(buf, [18, 19, 0xAA, 0xAA]);
    assert_eq!(src.read_at(10, &mut buf).unwrap(), 0);
    assert_eq!(src.read_at(u64::MAX, &mut buf).unwrap(), 0);
}
