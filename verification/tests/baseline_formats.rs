use tpx::baseline::{
    f32_to_bf16_bits, f32_to_fp16_bits, h5blosc_decode, h5blosc_image, h5blosc_index, raw_binary_image,
    safetensors_image, IndexError,
};

#[test]
fn fp16_bits_of_common_values() {
    assert_eq!(f32_to_fp16_bits(1.0f32.to_bits()), 0x3C00);
    assert_eq!(f32_to_fp16_bits((-2.0f32).to_bits()), 0xC000);
    assert_eq!(f32_to_fp16_bits(0.5f32.to_bits()), 0x3800);
    // Too small for the format: flushed to zero.
    assert_eq!(f32_to_fp16_bits(1e-10f32.to_bits()), 0);
    // Too large: infinity of the same sign.
    assert_eq!(f32_to_fp16_bits(1e10f32.to_bits()), 0x7C00);
    assert_eq!(f32_to_fp16_bits((-1e10f32).to_bits()), 0xFC00);
}

#[test]
fn bf16_bits_are_the_upper_half() {
    assert_eq!(f32_to_bf16_bits(1.0f32.to_bits()), 0x3F80);
    assert_eq!(f32_to_bf16_bits(0x1234_5678), 0x1234);
}

#[test]
fn raw_stream_layout() {
    let img = raw_binary_image(&[("a", &[1u8, 2][..]), ("bc", &[][..])]);
    let mut expect = Vec::new();
    expect.extend_from_slice(&1u32.to_le_bytes());
    expect.extend_from_slice(&2u64.to_le_bytes());
    expect.extend_from_slice(&[0, 0, 0, 0]);
    expect.extend_from_slice(b"a");
    expect.extend_from_slice(&[1, 2]);
    expect.extend_from_slice(&2u32.to_le_bytes());
    expect.extend_from_slice(&0u64.to_le_bytes());
    expect.extend_from_slice(&[0, 0, 0, 0]);
    expect.extend_from_slice(b"bc");
    assert_eq!(img, expect);
}

#[test]
fn safetensors_header_and_data() {
    let w: Vec<u8> = (0..8u8).collect();
    let b: Vec<u8> = vec![9, 9, 9, 9];
    let img = safetensors_image(&[("w", &w[..], &[2u32][..]), ("bias", &b[..], &[1u32, 1][..])]);
    let header = "{\"w\":{\"dtype\":\"F32\",\"shape\":[2],\"data_offsets\":[0,8]},\
                  \"bias\":{\"dtype\":\"F32\",\"shape\":[1,1],\"data_offsets\":[8,12]}}";
    let mut expect = Vec::new();
    expect.extend_from_slice(&(header.len() as u64).to_le_bytes());
    expect.extend_from_slice(header.as_bytes());
    expect.extend_from_slice(&w);
    expect.extend_from_slice(&b);
    assert_eq!(img, expect);
}

#[test]
fn safetensors_empty_and_large_numbers() {
    let img = safetensors_image(&[]);
    assert_eq!(img, [2u8, 0, 0, 0, 0, 0, 0, 0, b'{', b'}'].to_vec());
    let img = safetensors_image(&[("x", &[][..], &[4096u32, 0, 1234567890][..])]);
    let header = "{\"x\":{\"dtype\":\"F32\",\"shape\":[4096,0,1234567890],\"data_offsets\":[0,0]}}";
    assert_eq!(&img[8..], header.as_bytes());
}

#[test]
fn h5_file_index_points_at_each_block() {
    let a: Vec<u8> = (0..64u32).flat_map(|i| (i as f32).to_le_bytes()).collect();
    let b: Vec<u8> = vec![7; 40];
    let img = h5blosc_image(&[("alpha", &a[..], &[16u32, 4][..]), ("beta", &b[..], &[10u32][..])]);
    assert_eq!(&img[..8], b"\x89HDF\r\n\x1a\n");
    assert_eq!(&img[img.len() - 8..], b"H5BLOSC\x00");
    let index = h5blosc_index(&img).unwrap();
    assert_eq!(index.len(), 2);
    assert_eq!(index[0].0, "alpha");
    assert_eq!(index[1].0, "beta");
    assert_eq!(index[0].1, 8);
    assert_eq!(index[1].1, index[0].1 + index[0].2);
    for ((_, off, len), raw) in index.iter().zip([&a, &b]) {
        let block = &img[*off as usize..(*off + *len) as usize];
        assert_eq!(block[0..4], [2, 1, 4, 0]);
        assert_eq!(u32::from_le_bytes(block[12..16].try_into().unwrap()) as usize, raw.len());
        assert_eq!(&h5blosc_decode(block).unwrap(), raw);
    }
}

#[test]
fn h5_index_errors() {
    assert_eq!(h5blosc_index(&[0u8; 23]), Err(IndexError::TooShort));
    // A trailer that claims two entries at position 0: the first is read
    // from the trailer itself, the second would start past the end.
    let mut f = vec![0u8; 0];
    f.extend_from_slice(&0u64.to_le_bytes());
    f.extend_from_slice(&2u64.to_le_bytes());
    f.extend_from_slice(b"H5BLOSC\x00");
    assert_eq!(h5blosc_index(&f), Err(IndexError::Truncated));
    // No entries: an empty index.
    let img = h5blosc_image(&[]);
    assert_eq!(h5blosc_index(&img).unwrap().len(), 0);
}

#[test]
fn h5_block_that_does_not_decompress() {
    let mut block = vec![2u8, 1, 4, 0];
    block.extend_from_slice(&[0u8; 12]);
    block.extend_from_slice(&[100u8, 0, 0, 0, 0xF0]);
    assert!(h5blosc_decode(&block).is_err());
}
