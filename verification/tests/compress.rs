use tpx::codec::chimp128::{Chimp128Decoder, Chimp128Encoder};
use tpx::codec::lz4_codec::Lz4Codec;
use tpx::codec::zstd_codec::ZstdCodec;
use tpx::filter::bit_shuffle::{bit_shuffle, bit_unshuffle};
use tpx::filter::byte_shuffle::{shuffle, unshuffle};
use tpx::filter::delta_zigzag::{decode as dz_decode, encode as dz_encode};
use tpx::types::DTypeId;

fn u32_bytes(v: &[u32]) -> Vec<u8> {
    v.iter().flat_map(|x| x.to_le_bytes()).collect()
}

fn i32_bytes(v: &[i32]) -> Vec<u8> {
    v.iter().flat_map(|x| x.to_le_bytes()).collect()
}

fn i64_bytes(v: &[i64]) -> Vec<u8> {
    v.iter().flat_map(|x| x.to_le_bytes()).collect()
}

fn encode_f32s(vals: &[f32]) -> Vec<u8> {
    let mut encoder = Chimp128Encoder::new();
    for &f in vals {
        encoder.encode_u64((f.to_bits() as u64) << 32);
    }
    encoder.finish()
}

fn decode_f32s(data: &[u8]) -> Vec<f32> {
    let mut decoder = Chimp128Decoder::new(data).unwrap();
    let mut out = Vec::new();
    while let Some(v) = decoder.decode_u64() {
        out.push(f32::from_bits((v >> 32) as u32));
    }
    out
}

fn encode_f64s(vals: &[f64]) -> Vec<u8> {
    let mut encoder = Chimp128Encoder::new();
    for &d in vals {
        encoder.encode_u64(d.to_bits());
    }
    encoder.finish()
}

fn decode_f64s(data: &[u8]) -> Vec<f64> {
    let mut decoder = Chimp128Decoder::new(data).unwrap();
    let mut out = Vec::new();
    while let Some(v) = decoder.decode_u64() {
        out.push(f64::from_bits(v));
    }
    out
}

#[test]
fn test_byte_shuffle_round_trip() {
    let raw = (0..1024u32).map(|i| i * 17).collect::<Vec<u32>>();
    let bytes = u32_bytes(&raw);
    let shuffled = shuffle(&bytes, 4);
    let unshuffled = unshuffle(&shuffled, 4);
    assert_eq!(unshuffled, bytes);
}

#[test]
fn test_delta_zigzag_round_trip_i32() {
    let raw = (0..500i32).map(|i| i * 3 - 250).collect::<Vec<i32>>();
    let bytes = i32_bytes(&raw);
    let encoded = dz_encode(&bytes, DTypeId::Int32);
    let decoded = dz_decode(&encoded, DTypeId::Int32);
    assert_eq!(decoded, bytes);
}

#[test]
fn test_delta_zigzag_round_trip_i64() {
    let raw = (0..500i64).map(|i| i * 99).collect::<Vec<i64>>();
    let bytes = i64_bytes(&raw);
    let encoded = dz_encode(&bytes, DTypeId::Int64);
    let decoded = dz_decode(&encoded, DTypeId::Int64);
    assert_eq!(decoded, bytes);
}

#[test]
fn test_chimp128_f32_round_trip() {
    let floats = (0..2000).map(|i| (i as f32) * 0.05).collect::<Vec<f32>>();
    let compressed = encode_f32s(&floats);
    let decoded = decode_f32s(&compressed);
    assert_eq!(decoded.len(), floats.len());
    assert_eq!(decoded, floats);
}

#[test]
fn test_chimp128_f64_round_trip() {
    let doubles = (0..1000)
        .map(|i| (i as f64).sin() * 100.0)
        .collect::<Vec<f64>>();
    let compressed = encode_f64s(&doubles);
    let decoded = decode_f64s(&compressed);
    assert_eq!(decoded.len(), doubles.len());
    assert_eq!(decoded, doubles);
}

#[test]
fn test_zstd_round_trip() {
    let data = vec![42u8; 65536];
    let compressed = ZstdCodec::compress(&data, 3).unwrap();
    assert!(compressed.len() < data.len());
    let decompressed = ZstdCodec::decompress(&compressed, data.len()).unwrap();
    assert_eq!(decompressed, data);
}

#[test]
fn test_lz4_round_trip() {
    let data = vec![99u8; 65536];
    let compressed = Lz4Codec::compress(&data).unwrap();
    assert!(compressed.len() < data.len());
    let decompressed = Lz4Codec::decompress(&compressed, data.len()).unwrap();
    assert_eq!(decompressed, data);
}

#[test]
fn test_street_chimp128_edge_cases() {
    let repeating = vec![
        1.0f32, 2.0f32, 1.0f32, 2.0f32, 3.0f32, 1.0f32, 4.0f32, 2.0f32, 1.0f32, 0.0f32, 0.0f32,
    ];
    let decoded = decode_f32s(&encode_f32s(&repeating));
    assert_eq!(decoded, repeating);

    let subnormal = f32::from_bits(0x00000001);
    let special_f32 = vec![
        0.0f32,
        -0.0f32,
        f32::INFINITY,
        f32::NEG_INFINITY,
        f32::MIN,
        f32::MAX,
        f32::MIN_POSITIVE,
        subnormal,
        1e-30f32,
        1e30f32,
    ];
    let out = decode_f32s(&encode_f32s(&special_f32));
    assert_eq!(out.len(), special_f32.len());
    for (a, b) in out.iter().zip(special_f32.iter()) {
        assert_eq!(a.to_bits(), b.to_bits());
    }

    let uniform = vec![42.5f64; 5000];
    let out64 = decode_f64s(&encode_f64s(&uniform));
    assert_eq!(out64, uniform);
}

#[test]
fn test_street_filter_edge_cases() {
    for len in [1usize, 2, 3, 4, 5, 7, 8, 9, 15, 16, 17, 31, 32, 33, 100, 103] {
        let raw: Vec<u8> = (0..len).map(|i| (i * 31 % 256) as u8).collect();
        for elem_size in [1, 2, 4, 8] {
            let shuffled = shuffle(&raw, elem_size);
            let unshuffled = unshuffle(&shuffled, elem_size);
            assert_eq!(unshuffled, raw, "Failed at len {} elem_size {}", len, elem_size);
        }
    }

    for len in [1usize, 2, 3, 5, 7, 8, 9, 13, 16, 31, 64, 127] {
        let raw: Vec<u8> = (0..len).map(|i| ((i * 17 + 5) % 256) as u8).collect();
        let shuffled = bit_shuffle(&raw);
        let unshuffled = bit_unshuffle(&shuffled);
        assert_eq!(unshuffled, raw, "BitShuffle failed at len {}", len);
    }

    let extreme_i64 = vec![
        0i64,
        -1,
        1,
        i64::MIN,
        i64::MAX,
        i64::MIN + 1,
        i64::MAX - 1,
        -1_000_000_000_000i64,
        1_000_000_000_000i64,
    ];
    let bytes64 = i64_bytes(&extreme_i64);
    let enc64 = dz_encode(&bytes64, DTypeId::Int64);
    let dec64 = dz_decode(&enc64, DTypeId::Int64);
    assert_eq!(dec64, bytes64);

    let extreme_i32 = vec![0i32, -1, 1, i32::MIN, i32::MAX, -500_000, 500_000, i32::MIN + 1];
    let bytes32 = i32_bytes(&extreme_i32);
    let enc32 = dz_encode(&bytes32, DTypeId::Int32);
    let dec32 = dz_decode(&enc32, DTypeId::Int32);
    assert_eq!(dec32, bytes32);
}
