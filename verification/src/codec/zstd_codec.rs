//! Zstandard compression through the `zstd` crate's bulk API.
use vstd::prelude::*;
use crate::types::TpxError;

verus! {

/// The Zstandard frame that `zstd::bulk::compress` produces for `data` at `level`.
pub uninterp spec fn zstd_frame(data: Seq<u8>, level: i32) -> Seq<u8>;

/// The frame produced for `data` at `level` with the dictionary `dict`.
pub uninterp spec fn zstd_dict_frame(data: Seq<u8>, level: i32, dict: Seq<u8>) -> Seq<u8>;

/// The content that `zstd::bulk::decompress` recovers from `data` within `capacity` bytes.
pub uninterp spec fn zstd_content(data: Seq<u8>, capacity: usize) -> Seq<u8>;

/// The content recovered from `data` within `capacity` bytes with the dictionary `dict`.
pub uninterp spec fn zstd_dict_content(data: Seq<u8>, capacity: usize, dict: Seq<u8>) -> Seq<u8>;

/// The dictionary that `zstd::dict::from_samples` trains on `samples` within `max_size` bytes.
pub uninterp spec fn zstd_trained(samples: Seq<Seq<u8>>, max_size: usize) -> Seq<u8>;

/// Calls `zstd::bulk::compress`. Claims that a successful result is the
/// frame named by `zstd_frame`; when it fails is left unsaid (it depends on
/// the allocator and the native library).
#[verifier::external_body]
fn zstd_bulk_compress(data: &[u8], level: i32) -> (r: Result<Vec<u8>, std::io::Error>)
    ensures
        r matches Ok(v) ==> v@ == zstd_frame(data@, level),
{
    zstd::bulk::compress(data, level)
}

/// Calls `zstd::bulk::decompress`. Claims that a successful result is the
/// content named by `zstd_content` and holds at most `capacity` bytes, and
/// that a frame made by `zstd::bulk::compress` from at most `capacity`
/// bytes decompresses to those bytes (Zstandard is lossless).
#[verifier::external_body]
fn zstd_bulk_decompress(data: &[u8], capacity: usize) -> (r: Result<Vec<u8>, std::io::Error>)
    ensures
        r matches Ok(v) ==> v@ == zstd_content(data@, capacity) && v@.len() <= capacity,
        forall|x: Seq<u8>, level: i32|
            data@ == #[trigger] zstd_frame(x, level) && x.len() <= capacity ==> r.is_ok() && r.unwrap()@ == x,
{
    zstd::bulk::decompress(data, capacity)
}

/// Builds a `zstd::bulk::Compressor::with_dictionary` and compresses `data`
/// with it. Claims that a successful result is the frame named by
/// `zstd_dict_frame`.
#[verifier::external_body]
fn zstd_dict_compress(data: &[u8], level: i32, dict: &[u8]) -> (r: Result<Vec<u8>, std::io::Error>)
    ensures
        r matches Ok(v) ==> v@ == zstd_dict_frame(data@, level, dict@),
{
    zstd::bulk::Compressor::with_dictionary(level, dict)?.compress(data)
}

/// Builds a `zstd::bulk::Decompressor::with_dictionary` and decompresses
/// `data` with it. Claims that a successful result is the content named by
/// `zstd_dict_content` within `capacity` bytes, and that a frame made with
/// the same dictionary from at most `capacity` bytes decompresses to them.
#[verifier::external_body]
fn zstd_dict_decompress(data: &[u8], capacity: usize, dict: &[u8]) -> (r: Result<Vec<u8>, std::io::Error>)
    ensures
        r matches Ok(v) ==> v@ == zstd_dict_content(data@, capacity, dict@) && v@.len() <= capacity,
        forall|x: Seq<u8>, level: i32|
            data@ == #[trigger] zstd_dict_frame(x, level, dict@) && x.len() <= capacity ==> r.is_ok()
                && r.unwrap()@ == x,
{
    zstd::bulk::Decompressor::with_dictionary(dict)?.decompress(data, capacity)
}

/// Calls `zstd::dict::from_samples`. Claims that a successful result is the
/// dictionary named by `zstd_trained`.
#[verifier::external_body]
pub(crate) fn zstd_from_samples(samples: &[&[u8]], max_size: usize) -> (r: Result<Vec<u8>, std::io::Error>)
    ensures
        r matches Ok(v) ==> v@ == zstd_trained(samples@.map_values(|s: &[u8]| s@), max_size),
{
    zstd::dict::from_samples(samples, max_size)
}

/// Calls `ToString::to_string` on an I/O error, for error messages.
#[verifier::external_body]
pub(crate) fn io_error_text(e: &std::io::Error) -> String {
    e.to_string()
}

/// `level` limited to the range 1..=22 that Zstandard accepts.
pub open spec fn zstd_level(level: i32) -> i32 {
    if level < 1 {
        1
    } else if level > 22 {
        22
    } else {
        level
    }
}

pub struct ZstdCodec;

impl ZstdCodec {
    pub fn compress(data: &[u8], level: i32) -> (r: Result<Vec<u8>, TpxError>)
        ensures
            r matches Ok(v) ==> v@ == zstd_frame(data@, zstd_level(level)),
            r is Err ==> r matches Err(TpxError::CodecError(_)),
    {
        let level = if level < 1 {
            1
        } else if level > 22 {
            22
        } else {
            level
        };
        match zstd_bulk_compress(data, level) {
            Ok(v) => Ok(v),
            Err(e) => Err(TpxError::CodecError(io_error_text(&e))),
        }
    }

    pub fn compress_with_dict(data: &[u8], level: i32, dict: &[u8]) -> (r: Result<Vec<u8>, TpxError>)
        ensures
            r matches Ok(v) ==> v@ == zstd_dict_frame(data@, zstd_level(level), dict@),
            r is Err ==> r matches Err(TpxError::CodecError(_)),
    {
        let level = if level < 1 {
            1
        } else if level > 22 {
            22
        } else {
            level
        };
        match zstd_dict_compress(data, level, dict) {
            Ok(v) => Ok(v),
            Err(e) => Err(TpxError::CodecError(io_error_text(&e))),
        }
    }

    pub fn decompress(data: &[u8], uncompressed_len: usize) -> (r: Result<Vec<u8>, TpxError>)
        ensures
            r matches Ok(v) ==> v@ == zstd_content(data@, uncompressed_len) && v@.len() <= uncompressed_len,
            r is Err ==> r matches Err(TpxError::CodecError(_)),
            forall|x: Seq<u8>, level: i32|
                data@ == #[trigger] zstd_frame(x, level) && x.len() <= uncompressed_len ==> (r matches Ok(v)
                    && v@ == x),
    {
        match zstd_bulk_decompress(data, uncompressed_len) {
            Ok(v) => Ok(v),
            Err(e) => Err(TpxError::CodecError(io_error_text(&e))),
        }
    }

    pub fn decompress_with_dict(data: &[u8], uncompressed_len: usize, dict: &[u8]) -> (r: Result<
        Vec<u8>,
        TpxError,
    >)
        ensures
            r matches Ok(v) ==> v@ == zstd_dict_content(data@, uncompressed_len, dict@) && v@.len()
                <= uncompressed_len,
            r is Err ==> r matches Err(TpxError::CodecError(_)),
            forall|x: Seq<u8>, level: i32|
                data@ == #[trigger] zstd_dict_frame(x, level, dict@) && x.len() <= uncompressed_len ==> (r matches Ok(v)
                    && v@ == x),
    {
        match zstd_dict_decompress(data, uncompressed_len, dict) {
            Ok(v) => Ok(v),
            Err(e) => Err(TpxError::CodecError(io_error_text(&e))),
        }
    }
}

} // verus!
