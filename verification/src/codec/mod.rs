//! Compression codecs and their dispatch.
pub mod zstd_codec;
pub mod lz4_codec;
pub mod dictionary;
pub mod bitstream;
pub mod chimp128;
pub mod select;

use vstd::prelude::*;
use crate::types::{CodecId, DTypeId, TpxError};
use crate::wire::copy_bytes;
use crate::codec::chimp128::{
    Chimp128Codec, chimp_bytes, chimp_decode, chimp_words, chimp_decompressed, word_width, words_bytes,
    lemma_chimp_codec_round_trip,
};
use crate::codec::zstd_codec::{ZstdCodec, zstd_content, zstd_frame, zstd_level};
use crate::codec::lz4_codec::{Lz4Codec, lz4_block, lz4_content};

verus! {

/// What compressing `data` with codec `c` produces where it succeeds.
pub open spec fn compressed(c: CodecId, data: Seq<u8>, level: i32, dtype: DTypeId) -> Seq<u8> {
    match c {
        CodecId::Raw => data,
        CodecId::Chimp128 => chimp_bytes(chimp_words(data, dtype)),
        CodecId::Zstd => zstd_frame(data, zstd_level(level)),
        CodecId::Lz4 => lz4_block(data),
    }
}

/// What decompressing `data` with codec `c` produces where it succeeds.
pub open spec fn decompressed(c: CodecId, data: Seq<u8>, uncompressed_len: usize, dtype: DTypeId) -> Seq<u8> {
    match c {
        CodecId::Raw => data,
        CodecId::Chimp128 => words_bytes(chimp_decode(data), dtype),
        CodecId::Zstd => zstd_content(data, uncompressed_len),
        CodecId::Lz4 => lz4_content(data),
    }
}

/// Input that codec `c` can compress: Chimp128 counts its words in 32 bits.
pub open spec fn compress_accepts(c: CodecId, data: Seq<u8>, dtype: DTypeId) -> bool {
    c == CodecId::Chimp128 ==> data.len() / word_width(dtype) <= u32::MAX
}

/// Data of length `uncompressed_len` that codec `c` gives back exactly:
/// Chimp128 keeps whole elements only.
pub open spec fn round_trips(c: CodecId, x: Seq<u8>, uncompressed_len: usize, dtype: DTypeId) -> bool {
    &&& x.len() == uncompressed_len
    &&& (c == CodecId::Chimp128 ==> x.len() % word_width(dtype) == 0 && x.len() / word_width(dtype) <= u32::MAX)
    &&& (c == CodecId::Lz4 ==> x.len() <= u32::MAX)
}

pub trait Codec {
    /// The codec this object applies.
    spec fn kind(&self) -> CodecId;

    fn id(&self) -> (r: CodecId)
        ensures
            r == self.kind(),
    ;

    fn compress(&self, data: &[u8], level: i32, dtype: DTypeId) -> (r: Result<Vec<u8>, TpxError>)
        requires
            compress_accepts(self.kind(), data@, dtype),
        ensures
            r matches Ok(v) ==> v@ == compressed(self.kind(), data@, level, dtype),
            self.kind() != CodecId::Zstd ==> r is Ok,
            r is Err ==> r matches Err(TpxError::CodecError(_)),
    ;

    fn decompress(&self, data: &[u8], uncompressed_len: usize, dtype: DTypeId) -> (r: Result<Vec<u8>, TpxError>)
        ensures
            r matches Ok(v) ==> v@ == decompressed(self.kind(), data@, uncompressed_len, dtype),
            self.kind() != CodecId::Zstd ==> (r matches Ok(v) ==> v@.len() == uncompressed_len),
            self.kind() == CodecId::Raw ==> (r is Ok <==> data@.len() == uncompressed_len),
            self.kind() == CodecId::Raw && data@.len() != uncompressed_len ==> (r matches Err(
                TpxError::DecompressLengthMismatch { expected, got },
            ) && expected == uncompressed_len && got == data@.len()),
            self.kind() == CodecId::Chimp128 ==> (r is Ok <==> chimp_decompressed(data@, uncompressed_len, dtype) is Ok),
            forall|x: Seq<u8>, level: i32|
                data@ == #[trigger] compressed(self.kind(), x, level, dtype) && round_trips(
                    self.kind(),
                    x,
                    uncompressed_len,
                    dtype,
                ) ==> (r matches Ok(v) && v@ == x),
    ;
}

/// Stores data as it is.
pub struct RawCodec;

impl Codec for RawCodec {
    open spec fn kind(&self) -> CodecId {
        CodecId::Raw
    }

    fn id(&self) -> CodecId {
        CodecId::Raw
    }

    fn compress(&self, data: &[u8], _level: i32, _dtype: DTypeId) -> Result<Vec<u8>, TpxError> {
        Ok(copy_bytes(data))
    }

    fn decompress(&self, data: &[u8], uncompressed_len: usize, _dtype: DTypeId) -> (r: Result<Vec<u8>, TpxError>)
        ensures
            r matches Err(TpxError::DecompressLengthMismatch { expected, got }) ==> expected == uncompressed_len
                && got == data@.len(),
            r is Err ==> r matches Err(TpxError::DecompressLengthMismatch { .. }),
    {
        if data.len() != uncompressed_len {
            return Err(TpxError::DecompressLengthMismatch { expected: uncompressed_len, got: data.len() });
        }
        Ok(copy_bytes(data))
    }
}

impl Codec for Chimp128Codec {
    open spec fn kind(&self) -> CodecId {
        CodecId::Chimp128
    }

    fn id(&self) -> CodecId {
        CodecId::Chimp128
    }

    fn compress(&self, data: &[u8], _level: i32, dtype: DTypeId) -> Result<Vec<u8>, TpxError> {
        Ok(Chimp128Codec::compress_bytes(data, dtype))
    }

    fn decompress(&self, data: &[u8], uncompressed_len: usize, dtype: DTypeId) -> Result<Vec<u8>, TpxError> {
        proof {
            assert forall|x: Seq<u8>, level: i32|
                data@ == #[trigger] compressed(CodecId::Chimp128, x, level, dtype) && round_trips(
                    CodecId::Chimp128,
                    x,
                    uncompressed_len,
                    dtype,
                ) implies chimp_decompressed(data@, uncompressed_len, dtype) == Ok::<Seq<u8>, ()>(x) by {
                lemma_chimp_codec_round_trip(x, dtype);
            }
        }
        Chimp128Codec::decompress_bytes(data, uncompressed_len, dtype)
    }
}

/// Zstandard through its bulk interface.
pub struct ZstdCodecWrapper;

impl Codec for ZstdCodecWrapper {
    open spec fn kind(&self) -> CodecId {
        CodecId::Zstd
    }

    fn id(&self) -> CodecId {
        CodecId::Zstd
    }

    fn compress(&self, data: &[u8], level: i32, _dtype: DTypeId) -> Result<Vec<u8>, TpxError> {
        ZstdCodec::compress(data, level)
    }

    fn decompress(&self, data: &[u8], uncompressed_len: usize, _dtype: DTypeId) -> Result<Vec<u8>, TpxError> {
        ZstdCodec::decompress(data, uncompressed_len)
    }
}

/// LZ4 block compression with the length prepended.
pub struct Lz4CodecWrapper;

impl Codec for Lz4CodecWrapper {
    open spec fn kind(&self) -> CodecId {
        CodecId::Lz4
    }

    fn id(&self) -> CodecId {
        CodecId::Lz4
    }

    fn compress(&self, data: &[u8], _level: i32, _dtype: DTypeId) -> Result<Vec<u8>, TpxError> {
        Lz4Codec::compress(data)
    }

    fn decompress(&self, data: &[u8], uncompressed_len: usize, _dtype: DTypeId) -> Result<Vec<u8>, TpxError> {
        Lz4Codec::decompress(data, uncompressed_len)
    }
}

/// One of the four codecs, chosen at run time.
pub enum AnyCodec {
    Raw(RawCodec),
    Chimp128(Chimp128Codec),
    Zstd(ZstdCodecWrapper),
    Lz4(Lz4CodecWrapper),
}

impl Codec for AnyCodec {
    open spec fn kind(&self) -> CodecId {
        match self {
            AnyCodec::Raw(_) => CodecId::Raw,
            AnyCodec::Chimp128(_) => CodecId::Chimp128,
            AnyCodec::Zstd(_) => CodecId::Zstd,
            AnyCodec::Lz4(_) => CodecId::Lz4,
        }
    }

    fn id(&self) -> CodecId {
        match self {
            AnyCodec::Raw(c) => c.id(),
            AnyCodec::Chimp128(c) => c.id(),
            AnyCodec::Zstd(c) => c.id(),
            AnyCodec::Lz4(c) => c.id(),
        }
    }

    fn compress(&self, data: &[u8], level: i32, dtype: DTypeId) -> Result<Vec<u8>, TpxError> {
        match self {
            AnyCodec::Raw(c) => c.compress(data, level, dtype),
            AnyCodec::Chimp128(c) => c.compress(data, level, dtype),
            AnyCodec::Zstd(c) => c.compress(data, level, dtype),
            AnyCodec::Lz4(c) => c.compress(data, level, dtype),
        }
    }

    fn decompress(&self, data: &[u8], uncompressed_len: usize, dtype: DTypeId) -> Result<Vec<u8>, TpxError> {
        match self {
            AnyCodec::Raw(c) => c.decompress(data, uncompressed_len, dtype),
            AnyCodec::Chimp128(c) => c.decompress(data, uncompressed_len, dtype),
            AnyCodec::Zstd(c) => c.decompress(data, uncompressed_len, dtype),
            AnyCodec::Lz4(c) => c.decompress(data, uncompressed_len, dtype),
        }
    }
}

pub fn get_codec(id: CodecId) -> (r: Box<AnyCodec>)
    ensures
        r.kind() == id,
{
    match id {
        CodecId::Raw => Box::new(AnyCodec::Raw(RawCodec)),
        CodecId::Chimp128 => Box::new(AnyCodec::Chimp128(Chimp128Codec)),
        CodecId::Zstd => Box::new(AnyCodec::Zstd(ZstdCodecWrapper)),
        CodecId::Lz4 => Box::new(AnyCodec::Lz4(Lz4CodecWrapper)),
    }
}

} // verus!
