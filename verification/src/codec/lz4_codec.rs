//! LZ4 block compression through the `lz4_flex` crate.
use vstd::prelude::*;
use crate::types::TpxError;

verus! {

#[verifier::external_type_specification]
#[verifier::external_body]
pub struct ExDecompressError(lz4_flex::block::DecompressError);

/// The LZ4 block that `lz4_flex::compress_prepend_size` produces for `data`
/// (a four-byte little-endian length followed by the compressed block).
pub uninterp spec fn lz4_block(data: Seq<u8>) -> Seq<u8>;

/// The content that `lz4_flex::decompress_size_prepended` recovers from `data`.
pub uninterp spec fn lz4_content(data: Seq<u8>) -> Seq<u8>;

/// Calls `lz4_flex::compress_prepend_size`. Claims that the result is the
/// block named by `lz4_block`.
#[verifier::external_body]
pub(crate) fn lz4_compress_prepend_size(data: &[u8]) -> (r: Vec<u8>)
    ensures
        r@ == lz4_block(data@),
{
    lz4_flex::compress_prepend_size(data)
}

/// Calls `lz4_flex::decompress_size_prepended`. Claims that a successful
/// result is the content named by `lz4_content`, and that a block made by
/// `compress_prepend_size` from at most `u32::MAX` bytes decompresses to the
/// bytes it was made from (LZ4 is lossless; the length in front is 32 bits,
/// so a longer input is not recovered).
#[verifier::external_body]
pub(crate) fn lz4_decompress_size_prepended(data: &[u8]) -> (r: Result<Vec<u8>, lz4_flex::block::DecompressError>)
    ensures
        r matches Ok(v) ==> v@ == lz4_content(data@),
        forall|x: Seq<u8>| data@ == #[trigger] lz4_block(x) && x.len() <= u32::MAX ==> r.is_ok() && r.unwrap()@ == x,
{
    lz4_flex::decompress_size_prepended(data)
}

/// Calls `ToString::to_string` on an LZ4 decoding error, for error messages.
#[verifier::external_body]
fn lz4_error_text(e: &lz4_flex::block::DecompressError) -> String {
    e.to_string()
}

pub struct Lz4Codec;

impl Lz4Codec {
    pub fn compress(data: &[u8]) -> (r: Result<Vec<u8>, TpxError>)
        ensures
            r matches Ok(v) && v@ == lz4_block(data@),
    {
        Ok(lz4_compress_prepend_size(data))
    }

    pub fn decompress(data: &[u8], uncompressed_len: usize) -> (r: Result<Vec<u8>, TpxError>)
        ensures
            r matches Ok(v) ==> v@ == lz4_content(data@) && v@.len() == uncompressed_len,
            r matches Err(TpxError::DecompressLengthMismatch { expected, got }) ==> expected == uncompressed_len
                && got == lz4_content(data@).len() && got != uncompressed_len,
            r is Err ==> (r matches Err(TpxError::DecompressLengthMismatch { .. })) || (r matches Err(
                TpxError::CodecError(_),
            )),
            forall|x: Seq<u8>|
                data@ == #[trigger] lz4_block(x) && x.len() == uncompressed_len && x.len() <= u32::MAX ==> (r matches Ok(
                    v,
                ) && v@ == x),
    {
        let decompressed = match lz4_decompress_size_prepended(data) {
            Ok(v) => v,
            Err(e) => return Err(TpxError::CodecError(lz4_error_text(&e))),
        };
        if decompressed.len() != uncompressed_len {
            return Err(
                TpxError::DecompressLengthMismatch {
                    expected: uncompressed_len,
                    got: decompressed.len(),
                },
            );
        }
        Ok(decompressed)
    }
}

} // verus!
