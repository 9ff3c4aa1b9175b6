//! Trained Zstandard dictionaries, identified by an XXH64 signature.
use vstd::prelude::*;
use crate::types::{DTypeId, TpxError, dtype_code};
use crate::hash::{spec_xxh64, xxh64};
use crate::wire::{le32, push32};
use crate::codec::zstd_codec::{zstd_from_samples, zstd_trained, io_error_text};

verus! {

#[derive(Clone, Debug)]
pub struct TrainedDict {
    pub data: Vec<u8>,
    pub signature: u64,
}

/// The bytes a dictionary signature hashes: the dtype code, then each
/// dimension as a little-endian u32.
pub open spec fn signature_input(shape: Seq<u32>, dtype: DTypeId) -> Seq<u8>
    decreases shape.len(),
{
    if shape.len() == 0 {
        seq![dtype_code(dtype)]
    } else {
        signature_input(shape.drop_last(), dtype) + le32(shape.last())
    }
}

impl TrainedDict {
    pub fn new(data: Vec<u8>, signature: u64) -> (r: Self)
        ensures
            r.data@ == data@,
            r.signature == signature,
    {
        Self { data, signature }
    }

    pub fn compute_signature(shape: &[u32], dtype: DTypeId) -> (r: u64)
        ensures
            r == spec_xxh64(signature_input(shape@, dtype), 0),
    {
        let mut buf: Vec<u8> = Vec::new();
        buf.push(dtype.to_u8());
        assert(buf@ =~= signature_input(shape@.take(0), dtype));
        let mut i: usize = 0;
        while i < shape.len()
            invariant
                i <= shape@.len(),
                buf@ == signature_input(shape@.take(i as int), dtype),
            decreases shape@.len() - i,
        {
            push32(&mut buf, shape[i]);
            assert(shape@.take(i + 1).drop_last() =~= shape@.take(i as int));
            i = i + 1;
        }
        assert(shape@.take(i as int) =~= shape@);
        xxh64(buf.as_slice(), 0)
    }
}

/// Trains a Zstandard dictionary of at most `max_size` bytes on `samples`.
pub fn train_dict(samples: &[&[u8]], max_size: usize) -> (r: Result<TrainedDict, TpxError>)
    ensures
        samples@.len() == 0 ==> r matches Err(TpxError::CodecError(_)),
        r matches Ok(d) ==> d.data@ == zstd_trained(samples@.map_values(|s: &[u8]| s@), max_size)
            && d.signature == spec_xxh64(d.data@, 0),
        r is Err ==> r matches Err(TpxError::CodecError(_)),
{
    if samples.len() == 0 {
        return Err(TpxError::CodecError("Cannot train dictionary on empty sample set".to_string()));
    }
    let dict_data = match zstd_from_samples(samples, max_size) {
        Ok(d) => d,
        Err(e) => return Err(TpxError::CodecError(io_error_text(&e))),
    };
    let signature = xxh64(dict_data.as_slice(), 0);
    Ok(TrainedDict::new(dict_data, signature))
}

} // verus!
