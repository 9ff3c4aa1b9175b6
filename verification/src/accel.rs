//! Hardware compression offload and the choice between it and the CPU path.
use vstd::prelude::*;
use crate::types::TpxError;
use crate::wire::copy_bytes;

verus! {

/// A compression offload device. No device is driven by this library, so
/// detection finds none and the block operations pass data through.
pub struct QatOffload;

impl QatOffload {
    /// Looks for an offload device; none is ever found.
    pub fn detect() -> (r: Option<Self>)
        ensures
            r is None,
    {
        None
    }

    /// Compresses a block on the device: the block passes through unchanged.
    pub fn compress_block(&self, data: &[u8]) -> (r: Result<Vec<u8>, TpxError>)
        ensures
            r matches Ok(v) && v@ == data@,
    {
        Ok(copy_bytes(data))
    }

    /// Decompresses a block on the device: the block passes through unchanged.
    pub fn decompress_block(&self, data: &[u8], _out_len: usize) -> (r: Result<Vec<u8>, TpxError>)
        ensures
            r matches Ok(v) && v@ == data@,
    {
        Ok(copy_bytes(data))
    }
}

/// Where a block gets compressed.
pub enum CompressionPath<'a> {
    Cpu,
    Offload(&'a QatOffload),
}

/// Uses the offload device when there is one, else the CPU.
pub fn select_offload_or_cpu<'a>(_sample: &[u8], qat: Option<&'a QatOffload>) -> (r: CompressionPath<'a>)
    ensures
        qat is None <==> r is Cpu,
{
    match qat {
        Some(dev) => CompressionPath::Offload(dev),
        None => CompressionPath::Cpu,
    }
}

} // verus!
