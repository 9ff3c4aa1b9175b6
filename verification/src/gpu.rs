//! GPU decode and GPUDirect storage entry points. Neither is available in
//! this library: detection finds nothing and the operations report it.
use vstd::prelude::*;
use crate::types::TpxError;

verus! {

pub struct GpuDecodeKernel;

impl GpuDecodeKernel {
    /// Decoding on the GPU is unsupported and always fails.
    pub fn decode_chunk(_data: &[u8]) -> (r: Result<Vec<u8>, TpxError>)
        ensures
            r matches Err(TpxError::UnsupportedFeature(_)),
    {
        Err(TpxError::UnsupportedFeature("GPU decode kernel requires CUDA hardware"))
    }
}

pub struct GdsReader;

impl GdsReader {
    /// Looks for GPUDirect storage; none is ever found.
    pub fn detect() -> (r: Option<Self>)
        ensures
            r is None,
    {
        None
    }

    /// Reading straight into device memory is unsupported and always fails.
    pub fn read_to_vram(&self, _offset: u64, _len: usize, _dev_ptr: u64) -> (r: Result<(), TpxError>)
        ensures
            r matches Err(TpxError::UnsupportedFeature(_)),
    {
        Err(TpxError::UnsupportedFeature("GPUDirect Storage (nvidia-fs) not available"))
    }
}

} // verus!
