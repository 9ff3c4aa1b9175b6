//! TPX: a self-describing tensor storage format.
//!
//! The verified library holds the wire format (header, footer, chunk
//! records, attribute and table-of-contents encodings), the byte filters,
//! the codec dispatch, content-defined chunking, the in-memory indexes and
//! the version chains.
use vstd::prelude::*;

pub mod types;
pub mod wire;
pub mod header;
pub mod footer;
pub mod chunk;
pub mod filter;
pub mod hash;
pub mod codec;
pub mod dedup;
pub mod index;
pub mod attrs;
pub mod version;
pub mod batch;
pub mod accel;
pub mod gpu;
pub mod io;
pub mod record;
pub mod router;
pub mod checkpoint;
pub mod engine;
pub mod baseline;

verus! {

} // verus!
