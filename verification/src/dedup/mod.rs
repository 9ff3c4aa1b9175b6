//! Deduplication: content-defined chunking and the content store.
pub mod cdc;
pub mod content_store;
