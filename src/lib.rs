//! Archive storage and indexing: a content store keyed by item identifier,
//! a chronological index and a per-tag index, with their key codec,
//! deduplicating batch ingestion and newest-first paginated reads.

pub mod order;
pub mod codec;
pub mod timestamp;
pub mod url;
pub mod index;
pub mod ingest;
pub mod archive;
pub mod paging;
