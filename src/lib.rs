//! Storage core of an embedded database engine: a fixed-capacity page cache
//! over a durable page store, with LRU-K eviction and page allocation.
//!
//! - `bitmap`: a packed set over a fixed universe of indices.
//! - `disk`: page allocation, free-space bookkeeping and the metadata header
//!   of the page file.
//! - `eviction`: the LRU-K victim policy, which never picks a pinned frame.
//! - `pool`: frames, the page directory, pins and dirty bits; a miss hands
//!   the caller what to write back and which frame to load into.
pub mod bitmap;
pub mod eviction;
pub mod disk;
pub mod pool;
pub mod page_interpretation;
