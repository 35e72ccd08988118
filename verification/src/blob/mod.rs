//! Blobs: packed chunks, and the references that locate a chunk inside one.

pub mod chunk_ref;
pub mod store;

pub use self::chunk_ref::{ChunkRef, ChunkRefView, Kind};
pub use self::store::{BlobStore, Completion, Stored};
