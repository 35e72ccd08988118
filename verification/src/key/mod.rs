//! Keys: the names and metadata of a snapshot, and the chunk service below them.

pub mod hash_store_backend;
pub mod index;

pub use self::index::{Entry, EntryView, InternalKeyIndex, KeyIndex, Row, RowView};
