//! Hash trees: a byte stream as a tree of chunks.
//!
//! The leaves are pieces of the stream. A branch lists its children, each by
//! hash and chunk reference, and is itself stored as a chunk. The root is a
//! branch; its payload tells the height of the tree and the length of the
//! stream.

pub mod chunker;
pub mod node;
pub mod reader;
pub mod shape;
pub mod writer;

pub use self::chunker::{chunk_end, roll_byte, MAX_CHUNK, MIN_CHUNK};
pub use self::node::{
    decode_children, decode_payload, encode_children, encode_payload, HashRef, HashRefView,
    TreeRoot,
};
pub use self::reader::{read_node, read_tree};
pub use self::shape::Shape;
pub use self::writer::{write_tree, TreeWriter, DEFAULT_FANOUT};
