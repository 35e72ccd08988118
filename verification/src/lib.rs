//! Content-addressed, deduplicating snapshot engine: verified core.

pub mod backend;
pub mod blob;
pub mod errors;
pub mod hash;
pub mod key;
pub mod layout;
pub mod util;
