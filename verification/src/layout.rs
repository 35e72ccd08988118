//! Names of the fixed places inside a repository directory.

use vstd::prelude::*;

verus! {

/// Largest blob, in bytes, that the blob store assembles before sealing it.
pub const MAX_BLOB_SIZE: usize = 4194304;

/// Relative directory, below the repository root, that holds the sealed blobs.
pub fn blob_dir() -> (dir: String)
    ensures
        dir@ == "blobs"@,
{
    String::from_str("blobs")
}

} // verus!
