//! What the store knows of a sorted table on disk. Writing and reading such
//! tables is left to another layer.
use vstd::prelude::*;

verus! {

/// Where a sorted table lives and which keys it spans.
pub struct SSTableMeta {
    pub file_no: u64,
    pub level: u32,
    pub path: String,
    pub smallest_key: Vec<u8>,
    pub largest_key: Vec<u8>,
}

} // verus!
