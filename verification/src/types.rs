use crate::stable::StableMemory;
use vstd::prelude::*;

verus! {

/// Errors reported by the data path and the restart boundary.
#[derive(Debug, Clone)]
pub enum KvError {
    /// The backing memory could not be grown far enough.
    InsufficientMemory,
    /// The value handed in has a size the store does not accept.
    BlobSizeError,
    /// The key has no entry in the index.
    InvalidKey,
    /// Any other failure, described in words.
    Other(String),
}

/// The key index: each key maps to the ordered list of blocks holding its
/// bytes, together with the number of bytes used in the final block.
pub struct Kv {
    /// key -> (blocks, fill of the final block), keys pairwise distinct.
    pub kv_set: Vec<(String, (Vec<u64>, u64))>,
}

/// The block allocator: a densely packed bit map over fixed-size blocks
/// (one bit per block, set = allocated) plus the count of growth units
/// currently provisioned from the backing memory.
pub struct Layout {
    /// Growth units of backing memory provisioned so far.
    pub stable_blocks_count: u64,
    /// One bit per block, set when the block is allocated.
    pub bit_map: Vec<u8>,
    /// Bytes per block; fixed at construction.
    pub kv_block_size: u64,
    /// Largest number of bytes the backing memory may ever reach.
    pub threshold: u64,
    /// Growth units set aside for the reserved header region.
    pub reserved_pages: u64,
}

/// The pair of structures persisted across a restart boundary.
pub struct StableStruct {
    pub layout: Layout,
    pub kv: Kv,
}

/// A store context: the key index and the block allocator together with
/// the backing memory they manage. Every operation takes the context
/// explicitly; no process-wide state exists.
pub struct Store {
    pub kv: Kv,
    pub layout: Layout,
    pub memory: StableMemory,
}

} // verus!
