//! A persistent key-value store over a growable, linear, byte-addressable
//! memory region: a bitmap-based fixed-block allocator, a key index mapping
//! each key to an ordered chain of blocks plus a fill offset, and a
//! persistence layer that snapshots both into a reserved header region.

pub mod bucket;
pub mod codec;
pub mod kv;
pub mod layout;
pub mod stable;
pub mod types;
