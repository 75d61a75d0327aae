//! Sizes and markers of the data file.
use vstd::prelude::*;

verus! {

/// Compaction threshold written into a new file when none is given.
pub const DEFAULT_COMPACT_THRESHOLD: u64 = 1024 * 1024;

/// Width of the length word in front of every record body.
pub const LEN_PREFIX_SIZE: u64 = 8;

/// The four bytes that open every data file: `KVS1`.
pub const FILE_HEADER_MAGIC: [u8; 4] = [0x4b, 0x56, 0x53, 0x31];

/// Magic plus the threshold word; records start at this offset.
pub const FILE_HEADER_SIZE: u64 = 12;

} // verus!
