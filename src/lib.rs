//! An immutable set of byte strings, built once over a fixed key corpus and
//! queried through a collision-free hash index.
pub mod bloom;
pub mod buffer;
pub mod codecs;
pub mod hash_set;
pub mod records;

pub use bloom::BloomFilter;
pub use buffer::Buffer;
pub use hash_set::{CompressedHashSet, HashSet};
pub use records::{get_with_offset, Data};
