//! A fixed-capacity buddy-block memory allocator.
//!
//! The arena is one contiguous byte buffer, partitioned on demand into
//! power-of-two blocks. A complete binary tree, stored as an implicit
//! array, records for every possible block whether it is free, split in
//! two, or handed out to a caller. Allocation descends from a free block,
//! splitting along the way; freeing merges a block with its buddy while
//! both halves are free.

pub mod math;
pub mod tree;
pub mod buddy;

pub use crate::buddy::BuddyAllocator;
pub use crate::buddy::AllocError;
pub use crate::buddy::Data;
