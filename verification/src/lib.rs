//! A slab allocator over a caller-supplied address range.
//!
//! The allocator hands out blocks of four fixed sizes (16, 32, 64 and 128
//! bytes). Each size class keeps a last-in, first-out list of free block
//! addresses; when a class runs dry, ten new blocks are carved from the
//! unused part of the region.

pub mod global;
pub mod laws;
pub mod ownership;
pub mod size_class;
pub mod slab;

pub use global::{GlobalModel, GlobalSlabAllocator};
pub use size_class::{slab_size, BLOCKS_PER_REFILL, NUM_CLASSES};
pub use slab::{SlabAllocator, SlabModel};
