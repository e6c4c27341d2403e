//! The boundary tag allocator, which writes tags at the beginning and end of each chunk of its
//! backing memory to track their sizes and allocation state.

pub mod tags;
pub mod chunks;
pub mod state;
pub mod allocator;
pub mod laws;

pub use allocator::BoundaryTagAllocator;
pub use tags::{TagsBinding, TagsU8, TagsU16, TagsU32, TagsU64, TagsUsize};
