//! Memory allocators that hand out parts of a backing memory buffer.

pub mod layout;
pub mod traits;
pub mod boundary_tag_alloc;
pub mod byte_boundary_tag_alloc;
pub mod bump_allocator;
pub mod sized_bump;
pub mod free_list;
pub mod arena_allocator;
pub mod custom_box;

pub use arena_allocator::{Arena, ArenaAlloc};
pub use custom_box::Box;

pub use layout::{Layout, LayoutError};
pub use traits::{AllocError, AllocInit, Allocator, MutGlobalAlloc};
