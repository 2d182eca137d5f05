//! A slab allocator with fixed size classes.
//!
//! Every size class owns a region of `REGION_SIZE` bytes, cut into blocks of
//! the size of the class, and keeps the free ones on a list that works as a
//! stack. A request is served by the smallest class whose blocks are large
//! enough. Nothing grows: a class whose blocks are all handed out refuses
//! requests until one of them comes back.
//!
//! The allocator hands out addresses in an arena of
//! `CLASS_COUNT * REGION_SIZE` bytes and keeps its books about them; it
//! never touches the bytes behind an address. The addresses of class `c`
//! are those from `c * REGION_SIZE` up to the start of the next region, so
//! the embedding system can lay the arena onto memory of its own.
//!
//! A block may be released only while it is handed out, and only with a
//! size that routes to the class the block came from. The allocator keeps
//! no record by which it could tell, so this is a precondition of
//! `dealloc` that the caller has to meet.
//!
//! `pool` and `dispatch` hold the mathematical models and their laws,
//! `cache` and `allocator` the code that runs, `region` the arithmetic of
//! cutting a region into blocks, `error` the reasons for a refusal.

pub mod allocator;
pub mod cache;
pub mod dispatch;
pub mod error;
pub mod pool;
pub mod region;

pub use crate::allocator::{SlabAllocator, CLASS_COUNT, MAX_BLOCK_SIZE};
pub use crate::cache::SlabCache;
pub use crate::error::AllocError;
pub use crate::region::REGION_SIZE;
