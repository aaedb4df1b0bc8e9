//! A general-purpose allocator engine over page-sized mappings.
//!
//! Memory comes in regions, each one mapping from the page provider, cut
//! into blocks that carry a header. Requests are routed by size to a bucket
//! per size class, or to the dynamic bucket when they exceed every class.
//! A bucket serves a request from the first free block with room, splitting
//! off what is left over; freeing a block merges it with free neighbours on
//! both sides, and a region whose blocks are all free goes back to the page
//! provider. Mapping and unmapping are the caller's part: `MmapAllocator`
//! says what to map and hands back what to unmap.
pub mod layout;
pub mod header;
pub mod block;
pub mod region;
pub mod bucket;
pub mod allocator;

pub use allocator::{InternalAllocator, MmapAllocator, Step};
