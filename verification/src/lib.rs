//! A region set manager for numeric address ranges.
//!
//! A [`RegionAllocator`](allocator::RegionAllocator) tracks a set of disjoint
//! half-open intervals `[base, base + size)` over the unsigned machine-word
//! address space.  Ranges can be added (overlapping or adjacent entries are
//! merged), subtracted (entries are trimmed, split or removed), and allocated
//! either at a caller-chosen address or at an arbitrary aligned address.

pub mod allocator;
pub mod laws;
pub mod model;
pub mod region;

pub use allocator::RegionAllocator;
pub use region::Region;
