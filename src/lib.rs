//! A first-fit, header-based heap allocator over physical memory ranges.
//!
//! The ledger of regions is an index-addressed arena: every node records the
//! address and size of the byte range it owns and whether that range is in
//! use. Allocation carves an aligned block from the high end of the first
//! node that can hold it; deallocation only clears the node's flag.
use vstd::prelude::*;

pub mod allocator;
pub mod header;
pub mod init;
pub mod laws;
pub mod memory_map;
pub mod pow2;

verus! {
} // verus!
