use vstd::prelude::*;

use crate::header::Header;

verus! {

/// Bytes in a page of the platform.
pub const PAGE_SIZE: usize = 4096;

/// The firmware's type code for conventional memory, free for general use.
pub const CONVENTIONAL_MEMORY: u32 = 7;

/// One range of physical memory as the firmware reports it: a run of whole
/// pages starting at `physical_start`.
#[derive(Debug, Clone, Copy, PartialEq, Eq, Structural)]
pub struct MemoryDescriptor {
    pub memory_type: u32,
    pub physical_start: usize,
    pub number_of_pages: usize,
}

impl MemoryDescriptor {
    /// The firmware's type code of this range.
    pub fn memory_type(&self) -> (r: u32)
        ensures
            r == self.memory_type,
    {
        self.memory_type
    }
}

/// The range is page aligned and ends inside the address space.
pub open spec fn descriptor_ok(d: MemoryDescriptor) -> bool {
    &&& (d.physical_start as int) % (PAGE_SIZE as int) == 0
    &&& d.physical_start + d.number_of_pages * PAGE_SIZE <= usize::MAX
}

/// Where the node for `d` starts: the page at address zero is never handed out.
pub open spec fn region_start(d: MemoryDescriptor) -> int {
    if d.physical_start == 0 {
        PAGE_SIZE as int
    } else {
        d.physical_start as int
    }
}

/// How many bytes the node for `d` covers.
pub open spec fn region_size(d: MemoryDescriptor) -> int {
    let s = d.number_of_pages * PAGE_SIZE;
    if d.physical_start == 0 {
        if s >= PAGE_SIZE {
            s - PAGE_SIZE
        } else {
            0
        }
    } else {
        s
    }
}

/// The free node that seeding with `d` pushes onto the chain.
pub open spec fn region_node(d: MemoryDescriptor) -> Header {
    Header { addr: region_start(d) as usize, size: region_size(d) as usize, is_allocated: false }
}

/// Seeding keeps the range of `d`: it is conventional memory and more than a page.
pub open spec fn seeds(d: MemoryDescriptor) -> bool {
    d.memory_type == CONVENTIONAL_MEMORY && region_size(d) > PAGE_SIZE
}

} // verus!
