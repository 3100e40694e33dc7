use vstd::prelude::*;

use crate::allocator::{seedable, seeded_seq, seeded_total, sum_sizes, FirstFitAllocator};
use crate::memory_map::MemoryDescriptor;

verus! {

/// Brings up the heap once the firmware has handed over the machine: seeds
/// `allocator` from the final memory map and hands the map back.
pub fn init_basic_runtime(
    allocator: &mut FirstFitAllocator,
    memory_map: Vec<MemoryDescriptor>,
) -> (r: Vec<MemoryDescriptor>)
    requires
        old(allocator).wf(),
        seedable(old(allocator)@, memory_map@),
    ensures
        final(allocator).wf(),
        final(allocator)@ == seeded_seq(old(allocator)@, memory_map@),
        sum_sizes(final(allocator)@) == sum_sizes(old(allocator)@) + seeded_total(memory_map@),
        r@ == memory_map@,
{
    allocator.init_with_mmap(&memory_map);
    memory_map
}

} // verus!
