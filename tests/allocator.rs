use first_fit_alloc::allocator::FirstFitAllocator;
use first_fit_alloc::header::{Carve, Header, HEADER_SIZE};
use first_fit_alloc::init::init_basic_runtime;
use first_fit_alloc::memory_map::{MemoryDescriptor, CONVENTIONAL_MEMORY, PAGE_SIZE};
use first_fit_alloc::pow2::{round_up_to_nearest_pow2, AllocError};

fn conventional(start: usize, pages: usize) -> MemoryDescriptor {
    MemoryDescriptor { memory_type: CONVENTIONAL_MEMORY, physical_start: start, number_of_pages: pages }
}

fn seeded(regions: &[(usize, usize)]) -> FirstFitAllocator {
    let mut a = FirstFitAllocator::new();
    let map: Vec<MemoryDescriptor> = regions.iter().map(|&(s, p)| conventional(s, p)).collect();
    a.init_with_mmap(&map);
    a
}

fn nodes(a: &FirstFitAllocator) -> Vec<Header> {
    (0..a.node_count()).map(|i| a.node(i)).collect()
}

fn total(a: &FirstFitAllocator) -> usize {
    nodes(a).iter().map(|h| h.size).sum()
}

fn overlaps(a0: usize, a1: usize, b0: usize, b1: usize) -> bool {
    a0 < b1 && b0 < a1
}

#[test]
fn round_up_small_values() {
    assert_eq!(round_up_to_nearest_pow2(0), Ok(1));
    assert_eq!(round_up_to_nearest_pow2(1), Ok(1));
    assert_eq!(round_up_to_nearest_pow2(2), Ok(2));
    assert_eq!(round_up_to_nearest_pow2(3), Ok(4));
    assert_eq!(round_up_to_nearest_pow2(100), Ok(128));
    assert_eq!(round_up_to_nearest_pow2(4096), Ok(4096));
    assert_eq!(round_up_to_nearest_pow2(4097), Ok(8192));
}

#[test]
fn round_up_largest_values() {
    let top = 1usize << (usize::BITS - 1);
    assert_eq!(round_up_to_nearest_pow2(top), Ok(top));
    assert_eq!(round_up_to_nearest_pow2(top - 1), Ok(top));
    assert_eq!(round_up_to_nearest_pow2(top + 1), Err(AllocError::OutOfRange));
    assert_eq!(round_up_to_nearest_pow2(usize::MAX), Err(AllocError::OutOfRange));
}

#[test]
fn header_queries() {
    let h = Header { addr: 0x1000, size: 0x1000, is_allocated: false };
    assert_eq!(h.end_addr(), 0x2000);
    assert!(!h.is_allocated());
    assert!(h.can_provide(0x1000 - 64 - 32, 32));
    assert!(!h.can_provide(0x1000 - 64 - 31, 32));
    assert!(!h.can_provide(usize::MAX, usize::MAX));
}

#[test]
fn provide_leaves_padding_node() {
    let mut h = Header { addr: 4096, size: 4096, is_allocated: false };
    let c = h.provide(100, 256);
    let expected = Carve {
        payload: 7936,
        allocated: Header { addr: 7904, size: 160, is_allocated: true },
        padding: Some(Header { addr: 8064, size: 128, is_allocated: false }),
    };
    assert_eq!(c, Some(expected));
    assert_eq!(h, Header { addr: 4096, size: 3808, is_allocated: false });
}

#[test]
fn provide_refuses_allocated_or_small_node() {
    let mut used = Header { addr: 4096, size: 4096, is_allocated: true };
    assert_eq!(used.provide(32, 32), None);
    assert_eq!(used, Header { addr: 4096, size: 4096, is_allocated: true });
    let mut small = Header { addr: 4096, size: 128, is_allocated: false };
    assert_eq!(small.provide(33, 32), None);
    assert_eq!(small.size, 128);
    assert!(small.provide(32, 32).is_some());
}

#[test]
fn seeding_skips_page_zero_small_and_other_ranges() {
    let mut a = FirstFitAllocator::new();
    let map = vec![
        conventional(0, 3),
        conventional(0x10000, 1),
        MemoryDescriptor { memory_type: 3, physical_start: 0x20000, number_of_pages: 16 },
        conventional(0x40000, 4),
    ];
    let back = init_basic_runtime(&mut a, map.clone());
    assert_eq!(back, map);
    assert_eq!(
        nodes(&a),
        vec![
            Header { addr: 0x40000, size: 4 * PAGE_SIZE, is_allocated: false },
            Header { addr: 0x1000, size: 2 * PAGE_SIZE, is_allocated: false },
        ]
    );
    assert_eq!(a.next_of(0), Some(1));
    assert_eq!(a.next_of(1), None);
}

#[test]
fn seeding_discards_page_zero_of_two_pages() {
    let a = seeded(&[(0, 2)]);
    assert_eq!(a.node_count(), 0);
}

#[test]
fn scenario_allocate_from_one_region() {
    let mut a = seeded(&[(0x100000, 2)]);
    assert_eq!(total(&a), 0x2000);
    let p = a.alloc_with_options(100, 16).unwrap();
    assert_eq!(p % 32, 0);
    assert_eq!(p, 0x101F80);
    let n = nodes(&a);
    assert_eq!(n.len(), 2);
    assert_eq!(n[0], Header { addr: 0x100000, size: 8192 - 160, is_allocated: false });
    assert_eq!(n[1], Header { addr: p - HEADER_SIZE, size: 160, is_allocated: true });
    assert_eq!(total(&a), 8192);
}

#[test]
fn scenario_deallocate_flips_only_the_flag() {
    let mut a = seeded(&[(0x100000, 2)]);
    let p = a.alloc_with_options(100, 16).unwrap();
    let before = nodes(&a);
    a.dealloc(p);
    let after = nodes(&a);
    assert_eq!(after.len(), before.len());
    for i in 0..after.len() {
        assert_eq!(after[i].addr, before[i].addr);
        assert_eq!(after[i].size, before[i].size);
        if i == 1 {
            assert!(!after[i].is_allocated);
        } else {
            assert_eq!(after[i].is_allocated, before[i].is_allocated);
        }
        assert_eq!(a.next_of(i), if i + 1 < after.len() { Some(i + 1) } else { None });
    }
}

#[test]
fn alloc_is_aligned_and_clear_of_other_nodes() {
    for &(s, al) in &[(1usize, 1usize), (7, 8), (64, 64), (100, 512), (3000, 4096), (0, 2)] {
        let mut a = seeded(&[(0x200000, 16)]);
        let p = a.alloc_with_options(s, al).unwrap();
        assert_eq!(p % al, 0);
        let block = round_up_to_nearest_pow2(s).unwrap().max(HEADER_SIZE);
        for h in nodes(&a) {
            if h.addr + HEADER_SIZE == p {
                assert!(h.is_allocated);
                assert_eq!(h.end_addr(), p + block);
            } else {
                assert!(!overlaps(p, p + block, h.addr, h.end_addr()));
            }
        }
        assert_eq!(total(&a), 16 * PAGE_SIZE);
    }
}

#[test]
fn alloc_leaves_padding_for_large_alignment() {
    let mut a = seeded(&[(0x100000, 2)]);
    let p = a.alloc_with_options(32, 4096).unwrap();
    assert_eq!(p, 0x101000);
    assert_eq!(
        nodes(&a),
        vec![
            Header { addr: 0x100000, size: 0x1000 - 32, is_allocated: false },
            Header { addr: 0x101000 - 32, size: 64, is_allocated: true },
            Header { addr: 0x101020, size: 0x1000 - 32, is_allocated: false },
        ]
    );
    assert_eq!(total(&a), 8192);
}

#[test]
fn accounting_over_alloc_and_free() {
    let mut a = seeded(&[(0x100000, 4), (0x300000, 2)]);
    let seeded_bytes = 6 * PAGE_SIZE;
    let mut live = Vec::new();
    for (i, s) in [10usize, 200, 33, 1000, 0, 64, 500].iter().enumerate() {
        if let Ok(p) = a.alloc_with_options(*s, 1 << (i % 7)) {
            live.push(p);
        }
        assert_eq!(total(&a), seeded_bytes);
        if i % 3 == 2 {
            a.dealloc(live.remove(0));
            assert_eq!(total(&a), seeded_bytes);
        }
    }
    for p in live {
        a.dealloc(p);
        assert_eq!(total(&a), seeded_bytes);
    }
}

#[test]
fn round_trip_reuses_the_same_node() {
    let mut a = seeded(&[(0x100000, 4)]);
    let p = a.alloc_with_options(100, 16).unwrap();
    a.dealloc(p);
    let q = a.alloc_with_options(100, 16).unwrap();
    assert_eq!(q % 32, 0);
    assert_ne!(q, p);
    assert_eq!(total(&a), 4 * PAGE_SIZE);
}

#[test]
fn round_trip_fails_when_the_node_had_room_once() {
    let mut a = seeded(&[(0x100000, 2)]);
    let p = a.alloc_with_options(4096, 32).unwrap();
    a.dealloc(p);
    assert_eq!(a.alloc_with_options(4096, 32), Err(AllocError::OutOfMemory));
}

#[test]
fn zero_size_uses_one_header() {
    let mut h = Header { addr: 0x1000, size: 4 * HEADER_SIZE, is_allocated: false };
    let c = h.provide(0, 1).unwrap();
    assert_eq!(c.allocated.size, 2 * HEADER_SIZE);
    assert_eq!(c.payload % HEADER_SIZE, 0);
    let mut empty = FirstFitAllocator::new();
    assert_eq!(empty.alloc_with_options(0, 1), Err(AllocError::OutOfMemory));
    let mut a = seeded(&[(0x100000, 2)]);
    let p = a.alloc_with_options(0, 1).unwrap();
    assert_eq!(p % HEADER_SIZE, 0);
    assert_eq!(a.node(1), Header { addr: p - HEADER_SIZE, size: 2 * HEADER_SIZE, is_allocated: true });
}

#[test]
fn exhaustion_never_overlaps() {
    let mut a = seeded(&[(0x100000, 2)]);
    let mut blocks: Vec<usize> = Vec::new();
    let err = loop {
        match a.alloc_with_options(64, 8) {
            Ok(p) => blocks.push(p),
            Err(e) => break e,
        }
        assert!(blocks.len() < 1000);
    };
    assert_eq!(err, AllocError::OutOfMemory);
    assert!(!blocks.is_empty());
    for i in 0..blocks.len() {
        for j in 0..i {
            assert!(!overlaps(blocks[i], blocks[i] + 64, blocks[j], blocks[j] + 64));
        }
    }
    assert_eq!(a.alloc_with_options(64, 8), Err(AllocError::OutOfMemory));
    assert_eq!(total(&a), 8192);
}

#[test]
fn first_fit_walks_the_chain_in_order() {
    let mut a = seeded(&[(0x300000, 8), (0x100000, 2)]);
    assert_eq!(a.node(0).addr, 0x100000);
    let p = a.alloc_with_options(8192, 32).unwrap();
    assert!(p >= 0x300000 && p < 0x308000);
    assert_eq!(a.node(0), Header { addr: 0x100000, size: 8192, is_allocated: false });
    let q = a.alloc_with_options(16, 16).unwrap();
    assert!(q >= 0x100000 && q < 0x102000);
    assert_eq!(a.node(1).addr, q - HEADER_SIZE);
}

#[test]
fn oversized_request_is_out_of_range() {
    let mut a = seeded(&[(0x100000, 2)]);
    assert_eq!(a.alloc_with_options(usize::MAX, 8), Err(AllocError::OutOfRange));
    assert_eq!(a.node_count(), 1);
    assert_eq!(a.alloc_with_options(8192, 8), Err(AllocError::OutOfMemory));
}

#[test]
fn dealloc_of_unknown_pointer_changes_nothing() {
    let mut a = seeded(&[(0x100000, 2)]);
    let p = a.alloc_with_options(100, 16).unwrap();
    let before = nodes(&a);
    a.dealloc(p + 32);
    a.dealloc(0);
    assert_eq!(nodes(&a), before);
}
