use vstd::prelude::*;

use crate::header::{
    can_serve, carve_addr, carved, disjoint, end, fits, lemma_carve_facts,
    lemma_norm_facts, norm_align, norm_size, node_ok, roundable, Header, HEADER_SIZE,
};
use crate::memory_map::{
    descriptor_ok, region_node, region_size, seeds, MemoryDescriptor,
    CONVENTIONAL_MEMORY, PAGE_SIZE,
};
use crate::pow2::{is_pow2, round_up_to_nearest_pow2, AllocError};

verus! {

/// The nodes of a ledger are each well formed and own pairwise disjoint ranges.
pub open spec fn ledger_ok(nodes: Seq<Header>) -> bool {
    &&& forall|i: int| 0 <= i < nodes.len() ==> node_ok(#[trigger] nodes[i])
    &&& forall|i: int, j: int|
        0 <= i < nodes.len() && 0 <= j < nodes.len() && i != j ==> disjoint(
            #[trigger] nodes[i],
            #[trigger] nodes[j],
        )
}

/// The sum of the sizes of the nodes.
pub open spec fn sum_sizes(nodes: Seq<Header>) -> int
    decreases nodes.len(),
{
    if nodes.len() == 0 {
        0
    } else {
        sum_sizes(nodes.drop_last()) + nodes.last().size
    }
}

/// The chain after node `i` has been carved: the node is replaced in place
/// by its shrunk self, the allocated node and any padding node.
pub open spec fn carve_seq(nodes: Seq<Header>, i: int, ns: int, na: int) -> Seq<Header> {
    nodes.take(i) + carved(nodes[i], ns, na) + nodes.skip(i + 1)
}

/// Node `i` is the first in chain order that can serve the request.
pub open spec fn is_first_fit(nodes: Seq<Header>, i: int, size: usize, align: usize) -> bool {
    &&& 0 <= i < nodes.len()
    &&& can_serve(nodes[i], size, align)
    &&& forall|k: int| 0 <= k < i ==> !can_serve(#[trigger] nodes[k], size, align)
}

/// The chain after an allocation of `size` bytes aligned to `align` was
/// served by node `i`.
pub open spec fn allocated_seq(nodes: Seq<Header>, i: int, size: usize, align: usize) -> Seq<
    Header,
> {
    carve_seq(nodes, i, norm_size(size), norm_align(align))
}

/// The address an allocation served by node `i` hands out.
pub open spec fn allocated_payload(nodes: Seq<Header>, i: int, size: usize, align: usize) -> int {
    carve_addr(nodes[i], norm_size(size), norm_align(align))
}

/// Node `j` is the one whose payload starts at `ptr`.
pub open spec fn owns_payload(nodes: Seq<Header>, j: int, ptr: usize) -> bool {
    0 <= j < nodes.len() && nodes[j].addr + HEADER_SIZE == ptr
}

/// Node `h` with its flag cleared.
pub open spec fn released(h: Header) -> Header {
    Header { is_allocated: false, ..h }
}

/// The sum of sizes is additive over concatenation.
pub proof fn lemma_sum_concat(a: Seq<Header>, b: Seq<Header>)
    ensures
        sum_sizes(a + b) == sum_sizes(a) + sum_sizes(b),
    decreases b.len(),
{
    if b.len() == 0 {
        assert(a + b =~= a);
    } else {
        lemma_sum_concat(a, b.drop_last());
        assert((a + b).drop_last() =~= a + b.drop_last());
    }
}

/// Replacing node `i` changes the sum by the difference of the sizes.
pub proof fn lemma_sum_update(nodes: Seq<Header>, i: int, h: Header)
    requires
        0 <= i < nodes.len(),
    ensures
        sum_sizes(nodes.update(i, h)) == sum_sizes(nodes) - nodes[i].size + h.size,
{
    let a = nodes.take(i);
    let b = nodes.skip(i + 1);
    assert(nodes =~= a + seq![nodes[i]] + b);
    assert(nodes.update(i, h) =~= a + seq![h] + b);
    lemma_sum_concat(a + seq![nodes[i]], b);
    lemma_sum_concat(a, seq![nodes[i]]);
    lemma_sum_concat(a + seq![h], b);
    lemma_sum_concat(a, seq![h]);
    assert(seq![h].drop_last() =~= Seq::<Header>::empty());
    assert(seq![nodes[i]].drop_last() =~= Seq::<Header>::empty());
}

/// A range inside `h` is disjoint from whatever `h` is disjoint from.
proof fn lemma_inside_disjoint(a: Header, h: Header, b: Header)
    requires
        h.addr <= a.addr,
        end(a) <= end(h),
        disjoint(h, b),
    ensures
        disjoint(a, b),
        disjoint(b, a),
{
}

/// A carve keeps the ledger well formed and keeps the sum of sizes.
pub proof fn lemma_carve_ledger(nodes: Seq<Header>, i: int, ns: int, na: int)
    requires
        ledger_ok(nodes),
        0 <= i < nodes.len(),
        fits(nodes[i], ns, na),
        is_pow2(ns),
        is_pow2(na),
        ns >= HEADER_SIZE,
        na >= HEADER_SIZE,
    ensures
        ledger_ok(carve_seq(nodes, i, ns, na)),
        sum_sizes(carve_seq(nodes, i, ns, na)) == sum_sizes(nodes),
{
    lemma_carve_disjoint(nodes, i, ns, na);
    lemma_carve_sum(nodes, i, ns, na);
}

/// A carve keeps the ledger well formed.
proof fn lemma_carve_disjoint(nodes: Seq<Header>, i: int, ns: int, na: int)
    requires
        ledger_ok(nodes),
        0 <= i < nodes.len(),
        fits(nodes[i], ns, na),
        is_pow2(ns),
        is_pow2(na),
        ns >= HEADER_SIZE,
        na >= HEADER_SIZE,
    ensures
        ledger_ok(carve_seq(nodes, i, ns, na)),
{
    let h = nodes[i];
    lemma_carve_facts(h, ns, na);
    let c = carved(h, ns, na);
    let cl = c.len() as int;
    let a = nodes.take(i);
    let b = nodes.skip(i + 1);
    let s = carve_seq(nodes, i, ns, na);
    assert(s.len() == nodes.len() - 1 + cl);
    assert forall|k: int| 0 <= k < c.len() implies node_ok(#[trigger] c[k]) && h.addr <= c[k].addr
        && end(c[k]) <= end(h) by {}
    assert forall|k: int, l: int| 0 <= k < c.len() && 0 <= l < c.len() && k != l implies disjoint(
        #[trigger] c[k],
        #[trigger] c[l],
    ) by {}
    assert forall|k: int| 0 <= k < s.len() implies node_ok(#[trigger] s[k]) by {
        if k < i {
            assert(s[k] == nodes[k]);
        } else if k < i + cl {
            assert(s[k] == c[k - i]);
        } else {
            assert(s[k] == nodes[k - cl + 1]);
        }
    }
    assert forall|k: int, l: int|
        0 <= k < s.len() && 0 <= l < s.len() && k != l implies disjoint(
        #[trigger] s[k],
        #[trigger] s[l],
    ) by {
        let ok = if k < i {
            k
        } else {
            k - cl + 1
        };
        let ol = if l < i {
            l
        } else {
            l - cl + 1
        };
        let k_in = i <= k < i + cl;
        let l_in = i <= l < i + cl;
        if !k_in {
            assert(s[k] == nodes[ok]);
        } else {
            assert(s[k] == c[k - i]);
        }
        if !l_in {
            assert(s[l] == nodes[ol]);
        } else {
            assert(s[l] == c[l - i]);
        }
        if k_in && !l_in {
            assert(disjoint(h, nodes[ol]));
            lemma_inside_disjoint(c[k - i], h, nodes[ol]);
        } else if !k_in && l_in {
            assert(disjoint(h, nodes[ok]));
            lemma_inside_disjoint(c[l - i], h, nodes[ok]);
        }
    }
    lemma_carve_sum(nodes, i, ns, na);
}

/// The carved nodes together are as large as the node they replace.
proof fn lemma_carved_sum(h: Header, ns: int, na: int)
    requires
        node_ok(h),
        fits(h, ns, na),
        is_pow2(ns),
        is_pow2(na),
        ns >= HEADER_SIZE,
        na >= HEADER_SIZE,
    ensures
        sum_sizes(carved(h, ns, na)) == h.size,
{
    lemma_carve_facts(h, ns, na);
    let c = carved(h, ns, na);
    reveal_with_fuel(sum_sizes, 4);
    if c.len() == 3 {
        assert(c.drop_last().drop_last().drop_last() =~= Seq::<Header>::empty());
    } else {
        assert(c.drop_last().drop_last() =~= Seq::<Header>::empty());
    }
}

/// A carve keeps the sum of sizes.
proof fn lemma_carve_sum(nodes: Seq<Header>, i: int, ns: int, na: int)
    requires
        ledger_ok(nodes),
        0 <= i < nodes.len(),
        fits(nodes[i], ns, na),
        is_pow2(ns),
        is_pow2(na),
        ns >= HEADER_SIZE,
        na >= HEADER_SIZE,
    ensures
        sum_sizes(carve_seq(nodes, i, ns, na)) == sum_sizes(nodes),
{
    let h = nodes[i];
    let c = carved(h, ns, na);
    let a = nodes.take(i);
    let b = nodes.skip(i + 1);
    lemma_carved_sum(h, ns, na);
    lemma_sum_concat(a + c, b);
    lemma_sum_concat(a, c);
    assert(carve_seq(nodes, i, ns, na) == a + c + b);
    assert(sum_sizes(carve_seq(nodes, i, ns, na)) == sum_sizes(a) + h.size + sum_sizes(b));
    assert(nodes =~= a + seq![h] + b);
    lemma_sum_concat(a + seq![h], b);
    lemma_sum_concat(a, seq![h]);
    assert(seq![h].drop_last() =~= Seq::<Header>::empty());
    reveal_with_fuel(sum_sizes, 2);
}

/// The chain after seeding with the descriptors `ds` in order: each range
/// that is kept is pushed to the front.
pub open spec fn seeded_seq(nodes: Seq<Header>, ds: Seq<MemoryDescriptor>) -> Seq<Header>
    decreases ds.len(),
{
    if ds.len() == 0 {
        nodes
    } else {
        let prev = seeded_seq(nodes, ds.drop_last());
        if seeds(ds.last()) {
            seq![region_node(ds.last())] + prev
        } else {
            prev
        }
    }
}

/// The bytes that seeding with the descriptors `ds` adds to the ledger.
pub open spec fn seeded_total(ds: Seq<MemoryDescriptor>) -> int
    decreases ds.len(),
{
    if ds.len() == 0 {
        0
    } else {
        seeded_total(ds.drop_last()) + if seeds(ds.last()) {
            region_node(ds.last()).size as int
        } else {
            0
        }
    }
}

/// The descriptors can seed a ledger holding `nodes`: the ranges they keep
/// are well formed, disjoint from `nodes` and from each other.
pub open spec fn seedable(nodes: Seq<Header>, ds: Seq<MemoryDescriptor>) -> bool {
    &&& forall|k: int|
        0 <= k < ds.len() && (#[trigger] ds[k]).memory_type == CONVENTIONAL_MEMORY
            ==> descriptor_ok(ds[k])
    &&& forall|k: int, j: int|
        0 <= k < ds.len() && 0 <= j < nodes.len() && seeds(#[trigger] ds[k]) ==> disjoint(
            region_node(ds[k]),
            #[trigger] nodes[j],
        )
    &&& forall|k: int, l: int|
        0 <= k < ds.len() && 0 <= l < ds.len() && k != l && seeds(#[trigger] ds[k]) && seeds(
            #[trigger] ds[l],
        ) ==> disjoint(region_node(ds[k]), region_node(ds[l]))
}

/// The node of a kept range can stand in the ledger.
pub proof fn lemma_region_node_ok(d: MemoryDescriptor)
    requires
        descriptor_ok(d),
        region_size(d) > PAGE_SIZE,
    ensures
        node_ok(region_node(d)),
{
    let n = d.number_of_pages as int;
    vstd::arithmetic::div_mod::lemma_mod_multiples_basic(n * 128, 32);
    assert(n * 4096 == (n * 128) * 32);
    assert((n * 4096) % 32 == 0);
    let p = d.physical_start as int;
    assert(p % 32 == 0);
    if p == 0 {
        assert((n * 4096 - 4096) % 32 == 0);
    }
}

/// Pushing a well-formed node that is disjoint from every node keeps the
/// ledger well formed.
pub proof fn lemma_push_front_ok(nodes: Seq<Header>, h: Header)
    requires
        ledger_ok(nodes),
        node_ok(h),
        forall|j: int| 0 <= j < nodes.len() ==> disjoint(h, #[trigger] nodes[j]),
    ensures
        ledger_ok(seq![h] + nodes),
{
    let s = seq![h] + nodes;
    assert forall|i: int, j: int|
        0 <= i < s.len() && 0 <= j < s.len() && i != j implies disjoint(
        #[trigger] s[i],
        #[trigger] s[j],
    ) by {
        if i > 0 && j > 0 {
            assert(s[i] == nodes[i - 1]);
            assert(s[j] == nodes[j - 1]);
        } else if i == 0 {
            assert(s[j] == nodes[j - 1]);
        } else {
            assert(s[i] == nodes[i - 1]);
        }
    }
    assert forall|i: int| 0 <= i < s.len() implies node_ok(#[trigger] s[i]) by {
        if i > 0 {
            assert(s[i] == nodes[i - 1]);
        }
    }
}

/// The heap: a ledger of nodes kept in chain order, so that the successor of
/// the node at position `i` is the node at position `i + 1`.
pub struct FirstFitAllocator {
    nodes: Vec<Header>,
}

impl View for FirstFitAllocator {
    type V = Seq<Header>;

    closed spec fn view(&self) -> Seq<Header> {
        self.nodes@
    }
}

impl FirstFitAllocator {
    /// The allocator is well formed: its ledger is.
    pub open spec fn wf(&self) -> bool {
        ledger_ok(self@)
    }

    /// An allocator with an empty ledger.
    pub fn new() -> (r: Self)
        ensures
            r@ == Seq::<Header>::empty(),
            r.wf(),
    {
        FirstFitAllocator { nodes: Vec::new() }
    }

    /// The number of nodes in the ledger.
    pub fn node_count(&self) -> (r: usize)
        ensures
            r == self@.len(),
    {
        self.nodes.len()
    }

    /// The node at position `i` in chain order.
    pub fn node(&self, i: usize) -> (r: Header)
        requires
            i < self@.len(),
        ensures
            r == self@[i as int],
    {
        self.nodes[i]
    }

    /// The position of the successor of the node at position `i`, if any.
    pub fn next_of(&self, i: usize) -> (r: Option<usize>)
        requires
            i < self@.len(),
        ensures
            r == (if i + 1 < self@.len() {
                Some((i + 1) as usize)
            } else {
                None
            }),
    {
        if i < self.nodes.len() - 1 {
            Some(i + 1)
        } else {
            None
        }
    }

    /// Frees the block whose payload starts at `ptr` by clearing its node's
    /// flag. No node is merged, resized or moved. A pointer that no node
    /// owns leaves the ledger as it was.
    pub fn dealloc(&mut self, ptr: usize)
        requires
            old(self).wf(),
        ensures
            final(self).wf(),
            sum_sizes(final(self)@) == sum_sizes(old(self)@),
            forall|j: int|
                owns_payload(old(self)@, j, ptr) ==> final(self)@ == old(self)@.update(
                    j,
                    released(old(self)@[j]),
                ),
            (forall|j: int| !owns_payload(old(self)@, j, ptr)) ==> final(self)@ == old(self)@,
    {
        let ghost nodes = self@;
        let mut i: usize = 0;
        while i < self.nodes.len()
            invariant
                self@ == nodes,
                old(self)@ == nodes,
                ledger_ok(nodes),
                i <= nodes.len(),
                forall|k: int| 0 <= k < i ==> !owns_payload(nodes, k, ptr),
            decreases nodes.len() - i,
        {
            let h = self.nodes[i];
            assert(node_ok(nodes[i as int]));
            if h.addr + HEADER_SIZE == ptr {
                let freed = Header { is_allocated: false, ..h };
                self.nodes.set(i, freed);
                proof {
                    lemma_sum_update(nodes, i as int, freed);
                    assert(owns_payload(old(self)@, i as int, ptr));
                    assert forall|j: int| owns_payload(nodes, j, ptr) implies j == i by {
                        if j != i {
                            assert(disjoint(nodes[j], nodes[i as int]));
                        }
                    }
                }
                return;
            }
            i = i + 1;
        }
    }

    /// Pushes a free node for the range of `desc` to the front of the chain,
    /// unless what is left of it after the page at address zero is held back
    /// is no more than a page.
    fn add_free_from_descriptor(&mut self, desc: &MemoryDescriptor)
        requires
            old(self).wf(),
            descriptor_ok(*desc),
            region_size(*desc) > PAGE_SIZE ==> forall|j: int|
                0 <= j < old(self)@.len() ==> disjoint(region_node(*desc), #[trigger] old(self)@[j]),
        ensures
            final(self).wf(),
            region_size(*desc) > PAGE_SIZE ==> final(self)@ == seq![region_node(*desc)] + old(self)@,
            region_size(*desc) <= PAGE_SIZE ==> final(self)@ == old(self)@,
    {
        let mut start_addr = desc.physical_start;
        let mut size = desc.number_of_pages * PAGE_SIZE;
        if start_addr == 0 {
            start_addr = start_addr + PAGE_SIZE;
            size = size.saturating_sub(PAGE_SIZE);
        }
        if size <= PAGE_SIZE {
            return;
        }
        let header = Header { addr: start_addr, size, is_allocated: false };
        proof {
            assert(header == region_node(*desc));
            lemma_region_node_ok(*desc);
            lemma_push_front_ok(self@, header);
        }
        self.nodes.insert(0, header);
        proof {
            assert(self@ =~= seq![region_node(*desc)] + old(self)@);
        }
    }

    /// Seeds the ledger from a memory map: every range of conventional memory
    /// is pushed to the front of the chain in map order, after the page at
    /// address zero is held back; ranges of other types, and ranges left with
    /// no more than a page, are skipped.
    pub fn init_with_mmap(&mut self, memory_map: &Vec<MemoryDescriptor>)
        requires
            old(self).wf(),
            seedable(old(self)@, memory_map@),
        ensures
            final(self).wf(),
            final(self)@ == seeded_seq(old(self)@, memory_map@),
            sum_sizes(final(self)@) == sum_sizes(old(self)@) + seeded_total(memory_map@),
    {
        let ghost ds = memory_map@;
        let ghost nodes = self@;
        let mut i: usize = 0;
        while i < memory_map.len()
            invariant
                ds == memory_map@,
                nodes == old(self)@,
                seedable(nodes, ds),
                i <= ds.len(),
                self.wf(),
                self@ == seeded_seq(nodes, ds.take(i as int)),
                sum_sizes(self@) == sum_sizes(nodes) + seeded_total(ds.take(i as int)),
                forall|m: int, j: int|
                    i <= m < ds.len() && 0 <= j < self@.len() && seeds(#[trigger] ds[m])
                        ==> disjoint(region_node(ds[m]), #[trigger] self@[j]),
            decreases ds.len() - i,
        {
            let ghost before = self@;
            let e = &memory_map[i];
            proof {
                assert(ds.take(i + 1).drop_last() =~= ds.take(i as int));
                assert(ds.take(i + 1).last() == ds[i as int]);
            }
            if e.memory_type() == CONVENTIONAL_MEMORY {
                self.add_free_from_descriptor(e);
                proof {
                    if seeds(ds[i as int]) {
                        let r = region_node(ds[i as int]);
                        lemma_sum_concat(seq![r], before);
                        reveal_with_fuel(sum_sizes, 2);
                        assert(seq![r].drop_last() =~= Seq::<Header>::empty());
                        assert forall|m: int, j: int|
                            i + 1 <= m < ds.len() && 0 <= j < self@.len() && seeds(
                                #[trigger] ds[m],
                            ) implies disjoint(region_node(ds[m]), #[trigger] self@[j]) by {
                            if j == 0 {
                                assert(disjoint(region_node(ds[m]), region_node(ds[i as int])));
                            } else {
                                assert(self@[j] == before[j - 1]);
                            }
                        }
                    }
                }
            }
            i = i + 1;
        }
        proof {
            assert(ds.take(ds.len() as int) =~= ds);
        }
    }

    /// Allocates `size` bytes aligned to `align` from the first node in chain
    /// order that can hold them, and returns the payload address.
    ///
    /// A size that cannot be rounded to a power of two gives `OutOfRange`;
    /// when no node can hold the request the result is `OutOfMemory`. In both
    /// cases the ledger is left as it was.
    pub fn alloc_with_options(&mut self, size: usize, align: usize) -> (r: Result<
        usize,
        AllocError,
    >)
        requires
            old(self).wf(),
            is_pow2(align as int),
        ensures
            final(self).wf(),
            sum_sizes(final(self)@) == sum_sizes(old(self)@),
            !roundable(size) ==> r == Err::<usize, AllocError>(AllocError::OutOfRange)
                && final(self)@ == old(self)@,
            roundable(size) && (forall|k: int|
                0 <= k < old(self)@.len() ==> !can_serve(#[trigger] old(self)@[k], size, align))
                ==> r == Err::<usize, AllocError>(AllocError::OutOfMemory) && final(self)@ == old(
                self,
            )@,
            forall|i: int|
                is_first_fit(old(self)@, i, size, align) ==> r == Ok::<usize, AllocError>(
                    allocated_payload(old(self)@, i, size, align) as usize,
                ) && final(self)@ == allocated_seq(old(self)@, i, size, align),
            r matches Ok(p) ==> p % align == 0,
    {
        proof {
            lemma_norm_facts(size, align);
        }
        if round_up_to_nearest_pow2(size).is_err() {
            return Err(AllocError::OutOfRange);
        }
        let ghost nodes = self@;
        let mut i: usize = 0;
        while i < self.nodes.len()
            invariant
                self@ == nodes,
                old(self)@ == nodes,
                ledger_ok(nodes),
                roundable(size),
                is_pow2(align as int),
                i <= nodes.len(),
                forall|k: int| 0 <= k < i ==> !can_serve(#[trigger] nodes[k], size, align),
            decreases nodes.len() - i,
        {
            let mut h = self.nodes[i];
            match h.provide(size, align) {
                Some(c) => {
                    let ghost ns = norm_size(size);
                    let ghost na = norm_align(align);
                    proof {
                        assert(can_serve(nodes[i as int], size, align));
                        assert(can_serve(old(self)@[i as int], size, align));
                        lemma_norm_facts(size, align);
                        lemma_carve_facts(nodes[i as int], ns, na);
                        lemma_carve_ledger(nodes, i as int, ns, na);
                    }
                    self.nodes.set(i, h);
                    match c.padding {
                        Some(pad) => {
                            self.nodes.insert(i + 1, pad);
                        },
                        None => {},
                    }
                    self.nodes.insert(i + 1, c.allocated);
                    proof {
                        assert(self@ =~= carve_seq(nodes, i as int, ns, na));
                        assert forall|j: int| is_first_fit(nodes, j, size, align) implies j
                            == i by {
                            if j < i {
                            } else if j > i {
                                assert(!can_serve(nodes[i as int], size, align));
                            }
                        }
                        assert((c.payload as int) % na == 0);
                        assert((c.payload as int) % (align as int) == 0) by (nonlinear_arith)
                            requires
                                (c.payload as int) % na == 0,
                                na % (align as int) == 0,
                                align > 0,
                                na > 0,
                        {
                            vstd::arithmetic::div_mod::lemma_mod_mod(c.payload as int, align as int, na / (align as int));
                        }
                    }
                    return Ok(c.payload);
                },
                None => {},
            }
            i = i + 1;
        }
        proof {
            assert forall|j: int| !is_first_fit(nodes, j, size, align) by {}
        }
        Err(AllocError::OutOfMemory)
    }
}

} // verus!
