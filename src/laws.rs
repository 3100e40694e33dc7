use vstd::prelude::*;

use crate::allocator::{
    allocated_payload, allocated_seq, is_first_fit, ledger_ok, lemma_carve_ledger,
    lemma_sum_concat, lemma_sum_update, owns_payload, released, seeded_seq, seeded_total,
    sum_sizes,
};
use crate::header::{
    can_serve, carve_addr, carved, disjoint, end, lemma_carve_facts, lemma_norm_facts,
    node_ok, norm_align, norm_size, roundable, Header, HEADER_SIZE,
};
use crate::memory_map::{region_node, seeds, MemoryDescriptor};
use crate::pow2::{is_pow2, pow2_ceil};

verus! {

/// An allocation served by node `i` hands out an address aligned to the
/// requested alignment. The block of the normalized size that starts there
/// lies in the new allocated node, right after its header, and overlaps no
/// other node of the chain, header or payload; the chain stays well formed.
pub proof fn lemma_block_placement(nodes: Seq<Header>, i: int, size: usize, align: usize)
    requires
        ledger_ok(nodes),
        is_pow2(align as int),
        is_first_fit(nodes, i, size, align),
    ensures
        ({
            let p = allocated_payload(nodes, i, size, align);
            let after = allocated_seq(nodes, i, size, align);
            &&& p % (align as int) == 0
            &&& ledger_ok(after)
            &&& after[i + 1].addr + HEADER_SIZE == p
            &&& after[i + 1].is_allocated
            &&& p + norm_size(size) == end(after[i + 1])
            &&& forall|j: int|
                0 <= j < after.len() && j != i + 1 ==> p + norm_size(size) <= (#[trigger] after[j]).addr
                    || end(after[j]) <= p
        }),
{
    let ns = norm_size(size);
    let na = norm_align(align);
    lemma_norm_facts(size, align);
    lemma_carve_facts(nodes[i], ns, na);
    lemma_carve_ledger(nodes, i, ns, na);
    let p = allocated_payload(nodes, i, size, align);
    let after = allocated_seq(nodes, i, size, align);
    let c = carved(nodes[i], ns, na);
    assert(after[i + 1] == c[1]);
    assert((p as int) % (align as int) == 0) by {
        vstd::arithmetic::div_mod::lemma_mod_mod(p, align as int, na / (align as int));
        assert(na == (align as int) * (na / (align as int))) by (nonlinear_arith)
            requires
                na % (align as int) == 0,
                align > 0,
        ;
        assert((p % na) % (align as int) == p % (align as int)) by {
            vstd::arithmetic::div_mod::lemma_mod_mod(p, align as int, na / (align as int));
        }
    }
    assert forall|j: int|
        0 <= j < after.len() && j != i + 1 implies p + ns <= (#[trigger] after[j]).addr
        || end(after[j]) <= p by {
        assert(disjoint(after[j], after[i + 1]));
    }
}

/// A single free node large enough for the block, two headers and the
/// alignment serves the request.
pub proof fn lemma_single_region_serves(h: Header, size: usize, align: usize)
    requires
        node_ok(h),
        !h.is_allocated,
        roundable(size),
        h.size >= norm_size(size) + 2 * HEADER_SIZE + norm_align(align),
    ensures
        is_first_fit(seq![h], 0, size, align),
{
}

/// Where some node can serve a request, a first such node exists.
pub proof fn lemma_first_fit_exists(nodes: Seq<Header>, j: int, size: usize, align: usize)
    requires
        0 <= j < nodes.len(),
        can_serve(nodes[j], size, align),
    ensures
        exists|i: int| is_first_fit(nodes, i, size, align),
    decreases j,
{
    if exists|k: int| 0 <= k < j && can_serve(#[trigger] nodes[k], size, align) {
        let k = choose|k: int| 0 <= k < j && can_serve(#[trigger] nodes[k], size, align);
        lemma_first_fit_exists(nodes, k, size, align);
    } else {
        assert(is_first_fit(nodes, j, size, align));
    }
}

/// No bytes are made or lost: an allocation keeps the sum of node sizes, a
/// deallocation keeps it, and seeding adds exactly the sizes of the ranges
/// it keeps.
pub proof fn lemma_sizes_conserved(
    nodes: Seq<Header>,
    i: int,
    size: usize,
    align: usize,
    j: int,
    ds: Seq<MemoryDescriptor>,
)
    requires
        ledger_ok(nodes),
        is_pow2(align as int),
        is_first_fit(nodes, i, size, align),
        0 <= j < nodes.len(),
    ensures
        sum_sizes(allocated_seq(nodes, i, size, align)) == sum_sizes(nodes),
        sum_sizes(nodes.update(j, released(nodes[j]))) == sum_sizes(nodes),
        sum_sizes(seeded_seq(nodes, ds)) == sum_sizes(nodes) + seeded_total(ds),
{
    lemma_norm_facts(size, align);
    lemma_carve_ledger(nodes, i, norm_size(size), norm_align(align));
    lemma_sum_update(nodes, j, released(nodes[j]));
    lemma_seeded_sum(nodes, ds);
}

/// Freeing the block of an allocation and asking again for the same size
/// and alignment succeeds, served by the same node, where that node had
/// room for the request twice over.
#[verifier::rlimit(40)]
pub proof fn lemma_round_trip(nodes: Seq<Header>, i: int, size: usize, align: usize)
    requires
        ledger_ok(nodes),
        is_pow2(align as int),
        is_first_fit(nodes, i, size, align),
        nodes[i].size >= 2 * (norm_size(size) + norm_align(align)) + 2 * HEADER_SIZE,
    ensures
        ({
            let p = allocated_payload(nodes, i, size, align);
            let after = allocated_seq(nodes, i, size, align);
            let freed = after.update(i + 1, released(after[i + 1]));
            &&& owns_payload(after, i + 1, p as usize)
            &&& is_first_fit(freed, i, size, align)
        }),
{
    let ns = norm_size(size);
    let na = norm_align(align);
    lemma_norm_facts(size, align);
    lemma_carve_facts(nodes[i], ns, na);
    let h = nodes[i];
    let c = carved(h, ns, na);
    let after = allocated_seq(nodes, i, size, align);
    let freed = after.update(i + 1, released(after[i + 1]));
    assert(after[i] == c[0]);
    assert(after[i + 1] == c[1]);
    let x = end(h) - ns - na;
    assert(x % 32 == 0);
    let ca = carve_addr(h, ns, na);
    assert(ca % 32 == 0);
    assert(ca >= x + 32);
    assert(freed[i] == c[0]);
    assert(c[0].size == ca - HEADER_SIZE - h.addr);
    assert(freed[i].size >= ns + 2 * HEADER_SIZE + na);
    assert forall|k: int| 0 <= k < i implies !can_serve(#[trigger] freed[k], size, align) by {
        assert(freed[k] == nodes[k]);
    }
}

/// A request of no bytes is served with a block of one header's size, by a
/// free node of four headers, when it asks for no more than header alignment.
pub proof fn lemma_zero_size(nodes: Seq<Header>, j: int, align: usize)
    requires
        is_pow2(align as int),
        align <= HEADER_SIZE,
        0 <= j < nodes.len(),
        !nodes[j].is_allocated,
        nodes[j].size >= 4 * HEADER_SIZE,
    ensures
        norm_size(0) == HEADER_SIZE,
        exists|i: int| is_first_fit(nodes, i, 0, align),
{
    assert(pow2_ceil(0) == 1);
    assert(can_serve(nodes[j], 0, align));
    lemma_first_fit_exists(nodes, j, 0, align);
}

/// The payloads of two distinct allocated nodes of a well-formed chain do
/// not overlap.
pub proof fn lemma_payloads_disjoint(nodes: Seq<Header>, i: int, j: int)
    requires
        ledger_ok(nodes),
        0 <= i < nodes.len(),
        0 <= j < nodes.len(),
        i != j,
    ensures
        end(nodes[i]) <= nodes[j].addr + HEADER_SIZE || end(nodes[j]) <= nodes[i].addr
            + HEADER_SIZE,
{
    assert(disjoint(nodes[i], nodes[j]));
}

/// An allocation served by node `i` leaves every other node as it was, in
/// the same chain order: the nodes before it at their places, the nodes after
/// it moved back by the nodes the carve added.
pub proof fn lemma_carve_keeps_others(nodes: Seq<Header>, i: int, size: usize, align: usize)
    requires
        0 <= i < nodes.len(),
    ensures
        ({
            let after = allocated_seq(nodes, i, size, align);
            let added = carved(nodes[i], norm_size(size), norm_align(align)).len() - 1;
            &&& after.len() == nodes.len() + added
            &&& forall|k: int| 0 <= k < i ==> #[trigger] after[k] == nodes[k]
            &&& forall|k: int| i < k < nodes.len() ==> after[k + added] == #[trigger] nodes[k]
        }),
{
}

/// Seeding adds exactly the sizes of the ranges it keeps.
proof fn lemma_seeded_sum(nodes: Seq<Header>, ds: Seq<MemoryDescriptor>)
    ensures
        sum_sizes(seeded_seq(nodes, ds)) == sum_sizes(nodes) + seeded_total(ds),
    decreases ds.len(),
{
    if ds.len() > 0 {
        lemma_seeded_sum(nodes, ds.drop_last());
        if seeds(ds.last()) {
            let r = region_node(ds.last());
            let prev = seeded_seq(nodes, ds.drop_last());
            lemma_sum_concat(seq![r], prev);
            reveal_with_fuel(sum_sizes, 2);
            assert(seq![r].drop_last() =~= Seq::<Header>::empty());
        }
    }
}

} // verus!
