use vstd::prelude::*;

use crate::pow2::{
    is_pow2, lemma_pow2_ceil_facts, lemma_pow2_divides, pow2_ceil, round_up_to_nearest_pow2,
};

verus! {

/// Bytes taken by a node's header; also the minimum size and alignment of a block.
pub const HEADER_SIZE: usize = 32;

/// One node of the ledger: the byte range `[addr, addr + size)` it owns,
/// header included, and whether its payload is in use.
#[derive(Debug, Clone, Copy, PartialEq, Eq, Structural)]
pub struct Header {
    pub addr: usize,
    pub size: usize,
    pub is_allocated: bool,
}

/// The pieces a successful carve leaves behind, besides the shrunk node.
#[derive(Debug, Clone, Copy, PartialEq, Eq, Structural)]
pub struct Carve {
    /// The address handed to the caller: just past the allocated node's header.
    pub payload: usize,
    /// The new allocated node, placed right after the shrunk node.
    pub allocated: Header,
    /// The free node that fills any gap between the block and the old end.
    pub padding: Option<Header>,
}

/// One past the last byte that `h` owns.
pub open spec fn end(h: Header) -> int {
    h.addr + h.size
}

/// A node that can stand in the ledger: room for its header, aligned to the
/// header size, and inside the address space.
pub open spec fn node_ok(h: Header) -> bool {
    &&& h.size >= HEADER_SIZE
    &&& (h.addr as int) % (HEADER_SIZE as int) == 0
    &&& (h.size as int) % (HEADER_SIZE as int) == 0
    &&& end(h) <= usize::MAX
}

/// The byte ranges of `a` and `b` do not overlap.
pub open spec fn disjoint(a: Header, b: Header) -> bool {
    end(a) <= b.addr || end(b) <= a.addr
}

/// A request size can be rounded to a power of two.
pub open spec fn roundable(size: usize) -> bool {
    pow2_ceil(size as nat) <= usize::MAX
}

/// The block size a request is served with: its power of two, and at least a header.
pub open spec fn norm_size(size: usize) -> int {
    if pow2_ceil(size as nat) < HEADER_SIZE {
        HEADER_SIZE as int
    } else {
        pow2_ceil(size as nat) as int
    }
}

/// The alignment a request is served with: at least the header size.
pub open spec fn norm_align(align: usize) -> int {
    if align < HEADER_SIZE {
        HEADER_SIZE as int
    } else {
        align as int
    }
}

/// A free node holds a block of `ns` bytes aligned to `na`: the block, two
/// headers and the alignment slack.
pub open spec fn fits(h: Header, ns: int, na: int) -> bool {
    !h.is_allocated && h.size >= ns + 2 * HEADER_SIZE + na
}

/// The node `h` can serve a request of `size` bytes aligned to `align`.
pub open spec fn can_serve(h: Header, size: usize, align: usize) -> bool {
    roundable(size) && fits(h, norm_size(size), norm_align(align))
}

/// Where the block is placed: as high in `h` as it fits, rounded down to `na`.
pub open spec fn carve_addr(h: Header, ns: int, na: int) -> int {
    let x = end(h) - ns;
    x - x % na
}

/// The node in front of the block: its header and the block, allocated.
pub open spec fn allocated_node(h: Header, ns: int, na: int) -> Header {
    Header {
        addr: (carve_addr(h, ns, na) - HEADER_SIZE) as usize,
        size: (ns + HEADER_SIZE) as usize,
        is_allocated: true,
    }
}

/// The bytes left between the end of the block and the end of `h`.
pub open spec fn padding_size(h: Header, ns: int, na: int) -> int {
    end(h) - (carve_addr(h, ns, na) + ns)
}

/// The free node covering the bytes after the block.
pub open spec fn padding_node(h: Header, ns: int, na: int) -> Header {
    Header {
        addr: (carve_addr(h, ns, na) + ns) as usize,
        size: padding_size(h, ns, na) as usize,
        is_allocated: false,
    }
}

/// What stays of `h` in front of the allocated node: free, at the same address.
pub open spec fn shrunk_node(h: Header, ns: int, na: int) -> Header {
    Header {
        addr: h.addr,
        size: (carve_addr(h, ns, na) - HEADER_SIZE - h.addr) as usize,
        is_allocated: false,
    }
}

/// The nodes that replace `h` after a carve, in chain order.
pub open spec fn carved(h: Header, ns: int, na: int) -> Seq<Header> {
    if padding_size(h, ns, na) > 0 {
        seq![shrunk_node(h, ns, na), allocated_node(h, ns, na), padding_node(h, ns, na)]
    } else {
        seq![shrunk_node(h, ns, na), allocated_node(h, ns, na)]
    }
}

/// What `provide` hands back for a carve of `h`.
pub open spec fn carve_of(h: Header, ns: int, na: int) -> Carve {
    Carve {
        payload: carve_addr(h, ns, na) as usize,
        allocated: allocated_node(h, ns, na),
        padding: if padding_size(h, ns, na) > 0 {
            Some(padding_node(h, ns, na))
        } else {
            None
        },
    }
}

/// The header size is a power of two.
pub proof fn lemma_header_size_pow2()
    ensures
        is_pow2(HEADER_SIZE as int),
{
    assert(is_pow2(1));
    assert(is_pow2(2));
    assert(is_pow2(4));
    assert(is_pow2(8));
    assert(is_pow2(16));
    assert(is_pow2(32));
}

/// The normalized size and alignment are powers of two, multiples of the header size.
pub proof fn lemma_norm_facts(size: usize, align: usize)
    requires
        is_pow2(align as int),
    ensures
        is_pow2(norm_size(size)),
        is_pow2(norm_align(align)),
        norm_size(size) >= HEADER_SIZE,
        norm_size(size) >= size,
        norm_align(align) >= HEADER_SIZE,
        norm_align(align) >= align,
        norm_size(size) % (HEADER_SIZE as int) == 0,
        norm_align(align) % (HEADER_SIZE as int) == 0,
        norm_align(align) % (align as int) == 0,
{
    lemma_header_size_pow2();
    lemma_pow2_ceil_facts(size as nat);
    lemma_pow2_divides(HEADER_SIZE as int, norm_size(size));
    lemma_pow2_divides(HEADER_SIZE as int, norm_align(align));
    if align <= HEADER_SIZE {
        lemma_pow2_divides(align as int, HEADER_SIZE as int);
    } else {
        assert((align as int) % (align as int) == 0) by (nonlinear_arith)
            requires
                align > 0,
        ;
    }
}

/// A multiple of a multiple of `m` is a multiple of `m`.
proof fn lemma_mod_trans(x: int, a: int, m: int)
    requires
        m > 0,
        a > 0,
        x % a == 0,
        a % m == 0,
    ensures
        x % m == 0,
{
    let j = a / m;
    let k = x / a;
    assert(a == m * j) by (nonlinear_arith)
        requires
            a % m == 0,
            m > 0,
            j == a / m,
    ;
    assert(x == a * k) by (nonlinear_arith)
        requires
            x % a == 0,
            a > 0,
            k == x / a,
    ;
    assert(x == m * (j * k)) by (nonlinear_arith)
        requires
            x == a * k,
            a == m * j,
    ;
    assert((m * (j * k)) % m == 0) by (nonlinear_arith)
        requires
            m > 0,
    ;
}

/// The facts of one carve: the block is aligned and lies inside `h`, and the
/// carved nodes tile `h`'s range, each fit to stand in the ledger.
pub proof fn lemma_carve_facts(h: Header, ns: int, na: int)
    requires
        node_ok(h),
        fits(h, ns, na),
        is_pow2(ns),
        is_pow2(na),
        ns >= HEADER_SIZE,
        na >= HEADER_SIZE,
    ensures
        carve_addr(h, ns, na) % na == 0,
        carve_addr(h, ns, na) % (HEADER_SIZE as int) == 0,
        carve_addr(h, ns, na) > end(h) - ns - na,
        carve_addr(h, ns, na) + ns <= end(h),
        0 <= padding_size(h, ns, na) < na,
        padding_size(h, ns, na) % (HEADER_SIZE as int) == 0,
        node_ok(shrunk_node(h, ns, na)),
        node_ok(allocated_node(h, ns, na)),
        padding_size(h, ns, na) > 0 ==> node_ok(padding_node(h, ns, na)),
        end(shrunk_node(h, ns, na)) == allocated_node(h, ns, na).addr,
        end(allocated_node(h, ns, na)) == carve_addr(h, ns, na) + ns,
        padding_node(h, ns, na).addr == carve_addr(h, ns, na) + ns,
        end(padding_node(h, ns, na)) == end(h),
        shrunk_node(h, ns, na).size + allocated_node(h, ns, na).size + padding_size(h, ns, na)
            == h.size,
{
    let x = end(h) - ns;
    let hs = HEADER_SIZE as int;
    assert(hs == 32);
    lemma_header_size_pow2();
    lemma_pow2_divides(hs, ns);
    lemma_pow2_divides(hs, na);
    assert(x >= 0);
    assert(x % na + na * (x / na) == x) by (nonlinear_arith)
        requires
            na > 0,
    ;
    assert(0 <= x % na < na);
    let c = x - x % na;
    assert(c == na * (x / na));
    assert(c % na == 0) by (nonlinear_arith)
        requires
            c == na * (x / na),
            na > 0,
    ;
    assert(c >= 0);
    if c > 0 {
        lemma_mod_trans(c, na, hs);
    }
    assert(c % 32 == 0);
    assert(end(h) % 32 == 0);
    assert(x % 32 == 0);
    assert((x % na) % 32 == 0);
    assert(padding_size(h, ns, na) == x % na);
}

impl Header {
    /// This node has room for a block of `size` bytes aligned to `align`,
    /// two headers included.
    pub fn can_provide(&self, size: usize, align: usize) -> (r: bool)
        ensures
            r == (self.size >= size + 2 * HEADER_SIZE + align),
    {
        size <= self.size && align <= self.size - size && 2 * HEADER_SIZE <= self.size - size
            - align
    }

    /// The payload of this node is in use.
    pub fn is_allocated(&self) -> (r: bool)
        ensures
            r == self.is_allocated,
    {
        self.is_allocated
    }

    /// One past the last byte this node owns.
    pub fn end_addr(&self) -> (r: usize)
        requires
            end(*self) <= usize::MAX,
        ensures
            r == end(*self),
    {
        self.addr + self.size
    }

    /// Carves a block of `size` bytes aligned to `align` out of the high end
    /// of this free node.
    ///
    /// On success this node shrinks to what is left in front of the block,
    /// and the allocated node and any padding node come back to be linked in
    /// after it. A node that is in use, too small, or a size that cannot be
    /// rounded gives `None` and leaves the node as it was.
    pub fn provide(&mut self, size: usize, align: usize) -> (r: Option<Carve>)
        requires
            node_ok(*old(self)),
            is_pow2(align as int),
        ensures
            can_serve(*old(self), size, align) ==> {
                let ns = norm_size(size);
                let na = norm_align(align);
                &&& r == Some(carve_of(*old(self), ns, na))
                &&& *final(self) == shrunk_node(*old(self), ns, na)
            },
            !can_serve(*old(self), size, align) ==> r.is_none() && *final(self) == *old(self),
    {
        proof {
            lemma_norm_facts(size, align);
        }
        let rounded = match round_up_to_nearest_pow2(size) {
            Ok(p) => p,
            Err(_) => return None,
        };
        let size = if rounded < HEADER_SIZE {
            HEADER_SIZE
        } else {
            rounded
        };
        let align = if align < HEADER_SIZE {
            HEADER_SIZE
        } else {
            align
        };
        if self.is_allocated() || !self.can_provide(size, align) {
            return None;
        }
        let ghost h = *self;
        proof {
            lemma_carve_facts(h, size as int, align as int);
        }
        let end = self.end_addr();
        let x = end - size;
        let allocated_addr = x - x % align;
        let allocated = Header {
            addr: allocated_addr - HEADER_SIZE,
            size: size + HEADER_SIZE,
            is_allocated: true,
        };
        let mut size_used = allocated.size;
        let padding = if allocated.end_addr() != end {
            let pad = Header {
                addr: allocated.end_addr(),
                size: end - allocated.end_addr(),
                is_allocated: false,
            };
            size_used = size_used + pad.size;
            Some(pad)
        } else {
            None
        };
        self.size = self.size - size_used;
        Some(Carve { payload: allocated_addr, allocated, padding })
    }
}

} // verus!
