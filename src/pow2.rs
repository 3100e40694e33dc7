use vstd::prelude::*;

verus! {

/// Errors the allocator reports to its callers.
#[derive(Debug, Clone, Copy, PartialEq, Eq, Structural)]
pub enum AllocError {
    /// The requested size has no power of two at or above it in a `usize`.
    OutOfRange,
    /// No node of the ledger can hold the request.
    OutOfMemory,
}

/// `n` is a power of two.
pub open spec fn is_pow2(n: int) -> bool
    decreases n,
{
    if n <= 0 {
        false
    } else if n == 1 {
        true
    } else {
        n % 2 == 0 && is_pow2(n / 2)
    }
}

/// The smallest power of two that is at least `v` (1 for 0 and 1).
pub open spec fn pow2_ceil(v: nat) -> nat
    decreases v,
{
    if v <= 1 {
        1
    } else {
        2 * pow2_ceil(((v + 1) / 2) as nat)
    }
}

/// A power of two `p` that is at least `v`, and whose half is below `v`, is `pow2_ceil(v)`.
proof fn lemma_pow2_ceil_unique(p: int, v: nat)
    requires
        is_pow2(p),
        p >= v,
        p == 1 || p / 2 < v,
    ensures
        p == pow2_ceil(v),
    decreases v,
{
    if v <= 1 {
        if p != 1 {
            assert(p % 2 == 0 && is_pow2(p / 2));
        }
    } else {
        let q = p / 2;
        assert(p != 1);
        assert(p % 2 == 0 && is_pow2(q));
        lemma_pow2_ceil_unique(q, ((v + 1) / 2) as nat);
    }
}

/// Doubling a power of two gives a power of two.
pub proof fn lemma_pow2_double(p: int)
    requires
        is_pow2(p),
    ensures
        is_pow2(2 * p),
{
    assert((2 * p) / 2 == p);
}

/// `pow2_ceil(v)` is a power of two, at least `v`.
pub proof fn lemma_pow2_ceil_facts(v: nat)
    ensures
        is_pow2(pow2_ceil(v) as int),
        pow2_ceil(v) >= v,
        pow2_ceil(v) >= 1,
    decreases v,
{
    if v > 1 {
        lemma_pow2_ceil_facts(((v + 1) / 2) as nat);
        lemma_pow2_double(pow2_ceil(((v + 1) / 2) as nat) as int);
    }
}

/// Of two powers of two, the larger is a multiple of the smaller.
pub proof fn lemma_pow2_divides(a: int, b: int)
    requires
        is_pow2(a),
        is_pow2(b),
        a <= b,
    ensures
        b % a == 0,
    decreases b,
{
    if a != b {
        assert(b != 1 && b % 2 == 0 && is_pow2(b / 2));
        if a == 1 {
        } else {
            assert(a % 2 == 0 && is_pow2(a / 2));
            lemma_pow2_divides(a / 2, b / 2);
            assert((b / 2) % (a / 2) == 0);
            let k = (b / 2) / (a / 2);
            assert(b / 2 == k * (a / 2)) by (nonlinear_arith)
                requires
                    (b / 2) % (a / 2) == 0,
                    a / 2 > 0,
                    k == (b / 2) / (a / 2),
            ;
            assert(b == k * a) by (nonlinear_arith)
                requires
                    b / 2 == k * (a / 2),
                    b % 2 == 0,
                    a % 2 == 0,
            ;
            assert((k * a) % a == 0) by (nonlinear_arith)
                requires
                    a > 0,
            ;
        }
    }
}

/// A power of two above another power of two is at least twice it.
pub proof fn lemma_pow2_gap(a: int, b: int)
    requires
        is_pow2(a),
        is_pow2(b),
        a < b,
    ensures
        b >= 2 * a,
{
    lemma_pow2_divides(a, b);
    assert(a >= 1) by {
        if a <= 0 {
        }
    };
    let k = b / a;
    assert(b == k * a) by (nonlinear_arith)
        requires
            b % a == 0,
            a > 0,
            k == b / a,
    ;
    assert(k >= 2) by (nonlinear_arith)
        requires
            b == k * a,
            a < b,
            a > 0,
    ;
    assert(k * a >= 2 * a) by (nonlinear_arith)
        requires
            k >= 2,
            a > 0,
    ;
}

/// Rounds `v` up to the nearest power of two.
///
/// Zero and one round to one. A value whose power of two does not fit in a
/// `usize` gives `OutOfRange`.
pub fn round_up_to_nearest_pow2(v: usize) -> (r: Result<usize, AllocError>)
    ensures
        pow2_ceil(v as nat) <= usize::MAX ==> r == Ok::<usize, AllocError>(
            pow2_ceil(v as nat) as usize,
        ),
        pow2_ceil(v as nat) > usize::MAX ==> r == Err::<usize, AllocError>(
            AllocError::OutOfRange,
        ),
{
    let mut p: usize = 1;
    while p < v
        invariant
            1 <= p,
            is_pow2(p as int),
            p == 1 || p / 2 < v,
        decreases usize::MAX - p,
    {
        if p > usize::MAX / 2 {
            proof {
                lemma_pow2_ceil_facts(v as nat);
                lemma_pow2_gap(p as int, pow2_ceil(v as nat) as int);
            }
            return Err(AllocError::OutOfRange);
        }
        proof {
            lemma_pow2_double(p as int);
        }
        p = p * 2;
    }
    proof {
        lemma_pow2_ceil_unique(p as int, v as nat);
    }
    Ok(p)
}

} // verus!
