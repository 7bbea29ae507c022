use vstd::prelude::*;

verus! {

/// `r` is the integer square root of `n`: the largest integer whose square
/// does not exceed `n`.
pub open spec fn is_isqrt(n: int, r: int) -> bool {
    r >= 0 && r * r <= n && n < (r + 1) * (r + 1)
}

/// The integer square root (rounded down) of a nonnegative integer.
pub open spec fn isqrt_s(n: int) -> int {
    choose|r: int| is_isqrt(n, r)
}

pub proof fn lemma_isqrt_unique(n: int, r1: int, r2: int)
    requires
        is_isqrt(n, r1),
        is_isqrt(n, r2),
    ensures
        r1 == r2,
{
    assert(r1 < r2 ==> (r1 + 1) * (r1 + 1) <= r2 * r2) by (nonlinear_arith)
        requires 0 <= r1, 0 <= r2;
    assert(r2 < r1 ==> (r2 + 1) * (r2 + 1) <= r1 * r1) by (nonlinear_arith)
        requires 0 <= r1, 0 <= r2;
}

/// Any witness pins the spec value down.
pub proof fn lemma_isqrt_is(n: int, r: int)
    requires
        is_isqrt(n, r),
    ensures
        isqrt_s(n) == r,
{
    assert(is_isqrt(n, choose|x: int| is_isqrt(n, x)));
    lemma_isqrt_unique(n, isqrt_s(n), r);
}

/// Integer square root of a `u64`, rounded down, by binary search.
pub fn isqrt(n: u64) -> (r: u64)
    ensures
        is_isqrt(n as int, r as int),
        r as int == isqrt_s(n as int),
{
    let mut lo: u64 = 0;
    let mut hi: u64 = 0x1_0000_0000;
    proof {
        assert((0x1_0000_0000 as int) * (0x1_0000_0000 as int) > u64::MAX as int);
    }
    while hi - lo > 1
        invariant
            0 <= lo < hi <= 0x1_0000_0000,
            (lo as int) * (lo as int) <= n as int,
            (n as int) < (hi as int) * (hi as int),
        decreases hi - lo,
    {
        let mid: u64 = lo + (hi - lo) / 2;
        proof {
            assert((mid as int) * (mid as int) <= (0xffff_ffff as int) * (0xffff_ffff as int))
                by (nonlinear_arith)
                requires 0 <= mid as int <= 0xffff_ffff;
        }
        if mid * mid <= n {
            lo = mid;
        } else {
            hi = mid;
        }
    }
    proof {
        lemma_isqrt_is(n as int, lo as int);
    }
    lo
}

} // verus!
