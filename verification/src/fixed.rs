//! Integer square roots, the one irrational operation of the cost model.
//! Estimates round down and lengths round up, so that an estimate never
//! exceeds the length it stands for.

use vstd::prelude::*;

verus! {

/// Whether `r` is the square root of `n` rounded down.
pub open spec fn is_floor_sqrt(n: nat, r: nat) -> bool {
    r * r <= n < (r + 1) * (r + 1)
}

/// The square root of `n`, rounded down.
pub open spec fn floor_sqrt(n: nat) -> nat {
    choose|r: nat| is_floor_sqrt(n, r)
}

/// The square root of `n`, rounded up.
pub open spec fn ceil_sqrt(n: nat) -> nat {
    let r = floor_sqrt(n);
    if r * r == n {
        r
    } else {
        r + 1
    }
}

/// At most one number is the rounded-down root of `n`.
pub proof fn lemma_floor_sqrt_unique(n: nat, r: nat)
    requires
        is_floor_sqrt(n, r),
    ensures
        floor_sqrt(n) == r,
{
    let s = floor_sqrt(n);
    assert(is_floor_sqrt(n, s));
    if s < r {
        assert((s + 1) * (s + 1) <= r * r) by (nonlinear_arith)
            requires
                s + 1 <= r,
        ;
    } else if r < s {
        assert((r + 1) * (r + 1) <= s * s) by (nonlinear_arith)
            requires
                r + 1 <= s,
        ;
    }
}

/// Every number has a rounded-down root, and it is the largest number
/// whose square does not exceed it.
pub proof fn lemma_floor_sqrt_bounds(n: nat)
    ensures
        is_floor_sqrt(n, floor_sqrt(n)),
    decreases n,
{
    if n == 0 {
        assert(is_floor_sqrt(0, 0)) by (nonlinear_arith);
    } else {
        lemma_floor_sqrt_bounds((n - 1) as nat);
        let r = floor_sqrt((n - 1) as nat);
        if n < (r + 1) * (r + 1) {
            assert(is_floor_sqrt(n, r));
        } else {
            assert((r + 1) * (r + 1) == n);
            assert(n < (r + 2) * (r + 2)) by (nonlinear_arith)
                requires
                    (r + 1) * (r + 1) == n,
            ;
            assert(is_floor_sqrt(n, r + 1));
        }
    }
}

/// The rounded-up root is the smallest number whose square reaches `n`.
pub proof fn lemma_ceil_sqrt_bounds(n: nat)
    ensures
        ceil_sqrt(n) * ceil_sqrt(n) >= n,
        floor_sqrt(n) <= ceil_sqrt(n) <= floor_sqrt(n) + 1,
        ceil_sqrt(n) > 0 ==> (ceil_sqrt(n) - 1) * (ceil_sqrt(n) - 1) < n,
{
    lemma_floor_sqrt_bounds(n);
    let r = floor_sqrt(n);
    if r * r != n {
        assert(r * r < n);
    } else if r > 0 {
        assert((r - 1) * (r - 1) < r * r) by (nonlinear_arith)
            requires
                r > 0,
        ;
    }
}

/// The square root of `n`, rounded down.
pub fn isqrt(n: u128) -> (r: u64)
    ensures
        r == floor_sqrt(n as nat),
{
    let mut lo: u128 = 0;
    let mut hi: u128 = 0x1_0000_0000_0000_0000;
    assert(0x1_0000_0000_0000_0000 * 0x1_0000_0000_0000_0000 > n) by (nonlinear_arith)
        requires
            n <= u128::MAX,
    ;
    while hi - lo > 1
        invariant
            lo < hi <= 0x1_0000_0000_0000_0000,
            lo * lo <= n < hi * hi,
        decreases hi - lo,
    {
        let mid: u128 = lo + (hi - lo) / 2;
        assert(mid * mid <= 0xffff_ffff_ffff_ffff * 0xffff_ffff_ffff_ffff) by (nonlinear_arith)
            requires
                0 <= mid <= 0xffff_ffff_ffff_ffff,
        ;
        if mid * mid <= n {
            lo = mid;
        } else {
            hi = mid;
        }
    }
    proof {
        assert(hi == lo + 1);
        lemma_floor_sqrt_unique(n as nat, lo as nat);
    }
    lo as u64
}

/// The square root of `n`, rounded up.
pub fn isqrt_ceil(n: u128) -> (r: u128)
    ensures
        r == ceil_sqrt(n as nat),
        r <= 0x1_0000_0000_0000_0000,
{
    let root: u64 = isqrt(n);
    let r: u128 = root as u128;
    proof {
        lemma_floor_sqrt_bounds(n as nat);
        assert(r * r <= 0xffff_ffff_ffff_ffff * 0xffff_ffff_ffff_ffff) by (nonlinear_arith)
            requires
                0 <= r <= 0xffff_ffff_ffff_ffff,
        ;
    }
    if r * r == n {
        r
    } else {
        r + 1
    }
}

} // verus!
