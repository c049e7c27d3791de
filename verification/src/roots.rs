//! Floor roots of nonnegative integers, by bisection.
//!
//! The color pipeline evaluates the sRGB gamma curve and the CIE `f`
//! function in fixed-point arithmetic; both reduce to square, cube and
//! fifth roots. Each exec function below returns the floor root, pinned by
//! the bracketing property `r^k <= x < (r+1)^k`, which has exactly one
//! solution for a nonnegative radicand.

use vstd::prelude::*;

verus! {

/// `r` is the floor of the square root of `x`.
pub open spec fn is_sqrt_floor(x: int, r: int) -> bool {
    0 <= r && r * r <= x && x < (r + 1) * (r + 1)
}

/// `r` is the floor of the cube root of `x`.
pub open spec fn is_cbrt_floor(x: int, r: int) -> bool {
    0 <= r && r * r * r <= x && x < (r + 1) * (r + 1) * (r + 1)
}

/// `r` is the floor of the fifth root of `x`.
pub open spec fn is_root5_floor(x: int, r: int) -> bool {
    0 <= r && r * r * r * r * r <= x && x < (r + 1) * (r + 1) * (r + 1) * (r + 1) * (r + 1)
}

/// The floor square root, as a mathematical function of the radicand.
pub open spec fn sqrt_floor(x: int) -> int {
    choose|r: int| is_sqrt_floor(x, r)
}

/// The floor cube root, as a mathematical function of the radicand.
pub open spec fn cbrt_floor(x: int) -> int {
    choose|r: int| is_cbrt_floor(x, r)
}

/// The floor fifth root, as a mathematical function of the radicand.
pub open spec fn root5_floor(x: int) -> int {
    choose|r: int| is_root5_floor(x, r)
}

/// The bracketing property determines the square root uniquely.
pub proof fn lemma_sqrt_floor_unique(x: int, r1: int, r2: int)
    requires
        is_sqrt_floor(x, r1),
        is_sqrt_floor(x, r2),
    ensures
        r1 == r2,
{
    assert(r1 == r2) by (nonlinear_arith)
        requires
            is_sqrt_floor(x, r1),
            is_sqrt_floor(x, r2),
    ;
}

/// The bracketing property determines the cube root uniquely.
pub proof fn lemma_cbrt_floor_unique(x: int, r1: int, r2: int)
    requires
        is_cbrt_floor(x, r1),
        is_cbrt_floor(x, r2),
    ensures
        r1 == r2,
{
    assert(r1 == r2) by (nonlinear_arith)
        requires
            is_cbrt_floor(x, r1),
            is_cbrt_floor(x, r2),
    ;
}

/// The bracketing property determines the fifth root uniquely.
pub proof fn lemma_root5_floor_unique(x: int, r1: int, r2: int)
    requires
        is_root5_floor(x, r1),
        is_root5_floor(x, r2),
    ensures
        r1 == r2,
{
    assert(r1 == r2) by (nonlinear_arith)
        requires
            is_root5_floor(x, r1),
            is_root5_floor(x, r2),
    ;
}

/// A witness of the bracketing property is the floor square root.
pub proof fn lemma_sqrt_floor_agrees(x: int, r: int)
    requires
        is_sqrt_floor(x, r),
    ensures
        sqrt_floor(x) == r,
{
    let w = choose|w: int| is_sqrt_floor(x, w);
    lemma_sqrt_floor_unique(x, w, r);
}

/// A witness of the bracketing property is the floor cube root.
pub proof fn lemma_cbrt_floor_agrees(x: int, r: int)
    requires
        is_cbrt_floor(x, r),
    ensures
        cbrt_floor(x) == r,
{
    let w = choose|w: int| is_cbrt_floor(x, w);
    lemma_cbrt_floor_unique(x, w, r);
}

/// A witness of the bracketing property is the floor fifth root.
pub proof fn lemma_root5_floor_agrees(x: int, r: int)
    requires
        is_root5_floor(x, r),
    ensures
        root5_floor(x) == r,
{
    let w = choose|w: int| is_root5_floor(x, w);
    lemma_root5_floor_unique(x, w, r);
}

/// Floor square root of a 64-bit value.
pub fn isqrt(x: u64) -> (r: u64)
    ensures
        is_sqrt_floor(x as int, r as int),
        r as int == sqrt_floor(x as int),
{
    let mut lo: u64 = 0;
    let mut hi: u64 = 0x1_0000_0000;
    assert((0x1_0000_0000int) * (0x1_0000_0000int) > u64::MAX as int);
    while hi - lo > 1
        invariant
            lo < hi <= 0x1_0000_0000,
            (lo as int) * (lo as int) <= x as int,
            (x as int) < (hi as int) * (hi as int),
        decreases hi - lo,
    {
        let mid = lo + (hi - lo) / 2;
        assert((mid as int) * (mid as int) <= (0xFFFF_FFFFint) * (0xFFFF_FFFFint))
            by (nonlinear_arith)
            requires
                mid <= 0xFFFF_FFFFu64,
        ;
        if mid * mid <= x {
            lo = mid;
        } else {
            hi = mid;
        }
    }
    proof {
        lemma_sqrt_floor_agrees(x as int, lo as int);
    }
    lo
}

/// Floor cube root of a radicand below `10^23`.
pub fn icbrt(x: u128) -> (r: u128)
    requires
        x < 100_000_000_000_000_000_000_000u128,
    ensures
        is_cbrt_floor(x as int, r as int),
        r as int == cbrt_floor(x as int),
{
    let mut lo: u128 = 0;
    let mut hi: u128 = 50_000_000;
    assert((50_000_000int) * 50_000_000 * 50_000_000 > 100_000_000_000_000_000_000_000int);
    while hi - lo > 1
        invariant
            lo < hi <= 50_000_000,
            (lo as int) * (lo as int) * (lo as int) <= x as int,
            (x as int) < (hi as int) * (hi as int) * (hi as int),
        decreases hi - lo,
    {
        let mid = lo + (hi - lo) / 2;
        assert((mid as int) * (mid as int) <= 50_000_000int * 50_000_000
            && (mid as int) * (mid as int) * (mid as int) <= 50_000_000int * 50_000_000
                * 50_000_000) by (nonlinear_arith)
            requires
                mid <= 50_000_000u128,
        ;
        let m2 = mid * mid;
        if m2 * mid <= x {
            lo = mid;
        } else {
            hi = mid;
        }
    }
    proof {
        lemma_cbrt_floor_agrees(x as int, lo as int);
    }
    lo
}

/// Floor fifth root of a radicand of at most `10^35`.
pub fn iroot5(x: u128) -> (r: u128)
    requires
        x <= 100_000_000_000_000_000_000_000_000_000_000_000u128,
    ensures
        is_root5_floor(x as int, r as int),
        r as int == root5_floor(x as int),
{
    let mut lo: u128 = 0;
    let mut hi: u128 = 10_000_001;
    assert((10_000_001int) * 10_000_001 * 10_000_001 * 10_000_001 * 10_000_001
        > 100_000_000_000_000_000_000_000_000_000_000_000int);
    while hi - lo > 1
        invariant
            lo < hi <= 10_000_001,
            (lo as int) * (lo as int) * (lo as int) * (lo as int) * (lo as int) <= x as int,
            (x as int) < (hi as int) * (hi as int) * (hi as int) * (hi as int) * (hi as int),
        decreases hi - lo,
    {
        let mid = lo + (hi - lo) / 2;
        assert((mid as int) * (mid as int) <= 10_000_000int * 10_000_000
            && (mid as int) * (mid as int) * ((mid as int) * (mid as int)) <= 10_000_000int
                * 10_000_000 * 10_000_000 * 10_000_000
            && (mid as int) * (mid as int) * ((mid as int) * (mid as int)) * (mid as int)
                <= 10_000_000int * 10_000_000 * 10_000_000 * 10_000_000 * 10_000_000
            && (mid as int) * (mid as int) * ((mid as int) * (mid as int)) * (mid as int)
                == (mid as int) * (mid as int) * (mid as int) * (mid as int) * (mid as int))
            by (nonlinear_arith)
            requires
                mid <= 10_000_000u128,
        ;
        let m2 = mid * mid;
        let m4 = m2 * m2;
        if m4 * mid <= x {
            lo = mid;
        } else {
            hi = mid;
        }
    }
    proof {
        lemma_root5_floor_agrees(x as int, lo as int);
    }
    lo
}

} // verus!
