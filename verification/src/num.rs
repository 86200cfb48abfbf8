//! Integer arithmetic helpers for the fixed-point geometry kernel: the floor
//! square root and bounds on products, used to keep every computation inside
//! `i128`.

use vstd::prelude::*;

verus! {

/// Floor of the square root of `n`: the largest `r` with `r * r <= n`.
pub open spec fn isq(n: nat) -> nat
    decreases n,
{
    if n == 0 {
        0
    } else {
        let r = isq((n - 1) as nat);
        if (r + 1) * (r + 1) <= n {
            r + 1
        } else {
            r
        }
    }
}

/// `isq(n)` is the floor square root: its square is at most `n`, and the
/// next square is beyond `n`.
pub proof fn lemma_isq_props(n: nat)
    ensures
        isq(n) * isq(n) <= n,
        n < (isq(n) + 1) * (isq(n) + 1),
    decreases n,
{
    if n == 0 {
        assert(isq(0) == 0);
        assert((isq(n) + 1) * (isq(n) + 1) == 1) by (nonlinear_arith)
            requires
                isq(n) == 0,
        ;
    } else {
        lemma_isq_props((n - 1) as nat);
        let r = isq((n - 1) as nat);
        if (r + 1) * (r + 1) <= n {
            assert(isq(n) == r + 1);
            assert(n < (isq(n) + 1) * (isq(n) + 1)) by (nonlinear_arith)
                requires
                    isq(n) == r + 1,
                    n - 1 < (r + 1) * (r + 1),
            ;
        } else {
            assert(isq(n) == r);
            assert(n < (isq(n) + 1) * (isq(n) + 1)) by (nonlinear_arith)
                requires
                    isq(n) == r,
                    !((r + 1) * (r + 1) <= n),
            ;
        }
    }
}

/// The floor square root is the only `r` with `r * r <= n < (r + 1) * (r + 1)`.
pub proof fn lemma_isq_unique(n: nat, r: nat)
    requires
        r * r <= n,
        n < (r + 1) * (r + 1),
    ensures
        r == isq(n),
{
    lemma_isq_props(n);
    assert(r == isq(n)) by (nonlinear_arith)
        requires
            r * r <= n,
            n < (r + 1) * (r + 1),
            isq(n) * isq(n) <= n,
            n < (isq(n) + 1) * (isq(n) + 1),
    ;
}

/// A product of bounded factors is bounded by the product of the bounds.
pub proof fn lemma_mul_bound(x: int, y: int, a: int, b: int)
    requires
        -a <= x <= a,
        -b <= y <= b,
        0 <= a,
        0 <= b,
    ensures
        -(a * b) <= x * y <= a * b,
{
    assert(-(a * b) <= x * y <= a * b) by (nonlinear_arith)
        requires
            -a <= x <= a,
            -b <= y <= b,
            0 <= a,
            0 <= b,
    ;
}

/// Division by a positive value respects an upper bound on the dividend.
pub proof fn lemma_div_le(a: int, b: int, c: int)
    requires
        0 <= a,
        0 < b,
        0 <= c,
        a <= b * c,
    ensures
        a / b <= c,
{
    vstd::arithmetic::div_mod::lemma_fundamental_div_mod(a, b);
    assert(a / b <= c) by (nonlinear_arith)
        requires
            0 <= a,
            0 < b,
            0 <= c,
            a <= b * c,
            a == b * (a / b) + a % b,
            0 <= a % b < b,
    ;
}

/// Floor square root of `n`, computed by binary search.
pub fn isqrt(n: u128) -> (r: u128)
    requires
        n < 0x4000_0000_0000_0000_0000_0000_0000_0000u128,
    ensures
        r == isq(n as nat),
        r * r <= n,
        n < (r + 1) * (r + 1),
{
    let mut lo: u128 = 0;
    let mut hi: u128 = 0x8000_0000_0000_0000u128;
    assert(hi * hi == 0x4000_0000_0000_0000_0000_0000_0000_0000u128);
    while hi - lo > 1
        invariant
            lo < hi <= 0x8000_0000_0000_0000u128,
            lo * lo <= n,
            n < hi * hi,
        decreases hi - lo,
    {
        let mid = lo + (hi - lo) / 2;
        assert(lo < mid < hi);
        assert(mid * mid <= 0x4000_0000_0000_0000_0000_0000_0000_0000u128) by (nonlinear_arith)
            requires
                mid <= 0x8000_0000_0000_0000u128,
        ;
        if mid * mid <= n {
            lo = mid;
        } else {
            hi = mid;
        }
    }
    proof {
        lemma_isq_unique(n as nat, lo as nat);
    }
    lo
}

} // verus!
