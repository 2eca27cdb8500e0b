//! Integer helpers shared by the coder and the bit allocation.

use vstd::arithmetic::div_mod::lemma_fundamental_div_mod;
use vstd::arithmetic::power2::{lemma2_to64, lemma_pow2_pos, lemma_pow2_strictly_increases, lemma_pow2_unfold, pow2};
use vstd::bits::{lemma_u32_pow2_no_overflow, lemma_u32_shl_is_mul};
use vstd::prelude::*;

verus! {

/// The number of bits of `x`: zero for zero, else one more than the position
/// of its highest set bit.
pub open spec fn ilog(x: int) -> int
    decreases x,
{
    if x <= 0 {
        0
    } else {
        1 + ilog(x / 2)
    }
}

/// The smaller of two integers.
pub open spec fn min(a: int, b: int) -> int {
    if a <= b {
        a
    } else {
        b
    }
}

/// The larger of two integers.
pub open spec fn max(a: int, b: int) -> int {
    if a >= b {
        a
    } else {
        b
    }
}

/// The magnitude of an integer.
pub open spec fn abs(a: int) -> int {
    if a < 0 {
        -a
    } else {
        a
    }
}

/// Division that rounds toward zero.
pub open spec fn div_trunc(a: int, b: int) -> int {
    if a >= 0 {
        a / b
    } else {
        -((-a) / b)
    }
}

/// `x` lies between the powers of two that its bit count names.
pub proof fn lemma_ilog(x: int)
    requires
        x > 0,
    ensures
        ilog(x) >= 1,
        pow2((ilog(x) - 1) as nat) <= x < pow2(ilog(x) as nat),
    decreases x,
{
    lemma2_to64();
    if x == 1 {
        assert(ilog(0) == 0);
    } else {
        let h = x / 2;
        lemma_ilog(h);
        lemma_pow2_unfold(ilog(h) as nat);
        lemma_pow2_unfold((ilog(h) + 1) as nat);
    }
}

/// A value below `2^k` has at most `k` bits.
pub proof fn lemma_ilog_le(x: int, k: nat)
    requires
        0 <= x < pow2(k),
    ensures
        0 <= ilog(x) <= k,
{
    if x > 0 {
        lemma_ilog(x);
        if ilog(x) > k {
            if ilog(x) - 1 > k {
                lemma_pow2_strictly_increases(k, (ilog(x) - 1) as nat);
            }
        }
    }
}

/// A value of at least `2^k` has more than `k` bits.
pub proof fn lemma_ilog_gt(x: int, k: nat)
    requires
        pow2(k) <= x,
    ensures
        ilog(x) > k,
{
    lemma_pow2_pos(k);
    lemma_ilog(x);
    if ilog(x) <= k {
        if ilog(x) < k {
            lemma_pow2_strictly_increases(ilog(x) as nat, k);
        }
    }
}

/// Quotient and remainder by a positive divisor.
pub proof fn lemma_div(x: int, d: int)
    requires
        d > 0,
    ensures
        d * (x / d) <= x < d * (x / d) + d,
        x >= 0 ==> x / d >= 0,
{
    lemma_fundamental_div_mod(x, d);
    assert(0 <= x % d < d) by (nonlinear_arith)
        requires
            d > 0,
    ;
    if x >= 0 {
        assert(x / d >= 0) by (nonlinear_arith)
            requires
                d > 0,
                x >= 0,
        ;
    }
}

/// The quotient is the only `q` with `d * q <= x < d * q + d`.
pub proof fn lemma_div_unique(x: int, d: int, q: int)
    requires
        d > 0,
        d * q <= x < d * q + d,
    ensures
        x / d == q,
{
    lemma_div(x, d);
    let p = x / d;
    if p < q {
        assert(d * (p + 1) <= d * q) by (nonlinear_arith)
            requires
                d > 0,
                p + 1 <= q,
        ;
        assert(d * (p + 1) == d * p + d) by (nonlinear_arith);
    } else if p > q {
        assert(d * (q + 1) <= d * p) by (nonlinear_arith)
            requires
                d > 0,
                q + 1 <= p,
        ;
        assert(d * (q + 1) == d * q + d) by (nonlinear_arith);
    }
}

/// The number of bits of `x`.
pub fn ec_ilog(x: u32) -> (r: u32)
    ensures
        r == ilog(x as int),
        r <= 32,
{
    proof {
        lemma2_to64();
        lemma_ilog_le(x as int, 32);
    }
    let mut v: u32 = x;
    let mut n: u32 = 0;
    while v > 0
        invariant
            n + ilog(v as int) == ilog(x as int),
            0 <= ilog(v as int),
            ilog(x as int) <= 32,
        decreases v,
    {
        proof {
            if v / 2 > 0 {
                lemma_ilog((v / 2) as int);
            }
        }
        v = v / 2;
        n = n + 1;
    }
    n
}

/// `2^k`.
pub fn pow2_u32(k: u32) -> (r: u32)
    requires
        k < 32,
    ensures
        r == pow2(k as nat),
        r > 0,
{
    proof {
        lemma_u32_pow2_no_overflow(k as nat);
        lemma_u32_shl_is_mul(1, k);
        lemma_pow2_pos(k as nat);
    }
    1u32 << k
}

/// The magnitude of a product is at most the product of the magnitudes' bounds.
pub proof fn lemma_mul_range(x: int, bx: int, y: int, by: int)
    requires
        -bx <= x <= bx,
        -by <= y <= by,
    ensures
        -(bx * by) <= x * y <= bx * by,
        x >= 0 && y >= 0 ==> 0 <= x * y,
{
    assert(-(bx * by) <= x * y <= bx * by) by (nonlinear_arith)
        requires
            -bx <= x <= bx,
            -by <= y <= by,
    ;
    if x >= 0 && y >= 0 {
        assert(0 <= x * y) by (nonlinear_arith)
            requires
                x >= 0,
                y >= 0,
        ;
    }
}

/// Division that rounds down.
pub fn floor_div(x: i32, d: i32) -> (r: i32)
    requires
        -0x7000_0000 <= x <= 0x7000_0000,
        0 < d <= 0x1_0000,
    ensures
        r == x as int / d as int,
{
    if x >= 0 {
        x / d
    } else {
        let q: i32 = (-x + (d - 1)) / d;
        proof {
            lemma_div(-x + (d - 1), d as int);
            let a = q as int;
            let b = d as int;
            assert(b * (-a) == -(b * a)) by (nonlinear_arith);
            lemma_div_unique(x as int, d as int, -q as int);
        }
        -q
    }
}

/// The smaller of two signed values.
pub fn min_i32(a: i32, b: i32) -> (r: i32)
    ensures
        r == min(a as int, b as int),
{
    if a <= b {
        a
    } else {
        b
    }
}

/// The larger of two signed values.
pub fn max_i32(a: i32, b: i32) -> (r: i32)
    ensures
        r == max(a as int, b as int),
{
    if a >= b {
        a
    } else {
        b
    }
}

} // verus!
