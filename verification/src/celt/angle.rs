//! The angle between the two halves of a split.
//!
//! A partition with more bits than one codeword can use is split, and an
//! entropy-coded angle says how the energy is divided. The functions here decide
//! how the remaining bits are divided as well, so they are exact integer
//! arithmetic.

pub mod laws;
pub mod unit;

use vstd::arithmetic::power2::{lemma2_to64, lemma_pow2_adds, lemma_pow2_strictly_increases, lemma_pow2_unfold, pow2};
use vstd::prelude::*;

use crate::celt::modes::{self, LOG_N};
use crate::math::{self, ec_ilog, floor_div, min_i32, pow2_u32};
use crate::range::decoder::DecoderState;
use crate::range::RangeDecoder;

verus! {

/// One step of the noise generator.
pub open spec fn lcg(seed: int) -> int {
    (seed * 1664525 + 1013904223) % 0x1_0000_0000
}

/// One step of the linear congruential generator behind noise filling.
pub fn celt_lcg_rand(seed: u32) -> (r: u32)
    ensures
        r == lcg(seed as int),
{
    let m: u32 = seed.wrapping_mul(1_664_525);
    proof {
        let x = seed as int * 1_664_525;
        assert(m == x % 0x1_0000_0000);
        vstd::arithmetic::div_mod::lemma_add_mod_noop(x, 1_013_904_223, 0x1_0000_0000);
    }
    m.wrapping_add(1_013_904_223)
}

/// The sixteen low bits of an integer as a signed value.
pub open spec fn wrap16(a: int) -> int {
    (a + 32768) % 65536 - 32768
}

/// The rounded product of two signed 16-bit fractions.
pub open spec fn frac_mul(a: int, b: int) -> int {
    (16384 + wrap16(a) * wrap16(b)) / 32768
}

fn low16(a: i32) -> (r: i32)
    ensures
        r == wrap16(a as int),
        -32768 <= r <= 32767,
{
    ((a as i64 + 0x8000_8000) % 65536) as i32 - 32768
}

/// The rounded product of two signed 16-bit fractions.
pub fn frac_mul16(a: i32, b: i32) -> (r: i32)
    ensures
        r == frac_mul(a as int, b as int),
        -32768 <= r <= 32768,
{
    let x: i32 = low16(a);
    let y: i32 = low16(b);
    proof {
        math::lemma_mul_range(x as int, 32768, y as int, 32768);
    }
    floor_div(16384 + x * y, 32768)
}

/// The cosine of `x` quarter-turns of 1/16384, as a fraction of 1/32768: a
/// polynomial in the square of the angle.
pub open spec fn cos_spec(x: int) -> int {
    let s = (4096 + x * x) / 8192;
    1 + (32767 - s) + frac_mul(s, -7651 + frac_mul(s, 8277 + frac_mul(-626, s)))
}

proof fn lemma_frac_mul(a: int, b: int, lo: int, hi: int)
    requires
        -32768 <= a <= 32767,
        -32768 <= b <= 32767,
        32768 * lo <= 16384 + a * b < 32768 * (hi + 1),
    ensures
        wrap16(a) == a,
        wrap16(b) == b,
        lo <= frac_mul(a, b) <= hi,
{
}

/// The approximated cosine of an angle that is not too small.
pub fn bitexact_cos(x: i16) -> (r: i16)
    requires
        64 <= x <= 16383 || -16383 <= x <= -64,
    ensures
        r == cos_spec(x as int),
        -7651 < r <= 32767,
{
    let v: i32 = x as i32;
    proof {
        assert(4096 <= v * v <= 16383 * 16383) by (nonlinear_arith)
            requires
                64 <= v <= 16383 || -16383 <= v <= -64,
        ;
    }
    let s: i32 = (4096 + v * v) / 8192;
    let a: i32 = frac_mul16(-626, s);
    proof {
        lemma_frac_mul(-626, s as int, -626, 0);
    }
    let b: i32 = frac_mul16(s, 8277 + a);
    proof {
        let t = 8277 + a;
        assert(0 <= s * t <= 32767 * 8277) by (nonlinear_arith)
            requires
                0 <= s <= 32767,
                0 <= t <= 8277,
        ;
        lemma_frac_mul(s as int, 8277 + a, 0, 8277);
    }
    let c: i32 = frac_mul16(s, -7651 + b);
    proof {
        let t = -7651 + b;
        assert(-7651 * s <= s * t <= 626 * s) by (nonlinear_arith)
            requires
                0 <= s,
                -7651 <= t <= 626,
        ;
        lemma_frac_mul(s as int, -7651 + b, -7651, (16384 + 626 * s) / 32768);
    }
    (1 + (32767 - s) + c) as i16
}

/// `x`, of one to fifteen bits, scaled up to fifteen bits.
pub open spec fn mantissa15(x: int) -> int {
    x * pow2((15 - math::ilog(x)) as nat)
}

/// The polynomial part of the logarithm of a fifteen-bit mantissa.
pub open spec fn log_poly(m: int) -> int {
    frac_mul(m, frac_mul(m, -2597) + 7932)
}

/// The base-two logarithm of the ratio of two lengths, in 1/2048.
pub open spec fn log2tan_spec(isin: int, icos: int) -> int {
    (math::ilog(isin) - math::ilog(icos)) * 2048 + log_poly(mantissa15(isin)) - log_poly(mantissa15(icos))
}

fn scaled15(x: i32) -> (r: (i32, i32))
    requires
        0 < x <= 32767,
    ensures
        r.0 == math::ilog(x as int),
        1 <= r.0 <= 15,
        r.1 == mantissa15(x as int),
        16384 <= r.1 <= 32767,
{
    let l: u32 = ec_ilog(x as u32);
    proof {
        lemma2_to64();
        math::lemma_ilog(x as int);
        math::lemma_ilog_le(x as int, 15);
        lemma_pow2_adds((l - 1) as nat, (15 - l) as nat);
        lemma_pow2_adds(l as nat, (15 - l) as nat);
        let p = pow2((15 - l) as nat) as int;
        let lo = pow2((l - 1) as nat) as int;
        let hi = pow2(l as nat) as int;
        assert(lo * p <= x * p) by (nonlinear_arith)
            requires
                lo <= x,
                p >= 0,
        ;
        assert(x * p <= (hi - 1) * p) by (nonlinear_arith)
            requires
                x <= hi - 1,
                p >= 0,
        ;
        assert((hi - 1) * p == hi * p - p) by (nonlinear_arith);
        vstd::arithmetic::power2::lemma_pow2_pos((15 - l) as nat);
    }
    (l as i32, x * pow2_u32(15 - l) as i32)
}

fn log_poly_of(m: i32) -> (r: i32)
    requires
        16384 <= m <= 32767,
    ensures
        r == log_poly(m as int),
        0 <= r <= 8000,
{
    let a: i32 = frac_mul16(m, -2597);
    proof {
        lemma_frac_mul(m as int, -2597, -2597, 0);
        let t = a + 7932;
        assert(0 <= m * t <= 32767 * 7932) by (nonlinear_arith)
            requires
                0 <= m <= 32767,
                0 <= t <= 7932,
        ;
        lemma_frac_mul(m as int, a + 7932, 0, 7932);
    }
    frac_mul16(m, a + 7932)
}

/// The base-two logarithm of the ratio of two lengths, in 1/2048.
pub fn bitexact_log2tan(isin: i32, icos: i32) -> (r: i32)
    requires
        0 < isin <= 32767,
        0 < icos <= 32767,
    ensures
        r == log2tan_spec(isin as int, icos as int),
        -40000 <= r <= 40000,
{
    let (lc, c) = scaled15(icos);
    let (ls, s) = scaled15(isin);
    (ls - lc) * 2048 + log_poly_of(s) - log_poly_of(c)
}

/// Exchanging the two lengths negates the logarithm.
pub proof fn lemma_log2tan_antisymmetric(isin: int, icos: int)
    ensures
        log2tan_spec(isin, icos) == -log2tan_spec(icos, isin),
{
}

/// The integer square root.
pub fn isqrt32(val: u32) -> (r: u32)
    ensures
        r * r <= val < (r + 1) * (r + 1),
        r <= 65535,
{
    if val == 0 {
        return 0;
    }
    proof {
        lemma2_to64();
        math::lemma_ilog(val as int);
        math::lemma_ilog_le(val as int, 32);
    }
    let l: u32 = ec_ilog(val);
    let e0: u32 = (l - 1) / 2 + 1;
    let mut rest: u32 = val;
    let mut g: u32 = 0;
    let mut e: u32 = e0;
    proof {
        lemma_pow2_adds(e0 as nat, e0 as nat);
        if l < 2 * e0 {
            lemma_pow2_strictly_increases(l as nat, (2 * e0) as nat);
        }
        if e0 < 16 {
            lemma_pow2_strictly_increases(e0 as nat, 16);
        }
        let p = pow2(e0 as nat) as int;
        assert((0 + p) * (0 + p) == p * p) by (nonlinear_arith);
    }
    while e > 0
        invariant
            e <= 16,
            g + pow2(e as nat) <= 65536,
            g * g <= val,
            val < (g + pow2(e as nat)) * (g + pow2(e as nat)),
            rest == val - g * g,
        decreases e,
    {
        let ghost bb = pow2(e as nat) as int;
        proof {
            lemma_pow2_unfold(e as nat);
        }
        e = e - 1;
        let b: u32 = pow2_u32(e);
        proof {
            let gi = g as int;
            let bi = b as int;
            assert((gi + bi) * (gi + bi) == gi * gi + (2 * gi + bi) * bi) by (nonlinear_arith);
            assert((gi + bi) * (gi + bi) <= 65535 * 65535) by (nonlinear_arith)
                requires
                    0 <= gi + bi <= 65535,
            ;
            assert(0 <= gi * gi) by (nonlinear_arith);
            assert(0 <= (2 * gi + bi) * bi) by (nonlinear_arith)
                requires
                    gi >= 0,
                    bi >= 0,
            ;
        }
        let t: u32 = (2 * g + b) * b;
        if t <= rest {
            g = g + b;
            rest = rest - t;
        }
    }
    proof {
        lemma2_to64();
    }
    g
}

/// The reordering of blocks, by the number of blocks (2, 4, 8 or 16).
#[verifier::opaque]
pub const ORDERY_TABLE: [usize; 30] = [
    1, 0, 3, 0, 2, 1, 7, 0, 4, 3, 6, 1, 5, 2, 15, 0, 8, 7, 12, 3, 11, 4, 14, 1, 9, 6, 13, 2, 10, 5,
];

/// The place of block `i` of `stride` blocks.
pub open spec fn order_of(stride: int, i: int) -> int {
    ORDERY_TABLE[stride - 2 + i] as int
}

/// The places of the blocks in time order.
pub fn ordery(stride: usize) -> (r: Vec<usize>)
    requires
        stride == 2 || stride == 4 || stride == 8 || stride == 16,
    ensures
        r@.len() == stride,
        forall|i: int| 0 <= i < stride ==> #[trigger] r@[i] == order_of(stride as int, i) && r@[i] < stride,
{
    let mut r: Vec<usize> = Vec::new();
    let mut i: usize = 0;
    while i < stride
        invariant
            stride == 2 || stride == 4 || stride == 8 || stride == 16,
            i <= stride,
            r@.len() == i,
            forall|j: int| 0 <= j < i ==> #[trigger] r@[j] == order_of(stride as int, j) && r@[j] < stride,
        decreases stride - i,
    {
        proof {
            lemma_order_bound(stride as int, i as int);
        }
        r.push(ORDERY_TABLE[stride - 2 + i]);
        i = i + 1;
    }
    r
}

pub proof fn lemma_order_bound(stride: int, i: int)
    requires
        stride == 2 || stride == 4 || stride == 8 || stride == 16,
        0 <= i < stride,
    ensures
        0 <= order_of(stride, i) < stride,
{
    reveal(ORDERY_TABLE);
    assert(i == 0 || i == 1 || i == 2 || i == 3 || i == 4 || i == 5 || i == 6 || i == 7 || i == 8 || i == 9 || i == 10
        || i == 11 || i == 12 || i == 13 || i == 14 || i == 15);
}

/// The reordering moves no two blocks to one place.
pub proof fn lemma_order_injective(stride: int, i: int, j: int)
    requires
        stride == 2 || stride == 4 || stride == 8 || stride == 16,
        0 <= i < j < stride,
    ensures
        order_of(stride, i) != order_of(stride, j),
{
    reveal(ORDERY_TABLE);
    assert(i == 0 || i == 1 || i == 2 || i == 3 || i == 4 || i == 5 || i == 6 || i == 7 || i == 8 || i == 9 || i == 10
        || i == 11 || i == 12 || i == 13 || i == 14 || i == 15);
    assert(j == 0 || j == 1 || j == 2 || j == 3 || j == 4 || j == 5 || j == 6 || j == 7 || j == 8 || j == 9 || j == 10
        || j == 11 || j == 12 || j == 13 || j == 14 || j == 15);
}

/// `2^(14 + i/8)`, rounded.
#[verifier::opaque]
pub const EXP2_TABLE8: [i16; 8] = [16384, 17866, 19483, 21247, 23170, 25267, 27554, 30048];

proof fn lemma_exp2_table(i: int)
    requires
        0 <= i < 8,
    ensures
        16384 <= EXP2_TABLE8[i] <= 30048,
        EXP2_TABLE8[0] == 16384,
        i >= 4 ==> EXP2_TABLE8[i] >= 23170,
{
    reveal(EXP2_TABLE8);
    assert(i == 0 || i == 1 || i == 2 || i == 3 || i == 4 || i == 5 || i == 6 || i == 7);
}

/// The bits, in eighths, that the angle of a split of `n` values may take.
pub open spec fn angle_bits(n: int, b: int, offset: int, pulse_cap: int, stereo: bool) -> int {
    let n2 = 2 * n - 1 - if stereo && n == 2 {
        1int
    } else {
        0
    };
    math::min(math::min(math::div_trunc(b + n2 * offset, n2), b - pulse_cap - 32), 64)
}

/// The number of steps of that angle: one, or an even number up to 256.
pub open spec fn angle_levels(n: int, b: int, offset: int, pulse_cap: int, stereo: bool) -> int {
    let qb = angle_bits(n, b, offset, pulse_cap, stereo);
    if qb < 4 {
        1
    } else {
        (EXP2_TABLE8[qb % 8] as int / pow2((14 - qb / 8) as nat) as int + 1) / 2 * 2
    }
}

/// The number of steps of the angle of a split of `n` values with `b` bits.
pub fn compute_qn(n: usize, b: i32, offset: i32, pulse_cap: i32, stereo: bool) -> (r: i32)
    requires
        2 <= n <= 256,
        -0x800_0000 <= b <= 0x800_0000,
        -100 <= offset <= 100,
        -100 <= pulse_cap <= 100,
    ensures
        r == angle_levels(n as int, b as int, offset as int, pulse_cap as int, stereo),
        r == 1 || (2 <= r <= 256 && r % 2 == 0),
{
    let mut n2: i32 = 2 * n as i32 - 1;
    if stereo && n == 2 {
        n2 = n2 - 1;
    }
    proof {
        math::lemma_mul_range(n2 as int, 511, offset as int, 100);
        lemma_trunc_bound(b + n2 * offset, n2 as int, 0x900_0000);
    }
    let q0: i32 = (b + n2 * offset) / n2;
    let qb: i32 = min_i32(min_i32(q0, b - pulse_cap - 32), 64);
    if qb < 4 {
        1
    } else {
        let e: u32 = (14 - qb / 8) as u32;
        let t: i32 = EXP2_TABLE8[(qb % 8) as usize] as i32;
        let p: u32 = pow2_u32(e);
        proof {
            lemma_exp2_table(qb as int % 8);
            lemma2_to64();
            lemma_qn_range(t as int, e as int, qb as int);
        }
        (t / p as i32 + 1) / 2 * 2
    }
}

proof fn lemma_trunc_bound(x: int, d: int, m: int)
    requires
        d >= 1,
        -m <= x <= m,
    ensures
        -m <= math::div_trunc(x, d) <= m,
        x >= 0 ==> math::div_trunc(x, d) >= 0,
{
    let y = if x >= 0 { x } else { -x };
    math::lemma_div(y, d);
    let q = y / d;
    assert(q <= d * q) by (nonlinear_arith)
        requires
            d >= 1,
            q >= 0,
    ;
}

proof fn lemma_qn_range(t: int, e: int, qb: int)
    requires
        4 <= qb <= 64,
        e == 14 - qb / 8,
        16384 <= t <= 30048,
        qb == 64 ==> t == 16384,
        qb < 8 ==> t >= 23170,
    ensures
        1 <= t / pow2(e as nat) as int <= 256,
        pow2(e as nat) <= 16384,
        qb / 8 < 8 ==> t / pow2(e as nat) as int <= 255,
{
    lemma2_to64();
    if e == 6 {
        assert(pow2(e as nat) == 64);
        assert(t / pow2(e as nat) as int == t / 64int);
    } else if e == 7 {
        assert(pow2(e as nat) == 128);
        assert(t / pow2(e as nat) as int == t / 128int);
    } else if e == 8 {
        assert(pow2(e as nat) == 256);
        assert(t / pow2(e as nat) as int == t / 256int);
    } else if e == 9 {
        assert(pow2(e as nat) == 512);
        assert(t / pow2(e as nat) as int == t / 512int);
    } else if e == 10 {
        assert(pow2(e as nat) == 1024);
        assert(t / pow2(e as nat) as int == t / 1024int);
    } else if e == 11 {
        assert(pow2(e as nat) == 2048);
        assert(t / pow2(e as nat) as int == t / 2048int);
    } else if e == 12 {
        assert(pow2(e as nat) == 4096);
        assert(t / pow2(e as nat) as int == t / 4096int);
    } else if e == 13 {
        assert(pow2(e as nat) == 8192);
        assert(t / pow2(e as nat) as int == t / 8192int);
    } else if e == 14 {
        assert(pow2(e as nat) == 16384);
        assert(t / pow2(e as nat) as int == t / 16384int);
    }
}

/// The largest `r`, from `t` on, whose triangle number is not above `x`.
pub open spec fn tri_root(x: int, t: int) -> int
    decreases x - t,
{
    if 0 <= t < x && (t + 1) * (t + 2) / 2 <= x {
        tri_root(x, t + 1)
    } else {
        t
    }
}

pub proof fn lemma_tri_root(x: int, t: int, r: int)
    requires
        0 <= t <= r,
        r * (r + 1) / 2 <= x < (r + 1) * (r + 2) / 2,
    ensures
        tri_root(x, t) == r,
    decreases r - t,
{
    if t < r {
        assert((t + 1) * (t + 2) <= r * (r + 1)) by (nonlinear_arith)
            requires
                0 <= t + 1 <= r,
        ;
        assert(r * (r + 1) / 2 >= r) by (nonlinear_arith)
            requires
                r >= 1,
        ;
        lemma_tri_root(x, t + 1, r);
    }
}

/// The triangle root from a square root.
fn triangle_root(x: u32) -> (r: u32)
    requires
        x <= 0x1_0000,
    ensures
        r == tri_root(x as int, 0),
        r * (r + 1) / 2 <= x < (r + 1) * (r + 2) / 2,
        r <= 1000,
{
    let s: u32 = isqrt32(8 * x + 1);
    proof {
        if s == 0 {
            assert((s + 1) * (s + 1) == 1) by (nonlinear_arith)
                requires
                    s == 0,
            ;
        }
        if s > 1000 {
            assert(s * s >= 1000 * 1000) by (nonlinear_arith)
                requires
                    s >= 1000,
            ;
        }
    }
    let r: u32 = (s - 1) / 2;
    proof {
        let t = r as int;
        let si = s as int;
        assert((2 * t + 1) * (2 * t + 1) <= si * si) by (nonlinear_arith)
            requires
                0 <= 2 * t + 1 <= si,
        ;
        assert((si + 1) * (si + 1) <= (2 * t + 3) * (2 * t + 3)) by (nonlinear_arith)
            requires
                0 <= si + 1 <= 2 * t + 3,
        ;
        assert((2 * t + 1) * (2 * t + 1) == 4 * (t * (t + 1)) + 1) by (nonlinear_arith);
        assert((2 * t + 3) * (2 * t + 3) == 4 * ((t + 1) * (t + 2)) + 1) by (nonlinear_arith);
        lemma_even_product(t);
        lemma_even_product(t + 1);
        lemma_tri_root(x as int, 0, t);
    }
    r
}

/// The product of two neighbours is even.
pub proof fn lemma_even_product(t: int)
    ensures
        t * (t + 1) % 2 == 0,
{
    let h = t / 2;
    if t % 2 == 0 {
        assert(t * (t + 1) == 2 * (h * (t + 1))) by (nonlinear_arith)
            requires
                t == 2 * h,
        ;
    } else {
        assert(t * (t + 1) == 2 * (t * (h + 1))) by (nonlinear_arith)
            requires
                t == 2 * h + 1,
        ;
    }
}

/// How an angle is coded: with a step for a stereo pair, flat for a pair of
/// blocks, with a triangle otherwise.
pub open spec fn uses_step(n: int, stereo: bool) -> bool {
    stereo && n > 2
}

/// The total of the step distribution of an angle of `qn` steps.
pub open spec fn step_total(qn: int) -> int {
    3 * (qn / 2 + 1) + qn / 2
}

/// The symbol of the step distribution at frequency `fs`.
pub open spec fn step_symbol(qn: int, fs: int) -> int {
    let x0 = qn / 2;
    if fs < 3 * (x0 + 1) {
        fs / 3
    } else {
        x0 + 1 + (fs - 3 * (x0 + 1))
    }
}

/// Where a symbol of the step distribution starts.
pub open spec fn step_low(qn: int, x: int) -> int {
    let x0 = qn / 2;
    if x <= x0 {
        3 * x
    } else {
        x - 1 - x0 + 3 * (x0 + 1)
    }
}

/// The size of a symbol of the step distribution.
pub open spec fn step_size(qn: int, x: int) -> int {
    if x <= qn / 2 {
        3
    } else {
        1
    }
}

/// The total of the triangle distribution of an angle of `qn` steps.
pub open spec fn triangle_total(qn: int) -> int {
    (qn / 2 + 1) * (qn / 2 + 1)
}

/// The symbol of the triangle distribution at frequency `fm`.
pub open spec fn triangle_symbol(qn: int, fm: int) -> int {
    let half = qn / 2;
    if fm < half * (half + 1) / 2 {
        tri_root(fm, 0)
    } else {
        qn - tri_root(triangle_total(qn) - fm - 1, 0)
    }
}

/// Where the symbol at frequency `fm` of the triangle distribution starts.
pub open spec fn triangle_low(qn: int, fm: int) -> int {
    let half = qn / 2;
    let x = triangle_symbol(qn, fm);
    if fm < half * (half + 1) / 2 {
        x * (x + 1) / 2
    } else {
        triangle_total(qn) - (qn + 1 - x) * (qn + 2 - x) / 2
    }
}

/// The size of that symbol.
pub open spec fn triangle_size(qn: int, fm: int) -> int {
    let half = qn / 2;
    let x = triangle_symbol(qn, fm);
    if fm < half * (half + 1) / 2 {
        x + 1
    } else {
        qn + 1 - x
    }
}

/// The step of the angle that the stream holds.
pub open spec fn angle_symbol(dec: DecoderState, qn: int, n: int, b0: int, stereo: bool) -> int {
    if uses_step(n, stereo) {
        step_symbol(qn, dec.freq(step_total(qn)))
    } else if b0 > 1 || stereo {
        let x = dec.uint(qn + 1);
        if x < qn + 1 {
            x
        } else {
            0
        }
    } else {
        triangle_symbol(qn, dec.freq(triangle_total(qn)))
    }
}

/// The stream after it.
pub open spec fn after_angle(dec: DecoderState, qn: int, n: int, b0: int, stereo: bool) -> DecoderState {
    if uses_step(n, stereo) {
        let ft = step_total(qn);
        let x = step_symbol(qn, dec.freq(ft));
        dec.narrowed(step_low(qn, x), step_low(qn, x) + step_size(qn, x), ft)
    } else if b0 > 1 || stereo {
        dec.after_uint(qn + 1)
    } else {
        let ft = triangle_total(qn);
        let fm = dec.freq(ft);
        dec.narrowed(triangle_low(qn, fm), triangle_low(qn, fm) + triangle_size(qn, fm), ft)
    }
}

/// The step of the angle of a split, read from the stream.
fn decode_angle(dec: &mut RangeDecoder, qn: i32, n: usize, b0: usize, stereo: bool) -> (r: i32)
    requires
        old(dec).wf(),
        2 <= qn <= 256,
        qn % 2 == 0,
    ensures
        final(dec).wf(),
        r == angle_symbol(old(dec)@, qn as int, n as int, b0 as int, stereo),
        final(dec)@ == after_angle(old(dec)@, qn as int, n as int, b0 as int, stereo),
        0 <= r <= qn,
        old(dec)@.bits <= final(dec)@.bits <= old(dec)@.bits + 48,
{
    if stereo && n > 2 {
        let x0: i32 = qn / 2;
        let ft: u32 = (3 * (x0 + 1) + x0) as u32;
        let fs: i32 = dec.decode(ft) as i32;
        let x: i32 = if fs < 3 * (x0 + 1) {
            fs / 3
        } else {
            x0 + 1 + (fs - 3 * (x0 + 1))
        };
        if x <= x0 {
            dec.update((3 * x) as u32, (3 * x + 3) as u32, ft);
        } else {
            let fl: i32 = x - 1 - x0 + 3 * (x0 + 1);
            dec.update(fl as u32, (fl + 1) as u32, ft);
        }
        x
    } else if b0 > 1 || stereo {
        match dec.decode_uint(qn as u32 + 1) {
            Some(x) => x as i32,
            None => 0,
        }
    } else {
        let half: i32 = qn / 2;
        proof {
            assert(4 <= (half + 1) * (half + 1) <= 129 * 129) by (nonlinear_arith)
                requires
                    1 <= half <= 128,
            ;
            assert(0 <= half * (half + 1) <= (half + 1) * (half + 1)) by (nonlinear_arith)
                requires
                    half >= 0,
            ;
        }
        let ft: u32 = ((half + 1) * (half + 1)) as u32;
        let fm: u32 = dec.decode(ft);
        if (fm as i32) < half * (half + 1) / 2 {
            let x: u32 = triangle_root(fm);
            proof {
                lemma_triangle_low(half as int, fm as int, x as int);
            }
            let fl: u32 = x * (x + 1) / 2;
            dec.update(fl, fl + (x + 1), ft);
            x as i32
        } else {
            let u: u32 = triangle_root(ft - fm - 1);
            proof {
                lemma_triangle_high(half as int, fm as int, u as int);
            }
            let x: i32 = qn - u as i32;
            let fl: u32 = ft - (u + 1) * (u + 2) / 2;
            dec.update(fl, fl + (u + 1), ft);
            x
        }
    }
}

proof fn lemma_triangle_low(half: int, fm: int, x: int)
    requires
        1 <= half <= 128,
        x >= 0,
        fm < half * (half + 1) / 2,
        x * (x + 1) / 2 <= fm < (x + 1) * (x + 2) / 2,
    ensures
        x < half,
        0 <= x * (x + 1) <= 0x1_0000,
        x * (x + 1) / 2 + x + 1 == (x + 1) * (x + 2) / 2,
        x * (x + 1) / 2 + x + 1 <= (half + 1) * (half + 1),
{
    if x >= half {
        assert(x * (x + 1) >= half * (half + 1)) by (nonlinear_arith)
            requires
                x >= half,
                half >= 0,
        ;
    }
    assert((x + 1) * (x + 2) == x * (x + 1) + 2 * (x + 1)) by (nonlinear_arith);
    assert((x + 1) * (x + 2) <= (half + 1) * (half + 1) + (half + 1)) by (nonlinear_arith)
        requires
            0 <= x + 1 <= half,
            half >= 1,
    ;
    assert(half + 1 <= (half + 1) * (half + 1)) by (nonlinear_arith)
        requires
            half >= 1,
    ;
    assert(0 <= x * (x + 1) <= 128 * 129) by (nonlinear_arith)
        requires
            0 <= x < 128,
    ;
    lemma_even_product(x);
}

proof fn lemma_triangle_high(half: int, fm: int, u: int)
    requires
        1 <= half <= 128,
        u >= 0,
        half * (half + 1) / 2 <= fm < (half + 1) * (half + 1),
        u * (u + 1) / 2 <= (half + 1) * (half + 1) - fm - 1 < (u + 1) * (u + 2) / 2,
    ensures
        u <= half,
        0 <= (u + 1) * (u + 2) <= 0x1_0000,
        (u + 1) * (u + 2) / 2 <= (half + 1) * (half + 1),
        (u + 1) * (u + 2) / 2 == u * (u + 1) / 2 + u + 1,
{
    lemma_even_product(half);
    lemma_even_product(half + 1);
    lemma_even_product(u);
    assert((half + 1) * (half + 2) == half * (half + 1) + 2 * (half + 1)) by (nonlinear_arith);
    assert((half + 1) * (half + 1) == half * (half + 1) + (half + 1)) by (nonlinear_arith);
    if u > half {
        assert(u * (u + 1) >= (half + 1) * (half + 2)) by (nonlinear_arith)
            requires
                u >= half + 1,
                half >= 0,
        ;
    }
    assert((u + 1) * (u + 2) == u * (u + 1) + 2 * (u + 1)) by (nonlinear_arith);
    assert((u + 1) * (u + 2) <= (half + 1) * (half + 2)) by (nonlinear_arith)
        requires
            0 <= u <= half,
    ;
    assert(0 <= (u + 1) * (u + 2) <= 129 * 130) by (nonlinear_arith)
        requires
            0 <= u <= 128,
    ;
    assert(half * (half + 1) >= 0) by (nonlinear_arith)
        requires
            half >= 0,
    ;
}

/// What a split knows of its place: the band, the first intensity band and the
/// bits left in the frame.
pub struct SplitPlace {
    pub i: int,
    pub intensity: int,
    pub remaining: int,
}

/// The angle of a split and what reading it took.
pub struct Theta {
    pub inv: bool,
    pub itheta: int,
    pub qalloc: int,
    pub dec: DecoderState,
}

/// The bits a pulse of band `i` at level `lm` takes, at most.
pub open spec fn pulse_cap(i: int, lm: int) -> int {
    LOG_N[i] + 8 * lm
}

/// The number of steps of the angle of a split.
pub open spec fn theta_levels(at: SplitPlace, n: int, b: int, lm: int, stereo: bool) -> int {
    let cap = pulse_cap(at.i, lm);
    if stereo && at.i >= at.intensity {
        1
    } else {
        angle_levels(
            n,
            b,
            cap / 2 - if stereo && n == 2 {
                16int
            } else {
                4
            },
            cap,
            stereo,
        )
    }
}

/// The angle of a split of `n` values with `b` bits, between 0 (all energy in
/// the first half) and 16384 (all in the second). A stereo split with a single
/// step may hold a flag that the second channel is inverted.
#[verifier::opaque]
pub open spec fn theta(
    dec: DecoderState,
    at: SplitPlace,
    n: int,
    b: int,
    b0: int,
    lm: int,
    stereo: bool,
) -> Theta {
    let qn = theta_levels(at, n, b, lm, stereo);
    let flagged = qn == 1 && stereo && b > 16 && at.remaining > 16;
    let after = if qn != 1 {
        after_angle(dec, qn, n, b0, stereo)
    } else if flagged {
        dec.after_bit(2)
    } else {
        dec
    };
    Theta {
        inv: flagged && dec.bit(2),
        itheta: if qn != 1 {
            angle_symbol(dec, qn, n, b0, stereo) * 16384 / qn
        } else {
            0
        },
        qalloc: after.tell_frac() - dec.tell_frac(),
        dec: after,
    }
}

/// The weight of the first half.
pub open spec fn theta_mid(itheta: int) -> int {
    if itheta == 0 {
        32767
    } else if itheta == 16384 {
        0
    } else {
        cos_spec(itheta)
    }
}

/// The weight of the second half.
pub open spec fn theta_side(itheta: int) -> int {
    if itheta == 0 {
        0
    } else if itheta == 16384 {
        32767
    } else {
        cos_spec(16384 - itheta)
    }
}

/// By how much the first half should have fewer bits than the second.
pub open spec fn theta_delta(n: int, itheta: int) -> int {
    if itheta == 0 {
        -16384
    } else if itheta == 16384 {
        16384
    } else {
        frac_mul((n - 1) * 128, log2tan_spec(theta_side(itheta), theta_mid(itheta)))
    }
}

/// The blocks that can still be folded from, once the angle is known.
pub open spec fn theta_fill(fill: u32, big_b: int, itheta: int) -> u32 {
    let mask = (pow2(big_b as nat) - 1) as u32;
    if itheta == 0 {
        fill & mask
    } else if itheta == 16384 {
        fill & (mask << (big_b as u32))
    } else {
        fill
    }
}

/// The angle of a split, with the weights of its halves and the difference
/// between their bits.
pub struct SplitCtx {
    pub inv: bool,
    pub imid: i32,
    pub iside: i32,
    pub delta: i32,
    pub itheta: i32,
    pub qalloc: i32,
}

/// Where a band's decoding stands.
pub struct BandCtx {
    /// The band.
    pub i: usize,
    /// The first band in intensity stereo.
    pub intensity: usize,
    /// The change of time-frequency resolution of the band.
    pub tf_change: i32,
    /// The bits left in the frame, in eighths.
    pub remaining_bits: i32,
    /// The state of the noise generator.
    pub seed: u32,
}

impl BandCtx {
    /// The place that a split of this band is at.
    pub open spec fn place(&self) -> SplitPlace {
        SplitPlace { i: self.i as int, intensity: self.intensity as int, remaining: self.remaining_bits as int }
    }
}

/// Reads the angle that splits a partition in two; takes what that cost off `b`
/// and narrows the blocks in `fill`.
pub fn compute_theta(
    ctx: &BandCtx,
    dec: &mut RangeDecoder,
    n: usize,
    b: &mut i32,
    big_b: usize,
    b0: usize,
    lm: i32,
    stereo: bool,
    fill: &mut u32,
) -> (r: SplitCtx)
    requires
        old(dec).wf(),
        ctx.i < 21,
        2 <= n <= 176,
        -0x400_0000 <= *old(b) <= 0x400_0000,
        1 <= big_b <= 16,
        -1 <= lm <= 3,
    ensures
        final(dec).wf(),
        ({
            let t = theta(old(dec)@, ctx.place(), n as int, *old(b) as int, b0 as int, lm as int, stereo);
            &&& r.inv == t.inv
            &&& r.itheta == t.itheta
            &&& r.qalloc == t.qalloc
            &&& final(dec)@ == t.dec
        }),
        r.imid == theta_mid(r.itheta as int),
        r.iside == theta_side(r.itheta as int),
        r.delta == theta_delta(n as int, r.itheta as int),
        *final(fill) == theta_fill(*old(fill), big_b as int, r.itheta as int),
        *final(b) == *old(b) - r.qalloc,
        0 <= r.itheta <= 16384,
        -71 <= r.qalloc <= 500,
        -32768 <= r.delta <= 32768,
        -32768 <= r.imid <= 32767,
        -32768 <= r.iside <= 32767,
        old(dec)@.bits <= final(dec)@.bits <= old(dec)@.bits + 48,
{
    proof {
        reveal(theta);
    }
    let qn: i32 = split_levels(ctx, n, *b, lm, stereo);
    let tell: i32 = dec.tell_frac() as i32;
    let mut x: i32 = 0;
    let mut inv: bool = false;
    if qn != 1 {
        x = decode_angle(dec, qn, n, b0, stereo);
    } else if stereo {
        if *b > 16 && ctx.remaining_bits > 16 {
            inv = dec.decode_bit_logp(2);
        }
    }
    let qalloc: i32 = dec.tell_frac() as i32 - tell;
    *b = *b - qalloc;
    split_at(inv, qn, x, qalloc, n, big_b, fill)
}

/// The number of steps of the angle of a split.
pub fn split_levels(ctx: &BandCtx, n: usize, b: i32, lm: i32, stereo: bool) -> (r: i32)
    requires
        ctx.i < 21,
        2 <= n <= 176,
        -0x400_0000 <= b <= 0x400_0000,
        -1 <= lm <= 3,
    ensures
        r == theta_levels(ctx.place(), n as int, b as int, lm as int, stereo),
        1 <= r <= 256,
        r != 1 ==> r % 2 == 0,
{
    let i: usize = ctx.i;
    proof {
        modes::lemma_width(i as int);
    }
    let cap: i32 = LOG_N[i] as i32 + 8 * lm;
    let offset: i32 = floor_div(cap, 2) - if stereo && n == 2 {
        16
    } else {
        4
    };
    let qn: i32 = compute_qn(n, b, offset, cap, stereo);
    if stereo && i >= ctx.intensity {
        1
    } else {
        qn
    }
}

/// The angle at step `x` of `qn`, with the weights of the halves and the difference
/// between their bits; narrows the blocks in `fill`.
pub fn split_at(inv: bool, qn: i32, x: i32, qalloc: i32, n: usize, big_b: usize, fill: &mut u32) -> (r: SplitCtx)
    requires
        1 <= qn <= 256,
        0 <= x <= qn,
        qn == 1 ==> x == 0,
        2 <= n <= 176,
        1 <= big_b <= 16,
    ensures
        r.inv == inv,
        r.qalloc == qalloc,
        r.itheta == x * 16384 / qn as int,
        r.imid == theta_mid(r.itheta as int),
        r.iside == theta_side(r.itheta as int),
        r.delta == theta_delta(n as int, r.itheta as int),
        *final(fill) == theta_fill(*old(fill), big_b as int, r.itheta as int),
        0 <= r.itheta <= 16384,
        -32768 <= r.delta <= 32768,
        -32768 <= r.imid <= 32767,
        -32768 <= r.iside <= 32767,
{
    proof {
        if qn > 1 {
            lemma_itheta(x as int, qn as int);
        }
    }
    let itheta: i32 = x * 16384 / qn;
    let mask: u32 = pow2_u32(big_b as u32) - 1;
    if itheta == 0 {
        *fill = *fill & mask;
        SplitCtx { inv, imid: 32767, iside: 0, delta: -16384, itheta, qalloc }
    } else if itheta == 16384 {
        *fill = *fill & (mask << (big_b as u32));
        SplitCtx { inv, imid: 0, iside: 32767, delta: 16384, itheta, qalloc }
    } else {
        let imid: i32 = bitexact_cos(itheta as i16) as i32;
        let iside: i32 = bitexact_cos((16384 - itheta) as i16) as i32;
        proof {
            lemma_cos_positive(itheta as int);
            lemma_cos_positive(16384 - itheta);
        }
        let delta: i32 = frac_mul16((n as i32 - 1) * 128, bitexact_log2tan(iside, imid));
        SplitCtx { inv, imid, iside, delta, itheta, qalloc }
    }
}

/// A proper step of an angle is at least 1/256 away from either end.
proof fn lemma_itheta(x: int, qn: int)
    requires
        0 <= x <= qn,
        2 <= qn <= 256,
    ensures
        0 <= x * 16384 / qn <= 16384,
        x == 0 ==> x * 16384 / qn == 0,
        x == qn ==> x * 16384 / qn == 16384,
        0 < x < qn ==> 64 <= x * 16384 / qn <= 16320,
{
    math::lemma_div(x * 16384, qn);
    let q = x * 16384 / qn;
    if x == 0 {
        math::lemma_div_unique(0, qn, 0);
    } else if x == qn {
        math::lemma_div_unique(qn * 16384, qn, 16384);
    } else {
        if q < 64 {
            assert(qn * q <= qn * 63) by (nonlinear_arith)
                requires
                    q <= 63,
                    qn > 0,
            ;
        }
        if q > 16320 {
            assert(qn * q >= qn * 16321) by (nonlinear_arith)
                requires
                    q >= 16321,
                    qn > 0,
            ;
        }
    }
}

/// Between the ends the cosine stays positive.
proof fn lemma_cos_positive(x: int)
    requires
        64 <= x <= 16320,
    ensures
        0 < cos_spec(x) <= 32767,
{
    let s = (4096 + x * x) / 8192;
    assert(4096 <= x * x <= 16320 * 16320) by (nonlinear_arith)
        requires
            64 <= x <= 16320,
    ;
    let a = frac_mul(-626, s);
    lemma_frac_mul(-626, s, (16384 - 626 * s) / 32768, (16384 - 626 * s) / 32768);
    let t = 8277 + a;
    assert(s * t >= s * 7656) by (nonlinear_arith)
        requires
            s >= 0,
            t >= 7656,
    ;
    assert(s * t <= s * 8277) by (nonlinear_arith)
        requires
            s >= 0,
            t <= 8277,
    ;
    lemma_frac_mul(s, t, (16384 + s * 7656) / 32768, 8277);
    let b = frac_mul(s, t);
    let u = -7651 + b;
    assert(s * u >= s * (-7651 + (16384 + s * 7656) / 32768)) by (nonlinear_arith)
        requires
            s >= 0,
            u >= -7651 + (16384 + s * 7656) / 32768,
    ;
    assert(s * u <= s * 626) by (nonlinear_arith)
        requires
            s >= 0,
            u <= 626,
    ;
    lemma_cos_tail(s, u);
}

proof fn lemma_cos_tail(s: int, u: int)
    requires
        1 <= s <= 32513,
        -7651 <= u <= 626,
        u >= -7651 + (16384 + s * 7656) / 32768,
    ensures
        0 < 1 + (32767 - s) + frac_mul(s, u) <= 32767,
{
    if u < 0 {
        assert(32768 * u <= s * u <= 0) by (nonlinear_arith)
            requires
                0 <= s <= 32768,
                u < 0,
        ;
        lemma_frac_mul(s, u, u, 0);
    } else {
        assert(0 <= s * u <= 626 * s) by (nonlinear_arith)
            requires
                0 <= s,
                0 <= u <= 626,
        ;
        lemma_frac_mul(s, u, 0, (16384 + 626 * s) / 32768);
    }
}

} // verus!
