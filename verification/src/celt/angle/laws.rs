//! What the angles of a split come to: distributions that fill their totals, steps that the
//! bits pay for, weights that mirror each other.

use vstd::arithmetic::power2::{lemma2_to64, pow2};
use vstd::prelude::*;

use crate::celt::angle::{self, lemma_even_product, SplitPlace, EXP2_TABLE8};
use crate::math;
use crate::range::decoder::DecoderState;

verus! {

/// The rounded product of two fractions is off by half a step at most, and takes its factors
/// by their sixteen low bits.
pub proof fn lemma_product(a: int, b: int)
    ensures
        -32768 <= angle::wrap16(a) <= 32767,
        (a - angle::wrap16(a)) % 65536 == 0,
        -32768 <= a <= 32767 ==> angle::wrap16(a) == a,
        ({
            let p = angle::wrap16(a) * angle::wrap16(b);
            &&& 32768 * angle::frac_mul(a, b) - 16384 <= p
            &&& p < 32768 * angle::frac_mul(a, b) + 16384
        }),
{
}

/// The symbols of the step distribution fill its total, one after the other: those of the
/// lower half, with the middle, have three places each, the others one. The symbol at a place
/// is the one that the place is of.
pub proof fn lemma_step_places(qn: int, x: int, fs: int)
    requires
        2 <= qn,
        qn % 2 == 0,
        0 <= x <= qn,
        0 <= fs < angle::step_total(qn),
    ensures
        angle::step_low(qn, 0) == 0,
        angle::step_low(qn, x + 1) == angle::step_low(qn, x) + angle::step_size(qn, x),
        angle::step_low(qn, qn + 1) == angle::step_total(qn),
        2 * x <= qn ==> angle::step_size(qn, x) == 3,
        2 * x > qn ==> angle::step_size(qn, x) == 1,
        angle::step_symbol(qn, fs) == x <==> angle::step_low(qn, x) <= fs < angle::step_low(qn, x) + angle::step_size(
            qn,
            x,
        ),
{
}

/// The root of a triangle number.
proof fn lemma_root(x: int, t: int)
    requires
        0 <= t,
        t * (t + 1) / 2 <= x,
    ensures
        ({
            let r = angle::tri_root(x, t);
            &&& t <= r
            &&& r * (r + 1) / 2 <= x < (r + 1) * (r + 2) / 2
        }),
    decreases x - t,
{
    if t < x && (t + 1) * (t + 2) / 2 <= x {
        lemma_root(x, t + 1);
    } else if t >= x {
        lemma_even_product(t);
        assert((t + 1) * (t + 2) == t * (t + 1) + 2 * (t + 1)) by (nonlinear_arith);
        assert(t * (t + 1) >= 2 * t || t == 0) by (nonlinear_arith)
            requires
                t >= 0,
        ;
        assert(t * (t + 1) >= 0) by (nonlinear_arith)
            requires
                t >= 0,
        ;
    }
}

/// A symbol of the triangle distribution has as many places as it is away from the nearer end,
/// and one more; the place that it was found at is one of them.
pub proof fn lemma_triangle_places(qn: int, fm: int)
    requires
        2 <= qn <= 256,
        qn % 2 == 0,
        0 <= fm < angle::triangle_total(qn),
    ensures
        ({
            let x = angle::triangle_symbol(qn, fm);
            let low = angle::triangle_low(qn, fm);
            let size = angle::triangle_size(qn, fm);
            &&& 0 <= x <= qn
            &&& low <= fm < low + size
            &&& 0 <= low && low + size <= angle::triangle_total(qn)
            &&& 2 * x <= qn ==> size == x + 1
            &&& 2 * x >= qn ==> size == qn - x + 1
        }),
        angle::triangle_total(qn) == (qn / 2 + 1) * (qn / 2 + 1),
{
    let half = qn / 2;
    assert(0 * 1 / 2 == 0int);
    if fm < half * (half + 1) / 2 {
        lemma_root(fm, 0);
        let x = angle::tri_root(fm, 0);
        angle::lemma_triangle_low(half, fm, x);
    } else {
        let y = angle::triangle_total(qn) - fm - 1;
        lemma_root(y, 0);
        let u = angle::tri_root(y, 0);
        angle::lemma_triangle_high(half, fm, u);
        let x = qn - u;
        assert((qn + 1 - x) * (qn + 2 - x) == (u + 1) * (u + 2)) by (nonlinear_arith)
            requires
                x == qn - u,
        ;
    }
}

/// The bits of an angle are a share of the split's for each degree of freedom with what the
/// place adds, and leave the bits of a pulse and four more; eight bits at most.
pub proof fn lemma_angle_bits(n: int, b: int, offset: int, cap: int, stereo: bool)
    requires
        n >= 2,
        b + (2 * n - 1) * offset >= 0,
        b + (2 * n - 2) * offset >= 0,
    ensures
        ({
            let r = angle::angle_bits(n, b, offset, cap, stereo);
            let free = if stereo && n == 2 {
                2
            } else {
                2 * n - 1
            };
            &&& r <= 64
            &&& r <= b - cap - 32
            &&& r * free <= b + free * offset
            &&& r < 64 && r < b - cap - 32 ==> b + free * offset < (r + 1) * free
        }),
{
    let free = if stereo && n == 2 {
        2
    } else {
        2 * n - 1
    };
    let x = b + free * offset;
    math::lemma_div(x, free);
    let q = x / free;
    let r = angle::angle_bits(n, b, offset, cap, stereo);
    assert(r * free <= q * free) by (nonlinear_arith)
        requires
            r <= q,
            free >= 1,
    ;
    assert(q * free == free * q && (q + 1) * free == free * q + free) by (nonlinear_arith);
}

/// An angle has one step or an even number up to 256: two to the power of its bits where those
/// are whole.
pub proof fn lemma_angle_levels(n: int, b: int, offset: int, cap: int, stereo: bool, whole: int)
    ensures
        ({
            let qb = angle::angle_bits(n, b, offset, cap, stereo);
            let r = angle::angle_levels(n, b, offset, cap, stereo);
            &&& qb < 4 ==> r == 1
            &&& qb >= 4 ==> r % 2 == 0 && 2 <= r <= 256
            &&& 1 <= whole <= 8 && qb == 8 * whole ==> r == pow2(whole as nat)
        }),
{
    let qb = angle::angle_bits(n, b, offset, cap, stereo);
    if qb >= 4 {
        lemma2_to64();
        angle::lemma_exp2_table(qb % 8);
        let t = EXP2_TABLE8[qb % 8] as int;
        let e = 14 - qb / 8;
        angle::lemma_qn_range(t, e, qb);
        if 1 <= whole <= 8 && qb == 8 * whole {
            assert(qb % 8 == 0);
            assert(t == 16384);
            assert(e == 14 - whole);
            if whole == 1 {
                assert(pow2(e as nat) == 8192 && 16384int / 8192 == 2);
            } else if whole == 2 {
                assert(pow2(e as nat) == 4096 && 16384int / 4096 == 4);
            } else if whole == 3 {
                assert(pow2(e as nat) == 2048 && 16384int / 2048 == 8);
            } else if whole == 4 {
                assert(pow2(e as nat) == 1024 && 16384int / 1024 == 16);
            } else if whole == 5 {
                assert(pow2(e as nat) == 512 && 16384int / 512 == 32);
            } else if whole == 6 {
                assert(pow2(e as nat) == 256 && 16384int / 256 == 64);
            } else if whole == 7 {
                assert(pow2(e as nat) == 128 && 16384int / 128 == 128);
            } else {
                assert(pow2(e as nat) == 64 && 16384int / 64 == 256);
            }
        }
    }
}

/// Bands in intensity stereo have no angle, only a flag that the second channel is inverted
/// where there are bits for it; a split within a channel has neither then. An angle is between
/// none and a quarter turn, and what it cost is what was read.
pub proof fn lemma_angle(d: DecoderState, at: SplitPlace, n: int, b: int, b0: int, lm: int, stereo: bool)
    ensures
        ({
            let t = angle::theta(d, at, n, b, b0, lm, stereo);
            &&& stereo && at.i >= at.intensity ==> t.itheta == 0
            &&& t.inv ==> stereo && t.itheta == 0 && b > 16 && at.remaining > 16
            &&& !stereo && angle::theta_levels(at, n, b, lm, stereo) == 1 ==> t.dec == d && t.itheta == 0
            &&& t.qalloc == t.dec.tell_frac() - d.tell_frac()
            &&& stereo && at.i >= at.intensity && (b <= 16 || at.remaining <= 16) ==> t.dec == d
            &&& stereo && at.i >= at.intensity && b > 16 && at.remaining > 16 ==> t.dec == d.after_bit(2) && t.inv
                == d.bit(2)
        }),
{
    reveal(angle::theta);
}

/// The weights of the halves mirror each other; all energy in one half leaves nothing for the
/// other, and no blocks of it to fold from.
pub proof fn lemma_mirrored(itheta: int, n: int)
    ensures
        angle::theta_mid(itheta) == angle::theta_side(16384 - itheta),
        angle::theta_mid(0) == 32767 && angle::theta_side(0) == 0,
        angle::theta_mid(16384) == 0 && angle::theta_side(16384) == 32767,
        angle::theta_delta(n, 0) == -16384,
        angle::theta_delta(n, 16384) == 16384,
{
}

/// Where all energy is in one half, only the blocks of that half are left to fold from; the
/// blocks of both are left else.
pub proof fn lemma_fill_left(fill: u32, big_b: int, itheta: int)
    requires
        1 <= big_b <= 8,
    ensures
        itheta == 0 ==> angle::theta_fill(fill, big_b, itheta) < pow2(big_b as nat),
        itheta != 0 && itheta != 16384 ==> angle::theta_fill(fill, big_b, itheta) == fill,
        itheta == 16384 ==> angle::theta_fill(fill, big_b, itheta) & ((pow2(big_b as nat) - 1) as u32) == 0,
{
    lemma2_to64();
    let p = pow2(big_b as nat) as int;
    assert(big_b == 1 || big_b == 2 || big_b == 3 || big_b == 4 || big_b == 5 || big_b == 6 || big_b == 7 || big_b == 8);
    let mask = (p - 1) as u32;
    let b = big_b as u32;
    assert(fill & mask <= mask) by (bit_vector);
    assert((fill & (mask << b)) & mask == 0) by (bit_vector)
        requires
            b == 1 && mask == 1 || b == 2 && mask == 3 || b == 3 && mask == 7 || b == 4 && mask == 15 || b == 5 && mask
                == 31 || b == 6 && mask == 63 || b == 7 && mask == 127 || b == 8 && mask == 255,
    ;
}

/// The angle of a split within a channel has half of what a pulse takes, less half a bit, added
/// to its share; that of two channels of two values two bits less.
pub proof fn lemma_theta_levels(at: SplitPlace, n: int, b: int, lm: int)
    ensures
        ({
            let cap = crate::celt::modes::LOG_N[at.i] + 8 * lm;
            &&& angle::theta_levels(at, n, b, lm, false) == angle::angle_levels(n, b, cap / 2 - 4, cap, false)
            &&& at.i >= at.intensity ==> angle::theta_levels(at, n, b, lm, true) == 1
            &&& at.i < at.intensity && n == 2 ==> angle::theta_levels(at, n, b, lm, true) == angle::angle_levels(
                n,
                b,
                cap / 2 - 16,
                cap,
                true,
            )
            &&& at.i < at.intensity && n > 2 ==> angle::theta_levels(at, n, b, lm, true) == angle::angle_levels(
                n,
                b,
                cap / 2 - 4,
                cap,
                true,
            )
        }),
{
}

} // verus!
