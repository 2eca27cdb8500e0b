//! What the bit allocation is for: a tilt that the trim sets, reserves that pay for their
//! parameters, the best quality that fits, boosted bands that stay, and bits that all reach
//! a band.

use vstd::arithmetic::power2::{lemma2_to64, pow2};
use vstd::prelude::*;

use crate::celt::modes;
use crate::celt::rate::{self, AllocInput, Settled};
use crate::celt::tables::{BAND_ALLOCATION, LOG2_FRAC_TABLE};
use crate::math;
use crate::range::decoder::DecoderState;

verus! {

/// Floors keep an order.
proof fn lemma_floor_order(x: int, y: int, d: int)
    requires
        x <= y,
        d > 0,
    ensures
        x / d <= y / d,
{
    vstd::arithmetic::div_mod::lemma_div_is_ordered(x, y, d);
}

/// The products that the tilt is made of.
proof fn lemma_tilt_product(c: int, w: int, u: int, k: int, m: int)
    ensures
        c * w * u * k * m == u * (c * w * k * m),
{
    assert(c * w * u * k * m == u * (c * w * k * m)) by (nonlinear_arith);
}

/// More trim never gives a band less: of two allocations that differ in the trim alone, the
/// one with more has at least the budget of the other in every band at every static
/// quality.
pub proof fn lemma_trim_raises(a: AllocInput, more: int, q: int, j: int)
    requires
        a.wf(),
        a.trim <= more <= 10,
        0 <= q <= 10,
        a.start <= j < a.end,
    ensures
        ({
            let b = AllocInput { trim: more, ..a };
            &&& a.trim_offset(j) <= b.trim_offset(j)
            &&& a.quality(q)[j] <= b.quality(q)[j]
            &&& forall|x: int| #[trigger] a.tilted(x, j) <= b.tilted(x, j)
        }),
{
    let b = AllocInput { trim: more, ..a };
    let w = modes::width(j);
    let m = 8 * modes::frame_mult(a.lm);
    let k = a.end - j - 1;
    modes::lemma_width(j);
    lemma_tilt_product(a.c, w, a.trim - 5 - a.lm, k, m);
    lemma_tilt_product(a.c, w, more - 5 - a.lm, k, m);
    let p = a.c * w * k * m;
    assert(p >= 0) by (nonlinear_arith)
        requires
            p == a.c * w * k * m,
            a.c >= 1,
            w >= 1,
            k >= 0,
            m >= 1,
    ;
    assert((a.trim - 5 - a.lm) * p <= (more - 5 - a.lm) * p) by (nonlinear_arith)
        requires
            a.trim <= more,
            p >= 0,
    ;
    lemma_floor_order((a.trim - 5 - a.lm) * p, (more - 5 - a.lm) * p, 64);
    assert(a.table_bits(q, j) == b.table_bits(q, j));
}

/// The tilt of a band is proportional to its bins, to how far the trim is from the neutral
/// one and to how many bands are above it, in steps of a 64th of a bit, rounded down; a band
/// of a single bin has a bit per channel less.
pub proof fn lemma_tilt(a: AllocInput, j: int)
    requires
        a.wf(),
        a.start <= j < a.end,
    ensures
        ({
            let n = modes::width(j) * modes::frame_mult(a.lm);
            let tilt = a.trim_offset(j) + if n == 1 {
                8 * a.c
            } else {
                0
            };
            &&& 8 * tilt <= a.c * n * ((a.trim - 5 - a.lm) * (a.end - 1 - j))
            &&& a.c * n * ((a.trim - 5 - a.lm) * (a.end - 1 - j)) < 8 * tilt + 8
        }),
{
    let w = modes::width(j);
    let m = modes::frame_mult(a.lm);
    let u = a.trim - 5 - a.lm;
    let k = a.end - j - 1;
    let x = a.c * w * u * k * (8 * m);
    let y = a.c * (w * m) * (u * k);
    assert(x == 8 * y) by (nonlinear_arith)
        requires
            x == a.c * w * u * k * (8 * m),
            y == a.c * (w * m) * (u * k),
    ;
    assert(a.end - 1 - j == k);
}

/// With the neutral trim, five and one for each doubling of the frame, no band is tilted:
/// its budgets are those of the static table and its boost. The last band is never tilted.
pub proof fn lemma_neutral_trim(a: AllocInput, q: int, j: int)
    requires
        a.wf(),
        0 <= q <= 10,
        a.start <= j < a.end,
        a.trim == 5 + a.lm || j == a.end - 1,
        modes::width(j) * modes::frame_mult(a.lm) > 1,
    ensures
        a.trim_offset(j) == 0,
        a.quality(q)[j] == a.table_bits(q, j) + a.offsets[j],
        forall|x: int| #[trigger] a.tilted(x, j) == x,
{
    lemma_tilt(a, j);
    let n = modes::width(j) * modes::frame_mult(a.lm);
    let v = (a.trim - 5 - a.lm) * (a.end - 1 - j);
    assert(v == 0) by (nonlinear_arith)
        requires
            v == (a.trim - 5 - a.lm) * (a.end - 1 - j),
            a.trim - 5 - a.lm == 0 || a.end - 1 - j == 0,
    ;
    assert(a.c * n * v == 0) by (nonlinear_arith)
        requires
            v == 0,
    ;
    a.lemma_table_bits(q, j);
}

/// A trim above the neutral one favours the low bands, one below it the high ones: with more
/// trim a band gains no less for its bins than one above it of as many bins.
pub proof fn lemma_trim_tilts(a: AllocInput, i: int, j: int)
    requires
        a.wf(),
        a.start <= i < j < a.end,
        modes::width(i) == modes::width(j),
    ensures
        a.trim >= 5 + a.lm ==> a.trim_offset(i) >= a.trim_offset(j),
        a.trim <= 5 + a.lm ==> a.trim_offset(i) <= a.trim_offset(j),
        modes::width(j) * modes::frame_mult(a.lm) > 1 && a.trim >= 5 + a.lm ==> a.trim_offset(j) >= 0,
        a.trim <= 5 + a.lm ==> a.trim_offset(j) <= 0,
{
    lemma_tilt(a, i);
    lemma_tilt(a, j);
    let n = modes::width(j) * modes::frame_mult(a.lm);
    modes::lemma_width(j);
    let u = a.trim - 5 - a.lm;
    let p = a.c * n;
    assert(p >= 0) by (nonlinear_arith)
        requires
            p == a.c * (modes::width(j) * modes::frame_mult(a.lm)),
            a.c >= 1,
            modes::width(j) >= 1,
            modes::frame_mult(a.lm) >= 1,
    ;
    let ki = a.end - 1 - i;
    let kj = a.end - 1 - j;
    if u >= 0 {
        assert(0 <= u * kj <= u * ki) by (nonlinear_arith)
            requires
                u >= 0,
                0 <= kj <= ki,
        ;
        assert(0 <= p * (u * kj) <= p * (u * ki)) by (nonlinear_arith)
            requires
                p >= 0,
                0 <= u * kj <= u * ki,
        ;
    }
    if u <= 0 {
        assert(u * ki <= u * kj <= 0) by (nonlinear_arith)
            requires
                u <= 0,
                0 <= kj <= ki,
        ;
        assert(p * (u * ki) <= p * (u * kj) <= 0) by (nonlinear_arith)
            requires
                p >= 0,
                u * ki <= u * kj <= 0,
        ;
    }
}

/// Levels count pulses one by one up to 16, and eight to an octave from there on: eight levels
/// more are twice the pulses.
pub proof fn lemma_level_pulses(q: int)
    requires
        0 <= q,
    ensures
        q <= 16 ==> rate::level_pulses(q) == q,
        q >= 8 ==> rate::level_pulses(q + 8) == 2 * rate::level_pulses(q),
        rate::level_pulses(q) < rate::level_pulses(q + 1),
{
    lemma2_to64();
    if q >= 8 {
        let e = (q / 8 - 1) as nat;
        vstd::arithmetic::power2::lemma_pow2_unfold((e + 1) as nat);
        vstd::arithmetic::power2::lemma_pow2_pos(e);
        let p = pow2(e) as int;
        let a = 8 + q % 8;
        assert(rate::level_pulses(q) == a * p);
        assert((q + 8) / 8 - 1 == e + 1 && (q + 8) % 8 == q % 8);
        assert(a * (2 * p) == 2 * (a * p)) by (nonlinear_arith);
        if q % 8 < 7 {
            assert((q + 1) / 8 == q / 8 && (q + 1) % 8 == q % 8 + 1);
            assert((a + 1) * p == a * p + p) by (nonlinear_arith);
        } else {
            assert((q + 1) / 8 == q / 8 + 1 && (q + 1) % 8 == 0);
            assert(15 * p < 8 * (2 * p)) by (nonlinear_arith)
                requires
                    p >= 1,
            ;
            assert(a * p == 15 * p) by (nonlinear_arith)
                requires
                    a == 15,
            ;
        }
    }
    if 8 <= q < 16 {
        assert(q / 8 - 1 == 0 && 8 + q % 8 == q);
        assert(q * 1 == q);
    } else if q == 16 {
        assert(16int / 8 - 1 == 1 && 16int % 8 == 0);
        assert(pow2(1) == 2);
    } else if q == 7 {
        assert(8int / 8 - 1 == 0 && 8int % 8 == 0);
        assert(pow2(0) == 1);
        assert(rate::level_pulses(8) == 8 * pow2(0));
    }
}

/// The static budget of a band is its share of the table in 32nds of a bit for each of its
/// coefficients, in eighths of a bit, rounded down; a longer frame has as much for each.
pub proof fn lemma_table_share(a: AllocInput, q: int, j: int)
    requires
        a.wf(),
        0 <= q <= 10,
        0 <= j < 21,
    ensures
        ({
            let n = a.c * (modes::width(j) * modes::frame_mult(a.lm));
            &&& 4 * a.table_bits(q, j) <= n * BAND_ALLOCATION[q * 21 + j]
            &&& n * BAND_ALLOCATION[q * 21 + j] < 4 * a.table_bits(q, j) + 4
        }),
        a.table_bits(0, j) == 0,
{
    reveal(BAND_ALLOCATION);
    let w = modes::width(j);
    let m = modes::frame_mult(a.lm);
    let t = BAND_ALLOCATION[q * 21 + j] as int;
    let x = a.c * w * t * m;
    assert(x == a.c * (w * m) * t) by (nonlinear_arith)
        requires
            x == a.c * w * t * m,
    ;
    let z = BAND_ALLOCATION[j] as int;
    assert(z == 0) by {
        assert(j == 0 || j == 1 || j == 2 || j == 3 || j == 4 || j == 5 || j == 6 || j == 7 || j == 8 || j == 9 || j
            == 10 || j == 11 || j == 12 || j == 13 || j == 14 || j == 15 || j == 16 || j == 17 || j == 18 || j == 19
            || j == 20);
    }
    assert(a.c * w * z * m == 0) by (nonlinear_arith)
        requires
            z == 0,
    ;
}

/// What the intensity parameter needs is the information in one of its values, in eighths
/// of a bit, rounded up: the eighth power of their number is between two powers of two.
pub proof fn lemma_intensity_price(a: AllocInput)
    requires
        a.wf(),
    ensures
        ({
            let v = (a.end - a.start + 1) as nat;
            let eighth = v * v * v * v * v * v * v * v;
            &&& eighth <= pow2(a.intensity_need() as nat)
            &&& pow2((a.intensity_need() - 1) as nat) < eighth
        }),
{
    reveal(LOG2_FRAC_TABLE);
    lemma2_to64();
    let i = a.end - a.start;
    let v = (i + 1) as nat;
    assert(i == 1 || i == 2 || i == 3 || i == 4 || i == 5 || i == 6 || i == 7 || i == 8 || i == 9 || i == 10 || i == 11
        || i == 12 || i == 13 || i == 14 || i == 15 || i == 16 || i == 17 || i == 18 || i == 19 || i == 20 || i == 21);
    vstd::arithmetic::power2::lemma_pow2_unfold(33);
    vstd::arithmetic::power2::lemma_pow2_unfold(34);
    vstd::arithmetic::power2::lemma_pow2_unfold(35);
    vstd::arithmetic::power2::lemma_pow2_unfold(36);
    lemma_eighth(v);
}

/// The eighth powers of the numbers of values.
proof fn lemma_eighth(v: nat)
    requires
        2 <= v <= 22,
    ensures
        v * v * v * v * v * v * v * v == eighth_of(v as int),
{
    let x2 = v * v;
    let x4 = x2 * x2;
    let x8 = v * v * v * v * v * v * v * v;
    assert(x8 == x4 * x4) by (nonlinear_arith)
        requires
            x2 == v * v,
            x4 == x2 * x2,
            x8 == v * v * v * v * v * v * v * v,
    ;
    if v == 2 {
        assert(x2 == 4);
        assert(x4 == 16) by (nonlinear_arith)
            requires
                x4 == x2 * x2,
                x2 == 4,
        ;
        assert(x8 == 256) by (nonlinear_arith)
            requires
                x8 == x4 * x4,
                x4 == 16,
        ;
    } else if v == 3 {
        assert(x2 == 9);
        assert(x4 == 81) by (nonlinear_arith)
            requires
                x4 == x2 * x2,
                x2 == 9,
        ;
        assert(x8 == 6561) by (nonlinear_arith)
            requires
                x8 == x4 * x4,
                x4 == 81,
        ;
    } else if v == 4 {
        assert(x2 == 16);
        assert(x4 == 256) by (nonlinear_arith)
            requires
                x4 == x2 * x2,
                x2 == 16,
        ;
        assert(x8 == 65536) by (nonlinear_arith)
            requires
                x8 == x4 * x4,
                x4 == 256,
        ;
    } else if v == 5 {
        assert(x2 == 25);
        assert(x4 == 625) by (nonlinear_arith)
            requires
                x4 == x2 * x2,
                x2 == 25,
        ;
        assert(x8 == 390625) by (nonlinear_arith)
            requires
                x8 == x4 * x4,
                x4 == 625,
        ;
    } else if v == 6 {
        assert(x2 == 36);
        assert(x4 == 1296) by (nonlinear_arith)
            requires
                x4 == x2 * x2,
                x2 == 36,
        ;
        assert(x8 == 1679616) by (nonlinear_arith)
            requires
                x8 == x4 * x4,
                x4 == 1296,
        ;
    } else if v == 7 {
        assert(x2 == 49);
        assert(x4 == 2401) by (nonlinear_arith)
            requires
                x4 == x2 * x2,
                x2 == 49,
        ;
        assert(x8 == 5764801) by (nonlinear_arith)
            requires
                x8 == x4 * x4,
                x4 == 2401,
        ;
    } else if v == 8 {
        assert(x2 == 64);
        assert(x4 == 4096) by (nonlinear_arith)
            requires
                x4 == x2 * x2,
                x2 == 64,
        ;
        assert(x8 == 16777216) by (nonlinear_arith)
            requires
                x8 == x4 * x4,
                x4 == 4096,
        ;
    } else if v == 9 {
        assert(x2 == 81);
        assert(x4 == 6561) by (nonlinear_arith)
            requires
                x4 == x2 * x2,
                x2 == 81,
        ;
        assert(x8 == 43046721) by (nonlinear_arith)
            requires
                x8 == x4 * x4,
                x4 == 6561,
        ;
    } else if v == 10 {
        assert(x2 == 100);
        assert(x4 == 10000) by (nonlinear_arith)
            requires
                x4 == x2 * x2,
                x2 == 100,
        ;
        assert(x8 == 100000000) by (nonlinear_arith)
            requires
                x8 == x4 * x4,
                x4 == 10000,
        ;
    } else if v == 11 {
        assert(x2 == 121);
        assert(x4 == 14641) by (nonlinear_arith)
            requires
                x4 == x2 * x2,
                x2 == 121,
        ;
        assert(x8 == 214358881) by (nonlinear_arith)
            requires
                x8 == x4 * x4,
                x4 == 14641,
        ;
    } else if v == 12 {
        assert(x2 == 144);
        assert(x4 == 20736) by (nonlinear_arith)
            requires
                x4 == x2 * x2,
                x2 == 144,
        ;
        assert(x8 == 429981696) by (nonlinear_arith)
            requires
                x8 == x4 * x4,
                x4 == 20736,
        ;
    } else if v == 13 {
        assert(x2 == 169);
        assert(x4 == 28561) by (nonlinear_arith)
            requires
                x4 == x2 * x2,
                x2 == 169,
        ;
        assert(x8 == 815730721) by (nonlinear_arith)
            requires
                x8 == x4 * x4,
                x4 == 28561,
        ;
    } else if v == 14 {
        assert(x2 == 196);
        assert(x4 == 38416) by (nonlinear_arith)
            requires
                x4 == x2 * x2,
                x2 == 196,
        ;
        assert(x8 == 1475789056) by (nonlinear_arith)
            requires
                x8 == x4 * x4,
                x4 == 38416,
        ;
    } else if v == 15 {
        assert(x2 == 225);
        assert(x4 == 50625) by (nonlinear_arith)
            requires
                x4 == x2 * x2,
                x2 == 225,
        ;
        assert(x8 == 2562890625) by (nonlinear_arith)
            requires
                x8 == x4 * x4,
                x4 == 50625,
        ;
    } else if v == 16 {
        assert(x2 == 256);
        assert(x4 == 65536) by (nonlinear_arith)
            requires
                x4 == x2 * x2,
                x2 == 256,
        ;
        assert(x8 == 4294967296) by (nonlinear_arith)
            requires
                x8 == x4 * x4,
                x4 == 65536,
        ;
    } else if v == 17 {
        assert(x2 == 289);
        assert(x4 == 83521) by (nonlinear_arith)
            requires
                x4 == x2 * x2,
                x2 == 289,
        ;
        assert(x8 == 6975757441) by (nonlinear_arith)
            requires
                x8 == x4 * x4,
                x4 == 83521,
        ;
    } else if v == 18 {
        assert(x2 == 324);
        assert(x4 == 104976) by (nonlinear_arith)
            requires
                x4 == x2 * x2,
                x2 == 324,
        ;
        assert(x8 == 11019960576) by (nonlinear_arith)
            requires
                x8 == x4 * x4,
                x4 == 104976,
        ;
    } else if v == 19 {
        assert(x2 == 361);
        assert(x4 == 130321) by (nonlinear_arith)
            requires
                x4 == x2 * x2,
                x2 == 361,
        ;
        assert(x8 == 16983563041) by (nonlinear_arith)
            requires
                x8 == x4 * x4,
                x4 == 130321,
        ;
    } else if v == 20 {
        assert(x2 == 400);
        assert(x4 == 160000) by (nonlinear_arith)
            requires
                x4 == x2 * x2,
                x2 == 400,
        ;
        assert(x8 == 25600000000) by (nonlinear_arith)
            requires
                x8 == x4 * x4,
                x4 == 160000,
        ;
    } else if v == 21 {
        assert(x2 == 441);
        assert(x4 == 194481) by (nonlinear_arith)
            requires
                x4 == x2 * x2,
                x2 == 441,
        ;
        assert(x8 == 37822859361) by (nonlinear_arith)
            requires
                x8 == x4 * x4,
                x4 == 194481,
        ;
    } else if v == 22 {
        assert(x2 == 484);
        assert(x4 == 234256) by (nonlinear_arith)
            requires
                x4 == x2 * x2,
                x2 == 484,
        ;
        assert(x8 == 54875873536) by (nonlinear_arith)
            requires
                x8 == x4 * x4,
                x4 == 234256,
        ;
    }
}

spec fn eighth_of(v: int) -> int {
    if v == 2 {
        256
    } else if v == 3 {
        6561
    } else if v == 4 {
        65536
    } else if v == 5 {
        390625
    } else if v == 6 {
        1679616
    } else if v == 7 {
        5764801
    } else if v == 8 {
        16777216
    } else if v == 9 {
        43046721
    } else if v == 10 {
        100000000
    } else if v == 11 {
        214358881
    } else if v == 12 {
        429981696
    } else if v == 13 {
        815730721
    } else if v == 14 {
        1475789056
    } else if v == 15 {
        2562890625
    } else if v == 16 {
        4294967296
    } else if v == 17 {
        6975757441
    } else if v == 18 {
        11019960576
    } else if v == 19 {
        16983563041
    } else if v == 20 {
        25600000000
    } else if v == 21 {
        37822859361
    } else {
        54875873536
    }
}

/// Nothing of the frame's budget is lost to the reserves: what is kept back for the flag of
/// the dropped bands, the intensity parameter and the dual stereo flag, and what is left for
/// the bands, are the whole budget. Each reserve is made where the budget holds it, those of
/// the stereo parameters only for two channels.
pub proof fn lemma_reserves(a: AllocInput)
    requires
        a.wf(),
    ensures
        a.total >= 0 ==> a.budget() + a.skip_rsv() + a.intensity_rsv() + a.dual_rsv() == a.total,
        a.total < 0 ==> a.budget() == 0 && a.skip_rsv() == 0 && a.intensity_rsv() == 0 && a.dual_rsv() == 0,
        a.budget() >= 0,
        a.skip_rsv() == 0 || a.skip_rsv() == 8,
        a.skip_rsv() == 8 <==> a.total >= 8,
        a.c == 1 ==> a.intensity_rsv() == 0 && a.dual_rsv() == 0,
        a.c == 2 && a.total >= 8 + a.intensity_need() ==> a.intensity_rsv() == a.intensity_need(),
        a.intensity_rsv() == 0 ==> a.dual_rsv() == 0,
        a.intensity_rsv() == 0 || a.intensity_rsv() == a.intensity_need(),
        a.intensity_rsv() > 0 ==> a.total >= 8 + a.intensity_need(),
        a.c == 2 && a.total >= 16 + a.intensity_need() ==> a.dual_rsv() == 8,
        a.dual_rsv() == 0 || a.dual_rsv() == 8,
        a.dual_rsv() == 8 ==> a.total >= 16 + a.intensity_need(),
{
    rate::lemma_log2_frac(a.end - a.start);
}

/// A band gets shape bits from a bit per channel and three sixteenths of a bit per bin on,
/// whichever is more.
pub proof fn lemma_threshold(a: AllocInput, j: int)
    requires
        a.wf(),
        0 <= j < 21,
    ensures
        ({
            let n = modes::width(j) * modes::frame_mult(a.lm);
            &&& a.thresh(j) >= 8 * a.c
            &&& 2 * a.thresh(j) + 1 >= 3 * n
            &&& a.thresh(j) == 8 * a.c || 2 * a.thresh(j) == 3 * n || 2 * a.thresh(j) + 1 == 3 * n
        }),
{
}

/// A band takes no more than it is given, nor than its cap where it is shaped; one that
/// reaches its threshold, or is below one that does, takes all that its cap allows; any
/// other takes one fine bit per channel or nothing.
pub proof fn lemma_taken(a: AllocInput, b: Seq<int>, i: int, j: int)
    requires
        a.wf(),
        a.start <= i <= j < a.end,
        forall|k: int| a.start <= k < a.end ==> #[trigger] b[k] >= 0,
    ensures
        0 <= a.paid(b, j) <= b[j],
        b[j] >= a.thresh(j) ==> a.paid(b, i) == if b[i] <= a.cap[i] {
            b[i]
        } else {
            a.cap[i]
        },
        (forall|k: int| i <= k < a.end ==> #[trigger] b[k] < a.thresh(k)) ==> a.paid(b, i) == if b[i] >= 8 * a.c {
            8 * a.c
        } else {
            0
        },
{
    if b[j] >= a.thresh(j) {
        lemma_reached_above(a, b, i, j);
    }
    if forall|k: int| i <= k < a.end ==> #[trigger] b[k] < a.thresh(k) {
        lemma_none_reached(a, b, i);
    }
}

proof fn lemma_reached_above(a: AllocInput, b: Seq<int>, i: int, j: int)
    requires
        i <= j < a.end,
        b[j] >= a.thresh(j),
    ensures
        a.reached(b, i),
    decreases j - i,
{
    if i < j {
        lemma_reached_above(a, b, i + 1, j);
    }
}

proof fn lemma_none_reached(a: AllocInput, b: Seq<int>, i: int)
    requires
        forall|k: int| i <= k < a.end ==> #[trigger] b[k] < a.thresh(k),
    ensures
        !a.reached(b, i),
    decreases a.end - i,
{
    if i < a.end {
        lemma_none_reached(a, b, i + 1);
    }
}

/// The search ends between a static quality that fits the budget and one that does not: the
/// lower one fits, unless it is none, and the upper one does not, unless it is above the
/// best.
pub proof fn lemma_bracket(a: AllocInput)
    requires
        a.wf(),
    ensures
        1 <= a.q_hi() <= 11,
        a.q_hi() > 1 ==> a.spent(a.quality(a.q_hi() - 1), a.start) <= a.budget(),
        a.q_hi() < 11 ==> a.spent(a.quality(a.q_hi()), a.start) > a.budget(),
{
    a.lemma_quality();
    lemma_search_above(a, 1, 10);
}

proof fn lemma_search_above(a: AllocInput, lo: int, hi: int)
    requires
        1 <= lo <= hi + 1,
        hi <= 10,
        hi == 10 || !a.fits(hi + 1),
    ensures
        lo <= a.search(lo, hi) <= hi + 1,
        a.search(lo, hi) == 11 || !a.fits(a.search(lo, hi)),
    decreases hi - lo + 1,
{
    if lo <= hi {
        let mid = (lo + hi) / 2;
        if a.fits(mid) {
            lemma_search_above(a, mid + 1, hi);
        } else {
            lemma_search_above(a, lo, mid - 1);
        }
    }
}

/// Between the two qualities the most 64ths of the step are taken that fit: those fit the
/// budget, and one more would not.
pub proof fn lemma_finest(a: AllocInput)
    requires
        a.wf(),
    ensures
        ({
            let f = a.bisect(0, 64, 6);
            &&& 0 <= f < 64
            &&& a.spent(a.blend(f), a.start) <= a.budget()
            &&& f < 63 ==> a.spent(a.blend(f + 1), a.start) > a.budget()
            &&& forall|j: int|
                a.start <= j < a.end ==> 0 <= #[trigger] a.first_bits()[j] <= a.cap[j]
        }),
{
    a.lemma_blend_fits();
    lemma2_to64();
    lemma_bisect_above(a, 0, 64, 6);
    a.lemma_skip_init();
}

proof fn lemma_bisect_above(a: AllocInput, lo: int, hi: int, steps: nat)
    requires
        hi - lo == pow2(steps),
        hi == 64 || a.spent(a.blend(hi), a.start) > a.budget(),
        hi <= 64,
    ensures
        lo <= a.bisect(lo, hi, steps) < hi,
        a.bisect(lo, hi, steps) == 63 || a.spent(a.blend(a.bisect(lo, hi, steps) + 1), a.start) > a.budget(),
    decreases steps,
{
    if steps == 0 {
        vstd::arithmetic::power2::lemma2_to64();
    } else {
        vstd::arithmetic::power2::lemma_pow2_unfold(steps);
        vstd::arithmetic::power2::lemma_pow2_pos((steps - 1) as nat);
        let mid = (lo + hi) / 2;
        assert(mid == lo + pow2((steps - 1) as nat));
        if a.spent(a.blend(mid), a.start) > a.budget() {
            lemma_bisect_above(a, lo, mid, (steps - 1) as nat);
        } else {
            lemma_bisect_above(a, mid, hi, (steps - 1) as nat);
        }
    }
}

/// The budgets between the two qualities go from the lower to the upper one as the step
/// does, and never below the lower.
pub proof fn lemma_between_levels(a: AllocInput, f: int, j: int)
    requires
        a.wf(),
        0 <= f <= 64,
        a.start <= j < a.end,
    ensures
        a.blend(0)[j] == a.low_bits(j),
        a.high_bits(j) >= a.low_bits(j) ==> a.blend(64)[j] == a.high_bits(j),
        a.high_bits(j) < a.low_bits(j) ==> a.blend(f)[j] == a.low_bits(j),
        a.low_bits(j) <= a.blend(f)[j],
        a.high_bits(j) >= a.low_bits(j) ==> a.blend(f)[j] <= a.high_bits(j),
        f < 64 ==> a.blend(f)[j] <= a.blend(f + 1)[j],
{
    a.lemma_levels(j);
    let s = a.step_bits(j);
    assert(0 * s == 0) by (nonlinear_arith);
    assert(64 * s / 64 == s);
    assert(0 <= f * s <= 64 * s) by (nonlinear_arith)
        requires
            0 <= f <= 64,
            s >= 0,
    ;
    assert(f * s <= (f + 1) * s) by (nonlinear_arith)
        requires
            s >= 0,
    ;
    lemma_floor_order(f * s, (f + 1) * s, 64);
    if s == 0 {
        assert(f * s == 0) by (nonlinear_arith)
            requires
                s == 0,
        ;
    }
}

/// The two levels are budgets of neighbouring static qualities with the boosts; below the
/// first one there is nothing, above the best the caps stand.
pub proof fn lemma_levels_static(a: AllocInput, j: int)
    requires
        a.wf(),
        a.start <= j < a.end,
    ensures
        a.q_hi() > 1 ==> a.low_bits(j) == a.quality(a.q_hi() - 1)[j],
        a.q_hi() == 1 ==> a.low_bits(j) == 0,
        a.q_hi() < 11 ==> a.high_bits(j) == a.quality(a.q_hi())[j],
        a.q_hi() == 11 && a.trim_offset(j) == 0 ==> a.high_bits(j) == a.cap[j] + a.offsets[j],
{
    a.lemma_quality();
    lemma_table_share(a, 0, j);
}

/// A boosted band is coded, and so are all below it.
pub proof fn lemma_boosted_stay(a: AllocInput, dec: DecoderState, i: int, j: int)
    requires
        a.wf(),
        a.start <= i <= j < a.end,
        a.offsets[j] > 0,
    ensures
        i < a.settle(dec).coded,
{
    lemma_last_boosted(a, a.end, j);
    a.lemma_skip_init();
    a.lemma_skip(a.skip_init(), dec);
}

proof fn lemma_last_boosted(a: AllocInput, top: int, j: int)
    requires
        a.start <= j < top,
        a.offsets[j] > 0,
    ensures
        a.last_boost(top) >= j,
    decreases top - j,
{
    if j < top - 1 && !(a.offsets[top - 1] > 0) {
        lemma_last_boosted(a, top - 1, j);
    }
}

/// A dropped band is not shaped; it has one fine bit per channel or nothing, and the last
/// bits go to it first where it has none.
pub proof fn lemma_dropped_bands(a: AllocInput, dec: DecoderState, j: int)
    requires
        a.wf(),
        a.settle(dec).coded <= j < a.end,
    ensures
        a.shape_bits(a.settle(dec), j) == 0,
        a.fine_quant(a.settle(dec), j) == 0 || a.fine_quant(a.settle(dec), j) == 1,
        a.fine_priority(a.settle(dec), j) <==> a.fine_quant(a.settle(dec), j) == 0,
        a.start < a.settle(dec).coded,
{
    a.lemma_skip_init();
    a.lemma_skip(a.skip_init(), dec);
    let t = a.settle(dec);
    assert(t.bits[j] == 0 || t.bits[j] == 8 * a.c);
    if a.c == 1 {
        assert(8int / 8 == 1);
    } else {
        assert(16int / 16 == 1);
    }
}

/// A flag is read for a band that affords its threshold and, beside the flag, a fine bit per
/// channel; a set one ends the dropping, a clear one goes on with the band below, as does a
/// band that affords none. Bands that must stay read none, and the reserved flag is theirs.
pub proof fn lemma_flags(a: AllocInput, st: rate::SkipState, dec: DecoderState)
    requires
        a.wf(),
        a.skip_inv(st),
    ensures
        a.flag_coded(st) <==> a.top_bits(st) >= 8 * a.c + 8 && a.top_bits(st) >= a.thresh(st.coded - 1),
        st.coded - 1 > a.last_boost(a.end) && a.flag_coded(st) && dec.bit(1) ==> a.skip(st, dec) == (
            st,
            dec.after_bit(1),
        ),
        st.coded - 1 > a.last_boost(a.end) && a.flag_coded(st) && !dec.bit(1) ==> a.skip(st, dec).0.coded < st.coded,
        st.coded - 1 > a.last_boost(a.end) && !a.flag_coded(st) ==> a.skip(st, dec).0.coded < st.coded,
        st.coded - 1 <= a.last_boost(a.end) ==> a.skip(st, dec).0.coded == st.coded && a.skip(st, dec).1 == dec
            && a.skip(st, dec).0.refund == a.skip_rsv(),
        a.skip(st, dec).0.coded <= st.coded,
    decreases st.coded,
{
    if !a.must_stay(st) {
        a.lemma_next_down(st);
        let d = if a.flag_coded(st) {
            dec.after_bit(1)
        } else {
            dec
        };
        lemma_flags(a, a.next_down(st), d);
    }
}

/// The first band in intensity stereo is one of the coded bands or the one above them, for
/// two channels whose parameter was paid for; it is the first band of all else. The flag of
/// dual stereo is read where some band is in stereo and the flag was paid for.
pub proof fn lemma_stereo_parameters(a: AllocInput, dec: DecoderState)
    requires
        a.wf(),
    ensures
        ({
            let t = a.settle(dec);
            &&& a.c == 1 ==> t.intensity == 0 && !t.dual
            &&& a.intensity_rsv() == 0 ==> t.intensity == 0 && !t.dual
            &&& a.intensity_rsv() > 0 ==> a.start <= t.intensity <= t.coded
            &&& t.dual ==> t.intensity > a.start && a.dual_rsv() == 8
        }),
{
    a.lemma_budget();
    a.lemma_skip_init();
    a.lemma_skip(a.skip_init(), dec);
    let (st, d) = a.skip(a.skip_init(), dec);
    rate::lemma_log2_frac(st.coded - a.start);
    crate::range::decoder::lemma_uint(d, st.coded + 1 - a.start);
}

/// The unspent bits go to the coded bands bin by bin: every bin has as many, or one more,
/// and no bin has one more unless all below it do.
pub proof fn lemma_spread(a: AllocInput, t: Settled, i: int, j: int)
    requires
        a.wf(),
        a.settled_ok(t),
        a.start <= i < j < t.coded,
    ensures
        ({
            let per_bin = t.left / (modes::edge(t.coded) - modes::edge(a.start));
            let gi = a.final_bits(t, i) - t.bits[i];
            let gj = a.final_bits(t, j) - t.bits[j];
            &&& per_bin * modes::width(i) <= gi <= (per_bin + 1) * modes::width(i)
            &&& per_bin * modes::width(j) <= gj <= (per_bin + 1) * modes::width(j)
            &&& gj > per_bin * modes::width(j) ==> gi == (per_bin + 1) * modes::width(i)
        }),
{
    let all = modes::edge(t.coded) - modes::edge(a.start);
    let per_bin = t.left / all;
    modes::lemma_width(i);
    modes::lemma_width(j);
    modes::lemma_edges(i + 1, j);
    modes::lemma_edges(a.start, i);
    assert((per_bin + 1) * modes::width(i) == per_bin * modes::width(i) + modes::width(i)) by (nonlinear_arith);
    assert((per_bin + 1) * modes::width(j) == per_bin * modes::width(j) + modes::width(j)) by (nonlinear_arith);
}

/// What the first `j` coded bands get of the unspent bits.
pub open spec fn spread_to(a: AllocInput, t: Settled, j: int) -> int
    decreases j - a.start,
{
    if j <= a.start {
        0
    } else {
        a.final_bits(t, j - 1) - t.bits[j - 1] + spread_to(a, t, j - 1)
    }
}

/// All unspent bits reach a band.
pub proof fn lemma_all_spread(a: AllocInput, t: Settled)
    requires
        a.wf(),
        a.settled_ok(t),
    ensures
        spread_to(a, t, t.coded) == t.left,
{
    lemma_spread_to(a, t, t.coded);
    modes::lemma_edges(a.start, t.coded);
    let all = modes::edge(t.coded) - modes::edge(a.start);
    a.lemma_final_bits(t, a.start);
    assert(t.left / all * all == all * (t.left / all)) by (nonlinear_arith);
}

proof fn lemma_spread_to(a: AllocInput, t: Settled, j: int)
    requires
        a.wf(),
        a.settled_ok(t),
        a.start <= j <= t.coded,
    ensures
        ({
            let all = modes::edge(t.coded) - modes::edge(a.start);
            let per_bin = t.left / all;
            let bins = modes::edge(j) - modes::edge(a.start);
            spread_to(a, t, j) == per_bin * bins + math::min(t.left - all * per_bin, bins)
        }),
    decreases j,
{
    let all = modes::edge(t.coded) - modes::edge(a.start);
    let per_bin = t.left / all;
    a.lemma_final_bits(t, a.start);
    if j > a.start {
        lemma_spread_to(a, t, j - 1);
        modes::lemma_width(j - 1);
        modes::lemma_edges(a.start, j - 1);
        let b = modes::edge(j - 1) - modes::edge(a.start);
        assert(per_bin * (b + modes::width(j - 1)) == per_bin * b + per_bin * modes::width(j - 1))
            by (nonlinear_arith);
    } else {
        assert(per_bin * 0 == 0) by (nonlinear_arith);
    }
}

/// A band has a degree of freedom for each coefficient of each channel, and one for the angle
/// between two channels that are coded together with more than two coefficients.
pub proof fn lemma_degrees(a: AllocInput, j: int, intensity: int, dual: bool)
    requires
        a.wf(),
        0 <= j < 21,
    ensures
        ({
            let n = modes::width(j) * modes::frame_mult(a.lm);
            &&& a.c == 1 ==> a.freedom(j, intensity, dual) == n
            &&& a.c == 2 && (dual || j >= intensity || n <= 2) ==> a.freedom(j, intensity, dual) == 2 * n
            &&& a.c == 2 && !dual && j < intensity && n > 2 ==> a.freedom(j, intensity, dual) == 2 * n + 1
        }),
{
    let n = modes::width(j) * modes::frame_mult(a.lm);
    assert(1 * n == n) by (nonlinear_arith);
}

/// A share that a budget is held to is less than it only where the budget does not pay for
/// more.
proof fn lemma_held(e: int, f: int, b: int, c: int)
    requires
        c == 1 || c == 2,
        f >= 0,
        b >= 0,
        e == math::min(
            if c * f > b / 8 {
                b / (8 * c)
            } else {
                f
            },
            8,
        ),
    ensures
        e <= f,
        e < 8 && 8 * (c * (e + 1)) <= b ==> e == f,
{
    if c == 1 {
        assert(c * f == f && 8 * c == 8 && c * (e + 1) == e + 1) by (nonlinear_arith)
            requires
                c == 1,
        ;
    } else {
        assert(c * f == 2 * f && 8 * c == 16 && c * (e + 1) == 2 * (e + 1)) by (nonlinear_arith)
            requires
                c == 2,
        ;
        assert(2 * (b / 16) <= b / 8);
    }
}

/// The fine bits of a band are the nearest whole number to its share of the budget, up to
/// eight, as far as the budget pays for them.
pub proof fn lemma_fine_nearest(a: AllocInput, j: int, b: int, den: int)
    requires
        a.wf(),
        0 <= j < 21,
        0 <= b,
        den >= 1,
    ensures
        ({
            let e = a.fine_share(j, b, den);
            let share = b + a.fine_offset(j, b, den);
            &&& 0 <= e <= 8
            &&& 8 * (a.c * e) <= b
            &&& e > 0 ==> e * (8 * den) <= share + 4 * den
            &&& e < 8 && 8 * (a.c * (e + 1)) <= b ==> share + 4 * den < (e + 1) * (8 * den)
        }),
{
    a.lemma_fine_share(j, b, den);
    let share = b + a.fine_offset(j, b, den);
    let num = share + 4 * den;
    let d = 8 * den;
    let e = a.fine_share(j, b, den);
    if num >= 0 {
        math::lemma_div(num, d);
        let f = num / d;
        assert(f * d <= num < (f + 1) * d) by (nonlinear_arith)
            requires
                d * f <= num < d * f + d,
        ;
        assert(f >= 0) by (nonlinear_arith)
            requires
                num >= 0,
                num < (f + 1) * d,
                d > 0,
        ;
        lemma_held(e, f, b, a.c);
        assert(e * d <= f * d) by (nonlinear_arith)
            requires
                e <= f,
                d > 0,
        ;
    } else {
        assert(e == 0) by {
            assert(a.c * 0 == 0) by (nonlinear_arith);
        }
        assert((0 + 1) * d == d) by (nonlinear_arith);
    }
}

/// A band above its cap is shaped with all of the cap that its fine bits leave; what is
/// beyond buys fine bits, and only what does not buy one more, or what eight do not take, is
/// passed on. A band within its cap passes nothing on.
pub proof fn lemma_passed_on(a: AllocInput, j: int, x: int, balance: int, intensity: int, dual: bool)
    requires
        a.wf(),
        0 <= j < 21,
        0 <= x,
        0 <= balance,
    ensures
        ({
            let r = a.split(j, x, balance, intensity, dual);
            let n = modes::width(j) * modes::frame_mult(a.lm);
            let limit = if n > 1 {
                a.cap[j]
            } else {
                8 * a.c
            };
            &&& x + balance <= limit ==> r.balance == 0
            &&& r.fine < 8 ==> r.balance < 8 * a.c
            &&& n == 1 && x + balance <= 8 * a.c ==> r.fine == 0 && r.shape == x + balance && r.priority
            &&& n == 1 && x + balance > 8 * a.c ==> r.shape == 8 * a.c
        }),
{
    let n = modes::width(j) * modes::frame_mult(a.lm);
    let limit = if n > 1 {
        a.cap[j]
    } else {
        8 * a.c
    };
    let bit = x + balance;
    let excess = math::max(bit - limit, 0);
    let r = a.split(j, x, balance, intensity, dual);
    let b = bit - excess;
    let den = a.freedom(j, intensity, dual);
    let fine = if n > 1 {
        a.fine_share(j, b, den)
    } else {
        0
    };
    let c = a.c;
    a.lemma_freedom(j, intensity, dual);
    a.lemma_thresh(j);
    if n > 1 {
        a.lemma_fine_share(j, b, den);
    }
    assert(c * 0 == 0) by (nonlinear_arith);
    if excess > 0 {
        let whole = excess / (8 * c);
        let extra = math::min(whole, 8 - fine);
        assert(r.fine == fine + extra);
        assert(r.balance == excess - 8 * (c * extra));
        if r.fine < 8 {
            assert(extra == whole);
            if c == 1 {
                assert(8 * c == 8 && c * extra == extra) by (nonlinear_arith)
                    requires
                        c == 1,
                ;
                assert(excess - 8 * (excess / 8) < 8);
            } else {
                assert(8 * c == 16 && c * extra == 2 * extra) by (nonlinear_arith)
                    requires
                        c == 2,
                ;
                assert(excess - 16 * (excess / 16) < 16);
            }
        }
    }
}

/// What is written of the dropped bands: a band that the signal reaches and that affords a flag
/// is kept by it; one beyond is dropped by it, as is one that affords none. The first band in
/// intensity stereo is the wanted one, of those coded.
pub proof fn lemma_flags_written(
    a: AllocInput,
    st: rate::SkipState,
    e: crate::range::encoder::EncoderState,
    reach: int,
    want: int,
)
    requires
        a.wf(),
        a.skip_inv(st),
    ensures
        ({
            let r = a.put_skip(st, e, reach);
            let free = st.coded - 1 > a.last_boost(a.end);
            &&& r.0.coded <= st.coded
            &&& free && a.flag_coded(st) && st.coded - 1 <= reach ==> r == (st, e.after_bit(true, 1))
            &&& free && a.flag_coded(st) && st.coded - 1 > reach ==> r.0.coded < st.coded
            &&& free && !a.flag_coded(st) ==> r.0.coded < st.coded
            &&& !free ==> r.0.coded == st.coded && r.1 == e && r.0.refund == a.skip_rsv()
        }),
        ({
            let had = a.intensity_had(st, want);
            &&& st.rsv == 0 ==> had == 0
            &&& st.rsv > 0 ==> a.start <= had <= st.coded
            &&& st.rsv > 0 && a.start <= want <= st.coded ==> had == want
            &&& st.rsv > 0 && want > st.coded ==> had == st.coded
        }),
    decreases st.coded,
{
    if !a.must_stay(st) {
        a.lemma_next_down(st);
        let next = if a.flag_coded(st) {
            e.after_bit(false, 1)
        } else {
            e
        };
        lemma_flags_written(a, a.next_down(st), next, reach, want);
    }
    a.lemma_budget();
    if a.intensity_rsv() > 0 {
        rate::lemma_log2_frac(st.coded - a.start);
    }
}

/// Fine energy is favoured over shape by half of what the values of a band take for each degree
/// of freedom, less 21 eighths of a bit, and two more in a band of two values; by a quarter of it
/// more where that leaves fewer than two bits, by an eighth where it leaves fewer than three.
pub proof fn lemma_fine_favour(a: AllocInput, j: int, b: int, den: int)
    requires
        a.wf(),
        0 <= j < 21,
        den >= 1,
    ensures
        ({
            let n = modes::width(j) * modes::frame_mult(a.lm);
            let each = modes::LOG_N[j] + 8 * a.lm;
            let less = if n == 2 {
                19int
            } else {
                21
            };
            let base = den * each / 2 - den * less;
            let off = a.fine_offset(j, b, den);
            &&& b + base >= 24 * den ==> off == base
            &&& 16 * den <= b + base < 24 * den ==> 8 * (off - base) <= den * each < 8 * (off - base) + 8
            &&& b + base < 16 * den ==> 4 * (off - base) <= den * each < 4 * (off - base) + 4
            &&& off >= base
        }),
{
    modes::lemma_width(j);
    let each = modes::LOG_N[j] + 8 * a.lm;
    assert(den * each >= 0) by (nonlinear_arith)
        requires
            den >= 1,
            each >= 0,
    ;
}

/// The top coded band would have what it would if the unspent bits were spread now.
pub proof fn lemma_top_band(a: AllocInput, st: rate::SkipState, dual: bool)
    requires
        a.wf(),
        a.skip_inv(st),
    ensures
        a.top_bits(st) == a.final_bits(
            Settled { coded: st.coded, bits: st.bits, left: a.budget() - st.psum, intensity: 0, dual },
            st.coded - 1,
        ),
{
    a.lemma_top_bits(st);
    let left = a.budget() - st.psum;
    let all = modes::edge(st.coded) - modes::edge(a.start);
    math::lemma_div(left, all);
    modes::lemma_width(st.coded - 1);
}

/// A dropped band keeps a fine bit per channel where it could have one beside the flag that
/// dropped it, and nothing else; the other bands keep what they have, and a flag is counted.
pub proof fn lemma_dropped(a: AllocInput, st: rate::SkipState, j: int)
    requires
        a.wf(),
        a.skip_inv(st),
        !a.must_stay(st),
        0 <= j < 21,
    ensures
        ({
            let r = a.next_down(st);
            let flag = if a.flag_coded(st) {
                1int
            } else {
                0
            };
            &&& r.coded == st.coded - 1
            &&& j != st.coded - 1 ==> r.bits[j] == st.bits[j]
            &&& a.top_bits(st) - 8 * flag >= 8 * a.c ==> r.bits[st.coded - 1] == 8 * a.c
            &&& a.top_bits(st) - 8 * flag < 8 * a.c ==> r.bits[st.coded - 1] == 0
            &&& r.flags == st.flags + flag
            &&& r.psum - st.psum == r.bits[st.coded - 1] - st.bits[st.coded - 1] + 8 * flag + r.rsv - st.rsv
            &&& r.rsv > 0 <==> st.rsv > 0 && r.coded > a.start
        }),
{
    a.lemma_next_down(st);
    a.lemma_budget();
    rate::lemma_log2_frac(st.coded - a.start);
    if st.coded - 1 > a.start {
        rate::lemma_log2_frac(st.coded - 1 - a.start);
    }
}

/// Before bands are dropped each has what it takes of the finest budgets that fit, up to its cap;
/// bands outside the frame have nothing.
pub proof fn lemma_first_budgets(a: AllocInput, j: int)
    requires
        a.wf(),
        0 <= j < 21,
    ensures
        ({
            let took = a.paid(a.blend(a.bisect(0, 64, 6)), j);
            &&& a.start <= j < a.end && took <= a.cap[j] ==> a.first_bits()[j] == took
            &&& a.start <= j < a.end && took > a.cap[j] ==> a.first_bits()[j] == a.cap[j]
            &&& j < a.start || j >= a.end ==> a.first_bits()[j] == 0
        }),
{
}

/// The unspent bits are what the budget, the reserved flag where it was not needed and the dual
/// stereo flag where it was not coded leave.
pub proof fn lemma_left_over(a: AllocInput, st: rate::SkipState, intensity: int)
    requires
        a.wf(),
        a.skip_inv(st),
    ensures
        ({
            let left = a.left_over(st, intensity);
            let flag = if intensity > a.start && a.dual_rsv() == 8 {
                8int
            } else {
                0
            };
            left + flag + st.psum == a.budget() + a.dual_rsv() + st.refund
        }),
{
    lemma_reserves(a);
}

/// A band comes second for the last bits where its fine bits were rounded up already: they take as
/// much as its share at least, or beyond its cap as much as exceeds it besides what was passed on.
pub proof fn lemma_second(a: AllocInput, j: int, x: int, balance: int, intensity: int, dual: bool)
    requires
        a.wf(),
        0 <= j < 21,
        0 <= x,
        0 <= balance,
        modes::width(j) * modes::frame_mult(a.lm) > 1,
    ensures
        ({
            let r = a.split(j, x, balance, intensity, dual);
            let den = a.freedom(j, intensity, dual);
            let over = x + balance - a.cap[j];
            &&& over <= 0 ==> (r.priority <==> r.fine * (8 * den) >= x + balance + a.fine_offset(j, x + balance, den))
            &&& over > 0 ==> (r.priority <==> over - r.balance >= over - balance)
        }),
{
}

} // verus!
