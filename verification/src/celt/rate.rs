//! Bit allocation.
//!
//! The allocation is not sent: both ends derive each band's budget from the
//! frame size, the coded bands and a few coded parameters. In order: the best
//! static quality that fits is found and refined in steps of 1/64; bands are
//! dropped from the top, with one coded flag where a band could have been kept;
//! the stereo parameters are read; and each band's budget is split between fine
//! energy and shape. Budgets are in 1/8 bits.

pub mod encode;
pub mod laws;

use vstd::arithmetic::power2::{lemma2_to64, lemma_pow2_strictly_increases, pow2};
use vstd::prelude::*;

use crate::celt::modes::{self, band_edge, band_width, frame_multiple, LOG_N, NB_EBANDS};
use crate::celt::tables::{BAND_ALLOCATION, CACHE_BITS, CACHE_CAPS, CACHE_INDEX, LOG2_FRAC_TABLE, NB_ALLOC_VECTORS};
use crate::math::{self, floor_div, max_i32, min_i32, pow2_u32};
use crate::range::decoder::DecoderState;
use crate::range::RangeDecoder;

verus! {

/// Fractional resolution: budgets are in units of `2^-BITRES` bits.
pub const BITRES: u32 = 3;

/// The pulse count of a pseudo-pulse level: exact up to 8, then 8 values per
/// octave.
pub open spec fn level_pulses(i: int) -> int {
    if i < 8 {
        i
    } else {
        (8 + i % 8) * pow2((i / 8 - 1) as nat)
    }
}

/// The pulse count of a pseudo-pulse level.
pub fn get_pulses(i: i32) -> (r: i32)
    requires
        i < 216,
    ensures
        r == level_pulses(i as int),
        i >= 1 ==> r >= 1,
        8 <= i <= 40 ==> r <= 128,
{
    if i < 8 {
        i
    } else {
        let e: u32 = (i / 8 - 1) as u32;
        proof {
            lemma2_to64();
            if e < 25 {
                lemma_pow2_strictly_increases(e as nat, 25);
            }
            if e < 4 {
                lemma_pow2_strictly_increases(e as nat, 4);
            }
            let a = 8 + i % 8;
            let p = pow2(e as nat) as int;
            assert(8 <= a * p <= 15 * p) by (nonlinear_arith)
                requires
                    8 <= a <= 15,
                    p >= 1,
            ;
            if i == 40 {
                assert(a * p == 8 * p) by (nonlinear_arith)
                    requires
                        a == 8,
                ;
            } else if i < 40 {
                lemma_pow2_le8(e as nat);
                assert(a * p <= 15 * 8) by (nonlinear_arith)
                    requires
                        0 <= a <= 15,
                        1 <= p <= 8,
                ;
            }
        }
        (8 + i % 8) * pow2_u32(e) as i32
    }
}

proof fn lemma_pow2_le8(e: nat)
    ensures
        e <= 3 ==> pow2(e) <= 8,
{
    lemma2_to64();
    if e < 3 {
        lemma_pow2_strictly_increases(e, 3);
    }
}

/// Where the pulse cache row of a band at a partition level starts. A level of
/// -1 is a partition of half the shortest frame.
pub open spec fn row_start(band: int, lm: int) -> int {
    CACHE_INDEX[(lm + 1) * 21 + band] as int
}

/// Whether the band has pulses at that level.
pub open spec fn has_cache(band: int, lm: int) -> bool {
    0 <= band < 21 && -1 <= lm <= 3 && row_start(band, lm) >= 0
}

/// The highest pseudo-pulse level of the row.
pub open spec fn levels(band: int, lm: int) -> int {
    CACHE_BITS[row_start(band, lm)] as int
}

/// The cost of a pseudo-pulse level.
pub open spec fn cost(band: int, lm: int, q: int) -> int {
    if q <= 0 {
        0
    } else {
        CACHE_BITS[row_start(band, lm) + q] + 1
    }
}

/// The rows of the pulse cache start here.
spec fn is_row(s: int) -> bool {
    s == 0 || s == 41 || s == 82 || s == 123 || s == 164 || s == 200 || s == 222 || s == 240 || s == 266 || s == 283 || s == 295 || s == 305
        || s == 318 || s == 328 || s == 336 || s == 343 || s == 351 || s == 358 || s == 364 || s == 370 || s == 376 || s == 382 || s == 387
}

proof fn lemma_index(i: int)
    requires
        0 <= i < 105,
    ensures
        CACHE_INDEX[i] < 0 || is_row(CACHE_INDEX[i] as int),
{
    reveal(CACHE_INDEX);
    assert(i == 0 || i == 1 || i == 2 || i == 3 || i == 4 || i == 5 || i == 6 || i == 7 || i == 8 || i == 9
         || i == 10 || i == 11 || i == 12 || i == 13 || i == 14 || i == 15 || i == 16 || i == 17 || i == 18
         || i == 19 || i == 20 || i == 21 || i == 22 || i == 23 || i == 24 || i == 25 || i == 26 || i == 27
         || i == 28 || i == 29 || i == 30 || i == 31 || i == 32 || i == 33 || i == 34 || i == 35 || i == 36
         || i == 37 || i == 38 || i == 39 || i == 40 || i == 41 || i == 42 || i == 43 || i == 44 || i == 45
         || i == 46 || i == 47 || i == 48 || i == 49 || i == 50 || i == 51 || i == 52 || i == 53 || i == 54
         || i == 55 || i == 56 || i == 57 || i == 58 || i == 59 || i == 60 || i == 61 || i == 62 || i == 63
         || i == 64 || i == 65 || i == 66 || i == 67 || i == 68 || i == 69 || i == 70 || i == 71 || i == 72
         || i == 73 || i == 74 || i == 75 || i == 76 || i == 77 || i == 78 || i == 79 || i == 80 || i == 81
         || i == 82 || i == 83 || i == 84 || i == 85 || i == 86 || i == 87 || i == 88 || i == 89 || i == 90
         || i == 91 || i == 92 || i == 93 || i == 94 || i == 95 || i == 96 || i == 97 || i == 98 || i == 99
         || i == 100 || i == 101 || i == 102 || i == 103 || i == 104);
}

proof fn lemma_row_sorted(s: int, i: int)
    requires
        is_row(s),
        1 <= i < CACHE_BITS[s],
    ensures
        CACHE_BITS[s + i] <= CACHE_BITS[s + i + 1],
{
    reveal(CACHE_BITS);
    assert forall|i: int| 1 <= i < 40 implies #[trigger] CACHE_BITS[0 + i] <= CACHE_BITS[0 + i + 1] by {
        assert(i == 1 || i == 2 || i == 3 || i == 4 || i == 5 || i == 6 || i == 7 || i == 8 || i == 9 || i == 10
         || i == 11 || i == 12 || i == 13 || i == 14 || i == 15 || i == 16 || i == 17 || i == 18 || i == 19
         || i == 20 || i == 21 || i == 22 || i == 23 || i == 24 || i == 25 || i == 26 || i == 27 || i == 28
         || i == 29 || i == 30 || i == 31 || i == 32 || i == 33 || i == 34 || i == 35 || i == 36 || i == 37
         || i == 38 || i == 39);
    }
    assert forall|i: int| 1 <= i < 40 implies #[trigger] CACHE_BITS[41 + i] <= CACHE_BITS[41 + i + 1] by {
        assert(i == 1 || i == 2 || i == 3 || i == 4 || i == 5 || i == 6 || i == 7 || i == 8 || i == 9 || i == 10
         || i == 11 || i == 12 || i == 13 || i == 14 || i == 15 || i == 16 || i == 17 || i == 18 || i == 19
         || i == 20 || i == 21 || i == 22 || i == 23 || i == 24 || i == 25 || i == 26 || i == 27 || i == 28
         || i == 29 || i == 30 || i == 31 || i == 32 || i == 33 || i == 34 || i == 35 || i == 36 || i == 37
         || i == 38 || i == 39);
    }
    assert forall|i: int| 1 <= i < 40 implies #[trigger] CACHE_BITS[82 + i] <= CACHE_BITS[82 + i + 1] by {
        assert(i == 1 || i == 2 || i == 3 || i == 4 || i == 5 || i == 6 || i == 7 || i == 8 || i == 9 || i == 10
         || i == 11 || i == 12 || i == 13 || i == 14 || i == 15 || i == 16 || i == 17 || i == 18 || i == 19
         || i == 20 || i == 21 || i == 22 || i == 23 || i == 24 || i == 25 || i == 26 || i == 27 || i == 28
         || i == 29 || i == 30 || i == 31 || i == 32 || i == 33 || i == 34 || i == 35 || i == 36 || i == 37
         || i == 38 || i == 39);
    }
    assert forall|i: int| 1 <= i < 40 implies #[trigger] CACHE_BITS[123 + i] <= CACHE_BITS[123 + i + 1] by {
        assert(i == 1 || i == 2 || i == 3 || i == 4 || i == 5 || i == 6 || i == 7 || i == 8 || i == 9 || i == 10
         || i == 11 || i == 12 || i == 13 || i == 14 || i == 15 || i == 16 || i == 17 || i == 18 || i == 19
         || i == 20 || i == 21 || i == 22 || i == 23 || i == 24 || i == 25 || i == 26 || i == 27 || i == 28
         || i == 29 || i == 30 || i == 31 || i == 32 || i == 33 || i == 34 || i == 35 || i == 36 || i == 37
         || i == 38 || i == 39);
    }
    assert forall|i: int| 1 <= i < 35 implies #[trigger] CACHE_BITS[164 + i] <= CACHE_BITS[164 + i + 1] by {
        assert(i == 1 || i == 2 || i == 3 || i == 4 || i == 5 || i == 6 || i == 7 || i == 8 || i == 9 || i == 10
         || i == 11 || i == 12 || i == 13 || i == 14 || i == 15 || i == 16 || i == 17 || i == 18 || i == 19
         || i == 20 || i == 21 || i == 22 || i == 23 || i == 24 || i == 25 || i == 26 || i == 27 || i == 28
         || i == 29 || i == 30 || i == 31 || i == 32 || i == 33 || i == 34);
    }
    assert forall|i: int| 1 <= i < 21 implies #[trigger] CACHE_BITS[200 + i] <= CACHE_BITS[200 + i + 1] by {
        assert(i == 1 || i == 2 || i == 3 || i == 4 || i == 5 || i == 6 || i == 7 || i == 8 || i == 9 || i == 10
         || i == 11 || i == 12 || i == 13 || i == 14 || i == 15 || i == 16 || i == 17 || i == 18 || i == 19
         || i == 20);
    }
    assert forall|i: int| 1 <= i < 17 implies #[trigger] CACHE_BITS[222 + i] <= CACHE_BITS[222 + i + 1] by {
        assert(i == 1 || i == 2 || i == 3 || i == 4 || i == 5 || i == 6 || i == 7 || i == 8 || i == 9 || i == 10
         || i == 11 || i == 12 || i == 13 || i == 14 || i == 15 || i == 16);
    }
    assert forall|i: int| 1 <= i < 25 implies #[trigger] CACHE_BITS[240 + i] <= CACHE_BITS[240 + i + 1] by {
        assert(i == 1 || i == 2 || i == 3 || i == 4 || i == 5 || i == 6 || i == 7 || i == 8 || i == 9 || i == 10
         || i == 11 || i == 12 || i == 13 || i == 14 || i == 15 || i == 16 || i == 17 || i == 18 || i == 19
         || i == 20 || i == 21 || i == 22 || i == 23 || i == 24);
    }
    assert forall|i: int| 1 <= i < 16 implies #[trigger] CACHE_BITS[266 + i] <= CACHE_BITS[266 + i + 1] by {
        assert(i == 1 || i == 2 || i == 3 || i == 4 || i == 5 || i == 6 || i == 7 || i == 8 || i == 9 || i == 10
         || i == 11 || i == 12 || i == 13 || i == 14 || i == 15);
    }
    assert forall|i: int| 1 <= i < 11 implies #[trigger] CACHE_BITS[283 + i] <= CACHE_BITS[283 + i + 1] by {
        assert(i == 1 || i == 2 || i == 3 || i == 4 || i == 5 || i == 6 || i == 7 || i == 8 || i == 9 || i == 10);
    }
    assert forall|i: int| 1 <= i < 9 implies #[trigger] CACHE_BITS[295 + i] <= CACHE_BITS[295 + i + 1] by {
        assert(i == 1 || i == 2 || i == 3 || i == 4 || i == 5 || i == 6 || i == 7 || i == 8);
    }
    assert forall|i: int| 1 <= i < 12 implies #[trigger] CACHE_BITS[305 + i] <= CACHE_BITS[305 + i + 1] by {
        assert(i == 1 || i == 2 || i == 3 || i == 4 || i == 5 || i == 6 || i == 7 || i == 8 || i == 9 || i == 10
         || i == 11);
    }
    assert forall|i: int| 1 <= i < 9 implies #[trigger] CACHE_BITS[318 + i] <= CACHE_BITS[318 + i + 1] by {
        assert(i == 1 || i == 2 || i == 3 || i == 4 || i == 5 || i == 6 || i == 7 || i == 8);
    }
    assert forall|i: int| 1 <= i < 7 implies #[trigger] CACHE_BITS[328 + i] <= CACHE_BITS[328 + i + 1] by {
        assert(i == 1 || i == 2 || i == 3 || i == 4 || i == 5 || i == 6);
    }
    assert forall|i: int| 1 <= i < 6 implies #[trigger] CACHE_BITS[336 + i] <= CACHE_BITS[336 + i + 1] by {
        assert(i == 1 || i == 2 || i == 3 || i == 4 || i == 5);
    }
    assert forall|i: int| 1 <= i < 7 implies #[trigger] CACHE_BITS[343 + i] <= CACHE_BITS[343 + i + 1] by {
        assert(i == 1 || i == 2 || i == 3 || i == 4 || i == 5 || i == 6);
    }
    assert forall|i: int| 1 <= i < 6 implies #[trigger] CACHE_BITS[351 + i] <= CACHE_BITS[351 + i + 1] by {
        assert(i == 1 || i == 2 || i == 3 || i == 4 || i == 5);
    }
    assert forall|i: int| 1 <= i < 5 implies #[trigger] CACHE_BITS[358 + i] <= CACHE_BITS[358 + i + 1] by {
        assert(i == 1 || i == 2 || i == 3 || i == 4);
    }
    assert forall|i: int| 1 <= i < 5 implies #[trigger] CACHE_BITS[364 + i] <= CACHE_BITS[364 + i + 1] by {
        assert(i == 1 || i == 2 || i == 3 || i == 4);
    }
    assert forall|i: int| 1 <= i < 5 implies #[trigger] CACHE_BITS[370 + i] <= CACHE_BITS[370 + i + 1] by {
        assert(i == 1 || i == 2 || i == 3 || i == 4);
    }
    assert forall|i: int| 1 <= i < 5 implies #[trigger] CACHE_BITS[376 + i] <= CACHE_BITS[376 + i + 1] by {
        assert(i == 1 || i == 2 || i == 3 || i == 4);
    }
    assert forall|i: int| 1 <= i < 4 implies #[trigger] CACHE_BITS[382 + i] <= CACHE_BITS[382 + i + 1] by {
        assert(i == 1 || i == 2 || i == 3);
    }
    assert forall|i: int| 1 <= i < 4 implies #[trigger] CACHE_BITS[387 + i] <= CACHE_BITS[387 + i + 1] by {
        assert(i == 1 || i == 2 || i == 3);
    }
}

proof fn lemma_row_size(s: int)
    requires
        is_row(s),
    ensures
        1 <= CACHE_BITS[s] <= 40,
        0 <= s,
        s + CACHE_BITS[s] < 392,
{
    reveal(CACHE_BITS);
}

proof fn lemma_row_monotone(s: int, i: int, j: int)
    requires
        is_row(s),
        1 <= i <= j <= CACHE_BITS[s],
    ensures
        CACHE_BITS[s + i] <= CACHE_BITS[s + j],
    decreases j - i,
{
    if i < j {
        lemma_row_sorted(s, i);
        lemma_row_monotone(s, i + 1, j);
    }
}

/// A row of the pulse cache holds its levels, and a higher level never costs
/// less.
pub proof fn lemma_cache(band: int, lm: int)
    requires
        has_cache(band, lm),
    ensures
        1 <= levels(band, lm) <= 40,
        0 <= row_start(band, lm),
        row_start(band, lm) + levels(band, lm) < 392,
        forall|i: int, j: int|
            0 <= i <= j <= levels(band, lm) ==> #[trigger] cost(band, lm, i) <= #[trigger] cost(band, lm, j),
{
    let s = row_start(band, lm);
    lemma_index((lm + 1) * 21 + band);
    lemma_row_size(s);
    assert forall|i: int, j: int| 0 <= i <= j <= levels(band, lm) implies #[trigger] cost(band, lm, i)
        <= #[trigger] cost(band, lm, j) by {
        if i >= 1 {
            lemma_row_monotone(s, i, j);
        }
    }
}

/// The lowest level from `q` on that costs at least `bits`; the highest level
/// where none does.
pub open spec fn first_level(band: int, lm: int, bits: int, q: int) -> int
    decreases levels(band, lm) - q,
{
    if q >= levels(band, lm) {
        levels(band, lm)
    } else if cost(band, lm, q) >= bits {
        q
    } else {
        first_level(band, lm, bits, q + 1)
    }
}

/// The level whose cost is nearest to `bits`, the lower one of two equally near.
pub open spec fn nearest_level(band: int, lm: int, bits: int) -> int {
    let hi = first_level(band, lm, bits, 1);
    let lo = if cost(band, lm, hi) >= bits {
        hi - 1
    } else {
        hi
    };
    if bits - cost(band, lm, lo) <= cost(band, lm, hi) - bits {
        lo
    } else {
        hi
    }
}

proof fn lemma_first_level(band: int, lm: int, bits: int, q: int, hi: int)
    requires
        has_cache(band, lm),
        1 <= q <= hi <= levels(band, lm),
        forall|i: int| q <= i < hi ==> #[trigger] cost(band, lm, i) < bits,
        hi == levels(band, lm) || cost(band, lm, hi) >= bits,
    ensures
        first_level(band, lm, bits, q) == hi,
    decreases hi - q,
{
    if q < hi {
        lemma_first_level(band, lm, bits, q + 1, hi);
    }
}

proof fn lemma_first_level_below(band: int, lm: int, bits: int, q: int)
    requires
        1 <= q <= levels(band, lm),
    ensures
        ({
            let hi = first_level(band, lm, bits, q);
            &&& q <= hi <= levels(band, lm)
            &&& forall|i: int| q <= i < hi ==> #[trigger] cost(band, lm, i) < bits
            &&& hi == levels(band, lm) || cost(band, lm, hi) >= bits
        }),
    decreases levels(band, lm) - q,
{
    if q < levels(band, lm) && cost(band, lm, q) < bits {
        lemma_first_level_below(band, lm, bits, q + 1);
    }
}

/// No level costs nearer to a budget than the one that it buys, and none that is as near
/// costs less; a budget of nothing buys nothing.
pub proof fn lemma_nearest_level(band: int, lm: int, bits: int)
    requires
        has_cache(band, lm),
    ensures
        ({
            let q = nearest_level(band, lm, bits);
            let off = |p: int| math::max(cost(band, lm, p) - bits, bits - cost(band, lm, p));
            &&& 0 <= q <= levels(band, lm)
            &&& forall|p: int|
                0 <= p <= levels(band, lm) ==> {
                    &&& off(q) <= off(p)
                    &&& off(q) == off(p) ==> cost(band, lm, q) <= #[trigger] cost(band, lm, p)
                }
            &&& bits <= 0 ==> q == 0
        }),
{
    lemma_cache(band, lm);
    lemma_first_level_below(band, lm, bits, 1);
    let hi = first_level(band, lm, bits, 1);
    let q = nearest_level(band, lm, bits);
    assert(0 <= cost(band, lm, 0) <= cost(band, lm, 1));
    let off = |p: int| math::max(cost(band, lm, p) - bits, bits - cost(band, lm, p));
    assert forall|p: int| 0 <= p <= levels(band, lm) implies {
        &&& off(q) <= off(p)
        &&& off(q) == off(p) ==> cost(band, lm, q) <= #[trigger] cost(band, lm, p)
    } by {
        if p < hi {
            assert(cost(band, lm, p) <= cost(band, lm, hi - 1));
        } else {
            assert(cost(band, lm, hi) <= cost(band, lm, p));
        }
    }
}

/// The cost of a level buys a level of that cost.
pub proof fn lemma_pulse_cache_round_trip(band: int, lm: int, q: int)
    requires
        has_cache(band, lm),
        1 <= q <= levels(band, lm),
    ensures
        cost(band, lm, nearest_level(band, lm, cost(band, lm, q))) == cost(band, lm, q),
        0 <= nearest_level(band, lm, cost(band, lm, q)) <= levels(band, lm),
{
    lemma_cache(band, lm);
    lemma_first_level_found(band, lm, cost(band, lm, q), 1, q);
}

proof fn lemma_first_level_found(band: int, lm: int, bits: int, q: int, at: int)
    requires
        has_cache(band, lm),
        1 <= q <= at <= levels(band, lm),
        cost(band, lm, at) >= bits,
    ensures
        q <= first_level(band, lm, bits, q) <= at,
        cost(band, lm, first_level(band, lm, bits, q)) >= bits,
    decreases at - q,
{
    if q < levels(band, lm) && cost(band, lm, q) < bits {
        assert(q < at);
        lemma_first_level_found(band, lm, bits, q + 1, at);
    }
}

/// Every band has pulses at every level, except that a band of one bin cannot be
/// halved.
pub proof fn lemma_has_cache(band: int, lm: int)
    requires
        0 <= band < 21,
        0 <= lm <= 3 || (lm == -1 && modes::width(band) >= 2),
    ensures
        has_cache(band, lm),
{
    let i = (lm + 1) * 21 + band;
    reveal(CACHE_INDEX);
    reveal(modes::EBANDS);
    assert(i == 0 || i == 1 || i == 2 || i == 3 || i == 4 || i == 5 || i == 6 || i == 7 || i == 8 || i == 9
         || i == 10 || i == 11 || i == 12 || i == 13 || i == 14 || i == 15 || i == 16 || i == 17 || i == 18
         || i == 19 || i == 20 || i == 21 || i == 22 || i == 23 || i == 24 || i == 25 || i == 26 || i == 27
         || i == 28 || i == 29 || i == 30 || i == 31 || i == 32 || i == 33 || i == 34 || i == 35 || i == 36
         || i == 37 || i == 38 || i == 39 || i == 40 || i == 41 || i == 42 || i == 43 || i == 44 || i == 45
         || i == 46 || i == 47 || i == 48 || i == 49 || i == 50 || i == 51 || i == 52 || i == 53 || i == 54
         || i == 55 || i == 56 || i == 57 || i == 58 || i == 59 || i == 60 || i == 61 || i == 62 || i == 63
         || i == 64 || i == 65 || i == 66 || i == 67 || i == 68 || i == 69 || i == 70 || i == 71 || i == 72
         || i == 73 || i == 74 || i == 75 || i == 76 || i == 77 || i == 78 || i == 79 || i == 80 || i == 81
         || i == 82 || i == 83 || i == 84 || i == 85 || i == 86 || i == 87 || i == 88 || i == 89 || i == 90
         || i == 91 || i == 92 || i == 93 || i == 94 || i == 95 || i == 96 || i == 97 || i == 98 || i == 99
         || i == 100 || i == 101 || i == 102 || i == 103 || i == 104);
}

/// No level costs more than 32 bits.
pub proof fn lemma_cost_bound(band: int, lm: int)
    ensures
        forall|q: int| 0 <= #[trigger] cost(band, lm, q) <= 256,
{
}

/// Where the pulse cache row of a band starts.
pub fn cache_row(band: usize, lm: i32) -> (r: usize)
    requires
        has_cache(band as int, lm as int),
    ensures
        r == row_start(band as int, lm as int),
        r < 392,
{
    proof {
        lemma_cache(band as int, lm as int);
    }
    CACHE_INDEX[(lm + 1) as usize * 21 + band] as usize
}

/// The largest budget, less one, that the row can spend.
pub fn cache_max_bits(band: usize, lm: i32) -> (r: i32)
    requires
        has_cache(band as int, lm as int),
    ensures
        r == cost(band as int, lm as int, levels(band as int, lm as int)) - 1,
        0 <= r <= 255,
{
    proof {
        lemma_cache(band as int, lm as int);
    }
    let row: usize = cache_row(band, lm);
    CACHE_BITS[row + CACHE_BITS[row] as usize] as i32
}

/// How far apart the ends of the search can still be after some steps.
spec fn gap(step: int) -> int {
    if step == 0 {
        40
    } else if step == 1 {
        20
    } else if step == 2 {
        10
    } else if step == 3 {
        5
    } else if step == 4 {
        3
    } else if step == 5 {
        2
    } else {
        1
    }
}

/// The same while the upper end has not moved.
spec fn top_gap(step: int) -> int {
    if step == 0 {
        40
    } else if step == 1 {
        20
    } else if step == 2 {
        10
    } else if step == 3 {
        5
    } else if step == 4 {
        2
    } else if step == 5 {
        1
    } else {
        0
    }
}

/// The pseudo-pulse level whose cost is nearest to `bits`.
pub fn bits2pulses(band: usize, lm: i32, bits: i32) -> (r: i32)
    requires
        has_cache(band as int, lm as int),
        i32::MIN < bits,
    ensures
        r == nearest_level(band as int, lm as int, bits as int),
        0 <= r <= levels(band as int, lm as int),
{
    let ghost b = band as int;
    let ghost l = lm as int;
    proof {
        lemma_cache(b, l);
    }
    let row: usize = cache_row(band, lm);
    let top: i32 = CACHE_BITS[row] as i32;
    let mut lo: i32 = 0;
    let mut hi: i32 = top;
    let mut step: i32 = 0;
    while step < 6
        invariant
            0 <= step <= 6,
            0 <= lo <= hi <= top,
            1 <= hi,
            top <= 40,
            b == band,
            l == lm,
            has_cache(b, l),
            row == row_start(b, l),
            row + top < 392,
            top == levels(b, l),
            hi - lo <= gap(step as int),
            lo == 0 || cost(b, l, lo as int) < bits,
            cost(b, l, hi as int) >= bits || (hi == top && hi - lo <= top_gap(step as int)),
            i32::MIN < bits,
        decreases 6 - step,
    {
        let mid: i32 = (lo + hi + 1) / 2;
        if CACHE_BITS[row + mid as usize] as i32 >= bits - 1 {
            hi = mid;
        } else {
            lo = mid;
        }
        step = step + 1;
    }
    proof {
        lemma_cache(b, l);
        lemma_first_level(b, l, bits as int, 1, hi as int);
    }
    let want: i64 = bits as i64 - 1;
    let lo_cost: i64 = if lo == 0 {
        -1
    } else {
        CACHE_BITS[row + lo as usize] as i64
    };
    if want - lo_cost <= CACHE_BITS[row + hi as usize] as i64 - want {
        lo
    } else {
        hi
    }
}

/// The cost of a pseudo-pulse level.
pub fn pulses2bits(band: usize, lm: i32, pulses: i32) -> (r: i32)
    requires
        has_cache(band as int, lm as int),
        0 <= pulses <= levels(band as int, lm as int),
    ensures
        r == cost(band as int, lm as int, pulses as int),
        0 <= r <= 256,
{
    if pulses == 0 {
        0
    } else {
        proof {
            lemma_cache(band as int, lm as int);
        }
        CACHE_BITS[cache_row(band, lm) + pulses as usize] as i32 + 1
    }
}

/// The largest useful budget of band `j`.
pub open spec fn band_cap(lm: int, c: int, j: int) -> int {
    (CACHE_CAPS[21 * (2 * lm + c - 1) + j] + 64) * c * (modes::width(j) * modes::frame_mult(lm)) / 4
}

/// No band takes more than 4096 bits.
pub proof fn lemma_band_cap(lm: int, c: int, j: int)
    requires
        0 <= lm <= 3,
        c == 1 || c == 2,
        0 <= j < 21,
    ensures
        0 < band_cap(lm, c, j) <= 0x8000,
{
    modes::lemma_width(j);
    let w = modes::width(j);
    let m = modes::frame_mult(lm);
    let base = CACHE_CAPS[21 * (2 * lm + c - 1) + j] + 64;
    let x = base * c;
    let y = w * m;
    math::lemma_mul_range(w, 22, m, 8);
    math::lemma_mul_range(base, 319, c, 2);
    math::lemma_mul_range(x, 638, y, 176);
    assert(y >= 1) by (nonlinear_arith)
        requires
            y == w * m,
            w >= 1,
            m >= 1,
    ;
    assert(x >= 64) by (nonlinear_arith)
        requires
            x == base * c,
            base >= 64,
            c >= 1,
    ;
    assert(x * y >= 64) by (nonlinear_arith)
        requires
            x >= 64,
            y >= 1,
    ;
}

/// The largest useful budget of each band.
pub fn init_caps(lm: usize, channels: usize) -> (cap: [i32; NB_EBANDS])
    requires
        lm <= 3,
        channels == 1 || channels == 2,
    ensures
        forall|j: int| 0 <= j < 21 ==> #[trigger] cap@[j] == band_cap(lm as int, channels as int, j),
        forall|j: int| 0 <= j < 21 ==> 0 < #[trigger] cap@[j] <= 0x8000,
{
    let mut cap: [i32; NB_EBANDS] = [0; 21];
    let m: i32 = frame_multiple(lm);
    let mut j: usize = 0;
    while j < 21
        invariant
            j <= 21,
            lm <= 3,
            channels == 1 || channels == 2,
            m == modes::frame_mult(lm as int),
            1 <= m <= 8,
            forall|i: int| 0 <= i < j ==> #[trigger] cap@[i] == band_cap(lm as int, channels as int, i),
            forall|i: int| 0 <= i < j ==> 0 < #[trigger] cap@[i] <= 0x8000,
        decreases 21 - j,
    {
        let w: i32 = band_width(j);
        let base: i32 = CACHE_CAPS[21 * (2 * lm + channels - 1) + j] as i32 + 64;
        let c: i32 = channels as i32;
        proof {
            lemma_band_cap(lm as int, channels as int, j as int);
            math::lemma_mul_range(w as int, 22, m as int, 8);
            math::lemma_mul_range(base as int, 319, c as int, 2);
            math::lemma_mul_range(base * c, 638, w * m, 176);
        }
        cap[j] = base * c * (w * m) / 4;
        j = j + 1;
    }
    cap
}

/// The integers that an array of machine integers holds.
pub open spec fn ints(a: Seq<i32>) -> Seq<int> {
    Seq::new(a.len(), |i: int| a[i] as int)
}

/// The sum of the entries from `a` up to `b`.
pub open spec fn sum_range(s: Seq<int>, a: int, b: int) -> int
    decreases b - a,
{
    if a >= b {
        0
    } else {
        s[a] + sum_range(s, a + 1, b)
    }
}

proof fn lemma_sum_update(s: Seq<int>, a: int, b: int, j: int, x: int)
    requires
        0 <= a <= b <= s.len(),
        a <= j < b,
    ensures
        sum_range(s.update(j, x), a, b) == sum_range(s, a, b) - s[j] + x,
    decreases b - a,
{
    if a == j {
        lemma_sum_same(s.update(j, x), s, a + 1, b);
    } else {
        lemma_sum_update(s, a + 1, b, j, x);
    }
}

proof fn lemma_sum_same(s: Seq<int>, t: Seq<int>, a: int, b: int)
    requires
        forall|i: int| a <= i < b ==> #[trigger] s[i] == t[i],
    ensures
        sum_range(s, a, b) == sum_range(t, a, b),
    decreases b - a,
{
    if a < b {
        lemma_sum_same(s, t, a + 1, b);
    }
}

proof fn lemma_sum_bounds(s: Seq<int>, a: int, b: int, hi: int)
    requires
        a <= b,
        forall|i: int| a <= i < b ==> 0 <= #[trigger] s[i] <= hi,
    ensures
        0 <= sum_range(s, a, b) <= hi * (b - a),
    decreases b - a,
{
    if a < b {
        lemma_sum_bounds(s, a + 1, b, hi);
        assert(hi * (b - a) == hi * (b - (a + 1)) + hi) by (nonlinear_arith);
    } else {
        assert(hi * (b - a) == 0) by (nonlinear_arith)
            requires
                a == b,
        ;
    }
}

proof fn lemma_sum_split(s: Seq<int>, a: int, m: int, b: int)
    requires
        a <= m <= b,
    ensures
        sum_range(s, a, b) == sum_range(s, a, m) + sum_range(s, m, b),
    decreases m - a,
{
    if a < m {
        lemma_sum_split(s, a + 1, m, b);
    }
}

/// How the split of one band's budget comes out.
pub struct BandSplit {
    pub shape: int,
    pub fine: int,
    pub priority: bool,
    pub balance: int,
}

/// Where the search for dropped bands stands: the bands still coded, the
/// budgets, their sum net of what the intensity parameter gave back and with
/// the flags that were coded, what that parameter still needs, and whether the
/// reserved flag was given back.
#[verifier::ext_equal]
pub struct SkipState {
    pub coded: int,
    pub bits: Seq<int>,
    pub psum: int,
    pub rsv: int,
    pub refund: int,
    pub flags: int,
}

/// What the budgets are split by, once all parameters are known: the bands that
/// are coded, the first budgets, the unspent bits and the stereo parameters.
#[verifier::ext_equal]
pub struct Settled {
    pub coded: int,
    pub bits: Seq<int>,
    pub left: int,
    pub intensity: int,
    pub dual: bool,
}

/// What the allocation depends on, besides the stream.
pub struct AllocInput {
    pub start: int,
    pub end: int,
    pub offsets: Seq<int>,
    pub cap: Seq<int>,
    pub trim: int,
    pub total: int,
    pub c: int,
    pub lm: int,
}

impl AllocInput {
    /// Bands, channels and frame size exist, and no budget comes near the
    /// limits of the arithmetic.
    pub open spec fn wf(self) -> bool {
        &&& 0 <= self.start < self.end <= 21
        &&& self.offsets.len() == 21
        &&& self.cap.len() == 21
        &&& forall|j: int| 0 <= j < 21 ==> 0 <= #[trigger] self.offsets[j] <= 0x10_0000
        &&& forall|j: int| 0 <= j < 21 ==> 0 <= #[trigger] self.cap[j] <= 0x10_0000
        &&& 0 <= self.trim <= 10
        &&& self.total <= 0x100_0000
        &&& self.c == 1 || self.c == 2
        &&& 0 <= self.lm <= 3
    }

    /// The budget of the frame.
    pub open spec fn available(self) -> int {
        math::max(self.total, 0)
    }

    /// What is kept back for the flag that ends the dropped bands.
    pub open spec fn skip_rsv(self) -> int {
        if self.available() >= 8 {
            8
        } else {
            0
        }
    }

    /// What the intensity parameter needs.
    pub open spec fn intensity_need(self) -> int {
        LOG2_FRAC_TABLE[self.end - self.start] as int
    }

    /// Whether the stereo parameters are affordable.
    pub open spec fn stereo_coded(self) -> bool {
        self.c == 2 && self.intensity_need() <= self.available() - self.skip_rsv()
    }

    /// What is kept back for the intensity parameter.
    pub open spec fn intensity_rsv(self) -> int {
        if self.stereo_coded() {
            self.intensity_need()
        } else {
            0
        }
    }

    /// What is kept back for the dual stereo flag.
    pub open spec fn dual_rsv(self) -> int {
        if self.stereo_coded() && self.available() - self.skip_rsv() - self.intensity_need() >= 8 {
            8
        } else {
            0
        }
    }

    /// What is left for the bands.
    pub open spec fn budget(self) -> int {
        self.available() - self.skip_rsv() - self.intensity_rsv() - self.dual_rsv()
    }

    /// Below this no shape bits are given to band `j`.
    pub open spec fn thresh(self, j: int) -> int {
        math::max(8 * self.c, 3 * (modes::width(j) * modes::frame_mult(self.lm)) / 2)
    }

    /// The tilt of the allocation at band `j`.
    pub open spec fn trim_offset(self, j: int) -> int {
        let w = modes::width(j);
        let m = modes::frame_mult(self.lm);
        self.c * w * (self.trim - 5 - self.lm) * (self.end - j - 1) * (8 * m) / 64 - if w * m == 1 {
            8 * self.c
        } else {
            0
        }
    }

    /// What static quality `q` gives band `j`.
    pub open spec fn table_bits(self, q: int, j: int) -> int {
        self.c * modes::width(j) * BAND_ALLOCATION[q * 21 + j] * modes::frame_mult(self.lm) / 4
    }

    /// A budget of band `j` with the tilt, where there is one.
    pub open spec fn tilted(self, x: int, j: int) -> int {
        if x > 0 {
            math::max(x + self.trim_offset(j), 0)
        } else {
            x
        }
    }

    /// The budgets at static quality `q`, boosts counted.
    pub open spec fn quality(self, q: int) -> Seq<int> {
        Seq::new(21, |j: int| self.tilted(self.table_bits(q, j), j) + self.offsets[j])
    }

    /// Whether a band from `j` on reaches its threshold.
    pub open spec fn reached(self, b: Seq<int>, j: int) -> bool
        decreases self.end - j,
    {
        j < self.end && (b[j] >= self.thresh(j) || self.reached(b, j + 1))
    }

    /// What band `j` takes of budgets `b`: all of it up to its cap where it or a
    /// band above reaches its threshold, else enough for one fine bit or
    /// nothing.
    pub open spec fn paid(self, b: Seq<int>, j: int) -> int {
        if self.reached(b, j) {
            math::min(b[j], self.cap[j])
        } else if b[j] >= 8 * self.c {
            8 * self.c
        } else {
            0
        }
    }

    /// What the bands from `j` on take.
    pub open spec fn spent(self, b: Seq<int>, j: int) -> int
        decreases self.end - j,
    {
        if j >= self.end {
            0
        } else {
            self.paid(b, j) + self.spent(b, j + 1)
        }
    }

    /// Whether static quality `q` fits the budget.
    pub open spec fn fits(self, q: int) -> bool {
        self.spent(self.quality(q), self.start) <= self.budget()
    }

    /// Bisection for the lowest static quality between `lo` and `hi` that does
    /// not fit.
    pub open spec fn search(self, lo: int, hi: int) -> int
        decreases hi - lo + 1,
    {
        if lo > hi {
            lo
        } else {
            let mid = (lo + hi) / 2;
            if self.fits(mid) {
                self.search(mid + 1, hi)
            } else {
                self.search(lo, mid - 1)
            }
        }
    }

    /// The static quality just above the budget.
    pub open spec fn q_hi(self) -> int {
        self.search(1, NB_ALLOC_VECTORS - 1)
    }

    /// Band `j` at the quality below.
    pub open spec fn low_bits(self, j: int) -> int {
        let q = self.q_hi() - 1;
        self.tilted(self.table_bits(q, j), j) + if q > 0 {
            self.offsets[j]
        } else {
            0
        }
    }

    /// Band `j` at the quality above; the caps stand above the best one.
    pub open spec fn high_bits(self, j: int) -> int {
        let q = self.q_hi();
        self.tilted(
            if q >= NB_ALLOC_VECTORS {
                self.cap[j]
            } else {
                self.table_bits(q, j)
            },
            j,
        ) + self.offsets[j]
    }

    /// The step of band `j` between the two.
    pub open spec fn step_bits(self, j: int) -> int {
        math::max(self.high_bits(j) - self.low_bits(j), 0)
    }

    /// The highest band below `j` with a boost, the first band without one. It
    /// and the bands below are never dropped.
    pub open spec fn last_boost(self, j: int) -> int
        decreases j - self.start,
    {
        if j <= self.start {
            self.start
        } else if self.offsets[j - 1] > 0 {
            j - 1
        } else {
            self.last_boost(j - 1)
        }
    }

    /// The budgets `f` steps of 1/64 above the lower quality.
    pub open spec fn blend(self, f: int) -> Seq<int> {
        Seq::new(21, |j: int| self.low_bits(j) + f * self.step_bits(j) / 64)
    }

    /// Bisection for the most steps that fit.
    pub open spec fn bisect(self, lo: int, hi: int, steps: nat) -> int
        decreases steps,
    {
        if steps == 0 {
            lo
        } else {
            let mid = (lo + hi) / 2;
            if self.spent(self.blend(mid), self.start) > self.budget() {
                self.bisect(lo, mid, (steps - 1) as nat)
            } else {
                self.bisect(mid, hi, (steps - 1) as nat)
            }
        }
    }

    /// The budgets before bands are dropped.
    pub open spec fn first_bits(self) -> Seq<int> {
        let b = self.blend(self.bisect(0, 64, 6));
        Seq::new(
            21,
            |j: int|
                if self.start <= j < self.end {
                    math::min(self.paid(b, j), self.cap[j])
                } else {
                    0
                },
        )
    }

    /// Where the search for dropped bands begins.
    pub open spec fn skip_init(self) -> SkipState {
        SkipState {
            coded: self.end,
            bits: self.first_bits(),
            psum: sum_range(self.first_bits(), self.start, self.end),
            rsv: self.intensity_rsv(),
            refund: 0,
            flags: 0,
        }
    }

    /// What the top coded band would have with the unspent bits spread over the
    /// coded bands, bin by bin.
    pub open spec fn top_bits(self, st: SkipState) -> int {
        let j = st.coded - 1;
        let left = self.budget() - st.psum;
        let all = modes::edge(st.coded) - modes::edge(self.start);
        let per_bin = left / all;
        st.bits[j] + per_bin * modes::width(j) + math::max(
            left - all * per_bin - (modes::edge(j) - modes::edge(self.start)),
            0,
        )
    }

    /// The top coded band dropped, which leaves it one fine bit per channel
    /// where `band_bits` allow.
    pub open spec fn dropped(self, st: SkipState, band_bits: int) -> SkipState {
        let j = st.coded - 1;
        let rsv = if st.rsv > 0 {
            LOG2_FRAC_TABLE[j - self.start] as int
        } else {
            0
        };
        let keep = if band_bits >= 8 * self.c {
            8 * self.c
        } else {
            0
        };
        SkipState {
            coded: j,
            bits: st.bits.update(j, keep),
            psum: st.psum - st.bits[j] - st.rsv + rsv + keep,
            rsv,
            ..st
        }
    }

    /// Whether the top coded band and those below must stay.
    pub open spec fn must_stay(self, st: SkipState) -> bool {
        st.coded <= 0 || st.coded - 1 <= self.last_boost(self.end)
    }

    /// Whether a flag says if the top coded band is dropped; one that cannot afford
    /// the flag is.
    pub open spec fn flag_coded(self, st: SkipState) -> bool {
        self.top_bits(st) >= math::max(self.thresh(st.coded - 1), 8 * self.c + 8)
    }

    /// The state where a band must stay: the reserved flag is given back.
    pub open spec fn stayed(self, st: SkipState) -> SkipState {
        SkipState { refund: self.skip_rsv(), ..st }
    }

    /// The state after the top coded band was dropped, by a flag or without one.
    pub open spec fn next_down(self, st: SkipState) -> SkipState {
        if self.flag_coded(st) {
            self.dropped(SkipState { psum: st.psum + 8, flags: st.flags + 1, ..st }, self.top_bits(st) - 8)
        } else {
            self.dropped(st, self.top_bits(st))
        }
    }

    /// Bands dropped from the top, until one that must stay or whose flag says
    /// so, and the stream behind the flags.
    pub open spec fn skip(self, st: SkipState, dec: DecoderState) -> (SkipState, DecoderState)
        decreases st.coded,
    {
        if self.must_stay(st) {
            (self.stayed(st), dec)
        } else if self.flag_coded(st) {
            if dec.bit(1) {
                (st, dec.after_bit(1))
            } else {
                self.skip(self.next_down(st), dec.after_bit(1))
            }
        } else {
            self.skip(self.next_down(st), dec)
        }
    }

    /// The first band coded in intensity stereo. A damaged parameter counts as
    /// zero.
    pub open spec fn intensity(self, st: SkipState, dec: DecoderState) -> int {
        if st.rsv > 0 {
            let ft = st.coded + 1 - self.start;
            let x = dec.uint(ft);
            self.start + if x < ft {
                x
            } else {
                0
            }
        } else {
            0
        }
    }

    /// The stream after the intensity parameter.
    pub open spec fn after_intensity(self, st: SkipState, dec: DecoderState) -> DecoderState {
        if st.rsv > 0 {
            dec.after_uint(st.coded + 1 - self.start)
        } else {
            dec
        }
    }

    /// Whether the dual stereo flag is coded.
    pub open spec fn dual_coded(self, intensity: int) -> bool {
        intensity > self.start && self.dual_rsv() > 0
    }

    /// The unspent bits once all parameters are known.
    pub open spec fn left_over(self, st: SkipState, intensity: int) -> int {
        self.budget() + st.refund + (if self.dual_coded(intensity) {
            0
        } else {
            self.dual_rsv()
        }) - st.psum
    }

    /// What the budgets are split by.
    pub open spec fn settled(self, st: SkipState, intensity: int, dual: bool) -> Settled {
        Settled { coded: st.coded, bits: st.bits, left: self.left_over(st, intensity), intensity, dual }
    }

    /// What the budgets are split by, with the parameters that are read from the
    /// stream.
    pub open spec fn settle(self, dec: DecoderState) -> Settled {
        let (st, d) = self.skip(self.skip_init(), dec);
        let intensity = self.intensity(st, d);
        self.settled(st, intensity, self.dual_coded(intensity) && self.after_intensity(st, d).bit(1))
    }

    /// The stream after the parameters.
    pub open spec fn after(self, dec: DecoderState) -> DecoderState {
        let (st, d) = self.skip(self.skip_init(), dec);
        let d2 = self.after_intensity(st, d);
        if self.dual_coded(self.intensity(st, d)) {
            d2.after_bit(1)
        } else {
            d2
        }
    }

    /// The budget of coded band `j` with its part of the unspent bits: as many
    /// per bin as all bins can have, and one more for the lowest bins.
    pub open spec fn final_bits(self, t: Settled, j: int) -> int {
        let all = modes::edge(t.coded) - modes::edge(self.start);
        let per_bin = t.left / all;
        t.bits[j] + per_bin * modes::width(j) + math::max(
            math::min(t.left - all * per_bin - (modes::edge(j) - modes::edge(self.start)), modes::width(j)),
            0,
        )
    }

    /// The degrees of freedom of band `j`.
    pub open spec fn freedom(self, j: int, intensity: int, dual: bool) -> int {
        let n = modes::width(j) * modes::frame_mult(self.lm);
        self.c * n + if self.c == 2 && n > 2 && !dual && j < intensity {
            1int
        } else {
            0
        }
    }

    /// How far fine energy is favoured over shape in band `j` with `b` bits.
    pub open spec fn fine_offset(self, j: int, b: int, den: int) -> int {
        let n = modes::width(j) * modes::frame_mult(self.lm);
        let nclog = den * (LOG_N[j] + 8 * self.lm);
        let base = nclog / 2 - den * 21 + if n == 2 {
            2 * den
        } else {
            0
        };
        if b + base < 16 * den {
            base + nclog / 4
        } else if b + base < 24 * den {
            base + nclog / 8
        } else {
            base
        }
    }

    /// The fine bits per channel of band `j` with `b` bits: its share, rounded,
    /// within the band's own budget.
    pub open spec fn fine_share(self, j: int, b: int, den: int) -> int {
        let num = b + self.fine_offset(j, b, den) + 4 * den;
        let e = if num >= 0 {
            num / (8 * den)
        } else {
            0
        };
        math::min(
            if self.c * e > b / 8 {
                b / (8 * self.c)
            } else {
                e
            },
            8,
        )
    }

    /// The split of band `j`, whose budget is `x` besides the balance of the
    /// bands below. What exceeds the band's cap buys fine bits or is passed on.
    pub open spec fn split(self, j: int, x: int, balance: int, intensity: int, dual: bool) -> BandSplit {
        let n = modes::width(j) * modes::frame_mult(self.lm);
        let bit = x + balance;
        let limit = if n > 1 {
            self.cap[j]
        } else {
            8 * self.c
        };
        let excess = math::max(bit - limit, 0);
        let b = bit - excess;
        let den = self.freedom(j, intensity, dual);
        let fine = if n > 1 {
            self.fine_share(j, b, den)
        } else {
            0
        };
        let extra = if excess > 0 {
            math::min(excess / (8 * self.c), 8 - fine)
        } else {
            0
        };
        BandSplit {
            shape: b - 8 * (self.c * fine),
            fine: fine + extra,
            priority: if excess > 0 {
                8 * (self.c * extra) >= excess - balance
            } else if n > 1 {
                fine * (8 * den) >= b + self.fine_offset(j, b, den)
            } else {
                true
            },
            balance: excess - 8 * (self.c * extra),
        }
    }

    /// What the coded bands below `j` pass on.
    pub open spec fn balance_at(self, t: Settled, j: int) -> int
        decreases j - self.start, 0int,
    {
        if j <= self.start {
            0
        } else {
            self.split_at(t, j - 1).balance
        }
    }

    /// The split of coded band `j`.
    pub open spec fn split_at(self, t: Settled, j: int) -> BandSplit
        decreases j - self.start, 1int,
    {
        if j < self.start {
            BandSplit { shape: 0, fine: 0, priority: false, balance: 0 }
        } else {
            self.split(j, self.final_bits(t, j), self.balance_at(t, j), t.intensity, t.dual)
        }
    }

    /// The shape budget of band `j`.
    pub open spec fn shape_bits(self, t: Settled, j: int) -> int {
        if self.start <= j < t.coded {
            self.split_at(t, j).shape
        } else {
            0
        }
    }

    /// The fine bits of band `j`; a dropped band has nothing else.
    pub open spec fn fine_quant(self, t: Settled, j: int) -> int {
        if self.start <= j < t.coded {
            self.split_at(t, j).fine
        } else if t.coded <= j < self.end {
            t.bits[j] / (8 * self.c)
        } else {
            0
        }
    }

    /// Whether band `j` comes second when the last bits are handed out.
    pub open spec fn fine_priority(self, t: Settled, j: int) -> bool {
        if self.start <= j < t.coded {
            self.split_at(t, j).priority
        } else if t.coded <= j < self.end {
            t.bits[j] / (8 * self.c) < 1
        } else {
            false
        }
    }

    /// What holds throughout the search for dropped bands: nothing is
    /// overspent, every bit is accounted for, and a dropped band holds one fine
    /// bit per channel or nothing.
    pub open spec fn skip_inv(self, st: SkipState) -> bool {
        &&& self.start < st.coded <= self.end
        &&& self.last_boost(self.end) < st.coded
        &&& st.bits.len() == 21
        &&& forall|j: int| self.start <= j < self.end ==> 0 <= #[trigger] st.bits[j] <= 0x10_0000
        &&& forall|j: int| self.start <= j < st.coded ==> #[trigger] st.bits[j] <= self.cap[j]
        &&& forall|j: int| st.coded <= j < self.end ==> #[trigger] st.bits[j] == 0 || st.bits[j] == 8 * self.c
        &&& st.rsv == if self.intensity_rsv() > 0 {
            LOG2_FRAC_TABLE[st.coded - self.start] as int
        } else {
            0
        }
        &&& 0 <= st.flags <= self.end - st.coded
        &&& st.psum == sum_range(st.bits, self.start, self.end) - self.intensity_rsv() + st.rsv + 8 * st.flags
        &&& st.psum <= self.budget()
    }

    /// What holds of what the budgets are split by.
    pub open spec fn settled_ok(self, t: Settled) -> bool {
        &&& self.start < t.coded <= self.end
        &&& t.bits.len() == 21
        &&& forall|j: int| self.start <= j < self.end ==> 0 <= #[trigger] t.bits[j] <= 0x10_0000
        &&& forall|j: int| t.coded <= j < self.end ==> #[trigger] t.bits[j] == 0 || t.bits[j] == 8 * self.c
        &&& 0 <= t.left <= 0x100_0060
    }
}

pub proof fn lemma_log2_frac(i: int)
    requires
        1 <= i <= 21,
    ensures
        8 <= LOG2_FRAC_TABLE[i] <= 37,
        LOG2_FRAC_TABLE[i - 1] <= LOG2_FRAC_TABLE[i],
{
    reveal(LOG2_FRAC_TABLE);
    assert(i == 1 || i == 2 || i == 3 || i == 4 || i == 5 || i == 6 || i == 7 || i == 8 || i == 9 || i == 10 || i == 11
        || i == 12 || i == 13 || i == 14 || i == 15 || i == 16 || i == 17 || i == 18 || i == 19 || i == 20 || i == 21);
}

proof fn lemma_first_row(j: int)
    requires
        0 <= j < 21,
    ensures
        BAND_ALLOCATION[j] == 0,
{
    reveal(BAND_ALLOCATION);
    assert(j == 0 || j == 1 || j == 2 || j == 3 || j == 4 || j == 5 || j == 6 || j == 7 || j == 8 || j == 9 || j == 10
        || j == 11 || j == 12 || j == 13 || j == 14 || j == 15 || j == 16 || j == 17 || j == 18 || j == 19 || j == 20);
}

impl AllocInput {
    /// The reserves never exceed the budget.
    pub proof fn lemma_budget(self)
        requires
            self.wf(),
        ensures
            0 <= self.budget() <= 0x100_0000,
            0 <= self.intensity_rsv() <= 37,
            self.stereo_coded() ==> self.intensity_rsv() >= 8,
    {
        lemma_log2_frac(self.end - self.start);
    }

    pub proof fn lemma_thresh(self, j: int)
        requires
            self.wf(),
            0 <= j < 21,
        ensures
            8 <= self.thresh(j) <= 264,
            1 <= modes::width(j) * modes::frame_mult(self.lm) <= 176,
    {
        modes::lemma_width(j);
        let w = modes::width(j);
        let m = modes::frame_mult(self.lm);
        assert(1 <= w * m <= 22 * 8) by (nonlinear_arith)
            requires
                1 <= w <= 22,
                1 <= m <= 8,
        ;
    }

    pub proof fn lemma_trim_offset(self, j: int)
        requires
            self.wf(),
            self.start <= j < self.end,
        ensures
            -7056 <= self.trim_offset(j) <= 7056,
            0 <= self.c * modes::width(j) <= 44,
            -352 <= self.c * modes::width(j) * (self.trim - 5 - self.lm) <= 352,
            -7040 <= self.c * modes::width(j) * (self.trim - 5 - self.lm) * (self.end - j - 1) <= 7040,
            -450560 <= self.c * modes::width(j) * (self.trim - 5 - self.lm) * (self.end - j - 1) * (8
                * modes::frame_mult(self.lm)) <= 450560,
    {
        modes::lemma_width(j);
        let w = modes::width(j);
        let t = self.trim - 5 - self.lm;
        let d = self.end - j - 1;
        let m = 8 * modes::frame_mult(self.lm);
        math::lemma_mul_range(self.c, 2, w, 22);
        math::lemma_mul_range(self.c * w, 44, t, 8);
        math::lemma_mul_range(self.c * w * t, 352, d, 20);
        math::lemma_mul_range(self.c * w * t * d, 7040, m, 64);
    }

    pub proof fn lemma_table_bits(self, q: int, j: int)
        requires
            self.wf(),
            0 <= q <= 10,
            0 <= j < 21,
        ensures
            0 <= self.table_bits(q, j) <= 22440,
            0 <= self.c * modes::width(j) <= 44,
            0 <= self.c * modes::width(j) * BAND_ALLOCATION[q * 21 + j] <= 11220,
            0 <= self.c * modes::width(j) * BAND_ALLOCATION[q * 21 + j] * modes::frame_mult(self.lm) <= 89760,
    {
        modes::lemma_width(j);
        let w = modes::width(j);
        let a = BAND_ALLOCATION[q * 21 + j] as int;
        math::lemma_mul_range(self.c, 2, w, 22);
        math::lemma_mul_range(self.c * w, 44, a, 255);
        math::lemma_mul_range(self.c * w * a, 11220, modes::frame_mult(self.lm), 8);
    }

    proof fn lemma_tilted(self, x: int, j: int)
        requires
            self.wf(),
            self.start <= j < self.end,
            0 <= x <= 0x10_0000,
        ensures
            0 <= self.tilted(x, j) <= 0x10_0000 + 7056,
    {
        self.lemma_trim_offset(j);
    }

    proof fn lemma_search(self, lo: int, hi: int)
        requires
            1 <= lo <= hi + 1,
            hi <= 10,
            lo == 1 || self.fits(lo - 1),
        ensures
            lo <= self.search(lo, hi) <= hi + 1,
            self.search(lo, hi) == 1 || self.fits(self.search(lo, hi) - 1),
        decreases hi - lo + 1,
    {
        if lo <= hi {
            let mid = (lo + hi) / 2;
            if self.fits(mid) {
                self.lemma_search(mid + 1, hi);
            } else {
                self.lemma_search(lo, mid - 1);
            }
        }
    }

    /// The two qualities bracket the budget.
    pub proof fn lemma_quality(self)
        ensures
            1 <= self.q_hi() <= 11,
            self.q_hi() == 1 || self.fits(self.q_hi() - 1),
    {
        self.lemma_search(1, 10);
    }

    /// The budgets at the two qualities.
    pub proof fn lemma_levels(self, j: int)
        requires
            self.wf(),
            self.start <= j < self.end,
        ensures
            0 <= self.low_bits(j) <= 0x20_8000,
            0 <= self.high_bits(j) <= 0x20_8000,
            0 <= self.step_bits(j) <= 0x20_8000,
    {
        self.lemma_quality();
        let q = self.q_hi();
        self.lemma_table_bits(q - 1, j);
        self.lemma_tilted(self.table_bits(q - 1, j), j);
        if q < 11 {
            self.lemma_table_bits(q, j);
            self.lemma_tilted(self.table_bits(q, j), j);
        } else {
            self.lemma_tilted(self.cap[j], j);
        }
    }

    pub proof fn lemma_blend(self, f: int, j: int)
        requires
            self.wf(),
            self.start <= j < self.end,
            0 <= f <= 64,
        ensures
            0 <= f * self.step_bits(j) <= 0x820_0000,
            0 <= self.blend(f)[j] <= 0x41_0000,
    {
        self.lemma_levels(j);
        math::lemma_mul_range(f, 64, self.step_bits(j), 0x20_8000);
    }

    proof fn lemma_spent_zero(self, b: Seq<int>, j: int)
        requires
            self.wf(),
            self.start <= j <= self.end,
            forall|i: int| self.start <= i < self.end ==> #[trigger] b[i] == 0,
        ensures
            !self.reached(b, j),
            self.spent(b, j) == 0,
        decreases self.end - j,
    {
        if j < self.end {
            self.lemma_spent_zero(b, j + 1);
            self.lemma_thresh(j);
        }
    }

    proof fn lemma_spent_same(self, b: Seq<int>, d: Seq<int>, j: int)
        requires
            self.start <= j <= self.end,
            forall|i: int| self.start <= i < self.end ==> #[trigger] b[i] == d[i],
        ensures
            self.reached(b, j) == self.reached(d, j),
            self.spent(b, j) == self.spent(d, j),
        decreases self.end - j,
    {
        if j < self.end {
            self.lemma_spent_same(b, d, j + 1);
        }
    }

    /// What the bands take stays small.
    pub proof fn lemma_spent_bound(self, b: Seq<int>, j: int)
        requires
            self.wf(),
            self.start <= j <= self.end,
            forall|i: int| self.start <= i < self.end ==> 0 <= #[trigger] b[i] <= 0x41_0000,
        ensures
            0 <= self.spent(b, j) <= 0x10_0000 * (self.end - j),
        decreases self.end - j,
    {
        if j < self.end {
            self.lemma_spent_bound(b, j + 1);
        }
    }

    proof fn lemma_bisect(self, lo: int, hi: int, steps: nat)
        requires
            0 <= lo <= hi <= 64,
            self.spent(self.blend(lo), self.start) <= self.budget(),
        ensures
            lo <= self.bisect(lo, hi, steps) <= hi,
            self.spent(self.blend(self.bisect(lo, hi, steps)), self.start) <= self.budget(),
        decreases steps,
    {
        if steps > 0 {
            let mid = (lo + hi) / 2;
            if self.spent(self.blend(mid), self.start) > self.budget() {
                self.lemma_bisect(lo, mid, (steps - 1) as nat);
            } else {
                self.lemma_bisect(mid, hi, (steps - 1) as nat);
            }
        }
    }

    /// The blend that the bisection settles on fits the budget.
    pub proof fn lemma_blend_fits(self)
        requires
            self.wf(),
        ensures
            0 <= self.bisect(0, 64, 6) <= 64,
            self.spent(self.blend(self.bisect(0, 64, 6)), self.start) <= self.budget(),
    {
        self.lemma_quality();
        self.lemma_budget();
        let b = self.blend(0);
        assert forall|j: int| self.start <= j < self.end implies #[trigger] b[j] == self.low_bits(j) by {
            let s = self.step_bits(j);
            assert(0 * s == 0) by (nonlinear_arith);
        }
        if self.q_hi() == 1 {
            assert forall|j: int| self.start <= j < self.end implies #[trigger] b[j] == 0 by {
                lemma_first_row(j);
                let x = self.c * modes::width(j);
                let m = modes::frame_mult(self.lm);
                assert(x * 0 * m == 0) by (nonlinear_arith);
                assert(self.table_bits(0, j) == 0);
            }
            self.lemma_spent_zero(b, self.start);
        } else {
            let d = self.quality(self.q_hi() - 1);
            self.lemma_spent_same(b, d, self.start);
        }
        self.lemma_bisect(0, 64, 6);
    }

    proof fn lemma_first_sum(self, b: Seq<int>, j: int)
        requires
            self.wf(),
            self.start <= j <= self.end,
            b == self.blend(self.bisect(0, 64, 6)),
        ensures
            sum_range(self.first_bits(), j, self.end) <= self.spent(b, j),
        decreases self.end - j,
    {
        if j < self.end {
            self.lemma_first_sum(b, j + 1);
        }
    }

    proof fn lemma_last_boost(self, j: int)
        requires
            self.start <= j,
        ensures
            self.start <= self.last_boost(j),
            j > self.start ==> self.last_boost(j) < j,
        decreases j - self.start,
    {
        if j > self.start {
            self.lemma_last_boost(j - 1);
        }
    }

    /// The search for dropped bands begins with nothing overspent.
    pub proof fn lemma_skip_init(self)
        requires
            self.wf(),
        ensures
            self.skip_inv(self.skip_init()),
    {
        let st = self.skip_init();
        self.lemma_blend_fits();
        let f = self.bisect(0, 64, 6);
        let b = self.blend(f);
        self.lemma_first_sum(b, self.start);
        self.lemma_last_boost(self.end);
        assert forall|j: int| self.start <= j < self.end implies 0 <= #[trigger] st.bits[j] <= 0x10_0000 && st.bits[j]
            <= self.cap[j] by {
            self.lemma_blend(f, j);
        }
        lemma_log2_frac(self.end - self.start);
    }

    /// What a band would get of the unspent bits is no more than all of them.
    pub proof fn lemma_top_bits(self, st: SkipState)
        requires
            self.wf(),
            self.skip_inv(st),
        ensures
            modes::edge(st.coded) - modes::edge(self.start) >= 1,
            0 <= self.budget() - st.psum <= 0x100_0040,
            st.bits[st.coded - 1] <= self.top_bits(st) <= st.bits[st.coded - 1] + self.budget() - st.psum,
            0 <= (self.budget() - st.psum) / (modes::edge(st.coded) - modes::edge(self.start)) <= 0x100_0040,
            0 <= (self.budget() - st.psum) / (modes::edge(st.coded) - modes::edge(self.start)) * modes::width(
                st.coded - 1,
            ) <= self.budget() - st.psum,
            0 <= (modes::edge(st.coded) - modes::edge(self.start)) * ((self.budget() - st.psum) / (modes::edge(st.coded)
                - modes::edge(self.start))) <= self.budget() - st.psum,
    {
        let j = st.coded - 1;
        modes::lemma_edges(self.start, st.coded);
        modes::lemma_edges(self.start, j);
        modes::lemma_width(j);
        self.lemma_budget();
        lemma_sum_bounds(st.bits, self.start, self.end, 0x10_0000);
        let left = self.budget() - st.psum;
        let all = modes::edge(st.coded) - modes::edge(self.start);
        math::lemma_div(left, all);
        let p = left / all;
        let w = modes::width(j);
        assert(0 <= p * w <= all * p) by (nonlinear_arith)
            requires
                0 <= w <= all,
                p >= 0,
        ;
        assert(p <= all * p) by (nonlinear_arith)
            requires
                all >= 1,
                p >= 0,
        ;
    }

    /// Dropping a band keeps what holds throughout the search.
    pub proof fn lemma_next_down(self, st: SkipState)
        requires
            self.wf(),
            self.skip_inv(st),
            !self.must_stay(st),
        ensures
            self.skip_inv(self.next_down(st)),
            self.next_down(st).refund == st.refund,
    {
        let j = st.coded - 1;
        self.lemma_last_boost(self.end);
        self.lemma_top_bits(st);
        self.lemma_budget();
        lemma_log2_frac(st.coded - self.start);
        lemma_log2_frac(j - self.start);
        let band_bits = if self.flag_coded(st) { self.top_bits(st) - 8 } else { self.top_bits(st) };
        let keep = if band_bits >= 8 * self.c { 8 * self.c } else { 0 };
        lemma_sum_update(st.bits, self.start, self.end, j, keep);
    }

    /// The search ends with nothing overspent.
    pub proof fn lemma_skip(self, st: SkipState, dec: DecoderState)
        requires
            self.wf(),
            self.skip_inv(st),
            st.refund == 0,
        ensures
            self.skip_inv(self.skip(st, dec).0),
            self.skip(st, dec).0.refund == 0 || self.skip(st, dec).0.refund == self.skip_rsv(),
        decreases st.coded,
    {
        self.lemma_last_boost(self.end);
        if !self.must_stay(st) {
            self.lemma_next_down(st);
            if !self.flag_coded(st) {
                self.lemma_skip(self.next_down(st), dec);
            } else if !dec.bit(1) {
                self.lemma_skip(self.next_down(st), dec.after_bit(1));
            }
        }
    }

    /// What the search ends with can be split.
    pub proof fn lemma_settled(self, st: SkipState, intensity: int, dual: bool)
        requires
            self.wf(),
            self.skip_inv(st),
            st.refund == 0 || st.refund == self.skip_rsv(),
        ensures
            self.settled_ok(self.settled(st, intensity, dual)),
    {
        self.lemma_budget();
        lemma_sum_bounds(st.bits, self.start, self.end, 0x10_0000);
    }
}

/// The result of the bit allocation for one frame.
#[derive(Debug)]
pub struct Allocation {
    /// Bands from the first one up to here get shape bits; the rest are dropped.
    pub coded_bands: usize,
    /// The shape budget of each band.
    pub shape_bits: [i32; NB_EBANDS],
    /// The fine energy bits of each band, per channel.
    pub fine_quant: [i32; NB_EBANDS],
    /// Whether a band comes second when the last fine energy bits are handed
    /// out.
    pub fine_priority: [bool; NB_EBANDS],
    /// Shape bits that no band could use.
    pub balance: i32,
    /// The first band coded in intensity stereo.
    pub intensity: usize,
    /// Whether the channels are coded independently.
    pub dual_stereo: bool,
}

impl Allocation {
    /// No budget is negative or comes near the limits of the arithmetic.
    pub open spec fn bounded(&self, c: int) -> bool {
        &&& self.coded_bands <= 21
        &&& forall|j: int| 0 <= j < 21 ==> 0 <= #[trigger] self.shape_bits@[j] <= 0x10_0000
        &&& forall|j: int| 0 <= j < 21 ==> 0 <= #[trigger] self.fine_quant@[j] <= 8
        &&& 0 <= self.balance <= 0x400_0000
        &&& self.dual_stereo ==> c == 2
    }
}

/// What the second half of the allocation works from.
struct InterpParams {
    start: usize,
    end: usize,
    skip_start: usize,
    bits1: [i32; NB_EBANDS],
    bits2: [i32; NB_EBANDS],
    thresh: [i32; NB_EBANDS],
    cap: [i32; NB_EBANDS],
    total: i32,
    skip_rsv: i32,
    intensity_rsv: i32,
    dual_stereo_rsv: i32,
    channels: usize,
    lm: usize,
}

impl InterpParams {
    /// Whether these are the parameters that `inp` leads to.
    spec fn of(&self, inp: AllocInput) -> bool {
        &&& inp.wf()
        &&& self.start == inp.start
        &&& self.end == inp.end
        &&& self.skip_start == inp.last_boost(inp.end)
        &&& forall|j: int| inp.start <= j < inp.end ==> #[trigger] self.bits1@[j] == inp.low_bits(j)
        &&& forall|j: int| inp.start <= j < inp.end ==> #[trigger] self.bits2@[j] == inp.step_bits(j)
        &&& forall|j: int| inp.start <= j < inp.end ==> #[trigger] self.thresh@[j] == inp.thresh(j)
        &&& ints(self.cap@) == inp.cap
        &&& self.total == inp.budget()
        &&& self.skip_rsv == inp.skip_rsv()
        &&& self.intensity_rsv == inp.intensity_rsv()
        &&& self.dual_stereo_rsv == inp.dual_rsv()
        &&& self.channels == inp.c
        &&& self.lm == inp.lm
    }
}

/// What the bands take of the budgets `b`.
fn spent_on(
    start: usize,
    end: usize,
    thresh: &[i32; NB_EBANDS],
    cap: &[i32; NB_EBANDS],
    channels: usize,
    b: &[i32; NB_EBANDS],
    Ghost(inp): Ghost<AllocInput>,
) -> (r: i32)
    requires
        inp.wf(),
        start == inp.start,
        end == inp.end,
        channels == inp.c,
        forall|j: int| inp.start <= j < inp.end ==> #[trigger] thresh@[j] == inp.thresh(j),
        ints(cap@) == inp.cap,
        forall|j: int| inp.start <= j < inp.end ==> 0 <= #[trigger] b@[j] <= 0x41_0000,
    ensures
        r == inp.spent(ints(b@), inp.start),
{
    let floor: i32 = 8 * channels as i32;
    let ghost bs = ints(b@);
    let mut psum: i32 = 0;
    let mut done: bool = false;
    let mut j: usize = end;
    while j > start
        invariant
            inp.wf(),
            start == inp.start,
            end == inp.end,
            floor == 8 * inp.c,
            start <= j <= end,
            bs == ints(b@),
            forall|j: int| inp.start <= j < inp.end ==> #[trigger] thresh@[j] == inp.thresh(j),
            ints(cap@) == inp.cap,
            forall|j: int| inp.start <= j < inp.end ==> 0 <= #[trigger] b@[j] <= 0x41_0000,
            psum == inp.spent(bs, j as int),
            done == inp.reached(bs, j as int),
        decreases j,
    {
        j = j - 1;
        proof {
            assert(bs[j as int] == b@[j as int]);
            assert(inp.cap[j as int] == cap@[j as int]);
            assert forall|i: int| inp.start <= i < inp.end implies 0 <= #[trigger] bs[i] <= 0x41_0000 by {
                assert(bs[i] == b@[i]);
            }
            inp.lemma_spent_bound(bs, j + 1);
            inp.lemma_spent_bound(bs, j as int);
        }
        let x: i32 = b[j];
        if x >= thresh[j] || done {
            done = true;
            psum = psum + min_i32(x, cap[j]);
        } else if x >= floor {
            psum = psum + floor;
        }
    }
    psum
}

/// The allocation of a frame, with the flags for dropped bands and the stereo
/// parameters read from the stream. `offsets` are the boosts of the bands,
/// `alloc_trim` the tilt (5 is level) and `total` the budget, in 1/8 bits.
pub fn compute_allocation(
    dec: &mut RangeDecoder,
    start: usize,
    end: usize,
    offsets: &[i32; NB_EBANDS],
    cap: &[i32; NB_EBANDS],
    alloc_trim: i32,
    total: i32,
    channels: usize,
    lm: usize,
) -> (r: Allocation)
    requires
        old(dec).wf(),
        alloc_input(start, end, offsets@, cap@, alloc_trim, total, channels, lm).wf(),
    ensures
        final(dec).wf(),
        ({
            let inp = alloc_input(start, end, offsets@, cap@, alloc_trim, total, channels, lm);
            inp.splits_to(inp.settle(old(dec)@), r) && final(dec)@ == inp.after(old(dec)@)
        }),
{
    let ghost inp = alloc_input(start, end, offsets@, cap@, alloc_trim, total, channels, lm);
    let params: InterpParams = bracket(start, end, offsets, cap, alloc_trim, total, channels, lm, Ghost(inp));
    interp_bits2pulses(dec, params, Ghost(inp))
}

/// The first half of the allocation: the reserves, and the two qualities that
/// bracket the budget.
fn bracket(
    start: usize,
    end: usize,
    offsets: &[i32; NB_EBANDS],
    cap: &[i32; NB_EBANDS],
    alloc_trim: i32,
    total: i32,
    channels: usize,
    lm: usize,
    Ghost(inp): Ghost<AllocInput>,
) -> (r: InterpParams)
    requires
        inp == alloc_input(start, end, offsets@, cap@, alloc_trim, total, channels, lm),
        inp.wf(),
    ensures
        r.of(inp),
{
    let c: i32 = channels as i32;
    let m: i32 = frame_multiple(lm);
    let mut left: i32 = max_i32(total, 0);
    proof {
        inp.lemma_budget();
        lemma_log2_frac(end - start);
    }
    let skip_rsv: i32 = if left >= 8 {
        8
    } else {
        0
    };
    left = left - skip_rsv;
    let mut intensity_rsv: i32 = 0;
    let mut dual_stereo_rsv: i32 = 0;
    if channels == 2 {
        let need: i32 = LOG2_FRAC_TABLE[end - start] as i32;
        if need <= left {
            intensity_rsv = need;
            left = left - need;
            dual_stereo_rsv = if left >= 8 {
                8
            } else {
                0
            };
            left = left - dual_stereo_rsv;
        }
    }
    assert(left == inp.budget());
    let mut thresh: [i32; NB_EBANDS] = [0; 21];
    let mut trim_offset: [i32; NB_EBANDS] = [0; 21];
    let mut j: usize = start;
    while j < end
        invariant
            inp.wf(),
            start == inp.start,
            end == inp.end,
            c == inp.c,
            lm == inp.lm,
            alloc_trim == inp.trim,
            m == modes::frame_mult(inp.lm),
            start <= j <= end,
            forall|i: int| inp.start <= i < j ==> #[trigger] thresh@[i] == inp.thresh(i),
            forall|i: int| inp.start <= i < j ==> #[trigger] trim_offset@[i] == inp.trim_offset(i),
        decreases end - j,
    {
        let w: i32 = band_width(j);
        proof {
            inp.lemma_thresh(j as int);
            inp.lemma_trim_offset(j as int);
        }
        let wm: i32 = w * m;
        thresh[j] = max_i32(8 * c, 3 * wm / 2);
        let t: i32 = c * w * (alloc_trim - 5 - lm as i32) * (end as i32 - j as i32 - 1) * (8 * m);
        let tilt: i32 = floor_div(t, 64);
        trim_offset[j] = if wm == 1 {
            tilt - 8 * c
        } else {
            tilt
        };
        j = j + 1;
    }
    let mut lo: usize = 1;
    let mut hi: usize = 10;
    while lo <= hi
        invariant
            inp.wf(),
            start == inp.start,
            end == inp.end,
            c == inp.c,
            channels == inp.c,
            lm == inp.lm,
            m == modes::frame_mult(inp.lm),
            left == inp.budget(),
            inp.offsets == ints(offsets@),
            inp.cap == ints(cap@),
            forall|i: int| inp.start <= i < inp.end ==> #[trigger] thresh@[i] == inp.thresh(i),
            forall|i: int| inp.start <= i < inp.end ==> #[trigger] trim_offset@[i] == inp.trim_offset(i),
            1 <= lo <= 11,
            hi <= 10,
            lo <= hi + 1,
            inp.q_hi() == inp.search(lo as int, hi as int),
        decreases hi + 1 - lo,
    {
        let mid: usize = (lo + hi) / 2;
        let mut b: [i32; NB_EBANDS] = [0; 21];
        let mut j: usize = start;
        while j < end
            invariant
                inp.wf(),
                start == inp.start,
                end == inp.end,
                c == inp.c,
                m == modes::frame_mult(inp.lm),
                1 <= mid <= 10,
                start <= j <= end,
                inp.offsets == ints(offsets@),
                forall|i: int| inp.start <= i < inp.end ==> #[trigger] trim_offset@[i] == inp.trim_offset(i),
                forall|i: int|
                    inp.start <= i < j ==> #[trigger] b@[i] == inp.quality(mid as int)[i] && 0 <= b@[i] <= 0x41_0000,
            decreases end - j,
        {
            let w: i32 = band_width(j);
            proof {
                inp.lemma_table_bits(mid as int, j as int);
                inp.lemma_tilted(inp.table_bits(mid as int, j as int), j as int);
                inp.lemma_trim_offset(j as int);
                assert(inp.offsets[j as int] == offsets@[j as int]);
            }
            let mut x: i32 = c * w * BAND_ALLOCATION[mid * 21 + j] as i32 * m / 4;
            if x > 0 {
                x = max_i32(x + trim_offset[j], 0);
            }
            b[j] = x + offsets[j];
            j = j + 1;
        }
        let psum: i32 = spent_on(start, end, &thresh, cap, channels, &b, Ghost(inp));
        proof {
            inp.lemma_spent_same(ints(b@), inp.quality(mid as int), inp.start);
        }
        if psum > left {
            hi = mid - 1;
        } else {
            lo = mid + 1;
        }
    }
    let q_hi: usize = lo;
    let q_lo: usize = lo - 1;
    proof {
        inp.lemma_quality();
    }
    let mut bits1: [i32; NB_EBANDS] = [0; 21];
    let mut bits2: [i32; NB_EBANDS] = [0; 21];
    let mut skip_start: usize = start;
    j = start;
    while j < end
        invariant
            inp.wf(),
            start == inp.start,
            end == inp.end,
            c == inp.c,
            m == modes::frame_mult(inp.lm),
            q_hi == inp.q_hi(),
            q_lo == q_hi - 1,
            1 <= q_hi <= 11,
            start <= j <= end,
            inp.offsets == ints(offsets@),
            inp.cap == ints(cap@),
            forall|i: int| inp.start <= i < inp.end ==> #[trigger] trim_offset@[i] == inp.trim_offset(i),
            forall|i: int| inp.start <= i < j ==> #[trigger] bits1@[i] == inp.low_bits(i),
            forall|i: int| inp.start <= i < j ==> #[trigger] bits2@[i] == inp.step_bits(i),
            skip_start == inp.last_boost(j as int),
        decreases end - j,
    {
        let w: i32 = band_width(j);
        proof {
            inp.lemma_table_bits(q_lo as int, j as int);
            inp.lemma_levels(j as int);
            inp.lemma_trim_offset(j as int);
            if q_hi < 11 {
                inp.lemma_table_bits(q_hi as int, j as int);
            }
            assert(inp.offsets[j as int] == offsets@[j as int]);
            assert(inp.cap[j as int] == cap@[j as int]);
        }
        let mut x: i32 = c * w * BAND_ALLOCATION[q_lo * 21 + j] as i32 * m / 4;
        let mut y: i32 = if q_hi >= NB_ALLOC_VECTORS {
            cap[j]
        } else {
            c * w * BAND_ALLOCATION[q_hi * 21 + j] as i32 * m / 4
        };
        if x > 0 {
            x = max_i32(x + trim_offset[j], 0);
        }
        if y > 0 {
            y = max_i32(y + trim_offset[j], 0);
        }
        if q_lo > 0 {
            x = x + offsets[j];
        }
        y = y + offsets[j];
        if offsets[j] > 0 {
            skip_start = j;
        }
        bits1[j] = x;
        bits2[j] = max_i32(y - x, 0);
        j = j + 1;
    }
    InterpParams {
        start,
        end,
        skip_start,
        bits1,
        bits2,
        thresh,
        cap: *cap,
        total: left,
        skip_rsv,
        intensity_rsv,
        dual_stereo_rsv,
        channels,
        lm,
    }
}

/// The arguments of the allocation as integers.
pub open spec fn alloc_input(
    start: usize,
    end: usize,
    offsets: Seq<i32>,
    cap: Seq<i32>,
    alloc_trim: i32,
    total: i32,
    channels: usize,
    lm: usize,
) -> AllocInput {
    AllocInput {
        start: start as int,
        end: end as int,
        offsets: ints(offsets),
        cap: ints(cap),
        trim: alloc_trim as int,
        total: total as int,
        c: channels as int,
        lm: lm as int,
    }
}

impl AllocInput {
    /// Whether `r` is the allocation that the budgets, split by `t`, come to.
    pub open spec fn splits_to(self, t: Settled, r: Allocation) -> bool {
        &&& r.coded_bands == t.coded
        &&& r.intensity == t.intensity
        &&& r.dual_stereo == t.dual
        &&& r.balance == self.balance_at(t, t.coded)
        &&& forall|j: int| 0 <= j < 21 ==> #[trigger] r.shape_bits@[j] == self.shape_bits(t, j)
        &&& forall|j: int| 0 <= j < 21 ==> #[trigger] r.fine_quant@[j] == self.fine_quant(t, j)
        &&& forall|j: int| 0 <= j < 21 ==> #[trigger] r.fine_priority@[j] == self.fine_priority(t, j)
    }

    /// The unspent bits are never negative, so every final budget is not.
    pub proof fn lemma_final_bits(self, t: Settled, j: int)
        requires
            self.wf(),
            self.settled_ok(t),
            self.start <= j < t.coded,
        ensures
            modes::edge(t.coded) - modes::edge(self.start) >= 1,
            0 <= self.final_bits(t, j) <= 0x1a0_0000,
            0 <= t.left / (modes::edge(t.coded) - modes::edge(self.start)) * modes::width(j) <= t.left,
            0 <= (modes::edge(t.coded) - modes::edge(self.start)) * (t.left / (modes::edge(t.coded) - modes::edge(
                self.start,
            ))) <= t.left,
            t.left - (modes::edge(t.coded) - modes::edge(self.start)) * (t.left / (modes::edge(t.coded) - modes::edge(
                self.start,
            ))) < modes::edge(t.coded) - modes::edge(self.start),
    {
        modes::lemma_edges(self.start, t.coded);
        modes::lemma_edges(self.start, j);
        modes::lemma_edges(j + 1, t.coded);
        modes::lemma_width(j);
        let all = modes::edge(t.coded) - modes::edge(self.start);
        math::lemma_div(t.left, all);
        let p = t.left / all;
        let w = modes::width(j);
        assert(0 <= p * w <= all * p) by (nonlinear_arith)
            requires
                0 <= w <= all,
                p >= 0,
        ;
    }

    /// The products that the split of a band is made of.
    pub proof fn lemma_freedom(self, j: int, intensity: int, dual: bool)
        requires
            self.wf(),
            0 <= j < 21,
        ensures
            1 <= self.freedom(j, intensity, dual) <= 353,
            0 <= self.freedom(j, intensity, dual) * (LOG_N[j] + 8 * self.lm) <= 21180,
            1 <= self.c * (modes::width(j) * modes::frame_mult(self.lm)) <= 352,
    {
        self.lemma_thresh(j);
        modes::lemma_width(j);
        let n = modes::width(j) * modes::frame_mult(self.lm);
        math::lemma_mul_range(self.c, 2, n, 176);
        assert(self.c * n >= 1) by (nonlinear_arith)
            requires
                self.c >= 1,
                n >= 1,
        ;
        math::lemma_mul_range(self.freedom(j, intensity, dual), 353, LOG_N[j] + 8 * self.lm, 60);
    }

    /// A band's fine bits never exceed its budget.
    pub proof fn lemma_fine_share(self, j: int, b: int, den: int)
        requires
            self.wf(),
            0 <= j < 21,
            0 <= b,
            den >= 1,
        ensures
            0 <= self.fine_share(j, b, den) <= 8,
            0 <= 8 * (self.c * self.fine_share(j, b, den)) <= b,
    {
        let num = b + self.fine_offset(j, b, den) + 4 * den;
        math::lemma_div(num, 8 * den);
        let e = if num >= 0 { num / (8 * den) } else { 0 };
        let f = if self.c * e > b / 8 { b / (8 * self.c) } else { e };
        if self.c == 1 {
            assert(self.c * e == e) by (nonlinear_arith)
                requires
                    self.c == 1,
            ;
            assert(b / (8 * self.c) == b / 8);
        } else {
            assert(self.c * e == 2 * e) by (nonlinear_arith)
                requires
                    self.c == 2,
            ;
            assert(b / (8 * self.c) == b / 16);
        }
        let s = self.fine_share(j, b, den);
        assert(self.c * s == if self.c == 1 { s } else { 2 * s }) by (nonlinear_arith)
            requires
                self.c == 1 || self.c == 2,
        ;
    }

    /// The split of a band loses nothing: shape, fine bits and what is passed on
    /// add up to what came in.
    pub proof fn lemma_split(self, j: int, x: int, balance: int, intensity: int, dual: bool)
        requires
            self.wf(),
            0 <= j < 21,
            0 <= x,
            0 <= balance,
        ensures
            ({
                let r = self.split(j, x, balance, intensity, dual);
                &&& r.shape >= 0
                &&& 0 <= r.fine <= 8
                &&& 0 <= r.balance <= x + balance
                &&& r.shape + 8 * (self.c * r.fine) + r.balance == x + balance
                &&& r.shape <= if modes::width(j) * modes::frame_mult(self.lm) > 1 {
                    self.cap[j]
                } else {
                    8 * self.c
                }
            }),
    {
        self.lemma_freedom(j, intensity, dual);
        let n = modes::width(j) * modes::frame_mult(self.lm);
        let bit = x + balance;
        let limit = if n > 1 { self.cap[j] } else { 8 * self.c };
        let excess = math::max(bit - limit, 0);
        let b = bit - excess;
        let den = self.freedom(j, intensity, dual);
        self.lemma_fine_share(j, b, den);
        let fine = if n > 1 { self.fine_share(j, b, den) } else { 0 };
        let extra = if excess > 0 { math::min(excess / (8 * self.c), 8 - fine) } else { 0 };
        let q = excess / (8 * self.c);
        math::lemma_div(excess, 8 * self.c);
        assert((8 * self.c) * q == 8 * (self.c * q)) by (nonlinear_arith);
        assert(self.c * extra <= self.c * q) by (nonlinear_arith)
            requires
                self.c >= 1,
                extra <= q,
        ;
        assert(0 <= self.c * extra) by (nonlinear_arith)
            requires
                self.c >= 1,
                extra >= 0,
        ;
        assert(self.c * extra == if self.c == 1 { extra } else { 2 * extra }) by (nonlinear_arith)
            requires
                self.c == 1 || self.c == 2,
        ;
        assert(self.c * fine == if self.c == 1 { fine } else { 2 * fine }) by (nonlinear_arith)
            requires
                self.c == 1 || self.c == 2,
        ;
        assert(self.c * (fine + extra) == self.c * fine + self.c * extra) by (nonlinear_arith);
    }

    /// What the coded bands pass on stays in range.
    pub proof fn lemma_balance(self, t: Settled, j: int)
        requires
            self.wf(),
            self.settled_ok(t),
            self.start <= j <= t.coded,
        ensures
            0 <= self.balance_at(t, j) <= 0x1a0_0000 * (j - self.start),
        decreases j,
    {
        if j > self.start {
            self.lemma_balance(t, j - 1);
            self.lemma_final_bits(t, j - 1);
            self.lemma_split(j - 1, self.final_bits(t, j - 1), self.balance_at(t, j - 1), t.intensity, t.dual);
        }
    }
}

/// Where the search for dropped bands stands.
struct Skipped {
    coded: usize,
    bits: [i32; NB_EBANDS],
    psum: i32,
    rsv: i32,
    refund: i32,
}

impl Skipped {
    spec fn state(&self, flags: int) -> SkipState {
        SkipState {
            coded: self.coded as int,
            bits: ints(self.bits@),
            psum: self.psum as int,
            rsv: self.rsv as int,
            refund: self.refund as int,
            flags,
        }
    }

    /// What the top coded band would have with the unspent bits.
    fn top_bits(&self, p: &InterpParams, Ghost(inp): Ghost<AllocInput>, Ghost(flags): Ghost<int>) -> (r: i32)
        requires
            p.of(inp),
            inp.skip_inv(self.state(flags)),
        ensures
            r == inp.top_bits(self.state(flags)),
    {
        let ghost cur = self.state(flags);
        let j: usize = self.coded - 1;
        proof {
            inp.lemma_top_bits(cur);
            assert(cur.bits[j as int] == self.bits@[j as int]);
            lemma_sum_bounds(cur.bits, inp.start, inp.end, 0x10_0000);
            inp.lemma_budget();
            lemma_log2_frac(self.coded - inp.start);
            modes::lemma_edges(inp.start, j as int);
        }
        let left: i32 = p.total - self.psum;
        let all: i32 = band_edge(self.coded) - band_edge(p.start);
        let per_bin: i32 = left / all;
        let rem: i32 = left - all * per_bin;
        let more: i32 = max_i32(rem - (band_edge(j) - band_edge(p.start)), 0);
        self.bits[j] + per_bin * band_width(j) + more
    }

    /// Drops the top coded band, by a flag or without one.
    fn go_down(
        &mut self,
        p: &InterpParams,
        flagged: bool,
        top_bits: i32,
        Ghost(inp): Ghost<AllocInput>,
        Ghost(flags): Ghost<int>,
    )
        requires
            p.of(inp),
            inp.skip_inv(old(self).state(flags)),
            !inp.must_stay(old(self).state(flags)),
            flagged == inp.flag_coded(old(self).state(flags)),
            top_bits == inp.top_bits(old(self).state(flags)),
        ensures
            final(self).state(
                if flagged {
                    flags + 1
                } else {
                    flags
                },
            ) == inp.next_down(old(self).state(flags)),
            final(self).coded < old(self).coded,
    {
        let ghost cur = self.state(flags);
        let j: usize = self.coded - 1;
        let floor: i32 = 8 * p.channels as i32;
        proof {
            inp.lemma_last_boost(inp.end);
            inp.lemma_top_bits(cur);
            inp.lemma_next_down(cur);
            assert(cur.bits[j as int] == self.bits@[j as int]);
            lemma_sum_bounds(cur.bits, inp.start, inp.end, 0x10_0000);
            inp.lemma_budget();
            lemma_log2_frac(self.coded - inp.start);
            lemma_log2_frac(j - inp.start);
        }
        let mut band_bits: i32 = top_bits;
        if flagged {
            self.psum = self.psum + 8;
            band_bits = band_bits - 8;
        }
        let rsv: i32 = if self.rsv > 0 {
            LOG2_FRAC_TABLE[j - p.start] as i32
        } else {
            0
        };
        let keep: i32 = if band_bits >= floor {
            floor
        } else {
            0
        };
        self.psum = self.psum - self.bits[j] - self.rsv + rsv + keep;
        self.rsv = rsv;
        self.bits[j] = keep;
        self.coded = j;
        assert(ints(self.bits@) =~= cur.bits.update(j as int, keep as int));
    }
}

/// Drops bands from the top, as the flags of the stream say.
fn skip_bands(dec: &mut RangeDecoder, p: &InterpParams, first: Skipped, Ghost(inp): Ghost<AllocInput>) -> (r: (
    Skipped,
    Ghost<int>,
))
    requires
        old(dec).wf(),
        p.of(inp),
        inp.skip_inv(first.state(0)),
        first.refund == 0,
    ensures
        final(dec).wf(),
        (r.0.state(r.1@), final(dec)@) == inp.skip(first.state(0), old(dec)@),
{
    let ghost target = inp.skip(first.state(0), dec@);
    let mut st = first;
    let ghost mut flags: int = 0;
    let floor: i32 = 8 * p.channels as i32;
    let mut searching: bool = true;
    while searching
        invariant
            dec.wf(),
            p.of(inp),
            floor == 8 * inp.c,
            searching ==> inp.skip_inv(st.state(flags)) && st.refund == 0 && inp.skip(st.state(flags), dec@) == target,
            !searching ==> (st.state(flags), dec@) == target,
        decreases st.coded, (if searching { 1int } else { 0int }),
    {
        let ghost cur = st.state(flags);
        proof {
            dec.lemma_wf();
            inp.lemma_last_boost(inp.end);
        }
        if st.coded - 1 <= p.skip_start {
            st.refund = p.skip_rsv;
            searching = false;
            assert(st.state(flags) == inp.stayed(cur));
        } else {
            proof {
                inp.lemma_thresh(cur.coded - 1);
                inp.lemma_next_down(cur);
            }
            let top_bits: i32 = st.top_bits(p, Ghost(inp), Ghost(flags));
            let flagged: bool = top_bits >= max_i32(p.thresh[st.coded - 1], floor + 8);
            if flagged && dec.decode_bit_logp(1) {
                searching = false;
            } else {
                st.go_down(p, flagged, top_bits, Ghost(inp), Ghost(flags));
                proof {
                    if flagged {
                        flags = flags + 1;
                    }
                }
            }
        }
    }
    (st, Ghost(flags))
}

/// The fine bits per channel of a band with `b` bits and `den` degrees of
/// freedom, and whether that is at least its share.
fn fine_of(p: &InterpParams, j: usize, b: i32, den: i32, n: i32, Ghost(inp): Ghost<AllocInput>) -> (r: (i32, bool))
    requires
        p.of(inp),
        j < 21,
        0 <= b <= 0x10_0000,
        1 <= den <= 353,
        n == modes::width(j as int) * modes::frame_mult(inp.lm),
    ensures
        r.0 == inp.fine_share(j as int, b as int, den as int),
        r.1 == (r.0 * (8 * den) >= b + inp.fine_offset(j as int, b as int, den as int)),
{
    let c: i32 = p.channels as i32;
    proof {
        modes::lemma_width(j as int);
        math::lemma_mul_range(den as int, 353, LOG_N[j as int] + 8 * inp.lm, 60);
        inp.lemma_fine_share(j as int, b as int, den as int);
    }
    let nclog: i32 = den * (LOG_N[j] as i32 + 8 * p.lm as i32);
    let mut offset: i32 = nclog / 2 - den * 21;
    if n == 2 {
        offset = offset + 2 * den;
    }
    if b + offset < 16 * den {
        offset = offset + nclog / 4;
    } else if b + offset < 24 * den {
        offset = offset + nclog / 8;
    }
    assert(offset == inp.fine_offset(j as int, b as int, den as int));
    let num: i32 = b + offset + 4 * den;
    let mut e: i32 = if num >= 0 {
        num / (8 * den)
    } else {
        0
    };
    proof {
        math::lemma_div(num as int, 8 * den);
        if num >= 0 {
            assert(e <= (8 * den) * e) by (nonlinear_arith)
                requires
                    den >= 1,
                    e >= 0,
            ;
        }
        math::lemma_mul_range(c as int, 2, e as int, 0x20_0000);
    }
    if c * e > b / 8 {
        e = b / (8 * c);
    }
    let fine: i32 = min_i32(e, 8);
    proof {
        math::lemma_mul_range(fine as int, 8, 8 * den, 2824);
    }
    (fine, fine * (8 * den) >= b + offset)
}

/// Splits a band's budget: shape bits, fine bits, priority and what is passed
/// on.
fn split_band(
    p: &InterpParams,
    j: usize,
    x: i32,
    balance: i32,
    intensity: usize,
    dual: bool,
    Ghost(inp): Ghost<AllocInput>,
) -> (r: (i32, i32, bool, i32))
    requires
        p.of(inp),
        j < 21,
        0 <= x <= 0x1a0_0000,
        0 <= balance <= 0x2400_0000,
    ensures
        ({
            let s = inp.split(j as int, x as int, balance as int, intensity as int, dual);
            &&& r.0 == s.shape
            &&& r.1 == s.fine
            &&& r.2 == s.priority
            &&& r.3 == s.balance
        }),
{
    let c: i32 = p.channels as i32;
    let m: i32 = frame_multiple(p.lm);
    let w: i32 = band_width(j);
    proof {
        inp.lemma_thresh(j as int);
        inp.lemma_freedom(j as int, intensity as int, dual);
        inp.lemma_split(j as int, x as int, balance as int, intensity as int, dual);
        assert(inp.cap[j as int] == p.cap@[j as int]);
        modes::lemma_width(j as int);
    }
    let n: i32 = w * m;
    let bit: i32 = x + balance;
    let limit: i32 = if n > 1 {
        p.cap[j]
    } else {
        8 * c
    };
    let excess: i32 = max_i32(bit - limit, 0);
    let b: i32 = bit - excess;
    let mut fine: i32 = 0;
    let mut priority: bool = true;
    if n > 1 {
        let den: i32 = c * n + if p.channels == 2 && n > 2 && !dual && j < intensity {
            1
        } else {
            0
        };
        assert(den == inp.freedom(j as int, intensity as int, dual));
        proof {
            inp.lemma_fine_share(j as int, b as int, den as int);
        }
        let (share, kept) = fine_of(p, j, b, den, n, Ghost(inp));
        fine = share;
        priority = kept;
    }
    let shape: i32 = b - 8 * (c * fine);
    let mut passed: i32 = 0;
    if excess > 0 {
        let extra: i32 = min_i32(excess / (8 * c), 8 - fine);
        proof {
            math::lemma_mul_range(c as int, 2, extra as int, 8);
        }
        let extra_bits: i32 = 8 * (c * extra);
        fine = fine + extra;
        priority = extra_bits >= excess - balance;
        passed = excess - extra_bits;
    } else {
        proof {
            assert(c * 0 == 0) by (nonlinear_arith);
        }
    }
    (shape, fine, priority, passed)
}

/// The budgets before bands are dropped: refined between the two qualities as far
/// as they fit.
fn first_budgets(p: &InterpParams, Ghost(inp): Ghost<AllocInput>) -> (r: Skipped)
    requires
        p.of(inp),
    ensures
        r.state(0) == inp.skip_init(),
        inp.skip_inv(r.state(0)),
{
    let start: usize = p.start;
    let end: usize = p.end;
    let floor: i32 = 8 * p.channels as i32;
    let mut lo: i32 = 0;
    let mut hi: i32 = 64;
    let mut step: u32 = 0;
    while step < 6
        invariant
            p.of(inp),
            start == inp.start,
            end == inp.end,
            step <= 6,
            0 <= lo <= hi <= 64,
            inp.bisect(0, 64, 6) == inp.bisect(lo as int, hi as int, (6 - step) as nat),
        decreases 6 - step,
    {
        let mid: i32 = (lo + hi) / 2;
        let b: [i32; NB_EBANDS] = blend_bits(p, mid, Ghost(inp));
        let psum: i32 = spent_on(start, end, &p.thresh, &p.cap, p.channels, &b, Ghost(inp));
        proof {
            inp.lemma_spent_same(ints(b@), inp.blend(mid as int), inp.start);
        }
        if psum > p.total {
            hi = mid;
        } else {
            lo = mid;
        }
        step = step + 1;
    }
    let b: [i32; NB_EBANDS] = blend_bits(p, lo, Ghost(inp));
    let ghost bs = inp.blend(lo as int);
    let mut bits: [i32; NB_EBANDS] = [0; 21];
    let mut psum: i32 = 0;
    let mut done: bool = false;
    let mut j: usize = end;
    while j > start
        invariant
            p.of(inp),
            start == inp.start,
            end == inp.end,
            floor == 8 * inp.c,
            start <= j <= end,
            bs == inp.blend(inp.bisect(0, 64, 6)),
            forall|i: int| inp.start <= i < inp.end ==> #[trigger] b@[i] == bs[i] && 0 <= b@[i] <= 0x41_0000,
            done == inp.reached(bs, j as int),
            forall|i: int| j <= i < 21 ==> #[trigger] bits@[i] == inp.first_bits()[i],
            forall|i: int| 0 <= i < j ==> #[trigger] bits@[i] == 0,
            psum == sum_range(inp.first_bits(), j as int, inp.end),
            0 <= psum <= 0x10_0000 * (end - j),
        decreases j,
    {
        j = j - 1;
        proof {
            assert(b@[j as int] == bs[j as int]);
            assert(inp.cap[j as int] == p.cap@[j as int]);
        }
        let mut x: i32 = b[j];
        if x < p.thresh[j] && !done {
            x = if x >= floor {
                floor
            } else {
                0
            };
        } else {
            done = true;
        }
        x = min_i32(x, p.cap[j]);
        bits[j] = x;
        psum = psum + x;
        assert(x == inp.first_bits()[j as int]);
    }
    assert(ints(bits@) =~= inp.first_bits());
    let r = Skipped { coded: end, bits, psum, rsv: p.intensity_rsv, refund: 0 };
    proof {
        inp.lemma_skip_init();
        assert(r.state(0) == inp.skip_init());
    }
    r
}

/// The second half of the allocation: refines the budgets between the two
/// qualities, drops bands, reads the stereo parameters and splits the budgets.
fn interp_bits2pulses(dec: &mut RangeDecoder, p: InterpParams, Ghost(inp): Ghost<AllocInput>) -> (r: Allocation)
    requires
        old(dec).wf(),
        p.of(inp),
    ensures
        final(dec).wf(),
        inp.splits_to(inp.settle(old(dec)@), r),
        final(dec)@ == inp.after(old(dec)@),
{
    proof {
        inp.lemma_skip_init();
        inp.lemma_skip(inp.skip_init(), dec@);
    }
    let first: Skipped = first_budgets(&p, Ghost(inp));
    let (skipped, Ghost(flags)) = skip_bands(dec, &p, first, Ghost(inp));
    let ghost st = skipped.state(flags);
    let ghost d = dec@;
    let intensity: usize = if skipped.rsv > 0 {
        match dec.decode_uint((skipped.coded + 1 - p.start) as u32) {
            Some(x) => p.start + x as usize,
            None => p.start,
        }
    } else {
        0
    };
    assert(intensity == inp.intensity(st, d));
    assert(dec@ == inp.after_intensity(st, d));
    let dual_stereo: bool = intensity > p.start && p.dual_stereo_rsv > 0 && dec.decode_bit_logp(1);
    split_all(&p, &skipped, intensity, dual_stereo, Ghost(inp), Ghost(flags))
}

/// Splits the budgets of all bands.
fn split_all(
    p: &InterpParams,
    skipped: &Skipped,
    intensity: usize,
    dual_stereo: bool,
    Ghost(inp): Ghost<AllocInput>,
    Ghost(flags): Ghost<int>,
) -> (r: Allocation)
    requires
        p.of(inp),
        inp.skip_inv(skipped.state(flags)),
        skipped.refund == 0 || skipped.refund == inp.skip_rsv(),
    ensures
        inp.splits_to(inp.settled(skipped.state(flags), intensity as int, dual_stereo), r),
{
    let ghost st = skipped.state(flags);
    let ghost t = inp.settled(st, intensity as int, dual_stereo);
    proof {
        inp.lemma_settled(st, intensity as int, dual_stereo);
        inp.lemma_budget();
        lemma_sum_bounds(st.bits, inp.start, inp.end, 0x10_0000);
    }
    let start: usize = p.start;
    let end: usize = p.end;
    let coded: usize = skipped.coded;
    let bits: [i32; NB_EBANDS] = skipped.bits;
    let floor: i32 = 8 * p.channels as i32;
    let mut total: i32 = p.total + skipped.refund;
    if !(intensity > start && p.dual_stereo_rsv > 0) {
        total = total + p.dual_stereo_rsv;
    }
    let left: i32 = total - skipped.psum;
    let mut shape_bits: [i32; NB_EBANDS] = [0; 21];
    let mut fine_quant: [i32; NB_EBANDS] = [0; 21];
    let mut fine_priority: [bool; NB_EBANDS] = [false; 21];
    proof {
        inp.lemma_final_bits(t, inp.start);
    }
    let all: i32 = band_edge(coded) - band_edge(start);
    let per_bin: i32 = left / all;
    let rem: i32 = left - all * per_bin;
    let mut balance: i32 = 0;
    let mut j: usize = start;
    while j < coded
        invariant
            p.of(inp),
            start == inp.start,
            end == inp.end,
            inp.settled_ok(t),
            t == (Settled {
                coded: coded as int,
                bits: ints(bits@),
                left: left as int,
                intensity: intensity as int,
                dual: dual_stereo,
            }),
            all == modes::edge(t.coded) - modes::edge(inp.start),
            all >= 1,
            per_bin == left as int / all as int,
            rem == left - all * per_bin,
            start <= j <= coded,
            balance == inp.balance_at(t, j as int),
            forall|i: int| 0 <= i < j ==> #[trigger] shape_bits@[i] == inp.shape_bits(t, i),
            forall|i: int| 0 <= i < j ==> #[trigger] fine_quant@[i] == inp.fine_quant(t, i),
            forall|i: int| 0 <= i < j ==> #[trigger] fine_priority@[i] == inp.fine_priority(t, i),
            forall|i: int| j <= i < 21 ==> #[trigger] shape_bits@[i] == 0,
            forall|i: int| j <= i < 21 ==> #[trigger] fine_quant@[i] == 0,
            forall|i: int| j <= i < 21 ==> #[trigger] fine_priority@[i] == false,
        decreases coded - j,
    {
        proof {
            inp.lemma_final_bits(t, j as int);
            inp.lemma_balance(t, j as int);
            modes::lemma_edges(inp.start, j as int);
            assert(t.bits[j as int] == bits@[j as int]);
        }
        let w: i32 = band_width(j);
        let more: i32 = max_i32(min_i32(rem - (band_edge(j) - band_edge(start)), w), 0);
        let x: i32 = bits[j] + per_bin * w + more;
        assert(x == inp.final_bits(t, j as int));
        let (shape, fine, priority, passed) = split_band(p, j, x, balance, intensity, dual_stereo, Ghost(inp));
        proof {
            assert(inp.split_at(t, j as int) == inp.split(
                j as int,
                x as int,
                balance as int,
                intensity as int,
                dual_stereo,
            ));
        }
        shape_bits[j] = shape;
        fine_quant[j] = fine;
        fine_priority[j] = priority;
        balance = passed;
        j = j + 1;
    }
    while j < end
        invariant
            p.of(inp),
            start == inp.start,
            end == inp.end,
            floor == 8 * inp.c,
            inp.settled_ok(t),
            t.coded == coded,
            t.bits == ints(bits@),
            coded <= j <= end,
            forall|i: int| 0 <= i < 21 ==> #[trigger] shape_bits@[i] == inp.shape_bits(t, i),
            forall|i: int| 0 <= i < j ==> #[trigger] fine_quant@[i] == inp.fine_quant(t, i),
            forall|i: int| 0 <= i < j ==> #[trigger] fine_priority@[i] == inp.fine_priority(t, i),
            forall|i: int| j <= i < 21 ==> #[trigger] fine_quant@[i] == 0,
            forall|i: int| j <= i < 21 ==> #[trigger] fine_priority@[i] == false,
        decreases end - j,
    {
        assert(t.bits[j as int] == bits@[j as int]);
        let e: i32 = bits[j] / floor;
        fine_quant[j] = e;
        fine_priority[j] = e < 1;
        j = j + 1;
    }
    Allocation { coded_bands: coded, shape_bits, fine_quant, fine_priority, balance, intensity, dual_stereo }
}

/// The budgets `f` steps of 1/64 above the lower quality.
fn blend_bits(p: &InterpParams, f: i32, Ghost(inp): Ghost<AllocInput>) -> (b: [i32; NB_EBANDS])
    requires
        p.of(inp),
        0 <= f <= 64,
    ensures
        forall|j: int|
            inp.start <= j < inp.end ==> #[trigger] b@[j] == inp.blend(f as int)[j] && 0 <= b@[j] <= 0x41_0000,
{
    let mut b: [i32; NB_EBANDS] = [0; 21];
    let mut j: usize = p.start;
    while j < p.end
        invariant
            p.of(inp),
            0 <= f <= 64,
            p.start <= j <= p.end,
            forall|i: int|
                inp.start <= i < j ==> #[trigger] b@[i] == inp.blend(f as int)[i] && 0 <= b@[i] <= 0x41_0000,
        decreases p.end - j,
    {
        proof {
            inp.lemma_blend(f as int, j as int);
            inp.lemma_levels(j as int);
        }
        b[j] = p.bits1[j] + f * p.bits2[j] / 64;
        j = j + 1;
    }
    b
}

impl AllocInput {
    /// What the bands below `j` get in all, shape and fine bits.
    pub open spec fn granted(self, t: Settled, j: int) -> int
        decreases j - self.start,
    {
        if j <= self.start {
            0
        } else {
            self.granted(t, j - 1) + self.shape_bits(t, j - 1) + 8 * (self.c * self.fine_quant(t, j - 1))
        }
    }

    /// What the stereo parameters and the flags of dropped bands take.
    pub open spec fn side_bits(self, st: SkipState, intensity: int) -> int {
        8 * st.flags + st.rsv + (if self.dual_coded(intensity) {
            8int
        } else {
            0
        }) + self.skip_rsv() - st.refund
    }

    /// The final budgets of the bands below `j`: their first budgets, as many
    /// bits per bin as all bins get, and the rest bin by bin.
    proof fn lemma_final_sum(self, t: Settled, j: int)
        requires
            self.wf(),
            self.settled_ok(t),
            self.start <= j <= t.coded,
        ensures
            ({
                let all = modes::edge(t.coded) - modes::edge(self.start);
                let per_bin = t.left / all;
                self.granted(t, j) + self.balance_at(t, j) == sum_range(t.bits, self.start, j) + per_bin * (
                modes::edge(j) - modes::edge(self.start)) + math::min(
                    t.left - all * per_bin,
                    modes::edge(j) - modes::edge(self.start),
                )
            }),
        decreases j,
    {
        let all = modes::edge(t.coded) - modes::edge(self.start);
        let per_bin = t.left / all;
        self.lemma_final_bits(t, self.start);
        if j > self.start {
            let k = j - 1;
            self.lemma_final_sum(t, k);
            self.lemma_final_bits(t, k);
            self.lemma_balance(t, k);
            modes::lemma_edges(self.start, k);
            modes::lemma_width(k);
            self.lemma_split(k, self.final_bits(t, k), self.balance_at(t, k), t.intensity, t.dual);
            lemma_sum_split(t.bits, self.start, k, j);
            assert(sum_range(t.bits, k, j) == t.bits[k]) by {
                reveal_with_fuel(sum_range, 2);
            }
            let e0 = modes::edge(k) - modes::edge(self.start);
            let w = modes::width(k);
            assert(per_bin * (e0 + w) == per_bin * e0 + per_bin * w) by (nonlinear_arith);
        } else {
            assert(per_bin * 0 == 0) by (nonlinear_arith);
        }
    }

    /// Dropped bands spend all they kept on fine bits.
    proof fn lemma_dropped_sum(self, t: Settled, j: int)
        requires
            self.wf(),
            self.settled_ok(t),
            t.coded <= j <= self.end,
        ensures
            self.granted(t, j) == self.granted(t, t.coded) + sum_range(t.bits, t.coded, j),
        decreases j,
    {
        if j > t.coded {
            let k = j - 1;
            self.lemma_dropped_sum(t, k);
            lemma_sum_split(t.bits, t.coded, k, j);
            assert(sum_range(t.bits, k, j) == t.bits[k]) by {
                reveal_with_fuel(sum_range, 2);
            }
            let c = self.c;
            let f = t.bits[k] / (8 * c);
            if t.bits[k] == 8 * c {
                math::lemma_div_unique(8 * c, 8 * c, 1);
                assert(8 * (c * f) == 8 * c) by (nonlinear_arith)
                    requires
                        f == 1,
                ;
            } else {
                math::lemma_div_unique(0, 8 * c, 0);
                assert(c * f == 0) by (nonlinear_arith)
                    requires
                        f == 0,
                ;
            }
        }
    }

    /// Whether an allocation keeps its promises: no budget is negative or above its
    /// cap, fine bits stay within their limit, and every bit of the frame is
    /// given to a band, spent on a parameter or left over, none twice.
    pub open spec fn sound(self, st: SkipState, t: Settled) -> bool {
        &&& self.start < t.coded <= self.end
        &&& forall|j: int| 0 <= j < 21 ==> 0 <= #[trigger] self.shape_bits(t, j) <= math::max(self.cap[j], 8 * self.c)
        &&& forall|j: int|
            self.start <= j < t.coded && modes::width(j) * modes::frame_mult(self.lm) > 1
                ==> #[trigger] self.shape_bits(t, j) <= self.cap[j]
        &&& forall|j: int| 0 <= j < 21 ==> 0 <= #[trigger] self.fine_quant(t, j) <= 8
        &&& 0 <= self.balance_at(t, t.coded) <= self.available()
        &&& t.intensity == 0 || self.start <= t.intensity <= t.coded
        &&& t.dual ==> self.c == 2
        &&& self.granted(t, self.end) + self.balance_at(t, t.coded) + self.side_bits(st, t.intensity)
            == self.available()
    }

    /// The allocation that is read keeps its promises, whatever the stream holds.
    pub proof fn lemma_allocation(self, dec: DecoderState)
        requires
            self.wf(),
            dec.wf(),
        ensures
            self.sound(self.skip(self.skip_init(), dec).0, self.settle(dec)),
    {
        let (st, d) = self.skip(self.skip_init(), dec);
        self.lemma_skip_init();
        self.lemma_skip(self.skip_init(), dec);
        self.lemma_after_flags(self.skip_init(), dec);
        crate::range::decoder::lemma_uint(d, st.coded + 1 - self.start);
        let t = self.settle(dec);
        self.lemma_sound(st, t.intensity, t.dual);
    }

    proof fn lemma_after_flags(self, st: SkipState, dec: DecoderState)
        requires
            dec.wf(),
        ensures
            self.skip(st, dec).1.wf(),
        decreases st.coded,
    {
        if !self.must_stay(st) {
            crate::range::decoder::lemma_after_bit(dec, 1);
            if !self.flag_coded(st) {
                self.lemma_after_flags(self.next_down(st), dec);
            } else if !dec.bit(1) {
                self.lemma_after_flags(self.next_down(st), dec.after_bit(1));
            }
        }
    }

    /// What the search ends with and any stereo parameters give a sound allocation.
    pub proof fn lemma_sound(self, st: SkipState, intensity: int, dual: bool)
        requires
            self.wf(),
            self.skip_inv(st),
            st.refund == 0 || st.refund == self.skip_rsv(),
            st.rsv > 0 ==> self.start <= intensity <= st.coded,
            st.rsv == 0 ==> intensity == 0,
            dual ==> self.dual_coded(intensity),
        ensures
            self.sound(st, self.settled(st, intensity, dual)),
    {
        let t = self.settled(st, intensity, dual);
        self.lemma_settled(st, intensity, dual);
        self.lemma_budget();
        assert forall|j: int| 0 <= j < 21 implies 0 <= #[trigger] self.shape_bits(t, j) <= math::max(
            self.cap[j],
            8 * self.c,
        ) && (self.start <= j < t.coded && modes::width(j) * modes::frame_mult(self.lm) > 1 ==> self.shape_bits(t, j)
            <= self.cap[j]) by {
            if self.start <= j < t.coded {
                self.lemma_coded_band(t, j);
            }
        }
        assert forall|j: int| 0 <= j < 21 implies 0 <= #[trigger] self.fine_quant(t, j) <= 8 by {
            if self.start <= j < t.coded {
                self.lemma_coded_band(t, j);
            } else if t.coded <= j < self.end {
                math::lemma_div(t.bits[j], 8 * self.c);
                if self.c == 1 {
                    assert(t.bits[j] / 8 <= 1);
                } else {
                    assert(t.bits[j] / 16 <= 1);
                }
            }
        }
        self.lemma_balance(t, t.coded);
        self.lemma_final_sum(t, t.coded);
        self.lemma_dropped_sum(t, self.end);
        lemma_sum_split(t.bits, self.start, t.coded, self.end);
        self.lemma_final_bits(t, self.start);
        let all = modes::edge(t.coded) - modes::edge(self.start);
        let per_bin = t.left / all;
        assert(per_bin * all == all * per_bin) by (nonlinear_arith);
        lemma_log2_frac(t.coded - self.start);
        lemma_log2_frac(self.end - self.start);
        self.lemma_granted(t, self.end);
    }

    proof fn lemma_coded_band(self, t: Settled, j: int)
        requires
            self.wf(),
            self.settled_ok(t),
            self.start <= j < t.coded,
        ensures
            0 <= self.shape_bits(t, j) <= math::max(self.cap[j], 8 * self.c),
            modes::width(j) * modes::frame_mult(self.lm) > 1 ==> self.shape_bits(t, j) <= self.cap[j],
            0 <= self.fine_quant(t, j) <= 8,
    {
        self.lemma_final_bits(t, j);
        self.lemma_balance(t, j);
        self.lemma_split(j, self.final_bits(t, j), self.balance_at(t, j), t.intensity, t.dual);
    }

    proof fn lemma_granted(self, t: Settled, j: int)
        requires
            self.wf(),
            self.settled_ok(t),
            self.start <= j <= self.end,
        ensures
            self.granted(t, j) >= 0,
        decreases j,
    {
        if j > self.start {
            let k = j - 1;
            self.lemma_granted(t, k);
            if k < t.coded {
                self.lemma_coded_band(t, k);
            } else {
                math::lemma_div(t.bits[k], 8 * self.c);
            }
            let f = self.fine_quant(t, k);
            assert(self.c * f >= 0) by (nonlinear_arith)
                requires
                    self.c >= 1,
                    f >= 0,
            ;
        }
    }
}

} // verus!
