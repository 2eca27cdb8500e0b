//! The decisions of the transform encoder that rest on whole numbers: what the
//! signal analysis measured goes in as counts, levels and steps.

pub mod laws;

use vstd::prelude::*;

use crate::celt::decoder::TF_SELECT_TABLE;
use crate::celt::modes::{self, band_width, frame_multiple, NB_EBANDS};
use crate::celt::rate::{self, init_caps};
use crate::celt::vq::Spread;
use crate::math;

verus! {

/// The bits per second that a frame's bytes come to, less what the headers of
/// short frames cost.
pub open spec fn equiv_rate_spec(nb_bytes: int, lm: int, channels: int) -> int {
    let per_second = if lm == 0 {
        400int
    } else if lm == 1 {
        200
    } else if lm == 2 {
        100
    } else {
        50
    };
    8 * nb_bytes * per_second - (40 * channels + 20) * (per_second - 50)
}

/// The bits per second that a frame's bytes come to, less what the headers of
/// short frames cost.
pub fn equiv_rate(nb_bytes: usize, lm: usize, channels: usize) -> (r: i32)
    requires
        nb_bytes <= 1275,
        lm <= 3,
        channels == 1 || channels == 2,
    ensures
        r == equiv_rate_spec(nb_bytes as int, lm as int, channels as int),
        -35_000 <= r <= 4_080_000,
{
    let per_second: i32 = if lm == 0 {
        400
    } else if lm == 1 {
        200
    } else if lm == 2 {
        100
    } else {
        50
    };
    let head: i32 = if channels == 2 {
        100
    } else {
        60
    };
    8 * nb_bytes as i32 * per_second - head * (per_second - 50)
}

/// The first threshold above `val`, from the one at `k` on; their number where
/// there is none.
pub open spec fn threshold_above(val: int, thresholds: Seq<i32>, k: int) -> int
    decreases thresholds.len() - k,
{
    if k < 0 || k >= thresholds.len() {
        thresholds.len() as int
    } else if val < thresholds[k] {
        k
    } else {
        threshold_above(val, thresholds, k + 1)
    }
}

/// The threshold above `val`, but the previous choice where `val` is within the
/// slack of its edge.
pub open spec fn with_slack(val: int, thresholds: Seq<i32>, hysteresis: Seq<i32>, prev: int) -> int {
    let i = threshold_above(val, thresholds, 0);
    if i > prev && val < thresholds[prev] + hysteresis[prev] {
        prev
    } else if i < prev && val > thresholds[prev - 1] - hysteresis[prev - 1] {
        prev
    } else {
        i
    }
}

/// Picks the threshold above a value, and stays with the previous choice while
/// the value is within the slack of its edge.
pub fn hysteresis_decision(val: i32, thresholds: &[i32], hysteresis: &[i32], prev: usize) -> (r: usize)
    requires
        thresholds@.len() == hysteresis@.len(),
        prev <= thresholds@.len(),
        forall|k: int|
            0 <= k < thresholds@.len() ==> 0 <= #[trigger] thresholds@[k] <= 0x1000_0000 && 0 <= hysteresis@[k]
                <= 0x1000_0000,
    ensures
        r == with_slack(val as int, thresholds@, hysteresis@, prev as int),
        r <= thresholds@.len(),
{
    let n: usize = thresholds.len();
    let mut i: usize = 0;
    while i < n && val >= thresholds[i]
        invariant
            i <= n,
            n == thresholds@.len(),
            threshold_above(val as int, thresholds@, 0) == threshold_above(val as int, thresholds@, i as int),
        decreases n - i,
    {
        i = i + 1;
    }
    if i > prev {
        assert(0 <= thresholds@[prev as int] <= 0x1000_0000);
        if val < thresholds[prev] + hysteresis[prev] {
            return prev;
        }
    }
    if i < prev {
        assert(0 <= thresholds@[prev - 1] <= 0x1000_0000);
        if val > thresholds[prev - 1] - hysteresis[prev - 1] {
            return prev;
        }
    }
    i
}

/// The rates in kilobits per second from which on one more band keeps its stereo
/// image.
#[verifier::opaque]
pub const INTENSITY_THRESHOLDS: [i32; 21] = [
    1, 2, 3, 4, 5, 6, 7, 8, 16, 24, 36, 44, 50, 56, 62, 67, 72, 79, 88, 106, 134,
];

/// The slack of each.
#[verifier::opaque]
pub const INTENSITY_HYSTERESIS: [i32; 21] = [1, 1, 1, 1, 1, 1, 1, 2, 2, 2, 2, 2, 2, 2, 3, 3, 4, 5, 6, 8, 8];

proof fn lemma_intensity_tables()
    ensures
        forall|k: int|
            0 <= k < 21 ==> 0 <= #[trigger] INTENSITY_THRESHOLDS@[k] <= 0x1000_0000 && 0 <= INTENSITY_HYSTERESIS@[k]
                <= 0x1000_0000,
{
    reveal(INTENSITY_THRESHOLDS);
    reveal(INTENSITY_HYSTERESIS);
    assert forall|k: int| 0 <= k < 21 implies 0 <= #[trigger] INTENSITY_THRESHOLDS@[k] <= 0x1000_0000 && 0
        <= INTENSITY_HYSTERESIS@[k] <= 0x1000_0000 by {
        assert(k == 0 || k == 1 || k == 2 || k == 3 || k == 4 || k == 5 || k == 6 || k == 7 || k == 8 || k == 9 || k
            == 10 || k == 11 || k == 12 || k == 13 || k == 14 || k == 15 || k == 16 || k == 17 || k == 18 || k == 19
            || k == 20);
    }
}

/// The first band without a stereo image of its own.
pub open spec fn intensity_spec(rate: int, prev: int, start: int, end: int) -> int {
    math::min(
        math::max(
            with_slack(math::div_trunc(rate, 1000), INTENSITY_THRESHOLDS@, INTENSITY_HYSTERESIS@, prev),
            start,
        ),
        end,
    )
}

/// The first band without a stereo image of its own, at `rate` bits per second
/// and after `prev` in the frame before.
pub fn choose_intensity(rate: i32, prev: usize, start: usize, end: usize) -> (r: usize)
    requires
        prev <= 21,
        start <= end <= 21,
    ensures
        r == intensity_spec(rate as int, prev as int, start as int, end as int),
        start <= r <= end,
{
    proof {
        lemma_intensity_tables();
    }
    let i: usize = hysteresis_decision(rate / 1000, &INTENSITY_THRESHOLDS, &INTENSITY_HYSTERESIS, prev);
    if i < start {
        start
    } else if i > end {
        end
    } else {
        i
    }
}

/// How many values of a band are small, by three measures.
#[derive(Clone, Copy, Debug, PartialEq, Eq, Structural)]
pub struct SmallCounts {
    /// Below a quarter of the mean square.
    pub quarter: i32,
    /// Below a sixteenth.
    pub sixteenth: i32,
    /// Below a sixty-fourth.
    pub sixty_fourth: i32,
}

/// By how many of the measures at least half of a band's `n` values are small.
pub open spec fn peakedness(c: SmallCounts, n: int) -> int {
    (if 2 * c.sixty_fourth >= n {
        1int
    } else {
        0
    }) + (if 2 * c.sixteenth >= n {
        1int
    } else {
        0
    }) + (if 2 * c.quarter >= n {
        1int
    } else {
        0
    })
}

/// Sums over bands: what they weigh, and by how much they are peaked.
#[verifier::ext_equal]
pub struct SpreadSum {
    pub sum: int,
    pub weight: int,
}

/// The sums over the first `k` entries, channel after channel; bands of at most
/// eight values do not count.
pub open spec fn spread_sum(
    counts: Seq<SmallCounts>,
    weights: Seq<i32>,
    end: int,
    m: int,
    k: int,
) -> SpreadSum
    decreases k,
{
    if k <= 0 {
        SpreadSum { sum: 0, weight: 0 }
    } else {
        let s = spread_sum(counts, weights, end, m, k - 1);
        let i = (k - 1) % end;
        let n = m * modes::width(i);
        if n <= 8 {
            s
        } else {
            SpreadSum {
                sum: s.sum + peakedness(counts[k - 1], n) * weights[i],
                weight: s.weight + weights[i],
            }
        }
    }
}

/// The tonality of a frame averaged with that of the frames before.
pub open spec fn tonality(
    counts: Seq<SmallCounts>,
    weights: Seq<i32>,
    end: int,
    m: int,
    channels: int,
    average: int,
) -> int {
    let s = spread_sum(counts, weights, end, m, channels * end);
    (256 * s.sum / math::max(s.weight, 1) + average) / 2
}

/// The spread for a tonality, near the previous one.
pub open spec fn spread_for(tonality: int, last: Spread) -> Spread {
    let v = (3 * tonality + (3 - last.raw_spec()) * 128 + 64 + 2) / 4;
    if v < 80 {
        Spread::Aggressive
    } else if v < 256 {
        Spread::Normal
    } else if v < 384 {
        Spread::Light
    } else {
        Spread::Off
    }
}

/// Chooses the spread of a frame from how peaked its bands are: `counts` holds
/// the bands below `end`, channel after channel. `average` is the tonality
/// so far and is brought up to date; a last band of at most eight values is not
/// spread at all.
pub fn spreading_decision(
    counts: &[SmallCounts],
    weights: &[i32; NB_EBANDS],
    average: &mut i32,
    last: Spread,
    end: usize,
    channels: usize,
    lm: usize,
) -> (r: Spread)
    requires
        1 <= end <= 21,
        channels == 1 || channels == 2,
        lm <= 3,
        counts@.len() == channels * end,
        forall|k: int| 0 <= k < counts@.len() ==> small_ok(#[trigger] counts@[k]),
        forall|k: int| 0 <= k < 21 ==> 0 <= #[trigger] weights@[k] <= 32,
        0 <= *old(average) <= 0x1_0000,
    ensures
        ({
            let m = modes::frame_mult(lm as int);
            let quiet = m * modes::width(end - 1) <= 8;
            let t = tonality(counts@, weights@, end as int, m, channels as int, *old(average) as int);
            &&& *final(average) == if quiet {
                *old(average) as int
            } else {
                t
            }
            &&& r == if quiet {
                Spread::Off
            } else {
                spread_for(t, last)
            }
        }),
        0 <= *final(average) <= 0x1_0000,
{
    let m: i32 = frame_multiple(lm);
    let ghost w = weights@;
    let ghost c = counts@;
    let last_width: i32 = band_width(end - 1);
    proof {
        math::lemma_mul_range(m as int, 8, last_width as int, 22);
    }
    if m * last_width <= 8 {
        return Spread::Off;
    }
    let total: usize = counts.len();
    let mut sum: i32 = 0;
    let mut weight: i32 = 0;
    let mut k: usize = 0;
    let mut i: usize = 0;
    while k < total
        invariant
            1 <= end <= 21,
            lm <= 3,
            m == modes::frame_mult(lm as int),
            1 <= m <= 8,
            total == counts@.len(),
            total <= 42,
            k <= total,
            i < end,
            i == k as int % end as int,
            w == weights@,
            c == counts@,
            forall|j: int| 0 <= j < counts@.len() ==> small_ok(#[trigger] counts@[j]),
            forall|j: int| 0 <= j < 21 ==> 0 <= #[trigger] weights@[j] <= 32,
            (SpreadSum { sum: sum as int, weight: weight as int }) == spread_sum(c, w, end as int, m as int, k as int),
            0 <= sum <= 96 * k,
            0 <= weight <= 32 * k,
        decreases total - k,
    {
        let width: i32 = band_width(i);
        proof {
            math::lemma_mul_range(m as int, 8, width as int, 22);
        }
        let n: i32 = m * width;
        if n > 8 {
            let t: SmallCounts = counts[k];
            assert(small_ok(c[k as int]));
            assert(0 <= w[i as int] <= 32);
            let p: i32 = (if 2 * t.sixty_fourth >= n {
                1
            } else {
                0
            }) + (if 2 * t.sixteenth >= n {
                1
            } else {
                0
            }) + (if 2 * t.quarter >= n {
                1
            } else {
                0
            });
            let wi: i32 = weights[i];
            assert(0 <= p * wi <= 96) by (nonlinear_arith)
                requires
                    0 <= p <= 3,
                    0 <= wi <= 32,
            ;
            sum = sum + p * wi;
            weight = weight + wi;
        }
        proof {
            lemma_next_place(k as int, end as int);
        }
        k = k + 1;
        i = if i + 1 < end {
            i + 1
        } else {
            0
        };
    }
    let div: i32 = math::max_i32(weight, 1);
    proof {
        let s = 256 * sum;
        let d = div as int;
        assert(0 <= s as int / d <= s) by (nonlinear_arith)
            requires
                s >= 0,
                d >= 1,
        ;
        lemma_mean(c, w, end as int, m as int, total as int);
        assert(s as int / d <= 768) by (nonlinear_arith)
            requires
                s <= 768 * d,
                d >= 1,
        ;
    }
    let t: i32 = (256 * sum / div + *average) / 2;
    *average = t;
    let v: i32 = (3 * t + (3 - last.raw() as i32) * 128 + 64 + 2) / 4;
    if v < 80 {
        Spread::Aggressive
    } else if v < 256 {
        Spread::Normal
    } else if v < 384 {
        Spread::Light
    } else {
        Spread::Off
    }
}

/// Counts that a band can have.
pub open spec fn small_ok(c: SmallCounts) -> bool {
    &&& 0 <= c.quarter <= 176
    &&& 0 <= c.sixteenth <= 176
    &&& 0 <= c.sixty_fourth <= 176
}

proof fn lemma_next_place(k: int, end: int)
    requires
        k >= 0,
        end >= 1,
    ensures
        (k + 1) % end == if k % end + 1 < end {
            k % end + 1
        } else {
            0
        },
{
    vstd::arithmetic::div_mod::lemma_fundamental_div_mod(k, end);
    let q = k / end;
    let r = k % end;
    if r + 1 < end {
        assert(k + 1 == q * end + (r + 1)) by (nonlinear_arith)
            requires
                k == end * q + r,
        ;
        vstd::arithmetic::div_mod::lemma_fundamental_div_mod_converse(k + 1, end, q, r + 1);
    } else {
        assert(k + 1 == (q + 1) * end + 0) by (nonlinear_arith)
            requires
                k == end * q + r,
                r + 1 == end,
        ;
        vstd::arithmetic::div_mod::lemma_fundamental_div_mod_converse(k + 1, end, q + 1, 0);
    }
}

/// No more than three for each unit of weight.
proof fn lemma_mean(counts: Seq<SmallCounts>, weights: Seq<i32>, end: int, m: int, k: int)
    requires
        1 <= end <= 21,
        forall|j: int| 0 <= j < 21 ==> 0 <= #[trigger] weights[j] <= 32,
    ensures
        0 <= spread_sum(counts, weights, end, m, k).sum <= 3 * spread_sum(counts, weights, end, m, k).weight,
    decreases k,
{
    if k > 0 {
        lemma_mean(counts, weights, end, m, k - 1);
        let i = (k - 1) % end;
        assert(0 <= weights[i] <= 32);
        let n = m * modes::width(i);
        let p = peakedness(counts[k - 1], n);
        let w = weights[i] as int;
        assert(0 <= p * w <= 3 * w) by (nonlinear_arith)
            requires
                0 <= p <= 3,
                w >= 0,
        ;
    }
}

/// The resolution that suits a band, in halves of a step: `level` is the step at
/// which the band is sparsest, counted from the frame's blocks. A band of one
/// value stands half a step lower where it is at either end of the scale.
pub open spec fn tf_metric_spec(level: int, transient: bool, narrow: bool, lm: int) -> int {
    let v = if transient {
        2 * level
    } else {
        -(2 * level)
    };
    if narrow && (v == 0 || v == -(2 * lm)) {
        v - 1
    } else {
        v
    }
}

/// The resolution that suits a band, in halves of a step.
pub fn tf_metric(level: i32, transient: bool, narrow: bool, lm: usize) -> (r: i32)
    requires
        -1 <= level <= 4,
        lm <= 3,
    ensures
        r == tf_metric_spec(level as int, transient, narrow, lm as int),
        -9 <= r <= 9,
{
    let v: i32 = if transient {
        2 * level
    } else {
        -(2 * level)
    };
    if narrow && (v == 0 || v == -(2 * lm as i32)) {
        v - 1
    } else {
        v
    }
}

/// What the choice of resolutions depends on: the suitable resolution and the
/// weight of each band, the cost of a change, and the frame.
pub struct TfChoice {
    pub metric: Seq<i32>,
    pub importance: Seq<i32>,
    pub lambda: int,
    pub transient: bool,
    pub lm: int,
}

impl TfChoice {
    /// The values are such as the analysis gives.
    pub open spec fn wf(self) -> bool {
        &&& self.metric.len() == 21
        &&& self.importance.len() == 21
        &&& 0 <= self.lm <= 3
        &&& 0 <= self.lambda <= 0x1_0000
        &&& forall|i: int| 0 <= i < 21 ==> -9 <= #[trigger] self.metric[i] <= 9
        &&& forall|i: int| 0 <= i < 21 ==> 0 <= #[trigger] self.importance[i] <= 0x1000
    }

    /// The cost of a flag for band `i`: how far the resolution is from the
    /// suitable one, by the band's weight.
    pub open spec fn cost(self, select: bool, flag: bool, i: int) -> int {
        let entry = TF_SELECT_TABLE[self.lm][(if self.transient {
            4int
        } else {
            0
        }) + (if select {
            2int
        } else {
            0
        }) + (if flag {
            1int
        } else {
            0
        })];
        self.importance[i] * math::abs(self.metric[i] - 2 * entry)
    }

    /// The cost of the first band's flag; a set one counts as a change in a frame
    /// of long blocks.
    pub open spec fn first_cost(self, select: bool, flag: bool) -> int {
        self.cost(select, flag, 0) + (if flag && !self.transient {
            self.lambda
        } else {
            0
        })
    }

    /// The least cost of flags for the bands up to `i` of which the last is
    /// `flag`.
    pub open spec fn best(self, select: bool, flag: bool, i: int) -> int
        decreases i,
    {
        if i <= 0 {
            self.first_cost(select, flag)
        } else {
            math::min(self.best(select, flag, i - 1), self.best(select, !flag, i - 1) + self.lambda) + self.cost(
                select,
                flag,
                i,
            )
        }
    }

    /// The least cost of flags for the bands below `end`.
    pub open spec fn least(self, select: bool, end: int) -> int {
        math::min(self.best(select, false, end - 1), self.best(select, true, end - 1))
    }

    /// Whether the second pair of resolutions is chosen: it costs less, and the
    /// blocks are short.
    pub open spec fn select(self, end: int) -> bool {
        self.transient && self.least(true, end) < self.least(false, end)
    }

    /// The flag before a given one of band `i` on the cheapest way: the other one
    /// where that is cheaper, a set one where both cost the same.
    pub open spec fn before(self, select: bool, flag: bool, i: int) -> bool {
        if flag {
            !(self.best(select, false, i - 1) + self.lambda < self.best(select, true, i - 1))
        } else {
            !(self.best(select, false, i - 1) < self.best(select, true, i - 1) + self.lambda)
        }
    }

    /// The flag of band `i` on the cheapest way through the bands below `end`.
    pub open spec fn flag(self, select: bool, end: int, i: int) -> bool
        decreases end - i,
    {
        if i >= end - 1 {
            self.best(select, false, end - 1) >= self.best(select, true, end - 1)
        } else {
            self.before(select, self.flag(select, end, i + 1), i + 1)
        }
    }

    /// The cost of given flags for the bands up to `i`.
    pub open spec fn path_cost(self, select: bool, flags: Seq<bool>, i: int) -> int
        decreases i,
    {
        if i <= 0 {
            self.first_cost(select, flags[0])
        } else {
            self.path_cost(select, flags, i - 1) + (if flags[i] != flags[i - 1] {
                self.lambda
            } else {
                0
            }) + self.cost(select, flags[i], i)
        }
    }
}

/// No flags cost less than the least cost.
proof fn lemma_best(c: TfChoice, select: bool, flags: Seq<bool>, i: int)
    requires
        0 <= i,
    ensures
        c.best(select, flags[i], i) <= c.path_cost(select, flags, i),
    decreases i,
{
    if i > 0 {
        lemma_best(c, select, flags, i - 1);
    }
}

/// The cheapest way costs what it should.
proof fn lemma_way(c: TfChoice, select: bool, end: int, flags: Seq<bool>, i: int)
    requires
        c.lambda >= 0,
        0 <= i < end,
        flags.len() >= end,
        forall|k: int| 0 <= k < end ==> #[trigger] flags[k] == c.flag(select, end, k),
    ensures
        c.path_cost(select, flags, i) == c.best(select, flags[i], i),
    decreases i,
{
    if i > 0 {
        lemma_way(c, select, end, flags, i - 1);
        assert(flags[i - 1] == c.flag(select, end, i - 1));
        assert(flags[i] == c.flag(select, end, i));
    }
}

/// The flags of the cheapest way cost no more than any others, with the chosen
/// pair of resolutions.
pub proof fn lemma_tf_optimal(c: TfChoice, end: int, flags: Seq<bool>, other: Seq<bool>)
    requires
        c.lambda >= 0,
        1 <= end <= flags.len(),
        forall|k: int| 0 <= k < end ==> #[trigger] flags[k] == c.flag(c.select(end), end, k),
    ensures
        c.path_cost(c.select(end), flags, end - 1) == c.least(c.select(end), end),
        c.path_cost(c.select(end), flags, end - 1) <= c.path_cost(c.select(end), other, end - 1),
{
    let select = c.select(end);
    lemma_way(c, select, end, flags, end - 1);
    lemma_best(c, select, other, end - 1);
    assert(flags[end - 1] == c.flag(select, end, end - 1));
}

proof fn lemma_cost(c: TfChoice, select: bool, flag: bool, i: int)
    requires
        c.wf(),
        0 <= i < 21,
    ensures
        0 <= c.cost(select, flag, i) <= 0x1_0000,
{
    reveal(TF_SELECT_TABLE);
    assert(c.lm == 0 || c.lm == 1 || c.lm == 2 || c.lm == 3);
    let entry = TF_SELECT_TABLE[c.lm][(if c.transient {
        4int
    } else {
        0
    }) + (if select {
        2int
    } else {
        0
    }) + (if flag {
        1int
    } else {
        0
    })];
    assert(-3 <= entry <= 3);
    let a = math::abs(c.metric[i] - 2 * entry);
    assert(-9 <= c.metric[i] <= 9);
    assert(0 <= c.importance[i] <= 0x1000);
    let b = c.importance[i] as int;
    assert(0 <= b * a <= 0x1_0000) by (nonlinear_arith)
        requires
            0 <= a <= 15,
            0 <= b <= 0x1000,
    ;
}

proof fn lemma_best_range(c: TfChoice, select: bool, flag: bool, i: int)
    requires
        c.wf(),
        0 <= i < 21,
    ensures
        0 <= c.best(select, flag, i) <= 0x2_0000 * (i + 1),
    decreases i,
{
    lemma_cost(c, select, flag, i);
    if i > 0 {
        lemma_best_range(c, select, flag, i - 1);
        lemma_best_range(c, select, !flag, i - 1);
    }
}

fn flag_cost(
    metric: &[i32; NB_EBANDS],
    importance: &[i32; NB_EBANDS],
    transient: bool,
    lm: usize,
    select: bool,
    flag: bool,
    i: usize,
    Ghost(c): Ghost<TfChoice>,
) -> (r: i32)
    requires
        c.wf(),
        metric@ == c.metric,
        importance@ == c.importance,
        transient == c.transient,
        lm == c.lm,
        i < 21,
    ensures
        r == c.cost(select, flag, i as int),
        0 <= r <= 0x1_0000,
{
    let at: usize = (if transient {
        4
    } else {
        0
    }) + (if select {
        2
    } else {
        0
    }) + (if flag {
        1
    } else {
        0
    });
    proof {
        lemma_cost(c, select, flag, i as int);
        reveal(TF_SELECT_TABLE);
        assert(lm == 0 || lm == 1 || lm == 2 || lm == 3);
        assert(-9 <= c.metric[i as int] <= 9);
        assert(0 <= c.importance[i as int] <= 0x1000);
    }
    let entry: i32 = TF_SELECT_TABLE[lm][at];
    let d: i32 = metric[i] - 2 * entry;
    let a: i32 = if d < 0 {
        -d
    } else {
        d
    };
    importance[i] * a
}

/// The least costs of flags for the bands up to each, by the last flag.
fn run_costs(
    metric: &[i32; NB_EBANDS],
    importance: &[i32; NB_EBANDS],
    end: usize,
    transient: bool,
    lm: usize,
    lambda: i32,
    select: bool,
    Ghost(c): Ghost<TfChoice>,
) -> (r: (Vec<i32>, Vec<i32>))
    requires
        c.wf(),
        metric@ == c.metric,
        importance@ == c.importance,
        transient == c.transient,
        lm == c.lm,
        lambda == c.lambda,
        1 <= end <= 21,
    ensures
        r.0@.len() == end,
        r.1@.len() == end,
        forall|i: int| 0 <= i < end ==> #[trigger] r.0@[i] == c.best(select, false, i),
        forall|i: int| 0 <= i < end ==> #[trigger] r.1@[i] == c.best(select, true, i),
{
    let mut low: Vec<i32> = Vec::new();
    let mut high: Vec<i32> = Vec::new();
    low.push(flag_cost(metric, importance, transient, lm, select, false, 0, Ghost(c)));
    high.push(
        flag_cost(metric, importance, transient, lm, select, true, 0, Ghost(c)) + (if transient {
            0
        } else {
            lambda
        }),
    );
    let mut i: usize = 1;
    while i < end
        invariant
            c.wf(),
            metric@ == c.metric,
            importance@ == c.importance,
            transient == c.transient,
            lm == c.lm,
            lambda == c.lambda,
            1 <= i <= end <= 21,
            low@.len() == i,
            high@.len() == i,
            forall|k: int| 0 <= k < i ==> #[trigger] low@[k] == c.best(select, false, k),
            forall|k: int| 0 <= k < i ==> #[trigger] high@[k] == c.best(select, true, k),
        decreases end - i,
    {
        proof {
            lemma_best_range(c, select, false, i - 1);
            lemma_best_range(c, select, true, i - 1);
        }
        let a: i32 = low[i - 1];
        let b: i32 = high[i - 1];
        let to_low: i32 = math::min_i32(a, b + lambda);
        let to_high: i32 = math::min_i32(a + lambda, b);
        low.push(to_low + flag_cost(metric, importance, transient, lm, select, false, i, Ghost(c)));
        high.push(to_high + flag_cost(metric, importance, transient, lm, select, true, i, Ghost(c)));
        i = i + 1;
    }
    (low, high)
}

/// Chooses the resolution flags of the bands below `end` and the pair of
/// resolutions, by the cheapest way through the bands: each flag costs what its
/// resolution is off, each change costs `lambda`.
pub fn tf_choose(
    metric: &[i32; NB_EBANDS],
    importance: &[i32; NB_EBANDS],
    end: usize,
    transient: bool,
    lm: usize,
    lambda: i32,
) -> (r: ([bool; NB_EBANDS], bool))
    requires
        (TfChoice {
            metric: metric@,
            importance: importance@,
            lambda: lambda as int,
            transient,
            lm: lm as int,
        }).wf(),
        1 <= end <= 21,
    ensures
        ({
            let c = TfChoice {
                metric: metric@,
                importance: importance@,
                lambda: lambda as int,
                transient,
                lm: lm as int,
            };
            &&& r.1 == c.select(end as int)
            &&& forall|i: int| 0 <= i < end ==> #[trigger] r.0@[i] == c.flag(r.1, end as int, i)
            &&& forall|i: int| end <= i < 21 ==> !#[trigger] r.0@[i]
        }),
{
    let ghost c = TfChoice {
        metric: metric@,
        importance: importance@,
        lambda: lambda as int,
        transient,
        lm: lm as int,
    };
    let first: (Vec<i32>, Vec<i32>) = run_costs(
        metric,
        importance,
        end,
        transient,
        lm,
        lambda,
        false,
        Ghost(c),
    );
    let second: (Vec<i32>, Vec<i32>) = run_costs(
        metric,
        importance,
        end,
        transient,
        lm,
        lambda,
        true,
        Ghost(c),
    );
    let select: bool = transient && math::min_i32(second.0[end - 1], second.1[end - 1]) < math::min_i32(
        first.0[end - 1],
        first.1[end - 1],
    );
    let (low, high): (Vec<i32>, Vec<i32>) = if select {
        second
    } else {
        first
    };
    let mut flags: [bool; NB_EBANDS] = [false; 21];
    flags[end - 1] = low[end - 1] >= high[end - 1];
    let mut i: usize = end - 1;
    while i > 0
        invariant
            c.wf(),
            lambda == c.lambda,
            1 <= end <= 21,
            i <= end - 1,
            select == c.select(end as int),
            low@.len() == end,
            high@.len() == end,
            forall|k: int| 0 <= k < end ==> #[trigger] low@[k] == c.best(select, false, k),
            forall|k: int| 0 <= k < end ==> #[trigger] high@[k] == c.best(select, true, k),
            forall|k: int| i <= k < end ==> #[trigger] flags@[k] == c.flag(select, end as int, k),
            forall|k: int| end <= k < 21 ==> !#[trigger] flags@[k],
        decreases i,
    {
        proof {
            lemma_best_range(c, select, false, i - 1);
            lemma_best_range(c, select, true, i - 1);
        }
        let a: i32 = low[i - 1];
        let b: i32 = high[i - 1];
        let f: bool = if flags[i] {
            !(a + lambda < b)
        } else {
            !(a < b + lambda)
        };
        flags[i - 1] = f;
        i = i - 1;
    }
    (flags, select)
}

/// What a masked energy weighs, by its level in 64ths of the frame's.
#[verifier::opaque]
pub const INV_TABLE: [u8; 128] = [
    255, 255, 156, 110, 86, 70, 59, 51, 45, 40, 37, 33, 31, 28, 26, 25, 23, 22, 21, 20, 19, 18, 17, 16, 16, 15, 15, 14,
    13, 13, 12, 12, 12, 12, 11, 11, 11, 10, 10, 10, 9, 9, 9, 9, 9, 9, 8, 8, 8, 8, 8, 7, 7, 7, 7, 7, 7, 6, 6, 6, 6, 6, 6,
    6, 6, 6, 6, 6, 6, 6, 6, 6, 6, 5, 5, 5, 5, 5, 5, 5, 5, 5, 5, 5, 5, 4, 4, 4, 4, 4, 4, 4, 4, 4, 4, 4, 4, 4, 4, 4, 4, 4,
    4, 4, 4, 4, 4, 4, 4, 4, 3, 3, 3, 3, 3, 3, 3, 3, 3, 3, 3, 3, 3, 3, 3, 3, 3, 2,
];

/// The sum of the weights of the first `k` levels.
pub open spec fn weight_sum(levels: Seq<u8>, k: int) -> int
    decreases k,
{
    if k <= 0 {
        0
    } else {
        weight_sum(levels, k - 1) + INV_TABLE[levels[k - 1] as int]
    }
}

/// The mask measure of a channel: the mean weight of its levels, of which every
/// fourth of half the `half` samples was taken, less those at the ends.
pub open spec fn unmask_spec(levels: Seq<u8>, half: int) -> int {
    256 * weight_sum(levels, levels.len() as int) / (6 * (half - 17))
}

/// The mask measure of a channel.
pub fn unmask(levels: &[u8], half: usize) -> (r: i32)
    requires
        levels@.len() <= 540,
        18 <= half <= 540,
        forall|k: int| 0 <= k < levels@.len() ==> #[trigger] levels@[k] < 128,
    ensures
        r == unmask_spec(levels@, half as int),
        r >= 0,
{
    let len: usize = levels.len();
    let mut sum: i32 = 0;
    let mut k: usize = 0;
    while k < len
        invariant
            k <= len,
            len == levels@.len(),
            len <= 540,
            forall|j: int| 0 <= j < levels@.len() ==> #[trigger] levels@[j] < 128,
            sum == weight_sum(levels@, k as int),
            0 <= sum <= 255 * k,
        decreases len - k,
    {
        assert(levels@[k as int] < 128);
        sum = sum + INV_TABLE[levels[k] as usize] as i32;
        k = k + 1;
    }
    let d: i32 = 6 * (half as i32 - 17);
    proof {
        let s = 256 * sum;
        assert(0 <= s as int / d as int <= s) by (nonlinear_arith)
            requires
                s >= 0,
                d >= 1,
        ;
    }
    256 * sum / d
}

/// Whether a frame is a transient, the larger mask measure and the channel that has it.
pub open spec fn transient_spec(first: i32, second: Option<i32>) -> (bool, int, int) {
    let other = second is Some && second->0 > first;
    let metric = if other {
        second->0 as int
    } else {
        first as int
    };
    (
        metric > 200,
        metric,
        if other {
            1
        } else {
            0
        },
    )
}

/// The transient decision: whether the frame is one, the larger of the channels'
/// mask measures, and the channel that has it first.
pub fn transient_decision(first: i32, second: Option<i32>) -> (r: (bool, i32, usize))
    requires
        first >= 0,
    ensures
        (r.0, r.1 as int, r.2 as int) == transient_spec(first, second),
{
    match second {
        Some(v) => {
            if v > first {
                return (v > 200, v, 1);
            }
        },
        None => {},
    }
    (first > 200, first, 0)
}

/// How the wanted boost of a band is counted.
#[derive(Clone, Copy, Debug, PartialEq, Eq, Structural)]
pub enum BoostScale {
    /// In whole steps of the follower, for a band of fewer than six values.
    Whole,
    /// In eighths of one, for a band of more than 48.
    Eighths,
    /// In sixths of the band's width, for any other.
    Width,
}

/// How the boost of a band of `width` values is counted.
pub open spec fn boost_scale_spec(width: int) -> BoostScale {
    if width < 6 {
        BoostScale::Whole
    } else if width > 48 {
        BoostScale::Eighths
    } else {
        BoostScale::Width
    }
}

/// How the boost of a band of `width` values is counted.
pub fn boost_scale(width: i32) -> (r: BoostScale)
    ensures
        r == boost_scale_spec(width as int),
{
    if width < 6 {
        BoostScale::Whole
    } else if width > 48 {
        BoostScale::Eighths
    } else {
        BoostScale::Width
    }
}

/// What a boost costs in eighth bits.
pub open spec fn boost_bits(boost: int, width: int) -> int {
    match boost_scale_spec(width) {
        BoostScale::Whole => 8 * (boost * width),
        BoostScale::Eighths => boost * width,
        BoostScale::Width => 48 * boost,
    }
}

/// Where the hand-out of the boosts stands: what each band has, what they cost,
/// and whether there is any left to hand out.
#[verifier::ext_equal]
pub struct BoostLimit {
    pub offsets: Seq<int>,
    pub spent: int,
    pub open: bool,
}

/// The boosts of the bands below `i`: each band has what it wants up to its cap,
/// until two thirds of the frame are spent; the band that goes beyond has the rest.
pub open spec fn limit(
    want: Seq<i32>,
    start: int,
    c: int,
    lm: int,
    bytes: int,
    i: int,
) -> BoostLimit
    decreases i - start,
{
    if i <= start {
        BoostLimit { offsets: Seq::new(21, |k: int| 0int), spent: 0, open: true }
    } else {
        let st = limit(want, start, c, lm, bytes, i - 1);
        let width = c * (modes::width(i - 1) * modes::frame_mult(lm));
        let bits = boost_bits(want[i - 1] as int, width);
        let share = 2 * bytes / 3;
        if !st.open {
            st
        } else if (st.spent + bits) / 64 > share {
            BoostLimit { offsets: st.offsets.update(i - 1, 64 * share - st.spent), open: false, ..st }
        } else {
            BoostLimit {
                offsets: st.offsets.update(i - 1, math::min(want[i - 1] as int, rate::band_cap(lm, c, i - 1))),
                spent: st.spent + bits,
                open: true,
            }
        }
    }
}

/// Holds the boosts that the analysis wants to two thirds of a frame of `nb_bytes`
/// bytes. Gives the boost of each band and what they cost in eighth bits.
pub fn limit_boosts(
    want: &[i32; NB_EBANDS],
    start: usize,
    end: usize,
    channels: usize,
    lm: usize,
    nb_bytes: usize,
) -> (r: ([i32; NB_EBANDS], i32))
    requires
        start <= end <= 21,
        channels == 1 || channels == 2,
        lm <= 3,
        nb_bytes <= 1275,
        forall|k: int| 0 <= k < 21 ==> 0 <= #[trigger] want@[k] <= 32,
    ensures
        ({
            let b = limit(want@, start as int, channels as int, lm as int, nb_bytes as int, end as int);
            &&& rate::ints(r.0@) == b.offsets
            &&& r.1 == b.spent
        }),
{
    let ghost w = want@;
    let caps: [i32; NB_EBANDS] = init_caps(lm, channels);
    let m: i32 = frame_multiple(lm);
    let share: i32 = (2 * nb_bytes / 3) as i32;
    let mut offsets: [i32; NB_EBANDS] = [0; 21];
    let mut spent: i32 = 0;
    let mut open: bool = true;
    let mut i: usize = start;
    assert(rate::ints(offsets@) =~= Seq::new(21, |k: int| 0int));
    while i < end
        invariant
            start <= i <= end <= 21,
            channels == 1 || channels == 2,
            lm <= 3,
            nb_bytes <= 1275,
            share == 2 * nb_bytes as int / 3,
            m == modes::frame_mult(lm as int),
            1 <= m <= 8,
            w == want@,
            forall|k: int| 0 <= k < 21 ==> 0 <= #[trigger] want@[k] <= 32,
            forall|j: int| 0 <= j < 21 ==> #[trigger] caps@[j] == rate::band_cap(lm as int, channels as int, j),
            0 <= spent <= 0x1_0000 * (i - start),
            (BoostLimit { offsets: rate::ints(offsets@), spent: spent as int, open }) == limit(
                w,
                start as int,
                channels as int,
                lm as int,
                nb_bytes as int,
                i as int,
            ),
        decreases end - i,
    {
        let ghost st = limit(w, start as int, channels as int, lm as int, nb_bytes as int, i as int);
        if open {
            let bw: i32 = band_width(i);
            proof {
                let wi = bw as int;
                let mi = m as int;
                assert(1 <= wi * mi <= 176) by (nonlinear_arith)
                    requires
                        1 <= wi <= 22,
                        1 <= mi <= 8,
                ;
                let x = wi * mi;
                let ci = channels as int;
                assert(1 <= ci * x <= 352) by (nonlinear_arith)
                    requires
                        1 <= x <= 176,
                        1 <= ci <= 2,
                ;
            }
            let width: i32 = channels as i32 * (bw * m);
            let boost: i32 = want[i];
            assert(0 <= w[i as int] <= 32);
            assert(0 <= boost * width <= 32 * 352) by (nonlinear_arith)
                requires
                    0 <= boost <= 32,
                    1 <= width <= 352,
            ;
            let bits: i32 = match boost_scale(width) {
                BoostScale::Whole => {
                    assert(boost * width <= 32 * 5) by (nonlinear_arith)
                        requires
                            0 <= boost <= 32,
                            1 <= width <= 5,
                    ;
                    8 * (boost * width)
                },
                BoostScale::Eighths => boost * width,
                BoostScale::Width => 48 * boost,
            };
            if (spent + bits) / 64 > share {
                offsets[i] = 64 * share - spent;
                open = false;
                assert(rate::ints(offsets@) =~= st.offsets.update(i as int, 64 * share - spent));
            } else {
                let got: i32 = math::min_i32(boost, caps[i]);
                offsets[i] = got;
                spent = spent + bits;
                assert(rate::ints(offsets@) =~= st.offsets.update(i as int, got as int));
            }
        }
        i = i + 1;
    }
    (offsets, spent)
}

/// The bytes of a frame whose target is `target` eighth bits beyond the `tell`
/// that are written: enough for what is written and for the boosts, and no more
/// than there are.
pub open spec fn vbr_bytes_spec(target: int, tell: int, boost: int, nb_bytes: int) -> int {
    let least = (tell + boost + 63) / 64 + 2;
    math::min(math::max((target + tell + 32) / 64, least), nb_bytes)
}

/// The bytes of a frame with a target.
pub fn vbr_bytes(target: i64, tell: u32, boost: i64, nb_bytes: usize) -> (r: usize)
    requires
        -0x4000_0000 <= target <= 0x4000_0000,
        tell <= 0x2000_0000,
        0 <= boost <= 0x4000_0000,
        nb_bytes <= 1275,
        (tell + boost + 63) / 64 + 2 <= nb_bytes,
    ensures
        r == vbr_bytes_spec(target as int, tell as int, boost as int, nb_bytes as int),
        2 <= r <= nb_bytes,
{
    let least: i64 = (tell as i64 + boost + 63) / 64 + 2;
    let sum: i64 = target + tell as i64 + 32;
    let wanted: i64 = if sum < 0 {
        0
    } else {
        sum / 64
    };
    let r: i64 = if wanted < least {
        least
    } else if wanted > nb_bytes as i64 {
        nb_bytes as i64
    } else {
        wanted
    };
    r as usize
}

/// The bytes that a frame can use at most.
pub open spec fn most_bytes(nb_bytes: int, lm: int) -> int {
    let cap = if lm == 0 {
        159int
    } else if lm == 1 {
        318
    } else if lm == 2 {
        637
    } else {
        1275
    };
    math::min(nb_bytes, cap)
}

/// The bytes of a frame of size `lm` that may shrink to a target of `target` eighth bits
/// beyond the `tell` that are written: one that what is written and the boosts leave no
/// room to shrink keeps its size.
pub open spec fn shrunk_bytes(target: int, tell: int, boost: int, nb_bytes: int, lm: int) -> int {
    let most = most_bytes(nb_bytes, lm);
    if (tell + boost + 63) / 64 + 2 <= most {
        vbr_bytes_spec(target, tell, boost, most)
    } else {
        nb_bytes
    }
}

/// The bytes that a frame can use at most.
pub fn cap_bytes(nb_bytes: usize, lm: usize) -> (r: usize)
    requires
        lm <= 3,
    ensures
        r == most_bytes(nb_bytes as int, lm as int),
{
    let cap: usize = if lm == 0 {
        159
    } else if lm == 1 {
        318
    } else if lm == 2 {
        637
    } else {
        1275
    };
    if nb_bytes < cap {
        nb_bytes
    } else {
        cap
    }
}

/// The weight of a band for the spread.
pub open spec fn spread_weight_spec(level: int) -> int {
    if level >= 0 {
        32
    } else if level == -1 {
        16
    } else if level == -2 {
        8
    } else if level == -3 {
        4
    } else if level == -4 {
        2
    } else {
        1
    }
}

/// The weight of a band for the spread: 32 for one that stands out of the masking,
/// half as much for each step that it is masked by, down to 1. `level` is how far
/// it stands out, rounded to steps of 6 dB.
pub fn spread_weight(level: i32) -> (r: i32)
    ensures
        r == spread_weight_spec(level as int),
{
    if level >= 0 {
        32
    } else if level == -1 {
        16
    } else if level == -2 {
        8
    } else if level == -3 {
        4
    } else if level == -4 {
        2
    } else {
        1
    }
}

/// Whether a frame has bytes enough for boosts.
pub fn boosts_wanted(bytes: usize, lm: usize) -> (r: bool)
    requires
        lm <= 3,
    ensures
        r == (bytes >= 30 + 5 * lm),
{
    bytes >= 30 + 5 * lm
}

/// The tilt that is coded for a wanted one.
pub fn held_trim(trim: i32) -> (r: usize)
    ensures
        r == math::min(math::max(trim as int, 0), 10),
{
    if trim < 0 {
        0
    } else if trim > 10 {
        10
    } else {
        trim as usize
    }
}

/// What the target of a variable rate starts from: its eighth bits, the values of
/// the bands coded last, and the shapes of those bands with a stereo image.
#[derive(Clone, Copy, Debug, PartialEq, Eq, Structural)]
pub struct VbrBase {
    pub target: i64,
    pub bins: i32,
    pub stereo_shapes: i32,
}

/// Where the target of a variable rate starts: the share of the frame, less a
/// fixed cost.
pub open spec fn vbr_base_spec(
    bitrate: int,
    channels: int,
    lm: int,
    last_coded: int,
    intensity: int,
) -> VbrBase {
    let m = modes::frame_mult(lm);
    let coded = if last_coded == 0 {
        21
    } else {
        last_coded
    };
    let joint = math::min(intensity, coded);
    VbrBase {
        target: (math::div_trunc(bitrate * (120 * m), 6000) - 8 * (40 * channels + 20)) as i64,
        bins: (m * modes::edge(coded) + if channels == 2 {
            m * modes::edge(joint)
        } else {
            0
        }) as i32,
        stereo_shapes: if channels == 2 {
            (m * modes::edge(joint) - joint) as i32
        } else {
            0
        },
    }
}

/// Where the target of a variable rate starts.
pub fn vbr_base(bitrate: i32, channels: usize, lm: usize, last_coded: usize, intensity: usize) -> (r: VbrBase)
    requires
        channels == 1 || channels == 2,
        lm <= 3,
        last_coded <= 21,
        intensity <= 21,
    ensures
        r == vbr_base_spec(bitrate as int, channels as int, lm as int, last_coded as int, intensity as int),
{
    let m: i32 = modes::frame_multiple(lm);
    let coded: usize = if last_coded == 0 {
        21
    } else {
        last_coded
    };
    let joint: usize = if intensity < coded {
        intensity
    } else {
        coded
    };
    proof {
        modes::lemma_edges(0, coded as int);
        modes::lemma_edges(0, joint as int);
        modes::lemma_edges(coded as int, 21);
        modes::lemma_edges(joint as int, 21);
        math::lemma_mul_range(m as int, 8, modes::edge(coded as int), 100);
        math::lemma_mul_range(m as int, 8, modes::edge(joint as int), 100);
    }
    let target: i64 = if lm == 0 {
        bitrate as i64 * 120 / 6000
    } else if lm == 1 {
        bitrate as i64 * 240 / 6000
    } else if lm == 2 {
        bitrate as i64 * 480 / 6000
    } else {
        bitrate as i64 * 960 / 6000
    };
    let wide: i32 = m * modes::band_edge(coded);
    let both: i32 = m * modes::band_edge(joint);
    if channels == 2 {
        VbrBase { target: target - 800, bins: wide + both, stereo_shapes: both - joint as i32 }
    } else {
        VbrBase { target: target - 480, bins: wide, stereo_shapes: 0 }
    }
}

} // verus!
