//! What the analysis decides: rates that mean the same in every frame size, choices that do
//! not waver, boosts and sizes within the frame.

use vstd::prelude::*;

use crate::celt::analysis::{self, SmallCounts, TfChoice};
use crate::celt::modes;
use crate::celt::rate;
use crate::celt::vq::Spread;
use crate::math;

verus! {

/// The rate of a frame is that of its bytes over its time, less the overhead of the frames
/// that it has more of in a second than there are of 20 ms: a frame of 20 ms has none.
pub proof fn lemma_equiv_rate(nb_bytes: int, lm: int, channels: int)
    requires
        0 <= lm <= 3,
    ensures
        ({
            let n = 120 * modes::frame_mult(lm);
            let r = analysis::equiv_rate_spec(nb_bytes, lm, channels);
            n * r == 8 * nb_bytes * 48_000 - (40 * channels + 20) * (48_000 - 50 * n)
        }),
        analysis::equiv_rate_spec(nb_bytes + 1, lm, channels) > analysis::equiv_rate_spec(nb_bytes, lm, channels),
        analysis::equiv_rate_spec(nb_bytes, 3, channels) * 960 == 8 * nb_bytes * 48_000,
{
    let h = 40 * channels + 20;
    let n = 120 * modes::frame_mult(lm);
    let r = analysis::equiv_rate_spec(nb_bytes, lm, channels);
    let less = h * (48_000 - 50 * n);
    if lm == 0 {
        assert(h * (400 - 50) == 350 * h && less == 42000 * h && n * r == 120 * r) by (nonlinear_arith)
            requires
                n == 120,
                less == h * (48_000 - 50 * n),
        ;
    } else if lm == 1 {
        assert(h * (200 - 50) == 150 * h && less == 36000 * h && n * r == 240 * r) by (nonlinear_arith)
            requires
                n == 240,
                less == h * (48_000 - 50 * n),
        ;
    } else if lm == 2 {
        assert(h * (100 - 50) == 50 * h && less == 24000 * h && n * r == 480 * r) by (nonlinear_arith)
            requires
                n == 480,
                less == h * (48_000 - 50 * n),
        ;
    } else {
        assert(h * (50 - 50) == 0 * h && less == 0 * h && n * r == 960 * r) by (nonlinear_arith)
            requires
                n == 960,
                less == h * (48_000 - 50 * n),
        ;
    }
    assert(h * (50 - 50) == 0) by (nonlinear_arith);
}

/// The first threshold above a value.
proof fn lemma_threshold_above(val: int, t: Seq<i32>, k: int)
    requires
        0 <= k <= t.len(),
    ensures
        ({
            let i = analysis::threshold_above(val, t, k);
            &&& k <= i <= t.len()
            &&& i < t.len() ==> val < t[i]
            &&& forall|j: int| k <= j < i ==> #[trigger] t[j] <= val
        }),
    decreases t.len() - k,
{
    if k < t.len() && val >= t[k] {
        lemma_threshold_above(val, t, k + 1);
    }
}

/// Whether thresholds increase and slacks are none or more.
pub open spec fn ordered(t: Seq<i32>, h: Seq<i32>) -> bool {
    &&& t.len() == h.len()
    &&& forall|i: int, j: int| 0 <= i < j < t.len() ==> t[i] < t[j]
    &&& forall|i: int| 0 <= i < h.len() ==> #[trigger] h[i] >= 0
}

/// A choice is the one that the value lies in, or the one before as long as the value has not
/// left it by more than the slack of the edge it left by; so it does not waver.
pub proof fn lemma_steady(val: int, t: Seq<i32>, h: Seq<i32>, prev: int)
    requires
        ordered(t, h),
        0 <= prev <= t.len(),
    ensures
        ({
            let r = analysis::with_slack(val, t, h, prev);
            &&& 0 <= r <= t.len()
            &&& r != prev ==> (r == 0 || t[r - 1] <= val) && (r == t.len() || val < t[r])
            &&& r > prev ==> val >= t[prev] + h[prev]
            &&& r < prev ==> val <= t[prev - 1] - h[prev - 1]
            &&& r == prev && prev < t.len() ==> val < t[prev] + h[prev]
            &&& r == prev && prev > 0 ==> val >= t[prev - 1] || val > t[prev - 1] - h[prev - 1]
            &&& analysis::with_slack(val, t, h, r) == r
        }),
{
    lemma_threshold_above(val, t, 0);
    let i = analysis::threshold_above(val, t, 0);
    if prev < t.len() && i <= prev {
        if i < t.len() {
            assert(val < t[i]);
            if i < prev {
                assert(t[i] < t[prev]);
            }
        }
    }
}

/// A higher value never gives a lower choice.
proof fn lemma_choice_order(a: int, b: int, t: Seq<i32>, h: Seq<i32>, prev: int)
    requires
        a <= b,
        ordered(t, h),
        0 <= prev <= t.len(),
    ensures
        analysis::with_slack(a, t, h, prev) <= analysis::with_slack(b, t, h, prev),
{
    lemma_threshold_above(a, t, 0);
    lemma_threshold_above(b, t, 0);
    let i = analysis::threshold_above(a, t, 0);
    let j = analysis::threshold_above(b, t, 0);
    if j < i {
        assert(t[j] <= a);
    }
}

proof fn lemma_tables_ordered()
    ensures
        ordered(analysis::INTENSITY_THRESHOLDS@, analysis::INTENSITY_HYSTERESIS@),
        analysis::INTENSITY_THRESHOLDS@[20] + analysis::INTENSITY_HYSTERESIS@[20] == 142,
        analysis::INTENSITY_THRESHOLDS@.len() == 21,
{
    reveal(analysis::INTENSITY_THRESHOLDS);
    reveal(analysis::INTENSITY_HYSTERESIS);
    let t = analysis::INTENSITY_THRESHOLDS@;
    let h = analysis::INTENSITY_HYSTERESIS@;
    assert forall|i: int| 0 <= i < 20 implies #[trigger] t[i] < t[i + 1] by {
        assert(i == 0 || i == 1 || i == 2 || i == 3 || i == 4 || i == 5 || i == 6 || i == 7 || i == 8 || i == 9 || i == 10
            || i == 11 || i == 12 || i == 13 || i == 14 || i == 15 || i == 16 || i == 17 || i == 18 || i == 19);
    }
    assert forall|i: int, j: int| 0 <= i < j < 21 implies t[i] < t[j] by {
        lemma_steps_up(t, i, j);
    }
    assert forall|i: int| 0 <= i < 21 implies #[trigger] h[i] >= 0 by {
        assert(i == 0 || i == 1 || i == 2 || i == 3 || i == 4 || i == 5 || i == 6 || i == 7 || i == 8 || i == 9 || i == 10
            || i == 11 || i == 12 || i == 13 || i == 14 || i == 15 || i == 16 || i == 17 || i == 18 || i == 19 || i == 20);
    }
}

proof fn lemma_steps_up(t: Seq<i32>, i: int, j: int)
    requires
        0 <= i < j < 21,
        forall|k: int| 0 <= k < 20 ==> #[trigger] t[k] < t[k + 1],
    ensures
        t[i] < t[j],
    decreases j - i,
{
    if i + 1 < j {
        lemma_steps_up(t, i, j - 1);
    }
    assert(t[j - 1] < t[j - 1 + 1]);
}

/// More rate never narrows the stereo image: the first band without one of its own is no
/// lower, it is one of the frame's, and from 142 kb/s on it is the end.
pub proof fn lemma_stereo_image(rate: int, more: int, prev: int, start: int, end: int)
    requires
        0 <= rate <= more,
        0 <= prev <= 21,
        0 <= start <= end <= 21,
    ensures
        start <= analysis::intensity_spec(rate, prev, start, end) <= end,
        analysis::intensity_spec(rate, prev, start, end) <= analysis::intensity_spec(more, prev, start, end),
        rate >= 142_000 ==> analysis::intensity_spec(rate, prev, start, end) == end,
        rate < 1000 && prev == 0 ==> analysis::intensity_spec(rate, prev, start, end) == start,
{
    lemma_tables_ordered();
    let t = analysis::INTENSITY_THRESHOLDS@;
    let h = analysis::INTENSITY_HYSTERESIS@;
    lemma_choice_order(rate / 1000, more / 1000, t, h, prev);
    if rate >= 142_000 {
        lemma_steady(rate / 1000, t, h, prev);
        lemma_threshold_above(rate / 1000, t, 0);
        let i = analysis::threshold_above(rate / 1000, t, 0);
        if i < 21 {
            if i < 20 {
                assert(t[i] < t[20]);
            }
        }
        lemma_high_rate(rate / 1000, prev);
    }
    if rate < 1000 {
        lemma_threshold_above(0, t, 0);
        reveal(analysis::INTENSITY_THRESHOLDS);
    }
}

/// Beyond every edge and its slack.
proof fn lemma_high_rate(val: int, prev: int)
    requires
        val >= 142,
        0 <= prev <= 21,
    ensures
        analysis::with_slack(val, analysis::INTENSITY_THRESHOLDS@, analysis::INTENSITY_HYSTERESIS@, prev) == 21,
{
    lemma_tables_ordered();
    let t = analysis::INTENSITY_THRESHOLDS@;
    let h = analysis::INTENSITY_HYSTERESIS@;
    lemma_threshold_above(val, t, 0);
    let i = analysis::threshold_above(val, t, 0);
    if i < 20 {
        assert(t[i] < t[20]);
    }
    assert(i == 21);
    if prev < 21 {
        reveal(analysis::INTENSITY_THRESHOLDS);
        reveal(analysis::INTENSITY_HYSTERESIS);
        let p = prev;
        assert(p == 0 || p == 1 || p == 2 || p == 3 || p == 4 || p == 5 || p == 6 || p == 7 || p == 8 || p == 9 || p == 10
            || p == 11 || p == 12 || p == 13 || p == 14 || p == 15 || p == 16 || p == 17 || p == 18 || p == 19 || p == 20);
        assert(t[prev] + h[prev] <= 142);
    }
}

/// A band is as peaked as there are measures by which at least half of it is small: more
/// small values never make it less so.
pub proof fn lemma_peakedness(a: SmallCounts, b: SmallCounts, n: int)
    requires
        a.quarter <= b.quarter,
        a.sixteenth <= b.sixteenth,
        a.sixty_fourth <= b.sixty_fourth,
    ensures
        0 <= analysis::peakedness(a, n) <= analysis::peakedness(b, n) <= 3,
        analysis::peakedness(a, n) == 3 <==> 2 * a.quarter >= n && 2 * a.sixteenth >= n && 2 * a.sixty_fourth >= n,
        analysis::peakedness(a, n) == 0 <==> 2 * a.quarter < n && 2 * a.sixteenth < n && 2 * a.sixty_fourth < n,
{
}

/// A band of at most eight values does not count for the spread: two frames that differ in
/// such bands alone have the same sums. No band counts by more than three times its weight.
pub proof fn lemma_narrow_ignored(
    a: Seq<SmallCounts>,
    b: Seq<SmallCounts>,
    weights: Seq<i32>,
    end: int,
    m: int,
    k: int,
)
    requires
        1 <= end <= 21,
        0 <= k <= a.len(),
        k <= b.len(),
        forall|j: int| 0 <= j < k && m * modes::width(j % end) > 8 ==> #[trigger] a[j] == b[j],
        forall|j: int| 0 <= j < 21 ==> #[trigger] weights[j] >= 0,
    ensures
        analysis::spread_sum(a, weights, end, m, k) == analysis::spread_sum(b, weights, end, m, k),
        0 <= analysis::spread_sum(a, weights, end, m, k).sum <= 3 * analysis::spread_sum(a, weights, end, m, k).weight,
    decreases k,
{
    if k > 0 {
        lemma_narrow_ignored(a, b, weights, end, m, k - 1);
        let i = (k - 1) % end;
        let n = m * modes::width(i);
        if n > 8 {
            assert(a[k - 1] == b[k - 1]);
            assert(0 <= i < 21);
            let p = analysis::peakedness(a[k - 1], n);
            let w = weights[i] as int;
            assert(0 <= p * w <= 3 * w) by (nonlinear_arith)
                requires
                    0 <= p <= 3,
                    w >= 0,
            ;
        }
    }
}

/// The tonality of a frame is the mean of what was and what is, in 256ths of a measure, and
/// between them.
pub proof fn lemma_tonality(
    counts: Seq<SmallCounts>,
    weights: Seq<i32>,
    end: int,
    m: int,
    channels: int,
    average: int,
)
    requires
        1 <= end <= 21,
        1 <= channels <= 2,
        counts.len() == channels * end,
        0 <= average <= 768,
        forall|j: int| 0 <= j < 21 ==> #[trigger] weights[j] >= 0,
    ensures
        ({
            let s = analysis::spread_sum(counts, weights, end, m, channels * end);
            let t = analysis::tonality(counts, weights, end, m, channels, average);
            let now = 256 * s.sum / if s.weight > 1 {
                s.weight
            } else {
                1
            };
            &&& 2 * t <= now + average <= 2 * t + 1
            &&& 0 <= now <= 768
            &&& 0 <= t <= 768
        }),
{
    let k = channels * end;
    assert(k >= 0) by (nonlinear_arith)
        requires
            k == channels * end,
            channels >= 1,
            end >= 1,
    ;
    lemma_narrow_ignored(counts, counts, weights, end, m, k);
    let s = analysis::spread_sum(counts, weights, end, m, k);
    let w = math::max(s.weight, 1);
    let now = 256 * s.sum / w;
    math::lemma_div(256 * s.sum, w);
    assert(now <= 768) by (nonlinear_arith)
        requires
            w * now <= 256 * s.sum,
            s.sum <= 3 * w,
            w >= 1,
    ;
    assert(now >= 0) by (nonlinear_arith)
        requires
            256 * s.sum < w * now + w,
            s.sum >= 0,
            w >= 1,
    ;
}

/// How much a spread spreads.
pub open spec fn strength(s: Spread) -> int {
    match s {
        Spread::Off => 0,
        Spread::Light => 1,
        Spread::Normal => 2,
        Spread::Aggressive => 3,
    }
}

/// The more tonal a frame is, the less it is spread, and the less the one before was, the
/// less it is too.
pub proof fn lemma_spread_for(a: int, b: int, x: Spread, y: Spread)
    requires
        0 <= a <= b,
        strength(x) >= strength(y),
    ensures
        strength(analysis::spread_for(a, x)) >= strength(analysis::spread_for(b, x)),
        strength(analysis::spread_for(a, x)) >= strength(analysis::spread_for(a, y)),
        analysis::spread_for(a, x) == Spread::Aggressive <==> 3 * a + 128 * (3 - strength(x)) < 254,
        analysis::spread_for(a, x) == Spread::Off <==> 3 * a + 128 * (3 - strength(x)) >= 1470,
        strength(analysis::spread_for(a, x)) >= 2 <==> 3 * a + 128 * (3 - strength(x)) < 958,
{
}

/// The resolution that suits a band is its sparsest step, up for short blocks and down for
/// long ones, in halves; a band of one value stands half a step lower at either end.
pub proof fn lemma_tf_metric(level: int, lm: int, narrow: bool, transient: bool)
    ensures
        analysis::tf_metric_spec(level, true, false, lm) == 2 * level,
        analysis::tf_metric_spec(level, true, false, lm) + analysis::tf_metric_spec(level, false, false, lm) == 0,
        ({
            let lower = analysis::tf_metric_spec(level, transient, false, lm) - analysis::tf_metric_spec(
                level,
                transient,
                true,
                lm,
            );
            &&& lower == 0 || lower == 1
            &&& lower == 1 <==> level == 0 || (if transient {
                level == -lm
            } else {
                level == lm
            })
        }),
{
}

/// A flag costs nothing where its resolution is the suitable one, and more the farther it is
/// off, by the band's weight.
pub proof fn lemma_flag_cost(c: TfChoice, select: bool, flag: bool, i: int)
    requires
        c.wf(),
        0 <= i < 21,
    ensures
        ({
            let entry = crate::celt::decoder::TF_SELECT_TABLE[c.lm][if c.transient {
                4int
            } else {
                0
            } + if select {
                2int
            } else {
                0
            } + if flag {
                1int
            } else {
                0
            }];
            let off = c.metric[i] - 2 * entry;
            &&& c.cost(select, flag, i) >= 0
            &&& off == 0 ==> c.cost(select, flag, i) == 0
            &&& off >= 0 ==> c.cost(select, flag, i) == c.importance[i] * off
            &&& off <= 0 ==> c.cost(select, flag, i) == c.importance[i] * (-off)
        }),
        c.transient ==> c.first_cost(select, flag) == c.cost(select, flag, 0),
        !c.transient ==> c.first_cost(select, true) == c.cost(select, true, 0) + c.lambda,
        c.first_cost(select, false) == c.cost(select, false, 0),
{
    let entry = crate::celt::decoder::TF_SELECT_TABLE[c.lm][if c.transient {
        4int
    } else {
        0
    } + if select {
        2int
    } else {
        0
    } + if flag {
        1int
    } else {
        0
    }];
    let off = math::abs(c.metric[i] - 2 * entry);
    let w = c.importance[i] as int;
    assert(w * off >= 0) by (nonlinear_arith)
        requires
            w >= 0,
            off >= 0,
    ;
    assert(w * 0 == 0) by (nonlinear_arith);
}

/// The second pair of resolutions is taken where it costs strictly less, in short blocks
/// only; what is taken costs no more than the other there.
pub proof fn lemma_pair_taken(c: TfChoice, end: int)
    ensures
        !c.transient ==> !c.select(end),
        c.transient ==> c.least(c.select(end), end) <= c.least(!c.select(end), end),
        c.least(true, end) == c.least(false, end) ==> !c.select(end),
        c.least(true, end) <= c.best(true, true, end - 1) && c.least(true, end) <= c.best(true, false, end - 1),
        c.least(false, end) <= c.best(false, true, end - 1) && c.least(false, end) <= c.best(false, false, end - 1),
{
}

/// The mask measure is the weight of the levels for each of the samples that were looked at,
/// rounded down.
pub proof fn lemma_unmask(levels: Seq<u8>, half: int)
    requires
        half > 17,
    ensures
        ({
            let r = analysis::unmask_spec(levels, half);
            let w = analysis::weight_sum(levels, levels.len() as int);
            &&& 6 * (half - 17) * r <= 256 * w
            &&& 256 * w < 6 * (half - 17) * (r + 1)
        }),
{
    let d = 6 * (half - 17);
    let w = 256 * analysis::weight_sum(levels, levels.len() as int);
    vstd::arithmetic::div_mod::lemma_fundamental_div_mod(w, d);
    vstd::arithmetic::div_mod::lemma_mod_division_less_than_divisor(w, d);
    let r = w / d;
    assert(d * (r + 1) == d * r + d) by (nonlinear_arith);
}

/// A boost costs between an eighth of a bit and a bit for each of the band's values and each
/// of its steps: the bit in a narrow band, the eighth in a wide one, and six bits a step in
/// between.
pub proof fn lemma_boost_cost(boost: int, width: int)
    requires
        boost >= 0,
        width >= 1,
    ensures
        ({
            let b = analysis::boost_bits(boost, width);
            &&& boost * width <= b <= 8 * (boost * width)
            &&& width <= 6 ==> b == 8 * (boost * width)
            &&& 6 <= width <= 48 ==> b == 48 * boost
            &&& width >= 48 ==> b == boost * width
        }),
{
    let p = boost * width;
    if width == 6 {
        assert(boost * width == 6 * boost) by (nonlinear_arith)
            requires
                width == 6,
        ;
    }
    if width == 48 {
        assert(boost * width == 48 * boost) by (nonlinear_arith)
            requires
                width == 48,
        ;
    }
    if 6 <= width <= 48 {
        assert(6 * boost <= boost * width <= 48 * boost) by (nonlinear_arith)
            requires
                6 <= width <= 48,
                boost >= 0,
        ;
    }
    assert(p >= 0) by (nonlinear_arith)
        requires
            p == boost * width,
            boost >= 0,
            width >= 1,
    ;
}

/// As long as the boosts stay within two thirds of the frame every band has what it wants, up
/// to its cap; once they go beyond, the bands that come have none. What was spent is always
/// within the two thirds.
pub proof fn lemma_boosts_held(want: Seq<i32>, start: int, c: int, lm: int, bytes: int, i: int, k: int)
    requires
        0 <= start <= i <= 21,
        0 <= k < 21,
        bytes >= 0,
        c == 1 || c == 2,
        0 <= lm <= 3,
        forall|j: int| 0 <= j < 21 ==> 0 <= #[trigger] want[j] <= 32,
    ensures
        ({
            let b = analysis::limit(want, start, c, lm, bytes, i);
            &&& b.offsets.len() == 21
            &&& b.spent / 64 <= 2 * bytes / 3
            &&& b.spent >= 0
            &&& (k < start || k >= i) ==> b.offsets[k] == 0
            &&& b.open && start <= k < i ==> b.offsets[k] == if want[k] <= rate::band_cap(lm, c, k) {
                want[k] as int
            } else {
                rate::band_cap(lm, c, k)
            }
            &&& !b.open ==> analysis::limit(want, start, c, lm, bytes, if i < 21 {
                i + 1
            } else {
                i
            }) == b || i == 21
        }),
    decreases i,
{
    if i > start {
        lemma_boosts_held(want, start, c, lm, bytes, i - 1, k);
        let width = c * (modes::width(i - 1) * modes::frame_mult(lm));
        modes::lemma_width(i - 1);
        let w = modes::width(i - 1);
        let m = modes::frame_mult(lm);
        assert(width >= 1) by (nonlinear_arith)
            requires
                width == c * (w * m),
                c >= 1,
                w >= 1,
                m >= 1,
        ;
        lemma_boost_cost(want[i - 1] as int, width);
        let bits = analysis::boost_bits(want[i - 1] as int, width);
        assert(want[i - 1] * width >= 0) by (nonlinear_arith)
            requires
                want[i - 1] >= 0,
                width >= 1,
        ;
    }
}

/// A variable frame gets the bytes nearest to its target, but enough for what is written and
/// boosted, and no more than there are.
pub proof fn lemma_nearest_bytes(target: int, tell: int, boost: int, nb_bytes: int)
    requires
        (tell + boost + 63) / 64 + 2 <= nb_bytes,
        tell >= 0,
        boost >= 0,
    ensures
        ({
            let r = analysis::vbr_bytes_spec(target, tell, boost, nb_bytes);
            &&& r <= nb_bytes
            &&& 64 * (r - 2) >= tell + boost
            &&& r < nb_bytes ==> target + tell < 64 * r + 32
            &&& 64 * (r - 3) >= tell + boost ==> 64 * r - 32 <= target + tell
        }),
{
}

/// A frame can use at most what a frame of 20 ms can for its length: 1275 bytes.
pub proof fn lemma_most_bytes(nb_bytes: int, lm: int)
    requires
        0 <= lm <= 3,
    ensures
        ({
            let r = analysis::most_bytes(nb_bytes, lm);
            let m = modes::frame_mult(3) / modes::frame_mult(lm);
            &&& r <= nb_bytes
            &&& r * m <= 1275
            &&& r < nb_bytes ==> (r + 1) * m > 1275
        }),
{
    let r = analysis::most_bytes(nb_bytes, lm);
    let m = modes::frame_mult(3) / modes::frame_mult(lm);
    assert(8int / 1 == 8 && 8int / 2 == 4 && 8int / 4 == 2 && 8int / 8 == 1);
    if lm == 0 {
        assert(r * m == 8 * r && (r + 1) * m == 8 * (r + 1)) by (nonlinear_arith)
            requires
                m == 8,
        ;
    } else if lm == 1 {
        assert(r * m == 4 * r && (r + 1) * m == 4 * (r + 1)) by (nonlinear_arith)
            requires
                m == 4,
        ;
    } else if lm == 2 {
        assert(r * m == 2 * r && (r + 1) * m == 2 * (r + 1)) by (nonlinear_arith)
            requires
                m == 2,
        ;
    } else {
        assert(r * m == r && (r + 1) * m == r + 1) by (nonlinear_arith)
            requires
                m == 1,
        ;
    }
}

/// A frame that may shrink never grows; one that has no room to shrink keeps its size, any
/// other has at most what its length can use.
pub proof fn lemma_shrunk(target: int, tell: int, boost: int, nb_bytes: int, lm: int)
    requires
        0 <= lm <= 3,
        tell >= 0,
        boost >= 0,
    ensures
        ({
            let r = analysis::shrunk_bytes(target, tell, boost, nb_bytes, lm);
            let most = analysis::most_bytes(nb_bytes, lm);
            &&& r <= nb_bytes
            &&& tell + boost > 64 * (most - 2) ==> r == nb_bytes
            &&& tell + boost <= 64 * (most - 2) ==> r <= most && 64 * (r - 2) >= tell + boost
            &&& tell + boost <= 64 * (most - 2) ==> r == analysis::vbr_bytes_spec(target, tell, boost, most)
        }),
{
}

/// The target of a variable rate starts from the rate times the time, in eighths of a bit,
/// less the overhead; where no band was coded before, all count as coded. The values are
/// those of the coded bands, those with a stereo image twice; each of these bands has one
/// shape parameter less.
pub proof fn lemma_vbr_base(bitrate: int, channels: int, lm: int, last_coded: int, intensity: int)
    requires
        0 <= bitrate <= 0x7FFF_FFFF,
        channels == 1 || channels == 2,
        0 <= lm <= 3,
        0 <= last_coded <= 21,
        0 <= intensity <= 21,
    ensures
        ({
            let r = analysis::vbr_base_spec(bitrate, channels, lm, last_coded, intensity);
            let n = 120 * modes::frame_mult(lm);
            let whole = r.target + 8 * (40 * channels + 20);
            &&& whole * 48_000 <= 8 * (bitrate * n)
            &&& 8 * (bitrate * n) < (whole + 1) * 48_000
            &&& channels == 1 ==> r.stereo_shapes == 0 && r.bins == modes::frame_mult(lm) * modes::edge(
                if last_coded == 0 {
                    21
                } else {
                    last_coded
                },
            )
            &&& channels == 2 && last_coded > 0 && intensity >= last_coded ==> r.bins == 2 * (modes::frame_mult(lm)
                * modes::edge(last_coded)) && r.stereo_shapes == modes::frame_mult(lm) * modes::edge(last_coded)
                - last_coded
            &&& channels == 2 && last_coded > 0 && intensity < last_coded ==> r.bins == modes::frame_mult(lm)
                * modes::edge(last_coded) + modes::frame_mult(lm) * modes::edge(intensity) && r.stereo_shapes
                == modes::frame_mult(lm) * modes::edge(intensity) - intensity
        }),
        analysis::vbr_base_spec(bitrate, channels, lm, 0, intensity) == analysis::vbr_base_spec(
            bitrate,
            channels,
            lm,
            21,
            intensity,
        ),
{
    let m = modes::frame_mult(lm);
    let coded = if last_coded == 0 {
        21
    } else {
        last_coded
    };
    let joint = math::min(intensity, coded);
    modes::lemma_edges(0, coded);
    modes::lemma_edges(0, joint);
    modes::lemma_edges(coded, 21);
    modes::lemma_edges(joint, 21);
    math::lemma_mul_range(m, 8, modes::edge(coded), 100);
    math::lemma_mul_range(m, 8, modes::edge(joint), 100);
    let x = bitrate * (120 * m);
    math::lemma_mul_range(bitrate, 0x7FFF_FFFF, 120 * m, 960);
    assert(math::div_trunc(x, 6000) == x / 6000);
}

/// A band weighs 32 for the spread, half as much for each step that it is masked by, and one at
/// least.
pub proof fn lemma_spread_weight(level: int)
    ensures
        level >= 0 ==> analysis::spread_weight_spec(level) == 32,
        -5 < level <= 0 ==> analysis::spread_weight_spec(level) == 2 * analysis::spread_weight_spec(level - 1),
        1 <= analysis::spread_weight_spec(level) <= 32,
{
}

/// A frame is a transient where a channel's mask measure is above 200; the larger measure counts,
/// and the first channel where both are the same.
pub proof fn lemma_transient(first: i32, second: Option<i32>)
    ensures
        ({
            let (found, metric, channel) = analysis::transient_spec(first, second);
            &&& found <==> first > 200 || (second is Some && second->0 > 200)
            &&& metric >= first && (second is Some ==> metric >= second->0)
            &&& channel == 0 ==> metric == first
            &&& channel == 1 ==> second is Some && metric == second->0 && metric > first
            &&& channel == 0 || channel == 1
        }),
{
}

/// The next band has the boost that it wants, up to its cap, where the boosts then stay within two
/// thirds of the frame, and what is left of these else, which ends the boosts.
pub proof fn lemma_boost_given(want: Seq<i32>, start: int, c: int, lm: int, bytes: int, i: int)
    requires
        0 <= start <= i < 21,
        analysis::limit(want, start, c, lm, bytes, i).open,
        analysis::limit(want, start, c, lm, bytes, i).offsets.len() == 21,
    ensures
        ({
            let st = analysis::limit(want, start, c, lm, bytes, i);
            let next = analysis::limit(want, start, c, lm, bytes, i + 1);
            let bits = analysis::boost_bits(want[i] as int, c * (modes::width(i) * modes::frame_mult(lm)));
            &&& next.open <==> (st.spent + bits) / 64 <= 2 * bytes / 3
            &&& next.open ==> next.spent == st.spent + bits
            &&& !next.open ==> next.spent == st.spent && next.offsets[i] == 64 * (2 * bytes / 3) - st.spent
        }),
{
}

/// Where both ways to a flag cost the same, a set one comes before it; and where both ends cost the
/// same, the last is set.
pub proof fn lemma_ties(c: TfChoice, select: bool, i: int, end: int)
    ensures
        c.best(select, false, i - 1) + c.lambda == c.best(select, true, i - 1) ==> c.before(select, true, i),
        c.best(select, false, i - 1) == c.best(select, true, i - 1) + c.lambda ==> c.before(select, false, i),
        c.best(select, false, end - 1) == c.best(select, true, end - 1) ==> c.flag(select, end, end - 1),
{
}

} // verus!
