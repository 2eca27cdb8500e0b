//! What the decoding of the band shapes is for: parts without pulses that are filled from
//! the spectrum below where there is one, budgets within the frame, masks that say what
//! holds something.

use vstd::arithmetic::power2::pow2;
use vstd::prelude::*;

use crate::celt::angle;
use crate::celt::bands::{
    self, BandPlanView, BandShapeView, FrameEnv, FrameSeen, FrameState, LeafView, PartEnv, PartState,
};
use crate::celt::codebook;
use crate::celt::modes;
use crate::celt::rate;
use crate::celt::vq::Spread;
use crate::math;

verus! {

/// Whether as much spectrum as band `k` has is already decoded below it.
pub open spec fn room_below(env: FrameEnv, k: int) -> bool {
    modes::edge(k) - modes::width(k) >= modes::edge(env.start)
}

/// The spectrum that a frame's bands fold from, once there is some.
proof fn lemma_lowband(env: FrameEnv, st: FrameState, i: int)
    requires
        env.wf(),
        env.start <= i <= env.end,
        st.lowband == 0,
    ensures
        (exists|k: int| env.start <= k < i && #[trigger] room_below(env, k)) ==> env.run(st, i).lowband > 0,
        !(exists|k: int| env.start <= k < i && #[trigger] room_below(env, k)) ==> env.run(st, i).lowband == 0,
        env.run(st, i).lowband < i || i == env.start,
    decreases i,
{
    if i > env.start {
        let k = i - 1;
        lemma_lowband(env, st, k);
        lemma_room(env, k);
        let s = env.run(st, k);
        assert(env.run(st, i) == env.step(s, k));
        assert(env.run(st, i).lowband == env.lowband_at(s.seen(), k));
        if exists|h: int| env.start <= h < k && #[trigger] room_below(env, h) {
            let h = choose|h: int| env.start <= h < k && #[trigger] room_below(env, h);
            assert(env.start <= h < i && room_below(env, h));
        } else if room_below(env, k) {
            assert(env.start <= k < i && room_below(env, k));
        }
    }
}

/// Room below a band in frames of any size.
proof fn lemma_room(env: FrameEnv, k: int)
    requires
        env.wf(),
        env.start <= k < env.end,
    ensures
        ({
            let m = modes::frame_mult(env.lm);
            m * modes::edge(k) - codebook::part_len(k, env.lm) >= m * modes::edge(env.start) <==> room_below(env, k)
        }),
        room_below(env, k) ==> k > env.start,
{
    let m = modes::frame_mult(env.lm);
    let a = modes::edge(k);
    let w = modes::width(k);
    let s = modes::edge(env.start);
    modes::lemma_width(k);
    assert(m * a - w * m >= m * s <==> a - w >= s) by (nonlinear_arith)
        requires
            m >= 1,
    ;
}

/// Unless the spread is aggressive, every band of a frame has a source to fold from once a
/// band up to it had as much spectrum below it as it is wide itself. With aggressive spread
/// that holds of frames of several blocks and of bands with a finer resolution in time.
pub proof fn lemma_has_source(env: FrameEnv, st: FrameState, k: int, i: int)
    requires
        env.wf(),
        st.lowband == 0,
        env.start <= k <= i < env.end,
        modes::edge(k) - modes::width(k) >= modes::edge(env.start),
        env.spread != Spread::Aggressive || (env.short_blocks && env.lm > 0) || env.tf_res[i] < 0,
    ensures
        env.run(st, i + 1).plans.last().lowband is Some,
{
    let s = env.run(st, i);
    assert(env.run(st, i + 1) == env.step(s, i));
    lemma_lowband(env, st, i);
    lemma_room(env, i);
    assert(room_below(env, k));
    if k < i {
        assert(env.start <= k < i && room_below(env, k));
    }
    assert(env.lowband_at(s.seen(), i) != 0);
    assert(env.folds(s.seen(), i));
}

/// A band has no source where nothing up to it had as much spectrum below as it is wide, as
/// the first band never has, nor with aggressive spread in a frame of one block whose
/// resolution in time is not made finer.
pub proof fn lemma_no_source(env: FrameEnv, st: FrameState, i: int)
    requires
        env.wf(),
        st.lowband == 0,
        env.start <= i < env.end,
        (env.spread == Spread::Aggressive && (!env.short_blocks || env.lm == 0) && env.tf_res[i] >= 0) || (forall|
            k: int,
        |
            env.start <= k <= i ==> #[trigger] modes::edge(k) - modes::width(k) < modes::edge(env.start)),
    ensures
        env.run(st, i + 1).plans.last().lowband is None,
        env.run(st, env.start + 1).plans.last().lowband is None,
{
    let s = env.run(st, i);
    assert(env.run(st, i + 1) == env.step(s, i));
    lemma_lowband(env, st, i);
    lemma_room(env, i);
    if !(env.spread == Spread::Aggressive && (!env.short_blocks || env.lm == 0) && env.tf_res[i] >= 0) {
        assert forall|k: int| env.start <= k <= i implies !(#[trigger] room_below(env, k)) by {
            assert(modes::edge(k) - modes::width(k) < modes::edge(env.start));
        }
        assert(env.lowband_at(s.seen(), i) == 0);
    }
    assert(!env.folds(s.seen(), i));
    assert(env.run(st, env.start + 1) == env.step(env.run(st, env.start), env.start));
    assert(env.run(st, env.start) == st);
    lemma_room(env, env.start);
}

/// A band that folds right after one that was paid well folds from the spectrum directly
/// below it; the source is as long as the band.
pub proof fn lemma_source_below(env: FrameEnv, s: FrameSeen, i: int)
    requires
        env.wf(),
        env.start <= i < env.end,
        s.update || s.lowband == 0,
        modes::edge(i) - modes::width(i) >= modes::edge(env.start),
    ensures
        env.lowband_at(s, i) == i,
        ({
            let m = modes::frame_mult(env.lm);
            env.fold_source(s, i) + modes::width(i) * m == m * modes::edge(i) - m * modes::edge(env.start)
        }),
{
    lemma_room(env, i);
}

/// Where the source does not move, it stays what it was, or moves to the start for a band
/// that is wider than what is below it.
pub proof fn lemma_source_stays(env: FrameEnv, s: FrameSeen, i: int)
    requires
        env.wf(),
        env.start <= i < env.end,
        !s.update,
        s.lowband > 0,
    ensures
        env.lowband_at(s, i) == s.lowband,
        env.fold_source(s, i) >= 0,
        ({
            let m = modes::frame_mult(env.lm);
            env.fold_source(s, i) > 0 ==> env.fold_source(s, i) + modes::width(i) * m == m * modes::edge(s.lowband)
                - m * modes::edge(env.start)
        }),
{
}

/// Whether no part of a list is filled with noise.
pub open spec fn no_noise(leaves: Seq<LeafView>) -> bool {
    forall|i: int| 0 <= i < leaves.len() ==> !(#[trigger] leaves[i].kind is Noise)
}

/// Whether no part of a list is folded.
pub open spec fn no_fold(leaves: Seq<LeafView>) -> bool {
    forall|i: int| 0 <= i < leaves.len() ==> !(#[trigger] leaves[i].kind is Fold)
}

/// A part that no pulse is affordable for is folded where its source holds something, filled
/// with noise where there is no source at all, and left silent where the source, or what
/// stands for it, is empty. Only what was taken up is marked.
pub proof fn lemma_filled(
    env: PartEnv,
    st: PartState,
    n: int,
    offset: int,
    b: int,
    big_b: int,
    lm: int,
    gains: Seq<i32>,
    fill: u32,
)
    requires
        bands::affordable(env.i, lm, rate::nearest_level(env.i, lm, b), st.remaining) == 0,
        n >= 0,
    ensures
        ({
            let r = bands::leaf(env, st, n, offset, b, big_b, lm, gains, fill);
            let given = fill & bands::block_mask(big_b);
            &&& r.leaves.len() == 1
            &&& r.leaves[0].offset == offset
            &&& r.leaves[0].len == n
            &&& r.leaves[0].gains == gains
            &&& r.leaves[0].blocks == big_b
            &&& given != 0 && env.fold ==> r.leaves[0].kind is Fold && r.leaves[0].kind->Fold_0.len() == n && r.cm
                == given
            &&& given != 0 && !env.fold ==> r.leaves[0].kind is Noise && r.leaves[0].kind->Noise_0.len() == n && r.cm
                == bands::block_mask(big_b)
            &&& given == 0 ==> r.leaves[0].kind is Silent && r.cm == 0 && r.st.seed == st.seed
            &&& r.st.dec == st.dec
        }),
{
    reveal(bands::leaf);
}

/// The level of a part is the highest up to the one its budget is nearest to that the rest
/// of the frame pays for.
pub proof fn lemma_affordable(i: int, lm: int, q: int, remaining: int)
    requires
        q >= 0,
    ensures
        ({
            let r = bands::affordable(i, lm, q, remaining);
            &&& 0 <= r <= q
            &&& r > 0 ==> rate::cost(i, lm, r) <= remaining
            &&& forall|p: int| r < p <= q ==> #[trigger] rate::cost(i, lm, p) > remaining
        }),
    decreases q,
{
    if q > 0 && remaining - rate::cost(i, lm, q) < 0 {
        lemma_affordable(i, lm, q - 1, remaining);
    }
}

/// With a source no part of a partition is noise, without one none is a fold.
pub proof fn lemma_parts(
    env: PartEnv,
    st: PartState,
    n: int,
    offset: int,
    b: int,
    big_b: int,
    lm: int,
    gains: Seq<i32>,
    fill: u32,
)
    ensures
        env.fold ==> no_noise(bands::partition(env, st, n, offset, b, big_b, lm, gains, fill).leaves),
        !env.fold ==> no_fold(bands::partition(env, st, n, offset, b, big_b, lm, gains, fill).leaves),
    decreases lm + 1,
{
    if lm > -1 && bands::is_split(env.i, lm, n, b) {
        let half = n / 2;
        let blocks = (big_b + 1) / 2;
        let p = bands::split_plan(env, st, n, b, big_b, lm, fill);
        let mgains = gains.push(p.mid);
        let sgains = gains.push(p.side);
        let sfill = p.fill >> (blocks as u32);
        if p.mbits >= p.sbits {
            let m = bands::partition(env, p.st, half, offset, p.mbits, blocks, lm - 1, mgains, p.fill);
            let s2 = bands::rebalanced(p.sbits, p.mbits, p.st.remaining, m.st.remaining, p.itheta == 0);
            lemma_parts(env, p.st, half, offset, p.mbits, blocks, lm - 1, mgains, p.fill);
            lemma_parts(env, m.st, half, offset + half, s2, blocks, lm - 1, sgains, sfill);
        } else {
            let s = bands::partition(env, p.st, half, offset + half, p.sbits, blocks, lm - 1, sgains, sfill);
            let m2 = bands::rebalanced(p.mbits, p.sbits, p.st.remaining, s.st.remaining, p.itheta == 16384);
            lemma_parts(env, p.st, half, offset + half, p.sbits, blocks, lm - 1, sgains, sfill);
            lemma_parts(env, s.st, half, offset, m2, blocks, lm - 1, mgains, p.fill);
        }
    } else {
        reveal(bands::leaf);
    }
}

/// The parts of a shape; a sign has none.
pub open spec fn parts_of(s: BandShapeView) -> Seq<LeafView> {
    match s {
        BandShapeView::Sign(_) => Seq::empty(),
        BandShapeView::Leaves { leaves, .. } => leaves,
    }
}

proof fn lemma_band_parts(
    env: PartEnv,
    st: PartState,
    n: int,
    b: int,
    big_b: int,
    lm: int,
    tf: int,
    gains: Seq<i32>,
    fill: u32,
)
    ensures
        env.fold ==> no_noise(parts_of(bands::band(env, st, n, b, big_b, lm, tf, gains, fill).shape)),
        !env.fold ==> no_fold(parts_of(bands::band(env, st, n, b, big_b, lm, tf, gains, fill).shape)),
{
    reveal(bands::band);
    if n != 1 {
        let r = bands::reshape(n, big_b, tf, fill);
        lemma_parts(env, st, n, 0, b, r.blocks, lm, gains, r.fill);
    }
}

/// Whether the shapes of a plan that fold from the spectrum below hold no noise; the
/// difference of two channels never folds.
pub open spec fn folded_only(p: BandPlanView) -> bool {
    match p {
        BandPlanView::Mono(s) => no_noise(parts_of(s)),
        BandPlanView::Dual(x, y) => no_noise(parts_of(x)) && no_noise(parts_of(y)),
        BandPlanView::Signs(_, _) => true,
        BandPlanView::Pair { coded, .. } => no_noise(parts_of(coded)),
        BandPlanView::MidSide { mid, side, .. } => no_noise(parts_of(mid)) && no_fold(parts_of(side)),
    }
}

/// Whether no shape of a plan is folded.
pub open spec fn not_folded(p: BandPlanView) -> bool {
    match p {
        BandPlanView::Mono(s) => no_fold(parts_of(s)),
        BandPlanView::Dual(x, y) => no_fold(parts_of(x)) && no_fold(parts_of(y)),
        BandPlanView::Signs(_, _) => true,
        BandPlanView::Pair { coded, .. } => no_fold(parts_of(coded)),
        BandPlanView::MidSide { mid, side, .. } => no_fold(parts_of(mid)) && no_fold(parts_of(side)),
    }
}

proof fn lemma_stereo_parts(
    env: PartEnv,
    st: PartState,
    n: int,
    b: int,
    big_b: int,
    lm: int,
    tf: int,
    fill: u32,
)
    ensures
        env.fold ==> folded_only(bands::stereo_band(env, st, n, b, big_b, lm, tf, fill).plan),
        !env.fold ==> not_folded(bands::stereo_band(env, st, n, b, big_b, lm, tf, fill).plan),
{
    reveal(bands::stereo_band);
    if n != 1 {
        let at = angle::SplitPlace { i: env.i, intensity: env.intensity, remaining: st.remaining };
        let t = angle::theta(st.dec, at, n, b, big_b, lm, true);
        let st1 = PartState { dec: t.dec, ..st };
        if n == 2 {
            lemma_pair_parts(env, st1, t, b, big_b, lm, tf, fill);
        } else {
            lemma_mid_side_parts(env, st1, t, n, b, big_b, lm, tf, fill);
        }
    }
}

proof fn lemma_pair_parts(
    env: PartEnv,
    st: PartState,
    t: angle::Theta,
    b: int,
    big_b: int,
    lm: int,
    tf: int,
    fill: u32,
)
    ensures
        env.fold ==> folded_only(bands::pair_band(env, st, t, b, big_b, lm, tf, fill).plan),
        !env.fold ==> not_folded(bands::pair_band(env, st, t, b, big_b, lm, tf, fill).plan),
{
    reveal(bands::pair_band);
    let signed = t.itheta % 16384 != 0;
    let sbits = if signed {
        8int
    } else {
        0
    };
    let st1 = PartState {
        dec: if signed {
            t.dec.after_raw(1)
        } else {
            t.dec
        },
        remaining: st.remaining - (t.qalloc + sbits),
        seed: st.seed,
    };
    lemma_band_parts(env, st1, 2, b - t.qalloc - sbits, big_b, lm, tf, Seq::empty(), fill);
}

proof fn lemma_mid_side_parts(
    env: PartEnv,
    st: PartState,
    t: angle::Theta,
    n: int,
    b: int,
    big_b: int,
    lm: int,
    tf: int,
    fill: u32,
)
    ensures
        env.fold ==> folded_only(bands::mid_side_band(env, st, t, n, b, big_b, lm, tf, fill).plan),
        !env.fold ==> not_folded(bands::mid_side_band(env, st, t, n, b, big_b, lm, tf, fill).plan),
{
    reveal(bands::mid_side_band);
    let b1 = b - t.qalloc;
    let fill1 = angle::theta_fill(fill, big_b, t.itheta);
    let mbits = bands::mid_bits(b1, angle::theta_delta(n, t.itheta));
    let sbits = b1 - mbits;
    let st1 = PartState { dec: t.dec, remaining: st.remaining - t.qalloc, seed: st.seed };
    let plain = PartEnv { fold: false, ..env };
    let sgains = seq![angle::theta_side(t.itheta) as i32];
    let sfill = fill1 >> (big_b as u32);
    let none = Seq::<i32>::empty();
    if mbits >= sbits {
        let m = bands::band(env, st1, n, mbits, big_b, lm, tf, none, fill1);
        let s2 = bands::rebalanced(sbits, mbits, st1.remaining, m.st.remaining, t.itheta == 0);
        lemma_band_parts(env, st1, n, mbits, big_b, lm, tf, none, fill1);
        lemma_band_parts(plain, m.st, n, s2, big_b, lm, tf, sgains, sfill);
    } else {
        let s = bands::band(plain, st1, n, sbits, big_b, lm, tf, sgains, sfill);
        let m2 = bands::rebalanced(mbits, sbits, st1.remaining, s.st.remaining, t.itheta == 16384);
        lemma_band_parts(plain, st1, n, sbits, big_b, lm, tf, sgains, sfill);
        lemma_band_parts(env, s.st, n, m2, big_b, lm, tf, none, fill1);
    }
}

/// A band that has a source folds, one that has none does not: behind the plan's source no
/// shape that folds holds noise, and without one nothing is folded.
pub proof fn lemma_plan_folds(env: FrameEnv, st: FrameState, i: int)
    requires
        env.wf(),
        env.start <= i < env.end,
    ensures
        ({
            let p = env.step(st, i).plans.last();
            &&& p.lowband is Some ==> folded_only(p.plan)
            &&& p.lowband is None ==> not_folded(p.plan)
        }),
{
    let b = env.band_budget(st.seen(), i);
    let n = codebook::part_len(i, env.lm);
    let pe = PartEnv { i, intensity: env.intensity, fold: env.folds(st.seen(), i) };
    let p0 = PartState { dec: st.dec, remaining: env.total_bits - st.dec.tell_frac() - 1, seed: st.seed };
    let xm = env.source_mask(st.seen(), i, 0);
    let ym = env.source_mask(st.seen(), i, env.channels() - 1);
    let none = Seq::<i32>::empty();
    let tf = env.tf_res[i];
    let x = bands::band(pe, p0, n, b / 2, env.blocks(), env.lm, tf, none, xm);
    lemma_band_parts(pe, p0, n, b / 2, env.blocks(), env.lm, tf, none, xm);
    lemma_band_parts(pe, x.st, n, b / 2, env.blocks(), env.lm, tf, none, ym);
    lemma_band_parts(pe, p0, n, b, env.blocks(), env.lm, tf, none, xm | ym);
    lemma_stereo_parts(pe, p0, n, b, env.blocks(), env.lm, tf, xm | ym);
    assert(env.step(st, i).plans.last() == env.step(st, i).plans[st.plans.len() as int]);
}

/// Two channels are on their own until the first band in intensity stereo, where their
/// histories are merged, once; from there on they are coded together. One channel is coded
/// alone.
pub proof fn lemma_merged_once(env: FrameEnv, st: FrameState, i: int)
    requires
        env.wf(),
        env.start <= i < env.end,
        st.dual ==> env.stereo,
    ensures
        ({
            let r = env.step(st, i);
            let p = r.plans.last();
            &&& r.plans.len() == st.plans.len() + 1
            &&& p.merge <==> st.dual && i == env.intensity
            &&& p.plan is Dual <==> st.dual && i != env.intensity
            &&& p.plan is Mono <==> !env.stereo
            &&& r.dual <==> p.plan is Dual
            &&& r.dual ==> env.stereo
        }),
{
    reveal(bands::stereo_band);
    reveal(bands::pair_band);
    reveal(bands::mid_side_band);
    assert(env.step(st, i).plans.last() == env.step(st, i).plans[st.plans.len() as int]);
}

/// A band's masks say what that band holds and change no other band's.
pub proof fn lemma_own_masks(env: FrameEnv, st: FrameState, i: int, k: int, ch: int)
    requires
        env.wf(),
        env.start <= i < env.end,
        st.masks.len() == 21 * env.channels(),
        0 <= k < 21,
        0 <= ch < env.channels(),
        k != i,
    ensures
        env.step(st, i).masks.len() == st.masks.len(),
        env.step(st, i).masks[k * env.channels() + ch] == st.masks[k * env.channels() + ch],
{
    let c = env.channels();
    if c == 1 {
        assert(k * c == k && i * c == i) by (nonlinear_arith)
            requires
                c == 1,
        ;
    } else {
        assert(k * c == 2 * k && i * c == 2 * i) by (nonlinear_arith)
            requires
                c == 2,
        ;
    }
}

/// The budget of a band is its allocation and its part of what the bands before left over,
/// within the frame and what one band can take: a dropped band has none, one without a
/// balance in a frame with enough left has its allocation, and a higher balance never gives
/// less.
pub proof fn lemma_band_budget(env: FrameEnv, s: FrameSeen, more: FrameSeen, i: int)
    requires
        env.wf(),
        env.start <= i < env.end,
        more == (FrameSeen { balance: more.balance, ..s }),
        more.balance >= s.balance,
    ensures
        ({
            let b = env.band_budget(s, i);
            let left = env.total_bits - s.tell;
            let seen = if i == env.start {
                s.balance
            } else {
                s.balance - s.tell
            };
            &&& 0 <= b <= 16383
            &&& i >= env.coded_bands ==> b == 0
            &&& left >= 0 ==> b <= left
            &&& left <= 0 ==> b == 0
            &&& i < env.coded_bands && seen == 0 && env.shape_bits[i] <= 16383 && env.shape_bits[i] <= left ==> b
                == env.shape_bits[i]
            &&& b <= env.band_budget(more, i)
            &&& i < env.coded_bands && seen >= 0 && b < 16383 && b < left ==> {
                let share = if env.coded_bands - i >= 3 {
                    3
                } else {
                    env.coded_bands - i
                };
                (b - env.shape_bits[i]) * share <= seen < (b - env.shape_bits[i] + 1) * share
            }
            &&& i < env.coded_bands && seen < 0 && 0 < b < 16383 && b < left ==> {
                let share = if env.coded_bands - i >= 3 {
                    3
                } else {
                    env.coded_bands - i
                };
                (b - env.shape_bits[i] - 1) * share < seen <= (b - env.shape_bits[i]) * share
            }
        }),
{
    let share = math::min(3, env.coded_bands - i);
    let x = env.seen_balance(s, i);
    let y = env.seen_balance(more, i);
    if i < env.coded_bands {
        lemma_trunc(x, share);
        lemma_trunc(y, share);
        let qx = math::div_trunc(x, share);
        let qy = math::div_trunc(y, share);
        if share == 1 {
            assert(qx * share == qx && qy * share == qy) by (nonlinear_arith)
                requires
                    share == 1,
            ;
        } else if share == 2 {
            assert(qx * share == 2 * qx && qy * share == 2 * qy) by (nonlinear_arith)
                requires
                    share == 2,
            ;
        } else {
            assert(qx * share == 3 * qx && qy * share == 3 * qy) by (nonlinear_arith)
                requires
                    share == 3,
            ;
        }
        assert(qx <= qy);
        assert((qx + 1) * share == qx * share + share) by (nonlinear_arith);
        assert((qx - 1) * share == qx * share - share) by (nonlinear_arith);
    }
}

/// Division toward zero by a small number.
proof fn lemma_trunc(x: int, d: int)
    requires
        1 <= d <= 3,
    ensures
        x >= 0 ==> math::div_trunc(x, d) * d <= x < math::div_trunc(x, d) * d + d,
        x <= 0 ==> math::div_trunc(x, d) * d - d < x <= math::div_trunc(x, d) * d,
        x >= 0 ==> math::div_trunc(x, d) >= 0,
        x <= 0 ==> math::div_trunc(x, d) <= 0,
{
    if d == 1 {
        assert(x / 1 == x && (-x) / 1 == -x);
    } else if d == 2 {
        assert(x - 1 <= 2 * (x / 2) <= x);
        assert(-x - 1 <= 2 * ((-x) / 2) <= -x);
    } else {
        assert(x - 2 <= 3 * (x / 3) <= x);
        assert(-x - 2 <= 3 * ((-x) / 3) <= -x);
    }
}

/// The half that is decoded second gets what the first one left over, but for three bits,
/// and never less than its own; nothing where the first one is silent.
pub proof fn lemma_rebalanced(own: int, other: int, before: int, after: int, silent: bool)
    ensures
        ({
            let r = bands::rebalanced(own, other, before, after, silent);
            let left = other - (before - after);
            &&& r >= own
            &&& silent ==> r == own
            &&& left <= 24 ==> r == own
            &&& !silent && left > 24 ==> r == own + left - 24
        }),
{
}

/// The bits of the first half are those of the second less the difference that the angle asks
/// for, as far as there are any: never more for a larger difference.
pub proof fn lemma_mid_bits(b: int, delta: int, more: int)
    requires
        b >= 0,
        delta <= more,
    ensures
        ({
            let m = bands::mid_bits(b, delta);
            &&& 0 <= m <= b
            &&& bands::mid_bits(b, more) <= m
            &&& -b <= delta <= b ==> 2 * m <= b - delta <= 2 * m + 1
            &&& delta >= b ==> m == 0
            &&& delta <= -b ==> m == b
        }),
{
}

/// In several blocks the half that the other one masks in time gets less of a difference: the
/// first half gives up a part of what it has more, the second a share for its values; in one
/// block, and where one half has all, nothing changes.
pub proof fn lemma_masked(delta: int, b0: int, itheta: int, n: int, lm: int)
    requires
        -1 <= lm <= 2,
        0 <= itheta <= 16384,
        n >= 0,
    ensures
        ({
            let r = bands::masked_delta(delta, b0, itheta, n, lm);
            &&& b0 <= 1 || itheta == 0 || itheta == 16384 ==> r == delta
            &&& b0 > 1 && 8192 < itheta < 16384 && delta >= 0 ==> 0 <= r <= delta && pow2((4 - lm) as nat) * (delta - r)
                <= delta < pow2((4 - lm) as nat) * (delta - r + 1)
            &&& b0 > 1 && 0 < itheta <= 8192 ==> r <= 0
            &&& b0 > 1 && 0 < itheta <= 8192 && delta <= 0 ==> r >= delta
            &&& b0 > 1 && 0 < itheta <= 8192 && r < 0 ==> pow2((5 - lm) as nat) * (r - delta) <= 8 * n < pow2(
                (5 - lm) as nat,
            ) * (r - delta + 1)
        }),
{
    vstd::arithmetic::power2::lemma_pow2_pos((4 - lm) as nat);
    vstd::arithmetic::power2::lemma_pow2_pos((5 - lm) as nat);
    let p = pow2((4 - lm) as nat) as int;
    let q = pow2((5 - lm) as nat) as int;
    if delta >= 0 {
        math::lemma_div(delta, p);
        let d = delta / p;
        assert(p * (d + 1) == p * d + p) by (nonlinear_arith);
        assert(0 <= d <= delta) by (nonlinear_arith)
            requires
                p * d <= delta < p * d + p,
                p >= 1,
                delta >= 0,
        ;
    }
    math::lemma_div(8 * n, q);
    let d = 8 * n / q;
    assert(q * (d + 1) == q * d + q) by (nonlinear_arith);
    assert(d >= 0) by (nonlinear_arith)
        requires
            8 * n < q * d + q,
            n >= 0,
            q >= 1,
    ;
}

/// The balance that a band sees is what the band before saw, with that one's allocation, less
/// what that one used.
pub proof fn lemma_balance_passed(env: FrameEnv, st: FrameState, i: int)
    requires
        env.wf(),
        env.start <= i < env.end,
    ensures
        ({
            let next = env.step(st, i);
            env.seen_balance(next.seen(), i + 1) == env.seen_balance(st.seen(), i) + env.shape_bits[i] - (
            next.dec.tell_frac() - st.dec.tell_frac())
        }),
        env.step(st, i).update <==> env.band_budget(st.seen(), i) > 8 * (modes::width(i) * modes::frame_mult(env.lm)),
{
}

/// A cut in time keeps the values of a band: its blocks are as many times longer as there are
/// fewer of them. Blocks are joined as often as the resolution asks for, and halved as often as
/// it asks for and they can be.
pub proof fn lemma_reshape(n: int, big_b: int, tf: int, fill: u32)
    requires
        1 <= big_b,
        n % big_b == 0,
        bands::tf_fits(big_b, tf),
    ensures
        ({
            let r = bands::reshape(n, big_b, tf, fill);
            &&& r.blocks * r.per_block == n
            &&& tf >= 0 ==> r.recombine == tf && r.time_divide == 0 && r.blocks * modes::frame_mult(tf) == big_b
            &&& tf < 0 ==> r.recombine == 0 && 0 <= r.time_divide <= -tf
            &&& tf < 0 && r.time_divide < -tf ==> r.per_block % 2 == 1
        }),
{
    let k = math::max(tf, 0);
    let m = modes::frame_mult(k);
    let first = bands::ReshapeView {
        recombine: k,
        time_divide: 0,
        blocks: big_b / m,
        per_block: n / big_b * m,
        fill: bands::interleaved_n(fill, k as nat),
    };
    assert(big_b / m * m == big_b) by {
        if m == 1 {
            assert(big_b / 1 * 1 == big_b);
        } else if m == 2 {
            assert(big_b / 2 * 2 == big_b);
        } else if m == 4 {
            assert(big_b / 4 * 4 == big_b);
        } else {
            assert(big_b / 8 * 8 == big_b);
        }
    }
    vstd::arithmetic::div_mod::lemma_fundamental_div_mod(n, big_b);
    let x = big_b / m;
    let y = n / big_b;
    assert(x * (y * m) == n) by (nonlinear_arith)
        requires
            x * m == big_b,
            big_b * y == n,
    ;
    lemma_time_split(first, tf);
}

proof fn lemma_time_split(r: bands::ReshapeView, tf: int)
    ensures
        ({
            let s = bands::time_split(r, tf);
            &&& s.blocks * s.per_block == r.blocks * r.per_block
            &&& s.recombine == r.recombine
            &&& r.time_divide <= s.time_divide
            &&& tf >= 0 ==> s == r
            &&& tf < 0 ==> s.time_divide <= r.time_divide - tf
            &&& tf < 0 && s.time_divide < r.time_divide - tf ==> s.per_block % 2 == 1
        }),
    decreases -tf,
{
    if tf < 0 && r.per_block % 2 == 0 {
        let next = bands::ReshapeView {
            recombine: r.recombine,
            time_divide: r.time_divide + 1,
            blocks: 2 * r.blocks,
            per_block: r.per_block / 2,
            fill: r.fill | (r.fill << (r.blocks as u32)),
        };
        lemma_time_split(next, tf + 1);
        let a = r.blocks;
        let h = r.per_block / 2;
        assert(2 * a * h == a * (2 * h)) by (nonlinear_arith);
    }
}

/// The halves of a split share its bits: neither has less than nothing, and both together
/// have what the angle left.
pub proof fn lemma_halves(env: PartEnv, st: PartState, n: int, b: int, big_b: int, lm: int, fill: u32)
    ensures
        ({
            let p = bands::split_plan(env, st, n, b, big_b, lm, fill);
            &&& p.mbits >= 0
            &&& p.mbits + p.sbits == b - (st.remaining - p.st.remaining)
            &&& b - (st.remaining - p.st.remaining) >= 0 ==> p.sbits >= 0
            &&& p.st.seed == st.seed
        }),
{
    reveal(bands::split_plan);
}

/// The step that an angle is coded by is the nearest.
pub proof fn lemma_nearest_step(a: int, qn: int)
    requires
        1 <= qn,
    ensures
        ({
            let r = bands::encode::nearest_step_of(a, qn);
            &&& 0 <= r <= qn
            &&& 0 <= a <= 16384 ==> 16384 * r - 8192 <= a * qn < 16384 * r + 8192
            &&& a <= 0 ==> r == 0
            &&& a >= 16384 ==> r == qn
        }),
{
    let x = math::max(0, math::min(a, 16384));
    assert(0 <= x * qn <= 16384 * qn) by (nonlinear_arith)
        requires
            0 <= x <= 16384,
            qn >= 1,
    ;
    if a <= 0 {
        assert(x * qn == 0) by (nonlinear_arith)
            requires
                x == 0,
        ;
    }
}

/// The mask of a band's source has a block where some band of the source has it.
pub proof fn lemma_mask_union(masks: Seq<u8>, c: int, ch: int, a: int, k: int, block: u32)
    requires
        a <= k,
        block < 8,
    ensures
        bands::mask_union(masks, c, ch, a, k) & (1u32 << block) != 0 <==> exists|i: int|
            a <= i <= k && #[trigger] holds_block(masks, c, ch, i, block),
    decreases k - a,
{
    let u = bands::mask_union(masks, c, ch, a, k);
    if k <= a {
        if u & (1u32 << block) != 0 {
            assert(holds_block(masks, c, ch, a, block));
        }
    } else {
        lemma_mask_union(masks, c, ch, a, k - 1, block);
        let x = bands::mask_union(masks, c, ch, a, k - 1);
        let y = masks[k * c + ch] as u32;
        assert((x | y) & (1u32 << block) != 0 <==> (x & (1u32 << block) != 0 || y & (1u32 << block) != 0))
            by (bit_vector);
        if y & (1u32 << block) != 0 {
            assert(holds_block(masks, c, ch, k, block));
        }
        if x & (1u32 << block) != 0 {
            let i = choose|i: int| a <= i <= k - 1 && #[trigger] holds_block(masks, c, ch, i, block);
            assert(a <= i <= k && holds_block(masks, c, ch, i, block));
        }
        if exists|i: int| a <= i <= k && #[trigger] holds_block(masks, c, ch, i, block) {
            let i = choose|i: int| a <= i <= k && #[trigger] holds_block(masks, c, ch, i, block);
            if i < k {
                assert(a <= i <= k - 1 && holds_block(masks, c, ch, i, block));
            }
        }
    }
}

/// Whether a band's mask has a block.
pub open spec fn holds_block(masks: Seq<u8>, c: int, ch: int, i: int, block: u32) -> bool {
    (masks[i * c + ch] as u32) & (1u32 << block) != 0
}

/// The source's masks are those of the bands that its first and last bin lie in and of those
/// between: the lowest that starts no later than the source, and up to the one before the
/// first that starts at its end or later.
pub proof fn lemma_source_bands(m: int, x: int, k: int)
    requires
        0 <= k <= 21,
        1 <= m <= 8,
        0 <= x <= 100 * m,
    ensures
        ({
            let a = bands::fold_start(m, x, k);
            &&& 0 <= a <= k
            &&& m * modes::edge(a) <= x
            &&& forall|j: int| a < j <= k ==> #[trigger] modes::edge(j) * m > x
        }),
        ({
            let e = bands::fold_end(m, x, k);
            &&& k <= e <= 21
            &&& m * modes::edge(e) >= x
            &&& forall|j: int| k <= j < e ==> #[trigger] modes::edge(j) * m < x
        }),
{
    modes::lemma_width(0);
    lemma_fold_start(m, x, k);
    lemma_fold_end(m, x, k);
}

proof fn lemma_fold_start(m: int, x: int, k: int)
    requires
        0 <= k <= 21,
        0 <= x,
        modes::edge(0) == 0,
    ensures
        ({
            let a = bands::fold_start(m, x, k);
            &&& 0 <= a <= k
            &&& m * modes::edge(a) <= x
            &&& forall|j: int| a < j <= k ==> #[trigger] modes::edge(j) * m > x
        }),
    decreases k,
{
    assert(m * 0 == 0) by (nonlinear_arith);
    if k > 0 && m * modes::edge(k) > x {
        lemma_fold_start(m, x, k - 1);
        let e = modes::edge(k);
        assert(e * m == m * e) by (nonlinear_arith);
    }
}

proof fn lemma_fold_end(m: int, x: int, k: int)
    requires
        0 <= k <= 21,
        x <= 100 * m,
        modes::edge(21) == 100,
    ensures
        ({
            let e = bands::fold_end(m, x, k);
            &&& k <= e <= 21
            &&& m * modes::edge(e) >= x
            &&& forall|j: int| k <= j < e ==> #[trigger] modes::edge(j) * m < x
        }),
    decreases 21 - k,
{
    assert(m * 100 == 100 * m) by (nonlinear_arith);
    if k < 21 && m * modes::edge(k) < x {
        lemma_fold_end(m, x, k + 1);
        let e = modes::edge(k);
        assert(e * m == m * e) by (nonlinear_arith);
    }
}

/// Noise goes on where it stopped: what the generator makes of a seed in one run is what it
/// makes in two.
pub proof fn lemma_noise_runs(seed: int, a: nat, b: nat)
    ensures
        bands::lcg_n(seed, a + b) == bands::lcg_n(bands::lcg_n(seed, a), b),
        bands::noise(seed, a + b) == bands::noise(seed, a) + bands::noise(bands::lcg_n(seed, a), b),
        bands::dither(seed, a + b) == bands::dither(seed, a) + bands::dither(bands::lcg_n(seed, a), b),
{
    lemma_lcg_runs(seed, a, b);
    assert forall|j: int| 0 <= j < b implies #[trigger] bands::lcg_n(bands::lcg_n(seed, a), (j + 1) as nat)
        == bands::lcg_n(seed, (a + j + 1) as nat) by {
        lemma_lcg_runs(seed, a, (j + 1) as nat);
    }
    assert(bands::noise(seed, a + b) =~= bands::noise(seed, a) + bands::noise(bands::lcg_n(seed, a), b));
    assert(bands::dither(seed, a + b) =~= bands::dither(seed, a) + bands::dither(bands::lcg_n(seed, a), b));
}

proof fn lemma_lcg_runs(seed: int, a: nat, b: nat)
    ensures
        bands::lcg_n(seed, a + b) == bands::lcg_n(bands::lcg_n(seed, a), b),
    decreases b,
{
    if b > 0 {
        lemma_lcg_runs(seed, a, (b - 1) as nat);
        assert((a + b - 1) as nat == a + (b - 1) as nat);
    }
}

/// The generator steps through the residues of `2^32`: two seeds that differ give states that
/// differ by its multiplier times as much.
pub proof fn lemma_generator(s: int, t: int)
    ensures
        0 <= angle::lcg(s) < 0x1_0000_0000,
        (angle::lcg(s) - angle::lcg(t) - 1664525 * (s - t)) % 0x1_0000_0000 == 0,
        angle::lcg(0) == 1013904223,
{
    let m = 0x1_0000_0000int;
    let x = s * 1664525 + 1013904223;
    let y = t * 1664525 + 1013904223;
    vstd::arithmetic::div_mod::lemma_fundamental_div_mod(x, m);
    vstd::arithmetic::div_mod::lemma_fundamental_div_mod(y, m);
    let k = y / m - x / m;
    assert(angle::lcg(s) - angle::lcg(t) - 1664525 * (s - t) == k * m);
    vstd::arithmetic::div_mod::lemma_mod_multiples_basic(k, m);
}

/// A noise value is the state's leading twelve bits as a signed number.
pub proof fn lemma_noise_value(s: int)
    requires
        0 <= s < 0x1_0000_0000,
    ensures
        -2048 <= bands::noise_value(s) <= 2047,
        s < 0x8000_0000 ==> bands::noise_value(s) * 0x10_0000 <= s < (bands::noise_value(s) + 1) * 0x10_0000,
        s >= 0x8000_0000 ==> bands::noise_value(s) * 0x10_0000 <= s - 0x1_0000_0000 < (bands::noise_value(s) + 1)
            * 0x10_0000,
{
}

/// What is found of empty blocks: each lacks a pulse, lies in the bands looked at, and gets a
/// sign for each value that it has.
pub proof fn lemma_empty_found(
    masks: Seq<u8>,
    start: int,
    channels: int,
    lm: int,
    seed: int,
    i: int,
    c: int,
    k: int,
    x: int,
)
    requires
        0 <= start <= i <= 21,
        i == 21 ==> c == 0 && k == 0,
        0 <= c <= channels,
        0 <= lm <= 3,
        0 <= k <= modes::frame_mult(lm),
        0 <= x < bands::empty_blocks(masks, start, channels, lm, seed, i, c, k).blocks.len(),
    ensures
        ({
            let e = bands::empty_blocks(masks, start, channels, lm, seed, i, c, k).blocks[x];
            &&& start <= e.band <= i
            &&& 0 <= e.channel <= channels
            &&& 0 <= e.block < modes::frame_mult(lm)
            &&& !bands::has_pulse(masks[e.band * channels + e.channel], e.block)
            &&& e.signs.len() == modes::width(e.band)
        }),
    decreases i - start, c, k,
{
    if k > 0 {
        let st = bands::empty_blocks(masks, start, channels, lm, seed, i, c, k - 1);
        if x < st.blocks.len() {
            lemma_empty_found(masks, start, channels, lm, seed, i, c, k - 1, x);
        } else {
            modes::lemma_width(i);
        }
    } else if c > 0 {
        lemma_empty_found(masks, start, channels, lm, seed, i, c - 1, modes::frame_mult(lm), x);
    } else if i > start {
        lemma_empty_found(masks, start, channels, lm, seed, i - 1, channels, 0, x);
    }
}

/// Every block without a pulse is found.
pub proof fn lemma_empty_all(
    masks: Seq<u8>,
    start: int,
    channels: int,
    lm: int,
    seed: int,
    i: int,
    c: int,
    k: int,
    band: int,
    channel: int,
    block: int,
) -> (x: int)
    requires
        0 <= start <= i <= 21,
        0 <= c <= channels,
        0 <= lm <= 3,
        0 <= k <= modes::frame_mult(lm),
        start <= band,
        0 <= channel < channels,
        0 <= block < modes::frame_mult(lm),
        band < i || (band == i && (channel < c || (channel == c && block < k))),
        !bands::has_pulse(masks[band * channels + channel], block),
    ensures
        ({
            let s = bands::empty_blocks(masks, start, channels, lm, seed, i, c, k).blocks;
            &&& 0 <= x < s.len()
            &&& s[x].band == band && s[x].channel == channel && s[x].block == block
        }),
    decreases i - start, c, k,
{
    if k > 0 {
        let st = bands::empty_blocks(masks, start, channels, lm, seed, i, c, k - 1);
        if band == i && channel == c && block == k - 1 {
            st.blocks.len() as int
        } else {
            lemma_empty_all(masks, start, channels, lm, seed, i, c, k - 1, band, channel, block)
        }
    } else if c > 0 {
        lemma_empty_all(masks, start, channels, lm, seed, i, c - 1, modes::frame_mult(lm), band, channel, block)
    } else {
        lemma_empty_all(masks, start, channels, lm, seed, i - 1, channels, 0, band, channel, block)
    }
}

/// Joining blocks in pairs marks a pair where either block was marked, and parting a pair
/// marks both.
pub proof fn lemma_masks_join(fill: u32, k: int)
    requires
        fill < 256,
        0 <= k < 4,
    ensures
        bands::interleaved(fill) < 16,
        set_bit(bands::interleaved(fill) as int, k) <==> set_bit(fill as int, 2 * k) || set_bit(fill as int, 2 * k + 1),
{
    reveal(bands::BIT_INTERLEAVE_TABLE);
    let lo = fill as int % 16;
    let hi = fill as int / 16;
    lemma_join_nibble(lo);
    lemma_join_nibble(hi);
    let a = bands::BIT_INTERLEAVE_TABLE[lo] as u32;
    let b = bands::BIT_INTERLEAVE_TABLE[hi] as u32;
    assert((a | (b << 2u32)) == a + 4 * b) by (bit_vector)
        requires
            a < 4,
            b < 4,
    ;
    lemma_nibbles(fill, k);
    lemma_pair_bits(a as int, b as int, k);
}

/// Which bits of a byte its halves tell of.
proof fn lemma_nibbles(x: u32, k: int)
    requires
        x < 256,
        0 <= k < 4,
    ensures
        (set_bit(x as int, 2 * k) || set_bit(x as int, 2 * k + 1)) == if k == 0 {
            x % 16 % 4 != 0
        } else if k == 1 {
            x % 16 >= 4
        } else if k == 2 {
            x / 16 % 4 != 0
        } else {
            x / 16 >= 4
        },
{
    lemma_bits8(x as int);
    if k == 0 {
        assert((x % 2 == 1 || x / 2 % 2 == 1) == (x % 16 % 4 != 0)) by (bit_vector);
    } else if k == 1 {
        assert((x / 4 % 2 == 1 || x / 8 % 2 == 1) == (x % 16 >= 4)) by (bit_vector);
    } else if k == 2 {
        assert((x / 16 % 2 == 1 || x / 32 % 2 == 1) == (x / 16 % 4 != 0)) by (bit_vector);
    } else {
        assert((x / 64 % 2 == 1 || x / 128 % 2 == 1) == (x / 16 >= 4)) by (bit_vector)
            requires
                x < 256,
        ;
    }
}

/// Which bits two pairs of bits make.
proof fn lemma_pair_bits(a: int, b: int, k: int)
    requires
        0 <= a < 4,
        0 <= b < 4,
        0 <= k < 4,
    ensures
        set_bit(a + 4 * b, k) == if k == 0 {
            a % 2 == 1
        } else if k == 1 {
            a >= 2
        } else if k == 2 {
            b % 2 == 1
        } else {
            b >= 2
        },
{
    lemma_bits8(a + 4 * b);
}

/// Parting marks both blocks of a pair that was marked.
pub proof fn lemma_masks_part(cm: u32, k: int)
    requires
        cm < 16,
        0 <= k < 4,
    ensures
        bands::deinterleaved(cm) < 256,
        set_bit(bands::deinterleaved(cm) as int, 2 * k) == set_bit(cm as int, k),
        set_bit(bands::deinterleaved(cm) as int, 2 * k + 1) == set_bit(cm as int, k),
{
    reveal(bands::BIT_DEINTERLEAVE_TABLE);
    let x = cm as int;
    assert(x == 0 || x == 1 || x == 2 || x == 3 || x == 4 || x == 5 || x == 6 || x == 7 || x == 8 || x == 9 || x == 10
        || x == 11 || x == 12 || x == 13 || x == 14 || x == 15);
    lemma_bits8(x);
    lemma_bits8(bands::deinterleaved(cm) as int);
}

/// Whether bit `k` of a number is set.
pub open spec fn set_bit(x: int, k: int) -> bool {
    x / pow2(k as nat) as int % 2 == 1
}

proof fn lemma_bits8(x: int)
    ensures
        set_bit(x, 0) == (x % 2 == 1),
        set_bit(x, 1) == (x / 2 % 2 == 1),
        set_bit(x, 2) == (x / 4 % 2 == 1),
        set_bit(x, 3) == (x / 8 % 2 == 1),
        set_bit(x, 4) == (x / 16 % 2 == 1),
        set_bit(x, 5) == (x / 32 % 2 == 1),
        set_bit(x, 6) == (x / 64 % 2 == 1),
        set_bit(x, 7) == (x / 128 % 2 == 1),
{
    vstd::arithmetic::power2::lemma2_to64();
    assert(x / 1 == x);
}

proof fn lemma_join_nibble(x: int)
    requires
        0 <= x < 16,
    ensures
        bands::BIT_INTERLEAVE_TABLE[x] < 4,
        bands::BIT_INTERLEAVE_TABLE[x] % 2 == 1 <==> x % 4 != 0,
        bands::BIT_INTERLEAVE_TABLE[x] >= 2 <==> x >= 4,
{
    reveal(bands::BIT_INTERLEAVE_TABLE);
    assert(x == 0 || x == 1 || x == 2 || x == 3 || x == 4 || x == 5 || x == 6 || x == 7 || x == 8 || x == 9 || x == 10
        || x == 11 || x == 12 || x == 13 || x == 14 || x == 15);
}

/// A band of one value is a sign, which takes a bit where the frame has one left; without one it
/// is positive and nothing is read. Two channels have a sign each.
pub proof fn lemma_signs(env: PartEnv, st: PartState, b: int, big_b: int, lm: int, tf: int, gains: Seq<i32>, fill: u32)
    ensures
        ({
            let r = bands::band(env, st, 1, b, big_b, lm, tf, gains, fill);
            &&& r.shape is Sign
            &&& st.remaining < 8 ==> r.shape == BandShapeView::Sign(false) && r.st == st
            &&& st.remaining >= 8 ==> r.shape == BandShapeView::Sign(st.dec.raw_bits(1) == 1) && r.st.remaining
                == st.remaining - 8 && r.st.dec == st.dec.after_raw(1)
            &&& r.cm == 1
            &&& bands::stereo_band(env, st, 1, b, big_b, lm, tf, fill).plan is Signs
        }),
{
    reveal(bands::band);
    reveal(bands::stereo_band);
}

/// Of two channels of two values the one with more energy is coded, and a bit says which way
/// round the other stands unless one has it all; their weights are those of the angle.
pub proof fn lemma_pair(
    env: PartEnv,
    st: PartState,
    t: angle::Theta,
    b: int,
    big_b: int,
    lm: int,
    tf: int,
    fill: u32,
)
    requires
        0 <= t.itheta <= 16384,
    ensures
        ({
            let p = bands::pair_band(env, st, t, b, big_b, lm, tf, fill).plan;
            &&& p is Pair
            &&& p->swapped <==> t.itheta > 8192
            &&& t.itheta == 0 || t.itheta == 16384 ==> !p->negative
            &&& 0 < t.itheta < 16384 ==> p->negative == (t.dec.raw_bits(1) == 1)
            &&& p->Pair_inv == t.inv
            &&& p->Pair_imid == angle::theta_mid(t.itheta) && p->Pair_iside == angle::theta_side(t.itheta)
        }),
{
    reveal(bands::pair_band);
}

/// The masks of a band that was not cut in time are its own; a mask whose blocks were halved, and
/// one whose blocks were parted, is found again.
pub proof fn lemma_masks_restored(cm: u32, r: bands::ReshapeView, big_b: int, b: u32)
    requires
        b == 1 || b == 2 || b == 4 || b == 8,
    ensures
        r.recombine == 0 && r.time_divide == 0 ==> bands::restored_mask(cm, r, big_b) == cm & bands::block_mask(big_b),
        cm < pow2(b as nat) ==> bands::time_merge(cm | (cm << b), 2 * b as int, 1) & bands::block_mask(b as int) == cm,
        cm < 16 ==> bands::interleaved(bands::deinterleaved(cm)) == cm,
{
    reveal_with_fuel(bands::time_merge, 2);
    vstd::arithmetic::power2::lemma2_to64();
    let m = bands::block_mask(b as int);
    if cm < pow2(b as nat) {
        assert((2 * b as int) / 2 == b);
        assert(((cm | (cm << b)) | ((cm | (cm << b)) >> b)) & m == cm) by (bit_vector)
            requires
                b == 1 && m == 1 && cm < 2 || b == 2 && m == 3 && cm < 4 || b == 4 && m == 15 && cm < 16 || b == 8 && m
                    == 255 && cm < 256,
        ;
    }
    if cm < 16 {
        let d = bands::deinterleaved(cm);
        lemma_masks_part(cm, 0);
        lemma_masks_part(cm, 1);
        lemma_masks_part(cm, 2);
        lemma_masks_part(cm, 3);
        lemma_masks_join(d, 0);
        lemma_masks_join(d, 1);
        lemma_masks_join(d, 2);
        lemma_masks_join(d, 3);
        lemma_same_bits(bands::interleaved(d), cm);
    }
}

/// Four bits make a number.
proof fn lemma_same_bits(x: u32, y: u32)
    requires
        x < 16,
        y < 16,
        set_bit(x as int, 0) == set_bit(y as int, 0),
        set_bit(x as int, 1) == set_bit(y as int, 1),
        set_bit(x as int, 2) == set_bit(y as int, 2),
        set_bit(x as int, 3) == set_bit(y as int, 3),
    ensures
        x == y,
{
    lemma_bits8(x as int);
    lemma_bits8(y as int);
    assert(x == y) by (bit_vector)
        requires
            x < 16,
            y < 16,
            (x % 2 == 1) == (y % 2 == 1),
            (x / 2 % 2 == 1) == (y / 2 % 2 == 1),
            (x / 4 % 2 == 1) == (y / 4 % 2 == 1),
            (x / 8 % 2 == 1) == (y / 8 % 2 == 1),
    ;
}

/// A partition is split where it has more than two values, can be, and has a bit and a half more
/// than its dearest codeword takes.
pub proof fn lemma_split_when(i: int, lm: int, n: int, b: int)
    ensures
        bands::is_split(i, lm, n, b) <==> lm >= 0 && n > 2 && b >= rate::cost(i, lm, rate::levels(i, lm)) + 12,
{
}

/// The halves of a partition of one block fold from what it folds from, both of them; those of
/// several blocks from their own.
pub proof fn lemma_fill_shared(env: PartEnv, st: PartState, n: int, b: int, big_b: int, lm: int, fill: u32)
    requires
        fill < 256,
    ensures
        ({
            let p = bands::split_plan(env, st, n, b, big_b, lm, fill);
            &&& 0 < p.itheta < 16384 && big_b != 1 ==> p.fill == fill
            &&& 0 < p.itheta < 16384 && big_b == 1 && fill == 1 ==> p.fill == 3
            &&& 0 < p.itheta < 16384 && big_b == 1 && fill == 0 ==> p.fill == 0
        }),
{
    reveal(bands::split_plan);
    assert((1u32 & 1) | (1u32 << 1u32) == 3 && (0u32 & 1) | (0u32 << 1u32) == 0) by (bit_vector);
}

/// Where a band's source begins and ends, in bins of the frame.
pub open spec fn source_span(env: FrameEnv, s: FrameSeen, i: int) -> (int, int) {
    let m = modes::frame_mult(env.lm);
    let from = env.fold_source(s, i) + m * modes::edge(env.start);
    (from, from + modes::width(i) * m)
}

/// A block counts for a band's source where a band that the source reaches into has it, and only
/// there.
pub proof fn lemma_source_mask(env: FrameEnv, s: FrameSeen, i: int, ch: int, block: u32)
    requires
        env.wf(),
        env.start < i < env.end,
        env.folds(s, i),
        env.start < env.lowband_at(s, i) <= i,
        block < 8,
    ensures
        ({
            let m = modes::frame_mult(env.lm);
            let (from, to) = source_span(env, s, i);
            env.source_mask(s, i, ch) & (1u32 << block) != 0 <==> exists|j: int|
                0 <= j < 21 && m * modes::edge(j) < to && m * modes::edge(j + 1) > from && #[trigger] holds_block(
                    s.masks,
                    env.channels(),
                    ch,
                    j,
                    block,
                )
        }),
{
    let m = modes::frame_mult(env.lm);
    let (from, to) = source_span(env, s, i);
    let lo = env.lowband_at(s, i);
    let c = env.channels();
    modes::lemma_edges(env.start, lo);
    modes::lemma_edges(env.start, lo - 1);
    modes::lemma_edges(lo - 1, lo);
    modes::lemma_edges(lo, 21);
    modes::lemma_edges(env.start, i);
    modes::lemma_edges(i + 1, 21);
    modes::lemma_width(i);
    let w = modes::width(i);
    let es = modes::edge(env.start);
    let el = modes::edge(lo);
    let eb = modes::edge(lo - 1);
    let ei = modes::edge(i);
    assert(m * es <= m * eb < m * el && m * el <= 100 * m && 0 < w * m && m * es + w * m <= 100 * m && 0 <= m * es)
        by (nonlinear_arith)
        requires
            m >= 1,
            0 <= es <= eb < el <= 100,
            es <= ei,
            ei + w <= 100,
            w >= 1,
    ;
    assert(from < m * el && to >= m * el && from >= m * es && to <= 100 * m);
    let a = bands::fold_start(m, from, lo - 1);
    let e = bands::fold_end(m, to, lo);
    lemma_source_bands(m, from, lo - 1);
    lemma_source_bands(m, to, lo);
    assert(env.source_mask(s, i, ch) == bands::mask_union(s.masks, c, ch, a, e - 1));
    lemma_mask_union(s.masks, c, ch, a, e - 1, block);
    if exists|j: int| a <= j <= e - 1 && #[trigger] holds_block(s.masks, c, ch, j, block) {
        let j = choose|j: int| a <= j <= e - 1 && #[trigger] holds_block(s.masks, c, ch, j, block);
        lemma_reached(m, a, e, lo, from, to, j);
        assert(0 <= j < 21 && m * modes::edge(j) < to && m * modes::edge(j + 1) > from && holds_block(
            s.masks,
            c,
            ch,
            j,
            block,
        ));
    }
    if exists|j: int|
        0 <= j < 21 && m * modes::edge(j) < to && m * modes::edge(j + 1) > from && #[trigger] holds_block(
            s.masks,
            c,
            ch,
            j,
            block,
        ) {
        let j = choose|j: int|
            0 <= j < 21 && m * modes::edge(j) < to && m * modes::edge(j + 1) > from && #[trigger] holds_block(
                s.masks,
                c,
                ch,
                j,
                block,
            );
        lemma_within(m, a, e, from, to, j);
        assert(a <= j <= e - 1 && holds_block(s.masks, c, ch, j, block));
    }
}

proof fn lemma_reached(m: int, a: int, e: int, lo: int, from: int, to: int, j: int)
    requires
        m >= 1,
        1 <= lo <= 20,
        a == bands::fold_start(m, from, lo - 1),
        e == bands::fold_end(m, to, lo),
        0 <= a <= lo - 1,
        lo <= e <= 21,
        forall|k: int| a < k <= lo - 1 ==> #[trigger] modes::edge(k) * m > from,
        forall|k: int| lo <= k < e ==> #[trigger] modes::edge(k) * m < to,
        from < m * modes::edge(lo),
        to >= m * modes::edge(lo),
        a <= j <= e - 1,
    ensures
        0 <= j < 21,
        m * modes::edge(j) < to,
        m * modes::edge(j + 1) > from,
{
    let x = modes::edge(j);
    let y = modes::edge(j + 1);
    let el = modes::edge(lo);
    assert(m * x == x * m && m * y == y * m) by (nonlinear_arith);
    if j < lo {
        modes::lemma_edges(j, lo);
        assert(m * x < m * el) by (nonlinear_arith)
            requires
                x < el,
                m >= 1,
        ;
    }
    if j + 1 >= lo {
        modes::lemma_edges(lo, j + 1);
        assert(m * y >= m * el) by (nonlinear_arith)
            requires
                y >= el,
                m >= 1,
        ;
    }
}

proof fn lemma_within(m: int, a: int, e: int, from: int, to: int, j: int)
    requires
        m >= 1,
        0 <= a <= 21,
        0 <= e <= 21,
        m * modes::edge(a) <= from,
        m * modes::edge(e) >= to,
        0 <= j < 21,
        m * modes::edge(j) < to,
        m * modes::edge(j + 1) > from,
    ensures
        a <= j <= e - 1,
{
    let x = modes::edge(j);
    let y = modes::edge(j + 1);
    let ea = modes::edge(a);
    let ee = modes::edge(e);
    if j < a {
        modes::lemma_edges(j + 1, a);
        assert(m * y <= m * ea) by (nonlinear_arith)
            requires
                y <= ea,
                m >= 1,
        ;
    }
    if j >= e {
        modes::lemma_edges(e, j);
        assert(m * ee <= m * x) by (nonlinear_arith)
            requires
                ee <= x,
                m >= 1,
        ;
    }
}

} // verus!
