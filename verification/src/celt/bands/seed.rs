//! The noise generator fills what is not coded; it has no part in what is read.

use vstd::prelude::*;

use crate::celt::angle;
use crate::celt::bands::{self, FrameEnv, FrameState, PartEnv, PartState};

verus! {

/// Whether two states differ in the noise generator at most.
pub open spec fn same_place(a: PartState, b: PartState) -> bool {
    &&& a.dec == b.dec
    &&& a.remaining == b.remaining
}

proof fn lemma_leaf_seed(
    env: PartEnv,
    a: PartState,
    b: PartState,
    n: int,
    offset: int,
    bits: int,
    big_b: int,
    lm: int,
    gains: Seq<i32>,
    fill: u32,
)
    requires
        same_place(a, b),
    ensures
        ({
            let x = bands::leaf(env, a, n, offset, bits, big_b, lm, gains, fill);
            let y = bands::leaf(env, b, n, offset, bits, big_b, lm, gains, fill);
            &&& x.cm == y.cm
            &&& same_place(x.st, y.st)
        }),
{
    reveal(bands::leaf);
}

proof fn lemma_partition_seed(
    env: PartEnv,
    a: PartState,
    b: PartState,
    n: int,
    offset: int,
    bits: int,
    big_b: int,
    lm: int,
    gains: Seq<i32>,
    fill: u32,
)
    requires
        same_place(a, b),
    ensures
        ({
            let x = bands::partition(env, a, n, offset, bits, big_b, lm, gains, fill);
            let y = bands::partition(env, b, n, offset, bits, big_b, lm, gains, fill);
            &&& x.cm == y.cm
            &&& same_place(x.st, y.st)
        }),
    decreases lm + 1,
{
    if lm > -1 && bands::is_split(env.i, lm, n, bits) {
        reveal(bands::split_plan);
        let half = n / 2;
        let blocks = (big_b + 1) / 2;
        let p = bands::split_plan(env, a, n, bits, big_b, lm, fill);
        let q = bands::split_plan(env, b, n, bits, big_b, lm, fill);
        assert(same_place(p.st, q.st));
        let mgains = gains.push(p.mid);
        let sgains = gains.push(p.side);
        let sfill = p.fill >> (blocks as u32);
        if p.mbits >= p.sbits {
            lemma_partition_seed(env, p.st, q.st, half, offset, p.mbits, blocks, lm - 1, mgains, p.fill);
            let x = bands::partition(env, p.st, half, offset, p.mbits, blocks, lm - 1, mgains, p.fill);
            let y = bands::partition(env, q.st, half, offset, p.mbits, blocks, lm - 1, mgains, p.fill);
            let rest = bands::rebalanced(p.sbits, p.mbits, p.st.remaining, x.st.remaining, p.itheta == 0);
            lemma_partition_seed(env, x.st, y.st, half, offset + half, rest, blocks, lm - 1, sgains, sfill);
        } else {
            lemma_partition_seed(env, p.st, q.st, half, offset + half, p.sbits, blocks, lm - 1, sgains, sfill);
            let x = bands::partition(env, p.st, half, offset + half, p.sbits, blocks, lm - 1, sgains, sfill);
            let y = bands::partition(env, q.st, half, offset + half, p.sbits, blocks, lm - 1, sgains, sfill);
            let rest = bands::rebalanced(p.mbits, p.sbits, p.st.remaining, x.st.remaining, p.itheta == 16384);
            lemma_partition_seed(env, x.st, y.st, half, offset, rest, blocks, lm - 1, mgains, p.fill);
        }
    } else {
        lemma_leaf_seed(env, a, b, n, offset, bits, big_b, lm, gains, fill);
    }
}

proof fn lemma_band_seed(
    env: PartEnv,
    a: PartState,
    b: PartState,
    n: int,
    bits: int,
    big_b: int,
    lm: int,
    tf: int,
    gains: Seq<i32>,
    fill: u32,
)
    requires
        same_place(a, b),
    ensures
        ({
            let x = bands::band(env, a, n, bits, big_b, lm, tf, gains, fill);
            let y = bands::band(env, b, n, bits, big_b, lm, tf, gains, fill);
            &&& x.cm == y.cm
            &&& same_place(x.st, y.st)
        }),
{
    reveal(bands::band);
    if n != 1 {
        let r = bands::reshape(n, big_b, tf, fill);
        lemma_partition_seed(env, a, b, n, 0, bits, r.blocks, lm, gains, r.fill);
    }
}

proof fn lemma_pair_seed(
    env: PartEnv,
    a: PartState,
    b: PartState,
    t: angle::Theta,
    bits: int,
    big_b: int,
    lm: int,
    tf: int,
    fill: u32,
)
    requires
        same_place(a, b),
    ensures
        ({
            let x = bands::pair_band(env, a, t, bits, big_b, lm, tf, fill);
            let y = bands::pair_band(env, b, t, bits, big_b, lm, tf, fill);
            &&& x.cm == y.cm
            &&& same_place(x.st, y.st)
        }),
{
    reveal(bands::pair_band);
    let signed = t.itheta % 16384 != 0;
    let sbits = if signed {
        8int
    } else {
        0
    };
    let dec = if signed {
        t.dec.after_raw(1)
    } else {
        t.dec
    };
    let remaining = a.remaining - (t.qalloc + sbits);
    lemma_band_seed(
        env,
        PartState { dec, remaining, seed: a.seed },
        PartState { dec, remaining, seed: b.seed },
        2,
        bits - t.qalloc - sbits,
        big_b,
        lm,
        tf,
        Seq::empty(),
        fill,
    );
}

proof fn lemma_mid_side_seed(
    env: PartEnv,
    a: PartState,
    b: PartState,
    t: angle::Theta,
    n: int,
    bits: int,
    big_b: int,
    lm: int,
    tf: int,
    fill: u32,
)
    requires
        same_place(a, b),
    ensures
        ({
            let x = bands::mid_side_band(env, a, t, n, bits, big_b, lm, tf, fill);
            let y = bands::mid_side_band(env, b, t, n, bits, big_b, lm, tf, fill);
            &&& x.cm == y.cm
            &&& same_place(x.st, y.st)
        }),
{
    reveal(bands::mid_side_band);
    let b1 = bits - t.qalloc;
    let fill1 = angle::theta_fill(fill, big_b, t.itheta);
    let mbits = bands::mid_bits(b1, angle::theta_delta(n, t.itheta));
    let sbits = b1 - mbits;
    let p = PartState { dec: t.dec, remaining: a.remaining - t.qalloc, seed: a.seed };
    let q = PartState { dec: t.dec, remaining: b.remaining - t.qalloc, seed: b.seed };
    let plain = PartEnv { fold: false, ..env };
    let sgains = seq![angle::theta_side(t.itheta) as i32];
    let sfill = fill1 >> (big_b as u32);
    let none = Seq::<i32>::empty();
    if mbits >= sbits {
        lemma_band_seed(env, p, q, n, mbits, big_b, lm, tf, none, fill1);
        let x = bands::band(env, p, n, mbits, big_b, lm, tf, none, fill1);
        let y = bands::band(env, q, n, mbits, big_b, lm, tf, none, fill1);
        let rest = bands::rebalanced(sbits, mbits, p.remaining, x.st.remaining, t.itheta == 0);
        lemma_band_seed(plain, x.st, y.st, n, rest, big_b, lm, tf, sgains, sfill);
    } else {
        lemma_band_seed(plain, p, q, n, sbits, big_b, lm, tf, sgains, sfill);
        let x = bands::band(plain, p, n, sbits, big_b, lm, tf, sgains, sfill);
        let y = bands::band(plain, q, n, sbits, big_b, lm, tf, sgains, sfill);
        let rest = bands::rebalanced(mbits, sbits, p.remaining, x.st.remaining, t.itheta == 16384);
        lemma_band_seed(env, x.st, y.st, n, rest, big_b, lm, tf, none, fill1);
    }
}

proof fn lemma_stereo_seed(
    env: PartEnv,
    a: PartState,
    b: PartState,
    n: int,
    bits: int,
    big_b: int,
    lm: int,
    tf: int,
    fill: u32,
)
    requires
        same_place(a, b),
    ensures
        ({
            let x = bands::stereo_band(env, a, n, bits, big_b, lm, tf, fill);
            let y = bands::stereo_band(env, b, n, bits, big_b, lm, tf, fill);
            &&& x.cm == y.cm
            &&& same_place(x.st, y.st)
        }),
{
    reveal(bands::stereo_band);
    if n != 1 {
        let at = angle::SplitPlace { i: env.i, intensity: env.intensity, remaining: a.remaining };
        let t = angle::theta(a.dec, at, n, bits, big_b, lm, true);
        let p = PartState { dec: t.dec, ..a };
        let q = PartState { dec: t.dec, ..b };
        if n == 2 {
            lemma_pair_seed(env, p, q, t, bits, big_b, lm, tf, fill);
        } else {
            lemma_mid_side_seed(env, p, q, t, n, bits, big_b, lm, tf, fill);
        }
    }
}

/// Whether two states of the reading of the shapes differ at most in the noise generator
/// and in what it gave.
pub open spec fn same_reading(a: FrameState, b: FrameState) -> bool {
    &&& a.seen() == b.seen()
    &&& a.dec == b.dec
    &&& a.dual == b.dual
}

proof fn lemma_step_seed(env: FrameEnv, a: FrameState, b: FrameState, i: int)
    requires
        same_reading(a, b),
    ensures
        same_reading(env.step(a, i), env.step(b, i)),
{
    let bits = env.band_budget(a.seen(), i);
    let n = crate::celt::codebook::part_len(i, env.lm);
    let part = PartEnv { i, intensity: env.intensity, fold: env.folds(a.seen(), i) };
    let remaining = env.total_bits - a.dec.tell_frac() - 1;
    let p = PartState { dec: a.dec, remaining, seed: a.seed };
    let q = PartState { dec: b.dec, remaining, seed: b.seed };
    let xm = env.source_mask(a.seen(), i, 0);
    let ym = env.source_mask(a.seen(), i, env.channels() - 1);
    let none = Seq::<i32>::empty();
    let tf = env.tf_res[i];
    lemma_band_seed(part, p, q, n, bits / 2, env.blocks(), env.lm, tf, none, xm);
    let x = bands::band(part, p, n, bits / 2, env.blocks(), env.lm, tf, none, xm);
    let y = bands::band(part, q, n, bits / 2, env.blocks(), env.lm, tf, none, xm);
    lemma_band_seed(part, x.st, y.st, n, bits / 2, env.blocks(), env.lm, tf, none, ym);
    lemma_stereo_seed(part, p, q, n, bits, env.blocks(), env.lm, tf, xm | ym);
    lemma_band_seed(part, p, q, n, bits, env.blocks(), env.lm, tf, none, xm | ym);
    assert(a.masks == a.seen().masks);
    assert(b.masks == b.seen().masks);
    assert(a.balance == a.seen().balance);
    assert(b.balance == b.seen().balance);
}

/// Where the noise generator stands makes no difference to what is read of the shapes of
/// a frame.
pub proof fn lemma_run_seed(env: FrameEnv, a: FrameState, b: FrameState, i: int)
    requires
        same_reading(a, b),
    ensures
        same_reading(env.run(a, i), env.run(b, i)),
    decreases i - env.start,
{
    if i > env.start {
        lemma_run_seed(env, a, b, i - 1);
        lemma_step_seed(env, env.run(a, i - 1), env.run(b, i - 1), i - 1);
    }
}

} // verus!
