//! Band shapes.
//!
//! Each band's budget is turned into pulse vectors by recursive splitting. What
//! comes out is a plan: the pulse vectors, the noise and the folds of each part
//! of the band, with the weights on the way to it, from which a synthesis can
//! fill in the spectrum without reading the stream.

pub mod encode;
pub mod laws;
pub mod seed;

use vstd::arithmetic::power2::{lemma2_to64, lemma_pow2_strictly_increases, pow2};
use vstd::prelude::*;

use crate::celt::angle::{self, celt_lcg_rand, compute_theta, BandCtx, SplitCtx, SplitPlace};
use crate::celt::codebook::{self, lemma_levels_codable};
use crate::celt::cwrs::{self, cwrsi, pvq_codebook_size};
use crate::celt::modes::{self, band_edge, NB_EBANDS};
use crate::celt::rate::{self, bits2pulses, cache_max_bits, get_pulses, pulses2bits};
use crate::celt::vq::{self, extract_collapse_mask, Spread};
use crate::math::{self, max_i32, min_i32, pow2_u32};
use crate::range::decoder::DecoderState;
use crate::range::RangeDecoder;

verus! {

/// What fills one part of a band.
#[derive(Debug)]
pub enum LeafKind {
    /// A pulse vector.
    Pulses(Vec<i32>),
    /// The stream held no valid vector; the part stays as it was.
    Corrupt,
    /// Nothing.
    Silent,
    /// Noise values.
    Noise(Vec<i32>),
    /// A copy of lower spectrum, moved slightly up (set) or down in each value.
    Fold(Vec<bool>),
}

/// One part of a band: where it lies, how many interleaved blocks it holds, the
/// weights to multiply on it, and what fills it.
#[derive(Debug)]
pub struct Leaf {
    pub offset: usize,
    pub len: usize,
    pub blocks: usize,
    pub gains: Vec<i32>,
    pub kind: LeafKind,
}

#[verifier::ext_equal]
pub enum LeafKindView {
    Pulses(Seq<i32>),
    Corrupt,
    Silent,
    Noise(Seq<i32>),
    Fold(Seq<bool>),
}

#[verifier::ext_equal]
pub struct LeafView {
    pub offset: int,
    pub len: int,
    pub blocks: int,
    pub gains: Seq<i32>,
    pub kind: LeafKindView,
}

impl View for LeafKind {
    type V = LeafKindView;

    open spec fn view(&self) -> LeafKindView {
        match self {
            LeafKind::Pulses(y) => LeafKindView::Pulses(y@),
            LeafKind::Corrupt => LeafKindView::Corrupt,
            LeafKind::Silent => LeafKindView::Silent,
            LeafKind::Noise(v) => LeafKindView::Noise(v@),
            LeafKind::Fold(v) => LeafKindView::Fold(v@),
        }
    }
}

impl View for Leaf {
    type V = LeafView;

    open spec fn view(&self) -> LeafView {
        LeafView {
            offset: self.offset as int,
            len: self.len as int,
            blocks: self.blocks as int,
            gains: self.gains@,
            kind: self.kind@,
        }
    }
}

/// The views of a list of parts.
pub open spec fn leaves_view(s: Seq<Leaf>) -> Seq<LeafView> {
    Seq::new(s.len(), |i: int| s[i]@)
}

/// The noise generator after `k` steps.
pub open spec fn lcg_n(seed: int, k: nat) -> int
    decreases k,
{
    if k == 0 {
        seed
    } else {
        angle::lcg(lcg_n(seed, (k - 1) as nat))
    }
}

/// The noise value of a generator state: its twelve leading bits, signed.
pub open spec fn noise_value(s: int) -> i32 {
    (if s >= 0x8000_0000 {
        s / 0x10_0000 - 4096
    } else {
        s / 0x10_0000
    }) as i32
}

/// The noise that the generator makes of `seed`.
pub open spec fn noise(seed: int, n: nat) -> Seq<i32> {
    Seq::new(n, |j: int| noise_value(lcg_n(seed, (j + 1) as nat)))
}

/// The signs that the generator makes of `seed`.
pub open spec fn dither(seed: int, n: nat) -> Seq<bool> {
    Seq::new(n, |j: int| (lcg_n(seed, (j + 1) as nat) / 0x8000) % 2 == 1)
}

/// The pulse vector with a given number.
pub open spec fn vector_of(n: nat, k: nat, i: int) -> Seq<i32> {
    choose|y: Seq<i32>| y.len() == n && cwrs::pulses(y) == k && cwrs::index_of(y) == i
}

proof fn lemma_vector_of(y: Seq<i32>)
    ensures
        vector_of(y.len(), cwrs::pulses(y), cwrs::index_of(y) as int) == y,
{
    let z = vector_of(y.len(), cwrs::pulses(y), cwrs::index_of(y) as int);
    assert(z.len() == y.len() && cwrs::pulses(z) == cwrs::pulses(y) && cwrs::index_of(z) == cwrs::index_of(y));
    cwrs::lemma_index_injective(z, y);
}

/// The stream, the bits left in the frame and the noise generator.
#[verifier::ext_equal]
pub struct PartState {
    pub dec: DecoderState,
    pub remaining: int,
    pub seed: int,
}

/// The parts decoded, the blocks that hold something, and the state after them.
#[verifier::ext_equal]
pub struct PartOut {
    pub leaves: Seq<LeafView>,
    pub cm: u32,
    pub st: PartState,
}

/// The highest level up to `q` that the remaining bits pay for.
pub open spec fn affordable(i: int, lm: int, q: int, remaining: int) -> int
    decreases q,
{
    if q <= 0 || remaining - rate::cost(i, lm, q) >= 0 {
        q
    } else {
        affordable(i, lm, q - 1, remaining)
    }
}

/// The mask of `big_b` blocks.
pub open spec fn block_mask(big_b: int) -> u32 {
    (pow2(big_b as nat) - 1) as u32
}

/// What a partition needs to know: the band, its first intensity band, and
/// whether there is lower spectrum to fold.
pub struct PartEnv {
    pub i: int,
    pub intensity: int,
    pub fold: bool,
}

/// What fills a part that no pulse is affordable for: nothing where there is nothing
/// to fold from, else noise or a fold.
pub open spec fn filling(
    env: PartEnv,
    st: PartState,
    n: int,
    offset: int,
    big_b: int,
    gains: Seq<i32>,
    fill: u32,
) -> PartOut {
    let at = LeafView { offset, len: n, blocks: big_b, gains, kind: LeafKindView::Silent };
    let mask = block_mask(big_b);
    let f = fill & mask;
    let run = PartState { seed: lcg_n(st.seed, n as nat), ..st };
    if f == 0 {
        PartOut { leaves: seq![at], cm: 0, st }
    } else if !env.fold {
        PartOut {
            leaves: seq![LeafView { kind: LeafKindView::Noise(noise(st.seed, n as nat)), ..at }],
            cm: mask,
            st: run,
        }
    } else {
        PartOut {
            leaves: seq![LeafView { kind: LeafKindView::Fold(dither(st.seed, n as nat)), ..at }],
            cm: f,
            st: run,
        }
    }
}

/// A partition that is not split: one pulse vector, or a filling where no pulse
/// is affordable.
#[verifier::opaque]
pub open spec fn leaf(
    env: PartEnv,
    st: PartState,
    n: int,
    offset: int,
    b: int,
    big_b: int,
    lm: int,
    gains: Seq<i32>,
    fill: u32,
) -> PartOut {
    let q = affordable(env.i, lm, rate::nearest_level(env.i, lm, b), st.remaining);
    let paid = PartState { remaining: st.remaining - rate::cost(env.i, lm, q), ..st };
    let at = LeafView { offset, len: n, blocks: big_b, gains, kind: LeafKindView::Corrupt };
    if q != 0 {
        let k = rate::level_pulses(q);
        let size = cwrs::v(n as nat, k as nat) as int;
        let x = st.dec.uint(size);
        let after = PartState { dec: st.dec.after_uint(size), ..paid };
        if x < size {
            let y = vector_of(n as nat, k as nat, x);
            PartOut {
                leaves: seq![LeafView { kind: LeafKindView::Pulses(y), ..at }],
                cm: vq::collapse_mask(y, big_b) as u32,
                st: after,
            }
        } else {
            PartOut { leaves: seq![at], cm: 0, st: after }
        }
    } else {
        filling(env, paid, n, offset, big_b, gains, fill)
    }
}

/// Whether a partition is split: one codeword could not use its bits.
pub open spec fn is_split(i: int, lm: int, n: int, b: int) -> bool {
    lm > -1 && n > 2 && b > rate::cost(i, lm, rate::levels(i, lm)) - 1 + 12
}

/// The difference between the halves' bits, with less for the half that the
/// other one masks in time.
pub open spec fn masked_delta(delta: int, b0: int, itheta: int, n: int, lm: int) -> int {
    if b0 > 1 && itheta % 16384 != 0 {
        if itheta > 8192 {
            delta - delta / pow2((4 - lm) as nat) as int
        } else {
            math::min(0, delta + 8 * n / pow2((5 - lm) as nat) as int)
        }
    } else {
        delta
    }
}

/// The bits of the first half.
pub open spec fn mid_bits(b: int, delta: int) -> int {
    math::max(0, math::min(b, math::div_trunc(b - delta, 2)))
}

/// The bits of the half that is decoded second, with what the first half left
/// over.
pub open spec fn rebalanced(own: int, other: int, before: int, after: int, silent: bool) -> int {
    let r = other - (before - after);
    if r > 24 && !silent {
        own + r - 24
    } else {
        own
    }
}

/// How a partition is split: the angle, the bits and weights of the halves, the
/// blocks to fold from, and the state after the angle.
pub struct SplitPlan {
    pub itheta: int,
    pub mbits: int,
    pub sbits: int,
    pub mid: i32,
    pub side: i32,
    pub fill: u32,
    pub st: PartState,
}

/// The split of a partition.
#[verifier::opaque]
pub open spec fn split_plan(
    env: PartEnv,
    st: PartState,
    n: int,
    b: int,
    big_b: int,
    lm: int,
    fill: u32,
) -> SplitPlan {
    let half = n / 2;
    let blocks = (big_b + 1) / 2;
    let fill1 = if big_b == 1 {
        (fill & 1) | (fill << 1u32)
    } else {
        fill
    };
    let at = SplitPlace { i: env.i, intensity: env.intensity, remaining: st.remaining };
    let t = angle::theta(st.dec, at, half, b, big_b, lm - 1, false);
    let delta = masked_delta(angle::theta_delta(half, t.itheta), big_b, t.itheta, half, lm - 1);
    let mbits = mid_bits(b - t.qalloc, delta);
    SplitPlan {
        itheta: t.itheta,
        mbits,
        sbits: b - t.qalloc - mbits,
        mid: angle::theta_mid(t.itheta) as i32,
        side: angle::theta_side(t.itheta) as i32,
        fill: angle::theta_fill(fill1, blocks, t.itheta),
        st: PartState { dec: t.dec, remaining: st.remaining - t.qalloc, seed: st.seed },
    }
}

/// A partition of a band and its parts.
pub open spec fn partition(
    env: PartEnv,
    st: PartState,
    n: int,
    offset: int,
    b: int,
    big_b: int,
    lm: int,
    gains: Seq<i32>,
    fill: u32,
) -> PartOut
    decreases lm + 1,
{
    if lm > -1 && is_split(env.i, lm, n, b) {
        let half = n / 2;
        let blocks = (big_b + 1) / 2;
        let p = split_plan(env, st, n, b, big_b, lm, fill);
        let mgains = gains.push(p.mid);
        let sgains = gains.push(p.side);
        let sfill = p.fill >> (blocks as u32);
        let shift = (big_b / 2) as u32;
        if p.mbits >= p.sbits {
            let m = partition(env, p.st, half, offset, p.mbits, blocks, lm - 1, mgains, p.fill);
            let s2 = rebalanced(p.sbits, p.mbits, p.st.remaining, m.st.remaining, p.itheta == 0);
            let s = partition(env, m.st, half, offset + half, s2, blocks, lm - 1, sgains, sfill);
            PartOut { leaves: m.leaves + s.leaves, cm: m.cm | (s.cm << shift), st: s.st }
        } else {
            let s = partition(env, p.st, half, offset + half, p.sbits, blocks, lm - 1, sgains, sfill);
            let m2 = rebalanced(p.mbits, p.sbits, p.st.remaining, s.st.remaining, p.itheta == 16384);
            let m = partition(env, s.st, half, offset, m2, blocks, lm - 1, mgains, p.fill);
            PartOut { leaves: s.leaves + m.leaves, cm: (s.cm << shift) | m.cm, st: m.st }
        }
    } else {
        leaf(env, st, n, offset, b, big_b, lm, gains, fill)
    }
}

/// The largest budget of a partition.
pub open spec fn part_limit(lm: int) -> int {
    0x10_0000 + (3 - lm) * 0x1_0000
}

/// The most that a partition can change the remaining bits by.
pub open spec fn part_drain(lm: int) -> int {
    if lm <= -1 {
        300
    } else if lm == 0 {
        1100
    } else if lm == 1 {
        2700
    } else if lm == 2 {
        5900
    } else {
        12300
    }
}

proof fn lemma_part_len(i: int, lm: int)
    requires
        0 <= i < 21,
        -1 <= lm <= 3,
        codebook::part_len(i, lm) >= 2,
    ensures
        rate::has_cache(i, lm),
        codebook::part_len(i, lm) <= 176,
        codebook::part_len(i, lm) > 2 && lm > -1 ==> codebook::part_len(i, lm) == 2 * codebook::part_len(i, lm - 1) && codebook::part_len(i, lm - 1) >= 2,
{
    modes::lemma_width(i);
    rate::lemma_has_cache(i, lm);
    let w = modes::width(i);
    if lm == 0 {
        assert(w * modes::frame_mult(lm) == w) by (nonlinear_arith)
            requires
                modes::frame_mult(lm) == 1,
        ;
    } else if lm > 0 {
        let m = modes::frame_mult(lm);
        let h = modes::frame_mult(lm - 1);
        assert(m == 2 * h);
        assert(w * m == 2 * (w * h)) by (nonlinear_arith)
            requires
                m == 2 * h,
        ;
        assert(w * m <= 22 * 8) by (nonlinear_arith)
            requires
                0 <= w <= 22,
                0 <= m <= 8,
        ;
    }
}

fn copy_gains(v: &Vec<i32>) -> (r: Vec<i32>)
    ensures
        r@ == v@,
{
    let mut r: Vec<i32> = Vec::new();
    let mut i: usize = 0;
    while i < v.len()
        invariant
            i <= v@.len(),
            r@ == v@.take(i as int),
        decreases v@.len() - i,
    {
        r.push(v[i]);
        i = i + 1;
        assert(r@ =~= v@.take(i as int));
    }
    assert(v@.take(v@.len() as int) =~= v@);
    r
}

fn push_leaf(out: &mut Vec<Leaf>, x: Leaf)
    ensures
        leaves_view(final(out)@) == leaves_view(old(out)@) + seq![x@],
{
    let ghost before = out@;
    out.push(x);
    assert(leaves_view(out@) =~= leaves_view(before) + seq![x@]);
}

/// Steps the noise generator `n` times; the noise and the signs on the way.
pub fn run_noise(seed: u32, n: usize) -> (r: (Vec<i32>, Vec<bool>, u32))
    ensures
        r.0@ == noise(seed as int, n as nat),
        r.1@ == dither(seed as int, n as nat),
        r.2 == lcg_n(seed as int, n as nat),
{
    let mut values: Vec<i32> = Vec::new();
    let mut signs: Vec<bool> = Vec::new();
    let mut s: u32 = seed;
    let mut j: usize = 0;
    while j < n
        invariant
            j <= n,
            s == lcg_n(seed as int, j as nat),
            values@ == noise(seed as int, j as nat),
            signs@ == dither(seed as int, j as nat),
        decreases n - j,
    {
        s = celt_lcg_rand(s);
        let v: i32 = if s >= 0x8000_0000 {
            (s / 0x10_0000) as i32 - 4096
        } else {
            (s / 0x10_0000) as i32
        };
        values.push(v);
        signs.push((s / 0x8000) % 2 == 1);
        j = j + 1;
        assert(values@ =~= noise(seed as int, j as nat));
        assert(signs@ =~= dither(seed as int, j as nat));
    }
    (values, signs, s)
}

/// The level of a part's pulses that its bits ask for and the remaining bits pay for;
/// takes its cost off these.
fn pay_level(ctx: &mut BandCtx, b: i32, lm: i32) -> (q: i32)
    requires
        old(ctx).i < 21,
        -1 <= lm <= 3,
        2 <= codebook::part_len(old(ctx).i as int, lm as int),
        -0x200_0000 <= b <= 0x200_0000,
        -0x3000_0000 <= old(ctx).remaining_bits <= 0x3000_0000,
    ensures
        q == affordable(
            old(ctx).i as int,
            lm as int,
            rate::nearest_level(old(ctx).i as int, lm as int, b as int),
            old(ctx).remaining_bits as int,
        ),
        0 <= q <= rate::levels(old(ctx).i as int, lm as int),
        *final(ctx) == (BandCtx {
            remaining_bits: (old(ctx).remaining_bits - rate::cost(old(ctx).i as int, lm as int, q as int)) as i32,
            ..*old(ctx)
        }),
        old(ctx).remaining_bits - 300 <= final(ctx).remaining_bits <= old(ctx).remaining_bits,
        final(ctx).remaining_bits == old(ctx).remaining_bits - rate::cost(old(ctx).i as int, lm as int, q as int),
{
    let i: usize = ctx.i;
    let ghost bi = i as int;
    let ghost l = lm as int;
    proof {
        lemma_part_len(bi, l);
        rate::lemma_cache(bi, l);
        rate::lemma_cost_bound(bi, l);
    }
    let mut q: i32 = bits2pulses(i, lm, b);
    let ghost q0 = q as int;
    let mut cost: i32 = pulses2bits(i, lm, q);
    while ctx.remaining_bits - cost < 0 && q > 0
        invariant
            i < 21,
            bi == i,
            l == lm,
            rate::has_cache(bi, l),
            0 <= q <= rate::levels(bi, l),
            cost == rate::cost(bi, l, q as int),
            0 <= cost <= 256,
            -0x3000_0000 <= ctx.remaining_bits <= 0x3000_0000,
            affordable(bi, l, q0, ctx.remaining_bits as int) == affordable(bi, l, q as int, ctx.remaining_bits as int),
        decreases q,
    {
        q = q - 1;
        cost = pulses2bits(i, lm, q);
    }
    assert(q == affordable(bi, l, q0, ctx.remaining_bits as int));
    ctx.remaining_bits = ctx.remaining_bits - cost;
    q
}

/// Fills a part that no pulse is affordable for.
fn fill_leaf(
    ctx: &mut BandCtx,
    n: usize,
    offset: usize,
    big_b: usize,
    fold: bool,
    gains: &Vec<i32>,
    fill: u32,
    out: &mut Vec<Leaf>,
) -> (cm: u32)
    requires
        1 <= big_b <= 16,
    ensures
        forall|dec: DecoderState|
            {
                let r = filling(
                    old(ctx).env(fold),
                    #[trigger] old(ctx).state(dec),
                    n as int,
                    offset as int,
                    big_b as int,
                    gains@,
                    fill,
                );
                &&& leaves_view(final(out)@) == leaves_view(old(out)@) + r.leaves
                &&& cm == r.cm
                &&& final(ctx).state(dec) == r.st
            },
        *final(ctx) == (BandCtx { seed: final(ctx).seed, ..*old(ctx) }),
{
    let mask: u32 = pow2_u32(big_b as u32) - 1;
    let f: u32 = fill & mask;
    if f == 0 {
        push_leaf(out, Leaf { offset, len: n, blocks: big_b, gains: copy_gains(gains), kind: LeafKind::Silent });
        0
    } else {
        let (values, signs, seed) = run_noise(ctx.seed, n);
        ctx.seed = seed;
        if !fold {
            push_leaf(
                out,
                Leaf { offset, len: n, blocks: big_b, gains: copy_gains(gains), kind: LeafKind::Noise(values) },
            );
            mask
        } else {
            push_leaf(
                out,
                Leaf { offset, len: n, blocks: big_b, gains: copy_gains(gains), kind: LeafKind::Fold(signs) },
            );
            f
        }
    }
}

/// Decodes a partition that is not split.
fn quant_leaf(
    ctx: &mut BandCtx,
    dec: &mut RangeDecoder,
    n: usize,
    offset: usize,
    b: i32,
    big_b: usize,
    fold: bool,
    lm: i32,
    gains: &Vec<i32>,
    fill: u32,
    out: &mut Vec<Leaf>,
) -> (cm: u32)
    requires
        old(dec).wf(),
        old(ctx).i < 21,
        -1 <= lm <= 3,
        n == codebook::part_len(old(ctx).i as int, lm as int),
        2 <= n,
        -0x200_0000 <= b <= 0x200_0000,
        1 <= big_b <= 16,
        big_b <= n,
        -0x3000_0000 <= old(ctx).remaining_bits <= 0x3000_0000,
    ensures
        final(dec).wf(),
        ({
            let env = old(ctx).env(fold);
            let st = old(ctx).state(old(dec)@);
            let r = leaf(env, st, n as int, offset as int, b as int, big_b as int, lm as int, gains@, fill);
            &&& leaves_view(final(out)@) == leaves_view(old(out)@) + r.leaves
            &&& cm == r.cm
            &&& final(ctx).state(final(dec)@) == r.st
        }),
        final(ctx).i == old(ctx).i,
        final(ctx).intensity == old(ctx).intensity,
        final(ctx).tf_change == old(ctx).tf_change,
        old(ctx).remaining_bits - 300 <= final(ctx).remaining_bits <= old(ctx).remaining_bits,
{
    proof {
        reveal(leaf);
        lemma_part_len(ctx.i as int, lm as int);
        rate::lemma_cache(ctx.i as int, lm as int);
    }
    let q: i32 = pay_level(ctx, b, lm);
    if q != 0 {
        let k: usize = get_pulses(q) as usize;
        proof {
            lemma_levels_codable(ctx.i as int, lm as int, q as int);
        }
        match dec.decode_uint(pvq_codebook_size(n, k)) {
            Some(x) => {
                let mut y: Vec<i32> = vec![0i32; n];
                cwrsi(n, k, x, &mut y);
                proof {
                    lemma_vector_of(y@);
                }
                let cm: u32 = extract_collapse_mask(&y, big_b);
                push_leaf(
                    out,
                    Leaf { offset, len: n, blocks: big_b, gains: copy_gains(gains), kind: LeafKind::Pulses(y) },
                );
                cm
            },
            None => {
                push_leaf(
                    out,
                    Leaf { offset, len: n, blocks: big_b, gains: copy_gains(gains), kind: LeafKind::Corrupt },
                );
                0
            },
        }
    } else {
        assert(ctx.state(dec@).dec == dec@);
        fill_leaf(ctx, n, offset, big_b, fold, gains, fill, out)
    }
}

/// The skewed difference between the halves' bits.
fn mask_delta(delta: i32, b0: usize, itheta: i32, n: usize, lm: i32) -> (r: i32)
    requires
        -32768 <= delta <= 32768,
        0 <= itheta <= 16384,
        2 <= n <= 176,
        -1 <= lm <= 2,
    ensures
        r == masked_delta(delta as int, b0 as int, itheta as int, n as int, lm as int),
        -70000 <= r <= 70000,
{
    if b0 > 1 && itheta % 16384 != 0 {
        proof {
            lemma2_to64();
            assert(pow2(2) == 4 && pow2(3) == 8 && pow2(4) == 16 && pow2(5) == 32 && pow2(6) == 64);
        }
        if itheta > 8192 {
            let d: i32 = pow2_u32((4 - lm) as u32) as i32;
            let h: i32 = math::floor_div(delta, d);
            proof {
                math::lemma_div(delta as int, d as int);
                assert(-32768 <= h <= 32768) by (nonlinear_arith)
                    requires
                        d * h <= delta < d * h + d,
                        -32768 <= delta <= 32768,
                        d >= 2,
                ;
            }
            delta - h
        } else {
            let d: i32 = pow2_u32((5 - lm) as u32) as i32;
            let h: i32 = 8 * n as i32 / d;
            proof {
                math::lemma_div(8 * n as int, d as int);
                assert(0 <= h <= 1408) by (nonlinear_arith)
                    requires
                        d * h <= 8 * n < d * h + d,
                        0 <= 8 * n <= 1408,
                        d >= 1,
                ;
            }
            min_i32(0, delta + h)
        }
    } else {
        delta
    }
}

fn mid_share(b: i32, delta: i32) -> (r: i32)
    requires
        -0x200_0000 <= b <= 0x200_0000,
        -70000 <= delta <= 70000,
    ensures
        r == mid_bits(b as int, delta as int),
        0 <= r <= math::max(b as int, 0),
{
    max_i32(0, min_i32(b, (b - delta) / 2))
}

fn rebalance(own: i32, other: i32, before: i32, after: i32, silent: bool) -> (r: i32)
    requires
        -0x200_0000 <= own <= 0x200_0000,
        -0x200_0000 <= other <= 0x200_0000,
        -0x3100_0000 <= before <= 0x3100_0000,
        -20000 <= before - after <= 20000,
    ensures
        r == rebalanced(own as int, other as int, before as int, after as int, silent),
        own <= r <= math::max(own as int, own + other + 20000),
        before - after >= -part_drain(2) ==> r <= math::max(own as int, own + other + part_drain(2)),
{
    let d: i32 = other - (before - after);
    if d > 24 && !silent {
        own + d - 24
    } else {
        own
    }
}

/// The split of a partition, as read from the stream.
struct Halves {
    itheta: i32,
    mbits: i32,
    sbits: i32,
    imid: i32,
    iside: i32,
    fill: u32,
}

impl BandCtx {
    /// The state of a partition that starts here.
    pub open spec fn state(&self, dec: DecoderState) -> PartState {
        PartState { dec, remaining: self.remaining_bits as int, seed: self.seed as int }
    }

    /// What a partition needs to know.
    pub open spec fn env(&self, fold: bool) -> PartEnv {
        PartEnv { i: self.i as int, intensity: self.intensity as int, fold }
    }
}

/// Reads the angle of a split and divides the bits.
fn open_split(
    ctx: &mut BandCtx,
    dec: &mut RangeDecoder,
    n: usize,
    b: i32,
    big_b: usize,
    lm: i32,
    fill: u32,
    Ghost(fold): Ghost<bool>,
) -> (r: Halves)
    requires
        old(dec).wf(),
        old(ctx).i < 21,
        0 <= lm <= 3,
        4 <= n <= 176,
        -part_limit(lm as int) <= b <= part_limit(lm as int),
        1 <= big_b <= 16,
        -0x3000_0000 <= old(ctx).remaining_bits <= 0x3000_0000,
    ensures
        final(dec).wf(),
        ({
            let p = split_plan(
                old(ctx).env(fold),
                old(ctx).state(old(dec)@),
                n as int,
                b as int,
                big_b as int,
                lm as int,
                fill,
            );
            &&& r.itheta == p.itheta
            &&& r.mbits == p.mbits
            &&& r.sbits == p.sbits
            &&& r.imid == p.mid
            &&& r.iside == p.side
            &&& r.fill == p.fill
            &&& final(ctx).state(final(dec)@) == p.st
        }),
        final(ctx).i == old(ctx).i,
        final(ctx).intensity == old(ctx).intensity,
        final(ctx).tf_change == old(ctx).tf_change,
        -500 <= final(ctx).remaining_bits - old(ctx).remaining_bits <= 500,
        0 <= r.mbits <= part_limit(lm as int) + 500,
        -part_limit(lm as int) - 500 <= r.sbits <= part_limit(lm as int) + 500,
        -part_limit(lm as int) - 500 <= r.mbits + r.sbits <= part_limit(lm as int) + 500,
{
    proof {
        reveal(split_plan);
    }
    let half: usize = n / 2;
    let blocks: usize = (big_b + 1) / 2;
    let mut fill2: u32 = if big_b == 1 {
        (fill & 1) | (fill << 1u32)
    } else {
        fill
    };
    let mut b1: i32 = b;
    let s: SplitCtx = compute_theta(ctx, dec, half, &mut b1, blocks, big_b, lm - 1, false, &mut fill2);
    let delta: i32 = mask_delta(s.delta, big_b, s.itheta, half, lm - 1);
    let mbits: i32 = mid_share(b1, delta);
    ctx.remaining_bits = ctx.remaining_bits - s.qalloc;
    Halves { itheta: s.itheta, mbits, sbits: b1 - mbits, imid: s.imid, iside: s.iside, fill: fill2 }
}

fn with_gain(gains: &Vec<i32>, g: i32) -> (r: Vec<i32>)
    ensures
        r@ == gains@.push(g),
{
    let mut r: Vec<i32> = copy_gains(gains);
    r.push(g);
    r
}

/// Decodes a partition of a band, splitting it as long as one codeword could
/// not use its bits.
#[verifier::rlimit(60)]
pub fn quant_partition(
    ctx: &mut BandCtx,
    dec: &mut RangeDecoder,
    n: usize,
    offset: usize,
    b: i32,
    big_b: usize,
    fold: bool,
    lm: i32,
    gains: &Vec<i32>,
    fill: u32,
    out: &mut Vec<Leaf>,
) -> (cm: u32)
    requires
        old(dec).wf(),
        old(ctx).i < 21,
        -1 <= lm <= 3,
        n == codebook::part_len(old(ctx).i as int, lm as int),
        2 <= n,
        offset + n <= 0x1000,
        -part_limit(lm as int) <= b <= part_limit(lm as int),
        1 <= big_b <= 16,
        big_b <= n,
        -0x3000_0000 + part_drain(lm as int) <= old(ctx).remaining_bits <= 0x3000_0000 - part_drain(lm as int),
    ensures
        final(dec).wf(),
        ({
            let env = old(ctx).env(fold);
            let st = old(ctx).state(old(dec)@);
            let r = partition(env, st, n as int, offset as int, b as int, big_b as int, lm as int, gains@, fill);
            &&& leaves_view(final(out)@) == leaves_view(old(out)@) + r.leaves
            &&& cm == r.cm
            &&& final(ctx).state(final(dec)@) == r.st
        }),
        final(ctx).i == old(ctx).i,
        final(ctx).intensity == old(ctx).intensity,
        final(ctx).tf_change == old(ctx).tf_change,
        -part_drain(lm as int) <= final(ctx).remaining_bits - old(ctx).remaining_bits <= part_drain(lm as int),
    decreases lm + 1,
{
    let i: usize = ctx.i;
    proof {
        lemma_part_len(i as int, lm as int);
    }
    if lm != -1 && n > 2 && b > cache_max_bits(i, lm) + 12 {
        let ghost whole = partition(
            ctx.env(fold),
            ctx.state(dec@),
            n as int,
            offset as int,
            b as int,
            big_b as int,
            lm as int,
            gains@,
            fill,
        );
        let ghost out0 = leaves_view(out@);
        let half: usize = n / 2;
        let blocks: usize = (big_b + 1) / 2;
        let s: Halves = open_split(ctx, dec, n, b, big_b, lm, fill, Ghost(fold));
        let mgains: Vec<i32> = with_gain(gains, s.imid);
        let sgains: Vec<i32> = with_gain(gains, s.iside);
        let before: i32 = ctx.remaining_bits;
        let sfill: u32 = s.fill >> (blocks as u32);
        let shift: u32 = (big_b / 2) as u32;
        if s.mbits >= s.sbits {
            let cm: u32 = quant_partition(ctx, dec, half, offset, s.mbits, blocks, fold, lm - 1, &mgains, s.fill, out);
            let s2: i32 = rebalance(s.sbits, s.mbits, before, ctx.remaining_bits, s.itheta == 0);
            let cs: u32 = quant_partition(
                ctx,
                dec,
                half,
                offset + half,
                s2,
                blocks,
                fold,
                lm - 1,
                &sgains,
                sfill,
                out,
            );
            assert(leaves_view(out@) =~= out0 + whole.leaves);
            cm | (cs << shift)
        } else {
            let cs: u32 = quant_partition(
                ctx,
                dec,
                half,
                offset + half,
                s.sbits,
                blocks,
                fold,
                lm - 1,
                &sgains,
                sfill,
                out,
            );
            let m2: i32 = rebalance(s.mbits, s.sbits, before, ctx.remaining_bits, s.itheta == 16384);
            let cm: u32 = quant_partition(ctx, dec, half, offset, m2, blocks, fold, lm - 1, &mgains, s.fill, out);
            assert(leaves_view(out@) =~= out0 + whole.leaves);
            (cs << shift) | cm
        }
    } else {
        quant_leaf(ctx, dec, n, offset, b, big_b, fold, lm, gains, fill, out)
    }
}

/// How collapse masks fold when blocks are joined in pairs.
#[verifier::opaque]
pub const BIT_INTERLEAVE_TABLE: [u8; 16] = [0, 1, 1, 1, 2, 3, 3, 3, 2, 3, 3, 3, 2, 3, 3, 3];

/// How collapse masks unfold when blocks are parted again.
#[verifier::opaque]
pub const BIT_DEINTERLEAVE_TABLE: [u8; 16] = [
    0x00, 0x03, 0x0C, 0x0F, 0x30, 0x33, 0x3C, 0x3F, 0xC0, 0xC3, 0xCC, 0xCF, 0xF0, 0xF3, 0xFC, 0xFF,
];

/// A mask of up to eight blocks after these are joined in pairs.
pub open spec fn interleaved(fill: u32) -> u32 {
    (BIT_INTERLEAVE_TABLE[fill as int % 16] as u32) | ((BIT_INTERLEAVE_TABLE[fill as int / 16] as u32) << 2u32)
}

/// The same, `r` times.
pub open spec fn interleaved_n(fill: u32, r: nat) -> u32
    decreases r,
{
    if r == 0 {
        fill
    } else {
        interleaved(interleaved_n(fill, (r - 1) as nat))
    }
}

/// A mask of up to four blocks after these are parted.
pub open spec fn deinterleaved(cm: u32) -> u32 {
    BIT_DEINTERLEAVE_TABLE[cm as int % 16] as u32
}

/// The same, `r` times.
pub open spec fn deinterleaved_n(cm: u32, r: nat) -> u32
    decreases r,
{
    if r == 0 {
        cm
    } else {
        deinterleaved(deinterleaved_n(cm, (r - 1) as nat))
    }
}

/// How a band is cut in time: how often blocks were joined or halved, how many
/// blocks there are then and how long one is, and the blocks to fold from.
pub struct ReshapeView {
    pub recombine: int,
    pub time_divide: int,
    pub blocks: int,
    pub per_block: int,
    pub fill: u32,
}

/// Halves each block in time while it can be and the resolution asks for it.
pub open spec fn time_split(r: ReshapeView, tf: int) -> ReshapeView
    decreases -tf,
{
    if tf < 0 && r.per_block % 2 == 0 {
        time_split(
            ReshapeView {
                recombine: r.recombine,
                time_divide: r.time_divide + 1,
                blocks: 2 * r.blocks,
                per_block: r.per_block / 2,
                fill: r.fill | (r.fill << (r.blocks as u32)),
            },
            tf + 1,
        )
    } else {
        r
    }
}

/// The cut of a band of `n` values in `big_b` blocks with a resolution change of
/// `tf`.
pub open spec fn reshape(n: int, big_b: int, tf: int, fill: u32) -> ReshapeView {
    let r = math::max(tf, 0);
    time_split(
        ReshapeView {
            recombine: r,
            time_divide: 0,
            blocks: big_b / modes::frame_mult(r),
            per_block: n / big_b * modes::frame_mult(r),
            fill: interleaved_n(fill, r as nat),
        },
        tf,
    )
}

/// The mask of the blocks before they were halved `count` times.
pub open spec fn time_merge(cm: u32, blocks: int, count: nat) -> u32
    decreases count,
{
    if count == 0 {
        cm
    } else {
        time_merge(cm | (cm >> ((blocks / 2) as u32)), blocks / 2, (count - 1) as nat)
    }
}

/// The mask of the band's own blocks.
pub open spec fn restored_mask(cm: u32, r: ReshapeView, big_b: int) -> u32 {
    deinterleaved_n(time_merge(cm, r.blocks, r.time_divide as nat), r.recombine as nat) & block_mask(big_b)
}

/// Whether a resolution change is possible for a number of blocks.
pub open spec fn tf_fits(big_b: int, tf: int) -> bool {
    &&& -3 <= tf <= 3
    &&& tf == 1 ==> big_b % 2 == 0
    &&& tf == 2 ==> big_b % 4 == 0
    &&& tf == 3 ==> big_b % 8 == 0
    &&& tf == -1 ==> big_b <= 8
    &&& tf == -2 ==> big_b <= 4
    &&& tf == -3 ==> big_b <= 2
}

/// The shape of one channel of a band: a sign, or parts with the cut they are
/// laid out in.
#[derive(Debug)]
pub enum BandShape {
    Sign(bool),
    Leaves(Reshape, Vec<Leaf>),
}

/// How a band is cut in time.
#[derive(Clone, Copy, Debug)]
pub struct Reshape {
    /// How often neighbouring blocks were joined.
    pub recombine: usize,
    /// How often the blocks were halved.
    pub time_divide: usize,
    /// The number of blocks.
    pub blocks: usize,
    /// The length of a block.
    pub per_block: usize,
}

#[verifier::ext_equal]
pub enum BandShapeView {
    Sign(bool),
    Leaves { recombine: int, time_divide: int, blocks: int, per_block: int, leaves: Seq<LeafView> },
}

impl View for BandShape {
    type V = BandShapeView;

    open spec fn view(&self) -> BandShapeView {
        match self {
            BandShape::Sign(s) => BandShapeView::Sign(*s),
            BandShape::Leaves(r, v) => BandShapeView::Leaves {
                recombine: r.recombine as int,
                time_divide: r.time_divide as int,
                blocks: r.blocks as int,
                per_block: r.per_block as int,
                leaves: leaves_view(v@),
            },
        }
    }
}

/// A decoded channel of a band.
pub struct BandOut {
    pub shape: BandShapeView,
    pub cm: u32,
    pub st: PartState,
}

/// The sign of a band of a single value, where a bit is left for it.
pub open spec fn sign_bit(st: PartState) -> bool {
    st.remaining >= 8 && st.dec.raw_bits(1) == 1
}

/// The state after it.
pub open spec fn after_sign(st: PartState) -> PartState {
    if st.remaining >= 8 {
        PartState { dec: st.dec.after_raw(1), remaining: st.remaining - 8, seed: st.seed }
    } else {
        st
    }
}

/// One channel of a band of `n` values with `b` bits.
#[verifier::opaque]
pub open spec fn band(
    env: PartEnv,
    st: PartState,
    n: int,
    b: int,
    big_b: int,
    lm: int,
    tf: int,
    gains: Seq<i32>,
    fill: u32,
) -> BandOut {
    if n == 1 {
        BandOut { shape: BandShapeView::Sign(sign_bit(st)), cm: 1, st: after_sign(st) }
    } else {
        let r = reshape(n, big_b, tf, fill);
        let p = partition(env, st, n, 0, b, r.blocks, lm, gains, r.fill);
        BandOut {
            shape: BandShapeView::Leaves {
                recombine: r.recombine,
                time_divide: r.time_divide,
                blocks: r.blocks,
                per_block: r.per_block,
                leaves: p.leaves,
            },
            cm: restored_mask(p.cm, r, big_b),
            st: p.st,
        }
    }
}

proof fn lemma_interleave_bound(fill: u32)
    requires
        fill < 256,
    ensures
        interleaved(fill) < 256,
{
    reveal(BIT_INTERLEAVE_TABLE);
    let a = fill as int % 16;
    let b = fill as int / 16;
    assert(a == 0 || a == 1 || a == 2 || a == 3 || a == 4 || a == 5 || a == 6 || a == 7 || a == 8 || a == 9 || a == 10
        || a == 11 || a == 12 || a == 13 || a == 14 || a == 15);
    assert(b == 0 || b == 1 || b == 2 || b == 3 || b == 4 || b == 5 || b == 6 || b == 7 || b == 8 || b == 9 || b == 10
        || b == 11 || b == 12 || b == 13 || b == 14 || b == 15);
    let x = BIT_INTERLEAVE_TABLE[a] as u32;
    let y = BIT_INTERLEAVE_TABLE[b] as u32;
    assert((x | (y << 2u32)) < 256) by (bit_vector)
        requires
            x <= 3,
            y <= 3,
    ;
}

/// Decodes the sign of a band of a single value.
pub fn quant_band_n1(ctx: &mut BandCtx, dec: &mut RangeDecoder) -> (sign: bool)
    requires
        old(dec).wf(),
    ensures
        final(dec).wf(),
        sign == sign_bit(old(ctx).state(old(dec)@)),
        final(ctx).state(final(dec)@) == after_sign(old(ctx).state(old(dec)@)),
        final(ctx).i == old(ctx).i,
        final(ctx).intensity == old(ctx).intensity,
        final(ctx).tf_change == old(ctx).tf_change,
        old(ctx).remaining_bits - 8 <= final(ctx).remaining_bits <= old(ctx).remaining_bits,
{
    let mut sign: bool = false;
    if ctx.remaining_bits >= 8 {
        sign = dec.decode_raw_bits(1) == 1;
        ctx.remaining_bits = ctx.remaining_bits - 8;
    }
    sign
}

/// Cuts a band of `n` values in time: the cut, and the blocks to fold from.
fn cut_band(n: usize, big_b: usize, tf: i32, fill: u32) -> (r: (Reshape, u32))
    requires
        2 <= n <= 176,
        big_b == 1 || big_b == 2 || big_b == 4 || big_b == 8,
        n % big_b == 0,
        tf_fits(big_b as int, tf as int),
        fill < 256,
    ensures
        ({
            let o = reshape(n as int, big_b as int, tf as int, fill);
            &&& r.0.recombine == o.recombine
            &&& r.0.time_divide == o.time_divide
            &&& r.0.blocks == o.blocks
            &&& r.0.per_block == o.per_block
            &&& r.1 == o.fill
        }),
        1 <= r.0.blocks <= 16,
        r.0.blocks <= n,
        r.0.recombine <= 3,
        r.0.time_divide <= 3,
{
    let recombine: usize = if tf > 0 {
        tf as usize
    } else {
        0
    };
    let ghost whole = reshape(n as int, big_b as int, tf as int, fill);
    let mult: usize = modes::frame_multiple(recombine) as usize;
    let mut fill1: u32 = fill;
    let mut k: usize = 0;
    while k < recombine
        invariant
            k <= recombine <= 3,
            fill1 < 256,
            fill1 == interleaved_n(fill, k as nat),
        decreases recombine - k,
    {
        proof {
            lemma_interleave_bound(fill1);
        }
        fill1 = (BIT_INTERLEAVE_TABLE[(fill1 % 16) as usize] as u32) | ((BIT_INTERLEAVE_TABLE[(fill1 / 16) as usize]
            as u32) << 2u32);
        k = k + 1;
    }
    let mut blocks: usize = big_b / mult;
    proof {
        let bi = big_b as int;
        let q = n as int / bi;
        math::lemma_div(n as int, bi);
        vstd::arithmetic::div_mod::lemma_fundamental_div_mod(n as int, bi);
        assert(n == bi * q);
        assert(q <= bi * q) by (nonlinear_arith)
            requires
                bi >= 1,
                q >= 0,
        ;
        if recombine == 0 {
            assert(mult == 1 && bi % 1 == 0);
        } else if recombine == 1 {
            assert(mult == 2 && bi % 2 == 0);
        } else if recombine == 2 {
            assert(mult == 4 && bi % 4 == 0);
        } else {
            assert(mult == 8 && bi % 8 == 0);
        }
        vstd::arithmetic::div_mod::lemma_fundamental_div_mod(bi, mult as int);
        assert(mult * blocks == blocks * mult) by (nonlinear_arith);
        assert(bi == blocks * mult);
        let mi = mult as int;
        let bl = blocks as int;
        assert((bl * mi) * q == bl * (q * mi)) by (nonlinear_arith);
        assert(q * mi <= 176 * 8) by (nonlinear_arith)
            requires
                0 <= q <= 176,
                0 <= mi <= 8,
        ;
    }
    let mut per_block: usize = n / big_b * mult;
    let mut time_divide: usize = 0;
    let mut left: i32 = tf;
    while left < 0 && per_block % 2 == 0
        invariant
            -3 <= left <= 3,
            left >= 0 ==> blocks <= 16,
            left == -1 ==> blocks <= 8,
            left == -2 ==> blocks <= 4,
            left == -3 ==> blocks <= 2,
            blocks >= 1,
            n == blocks * per_block,
            2 <= n <= 176,
            per_block <= 1408,
            time_divide <= 3,
            tf < 0 ==> time_divide == left - tf,
            tf >= 0 ==> time_divide == 0 && left == tf,
            -3 <= tf <= 3,
            whole == time_split(
                ReshapeView {
                    recombine: recombine as int,
                    time_divide: time_divide as int,
                    blocks: blocks as int,
                    per_block: per_block as int,
                    fill: fill1,
                },
                left as int,
            ),
        decreases -left,
    {
        proof {
            let bl = blocks as int;
            let h = per_block as int / 2;
            assert(bl * per_block == (2 * bl) * h) by (nonlinear_arith)
                requires
                    per_block == 2 * h,
            ;
        }
        fill1 = fill1 | (fill1 << (blocks as u32));
        blocks = 2 * blocks;
        per_block = per_block / 2;
        time_divide = time_divide + 1;
        left = left + 1;
    }
    proof {
        if per_block == 0 {
            assert(blocks * per_block == 0) by (nonlinear_arith)
                requires
                    per_block == 0,
            ;
        }
        assert(blocks <= blocks * per_block) by (nonlinear_arith)
            requires
                per_block >= 1,
                blocks >= 1,
        ;
        assert(whole.blocks == blocks && whole.per_block == per_block && whole.fill == fill1 && whole.time_divide
            == time_divide && whole.recombine == recombine);
    }
    (Reshape { recombine, time_divide, blocks, per_block }, fill1)
}

/// The mask of a band's own blocks.
fn join_mask(part_cm: u32, r: Reshape, big_b: usize) -> (cm: u32)
    requires
        r.blocks <= 16,
        1 <= big_b <= 8,
    ensures
        cm == restored_mask(
            part_cm,
            ReshapeView {
                recombine: r.recombine as int,
                time_divide: r.time_divide as int,
                blocks: r.blocks as int,
                per_block: r.per_block as int,
                fill: 0,
            },
            big_b as int,
        ),
{
    let mut cm: u32 = part_cm;
    let mut k: usize = 0;
    let mut bl: usize = r.blocks;
    while k < r.time_divide
        invariant
            k <= r.time_divide,
            bl <= 16,
            time_merge(part_cm, r.blocks as int, r.time_divide as nat) == time_merge(
                cm,
                bl as int,
                (r.time_divide - k) as nat,
            ),
        decreases r.time_divide - k,
    {
        bl = bl / 2;
        cm = cm | (cm >> (bl as u32));
        k = k + 1;
    }
    let ghost merged = cm;
    k = 0;
    while k < r.recombine
        invariant
            k <= r.recombine,
            cm == deinterleaved_n(merged, k as nat),
        decreases r.recombine - k,
    {
        cm = BIT_DEINTERLEAVE_TABLE[(cm % 16) as usize] as u32;
        k = k + 1;
    }
    cm & (pow2_u32(big_b as u32) - 1)
}

/// Decodes one channel of a band: what fills it and which blocks hold something.
pub fn quant_band(
    ctx: &mut BandCtx,
    dec: &mut RangeDecoder,
    n: usize,
    b: i32,
    big_b: usize,
    fold: bool,
    lm: i32,
    gains: &Vec<i32>,
    fill: u32,
) -> (r: (BandShape, u32))
    requires
        old(dec).wf(),
        old(ctx).i < 21,
        0 <= lm <= 3,
        n == codebook::part_len(old(ctx).i as int, lm as int),
        -part_limit(lm as int) <= b <= part_limit(lm as int),
        big_b == 1 || big_b == 2 || big_b == 4 || big_b == 8,
        n % big_b == 0,
        tf_fits(big_b as int, old(ctx).tf_change as int),
        fill < 256,
        -0x2fff_0000 <= old(ctx).remaining_bits <= 0x2fff_0000,
    ensures
        final(dec).wf(),
        ({
            let o = band(
                old(ctx).env(fold),
                old(ctx).state(old(dec)@),
                n as int,
                b as int,
                big_b as int,
                lm as int,
                old(ctx).tf_change as int,
                gains@,
                fill,
            );
            &&& r.0@ == o.shape
            &&& r.1 == o.cm
            &&& final(ctx).state(final(dec)@) == o.st
        }),
        final(ctx).i == old(ctx).i,
        final(ctx).intensity == old(ctx).intensity,
        final(ctx).tf_change == old(ctx).tf_change,
        -12300 <= final(ctx).remaining_bits - old(ctx).remaining_bits <= 12300,
{
    proof {
        reveal(band);
        modes::lemma_width(ctx.i as int);
        let w = modes::width(ctx.i as int);
        let m = modes::frame_mult(lm as int);
        assert(1 <= w * m <= 176) by (nonlinear_arith)
            requires
                1 <= w <= 22,
                1 <= m <= 8,
        ;
    }
    if n == 1 {
        let s: bool = quant_band_n1(ctx, dec);
        return (BandShape::Sign(s), 1);
    }
    let (cut, fill1) = cut_band(n, big_b, ctx.tf_change, fill);
    let mut leaves: Vec<Leaf> = Vec::new();
    let cm: u32 = quant_partition(ctx, dec, n, 0, b, cut.blocks, fold, lm, gains, fill1, &mut leaves);
    assert(leaves_view(leaves@) =~= partition(
        old(ctx).env(fold),
        old(ctx).state(old(dec)@),
        n as int,
        0,
        b as int,
        cut.blocks as int,
        lm as int,
        gains@,
        fill1,
    ).leaves);
    (BandShape::Leaves(cut, leaves), join_mask(cm, cut, big_b))
}

/// The shape of a band.
#[derive(Debug)]
pub enum BandPlan {
    /// One channel.
    Mono(BandShape),
    /// Two channels on their own.
    Dual(BandShape, BandShape),
    /// Two channels of a single value.
    Signs(bool, bool),
    /// Two channels of two values: one is coded, the other is orthogonal to it.
    Pair {
        inv: bool,
        imid: i32,
        iside: i32,
        /// Whether the second channel is the coded one.
        swapped: bool,
        /// Whether the orthogonal channel is negated.
        negative: bool,
        coded: BandShape,
    },
    /// The sum and the difference of two channels.
    MidSide { inv: bool, imid: i32, iside: i32, mid: BandShape, side: BandShape },
}

#[verifier::ext_equal]
pub enum BandPlanView {
    Mono(BandShapeView),
    Dual(BandShapeView, BandShapeView),
    Signs(bool, bool),
    Pair { inv: bool, imid: int, iside: int, swapped: bool, negative: bool, coded: BandShapeView },
    MidSide { inv: bool, imid: int, iside: int, mid: BandShapeView, side: BandShapeView },
}

impl View for BandPlan {
    type V = BandPlanView;

    open spec fn view(&self) -> BandPlanView {
        match self {
            BandPlan::Mono(s) => BandPlanView::Mono(s@),
            BandPlan::Dual(x, y) => BandPlanView::Dual(x@, y@),
            BandPlan::Signs(x, y) => BandPlanView::Signs(*x, *y),
            BandPlan::Pair { inv, imid, iside, swapped, negative, coded } => BandPlanView::Pair {
                inv: *inv,
                imid: *imid as int,
                iside: *iside as int,
                swapped: *swapped,
                negative: *negative,
                coded: coded@,
            },
            BandPlan::MidSide { inv, imid, iside, mid, side } => BandPlanView::MidSide {
                inv: *inv,
                imid: *imid as int,
                iside: *iside as int,
                mid: mid@,
                side: side@,
            },
        }
    }
}

/// A decoded band of two channels.
pub struct StereoOut {
    pub plan: BandPlanView,
    pub cm: u32,
    pub st: PartState,
}

/// Two channels of a band of two values, where the angle is `t`.
#[verifier::opaque]
pub open spec fn pair_band(
    env: PartEnv,
    st: PartState,
    t: angle::Theta,
    b: int,
    big_b: int,
    lm: int,
    tf: int,
    fill: u32,
) -> StereoOut {
    let signed = t.itheta % 16384 != 0;
    let sbits = if signed {
        8int
    } else {
        0
    };
    let st1 = PartState {
        dec: if signed {
            t.dec.after_raw(1)
        } else {
            t.dec
        },
        remaining: st.remaining - (t.qalloc + sbits),
        seed: st.seed,
    };
    let c = band(env, st1, 2, b - t.qalloc - sbits, big_b, lm, tf, Seq::empty(), fill);
    StereoOut {
        plan: BandPlanView::Pair {
            inv: t.inv,
            imid: angle::theta_mid(t.itheta),
            iside: angle::theta_side(t.itheta),
            swapped: t.itheta > 8192,
            negative: signed && t.dec.raw_bits(1) == 1,
            coded: c.shape,
        },
        cm: c.cm,
        st: c.st,
    }
}

/// Two channels of a band of more than two values, where the angle is `t`.
#[verifier::opaque]
pub open spec fn mid_side_band(
    env: PartEnv,
    st: PartState,
    t: angle::Theta,
    n: int,
    b: int,
    big_b: int,
    lm: int,
    tf: int,
    fill: u32,
) -> StereoOut {
    let b1 = b - t.qalloc;
    let fill1 = angle::theta_fill(fill, big_b, t.itheta);
    let mbits = mid_bits(b1, angle::theta_delta(n, t.itheta));
    let sbits = b1 - mbits;
    let st1 = PartState { dec: t.dec, remaining: st.remaining - t.qalloc, seed: st.seed };
    let plain = PartEnv { fold: false, ..env };
    let sgains = seq![angle::theta_side(t.itheta) as i32];
    let sfill = fill1 >> (big_b as u32);
    let none = Seq::<i32>::empty();
    if mbits >= sbits {
        let m = band(env, st1, n, mbits, big_b, lm, tf, none, fill1);
        let s2 = rebalanced(sbits, mbits, st1.remaining, m.st.remaining, t.itheta == 0);
        let s = band(plain, m.st, n, s2, big_b, lm, tf, sgains, sfill);
        StereoOut {
            plan: BandPlanView::MidSide {
                inv: t.inv,
                imid: angle::theta_mid(t.itheta),
                iside: angle::theta_side(t.itheta),
                mid: m.shape,
                side: s.shape,
            },
            cm: m.cm | s.cm,
            st: s.st,
        }
    } else {
        let s = band(plain, st1, n, sbits, big_b, lm, tf, sgains, sfill);
        let m2 = rebalanced(mbits, sbits, st1.remaining, s.st.remaining, t.itheta == 16384);
        let m = band(env, s.st, n, m2, big_b, lm, tf, none, fill1);
        StereoOut {
            plan: BandPlanView::MidSide {
                inv: t.inv,
                imid: angle::theta_mid(t.itheta),
                iside: angle::theta_side(t.itheta),
                mid: m.shape,
                side: s.shape,
            },
            cm: s.cm | m.cm,
            st: m.st,
        }
    }
}

/// Two channels of a band, coded together.
#[verifier::opaque]
pub open spec fn stereo_band(
    env: PartEnv,
    st: PartState,
    n: int,
    b: int,
    big_b: int,
    lm: int,
    tf: int,
    fill: u32,
) -> StereoOut {
    let at = SplitPlace { i: env.i, intensity: env.intensity, remaining: st.remaining };
    if n == 1 {
        let st1 = after_sign(st);
        StereoOut { plan: BandPlanView::Signs(sign_bit(st), sign_bit(st1)), cm: 1, st: after_sign(st1) }
    } else {
        let t = angle::theta(st.dec, at, n, b, big_b, lm, true);
        let st1 = PartState { dec: t.dec, ..st };
        if n == 2 {
            pair_band(env, st1, t, b, big_b, lm, tf, fill)
        } else {
            mid_side_band(env, st1, t, n, b, big_b, lm, tf, fill)
        }
    }
}

proof fn lemma_fill_bound(fill: u32, big_b: int, itheta: int)
    requires
        fill < 256,
    ensures
        angle::theta_fill(fill, big_b, itheta) < 256,
        angle::theta_fill(fill, big_b, itheta) >> (big_b as u32) < 256,
{
    let mask = (pow2(big_b as nat) - 1) as u32;
    let m2 = mask << (big_b as u32);
    let f = angle::theta_fill(fill, big_b, itheta);
    let s = big_b as u32;
    assert(fill & mask <= fill) by (bit_vector);
    assert(fill & m2 <= fill) by (bit_vector);
    assert(f >> s <= f) by (bit_vector);
}

/// Decodes two channels of a band together.
pub fn quant_band_stereo(
    ctx: &mut BandCtx,
    dec: &mut RangeDecoder,
    n: usize,
    b: i32,
    big_b: usize,
    fold: bool,
    lm: i32,
    fill: u32,
) -> (r: (BandPlan, u32))
    requires
        old(dec).wf(),
        old(ctx).i < 21,
        0 <= lm <= 3,
        n == codebook::part_len(old(ctx).i as int, lm as int),
        0 <= b <= 16383,
        big_b == 1 || big_b == 2 || big_b == 4 || big_b == 8,
        n % big_b == 0,
        tf_fits(big_b as int, old(ctx).tf_change as int),
        fill < 256,
        -0x2ffe_0000 <= old(ctx).remaining_bits <= 0x2ffe_0000,
    ensures
        final(dec).wf(),
        ({
            let o = stereo_band(
                old(ctx).env(fold),
                old(ctx).state(old(dec)@),
                n as int,
                b as int,
                big_b as int,
                lm as int,
                old(ctx).tf_change as int,
                fill,
            );
            &&& r.0@ == o.plan
            &&& r.1 == o.cm
            &&& final(ctx).state(final(dec)@) == o.st
        }),
        final(ctx).i == old(ctx).i,
        final(ctx).intensity == old(ctx).intensity,
        final(ctx).tf_change == old(ctx).tf_change,
{
    proof {
        reveal(stereo_band);
        modes::lemma_width(ctx.i as int);
        let w = modes::width(ctx.i as int);
        let m = modes::frame_mult(lm as int);
        assert(1 <= w * m <= 176) by (nonlinear_arith)
            requires
                1 <= w <= 22,
                1 <= m <= 8,
        ;
    }
    if n == 1 {
        let x: bool = quant_band_n1(ctx, dec);
        let y: bool = quant_band_n1(ctx, dec);
        return (BandPlan::Signs(x, y), 1);
    }
    let mut b1: i32 = b;
    let mut fill1: u32 = fill;
    let t: SplitCtx = compute_theta(ctx, dec, n, &mut b1, big_b, big_b, lm, true, &mut fill1);
    proof {
        lemma_fill_bound(fill, big_b as int, t.itheta as int);
    }
    let ghost at = SplitPlace {
        i: old(ctx).i as int,
        intensity: old(ctx).intensity as int,
        remaining: old(ctx).remaining_bits as int,
    };
    assert(at == old(ctx).place());
    let ghost th = angle::theta(old(dec)@, at, n as int, b as int, big_b as int, lm as int, true);
    if n == 2 {
        quant_pair(ctx, dec, t, b, big_b, fold, lm, fill, Ghost(th))
    } else {
        quant_mid_side(ctx, dec, t, n, b, big_b, fold, lm, fill1, Ghost(th), Ghost(fill))
    }
}

impl SplitCtx {
    /// Whether this is what was read as the angle `th` of a stereo split.
    pub open spec fn reads(&self, th: angle::Theta) -> bool {
        &&& self.inv == th.inv
        &&& self.itheta == th.itheta
        &&& self.qalloc == th.qalloc
        &&& self.imid == angle::theta_mid(th.itheta)
        &&& self.iside == angle::theta_side(th.itheta)
        &&& 0 <= self.itheta <= 16384
        &&& -71 <= self.qalloc <= 500
        &&& -32768 <= self.delta <= 32768
    }
}

/// Decodes two channels of two values behind their angle.
fn quant_pair(
    ctx: &mut BandCtx,
    dec: &mut RangeDecoder,
    t: SplitCtx,
    b: i32,
    big_b: usize,
    fold: bool,
    lm: i32,
    fill: u32,
    Ghost(th): Ghost<angle::Theta>,
) -> (r: (BandPlan, u32))
    requires
        old(dec).wf(),
        old(dec)@ == th.dec,
        t.reads(th),
        old(ctx).i < 21,
        0 <= lm <= 3,
        2 == codebook::part_len(old(ctx).i as int, lm as int),
        0 <= b <= 16383,
        big_b == 1 || big_b == 2,
        tf_fits(big_b as int, old(ctx).tf_change as int),
        fill < 256,
        -0x2ffe_0000 <= old(ctx).remaining_bits <= 0x2ffe_0000,
    ensures
        final(dec).wf(),
        ({
            let o = pair_band(
                old(ctx).env(fold),
                old(ctx).state(old(dec)@),
                th,
                b as int,
                big_b as int,
                lm as int,
                old(ctx).tf_change as int,
                fill,
            );
            &&& r.0@ == o.plan
            &&& r.1 == o.cm
            &&& final(ctx).state(final(dec)@) == o.st
        }),
        final(ctx).i == old(ctx).i,
        final(ctx).intensity == old(ctx).intensity,
        final(ctx).tf_change == old(ctx).tf_change,
{
    proof {
        reveal(pair_band);
    }
    let none: Vec<i32> = Vec::new();
    assert(none@ == Seq::<i32>::empty());
    let signed: bool = t.itheta % 16384 != 0;
    let sbits: i32 = if signed {
        8
    } else {
        0
    };
    ctx.remaining_bits = ctx.remaining_bits - (t.qalloc + sbits);
    let negative: bool = if signed {
        dec.decode_raw_bits(1) == 1
    } else {
        false
    };
    let (coded, cm) = quant_band(ctx, dec, 2, b - t.qalloc - sbits, big_b, fold, lm, &none, fill);
    (BandPlan::Pair { inv: t.inv, imid: t.imid, iside: t.iside, swapped: t.itheta > 8192, negative, coded }, cm)
}

/// Decodes the sum and the difference of two channels behind their angle.
fn quant_mid_side(
    ctx: &mut BandCtx,
    dec: &mut RangeDecoder,
    t: SplitCtx,
    n: usize,
    b: i32,
    big_b: usize,
    fold: bool,
    lm: i32,
    fill1: u32,
    Ghost(th): Ghost<angle::Theta>,
    Ghost(fill): Ghost<u32>,
) -> (r: (BandPlan, u32))
    requires
        old(dec).wf(),
        old(dec)@ == th.dec,
        t.reads(th),
        t.delta == angle::theta_delta(n as int, th.itheta),
        fill1 == angle::theta_fill(fill, big_b as int, th.itheta),
        old(ctx).i < 21,
        0 <= lm <= 3,
        2 < n,
        n == codebook::part_len(old(ctx).i as int, lm as int),
        0 <= b <= 16383,
        big_b == 1 || big_b == 2 || big_b == 4 || big_b == 8,
        n % big_b == 0,
        tf_fits(big_b as int, old(ctx).tf_change as int),
        fill < 256,
        -0x2ffe_0000 <= old(ctx).remaining_bits <= 0x2ffe_0000,
    ensures
        final(dec).wf(),
        ({
            let o = mid_side_band(
                old(ctx).env(fold),
                old(ctx).state(old(dec)@),
                th,
                n as int,
                b as int,
                big_b as int,
                lm as int,
                old(ctx).tf_change as int,
                fill,
            );
            &&& r.0@ == o.plan
            &&& r.1 == o.cm
            &&& final(ctx).state(final(dec)@) == o.st
        }),
        final(ctx).i == old(ctx).i,
        final(ctx).intensity == old(ctx).intensity,
        final(ctx).tf_change == old(ctx).tf_change,
{
    proof {
        reveal(mid_side_band);
        lemma_fill_bound(fill, big_b as int, th.itheta);
    }
    let none: Vec<i32> = Vec::new();
    assert(none@ == Seq::<i32>::empty());
    let b1: i32 = b - t.qalloc;
    let mbits: i32 = mid_share(b1, t.delta);
    let sbits: i32 = b1 - mbits;
    ctx.remaining_bits = ctx.remaining_bits - t.qalloc;
    let before: i32 = ctx.remaining_bits;
    let mut sgains: Vec<i32> = Vec::new();
    sgains.push(t.iside);
    assert(sgains@ =~= seq![t.iside]);
    let sfill: u32 = fill1 >> (big_b as u32);
    if mbits >= sbits {
        let (mid, cm) = quant_band(ctx, dec, n, mbits, big_b, fold, lm, &none, fill1);
        let s2: i32 = rebalance(sbits, mbits, before, ctx.remaining_bits, t.itheta == 0);
        let (side, cs) = quant_band(ctx, dec, n, s2, big_b, false, lm, &sgains, sfill);
        (BandPlan::MidSide { inv: t.inv, imid: t.imid, iside: t.iside, mid, side }, cm | cs)
    } else {
        let (side, cs) = quant_band(ctx, dec, n, sbits, big_b, false, lm, &sgains, sfill);
        let m2: i32 = rebalance(mbits, sbits, before, ctx.remaining_bits, t.itheta == 16384);
        let (mid, cm) = quant_band(ctx, dec, n, m2, big_b, fold, lm, &none, fill1);
        (BandPlan::MidSide { inv: t.inv, imid: t.imid, iside: t.iside, mid, side }, cs | cm)
    }
}

/// The lowest band at or below `k` that starts at bin `x` or below.
pub open spec fn fold_start(m: int, x: int, k: int) -> int
    decreases k,
{
    if k <= 0 || m * modes::edge(k) <= x {
        k
    } else {
        fold_start(m, x, k - 1)
    }
}

/// The lowest band at or above `k` that starts at bin `x` or above.
pub open spec fn fold_end(m: int, x: int, k: int) -> int
    decreases 21 - k,
{
    if k >= 21 || m * modes::edge(k) >= x {
        k
    } else {
        fold_end(m, x, k + 1)
    }
}

/// The blocks that hold something in any of the bands from `a` up to and with
/// `k`, on one of `c` channels.
pub open spec fn mask_union(masks: Seq<u8>, c: int, ch: int, a: int, k: int) -> u32
    decreases k - a,
{
    if k <= a {
        masks[a * c + ch] as u32
    } else {
        mask_union(masks, c, ch, a, k - 1) | (masks[k * c + ch] as u32)
    }
}

/// A band's plan: where the spectrum that it folds starts, whether the folding
/// histories of the two channels are averaged before it, and its shape.
#[derive(Debug)]
pub struct PlannedBand {
    pub lowband: Option<usize>,
    pub merge: bool,
    pub plan: BandPlan,
}

#[verifier::ext_equal]
pub struct PlannedView {
    pub lowband: Option<int>,
    pub merge: bool,
    pub plan: BandPlanView,
}

impl View for PlannedBand {
    type V = PlannedView;

    open spec fn view(&self) -> PlannedView {
        PlannedView {
            lowband: match self.lowband {
                Some(x) => Some(x as int),
                None => None,
            },
            merge: self.merge,
            plan: self.plan@,
        }
    }
}

/// The views of a list of planned bands.
pub open spec fn plans_view(s: Seq<PlannedBand>) -> Seq<PlannedView> {
    Seq::new(s.len(), |i: int| s[i]@)
}

/// What the shapes of a frame depend on, besides the stream.
pub struct FrameEnv {
    pub start: int,
    pub end: int,
    pub shape_bits: Seq<int>,
    pub short_blocks: bool,
    pub spread: Spread,
    pub intensity: int,
    pub tf_res: Seq<int>,
    pub total_bits: int,
    pub lm: int,
    pub coded_bands: int,
    pub stereo: bool,
}

/// Where the decoding of the shapes stands.
#[verifier::ext_equal]
pub struct FrameState {
    pub dec: DecoderState,
    pub balance: int,
    pub lowband: int,
    pub update: bool,
    pub dual: bool,
    pub seed: int,
    pub masks: Seq<u8>,
    pub plans: Seq<PlannedView>,
}

/// What the budget and the folding of a band depend on.
#[verifier::ext_equal]
pub struct FrameSeen {
    /// The eighth bits used so far.
    pub tell: int,
    pub balance: int,
    pub lowband: int,
    pub update: bool,
    pub masks: Seq<u8>,
}

impl FrameState {
    /// What the next band sees.
    pub open spec fn seen(self) -> FrameSeen {
        FrameSeen {
            tell: self.dec.tell_frac(),
            balance: self.balance,
            lowband: self.lowband,
            update: self.update,
            masks: self.masks,
        }
    }
}

impl FrameEnv {
    /// The number of interleaved blocks.
    pub open spec fn blocks(self) -> int {
        if self.short_blocks {
            modes::frame_mult(self.lm)
        } else {
            1
        }
    }

    /// The number of channels.
    pub open spec fn channels(self) -> int {
        if self.stereo {
            2
        } else {
            1
        }
    }

    /// Bands and frame size exist, the resolution changes are possible, and no
    /// budget comes near the limits of the arithmetic.
    pub open spec fn wf(self) -> bool {
        &&& 0 <= self.start < self.end <= 21
        &&& self.shape_bits.len() == 21
        &&& self.tf_res.len() == 21
        &&& 0 <= self.lm <= 3
        &&& 0 <= self.coded_bands <= 21
        &&& 0 <= self.intensity
        &&& -0x100_0000 <= self.total_bits <= 0x100_0000
        &&& forall|j: int| 0 <= j < 21 ==> 0 <= #[trigger] self.shape_bits[j] <= 0x10_0000
        &&& forall|j: int| self.start <= j < self.end ==> tf_fits(self.blocks(), #[trigger] self.tf_res[j])
    }

    /// The balance that band `i` sees.
    pub open spec fn seen_balance(self, s: FrameSeen, i: int) -> int {
        if i != self.start {
            s.balance - s.tell
        } else {
            s.balance
        }
    }

    /// The budget of band `i`: its allocation and a third of what the bands
    /// before left over, within what is left in the frame.
    pub open spec fn band_budget(self, s: FrameSeen, i: int) -> int {
        if i < self.coded_bands {
            let left = self.total_bits - s.tell;
            math::max(
                0,
                math::min(
                    16383,
                    math::min(
                        left,
                        self.shape_bits[i] + math::div_trunc(
                            self.seen_balance(s, i),
                            math::min(3, self.coded_bands - i),
                        ),
                    ),
                ),
            )
        } else {
            0
        }
    }

    /// The band below which spectrum is folded from, zero where there is none.
    pub open spec fn lowband_at(self, s: FrameSeen, i: int) -> int {
        let m = modes::frame_mult(self.lm);
        if m * modes::edge(i) - codebook::part_len(i, self.lm) >= m * modes::edge(self.start) && (s.update || s.lowband == 0) {
            i
        } else {
            s.lowband
        }
    }

    /// Whether band `i` has spectrum to fold.
    pub open spec fn folds(self, s: FrameSeen, i: int) -> bool {
        self.lowband_at(s, i) != 0 && (self.spread != Spread::Aggressive || self.blocks() > 1 || self.tf_res[i] < 0)
    }

    /// Where that spectrum starts, from the first band's start on.
    pub open spec fn fold_source(self, s: FrameSeen, i: int) -> int {
        let m = modes::frame_mult(self.lm);
        math::max(
            0,
            m * modes::edge(self.lowband_at(s, i)) - m * modes::edge(self.start) - codebook::part_len(i, self.lm),
        )
    }

    /// The blocks that hold something in that spectrum; without one, all.
    pub open spec fn source_mask(self, s: FrameSeen, i: int, ch: int) -> u32 {
        if self.folds(s, i) {
            let m = modes::frame_mult(self.lm);
            let lo = self.lowband_at(s, i);
            let from = self.fold_source(s, i) + m * modes::edge(self.start);
            let a = fold_start(m, from, lo - 1);
            let e = fold_end(m, from + codebook::part_len(i, self.lm), lo);
            mask_union(s.masks, self.channels(), ch, a, e - 1)
        } else {
            block_mask(self.blocks())
        }
    }

    /// The state after band `i`.
    pub open spec fn step(self, st: FrameState, i: int) -> FrameState {
        let b = self.band_budget(st.seen(), i);
        let n = codebook::part_len(i, self.lm);
        let env = PartEnv { i, intensity: self.intensity, fold: self.folds(st.seen(), i) };
        let p0 = PartState { dec: st.dec, remaining: self.total_bits - st.dec.tell_frac() - 1, seed: st.seed };
        let dual = st.dual && i != self.intensity;
        let xm = self.source_mask(st.seen(), i, 0);
        let ym = self.source_mask(st.seen(), i, self.channels() - 1);
        let none = Seq::<i32>::empty();
        let tf = self.tf_res[i];
        let x = band(env, p0, n, b / 2, self.blocks(), self.lm, tf, none, xm);
        let y = band(env, x.st, n, b / 2, self.blocks(), self.lm, tf, none, ym);
        let s = stereo_band(env, p0, n, b, self.blocks(), self.lm, tf, xm | ym);
        let o = band(env, p0, n, b, self.blocks(), self.lm, tf, none, xm | ym);
        let (plan, xcm, ycm, after) = if dual {
            (BandPlanView::Dual(x.shape, y.shape), x.cm, y.cm, y.st)
        } else if self.stereo {
            (s.plan, s.cm, s.cm, s.st)
        } else {
            (BandPlanView::Mono(o.shape), o.cm, o.cm, o.st)
        };
        let c = self.channels();
        FrameState {
            dec: after.dec,
            balance: self.seen_balance(st.seen(), i) + self.shape_bits[i] + st.dec.tell_frac(),
            lowband: self.lowband_at(st.seen(), i),
            update: b > 8 * n,
            dual,
            seed: after.seed,
            masks: st.masks.update(i * c, xcm as u8).update(i * c + c - 1, ycm as u8),
            plans: st.plans.push(
                PlannedView {
                    lowband: if self.folds(st.seen(), i) {
                        Some(self.fold_source(st.seen(), i))
                    } else {
                        None
                    },
                    merge: st.dual && i == self.intensity,
                    plan,
                },
            ),
        }
    }

    /// The state after the bands from the first one up to `i`.
    pub open spec fn run(self, st: FrameState, i: int) -> FrameState
        decreases i - self.start,
    {
        if i <= self.start {
            st
        } else {
            self.step(self.run(st, i - 1), i - 1)
        }
    }
}

/// The arguments of the shape decoding as integers.
pub open spec fn frame_env(
    start: usize,
    end: usize,
    shape_bits: Seq<i32>,
    short_blocks: bool,
    spread: Spread,
    intensity: usize,
    tf_res: Seq<i32>,
    total_bits: i32,
    lm: usize,
    coded_bands: usize,
    stereo: bool,
) -> FrameEnv {
    FrameEnv {
        start: start as int,
        end: end as int,
        shape_bits: rate::ints(shape_bits),
        short_blocks,
        spread,
        intensity: intensity as int,
        tf_res: rate::ints(tf_res),
        total_bits: total_bits as int,
        lm: lm as int,
        coded_bands: coded_bands as int,
        stereo,
    }
}

/// Where the decoding of the shapes starts.
pub open spec fn frame_start(
    dec: DecoderState,
    balance: i32,
    dual_stereo: bool,
    seed: u32,
    masks: Seq<u8>,
) -> FrameState {
    FrameState {
        dec,
        balance: balance as int,
        lowband: 0,
        update: true,
        dual: dual_stereo,
        seed: seed as int,
        masks,
        plans: Seq::empty(),
    }
}

proof fn lemma_or_byte(a: u32, b: u32)
    requires
        a < 256,
        b < 256,
    ensures
        a | b < 256,
{
    assert(a | b < 256) by (bit_vector)
        requires
            a < 256,
            b < 256,
    ;
}

/// The blocks that hold something in the bands that a band folds from.
fn fold_masks(masks: &Vec<u8>, channels: usize, a: usize, e: usize) -> (r: (u32, u32))
    requires
        channels == 1 || channels == 2,
        masks@.len() == 21 * channels,
        a < 21,
        e <= 21,
    ensures
        r.0 == mask_union(masks@, channels as int, 0, a as int, e - 1),
        r.1 == mask_union(masks@, channels as int, channels - 1, a as int, e - 1),
        r.0 < 256,
        r.1 < 256,
{
    let mut x: u32 = masks[a * channels] as u32;
    let mut y: u32 = masks[a * channels + channels - 1] as u32;
    let mut k: usize = a + 1;
    if e <= a {
        assert(mask_union(masks@, channels as int, 0, a as int, e - 1) == x);
    }
    while k < e
        invariant
            channels == 1 || channels == 2,
            masks@.len() == 21 * channels,
            a < k,
            e <= 21,
            k <= e || k == a + 1,
            x < 256,
            y < 256,
            x == mask_union(masks@, channels as int, 0, a as int, k - 1),
            y == mask_union(masks@, channels as int, channels - 1, a as int, k - 1),
        decreases e - k,
    {
        proof {
            assert(0 <= k * channels && k * channels + channels <= 21 * channels) by (nonlinear_arith)
                requires
                    0 <= k,
                    k + 1 <= 21,
                    channels >= 1,
            ;
        }
        let mx: u32 = masks[k * channels] as u32;
        let my: u32 = masks[k * channels + channels - 1] as u32;
        proof {
            lemma_or_byte(x, mx);
            lemma_or_byte(y, my);
        }
        x = x | mx;
        y = y | my;
        k = k + 1;
    }
    (x, y)
}

/// The bands that the spectrum from bin `from` on, of `n` bins, lies in.
fn fold_range(m: usize, lo: usize, from: usize, n: usize, i: usize) -> (r: (usize, usize))
    requires
        1 <= m <= 8,
        1 <= lo <= i < 21,
        from <= 800,
        n <= 176,
        from + n <= m * modes::edge(i + 1),
    ensures
        r.0 == fold_start(m as int, from as int, lo - 1),
        r.1 == fold_end(m as int, from + n, lo as int),
        r.0 < 21,
        r.1 <= 21,
{
    let mut a: usize = lo - 1;
    proof {
        modes::lemma_edges(a as int, 21);
        math::lemma_mul_range(m as int, 8, modes::edge(a as int), 100);
    }
    while a > 0 && m * band_edge(a) as usize > from
        invariant
            1 <= m <= 8,
            a < 21,
            0 <= m * modes::edge(a as int) <= 800,
            0 <= modes::edge(a as int) <= 100,
            fold_start(m as int, from as int, lo - 1) == fold_start(m as int, from as int, a as int),
        decreases a,
    {
        a = a - 1;
        proof {
            modes::lemma_edges(a as int, 21);
            math::lemma_mul_range(m as int, 8, modes::edge(a as int), 100);
        }
    }
    let mut e: usize = lo;
    proof {
        modes::lemma_edges(e as int, 21);
        math::lemma_mul_range(m as int, 8, modes::edge(e as int), 100);
    }
    while e < 21 && m * (band_edge(e) as usize) < from + n
        invariant
            1 <= m <= 8,
            e <= 21,
            from <= 800,
            n <= 176,
            0 <= m * modes::edge(e as int) <= 800,
            0 <= modes::edge(e as int) <= 100,
            fold_end(m as int, from + n, lo as int) == fold_end(m as int, from + n, e as int),
        decreases 21 - e,
    {
        e = e + 1;
        proof {
            modes::lemma_edges(e as int, 21);
            math::lemma_mul_range(m as int, 8, modes::edge(e as int), 100);
        }
    }
    (a, e)
}

/// What the shapes of a frame depend on, besides the stream.
struct FrameArgs {
    start: usize,
    end: usize,
    stereo: bool,
    shape_bits: [i32; NB_EBANDS],
    short_blocks: bool,
    spread: Spread,
    intensity: usize,
    tf_res: [i32; NB_EBANDS],
    total_bits: i32,
    lm: usize,
    coded_bands: usize,
}

impl FrameArgs {
    spec fn env(&self) -> FrameEnv {
        frame_env(
            self.start,
            self.end,
            self.shape_bits@,
            self.short_blocks,
            self.spread,
            self.intensity,
            self.tf_res@,
            self.total_bits,
            self.lm,
            self.coded_bands,
            self.stereo,
        )
    }
}

/// What a band starts with: its length, its blocks and its bits, the balance and the
/// band below which it folds, where that spectrum starts, and the blocks that hold
/// something there on the first and the last channel.
struct BandStart {
    n: usize,
    big_b: usize,
    b: i32,
    balance: i32,
    lowband: usize,
    source: Option<usize>,
    xm: u32,
    ym: u32,
}

/// What band `i` starts with, where `tell` eighth bits are used.
fn band_start(
    args: &FrameArgs,
    i: usize,
    tell: i32,
    balance: i32,
    lowband: usize,
    update: bool,
    masks: &Vec<u8>,
) -> (r: BandStart)
    requires
        args.env().wf(),
        args.start <= i < args.end,
        lowband <= i,
        masks@.len() == 21 * args.env().channels(),
        1 <= tell <= 0x2000_0000,
        -0x400_0000 <= balance <= 0x2600_0000,
    ensures
        ({
            let env = args.env();
            let s = FrameSeen {
                tell: tell as int,
                balance: balance as int,
                lowband: lowband as int,
                update,
                masks: masks@,
            };
            &&& r.b == env.band_budget(s, i as int)
            &&& r.balance == env.seen_balance(s, i as int)
            &&& r.lowband == env.lowband_at(s, i as int)
            &&& r.source is Some == env.folds(s, i as int)
            &&& r.source matches Some(x) ==> x == env.fold_source(s, i as int)
            &&& r.xm == env.source_mask(s, i as int, 0)
            &&& r.ym == env.source_mask(s, i as int, env.channels() - 1)
            &&& r.big_b == env.blocks()
        }),
        r.n == codebook::part_len(i as int, args.lm as int),
        1 <= r.n <= 176,
        r.n % r.big_b == 0,
        r.big_b == 1 || r.big_b == 2 || r.big_b == 4 || r.big_b == 8,
        tf_fits(r.big_b as int, args.tf_res@[i as int] as int),
        0 <= args.shape_bits@[i as int] <= 0x10_0000,
        0 <= r.b <= 16383,
        r.lowband <= i,
        r.xm < 256,
        r.ym < 256,
        r.xm | r.ym < 256,
{
    let ghost env = args.env();
    let ghost s = FrameSeen {
        tell: tell as int,
        balance: balance as int,
        lowband: lowband as int,
        update,
        masks: masks@,
    };
    let m: i32 = modes::frame_multiple(args.lm);
    let big_b: usize = if args.short_blocks {
        m as usize
    } else {
        1
    };
    let channels: usize = if args.stereo {
        2
    } else {
        1
    };
    proof {
        modes::lemma_width(i as int);
        modes::lemma_edges(args.start as int, i as int);
        modes::lemma_edges(i as int, 21);
        let w = modes::width(i as int);
        assert(1 <= w * m <= 176) by (nonlinear_arith)
            requires
                1 <= w <= 22,
                1 <= m <= 8,
        ;
        assert(env.shape_bits[i as int] == args.shape_bits@[i as int]);
        assert(env.tf_res[i as int] == args.tf_res@[i as int]);
        assert(tf_fits(env.blocks(), env.tf_res[i as int]));
        math::lemma_mul_range(m as int, 8, modes::edge(i as int), 100);
        math::lemma_mul_range(m as int, 8, modes::edge(args.start as int), 100);
        lemma_whole_blocks(i as int, args.lm as int, big_b as int);
    }
    let n: i32 = modes::band_width(i) * m;
    let bal: i32 = if i != args.start {
        balance - tell
    } else {
        balance
    };
    let b: i32 = if i < args.coded_bands {
        let d: i32 = min_i32(3, args.coded_bands as i32 - i as i32);
        proof {
            lemma_trunc(bal as int, d as int);
        }
        max_i32(0, min_i32(16383, min_i32(args.total_bits - tell, args.shape_bits[i] + bal / d)))
    } else {
        0
    };
    assert(b == env.band_budget(s, i as int));
    let mut low: usize = lowband;
    if m * band_edge(i) - n >= m * band_edge(args.start) && (update || lowband == 0) {
        low = i;
    }
    assert(low == env.lowband_at(s, i as int));
    let folds: bool = low != 0 && (args.spread != Spread::Aggressive || big_b > 1 || args.tf_res[i] < 0);
    assert(folds == env.folds(s, i as int));
    let mut source: Option<usize> = None;
    let mut xm: u32 = pow2_u32(big_b as u32) - 1;
    let mut ym: u32 = pow2_u32(big_b as u32) - 1;
    proof {
        lemma2_to64();
        if big_b < 8 {
            lemma_pow2_strictly_increases(big_b as nat, 8);
        }
        modes::lemma_edges(low as int, i as int);
        math::lemma_mul_range(m as int, 8, modes::edge(low as int), 100);
    }
    if folds {
        let eff: i32 = max_i32(0, m * band_edge(low) - m * band_edge(args.start) - n);
        let from: usize = (eff + m * band_edge(args.start)) as usize;
        proof {
            let e0 = modes::edge(low as int);
            let e1 = modes::edge(i + 1);
            let es = modes::edge(args.start as int);
            let mi = m as int;
            let w = modes::width(i as int);
            modes::lemma_edges(args.start as int, i + 1);
            modes::lemma_edges(low as int, i + 1);
            assert(w * mi == mi * w) by (nonlinear_arith);
            assert(mi * e0 <= mi * e1) by (nonlinear_arith)
                requires
                    e0 <= e1,
                    mi >= 0,
            ;
            assert(mi * es + mi * w <= mi * e1) by (nonlinear_arith)
                requires
                    es + w <= e1,
                    mi >= 0,
            ;
        }
        let (a, e) = fold_range(m as usize, low, from, n as usize, i);
        let (x, y) = fold_masks(masks, channels, a, e);
        xm = x;
        ym = y;
        source = Some(eff as usize);
    }
    proof {
        lemma_or_byte(xm, ym);
    }
    BandStart { n: n as usize, big_b, b, balance: bal, lowband: low, source, xm, ym }
}

/// The shapes of a frame: the plan of each band, the blocks of each band and
/// channel that hold something, and the noise generator after them.
#[derive(Debug)]
pub struct FrameShapes {
    pub plans: Vec<PlannedBand>,
    pub collapse_masks: Vec<u8>,
    pub seed: u32,
}

/// Decodes the shapes of the bands of a frame.
#[verifier::rlimit(60)]
pub fn quant_all_bands(
    dec: &mut RangeDecoder,
    start: usize,
    end: usize,
    stereo: bool,
    shape_bits: &[i32; NB_EBANDS],
    short_blocks: bool,
    spread: Spread,
    dual_stereo: bool,
    intensity: usize,
    tf_res: &[i32; NB_EBANDS],
    total_bits: i32,
    balance: i32,
    lm: usize,
    coded_bands: usize,
    seed: u32,
) -> (r: FrameShapes)
    requires
        old(dec).wf(),
        frame_env(
            start,
            end,
            shape_bits@,
            short_blocks,
            spread,
            intensity,
            tf_res@,
            total_bits,
            lm,
            coded_bands,
            stereo,
        ).wf(),
        dual_stereo ==> stereo,
        -0x400_0000 <= balance <= 0x400_0000,
    ensures
        final(dec).wf(),
        ({
            let env = frame_env(
                start,
                end,
                shape_bits@,
                short_blocks,
                spread,
                intensity,
                tf_res@,
                total_bits,
                lm,
                coded_bands,
                stereo,
            );
            let zeros = Seq::new((21 * env.channels()) as nat, |k: int| 0u8);
            let o = env.run(frame_start(old(dec)@, balance, dual_stereo, seed, zeros), end as int);
            &&& plans_view(r.plans@) == o.plans
            &&& r.collapse_masks@ == o.masks
            &&& r.seed == o.seed
            &&& final(dec)@ == o.dec
        }),
{
    let ghost env = frame_env(
        start,
        end,
        shape_bits@,
        short_blocks,
        spread,
        intensity,
        tf_res@,
        total_bits,
        lm,
        coded_bands,
        stereo,
    );
    let args = FrameArgs {
        start,
        end,
        stereo,
        shape_bits: *shape_bits,
        short_blocks,
        spread,
        intensity,
        tf_res: *tf_res,
        total_bits,
        lm,
        coded_bands,
    };
    let channels: usize = if stereo {
        2
    } else {
        1
    };
    let mut masks: Vec<u8> = vec![0u8; 21 * channels];
    let ghost zeros = Seq::new((21 * env.channels()) as nat, |k: int| 0u8);
    assert(masks@ =~= zeros);
    let ghost first = frame_start(dec@, balance, dual_stereo, seed, zeros);
    let mut plans: Vec<PlannedBand> = Vec::new();
    assert(plans_view(plans@) =~= Seq::<PlannedView>::empty());
    let none: Vec<i32> = Vec::new();
    assert(none@ == Seq::<i32>::empty());
    let mut bal: i32 = balance;
    let mut lowband: usize = 0;
    let mut update: bool = true;
    let mut dual: bool = dual_stereo;
    let mut sd: u32 = seed;
    let mut i: usize = start;
    let ghost mut base: int = 0;
    while i < end
        invariant
            dec.wf(),
            env == args.env(),
            args.start == start,
            args.end == end,
            args.stereo == stereo,
            args.shape_bits@ == shape_bits@,
            args.intensity == intensity,
            args.tf_res@ == tf_res@,
            args.total_bits == total_bits,
            args.lm == lm,
            env.wf(),
            channels == env.channels(),
            none@ == Seq::<i32>::empty(),
            start <= i <= end,
            lowband <= i,
            dual ==> stereo,
            masks@.len() == 21 * channels,
            i == start ==> base == 0,
            0 <= base <= 0x2000_0000,
            -0x400_0000 <= bal - base <= 0x400_0000 + 0x10_0000 * (i - start),
            ({
                let st = env.run(first, i as int);
                &&& st.dec == dec@
                &&& st.balance == bal
                &&& st.lowband == lowband
                &&& st.update == update
                &&& st.dual == dual
                &&& st.seed == sd
                &&& st.masks == masks@
                &&& st.plans == plans_view(plans@)
            }),
        decreases end - i,
    {
        let ghost st = env.run(first, i as int);
        let tell: i32 = dec.tell_frac() as i32;
        let s: BandStart = band_start(&args, i, tell, bal, lowband, update, &masks);
        lowband = s.lowband;
        let n: usize = s.n;
        let b: i32 = s.b;
        let folds: bool = s.source.is_some();
        let merge: bool = dual && i == intensity;
        if merge {
            dual = false;
        }
        let mut ctx = BandCtx {
            i,
            intensity,
            tf_change: tf_res[i],
            remaining_bits: total_bits - tell - 1,
            seed: sd,
        };
        proof {
            assert(st.seen() == (FrameSeen {
                tell: tell as int,
                balance: bal as int,
                lowband: st.lowband,
                update,
                masks: masks@,
            }));
            assert(ctx.env(folds) == (PartEnv {
                i: i as int,
                intensity: env.intensity,
                fold: env.folds(st.seen(), i as int),
            }));
            assert(ctx.state(dec@) == (PartState {
                dec: st.dec,
                remaining: env.total_bits - st.dec.tell_frac() - 1,
                seed: st.seed,
            }));
        }
        let ghost plans0 = plans@;
        let plan: BandPlan;
        let xcm: u32;
        let ycm: u32;
        if dual {
            let (x, cx) = quant_band(&mut ctx, dec, n, b / 2, s.big_b, folds, lm as i32, &none, s.xm);
            let (y, cy) = quant_band(&mut ctx, dec, n, b / 2, s.big_b, folds, lm as i32, &none, s.ym);
            plan = BandPlan::Dual(x, y);
            xcm = cx;
            ycm = cy;
        } else if stereo {
            let (p, c) = quant_band_stereo(&mut ctx, dec, n, b, s.big_b, folds, lm as i32, s.xm | s.ym);
            plan = p;
            xcm = c;
            ycm = c;
        } else {
            let (x, c) = quant_band(&mut ctx, dec, n, b, s.big_b, folds, lm as i32, &none, s.xm | s.ym);
            plan = BandPlan::Mono(x);
            xcm = c;
            ycm = c;
        }
        sd = ctx.seed;
        masks[i * channels] = #[verifier::truncate] (xcm as u8);
        masks[i * channels + channels - 1] = #[verifier::truncate] (ycm as u8);
        bal = s.balance + shape_bits[i] + tell;
        update = b > 8 * n as i32;
        plans.push(PlannedBand { lowband: s.source, merge, plan });
        proof {
            if i == start {
                base = tell as int;
            }
            assert(plans_view(plans@) =~= plans_view(plans0).push(plans@.last()@));
            assert(env.run(first, i + 1) == env.step(st, i as int));
        }
        i = i + 1;
    }
    FrameShapes { plans, collapse_masks: masks, seed: sd }
}

proof fn lemma_trunc(x: int, d: int)
    requires
        1 <= d <= 3,
    ensures
        x >= 0 ==> 0 <= math::div_trunc(x, d) <= x,
        x < 0 ==> x <= math::div_trunc(x, d) <= 0,
{
    if d == 1 {
    } else if d == 2 {
    } else {
    }
}

/// The blocks of a frame divide its bands.
proof fn lemma_whole_blocks(i: int, lm: int, big_b: int)
    requires
        0 <= lm <= 3,
        big_b == 1 || big_b == modes::frame_mult(lm),
    ensures
        codebook::part_len(i, lm) % big_b == 0,
{
    let w = modes::width(i);
    if big_b == 1 {
    } else {
        vstd::arithmetic::div_mod::lemma_mod_multiples_basic(w, big_b);
    }
}

/// A block of a band that got no pulse, and the signs of the noise that fills it.
#[derive(Debug)]
pub struct EmptyBlock {
    pub band: usize,
    pub channel: usize,
    pub block: usize,
    pub signs: Vec<bool>,
}

#[verifier::ext_equal]
pub struct EmptyBlockView {
    pub band: int,
    pub channel: int,
    pub block: int,
    pub signs: Seq<bool>,
}

impl View for EmptyBlock {
    type V = EmptyBlockView;

    open spec fn view(&self) -> EmptyBlockView {
        EmptyBlockView {
            band: self.band as int,
            channel: self.channel as int,
            block: self.block as int,
            signs: self.signs@,
        }
    }
}

/// The views of a list of blocks.
pub open spec fn blocks_view(s: Seq<EmptyBlock>) -> Seq<EmptyBlockView> {
    Seq::new(s.len(), |i: int| s[i]@)
}

/// The empty blocks found so far, and the noise generator after them.
#[verifier::ext_equal]
pub struct EmptyBlocks {
    pub blocks: Seq<EmptyBlockView>,
    pub seed: int,
}

/// Whether a mask says that block `k` got a pulse.
pub open spec fn has_pulse(mask: u8, k: int) -> bool {
    mask as int / pow2(k as nat) as int % 2 == 1
}

/// The empty blocks of the bands below `i`, of the first `c` channels of band `i`,
/// and of the first `k` blocks of its channel `c`.
pub open spec fn empty_blocks(masks: Seq<u8>, start: int, channels: int, lm: int, seed: int, i: int, c: int, k: int) -> EmptyBlocks
    decreases i - start, c, k,
{
    if k > 0 {
        let st = empty_blocks(masks, start, channels, lm, seed, i, c, k - 1);
        if has_pulse(masks[i * channels + c], k - 1) {
            st
        } else {
            let n = modes::width(i) as nat;
            EmptyBlocks {
                blocks: st.blocks.push(
                    EmptyBlockView { band: i, channel: c, block: k - 1, signs: dither(st.seed, n) },
                ),
                seed: lcg_n(st.seed, n),
            }
        }
    } else if c > 0 {
        empty_blocks(masks, start, channels, lm, seed, i, c - 1, modes::frame_mult(lm))
    } else if i > start {
        empty_blocks(masks, start, channels, lm, seed, i - 1, channels, 0)
    } else {
        EmptyBlocks { blocks: Seq::empty(), seed }
    }
}

fn lacks_pulse(mask: u8, k: usize) -> (r: bool)
    requires
        k < 8,
    ensures
        r == !has_pulse(mask, k as int),
{
    let p: u32 = pow2_u32(k as u32);
    (mask as u32 / p) % 2 == 0
}

/// Finds the blocks of a frame that got no pulse, and the noise that fills them.
pub fn anti_collapse(
    masks: &[u8],
    start: usize,
    end: usize,
    channels: usize,
    lm: usize,
    seed: u32,
) -> (r: Vec<EmptyBlock>)
    requires
        start <= end <= 21,
        channels == 1 || channels == 2,
        lm <= 3,
        masks@.len() == 21 * channels,
    ensures
        blocks_view(r@) == empty_blocks(
            masks@,
            start as int,
            channels as int,
            lm as int,
            seed as int,
            end as int,
            0,
            0,
        ).blocks,
{
    let m: usize = modes::frame_multiple(lm) as usize;
    let mut out: Vec<EmptyBlock> = Vec::new();
    let mut s: u32 = seed;
    let mut i: usize = start;
    assert(blocks_view(out@) =~= Seq::empty());
    while i < end
        invariant
            start <= i <= end <= 21,
            channels == 1 || channels == 2,
            lm <= 3,
            m == modes::frame_mult(lm as int),
            masks@.len() == 21 * channels,
            ({
                let e = empty_blocks(masks@, start as int, channels as int, lm as int, seed as int, i as int, 0, 0);
                blocks_view(out@) == e.blocks && s == e.seed
            }),
        decreases end - i,
    {
        proof {
            modes::lemma_width(i as int);
        }
        let n: usize = modes::band_width(i) as usize;
        let mut c: usize = 0;
        while c < channels
            invariant
                start <= i < end <= 21,
                c <= channels,
                channels == 1 || channels == 2,
                lm <= 3,
                m == modes::frame_mult(lm as int),
                n == modes::width(i as int),
                n <= 22,
                masks@.len() == 21 * channels,
                ({
                    let e = empty_blocks(
                        masks@,
                        start as int,
                        channels as int,
                        lm as int,
                        seed as int,
                        i as int,
                        c as int,
                        0,
                    );
                    blocks_view(out@) == e.blocks && s == e.seed
                }),
            decreases channels - c,
        {
            assert(i * channels + c < 21 * channels) by (nonlinear_arith)
                requires
                    i < 21,
                    c < channels,
            ;
            assert(0 <= i * channels) by (nonlinear_arith);
            let mask: u8 = masks[i * channels + c];
            let mut k: usize = 0;
            while k < m
                invariant
                    start <= i < end <= 21,
                    c < channels,
                    k <= m,
                    lm <= 3,
                    m == modes::frame_mult(lm as int),
                    n == modes::width(i as int),
                    n <= 22,
                    mask == masks@[i * channels + c],
                    ({
                        let e = empty_blocks(
                            masks@,
                            start as int,
                            channels as int,
                            lm as int,
                            seed as int,
                            i as int,
                            c as int,
                            k as int,
                        );
                        blocks_view(out@) == e.blocks && s == e.seed
                    }),
                decreases m - k,
            {
                if lacks_pulse(mask, k) {
                    let (_, signs, next) = run_noise(s, n);
                    let ghost before = out@;
                    out.push(EmptyBlock { band: i, channel: c, block: k, signs });
                    assert(blocks_view(out@) =~= blocks_view(before).push(out@.last()@));
                    s = next;
                }
                k = k + 1;
            }
            c = c + 1;
        }
        i = i + 1;
    }
    out
}

/// The depth of a band in eighths of a bit for each value, which the noise of its
/// empty blocks is held to.
pub fn band_depth(bits: i32, width: usize, lm: usize) -> (r: i32)
    requires
        -1 <= bits < i32::MAX,
        1 <= width <= 22,
        lm <= 3,
    ensures
        r == (1 + bits) / (width * modes::frame_mult(lm as int)),
{
    let m: usize = modes::frame_multiple(lm) as usize;
    proof {
        math::lemma_mul_range(width as int, 22, m as int, 8);
        assert(width * m >= 1) by (nonlinear_arith)
            requires
                width >= 1,
                m >= 1,
        ;
    }
    (1 + bits) / (width * m) as i32
}

} // verus!
