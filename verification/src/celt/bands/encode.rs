//! Writing band shapes.
//!
//! The same recursion as in reading them: what it does not derive from the budget, the
//! signal decides. Each function says that the decoder, where it stands as the encoder
//! stood, reads what was written.

use vstd::arithmetic::power2::lemma2_to64;
use vstd::prelude::*;

use crate::celt::angle::{
    self, lemma_even_product, lemma_tri_root, split_at, split_levels, BandCtx, SplitCtx, SplitPlace,
};
use crate::celt::bands::{
    self, band_start, copy_gains, cut_band, fill_leaf, join_mask, lemma_fill_bound, lemma_part_len, lemma_vector_of, mask_delta, mid_share, pay_level, push_leaf,
    rebalance, with_gain, BandPlan, BandPlanView, BandShape, BandShapeView, BandStart, FrameArgs, FrameEnv, FrameSeen,
    FrameShapes, FrameState, Halves, Leaf, LeafKind, LeafKindView, LeafView, PartEnv, PartState, PlannedBand,
    PlannedView, Reshape,
};
use crate::celt::codebook::{self, lemma_levels_codable};
use crate::celt::cwrs::{self, lemma_index_bound};
use crate::celt::modes::{self, NB_EBANDS};
use crate::celt::rate::{self, cache_max_bits, get_pulses};
use crate::celt::search::alg_quant;
use crate::celt::vq::Spread;
use crate::math::{self, max_i32, min_i32};
use crate::range::decoder::DecoderState;
use crate::range::encoder::EncoderState;
use crate::range::symbols::{self, lemma_mate, lemma_mate_tell, lemma_symbol, lemma_symbol_bits, Symbol};
use crate::range::RangeEncoder;

verus! {

/// A signal that a band holds: one of the channels, or their sum or difference.
#[derive(Clone, Copy, Debug, PartialEq, Eq)]
pub enum Channel {
    First,
    Second,
    /// The only channel of a mono band.
    Mono,
    Mid,
    Side,
}

/// A signal of a band and how it is cut in time.
#[derive(Clone, Copy, Debug)]
pub struct Place {
    pub band: usize,
    pub channel: Channel,
    pub cut: Reshape,
}

/// What the two channels of a band are turned into before they are coded.
#[derive(Clone, Copy, Debug, PartialEq, Eq)]
pub enum Image {
    /// One signal for both; the second channel is its negative where `inverted`.
    Intensity { inverted: bool },
    /// Their sum and their difference.
    MidSide,
}

/// A question to the signal behind a frame, with its answer, or something that it was
/// told.
pub enum Exchange {
    Angle { at: Place, offset: int, half: int, angle: i32 },
    Pulses { at: Place, offset: int, len: int, blocks: int, count: int, pulses: Seq<i32> },
    Sign { band: int, channel: Channel, negative: bool },
    StereoAngle { band: int, angle: i32 },
    Combined { band: int, image: Image },
    Negated { band: int, swapped: bool, negated: bool },
    CoarseStep { band: int, ch: int, step: i32 },
    CoarseCoded { band: int, ch: int, step: i32 },
    FineValues { fine_quant: Seq<i32>, values: Seq<u32> },
    LastBits { bits: Seq<bool> },
}

/// What was asked of a signal and told to it, in order.
pub type Talk = Seq<Exchange>;

/// The signal behind the band shapes. Angles lie between 0 (all energy in the first
/// part) and 16384 (all in the second). An answer that cannot be coded is replaced by
/// one that can: the nearest angle, or all pulses on the first value.
pub trait ShapeSource {
    /// What was asked and told so far: a history that contracts speak of and that no
    /// program asks for, so that nothing of it need be stored.
    spec fn talk(&self) -> Talk;

    /// The angle between the halves of a part of `2 * half` values.
    fn angle(&mut self, at: Place, offset: usize, half: usize) -> (r: i32)
        ensures
            final(self).talk() == old(self).talk().push(
                Exchange::Angle { at, offset: offset as int, half: half as int, angle: r },
            ),
    ;

    /// The pulses, `count` in all, of a part of `len` values in `blocks` blocks.
    fn pulses(&mut self, at: Place, offset: usize, len: usize, blocks: usize, count: usize) -> (r: Vec<i32>)
        ensures
            final(self).talk() == old(self).talk().push(
                Exchange::Pulses {
                    at,
                    offset: offset as int,
                    len: len as int,
                    blocks: blocks as int,
                    count: count as int,
                    pulses: r@,
                },
            ),
    ;

    /// Whether the only value of a band is negative.
    fn sign(&mut self, band: usize, channel: Channel) -> (r: bool)
        ensures
            final(self).talk() == old(self).talk().push(Exchange::Sign { band: band as int, channel, negative: r }),
    ;

    /// The angle between the channels of a band.
    fn stereo_angle(&mut self, band: usize) -> (r: i32)
        ensures
            final(self).talk() == old(self).talk().push(Exchange::StereoAngle { band: band as int, angle: r }),
    ;

    /// Turns the channels of a band into its image.
    fn combine(&mut self, band: usize, image: Image)
        ensures
            final(self).talk() == old(self).talk().push(Exchange::Combined { band: band as int, image }),
    ;

    /// Whether the quieter of two signals of two values is negated.
    fn negated(&mut self, band: usize, swapped: bool) -> (r: bool)
        ensures
            final(self).talk() == old(self).talk().push(Exchange::Negated { band: band as int, swapped, negated: r }),
    ;
}

/// A choice of the encoder, as the decoder reads it.
pub enum Choice {
    /// One of `qn` steps between two halves.
    Angle { at: Place, offset: int, half: int, qn: int, itheta: int },
    Pulses { at: Place, offset: int, len: int, blocks: int, count: int, pulses: Seq<i32> },
    /// Positive where no bit is left for it.
    Sign { band: int, channel: Channel, coded: bool, negative: bool },
    /// One of `qn` steps between two channels; for a single step, whether the second
    /// channel is inverted, where that is `flagged`.
    StereoAngle { band: int, qn: int, itheta: int, flagged: bool, inverted: bool },
    Combined { band: int, image: Image },
    Negated { band: int, swapped: bool, negated: bool },
}

/// The pulses that are coded for `y`: `y` where it has `n` values and `k` pulses, else
/// all of them on the first value.
pub open spec fn coded_vector_of(y: Seq<i32>, n: int, k: int) -> Seq<i32> {
    if y.len() == n && cwrs::pulses(y) == k {
        y
    } else {
        Seq::new(
            n as nat,
            |j: int|
                if j == 0 {
                    k as i32
                } else {
                    0i32
                },
        )
    }
}

impl Exchange {
    /// Whether a choice is the one that the signal's answer comes to.
    pub open spec fn decides(self, c: Choice) -> bool {
        match c {
            Choice::Angle { at, offset, half, qn, itheta } => match self {
                Exchange::Angle { at: at1, offset: offset1, half: half1, angle } => {
                    &&& at1 == at
                    &&& offset1 == offset
                    &&& half1 == half
                    &&& itheta == nearest_step_of(angle as int, qn) * 16384 / qn
                },
                _ => false,
            },
            Choice::Pulses { at, offset, len, blocks, count, pulses } => match self {
                Exchange::Pulses { at: at1, offset: offset1, len: len1, blocks: blocks1, count: count1, pulses: y } => {
                    &&& at1 == at
                    &&& offset1 == offset
                    &&& len1 == len
                    &&& blocks1 == blocks
                    &&& count1 == count
                    &&& pulses == coded_vector_of(y, len, count)
                },
                _ => false,
            },
            Choice::Sign { band, channel, coded, negative } => match self {
                Exchange::Sign { band: band1, channel: channel1, negative: negative1 } => {
                    &&& band1 == band
                    &&& channel1 == channel
                    &&& negative == (coded && negative1)
                },
                _ => false,
            },
            Choice::StereoAngle { band, qn, itheta, flagged, inverted } => match self {
                Exchange::StereoAngle { band: band1, angle } => {
                    &&& band1 == band
                    &&& itheta == if qn == 1 {
                        0
                    } else {
                        nearest_step_of(angle as int, qn) * 16384 / qn
                    }
                    &&& inverted == (flagged && angle > 8192)
                },
                _ => false,
            },
            Choice::Combined { band, image } => self == (Exchange::Combined { band, image }),
            Choice::Negated { band, swapped, negated } => self == (Exchange::Negated { band, swapped, negated }),
        }
    }
}

/// Whether the choices are those that the answers come to, one by one.
pub open spec fn follows(choices: Seq<Choice>, said: Seq<Exchange>) -> bool {
    &&& choices.len() == said.len()
    &&& forall|j: int| 0 <= j < said.len() ==> (#[trigger] said[j]).decides(choices[j])
}

/// What was said between two points of a talk.
pub open spec fn since(before: Seq<Exchange>, after: Seq<Exchange>) -> Seq<Exchange> {
    after.skip(before.len() as int)
}

/// What was said over two stretches of a talk is what was said in one and then the other.
pub proof fn lemma_since(a: Seq<Exchange>, b: Seq<Exchange>, c: Seq<Exchange>)
    requires
        a.is_prefix_of(b),
        b.is_prefix_of(c),
    ensures
        a.is_prefix_of(c),
        since(a, c) == since(a, b) + since(b, c),
{
    assert(a =~= c.subrange(0, a.len() as int)) by {
        assert forall|j: int| 0 <= j < a.len() implies a[j] == c[j] by {
            assert(a[j] == b.subrange(0, a.len() as int)[j]);
            assert(b[j] == c.subrange(0, b.len() as int)[j]);
        }
    }
    assert(since(a, c) =~= since(a, b) + since(b, c)) by {
        assert forall|j: int| 0 <= j < b.len() implies b[j] == c[j] by {
            assert(b[j] == c.subrange(0, b.len() as int)[j]);
        }
    }
}

/// One more exchange is all that was said since.
pub proof fn lemma_said(a: Seq<Exchange>, x: Exchange)
    ensures
        a.is_prefix_of(a.push(x)),
        since(a, a.push(x)) == seq![x],
{
    assert(a =~= a.push(x).subrange(0, a.len() as int));
    assert(since(a, a.push(x)) =~= seq![x]);
}

/// Nothing is said between a point and itself.
pub proof fn lemma_silence(a: Seq<Exchange>)
    ensures
        a.is_prefix_of(a),
        since(a, a) == Seq::<Exchange>::empty(),
{
    assert(a =~= a.subrange(0, a.len() as int));
    assert(since(a, a) =~= Seq::<Exchange>::empty());
}

/// Choices that follow what was said follow it in sequence.
pub proof fn lemma_follows(c1: Seq<Choice>, s1: Seq<Exchange>, c2: Seq<Choice>, s2: Seq<Exchange>)
    requires
        follows(c1, s1),
        follows(c2, s2),
    ensures
        follows(c1 + c2, s1 + s2),
{
    let c = c1 + c2;
    let s = s1 + s2;
    assert forall|j: int| 0 <= j < s.len() implies (#[trigger] s[j]).decides(c[j]) by {
        if j < s1.len() {
            assert(s1[j].decides(c1[j]));
        } else {
            assert(s2[j - s1.len()].decides(c2[j - s1.len()]));
        }
    }
}

/// Where step `x` of an angle starts in the triangle distribution.
pub open spec fn triangle_start(qn: int, x: int) -> int {
    if x < qn / 2 {
        x * (x + 1) / 2
    } else {
        angle::triangle_total(qn) - (qn + 1 - x) * (qn + 2 - x) / 2
    }
}

/// How much of the triangle distribution step `x` takes.
pub open spec fn triangle_count(qn: int, x: int) -> int {
    if x < qn / 2 {
        x + 1
    } else {
        qn + 1 - x
    }
}

/// The decoder finds the step of the triangle distribution whose part holds a
/// frequency.
proof fn lemma_triangle_inverse(qn: int, x: int, fm: int)
    requires
        2 <= qn <= 256,
        qn % 2 == 0,
        0 <= x <= qn,
    ensures
        0 <= triangle_start(qn, x) < triangle_start(qn, x) + triangle_count(qn, x) <= angle::triangle_total(qn)
            <= 0x1_0000,
        triangle_start(qn, x) <= fm < triangle_start(qn, x) + triangle_count(qn, x) ==> {
            &&& angle::triangle_symbol(qn, fm) == x
            &&& angle::triangle_low(qn, fm) == triangle_start(qn, x)
            &&& angle::triangle_size(qn, fm) == triangle_count(qn, x)
        },
{
    let half = qn / 2;
    let total = angle::triangle_total(qn);
    let inside = triangle_start(qn, x) <= fm < triangle_start(qn, x) + triangle_count(qn, x);
    assert((half + 1) * (half + 1) <= 129 * 129) by (nonlinear_arith)
        requires
            0 <= half <= 128,
    ;
    lemma_even_product(half);
    assert((half + 1) * (half + 1) == half * (half + 1) + (half + 1)) by (nonlinear_arith);
    assert(half * (half + 1) >= 0) by (nonlinear_arith)
        requires
            half >= 0,
    ;
    if x < half {
        lemma_even_product(x);
        assert((x + 1) * (x + 2) == x * (x + 1) + 2 * (x + 1)) by (nonlinear_arith);
        assert((x + 1) * (x + 2) <= half * (half + 1)) by (nonlinear_arith)
            requires
                0 <= x + 1 <= half,
        ;
        assert(x * (x + 1) >= 0) by (nonlinear_arith)
            requires
                x >= 0,
        ;
        if inside {
            lemma_tri_root(fm, 0, x);
        }
    } else {
        let u = qn - x;
        lemma_even_product(u);
        assert((u + 1) * (u + 2) == u * (u + 1) + 2 * (u + 1)) by (nonlinear_arith);
        assert((u + 1) * (u + 2) <= (half + 1) * (half + 2)) by (nonlinear_arith)
            requires
                0 <= u <= half,
        ;
        assert((half + 1) * (half + 2) == half * (half + 1) + 2 * (half + 1)) by (nonlinear_arith);
        assert(u * (u + 1) >= 0) by (nonlinear_arith)
            requires
                u >= 0,
        ;
        if inside {
            lemma_tri_root(total - fm - 1, 0, u);
        }
    }
}

/// The symbol of step `x` of an angle of `qn` steps.
pub open spec fn angle_part(qn: int, n: int, b0: int, stereo: bool, x: int) -> Symbol {
    if angle::uses_step(n, stereo) {
        Symbol::Part {
            fl: angle::step_low(qn, x),
            fh: angle::step_low(qn, x) + angle::step_size(qn, x),
            ft: angle::step_total(qn),
        }
    } else if b0 > 1 || stereo {
        Symbol::Uniform { v: x, ft: qn + 1 }
    } else {
        Symbol::Part {
            fl: triangle_start(qn, x),
            fh: triangle_start(qn, x) + triangle_count(qn, x),
            ft: angle::triangle_total(qn),
        }
    }
}

/// The decoder reads the step of an angle that was written.
pub proof fn lemma_angle_round_trip(
    e: EncoderState,
    d: DecoderState,
    qn: int,
    n: int,
    b0: int,
    stereo: bool,
    x: int,
    whole: Seq<bool>,
)
    requires
        symbols::agrees(e, d),
        e.wf(),
        2 <= qn <= 256,
        qn % 2 == 0,
        0 <= x <= qn,
    ensures
        ({
            let s = angle_part(qn, n, b0, stereo, x);
            &&& s.legal()
            &&& s.put(e).wf()
            &&& symbols::leads_to(s.put(e), d.data, whole) ==> {
                &&& symbols::leads_to(e, d.data, whole)
                &&& angle::angle_symbol(d, qn, n, b0, stereo) == x
                &&& symbols::agrees(s.put(e), angle::after_angle(d, qn, n, b0, stereo))
                &&& angle::after_angle(d, qn, n, b0, stereo).data == d.data
            }
        }),
{
    let s = angle_part(qn, n, b0, stereo, x);
    if angle::uses_step(n, stereo) {
    } else if b0 > 1 || stereo {
    } else {
        lemma_triangle_inverse(qn, x, d.freq(angle::triangle_total(qn)));
    }
    lemma_symbol(e, d, s, whole);
}

/// Writes step `x` of an angle of `qn` steps.
fn encode_angle(enc: &mut RangeEncoder, qn: i32, n: usize, b0: usize, stereo: bool, x: i32)
    requires
        old(enc).wf(),
        2 <= qn <= 256,
        qn % 2 == 0,
        0 <= x <= qn,
    ensures
        final(enc).wf(),
        final(enc)@.wf(),
        final(enc)@.size == old(enc)@.size,
        final(enc)@ == angle_part(qn as int, n as int, b0 as int, stereo, x as int).put(old(enc)@),
{
    if stereo && n > 2 {
        let x0: i32 = qn / 2;
        let ft: u32 = (3 * (x0 + 1) + x0) as u32;
        if x <= x0 {
            enc.encode((3 * x) as u32, (3 * x + 3) as u32, ft);
        } else {
            let fl: i32 = x - 1 - x0 + 3 * (x0 + 1);
            enc.encode(fl as u32, (fl + 1) as u32, ft);
        }
    } else if b0 > 1 || stereo {
        enc.encode_uint(x as u32, qn as u32 + 1);
    } else {
        let half: i32 = qn / 2;
        proof {
            lemma_triangle_inverse(qn as int, x as int, 0);
            let h = half as int;
            assert((h + 1) * (h + 1) <= 129 * 129) by (nonlinear_arith)
                requires
                    0 <= h <= 128,
            ;
        }
        let ft: u32 = ((half + 1) * (half + 1)) as u32;
        if x < half {
            proof {
                let k = x as int;
                assert(0 <= k * (k + 1) <= 128 * 129) by (nonlinear_arith)
                    requires
                        0 <= k < 128,
                ;
            }
            let fl: u32 = (x * (x + 1) / 2) as u32;
            enc.encode(fl, fl + (x + 1) as u32, ft);
        } else {
            let u: i32 = qn - x;
            proof {
                let k = u as int;
                assert(0 <= (k + 1) * (k + 2) <= 129 * 130) by (nonlinear_arith)
                    requires
                        0 <= k <= 128,
                ;
            }
            let below: u32 = ((u + 1) * (u + 2) / 2) as u32;
            let fl: u32 = ft - below;
            enc.encode(fl, fl + (u + 1) as u32, ft);
        }
    }
}

/// The decoder reads a split `s` between two states of the encoder.
pub open spec fn theta_written(
    e0: EncoderState,
    e1: EncoderState,
    at: SplitPlace,
    n: int,
    b: int,
    b0: int,
    lm: int,
    stereo: bool,
    s: SplitCtx,
) -> bool {
    forall|data: Seq<u8>, whole: Seq<bool>| #[trigger]
        symbols::leads_to(e1, data, whole) ==> {
            let t = angle::theta(symbols::mate(e0, data), at, n, b, b0, lm, stereo);
            &&& symbols::leads_to(e0, data, whole)
            &&& s.inv == t.inv
            &&& s.itheta == t.itheta
            &&& s.qalloc == t.qalloc
            &&& t.dec == symbols::mate(e1, data)
        }
}

/// Writes the angle that splits a partition in two: step `x` of its `qn` steps, or
/// the flag `inv` where there is one; takes what that cost off `b` and narrows the
/// blocks in `fill`.
pub fn encode_theta(
    ctx: &BandCtx,
    enc: &mut RangeEncoder,
    n: usize,
    b: &mut i32,
    big_b: usize,
    b0: usize,
    lm: i32,
    stereo: bool,
    fill: &mut u32,
    qn: i32,
    x: i32,
    inv: bool,
) -> (r: SplitCtx)
    requires
        old(enc).wf(),
        ctx.i < 21,
        2 <= n <= 176,
        -0x400_0000 <= *old(b) <= 0x400_0000,
        1 <= big_b <= 16,
        -1 <= lm <= 3,
        qn == angle::theta_levels(ctx.place(), n as int, *old(b) as int, lm as int, stereo),
        1 <= qn <= 256,
        qn != 1 ==> qn % 2 == 0,
        0 <= x <= qn,
    ensures
        final(enc).wf(),
        final(enc)@.wf(),
        final(enc)@.size == old(enc)@.size,
        theta_written(
            old(enc)@,
            final(enc)@,
            ctx.place(),
            n as int,
            *old(b) as int,
            b0 as int,
            lm as int,
            stereo,
            r,
        ),
        r.inv == (inv && qn == 1 && stereo && *old(b) > 16 && ctx.remaining_bits > 16),
        r.itheta == if qn == 1 {
            0
        } else {
            x * 16384 / qn as int
        },
        r.imid == angle::theta_mid(r.itheta as int),
        r.iside == angle::theta_side(r.itheta as int),
        r.delta == angle::theta_delta(n as int, r.itheta as int),
        *final(fill) == angle::theta_fill(*old(fill), big_b as int, r.itheta as int),
        *final(b) == *old(b) - r.qalloc,
        0 <= r.itheta <= 16384,
        -71 <= r.qalloc <= 500,
        -32768 <= r.delta <= 32768,
        -32768 <= r.imid <= 32767,
        -32768 <= r.iside <= 32767,
{
    proof {
        enc.lemma_wf();
    }
    let tell: i32 = enc.tell_frac() as i32;
    let ghost e0 = enc@;
    let mut step: i32 = 0;
    let mut flag: bool = false;
    let ghost s = if qn != 1 {
        angle_part(qn as int, n as int, b0 as int, stereo, x as int)
    } else {
        Symbol::Bit { bit: inv, logp: 2 }
    };
    proof {
        if qn != 1 {
            let none = Seq::<u8>::empty();
            lemma_angle_round_trip(
                e0,
                symbols::mate(e0, none),
                qn as int,
                n as int,
                b0 as int,
                stereo,
                x as int,
                Seq::empty(),
            );
        }
        lemma_symbol_bits(e0, s);
    }
    if qn != 1 {
        encode_angle(enc, qn, n, b0, stereo, x);
        step = x;
    } else if stereo {
        if *b > 16 && ctx.remaining_bits > 16 {
            enc.encode_bit_logp(inv, 2);
            flag = inv;
        }
    }
    let qalloc: i32 = enc.tell_frac() as i32 - tell;
    let ghost b1 = *b as int;
    *b = *b - qalloc;
    let r: SplitCtx = split_at(flag, qn, step, qalloc, n, big_b, fill);
    proof {
        let e1 = enc@;
        assert forall|data: Seq<u8>, whole: Seq<bool>| #[trigger]
            symbols::leads_to(e1, data, whole) implies {
            let t = angle::theta(
                symbols::mate(e0, data),
                ctx.place(),
                n as int,
                b1,
                b0 as int,
                lm as int,
                stereo,
            );
            &&& symbols::leads_to(e0, data, whole)
            &&& r.inv == t.inv
            &&& r.itheta == t.itheta
            &&& r.qalloc == t.qalloc
            &&& t.dec == symbols::mate(e1, data)
        } by {
            reveal(angle::theta);
            let d = symbols::mate(e0, data);
            lemma_mate_tell(e0, data);
            lemma_mate_tell(e1, data);
            if qn != 1 {
                lemma_angle_round_trip(e0, d, qn as int, n as int, b0 as int, stereo, x as int, whole);
                assert(angle::after_angle(d, qn as int, n as int, b0 as int, stereo) =~= symbols::mate(e1, data));
            } else {
                lemma_mate(e0, data, s, whole);
            }
        }
    }
    r
}

/// The step, of `qn`, that is nearest to an angle.
pub open spec fn nearest_step_of(angle: int, qn: int) -> int {
    (math::max(0, math::min(angle, 16384)) * qn + 8192) / 16384
}

/// The step, of `qn`, that is nearest to an angle.
pub fn nearest_step(angle: i32, qn: i32) -> (r: i32)
    requires
        1 <= qn <= 256,
    ensures
        r == nearest_step_of(angle as int, qn as int),
        0 <= r <= qn,
{
    let a: i32 = max_i32(0, min_i32(angle, 16384));
    proof {
        let x = a as int;
        let q = qn as int;
        assert(0 <= x * q <= 16384 * q) by (nonlinear_arith)
            requires
                0 <= x <= 16384,
                q >= 0,
        ;
    }
    (a * qn + 8192) / 16384
}

proof fn lemma_still(y: Seq<i32>)
    requires
        forall|i: int| 0 <= i < y.len() ==> y[i] == 0,
    ensures
        cwrs::pulses(y) == 0,
    decreases y.len(),
{
    if y.len() > 0 {
        lemma_still(y.drop_first());
    }
}

/// Whether `y` is a vector of `n` values with `k` pulses.
fn holds_pulses(y: &Vec<i32>, n: usize, k: usize) -> (r: bool)
    requires
        n <= 176,
    ensures
        r == (y@.len() == n && cwrs::pulses(y@) == k),
{
    if y.len() != n {
        return false;
    }
    let mut total: u64 = 0;
    let mut i: usize = n;
    assert(y@.skip(n as int).len() == 0);
    while i > 0
        invariant
            i <= n <= 176,
            y@.len() == n,
            total == cwrs::pulses(y@.skip(i as int)),
            total <= (n - i) * 0x8000_0000,
        decreases i,
    {
        i = i - 1;
        let v: i64 = y[i] as i64;
        assert(y@.skip(i as int).drop_first() =~= y@.skip(i + 1));
        total = total + (if v < 0 {
            (0 - v) as u64
        } else {
            v as u64
        });
    }
    assert(y@.skip(0) =~= y@);
    total == k as u64
}

/// A vector of `n` values with `k` pulses: `y` where it is one.
fn coded_vector(y: Vec<i32>, n: usize, k: usize) -> (r: Vec<i32>)
    requires
        1 <= n <= 176,
        k <= i32::MAX,
    ensures
        r@ == coded_vector_of(y@, n as int, k as int),
        r@.len() == n,
        cwrs::pulses(r@) == k,
{
    if holds_pulses(&y, n, k) {
        y
    } else {
        let mut r: Vec<i32> = vec![0i32; n];
        r[0] = k as i32;
        proof {
            lemma_still(r@.drop_first());
            assert(r@ =~= coded_vector_of(y@, n as int, k as int));
        }
        r
    }
}

/// The choice in a partition that is not split: its pulses, where any are affordable.
pub open spec fn leaf_choices(
    env: PartEnv,
    st: PartState,
    at: Place,
    n: int,
    offset: int,
    b: int,
    big_b: int,
    lm: int,
    gains: Seq<i32>,
    fill: u32,
) -> Seq<Choice> {
    let q = bands::affordable(env.i, lm, rate::nearest_level(env.i, lm, b), st.remaining);
    if q != 0 {
        seq![
            Choice::Pulses {
                at,
                offset,
                len: n,
                blocks: big_b,
                count: rate::level_pulses(q),
                pulses: match bands::leaf(env, st, n, offset, b, big_b, lm, gains, fill).leaves[0].kind {
                    LeafKindView::Pulses(y) => y,
                    _ => Seq::empty(),
                },
            },
        ]
    } else {
        Seq::empty()
    }
}

/// The choice of the angle that splits a partition, where it has more than one step.
pub open spec fn split_choices(
    env: PartEnv,
    st: PartState,
    at: Place,
    n: int,
    offset: int,
    b: int,
    big_b: int,
    lm: int,
    fill: u32,
) -> Seq<Choice> {
    let place = SplitPlace { i: env.i, intensity: env.intensity, remaining: st.remaining };
    let qn = angle::theta_levels(place, n / 2, b, lm - 1, false);
    if qn != 1 {
        let itheta = bands::split_plan(env, st, n, b, big_b, lm, fill).itheta;
        seq![Choice::Angle { at, offset, half: n / 2, qn, itheta }]
    } else {
        Seq::empty()
    }
}

/// The choices in a partition, in the order of the stream.
pub open spec fn part_choices(
    env: PartEnv,
    st: PartState,
    at: Place,
    n: int,
    offset: int,
    b: int,
    big_b: int,
    lm: int,
    gains: Seq<i32>,
    fill: u32,
) -> Seq<Choice>
    decreases lm + 1,
{
    if lm > -1 && bands::is_split(env.i, lm, n, b) {
        let half = n / 2;
        let blocks = (big_b + 1) / 2;
        let p = bands::split_plan(env, st, n, b, big_b, lm, fill);
        let mgains = gains.push(p.mid);
        let sgains = gains.push(p.side);
        let sfill = p.fill >> (blocks as u32);
        let first = split_choices(env, st, at, n, offset, b, big_b, lm, fill);
        if p.mbits >= p.sbits {
            let m = bands::partition(env, p.st, half, offset, p.mbits, blocks, lm - 1, mgains, p.fill);
            let s2 = bands::rebalanced(p.sbits, p.mbits, p.st.remaining, m.st.remaining, p.itheta == 0);
            first + part_choices(env, p.st, at, half, offset, p.mbits, blocks, lm - 1, mgains, p.fill) + part_choices(
                env,
                m.st,
                at,
                half,
                offset + half,
                s2,
                blocks,
                lm - 1,
                sgains,
                sfill,
            )
        } else {
            let s = bands::partition(env, p.st, half, offset + half, p.sbits, blocks, lm - 1, sgains, sfill);
            let m2 = bands::rebalanced(p.mbits, p.sbits, p.st.remaining, s.st.remaining, p.itheta == 16384);
            first + part_choices(env, p.st, at, half, offset + half, p.sbits, blocks, lm - 1, sgains, sfill)
                + part_choices(env, s.st, at, half, offset, m2, blocks, lm - 1, mgains, p.fill)
        }
    } else {
        leaf_choices(env, st, at, n, offset, b, big_b, lm, gains, fill)
    }
}

/// Writes a partition that is not split: the pulses that the signal has, where any
/// are affordable.
fn encode_leaf<S: ShapeSource>(
    ctx: &mut BandCtx,
    enc: &mut RangeEncoder,
    src: &mut S,
    at: Place,
    n: usize,
    offset: usize,
    b: i32,
    big_b: usize,
    fold: bool,
    lm: i32,
    gains: &Vec<i32>,
    fill: u32,
    out: &mut Vec<Leaf>,
) -> (cm: u32)
    requires
        old(enc).wf(),
        old(ctx).i < 21,
        -1 <= lm <= 3,
        n == codebook::part_len(old(ctx).i as int, lm as int),
        2 <= n,
        -0x200_0000 <= b <= 0x200_0000,
        1 <= big_b <= 16,
        big_b <= n,
        -0x3000_0000 <= old(ctx).remaining_bits <= 0x3000_0000,
    ensures
        final(enc).wf(),
        final(enc)@.wf(),
        final(enc)@.size == old(enc)@.size,
        forall|data: Seq<u8>, whole: Seq<bool>| #[trigger]
            symbols::leads_to(final(enc)@, data, whole) ==> {
                let st = old(ctx).state(symbols::mate(old(enc)@, data));
                let r = bands::leaf(
                    old(ctx).env(fold),
                    st,
                    n as int,
                    offset as int,
                    b as int,
                    big_b as int,
                    lm as int,
                    gains@,
                    fill,
                );
                &&& symbols::leads_to(old(enc)@, data, whole)
                &&& bands::leaves_view(final(out)@).skip(old(out)@.len() as int) == r.leaves
                &&& cm == r.cm
                &&& final(ctx).state(symbols::mate(final(enc)@, data)) == r.st
                &&& follows(
                    leaf_choices(
                        old(ctx).env(fold),
                        st,
                        at,
                        n as int,
                        offset as int,
                        b as int,
                        big_b as int,
                        lm as int,
                        gains@,
                        fill,
                    ),
                    since(old(src).talk(), final(src).talk()),
                )
            },
        old(src).talk().is_prefix_of(final(src).talk()),
        bands::leaves_view(old(out)@).is_prefix_of(bands::leaves_view(final(out)@)),
        final(ctx).i == old(ctx).i,
        final(ctx).intensity == old(ctx).intensity,
        final(ctx).tf_change == old(ctx).tf_change,
        old(ctx).remaining_bits - 300 <= final(ctx).remaining_bits <= old(ctx).remaining_bits,
{
    proof {
        enc.lemma_wf();
    }
    let ghost e0 = enc@;
    proof {
        reveal(bands::leaf);
        lemma_part_len(ctx.i as int, lm as int);
        rate::lemma_cache(ctx.i as int, lm as int);
    }
    let q: i32 = pay_level(ctx, b, lm);
    if q != 0 {
        let k: usize = get_pulses(q) as usize;
        proof {
            lemma_levels_codable(ctx.i as int, lm as int, q as int);
        }
        let ghost talk = src.talk();
        let y: Vec<i32> = coded_vector(src.pulses(at, offset, n, big_b, k), n, k);
        let cm: u32 = alg_quant(enc, &y, k, big_b);
        let ghost ys = y@;
        proof {
            lemma_said(talk, src.talk().last());
            let size = cwrs::v(n as nat, k as nat) as int;
            let s = Symbol::Uniform { v: cwrs::index_of(ys) as int, ft: size };
            lemma_index_bound(ys);
            cwrs::lemma_u_positive(n as nat, k as nat);
            cwrs::lemma_u_positive(n as nat, (k + 1) as nat);
            lemma_vector_of(ys);
            lemma_mate(e0, Seq::empty(), s, Seq::empty());
            assert forall|data: Seq<u8>, whole: Seq<bool>| #[trigger]
                symbols::leads_to(enc@, data, whole) implies {
                let d = symbols::mate(e0, data);
                &&& symbols::leads_to(e0, data, whole)
                &&& d.uint(size) == cwrs::index_of(ys)
                &&& d.after_uint(size) == symbols::mate(enc@, data)
            } by {
                lemma_mate(e0, data, s, whole);
            }
        }
        push_leaf(out, Leaf { offset, len: n, blocks: big_b, gains: copy_gains(gains), kind: LeafKind::Pulses(y) });
        cm
    } else {
        let ghost ctx0 = *ctx;
        let cm: u32 = fill_leaf(ctx, n, offset, big_b, fold, gains, fill, out);
        proof {
            lemma_silence(src.talk());
            assert forall|data: Seq<u8>, whole: Seq<bool>| #[trigger]
                symbols::leads_to(enc@, data, whole) implies ctx0.state(symbols::mate(e0, data)).dec
                == symbols::mate(e0, data) by {}
        }
        cm
    }
}

/// Writes the angle of a split and divides the bits.
fn encode_split<S: ShapeSource>(
    ctx: &mut BandCtx,
    enc: &mut RangeEncoder,
    src: &mut S,
    at: Place,
    n: usize,
    offset: usize,
    b: i32,
    big_b: usize,
    lm: i32,
    fill: u32,
    Ghost(fold): Ghost<bool>,
) -> (r: Halves)
    requires
        old(enc).wf(),
        old(ctx).i < 21,
        0 <= lm <= 3,
        4 <= n <= 176,
        -bands::part_limit(lm as int) <= b <= bands::part_limit(lm as int),
        1 <= big_b <= 16,
        -0x3000_0000 <= old(ctx).remaining_bits <= 0x3000_0000,
    ensures
        final(enc).wf(),
        final(enc)@.wf(),
        final(enc)@.size == old(enc)@.size,
        forall|data: Seq<u8>, whole: Seq<bool>| #[trigger]
            symbols::leads_to(final(enc)@, data, whole) ==> {
                let p = bands::split_plan(
                    old(ctx).env(fold),
                    old(ctx).state(symbols::mate(old(enc)@, data)),
                    n as int,
                    b as int,
                    big_b as int,
                    lm as int,
                    fill,
                );
                &&& symbols::leads_to(old(enc)@, data, whole)
                &&& r.itheta == p.itheta
                &&& r.mbits == p.mbits
                &&& r.sbits == p.sbits
                &&& r.imid == p.mid
                &&& r.iside == p.side
                &&& r.fill == p.fill
                &&& final(ctx).state(symbols::mate(final(enc)@, data)) == p.st
                &&& follows(
                    split_choices(
                        old(ctx).env(fold),
                        old(ctx).state(symbols::mate(old(enc)@, data)),
                        at,
                        n as int,
                        offset as int,
                        b as int,
                        big_b as int,
                        lm as int,
                        fill,
                    ),
                    since(old(src).talk(), final(src).talk()),
                )
            },
        old(src).talk().is_prefix_of(final(src).talk()),
        final(ctx).i == old(ctx).i,
        final(ctx).intensity == old(ctx).intensity,
        final(ctx).tf_change == old(ctx).tf_change,
        -500 <= final(ctx).remaining_bits - old(ctx).remaining_bits <= 500,
        0 <= r.mbits <= bands::part_limit(lm as int) + 500,
        -bands::part_limit(lm as int) - 500 <= r.sbits <= bands::part_limit(lm as int) + 500,
        -bands::part_limit(lm as int) - 500 <= r.mbits + r.sbits <= bands::part_limit(lm as int) + 500,
{
    proof {
        enc.lemma_wf();
        reveal(bands::split_plan);
    }
    let half: usize = n / 2;
    let blocks: usize = (big_b + 1) / 2;
    let mut fill2: u32 = if big_b == 1 {
        (fill & 1) | (fill << 1u32)
    } else {
        fill
    };
    let mut b1: i32 = b;
    let qn: i32 = split_levels(ctx, half, b1, lm - 1, false);
    let mut x: i32 = 0;
    let ghost talk = src.talk();
    if qn != 1 {
        x = nearest_step(src.angle(at, offset, half), qn);
        proof {
            lemma_said(talk, src.talk().last());
        }
    } else {
        proof {
            lemma_silence(talk);
        }
    }
    let s: SplitCtx = encode_theta(
        ctx,
        enc,
        half,
        &mut b1,
        blocks,
        big_b,
        lm - 1,
        false,
        &mut fill2,
        qn,
        x,
        false,
    );
    let delta: i32 = mask_delta(s.delta, big_b, s.itheta, half, lm - 1);
    let mbits: i32 = mid_share(b1, delta);
    ctx.remaining_bits = ctx.remaining_bits - s.qalloc;
    Halves { itheta: s.itheta, mbits, sbits: b1 - mbits, imid: s.imid, iside: s.iside, fill: fill2 }
}

/// The decoder reads a partition between two states of the encoder.
pub open spec fn part_written(
    c0: BandCtx,
    e0: EncoderState,
    c1: BandCtx,
    e1: EncoderState,
    n: int,
    offset: int,
    b: int,
    big_b: int,
    fold: bool,
    lm: int,
    gains: Seq<i32>,
    fill: u32,
    leaves: Seq<LeafView>,
    cm: u32,
) -> bool {
    forall|data: Seq<u8>, whole: Seq<bool>| #[trigger]
        symbols::leads_to(e1, data, whole) ==> {
            let r = bands::partition(
                c0.env(fold),
                c0.state(symbols::mate(e0, data)),
                n,
                offset,
                b,
                big_b,
                lm,
                gains,
                fill,
            );
            &&& symbols::leads_to(e0, data, whole)
            &&& leaves == r.leaves
            &&& cm == r.cm
            &&& c1.state(symbols::mate(e1, data)) == r.st
        }
}

/// The decoder reads the choices that `said` comes to in a partition between two states
/// of the encoder.
pub open spec fn part_follows(
    c0: BandCtx,
    e0: EncoderState,
    e1: EncoderState,
    at: Place,
    n: int,
    offset: int,
    b: int,
    big_b: int,
    fold: bool,
    lm: int,
    gains: Seq<i32>,
    fill: u32,
    said: Seq<Exchange>,
) -> bool {
    forall|data: Seq<u8>, whole: Seq<bool>| #[trigger]
        symbols::leads_to(e1, data, whole) ==> follows(
            part_choices(
                c0.env(fold),
                c0.state(symbols::mate(e0, data)),
                at,
                n,
                offset,
                b,
                big_b,
                lm,
                gains,
                fill,
            ),
            said,
        )
}

/// Writes a partition of a band, splitting it as long as one codeword could not use
/// its bits. The decoder reads the parts that were added to `out`, with the choices that
/// the signal's answers come to.
#[verifier::rlimit(60)]
pub fn encode_partition<S: ShapeSource>(
    ctx: &mut BandCtx,
    enc: &mut RangeEncoder,
    src: &mut S,
    at: Place,
    n: usize,
    offset: usize,
    b: i32,
    big_b: usize,
    fold: bool,
    lm: i32,
    gains: &Vec<i32>,
    fill: u32,
    out: &mut Vec<Leaf>,
) -> (cm: u32)
    requires
        old(enc).wf(),
        old(ctx).i < 21,
        -1 <= lm <= 3,
        n == codebook::part_len(old(ctx).i as int, lm as int),
        2 <= n,
        offset + n <= 0x1000,
        -bands::part_limit(lm as int) <= b <= bands::part_limit(lm as int),
        1 <= big_b <= 16,
        big_b <= n,
        -0x3000_0000 + bands::part_drain(lm as int) <= old(ctx).remaining_bits <= 0x3000_0000 - bands::part_drain(
            lm as int,
        ),
    ensures
        final(enc).wf(),
        final(enc)@.wf(),
        final(enc)@.size == old(enc)@.size,
        bands::leaves_view(old(out)@).is_prefix_of(bands::leaves_view(final(out)@)),
        part_written(
            *old(ctx),
            old(enc)@,
            *final(ctx),
            final(enc)@,
            n as int,
            offset as int,
            b as int,
            big_b as int,
            fold,
            lm as int,
            gains@,
            fill,
            bands::leaves_view(final(out)@).skip(old(out)@.len() as int),
            cm,
        ),
        old(src).talk().is_prefix_of(final(src).talk()),
        part_follows(
            *old(ctx),
            old(enc)@,
            final(enc)@,
            at,
            n as int,
            offset as int,
            b as int,
            big_b as int,
            fold,
            lm as int,
            gains@,
            fill,
            since(old(src).talk(), final(src).talk()),
        ),
        final(ctx).i == old(ctx).i,
        final(ctx).intensity == old(ctx).intensity,
        final(ctx).tf_change == old(ctx).tf_change,
        -bands::part_drain(lm as int) <= final(ctx).remaining_bits - old(ctx).remaining_bits <= bands::part_drain(
            lm as int,
        ),
    decreases lm + 1,
{
    proof {
        enc.lemma_wf();
    }
    let i: usize = ctx.i;
    let ghost e0 = enc@;
    let ghost out0 = bands::leaves_view(out@);
    let ghost c0 = *ctx;
    let ghost t0 = src.talk();
    proof {
        lemma_part_len(i as int, lm as int);
    }
    if lm != -1 && n > 2 && b > cache_max_bits(i, lm) + 12 {
        let half: usize = n / 2;
        let blocks: usize = (big_b + 1) / 2;
        let s: Halves = encode_split(ctx, enc, src, at, n, offset, b, big_b, lm, fill, Ghost(fold));
        let ghost t1 = src.talk();
        let mgains: Vec<i32> = with_gain(gains, s.imid);
        let sgains: Vec<i32> = with_gain(gains, s.iside);
        let before: i32 = ctx.remaining_bits;
        let sfill: u32 = s.fill >> (blocks as u32);
        let shift: u32 = (big_b / 2) as u32;
        if s.mbits >= s.sbits {
            let cm: u32 = encode_partition(
                ctx,
                enc,
                src,
                at,
                half,
                offset,
                s.mbits,
                blocks,
                fold,
                lm - 1,
                &mgains,
                s.fill,
                out,
            );
            let ghost out1 = bands::leaves_view(out@);
            let ghost t2 = src.talk();
            let s2: i32 = rebalance(s.sbits, s.mbits, before, ctx.remaining_bits, s.itheta == 0);
            let cs: u32 = encode_partition(
                ctx,
                enc,
                src,
                at,
                half,
                offset + half,
                s2,
                blocks,
                fold,
                lm - 1,
                &sgains,
                sfill,
                out,
            );
            proof {
                let out2 = bands::leaves_view(out@);
                assert(out2.skip(out0.len() as int) =~= out1.skip(out0.len() as int) + out2.skip(out1.len() as int));
                let t3 = src.talk();
                lemma_since(t0, t1, t2);
                lemma_since(t0, t2, t3);
                let env = c0.env(fold);
                let big = blocks as int;
                let mg = mgains@;
                let sg = sgains@;
                assert forall|data: Seq<u8>, whole: Seq<bool>| #[trigger]
                    symbols::leads_to(enc@, data, whole) implies follows(
                    part_choices(
                        env,
                        c0.state(symbols::mate(e0, data)),
                        at,
                        n as int,
                        offset as int,
                        b as int,
                        big_b as int,
                        lm as int,
                        gains@,
                        fill,
                    ),
                    since(t0, t3),
                ) by {
                    let st = c0.state(symbols::mate(e0, data));
                    let p = bands::split_plan(env, st, n as int, b as int, big_b as int, lm as int, fill);
                    let first = bands::partition(env, p.st, half as int, offset as int, p.mbits, big, lm - 1, mg, p.fill);
                    let rest = bands::rebalanced(p.sbits, p.mbits, p.st.remaining, first.st.remaining, p.itheta == 0);
                    lemma_follows(
                        split_choices(env, st, at, n as int, offset as int, b as int, big_b as int, lm as int, fill),
                        since(t0, t1),
                        part_choices(env, p.st, at, half as int, offset as int, p.mbits, big, lm - 1, mg, p.fill),
                        since(t1, t2),
                    );
                    lemma_follows(
                        split_choices(env, st, at, n as int, offset as int, b as int, big_b as int, lm as int, fill)
                            + part_choices(env, p.st, at, half as int, offset as int, p.mbits, big, lm - 1, mg, p.fill),
                        since(t0, t2),
                        part_choices(env, first.st, at, half as int, offset + half, rest, big, lm - 1, sg, sfill),
                        since(t2, t3),
                    );
                }
            }
            cm | (cs << shift)
        } else {
            let cs: u32 = encode_partition(
                ctx,
                enc,
                src,
                at,
                half,
                offset + half,
                s.sbits,
                blocks,
                fold,
                lm - 1,
                &sgains,
                sfill,
                out,
            );
            let ghost out1 = bands::leaves_view(out@);
            let ghost t2 = src.talk();
            let m2: i32 = rebalance(s.mbits, s.sbits, before, ctx.remaining_bits, s.itheta == 16384);
            let cm: u32 = encode_partition(
                ctx,
                enc,
                src,
                at,
                half,
                offset,
                m2,
                blocks,
                fold,
                lm - 1,
                &mgains,
                s.fill,
                out,
            );
            proof {
                let out2 = bands::leaves_view(out@);
                assert(out2.skip(out0.len() as int) =~= out1.skip(out0.len() as int) + out2.skip(out1.len() as int));
                let t3 = src.talk();
                lemma_since(t0, t1, t2);
                lemma_since(t0, t2, t3);
                let env = c0.env(fold);
                let big = blocks as int;
                let mg = mgains@;
                let sg = sgains@;
                assert forall|data: Seq<u8>, whole: Seq<bool>| #[trigger]
                    symbols::leads_to(enc@, data, whole) implies follows(
                    part_choices(
                        env,
                        c0.state(symbols::mate(e0, data)),
                        at,
                        n as int,
                        offset as int,
                        b as int,
                        big_b as int,
                        lm as int,
                        gains@,
                        fill,
                    ),
                    since(t0, t3),
                ) by {
                    let st = c0.state(symbols::mate(e0, data));
                    let p = bands::split_plan(env, st, n as int, b as int, big_b as int, lm as int, fill);
                    let first = bands::partition(env, p.st, half as int, offset + half, p.sbits, big, lm - 1, sg, sfill);
                    let rest = bands::rebalanced(
                        p.mbits,
                        p.sbits,
                        p.st.remaining,
                        first.st.remaining,
                        p.itheta == 16384,
                    );
                    lemma_follows(
                        split_choices(env, st, at, n as int, offset as int, b as int, big_b as int, lm as int, fill),
                        since(t0, t1),
                        part_choices(env, p.st, at, half as int, offset + half, p.sbits, big, lm - 1, sg, sfill),
                        since(t1, t2),
                    );
                    lemma_follows(
                        split_choices(env, st, at, n as int, offset as int, b as int, big_b as int, lm as int, fill)
                            + part_choices(env, p.st, at, half as int, offset + half, p.sbits, big, lm - 1, sg, sfill),
                        since(t0, t2),
                        part_choices(env, first.st, at, half as int, offset as int, rest, big, lm - 1, mg, p.fill),
                        since(t2, t3),
                    );
                }
            }
            (cs << shift) | cm
        }
    } else {
        encode_leaf(ctx, enc, src, at, n, offset, b, big_b, fold, lm, gains, fill, out)
    }
}

/// Writes the sign of a band of a single value, where a bit is left for it; the sign
/// that the decoder reads.
pub fn encode_band_n1(ctx: &mut BandCtx, enc: &mut RangeEncoder, negative: bool) -> (sign: bool)
    requires
        old(enc).wf(),
    ensures
        final(enc).wf(),
        final(enc)@.wf(),
        final(enc)@.size == old(enc)@.size,
        sign == (negative && old(ctx).remaining_bits >= 8),
        forall|data: Seq<u8>, whole: Seq<bool>| #[trigger]
            symbols::leads_to(final(enc)@, data, whole) ==> {
                let st = old(ctx).state(symbols::mate(old(enc)@, data));
                &&& symbols::leads_to(old(enc)@, data, whole)
                &&& sign == bands::sign_bit(st)
                &&& final(ctx).state(symbols::mate(final(enc)@, data)) == bands::after_sign(st)
            },
        final(ctx).i == old(ctx).i,
        final(ctx).intensity == old(ctx).intensity,
        final(ctx).tf_change == old(ctx).tf_change,
        old(ctx).remaining_bits - 8 <= final(ctx).remaining_bits <= old(ctx).remaining_bits,
{
    proof {
        enc.lemma_wf();
    }
    if ctx.remaining_bits >= 8 {
        encode_flag(enc, negative);
        ctx.remaining_bits = ctx.remaining_bits - 8;
        negative
    } else {
        false
    }
}

/// Writes a raw bit.
fn encode_flag(enc: &mut RangeEncoder, flag: bool)
    requires
        old(enc).wf(),
    ensures
        final(enc).wf(),
        final(enc)@.wf(),
        final(enc)@.size == old(enc)@.size,
        forall|data: Seq<u8>, whole: Seq<bool>| #[trigger]
            symbols::leads_to(final(enc)@, data, whole) ==> {
                let d = symbols::mate(old(enc)@, data);
                &&& symbols::leads_to(old(enc)@, data, whole)
                &&& d.raw_bits(1) == if flag {
                    1int
                } else {
                    0
                }
                &&& d.after_raw(1) == symbols::mate(final(enc)@, data)
            },
{
    proof {
        enc.lemma_wf();
    }
    let v: u32 = if flag {
        1
    } else {
        0
    };
    let ghost e0 = enc@;
    proof {
        lemma2_to64();
        lemma_mate(e0, Seq::empty(), Symbol::Raw { v: v as int, n: 1 }, Seq::empty());
    }
    enc.encode_raw_bits(v, 1);
    proof {
        assert forall|data: Seq<u8>, whole: Seq<bool>| #[trigger] symbols::leads_to(enc@, data, whole) implies {
            let d = symbols::mate(e0, data);
            &&& symbols::leads_to(e0, data, whole)
            &&& d.raw_bits(1) == v
            &&& d.after_raw(1) == symbols::mate(enc@, data)
        } by {
            lemma_mate(e0, data, Symbol::Raw { v: v as int, n: 1 }, whole);
        }
    }
}

/// The decoder reads one channel of a band between two states of the encoder.
pub open spec fn band_written(
    c0: BandCtx,
    e0: EncoderState,
    c1: BandCtx,
    e1: EncoderState,
    n: int,
    b: int,
    big_b: int,
    fold: bool,
    lm: int,
    gains: Seq<i32>,
    fill: u32,
    shape: BandShapeView,
    cm: u32,
) -> bool {
    forall|data: Seq<u8>, whole: Seq<bool>| #[trigger]
        symbols::leads_to(e1, data, whole) ==> {
            let o = bands::band(
                c0.env(fold),
                c0.state(symbols::mate(e0, data)),
                n,
                b,
                big_b,
                lm,
                c0.tf_change as int,
                gains,
                fill,
            );
            &&& symbols::leads_to(e0, data, whole)
            &&& shape == o.shape
            &&& cm == o.cm
            &&& c1.state(symbols::mate(e1, data)) == o.st
        }
}

/// The choices in one channel of a band, in the order of the stream.
#[verifier::opaque]
pub open spec fn band_choices(
    env: PartEnv,
    st: PartState,
    channel: Channel,
    n: int,
    b: int,
    big_b: int,
    lm: int,
    tf: int,
    gains: Seq<i32>,
    fill: u32,
) -> Seq<Choice> {
    if n == 1 {
        seq![Choice::Sign { band: env.i, channel, coded: st.remaining >= 8, negative: bands::sign_bit(st) }]
    } else {
        let r = bands::reshape(n, big_b, tf, fill);
        let cut = Reshape {
            recombine: r.recombine as usize,
            time_divide: r.time_divide as usize,
            blocks: r.blocks as usize,
            per_block: r.per_block as usize,
        };
        let at = Place { band: env.i as usize, channel, cut };
        part_choices(env, st, at, n, 0, b, r.blocks, lm, gains, r.fill)
    }
}

/// The decoder reads the choices that `said` comes to in one channel of a band between
/// two states of the encoder.
pub open spec fn band_follows(
    c0: BandCtx,
    e0: EncoderState,
    e1: EncoderState,
    channel: Channel,
    n: int,
    b: int,
    big_b: int,
    fold: bool,
    lm: int,
    gains: Seq<i32>,
    fill: u32,
    said: Seq<Exchange>,
) -> bool {
    forall|data: Seq<u8>, whole: Seq<bool>| #[trigger]
        symbols::leads_to(e1, data, whole) ==> follows(
            band_choices(
                c0.env(fold),
                c0.state(symbols::mate(e0, data)),
                channel,
                n,
                b,
                big_b,
                lm,
                c0.tf_change as int,
                gains,
                fill,
            ),
            said,
        )
}

/// Writes one channel of a band: what the decoder reads of it, and which blocks hold
/// something.
pub fn encode_band<S: ShapeSource>(
    ctx: &mut BandCtx,
    enc: &mut RangeEncoder,
    src: &mut S,
    channel: Channel,
    n: usize,
    b: i32,
    big_b: usize,
    fold: bool,
    lm: i32,
    gains: &Vec<i32>,
    fill: u32,
) -> (r: (BandShape, u32))
    requires
        old(enc).wf(),
        old(ctx).i < 21,
        0 <= lm <= 3,
        n == codebook::part_len(old(ctx).i as int, lm as int),
        -bands::part_limit(lm as int) <= b <= bands::part_limit(lm as int),
        big_b == 1 || big_b == 2 || big_b == 4 || big_b == 8,
        n % big_b == 0,
        bands::tf_fits(big_b as int, old(ctx).tf_change as int),
        fill < 256,
        -0x2fff_0000 <= old(ctx).remaining_bits <= 0x2fff_0000,
    ensures
        final(enc).wf(),
        final(enc)@.wf(),
        final(enc)@.size == old(enc)@.size,
        band_written(
            *old(ctx),
            old(enc)@,
            *final(ctx),
            final(enc)@,
            n as int,
            b as int,
            big_b as int,
            fold,
            lm as int,
            gains@,
            fill,
            r.0@,
            r.1,
        ),
        old(src).talk().is_prefix_of(final(src).talk()),
        band_follows(
            *old(ctx),
            old(enc)@,
            final(enc)@,
            channel,
            n as int,
            b as int,
            big_b as int,
            fold,
            lm as int,
            gains@,
            fill,
            since(old(src).talk(), final(src).talk()),
        ),
        final(ctx).i == old(ctx).i,
        final(ctx).intensity == old(ctx).intensity,
        final(ctx).tf_change == old(ctx).tf_change,
        -12300 <= final(ctx).remaining_bits - old(ctx).remaining_bits <= 12300,
{
    proof {
        enc.lemma_wf();
        reveal(bands::band);
        reveal(band_choices);
        modes::lemma_width(ctx.i as int);
        let w = modes::width(ctx.i as int);
        let m = modes::frame_mult(lm as int);
        assert(1 <= w * m <= 176) by (nonlinear_arith)
            requires
                1 <= w <= 22,
                1 <= m <= 8,
        ;
    }
    if n == 1 {
        let ghost talk = src.talk();
        let negative: bool = src.sign(ctx.i, channel);
        proof {
            lemma_said(talk, src.talk().last());
        }
        let s: bool = encode_band_n1(ctx, enc, negative);
        return (BandShape::Sign(s), 1);
    }
    let (cut, fill1) = cut_band(n, big_b, ctx.tf_change, fill);
    let at = Place { band: ctx.i, channel, cut };
    let mut leaves: Vec<Leaf> = Vec::new();
    let cm: u32 = encode_partition(
        ctx,
        enc,
        src,
        at,
        n,
        0,
        b,
        cut.blocks,
        fold,
        lm,
        gains,
        fill1,
        &mut leaves,
    );
    assert(bands::leaves_view(leaves@).skip(0) =~= bands::leaves_view(leaves@));
    (BandShape::Leaves(cut, leaves), join_mask(cm, cut, big_b))
}

impl SplitCtx {
    /// The angle that the decoder reads as this split and then stands at `dec`.
    pub open spec fn read_at(&self, dec: DecoderState) -> angle::Theta {
        angle::Theta { inv: self.inv, itheta: self.itheta as int, qalloc: self.qalloc as int, dec }
    }

    /// The weights are those of the angle, and it cost what an angle can cost.
    pub open spec fn sound(&self, n: int) -> bool {
        &&& self.imid == angle::theta_mid(self.itheta as int)
        &&& self.iside == angle::theta_side(self.itheta as int)
        &&& self.delta == angle::theta_delta(n, self.itheta as int)
        &&& 0 <= self.itheta <= 16384
        &&& -71 <= self.qalloc <= 500
        &&& -32768 <= self.delta <= 32768
    }
}

/// The choices in two channels of two values, where the angle is `t`.
#[verifier::opaque]
pub open spec fn pair_choices(
    env: PartEnv,
    st: PartState,
    t: angle::Theta,
    b: int,
    big_b: int,
    lm: int,
    tf: int,
    fill: u32,
) -> Seq<Choice> {
    let signed = t.itheta % 16384 != 0;
    let sbits = if signed {
        8int
    } else {
        0
    };
    let st1 = PartState {
        dec: if signed {
            t.dec.after_raw(1)
        } else {
            t.dec
        },
        remaining: st.remaining - (t.qalloc + sbits),
        seed: st.seed,
    };
    let swapped = t.itheta > 8192;
    let first = if signed {
        seq![Choice::Negated { band: env.i, swapped, negated: t.dec.raw_bits(1) == 1 }]
    } else {
        Seq::empty()
    };
    let channel = if swapped {
        Channel::Side
    } else {
        Channel::Mid
    };
    first + band_choices(env, st1, channel, 2, b - t.qalloc - sbits, big_b, lm, tf, Seq::empty(), fill)
}

/// Writes two channels of two values behind their angle.
fn encode_pair<S: ShapeSource>(
    ctx: &mut BandCtx,
    enc: &mut RangeEncoder,
    src: &mut S,
    t: SplitCtx,
    b: i32,
    big_b: usize,
    fold: bool,
    lm: i32,
    fill: u32,
) -> (r: (BandPlan, u32))
    requires
        old(enc).wf(),
        old(ctx).i < 21,
        0 <= lm <= 3,
        2 == codebook::part_len(old(ctx).i as int, lm as int),
        t.sound(2),
        0 <= b <= 16383,
        big_b == 1 || big_b == 2,
        bands::tf_fits(big_b as int, old(ctx).tf_change as int),
        fill < 256,
        -0x2ffe_0000 <= old(ctx).remaining_bits <= 0x2ffe_0000,
    ensures
        final(enc).wf(),
        final(enc)@.wf(),
        final(enc)@.size == old(enc)@.size,
        forall|data: Seq<u8>, whole: Seq<bool>| #[trigger]
            symbols::leads_to(final(enc)@, data, whole) ==> {
                let d = symbols::mate(old(enc)@, data);
                let o = bands::pair_band(
                    old(ctx).env(fold),
                    old(ctx).state(d),
                    t.read_at(d),
                    b as int,
                    big_b as int,
                    lm as int,
                    old(ctx).tf_change as int,
                    fill,
                );
                &&& symbols::leads_to(old(enc)@, data, whole)
                &&& r.0@ == o.plan
                &&& r.1 == o.cm
                &&& final(ctx).state(symbols::mate(final(enc)@, data)) == o.st
                &&& follows(
                    pair_choices(
                        old(ctx).env(fold),
                        old(ctx).state(d),
                        t.read_at(d),
                        b as int,
                        big_b as int,
                        lm as int,
                        old(ctx).tf_change as int,
                        fill,
                    ),
                    since(old(src).talk(), final(src).talk()),
                )
            },
        old(src).talk().is_prefix_of(final(src).talk()),
        final(ctx).i == old(ctx).i,
        final(ctx).intensity == old(ctx).intensity,
        final(ctx).tf_change == old(ctx).tf_change,
{
    proof {
        enc.lemma_wf();
        reveal(bands::pair_band);
        reveal(pair_choices);
    }
    let none: Vec<i32> = Vec::new();
    assert(none@ == Seq::<i32>::empty());
    let signed: bool = t.itheta % 16384 != 0;
    let sbits: i32 = if signed {
        8
    } else {
        0
    };
    let swapped: bool = t.itheta > 8192;
    ctx.remaining_bits = ctx.remaining_bits - (t.qalloc + sbits);
    let mut negative: bool = false;
    let ghost c0 = *ctx;
    let ghost e0 = enc@;
    let ghost t0 = src.talk();
    if signed {
        negative = src.negated(ctx.i, swapped);
        encode_flag(enc, negative);
        proof {
            lemma_said(t0, src.talk().last());
        }
    } else {
        proof {
            lemma_silence(t0);
        }
    }
    let ghost e1 = enc@;
    let ghost t1 = src.talk();
    let (coded, cm) = encode_band(
        ctx,
        enc,
        src,
        if swapped {
            Channel::Side
        } else {
            Channel::Mid
        },
        2,
        b - t.qalloc - sbits,
        big_b,
        fold,
        lm,
        &none,
        fill,
    );
    proof {
        let t2 = src.talk();
        lemma_since(t0, t1, t2);
        let env = c0.env(fold);
        let channel = if swapped {
            Channel::Side
        } else {
            Channel::Mid
        };
        let first = if signed {
            seq![Choice::Negated { band: c0.i as int, swapped, negated: negative }]
        } else {
            Seq::empty()
        };
        assert(follows(first, since(t0, t1)));
        let tf = c0.tf_change as int;
        assert forall|data: Seq<u8>, whole: Seq<bool>| #[trigger] symbols::leads_to(enc@, data, whole) implies follows(
            first + band_choices(
                env,
                c0.state(symbols::mate(e1, data)),
                channel,
                2,
                b - t.qalloc - sbits,
                big_b as int,
                lm as int,
                tf,
                none@,
                fill,
            ),
            since(t0, t2),
        ) by {
            let st = c0.state(symbols::mate(e1, data));
            lemma_follows(
                first,
                since(t0, t1),
                band_choices(env, st, channel, 2, b - t.qalloc - sbits, big_b as int, lm as int, tf, none@, fill),
                since(t1, t2),
            );
        }
    }
    (BandPlan::Pair { inv: t.inv, imid: t.imid, iside: t.iside, swapped, negative, coded }, cm)
}

/// The choices in the sum and the difference of two channels, where the angle is `t`.
#[verifier::opaque]
pub open spec fn mid_side_choices(
    env: PartEnv,
    st: PartState,
    t: angle::Theta,
    n: int,
    b: int,
    big_b: int,
    lm: int,
    tf: int,
    fill: u32,
) -> Seq<Choice> {
    let b1 = b - t.qalloc;
    let fill1 = angle::theta_fill(fill, big_b, t.itheta);
    let mbits = bands::mid_bits(b1, angle::theta_delta(n, t.itheta));
    let sbits = b1 - mbits;
    let st1 = PartState { dec: t.dec, remaining: st.remaining - t.qalloc, seed: st.seed };
    let plain = PartEnv { fold: false, ..env };
    let sgains = seq![angle::theta_side(t.itheta) as i32];
    let sfill = fill1 >> (big_b as u32);
    let none = Seq::<i32>::empty();
    if mbits >= sbits {
        let m = bands::band(env, st1, n, mbits, big_b, lm, tf, none, fill1);
        let s2 = bands::rebalanced(sbits, mbits, st1.remaining, m.st.remaining, t.itheta == 0);
        band_choices(env, st1, Channel::Mid, n, mbits, big_b, lm, tf, none, fill1) + band_choices(
            plain,
            m.st,
            Channel::Side,
            n,
            s2,
            big_b,
            lm,
            tf,
            sgains,
            sfill,
        )
    } else {
        let s = bands::band(plain, st1, n, sbits, big_b, lm, tf, sgains, sfill);
        let m2 = bands::rebalanced(mbits, sbits, st1.remaining, s.st.remaining, t.itheta == 16384);
        band_choices(plain, st1, Channel::Side, n, sbits, big_b, lm, tf, sgains, sfill) + band_choices(
            env,
            s.st,
            Channel::Mid,
            n,
            m2,
            big_b,
            lm,
            tf,
            none,
            fill1,
        )
    }
}

/// Writes the sum and the difference of two channels behind their angle.
fn encode_mid_side<S: ShapeSource>(
    ctx: &mut BandCtx,
    enc: &mut RangeEncoder,
    src: &mut S,
    t: SplitCtx,
    n: usize,
    b: i32,
    big_b: usize,
    fold: bool,
    lm: i32,
    fill1: u32,
    Ghost(fill): Ghost<u32>,
) -> (r: (BandPlan, u32))
    requires
        old(enc).wf(),
        old(ctx).i < 21,
        0 <= lm <= 3,
        2 < n,
        n == codebook::part_len(old(ctx).i as int, lm as int),
        t.sound(n as int),
        fill1 == angle::theta_fill(fill, big_b as int, t.itheta as int),
        0 <= b <= 16383,
        big_b == 1 || big_b == 2 || big_b == 4 || big_b == 8,
        n % big_b == 0,
        bands::tf_fits(big_b as int, old(ctx).tf_change as int),
        fill < 256,
        -0x2ffe_0000 <= old(ctx).remaining_bits <= 0x2ffe_0000,
    ensures
        final(enc).wf(),
        final(enc)@.wf(),
        final(enc)@.size == old(enc)@.size,
        forall|data: Seq<u8>, whole: Seq<bool>| #[trigger]
            symbols::leads_to(final(enc)@, data, whole) ==> {
                let d = symbols::mate(old(enc)@, data);
                let o = bands::mid_side_band(
                    old(ctx).env(fold),
                    old(ctx).state(d),
                    t.read_at(d),
                    n as int,
                    b as int,
                    big_b as int,
                    lm as int,
                    old(ctx).tf_change as int,
                    fill,
                );
                &&& symbols::leads_to(old(enc)@, data, whole)
                &&& r.0@ == o.plan
                &&& r.1 == o.cm
                &&& final(ctx).state(symbols::mate(final(enc)@, data)) == o.st
                &&& follows(
                    mid_side_choices(
                        old(ctx).env(fold),
                        old(ctx).state(d),
                        t.read_at(d),
                        n as int,
                        b as int,
                        big_b as int,
                        lm as int,
                        old(ctx).tf_change as int,
                        fill,
                    ),
                    since(old(src).talk(), final(src).talk()),
                )
            },
        old(src).talk().is_prefix_of(final(src).talk()),
        final(ctx).i == old(ctx).i,
        final(ctx).intensity == old(ctx).intensity,
        final(ctx).tf_change == old(ctx).tf_change,
{
    proof {
        enc.lemma_wf();
        reveal(bands::mid_side_band);
        reveal(mid_side_choices);
        lemma_fill_bound(fill, big_b as int, t.itheta as int);
    }
    let none: Vec<i32> = Vec::new();
    assert(none@ == Seq::<i32>::empty());
    let b1: i32 = b - t.qalloc;
    let mbits: i32 = mid_share(b1, t.delta);
    let sbits: i32 = b1 - mbits;
    ctx.remaining_bits = ctx.remaining_bits - t.qalloc;
    let before: i32 = ctx.remaining_bits;
    let mut sgains: Vec<i32> = Vec::new();
    sgains.push(t.iside);
    assert(sgains@ =~= seq![t.iside]);
    let sfill: u32 = fill1 >> (big_b as u32);
    let ghost c0 = *ctx;
    let ghost e0 = enc@;
    let ghost t0 = src.talk();
    let ghost env = c0.env(fold);
    let ghost plain = c0.env(false);
    if mbits >= sbits {
        let (mid, cm) = encode_band(ctx, enc, src, Channel::Mid, n, mbits, big_b, fold, lm, &none, fill1);
        let ghost c1 = *ctx;
        let ghost e1 = enc@;
        let ghost t1 = src.talk();
        let s2: i32 = rebalance(sbits, mbits, before, ctx.remaining_bits, t.itheta == 0);
        let (side, cs) = encode_band(ctx, enc, src, Channel::Side, n, s2, big_b, false, lm, &sgains, sfill);
        proof {
            let t2 = src.talk();
            lemma_since(t0, t1, t2);
            let tf = c0.tf_change as int;
            assert forall|data: Seq<u8>, whole: Seq<bool>| #[trigger]
                symbols::leads_to(enc@, data, whole) implies follows(
                band_choices(env, c0.state(symbols::mate(e0, data)), Channel::Mid, n as int, mbits as int, big_b as int, lm as int, tf, none@, fill1) + band_choices(plain, c1.state(symbols::mate(e1, data)), Channel::Side, n as int, s2 as int, big_b as int, lm as int, tf, sgains@, sfill),
                since(t0, t2),
            ) by {
                lemma_follows(
                    band_choices(env, c0.state(symbols::mate(e0, data)), Channel::Mid, n as int, mbits as int, big_b as int, lm as int, tf, none@, fill1),
                    since(t0, t1),
                    band_choices(plain, c1.state(symbols::mate(e1, data)), Channel::Side, n as int, s2 as int, big_b as int, lm as int, tf, sgains@, sfill),
                    since(t1, t2),
                );
            }
        }
        (BandPlan::MidSide { inv: t.inv, imid: t.imid, iside: t.iside, mid, side }, cm | cs)
    } else {
        let (side, cs) = encode_band(ctx, enc, src, Channel::Side, n, sbits, big_b, false, lm, &sgains, sfill);
        let ghost c1 = *ctx;
        let ghost e1 = enc@;
        let ghost t1 = src.talk();
        let m2: i32 = rebalance(mbits, sbits, before, ctx.remaining_bits, t.itheta == 16384);
        let (mid, cm) = encode_band(ctx, enc, src, Channel::Mid, n, m2, big_b, fold, lm, &none, fill1);
        proof {
            let t2 = src.talk();
            lemma_since(t0, t1, t2);
            let tf = c0.tf_change as int;
            assert forall|data: Seq<u8>, whole: Seq<bool>| #[trigger]
                symbols::leads_to(enc@, data, whole) implies follows(
                band_choices(plain, c0.state(symbols::mate(e0, data)), Channel::Side, n as int, sbits as int, big_b as int, lm as int, tf, sgains@, sfill) + band_choices(env, c1.state(symbols::mate(e1, data)), Channel::Mid, n as int, m2 as int, big_b as int, lm as int, tf, none@, fill1),
                since(t0, t2),
            ) by {
                lemma_follows(
                    band_choices(plain, c0.state(symbols::mate(e0, data)), Channel::Side, n as int, sbits as int, big_b as int, lm as int, tf, sgains@, sfill),
                    since(t0, t1),
                    band_choices(env, c1.state(symbols::mate(e1, data)), Channel::Mid, n as int, m2 as int, big_b as int, lm as int, tf, none@, fill1),
                    since(t1, t2),
                );
            }
        }
        (BandPlan::MidSide { inv: t.inv, imid: t.imid, iside: t.iside, mid, side }, cs | cm)
    }
}

/// The decoder reads two channels of a band between two states of the encoder.
pub open spec fn stereo_written(
    c0: BandCtx,
    e0: EncoderState,
    c1: BandCtx,
    e1: EncoderState,
    n: int,
    b: int,
    big_b: int,
    fold: bool,
    lm: int,
    fill: u32,
    plan: BandPlanView,
    cm: u32,
) -> bool {
    forall|data: Seq<u8>, whole: Seq<bool>| #[trigger]
        symbols::leads_to(e1, data, whole) ==> {
            let o = bands::stereo_band(
                c0.env(fold),
                c0.state(symbols::mate(e0, data)),
                n,
                b,
                big_b,
                lm,
                c0.tf_change as int,
                fill,
            );
            &&& symbols::leads_to(e0, data, whole)
            &&& plan == o.plan
            &&& cm == o.cm
            &&& c1.state(symbols::mate(e1, data)) == o.st
        }
}

/// The choices of the angle `t` between two channels and of what they are turned into.
pub open spec fn image_choices(env: PartEnv, st: PartState, n: int, b: int, lm: int, t: angle::Theta) -> Seq<Choice> {
    let at = SplitPlace { i: env.i, intensity: env.intensity, remaining: st.remaining };
    let qn = angle::theta_levels(at, n, b, lm, true);
    let image = if t.itheta == 0 {
        Image::Intensity { inverted: t.inv }
    } else {
        Image::MidSide
    };
    seq![
        Choice::StereoAngle {
            band: env.i,
            qn,
            itheta: t.itheta,
            flagged: qn == 1 && b > 16 && st.remaining > 16,
            inverted: t.inv,
        },
        Choice::Combined { band: env.i, image },
    ]
}

/// The choices of the signs of two channels of a single value.
pub open spec fn sign_choices(env: PartEnv, st: PartState) -> Seq<Choice> {
    let st1 = bands::after_sign(st);
    seq![
        Choice::Sign {
            band: env.i,
            channel: Channel::First,
            coded: st.remaining >= 8,
            negative: bands::sign_bit(st),
        },
        Choice::Sign {
            band: env.i,
            channel: Channel::Second,
            coded: st1.remaining >= 8,
            negative: bands::sign_bit(st1),
        },
    ]
}

/// The choices in two channels of a band that are coded together.
#[verifier::opaque]
pub open spec fn stereo_choices(
    env: PartEnv,
    st: PartState,
    n: int,
    b: int,
    big_b: int,
    lm: int,
    tf: int,
    fill: u32,
) -> Seq<Choice> {
    let at = SplitPlace { i: env.i, intensity: env.intensity, remaining: st.remaining };
    if n == 1 {
        sign_choices(env, st)
    } else {
        let t = angle::theta(st.dec, at, n, b, big_b, lm, true);
        let st1 = PartState { dec: t.dec, ..st };
        let rest = if n == 2 {
            pair_choices(env, st1, t, b, big_b, lm, tf, fill)
        } else {
            mid_side_choices(env, st1, t, n, b, big_b, lm, tf, fill)
        };
        image_choices(env, st, n, b, lm, t) + rest
    }
}

/// The decoder reads the choices that `said` comes to in two channels of a band between
/// two states of the encoder.
pub open spec fn stereo_follows(
    c0: BandCtx,
    e0: EncoderState,
    e1: EncoderState,
    n: int,
    b: int,
    big_b: int,
    fold: bool,
    lm: int,
    fill: u32,
    said: Seq<Exchange>,
) -> bool {
    forall|data: Seq<u8>, whole: Seq<bool>| #[trigger]
        symbols::leads_to(e1, data, whole) ==> follows(
            stereo_choices(
                c0.env(fold),
                c0.state(symbols::mate(e0, data)),
                n,
                b,
                big_b,
                lm,
                c0.tf_change as int,
                fill,
            ),
            said,
        )
}

/// Writes the signs of two channels of a single value: the signs that the decoder reads.
fn encode_signs<S: ShapeSource>(
    ctx: &mut BandCtx,
    enc: &mut RangeEncoder,
    src: &mut S,
    Ghost(fold): Ghost<bool>,
) -> (r: (bool, bool))
    requires
        old(enc).wf(),
    ensures
        final(enc).wf(),
        final(enc)@.wf(),
        final(enc)@.size == old(enc)@.size,
        forall|data: Seq<u8>, whole: Seq<bool>| #[trigger]
            symbols::leads_to(final(enc)@, data, whole) ==> {
                let st = old(ctx).state(symbols::mate(old(enc)@, data));
                let st1 = bands::after_sign(st);
                &&& symbols::leads_to(old(enc)@, data, whole)
                &&& r == (bands::sign_bit(st), bands::sign_bit(st1))
                &&& final(ctx).state(symbols::mate(final(enc)@, data)) == bands::after_sign(st1)
                &&& follows(sign_choices(old(ctx).env(fold), st), since(old(src).talk(), final(src).talk()))
            },
        old(src).talk().is_prefix_of(final(src).talk()),
        final(ctx).i == old(ctx).i,
        final(ctx).intensity == old(ctx).intensity,
        final(ctx).tf_change == old(ctx).tf_change,
{
    let i: usize = ctx.i;
    let ghost t0 = src.talk();
    let x: bool = encode_band_n1(ctx, enc, src.sign(i, Channel::First));
    let ghost t1 = src.talk();
    let y: bool = encode_band_n1(ctx, enc, src.sign(i, Channel::Second));
    proof {
        let t2 = src.talk();
        lemma_said(t0, t1.last());
        lemma_said(t1, t2.last());
        lemma_since(t0, t1, t2);
        assert(since(t0, t2) =~= seq![t1.last(), t2.last()]);
    }
    (x, y)
}

/// Writes the angle between two channels and turns them into their image; the angle, and
/// the blocks in `fill` that it leaves.
fn encode_image<S: ShapeSource>(
    ctx: &BandCtx,
    enc: &mut RangeEncoder,
    src: &mut S,
    n: usize,
    b: i32,
    big_b: usize,
    lm: i32,
    fill: u32,
    Ghost(fold): Ghost<bool>,
) -> (r: (SplitCtx, u32))
    requires
        old(enc).wf(),
        ctx.i < 21,
        0 <= lm <= 3,
        2 <= n <= 176,
        0 <= b <= 16383,
        1 <= big_b <= 8,
    ensures
        final(enc).wf(),
        final(enc)@.wf(),
        final(enc)@.size == old(enc)@.size,
        forall|data: Seq<u8>, whole: Seq<bool>| #[trigger]
            symbols::leads_to(final(enc)@, data, whole) ==> {
                let d = symbols::mate(old(enc)@, data);
                let t = angle::theta(d, ctx.place(), n as int, b as int, big_b as int, lm as int, true);
                &&& symbols::leads_to(old(enc)@, data, whole)
                &&& t == r.0.read_at(symbols::mate(final(enc)@, data))
                &&& follows(
                    image_choices(ctx.env(fold), ctx.state(d), n as int, b as int, lm as int, t),
                    since(old(src).talk(), final(src).talk()),
                )
            },
        old(src).talk().is_prefix_of(final(src).talk()),
        r.0.sound(n as int),
        r.1 == angle::theta_fill(fill, big_b as int, r.0.itheta as int),
{
    let i: usize = ctx.i;
    let ghost t0 = src.talk();
    let mut b1: i32 = b;
    let mut fill1: u32 = fill;
    let qn: i32 = split_levels(ctx, n, b, lm, true);
    let angle: i32 = src.stereo_angle(i);
    let ghost t1 = src.talk();
    let x: i32 = nearest_step(angle, qn);
    let t: SplitCtx = encode_theta(
        ctx,
        enc,
        n,
        &mut b1,
        big_b,
        big_b,
        lm,
        true,
        &mut fill1,
        qn,
        x,
        angle > 8192,
    );
    src.combine(
        i,
        if t.itheta == 0 {
            Image::Intensity { inverted: t.inv }
        } else {
            Image::MidSide
        },
    );
    proof {
        let t2 = src.talk();
        lemma_said(t0, t1.last());
        lemma_said(t1, t2.last());
        lemma_since(t0, t1, t2);
        assert(since(t0, t2) =~= seq![t1.last(), t2.last()]);
    }
    (t, fill1)
}

/// Writes two channels of a band together: what the decoder reads of them, and which
/// blocks hold something.
pub fn encode_band_stereo<S: ShapeSource>(
    ctx: &mut BandCtx,
    enc: &mut RangeEncoder,
    src: &mut S,
    n: usize,
    b: i32,
    big_b: usize,
    fold: bool,
    lm: i32,
    fill: u32,
) -> (r: (BandPlan, u32))
    requires
        old(enc).wf(),
        old(ctx).i < 21,
        0 <= lm <= 3,
        n == codebook::part_len(old(ctx).i as int, lm as int),
        0 <= b <= 16383,
        big_b == 1 || big_b == 2 || big_b == 4 || big_b == 8,
        n % big_b == 0,
        bands::tf_fits(big_b as int, old(ctx).tf_change as int),
        fill < 256,
        -0x2ffe_0000 <= old(ctx).remaining_bits <= 0x2ffe_0000,
    ensures
        final(enc).wf(),
        final(enc)@.wf(),
        final(enc)@.size == old(enc)@.size,
        stereo_written(
            *old(ctx),
            old(enc)@,
            *final(ctx),
            final(enc)@,
            n as int,
            b as int,
            big_b as int,
            fold,
            lm as int,
            fill,
            r.0@,
            r.1,
        ),
        old(src).talk().is_prefix_of(final(src).talk()),
        stereo_follows(
            *old(ctx),
            old(enc)@,
            final(enc)@,
            n as int,
            b as int,
            big_b as int,
            fold,
            lm as int,
            fill,
            since(old(src).talk(), final(src).talk()),
        ),
        final(ctx).i == old(ctx).i,
        final(ctx).intensity == old(ctx).intensity,
        final(ctx).tf_change == old(ctx).tf_change,
{
    proof {
        enc.lemma_wf();
        reveal(bands::stereo_band);
        modes::lemma_width(ctx.i as int);
        let w = modes::width(ctx.i as int);
        let m = modes::frame_mult(lm as int);
        assert(1 <= w * m <= 176) by (nonlinear_arith)
            requires
                1 <= w <= 22,
                1 <= m <= 8,
        ;
    }
    let ghost c0 = *ctx;
    let ghost t0 = src.talk();
    let ghost e0 = enc@;
    if n == 1 {
        let (x, y) = encode_signs(ctx, enc, src, Ghost(fold));
        proof {
            reveal(stereo_choices);
        }
        return (BandPlan::Signs(x, y), 1);
    }
    let (t, fill1) = encode_image(ctx, enc, src, n, b, big_b, lm, fill, Ghost(fold));
    let ghost e1 = enc@;
    let ghost t1 = src.talk();
    proof {
        lemma_fill_bound(fill, big_b as int, t.itheta as int);
        assert(c0.place() == SplitPlace {
            i: c0.i as int,
            intensity: c0.intensity as int,
            remaining: c0.remaining_bits as int,
        });
    }
    let r: (BandPlan, u32) = if n == 2 {
        encode_pair(ctx, enc, src, t, b, big_b, fold, lm, fill)
    } else {
        encode_mid_side(ctx, enc, src, t, n, b, big_b, fold, lm, fill1, Ghost(fill))
    };
    proof {
        let t2 = src.talk();
        lemma_since(t0, t1, t2);
        let env = c0.env(fold);
        let tf = c0.tf_change as int;
        assert forall|data: Seq<u8>, whole: Seq<bool>| #[trigger] symbols::leads_to(enc@, data, whole) implies follows(
            stereo_choices(
                env,
                c0.state(symbols::mate(e0, data)),
                n as int,
                b as int,
                big_b as int,
                lm as int,
                tf,
                fill,
            ),
            since(t0, t2),
        ) by {
            reveal(stereo_choices);
            let d = symbols::mate(e1, data);
            let th = t.read_at(d);
            let st = c0.state(d);
            let rest = if n == 2 {
                pair_choices(env, st, th, b as int, big_b as int, lm as int, tf, fill)
            } else {
                mid_side_choices(env, st, th, n as int, b as int, big_b as int, lm as int, tf, fill)
            };
            assert(symbols::leads_to(e1, data, whole));
            let first = image_choices(env, c0.state(symbols::mate(e0, data)), n as int, b as int, lm as int, th);
            lemma_follows(first, since(t0, t1), rest, since(t1, t2));
        }
    }
    r
}

impl FrameState {
    /// The same state before another place of a stream.
    pub open spec fn at(self, dec: DecoderState) -> FrameState {
        FrameState { dec, ..self }
    }
}

/// The decoder comes from `first` to `last` by the bands below `i`, between two states
/// of the encoder.
pub open spec fn run_written(
    env: FrameEnv,
    first: FrameState,
    e0: EncoderState,
    last: FrameState,
    e1: EncoderState,
    i: int,
) -> bool {
    forall|data: Seq<u8>, whole: Seq<bool>| #[trigger]
        symbols::leads_to(e1, data, whole) ==> {
            &&& symbols::leads_to(e0, data, whole)
            &&& env.run(first.at(symbols::mate(e0, data)), i) == last.at(symbols::mate(e1, data))
        }
}

/// The decoder reads shapes `r` between two states of the encoder, where it starts with
/// `first`.
pub open spec fn shapes_written(
    env: FrameEnv,
    first: FrameState,
    e0: EncoderState,
    e1: EncoderState,
    r: FrameShapes,
) -> bool {
    forall|data: Seq<u8>, whole: Seq<bool>| #[trigger]
        symbols::leads_to(e1, data, whole) ==> {
            let o = env.run(first.at(symbols::mate(e0, data)), env.end);
            &&& symbols::leads_to(e0, data, whole)
            &&& bands::plans_view(r.plans@) == o.plans
            &&& r.collapse_masks@ == o.masks
            &&& r.seed == o.seed
            &&& o.dec == symbols::mate(e1, data)
        }
}

impl FrameEnv {
    /// The choices in band `i`.
    pub open spec fn step_choices(self, st: FrameState, i: int) -> Seq<Choice> {
        let b = self.band_budget(st.seen(), i);
        let n = codebook::part_len(i, self.lm);
        let env = PartEnv { i, intensity: self.intensity, fold: self.folds(st.seen(), i) };
        let p0 = PartState { dec: st.dec, remaining: self.total_bits - st.dec.tell_frac() - 1, seed: st.seed };
        let xm = self.source_mask(st.seen(), i, 0);
        let ym = self.source_mask(st.seen(), i, self.channels() - 1);
        let none = Seq::<i32>::empty();
        let tf = self.tf_res[i];
        if st.dual && i != self.intensity {
            let x = bands::band(env, p0, n, b / 2, self.blocks(), self.lm, tf, none, xm);
            band_choices(env, p0, Channel::First, n, b / 2, self.blocks(), self.lm, tf, none, xm) + band_choices(
                env,
                x.st,
                Channel::Second,
                n,
                b / 2,
                self.blocks(),
                self.lm,
                tf,
                none,
                ym,
            )
        } else if self.stereo {
            stereo_choices(env, p0, n, b, self.blocks(), self.lm, tf, xm | ym)
        } else {
            band_choices(env, p0, Channel::Mono, n, b, self.blocks(), self.lm, tf, none, xm | ym)
        }
    }

    /// The choices in the bands from the first one up to `i`.
    pub open spec fn choices(self, st: FrameState, i: int) -> Seq<Choice>
        decreases i - self.start,
    {
        if i <= self.start {
            Seq::empty()
        } else {
            self.choices(st, i - 1) + self.step_choices(self.run(st, i - 1), i - 1)
        }
    }
}

/// The decoder reads the choices that `said` comes to in the bands below `i`, between two
/// states of the encoder, where it starts with `first`.
pub open spec fn shapes_follow(
    env: FrameEnv,
    first: FrameState,
    e0: EncoderState,
    e1: EncoderState,
    i: int,
    said: Seq<Exchange>,
) -> bool {
    forall|data: Seq<u8>, whole: Seq<bool>| #[trigger]
        symbols::leads_to(e1, data, whole) ==> follows(env.choices(first.at(symbols::mate(e0, data)), i), said)
}

/// Writes the shapes of the bands of a frame, as the signal has them; what the decoder
/// reads of them. Its angles, pulses and signs are those that the signal's answers come
/// to.
#[verifier::rlimit(60)]
pub fn quant_all_bands_enc<S: ShapeSource>(
    enc: &mut RangeEncoder,
    src: &mut S,
    start: usize,
    end: usize,
    stereo: bool,
    shape_bits: &[i32; NB_EBANDS],
    short_blocks: bool,
    spread: Spread,
    dual_stereo: bool,
    intensity: usize,
    tf_res: &[i32; NB_EBANDS],
    total_bits: i32,
    balance: i32,
    lm: usize,
    coded_bands: usize,
    seed: u32,
) -> (r: FrameShapes)
    requires
        old(enc).wf(),
        bands::frame_env(
            start,
            end,
            shape_bits@,
            short_blocks,
            spread,
            intensity,
            tf_res@,
            total_bits,
            lm,
            coded_bands,
            stereo,
        ).wf(),
        dual_stereo ==> stereo,
        -0x400_0000 <= balance <= 0x400_0000,
    ensures
        final(enc).wf(),
        final(enc)@.wf(),
        final(enc)@.size == old(enc)@.size,
        ({
            let env = bands::frame_env(
                start,
                end,
                shape_bits@,
                short_blocks,
                spread,
                intensity,
                tf_res@,
                total_bits,
                lm,
                coded_bands,
                stereo,
            );
            let zeros = Seq::new((21 * env.channels()) as nat, |k: int| 0u8);
            let d = symbols::mate(old(enc)@, Seq::empty());
            let first = bands::frame_start(d, balance, dual_stereo, seed, zeros);
            &&& shapes_written(env, first, old(enc)@, final(enc)@, r)
            &&& shapes_follow(
                env,
                first,
                old(enc)@,
                final(enc)@,
                end as int,
                since(old(src).talk(), final(src).talk()),
            )
        }),
        old(src).talk().is_prefix_of(final(src).talk()),
{
    proof {
        enc.lemma_wf();
    }
    let args = FrameArgs {
        start,
        end,
        stereo,
        shape_bits: *shape_bits,
        short_blocks,
        spread,
        intensity,
        tf_res: *tf_res,
        total_bits,
        lm,
        coded_bands,
    };
    let ghost env = args.env();
    let channels: usize = if stereo {
        2
    } else {
        1
    };
    let mut masks: Vec<u8> = vec![0u8; 21 * channels];
    let ghost zeros = Seq::new((21 * env.channels()) as nat, |k: int| 0u8);
    assert(masks@ =~= zeros);
    let ghost e0 = enc@;
    let ghost first = bands::frame_start(symbols::mate(e0, Seq::empty()), balance, dual_stereo, seed, zeros);
    let mut plans: Vec<PlannedBand> = Vec::new();
    assert(bands::plans_view(plans@) =~= Seq::<PlannedView>::empty());
    let none: Vec<i32> = Vec::new();
    assert(none@ == Seq::<i32>::empty());
    let mut bal: i32 = balance;
    let mut lowband: usize = 0;
    let mut update: bool = true;
    let mut dual: bool = dual_stereo;
    let mut sd: u32 = seed;
    let mut i: usize = start;
    let ghost mut base: int = 0;
    let ghost mut last = first;
    let ghost t0 = src.talk();
    proof {
        lemma_silence(t0);
    }
    while i < end
        invariant
            enc.wf(),
            enc@.wf(),
            enc@.size == old(enc)@.size,
            env == args.env(),
            args.start == start,
            args.end == end,
            args.stereo == stereo,
            args.shape_bits@ == shape_bits@,
            args.intensity == intensity,
            args.tf_res@ == tf_res@,
            args.total_bits == total_bits,
            args.lm == lm,
            env.wf(),
            channels == env.channels(),
            none@ == Seq::<i32>::empty(),
            start <= i <= end,
            lowband <= i,
            dual ==> stereo,
            masks@.len() == 21 * channels,
            i == start ==> base == 0,
            0 <= base <= 0x2000_0000,
            -0x400_0000 <= bal - base <= 0x400_0000 + 0x10_0000 * (i - start),
            last.balance == bal,
            last.lowband == lowband,
            last.update == update,
            last.dual == dual,
            last.seed == sd,
            last.masks == masks@,
            last.plans == bands::plans_view(plans@),
            run_written(env, first, e0, last, enc@, i as int),
            t0.is_prefix_of(src.talk()),
            shapes_follow(env, first, e0, enc@, i as int, since(t0, src.talk())),
        decreases end - i,
    {
        let ghost before = enc@;
        let ghost st = last;
        let ghost masks0 = masks@;
        let tell: i32 = enc.tell_frac() as i32;
        let s: BandStart = band_start(&args, i, tell, bal, lowband, update, &masks);
        let ghost seen = FrameSeen {
            tell: tell as int,
            balance: bal as int,
            lowband: lowband as int,
            update,
            masks: masks@,
        };
        lowband = s.lowband;
        let n: usize = s.n;
        let b: i32 = s.b;
        let folds: bool = s.source.is_some();
        let merge: bool = dual && i == intensity;
        if merge {
            dual = false;
        }
        let mut ctx = BandCtx {
            i,
            intensity,
            tf_change: tf_res[i],
            remaining_bits: total_bits - tell - 1,
            seed: sd,
        };
        let ghost ctx0 = ctx;
        let ghost t1 = src.talk();
        let ghost mut mid = enc@;
        let ghost mut ctx1 = ctx;
        let ghost mut t2 = t1;
        let ghost plans0 = plans@;
        let plan: BandPlan;
        let xcm: u32;
        let ycm: u32;
        if dual {
            let (x, cx) = encode_band(
                &mut ctx,
                enc,
                src,
                Channel::First,
                n,
                b / 2,
                s.big_b,
                folds,
                lm as i32,
                &none,
                s.xm,
            );
            proof {
                mid = enc@;
                ctx1 = ctx;
                t2 = src.talk();
            }
            let (y, cy) = encode_band(
                &mut ctx,
                enc,
                src,
                Channel::Second,
                n,
                b / 2,
                s.big_b,
                folds,
                lm as i32,
                &none,
                s.ym,
            );
            plan = BandPlan::Dual(x, y);
            xcm = cx;
            ycm = cy;
        } else if stereo {
            let (p, c) = encode_band_stereo(
                &mut ctx,
                enc,
                src,
                n,
                b,
                s.big_b,
                folds,
                lm as i32,
                s.xm | s.ym,
            );
            plan = p;
            xcm = c;
            ycm = c;
        } else {
            let (x, c) = encode_band(
                &mut ctx,
                enc,
                src,
                Channel::Mono,
                n,
                b,
                s.big_b,
                folds,
                lm as i32,
                &none,
                s.xm | s.ym,
            );
            plan = BandPlan::Mono(x);
            xcm = c;
            ycm = c;
        }
        sd = ctx.seed;
        masks[i * channels] = #[verifier::truncate] (xcm as u8);
        masks[i * channels + channels - 1] = #[verifier::truncate] (ycm as u8);
        bal = s.balance + shape_bits[i] + tell;
        update = b > 8 * n as i32;
        plans.push(PlannedBand { lowband: s.source, merge, plan });
        proof {
            if i == start {
                base = tell as int;
            }
            assert(bands::plans_view(plans@) =~= bands::plans_view(plans0).push(plans@.last()@));
            last = FrameState {
                dec: st.dec,
                balance: bal as int,
                lowband: lowband as int,
                update,
                dual,
                seed: sd as int,
                masks: masks@,
                plans: bands::plans_view(plans@),
            };
            let after = enc@;
            assert forall|data: Seq<u8>, whole: Seq<bool>| #[trigger]
                symbols::leads_to(after, data, whole) implies {
                &&& symbols::leads_to(e0, data, whole)
                &&& env.run(first.at(symbols::mate(e0, data)), i + 1) == last.at(symbols::mate(after, data))
            } by {
                let d = symbols::mate(before, data);
                let now = st.at(d);
                lemma_mate_tell(before, data);
                assert(symbols::leads_to(before, data, whole));
                assert(env.run(first.at(symbols::mate(e0, data)), i as int) == now);
                assert(now.seen() == seen);
                assert(ctx0.env(folds) == (PartEnv {
                    i: i as int,
                    intensity: env.intensity,
                    fold: env.folds(seen, i as int),
                }));
                assert(ctx0.state(d) == (PartState {
                    dec: d,
                    remaining: env.total_bits - d.tell_frac() - 1,
                    seed: st.seed,
                }));
                assert(env.step(now, i as int) =~= last.at(symbols::mate(after, data)));
            }
            let t3 = src.talk();
            if dual {
                lemma_since(t1, t2, t3);
            }
            lemma_since(t0, t1, t3);
            assert forall|data: Seq<u8>, whole: Seq<bool>| #[trigger]
                symbols::leads_to(after, data, whole) implies follows(
                env.choices(first.at(symbols::mate(e0, data)), i + 1),
                since(t0, t3),
            ) by {
                let d = symbols::mate(before, data);
                let now = st.at(d);
                let part = ctx0.env(folds);
                let none = Seq::<i32>::empty();
                let tf = env.tf_res[i as int];
                lemma_mate_tell(before, data);
                if dual {
                    let half = b as int / 2;
                    lemma_follows(
                        band_choices(
                            part,
                            ctx0.state(d),
                            Channel::First,
                            n as int,
                            half,
                            env.blocks(),
                            env.lm,
                            tf,
                            none,
                            s.xm,
                        ),
                        since(t1, t2),
                        band_choices(
                            part,
                            ctx1.state(symbols::mate(mid, data)),
                            Channel::Second,
                            n as int,
                            half,
                            env.blocks(),
                            env.lm,
                            tf,
                            none,
                            s.ym,
                        ),
                        since(t2, t3),
                    );
                }
                assert(symbols::leads_to(before, data, whole));
                assert(env.run(first.at(symbols::mate(e0, data)), i as int) == now);
                assert(now.seen() == seen);
                assert(part == (PartEnv {
                    i: i as int,
                    intensity: env.intensity,
                    fold: env.folds(seen, i as int),
                }));
                assert(ctx0.state(d) == (PartState {
                    dec: d,
                    remaining: env.total_bits - d.tell_frac() - 1,
                    seed: st.seed,
                }));
                assert(follows(env.step_choices(now, i as int), since(t1, t3)));
                lemma_follows(
                    env.choices(first.at(symbols::mate(e0, data)), i as int),
                    since(t0, t1),
                    env.step_choices(now, i as int),
                    since(t1, t3),
                );
            }
        }
        i = i + 1;
    }
    FrameShapes { plans, collapse_masks: masks, seed: sd }
}

} // verus!
