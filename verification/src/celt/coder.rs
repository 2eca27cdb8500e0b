//! The writing of a frame: the parts of it in their order, with what the signal decides
//! on the way.

pub mod laws;

use vstd::arithmetic::power2::{lemma2_to64, lemma_pow2_pos, lemma_pow2_strictly_increases, pow2};
use vstd::prelude::*;

use crate::celt::bands::encode::{
    lemma_said, lemma_silence, lemma_since, Channel, Exchange, Image, Place, ShapeSource, Talk,
};
use crate::celt::analysis;
use crate::celt::bands::seed::lemma_run_seed;
use crate::celt::bands::{self, FrameEnv, FrameShapes, FrameState};
use crate::celt::budget::{lemma_end_tell, lemma_head_tell, lemma_header_flags};
use crate::celt::decoder::{FrameInput, Postfilter};
use crate::celt::encoder::{
    self, encode_header, quant_coarse_step, quant_energy_finalise, quant_fine_energy, CeltEncoder, FrontInput,
    FrontPart, HeaderPlan,
};
use crate::celt::energy::{self, lemma_slot, EnergyEnv};
use crate::celt::frame::{lemma_packet_round_trip, lemma_sent_shapes, FrameWish};
use crate::celt::modes::NB_EBANDS;
use crate::celt::rate::{self, AllocInput, Allocation, Settled};
use crate::math::{self, pow2_u32};
use crate::range::decoder::DecoderState;
use crate::range::encoder::EncoderState;
use crate::range::symbols;
use crate::range::RangeEncoder;

verus! {

/// The signal behind a frame. An answer that cannot be coded is replaced by one that
/// can.
pub trait FrameSignal: ShapeSource {
    /// The step that the energy of a channel of a band asks for.
    fn coarse_step(&mut self, band: usize, channel: usize) -> (r: i32)
        ensures
            final(self).talk() == old(self).talk().push(
                Exchange::CoarseStep { band: band as int, ch: channel as int, step: r },
            ),
    ;

    /// Hears the step that was coded.
    fn coarse_coded(&mut self, band: usize, channel: usize, step: i32)
        ensures
            final(self).talk() == old(self).talk().push(
                Exchange::CoarseCoded { band: band as int, ch: channel as int, step },
            ),
    ;

    /// The fine energy values, of which the bands take `fine_quant` bits; that of a
    /// channel of a band stands at band times channels plus channel.
    fn fine_values(&mut self, fine_quant: &[i32; NB_EBANDS]) -> (r: Vec<u32>)
        ensures
            final(self).talk() == old(self).talk().push(
                Exchange::FineValues { fine_quant: fine_quant@, values: r@ },
            ),
    ;

    /// The last energy bits, in the same order.
    fn last_bits(&mut self) -> (r: Vec<bool>)
        ensures
            final(self).talk() == old(self).talk().push(Exchange::LastBits { bits: r@ }),
    ;
}

/// The coarse step that is coded for one that was asked for: the same, but for the
/// smallest number.
pub open spec fn wanted_step(step: i32) -> i32 {
    if step == i32::MIN {
        (i32::MIN + 1) as i32
    } else {
        step
    }
}

impl EnergyEnv {
    /// Whether the signal was asked for the step of channel `ch` of band `i`, the answer
    /// is the one wanted, and the signal was told what was coded for it.
    pub open spec fn coarse_told(
        self,
        e: EncoderState,
        wants: Seq<i32>,
        said: Seq<Exchange>,
        i: int,
        ch: int,
    ) -> bool {
        let slot = i * self.channels + ch;
        let j = 2 * (slot - self.start * self.channels);
        let coded = self.step_had(self.put_coarse(e, wants, i, ch).1, i, wants[slot] as int);
        &&& match said[j] {
            Exchange::CoarseStep { band, ch: ch1, step } => {
                &&& band == i
                &&& ch1 == ch
                &&& wants[slot] == wanted_step(step)
            },
            _ => false,
        }
        &&& said[j + 1] == (Exchange::CoarseCoded { band: i, ch, step: coded as i32 })
    }

    /// Whether `said` is the talk in which the steps wanted of the bands below `i`, and of
    /// the first `ch` channels of band `i`, were asked for and coded.
    pub open spec fn coarse_follows(
        self,
        e: EncoderState,
        wants: Seq<i32>,
        said: Seq<Exchange>,
        i: int,
        ch: int,
    ) -> bool {
        &&& said.len() == 2 * (i * self.channels + ch - self.start * self.channels)
        &&& forall|i1: int, ch1: int|
            self.start <= i1 && 0 <= ch1 < self.channels && (i1 < i || i1 == i && ch1 < ch)
                ==> #[trigger] self.coarse_told(e, wants, said, i1, ch1)
    }
}

/// One more channel of a band was asked for and coded.
proof fn lemma_coarse_told(
    env: EnergyEnv,
    e: EncoderState,
    a: Seq<i32>,
    want: i32,
    said: Seq<Exchange>,
    i: int,
    ch: int,
    x: Exchange,
    y: Exchange,
)
    requires
        env.coarse_follows(e, a, said, i, ch),
        0 <= env.start <= i < 21,
        env.channels == 1 || env.channels == 2,
        0 <= ch < env.channels,
        a.len() == 21 * env.channels,
        ({
            let coded = env.step_had(env.put_coarse(e, a, i, ch).1, i, want as int);
            &&& match x {
                Exchange::CoarseStep { band, ch: ch1, step } => {
                    &&& band == i
                    &&& ch1 == ch
                    &&& want == wanted_step(step)
                },
                _ => false,
            }
            &&& y == (Exchange::CoarseCoded { band: i, ch, step: coded as i32 })
        }),
    ensures
        env.coarse_follows(e, a.update(i * env.channels + ch, want), said.push(x).push(y), i, ch + 1),
{
    let c = env.channels;
    let slot = i * c + ch;
    let b = a.update(slot, want);
    let more = said.push(x).push(y);
    lemma_slot(i, c, ch);
    assert(env.start * c <= i * c) by (nonlinear_arith)
        requires
            env.start <= i,
            c >= 0,
    ;
    assert forall|i1: int, ch1: int|
        env.start <= i1 && 0 <= ch1 < c && (i1 < i || i1 == i && ch1 < ch + 1) implies #[trigger] env.coarse_told(
        e,
        b,
        more,
        i1,
        ch1,
    ) by {
        let slot1 = i1 * c + ch1;
        lemma_slot(i1, c, ch1);
        assert(env.start * c <= i1 * c) by (nonlinear_arith)
            requires
                env.start <= i1,
                c >= 0,
        ;
        if i1 < i {
            assert(i1 * c + c <= i * c) by (nonlinear_arith)
                requires
                    i1 + 1 <= i,
                    c >= 0,
            ;
        }
        lemma_coarse_prefix(env, e, a, b, i1, ch1);
        if slot1 < slot {
            assert(env.coarse_told(e, a, said, i1, ch1));
            let j = 2 * (slot1 - env.start * c);
            assert(more[j] == said[j]);
            assert(more[j + 1] == said[j + 1]);
        }
    }
}

/// The steps of bands that come later make no difference.
proof fn lemma_coarse_prefix(env: EnergyEnv, e: EncoderState, a: Seq<i32>, b: Seq<i32>, i: int, ch: int)
    requires
        env.start >= 0,
        env.channels == 1 || env.channels == 2,
        0 <= ch <= env.channels,
        forall|k: int| env.start * env.channels <= k < i * env.channels + ch ==> a[k] == b[k],
    ensures
        env.put_coarse(e, a, i, ch) == env.put_coarse(e, b, i, ch),
    decreases i - env.start, ch,
{
    if i < env.start || (i == env.start && ch <= 0) {
    } else if ch <= 0 {
        assert((i - 1) * env.channels + env.channels == i * env.channels) by (nonlinear_arith);
        lemma_coarse_prefix(env, e, a, b, i - 1, env.channels);
    } else {
        lemma_coarse_prefix(env, e, a, b, i, ch - 1);
        assert(env.start * env.channels <= i * env.channels) by (nonlinear_arith)
            requires
                env.start <= i,
                env.channels >= 0,
        ;
    }
}

/// Writes the coarse energy steps that the signal asks for; the steps asked for.
fn encode_coarse<S: FrameSignal>(
    enc: &mut RangeEncoder,
    src: &mut S,
    start: usize,
    end: usize,
    channels: usize,
    lm: usize,
    intra: bool,
    budget: u32,
) -> (wants: Vec<i32>)
    requires
        old(enc).wf(),
        start < end <= 21,
        channels == 1 || channels == 2,
        lm <= 3,
        budget <= 0x8_0000,
    ensures
        final(enc).wf(),
        final(enc)@.wf(),
        final(enc)@.size == old(enc)@.size,
        ({
            let env = EnergyEnv {
                start: start as int,
                end: end as int,
                channels: channels as int,
                lm: lm as int,
                intra,
                budget: budget as int,
            };
            &&& final(enc)@ == env.put_coarse(old(enc)@, wants@, end as int, 0).1
            &&& env.coarse_follows(
                old(enc)@,
                wants@,
                bands::encode::since(old(src).talk(), final(src).talk()),
                end as int,
                0,
            )
        }),
        old(src).talk().is_prefix_of(final(src).talk()),
        wants@.len() == 21 * channels,
{
    let ghost env = EnergyEnv {
        start: start as int,
        end: end as int,
        channels: channels as int,
        lm: lm as int,
        intra,
        budget: budget as int,
    };
    let ghost e0 = enc@;
    let ghost t0 = src.talk();
    proof {
        enc.lemma_wf();
        lemma_silence(t0);
    }
    let mut wants: Vec<i32> = vec![0i32; 21 * channels];
    let mut i: usize = start;
    while i < end
        invariant
            enc.wf(),
            enc@.wf(),
            enc@.size == old(enc)@.size,
            start <= i <= end <= 21,
            channels == 1 || channels == 2,
            lm <= 3,
            budget <= 0x8_0000,
            env == (EnergyEnv {
                start: start as int,
                end: end as int,
                channels: channels as int,
                lm: lm as int,
                intra,
                budget: budget as int,
            }),
            wants@.len() == 21 * channels,
            enc@ == env.put_coarse(e0, wants@, i as int, 0).1,
            t0.is_prefix_of(src.talk()),
            env.coarse_follows(e0, wants@, bands::encode::since(t0, src.talk()), i as int, 0),
        decreases end - i,
    {
        let mut ch: usize = 0;
        while ch < channels
            invariant
                enc.wf(),
                enc@.wf(),
                enc@.size == old(enc)@.size,
                start <= i < end <= 21,
                channels == 1 || channels == 2,
                ch <= channels,
                lm <= 3,
                budget <= 0x8_0000,
                env == (EnergyEnv {
                    start: start as int,
                    end: end as int,
                    channels: channels as int,
                    lm: lm as int,
                    intra,
                    budget: budget as int,
                }),
                wants@.len() == 21 * channels,
                enc@ == env.put_coarse(e0, wants@, i as int, ch as int).1,
                t0.is_prefix_of(src.talk()),
                env.coarse_follows(e0, wants@, bands::encode::since(t0, src.talk()), i as int, ch as int),
            decreases channels - ch,
        {
            let ghost t1 = src.talk();
            let mut want: i32 = src.coarse_step(i, ch);
            let ghost t2 = src.talk();
            if want == i32::MIN {
                want = i32::MIN + 1;
            }
            proof {
                lemma_slot(i as int, channels as int, ch as int);
            }
            let ghost before = wants@;
            wants[i * channels + ch] = want;
            proof {
                lemma_coarse_prefix(env, e0, before, wants@, i as int, ch as int);
            }
            let step: i32 = quant_coarse_step(enc, start, end, i, channels, lm, intra, budget, want);
            src.coarse_coded(i, ch, step);
            proof {
                let t3 = src.talk();
                lemma_said(t1, t2.last());
                lemma_said(t2, t3.last());
                lemma_since(t0, t1, t2);
                lemma_since(t0, t2, t3);
                let said = bands::encode::since(t0, t1);
                assert(bands::encode::since(t0, t3) =~= said.push(t2.last()).push(t3.last()));
                lemma_coarse_told(env, e0, before, want, said, i as int, ch as int, t2.last(), t3.last());
            }
            ch = ch + 1;
        }
        proof {
            assert((i + 1) * env.channels == i * env.channels + env.channels) by (nonlinear_arith);
        }
        assert(env.put_coarse(e0, wants@, i + 1, 0) == env.put_coarse(e0, wants@, i as int, channels as int));
        i = i + 1;
    }
    wants
}

/// What stands before the allocation of a frame: the plan of its header, the coarse
/// energy steps that were asked for, and the rest.
pub struct HeadCoded {
    pub plan: HeaderPlan,
    pub coarse: Vec<i32>,
    pub front: FrontPart,
}

/// The value that is coded at `k`: the one given where it fits its bits, else none.
pub open spec fn kept_value(values: Seq<u32>, fine_quant: Seq<i32>, channels: int, k: int) -> u32 {
    let bits = fine_quant[k / channels];
    if bits > 0 && k < values.len() && values[k] < pow2(bits as nat) {
        values[k]
    } else {
        0
    }
}

/// The fine values as far as they fit their bits.
fn kept_values(values: Vec<u32>, fine_quant: &[i32; NB_EBANDS], channels: usize) -> (r: Vec<u32>)
    requires
        channels == 1 || channels == 2,
        forall|j: int| 0 <= j < 21 ==> #[trigger] fine_quant@[j] <= 25,
    ensures
        encoder::fine_ok(fine_quant@, r@, channels as int),
        forall|k: int|
            0 <= k < 21 * channels ==> #[trigger] r@[k] == kept_value(values@, fine_quant@, channels as int, k),
{
    let mut r: Vec<u32> = Vec::new();
    let mut k: usize = 0;
    while k < 21 * channels
        invariant
            channels == 1 || channels == 2,
            k <= 21 * channels,
            r@.len() == k,
            forall|j: int| 0 <= j < 21 ==> #[trigger] fine_quant@[j] <= 25,
            forall|j: int| 0 <= j < k ==> #[trigger] r@[j] == kept_value(values@, fine_quant@, channels as int, j),
        decreases 21 * channels - k,
    {
        let bits: i32 = fine_quant[k / channels];
        assert(fine_quant@[k as int / channels as int] <= 25);
        proof {
            lemma2_to64();
            if 0 < bits < 25 {
                lemma_pow2_strictly_increases(bits as nat, 25);
            }
        }
        if bits > 0 && k < values.len() && values[k] < pow2_u32(bits as u32) {
            r.push(values[k]);
        } else {
            r.push(0);
        }
        k = k + 1;
    }
    proof {
        lemma2_to64();
        let c = channels as int;
        assert forall|i: int, ch: int|
            0 <= i < 21 && 0 <= ch < c && #[trigger] encoder::fine_slot(i, c, ch) && fine_quant@[i] > 0 implies r@[i * c
            + ch] < pow2(fine_quant@[i] as nat) by {
            lemma_slot(i, c, ch);
            math::lemma_div_unique(i * c + ch, c, i);
            let x = r@[i * c + ch];
            assert(x == kept_value(values@, fine_quant@, c, i * c + ch));
            lemma_pow2_pos(fine_quant@[i] as nat);
        }
    }
    r
}

/// As many bits as there are channels of bands; those that are not given are unset.
fn kept_bits(values: Vec<bool>, channels: usize) -> (r: Vec<bool>)
    requires
        channels == 1 || channels == 2,
    ensures
        r@.len() == 21 * channels,
        forall|k: int| 0 <= k < 21 * channels ==> #[trigger] r@[k] == (k < values@.len() && values@[k]),
{
    let mut r: Vec<bool> = Vec::new();
    let mut k: usize = 0;
    while k < 21 * channels
        invariant
            channels == 1 || channels == 2,
            k <= 21 * channels,
            r@.len() == k,
            forall|j: int| 0 <= j < k ==> #[trigger] r@[j] == (j < values@.len() && values@[j]),
        decreases 21 * channels - k,
    {
        r.push(k < values.len() && values[k]);
        k = k + 1;
    }
    r
}

/// What stands in a frame from its allocation on: what the decoder reads of the
/// shapes, and the bits that were left for the last energy bits, which are negative where
/// the shapes went beyond the frame. `behind` is the state behind the shapes.
pub struct TailCoded {
    pub alloc: Allocation,
    /// What was kept back for the anti-collapse flag.
    pub kept: i32,
    pub fine: Vec<u32>,
    pub shapes: FrameShapes,
    pub behind: Ghost<EncoderState>,
    pub last: Vec<bool>,
    pub bits_left: i32,
}

/// The allocation and the fine energy of a frame.
pub struct FrameTail {
    pub alloc: AllocInput,
    pub split: Settled,
    pub fine_quant: Seq<i32>,
    /// What is kept back for the anti-collapse flag.
    pub kept: int,
    /// The state before the band shapes.
    pub last: EncoderState,
}

impl FrameTail {
    /// Which bands come second when the last bits are handed out.
    pub open spec fn fine_priority(self) -> Seq<bool> {
        Seq::new(21, |j: int| self.alloc.fine_priority(self.split, j))
    }
}

impl FrameInput {
    /// The allocation and the fine energy values `fine` behind the front part of a
    /// frame.
    pub open spec fn tail(self, e: EncoderState, front: FrontPart, transient: bool, fine: Seq<u32>) -> FrameTail {
        let alloc = self.put_alloc_input(e, rate::ints(front.offsets@), front.trim as int, transient);
        let choice = front.choice(self.end);
        let split = alloc.put_settle(e, choice);
        let fine_quant = Seq::new(21, |j: int| alloc.fine_quant(split, j) as i32);
        FrameTail {
            alloc,
            split,
            fine_quant,
            kept: self.put_collapse_rsv(e, transient),
            last: encoder::put_fine(alloc.put_after(e, choice), self.start, fine_quant, fine, self.c, self.end, 0),
        }
    }
}

impl FrameInput {
    /// The state behind the coarse energy of a frame.
    pub open spec fn energies(self, e: EncoderState, r: HeadCoded) -> EncoderState {
        self.energy_env(r.plan.intra).put_coarse(self.put_header(e, r.plan), r.coarse@, self.end, 0).1
    }

    /// Whether encoder `c` writes `r`, with the signal's numbers `a`, between two states
    /// of the stream.
    pub open spec fn head_written(
        self,
        c: CeltEncoder,
        e0: EncoderState,
        e1: EncoderState,
        a: FrontInput,
        r: HeadCoded,
    ) -> bool {
        let energies = self.energies(e0, r);
        let b = c.front_boosts(self, energies, a);
        let resolved = self.tf().after_put(energies, a.transient, a.tf_want@, a.tf_select);
        &&& r.coarse@.len() == 21 * self.c
        &&& e1 == self.put_trim(b, a.trim as int)
        &&& r.front.tf_res@ == self.tf().put_res(energies, a.transient, a.tf_want@, a.tf_select)
        &&& r.front.spread == self.spread_had(resolved, c.wanted_spread(a, self.end, self.lm).0)
        &&& rate::ints(r.front.offsets@) == b.offsets
        &&& r.front.total == b.total
        &&& r.front.trim == self.trim_had(b, a.trim as int)
        &&& r.front.intensity == if self.c == 2 {
            c.after_front(self, energies, a).intensity as int
        } else {
            self.end
        }
        &&& r.front.dual_stereo == (self.c == 2 && self.lm != 0 && a.dual_stereo)
    }

    /// What the shapes of a frame depend on, where `r` is written behind its front part.
    pub open spec fn shapes_env(self, front: FrontPart, transient: bool, r: TailCoded) -> FrameEnv {
        bands::frame_env(
            self.start as usize,
            self.end as usize,
            r.alloc.shape_bits@,
            transient,
            front.spread,
            r.alloc.intensity,
            front.tf_res@,
            (64 * self.bytes - r.kept) as i32,
            self.lm as usize,
            r.alloc.coded_bands,
            self.c == 2,
        )
    }

    /// Where the reading of the shapes starts, behind state `e`.
    pub open spec fn shapes_first(self, e: EncoderState, r: TailCoded) -> FrameState {
        bands::frame_start(
            symbols::mate(e, Seq::empty()),
            r.alloc.balance,
            r.alloc.dual_stereo,
            0,
            Seq::new((21 * self.c) as nat, |k: int| 0u8),
        )
    }

    /// Whether `said` is the talk that `r` comes from: the fine energy values, then the
    /// shapes, of which the decoder reads the choices that the answers come to, then the
    /// last energy bits.
    pub open spec fn tail_follows(
        self,
        e0: EncoderState,
        front: FrontPart,
        transient: bool,
        r: TailCoded,
        said: Seq<Exchange>,
    ) -> bool {
        let t = self.tail(e0, front, transient, r.fine@);
        &&& said.len() >= 2
        &&& match said[0] {
            Exchange::FineValues { fine_quant, values } => {
                &&& fine_quant == t.fine_quant
                &&& forall|k: int|
                    0 <= k < 21 * self.c ==> #[trigger] r.fine@[k] == kept_value(values, fine_quant, self.c, k)
            },
            _ => false,
        }
        &&& bands::encode::shapes_follow(
            self.shapes_env(front, transient, r),
            self.shapes_first(t.last, r),
            t.last,
            r.behind@,
            self.end,
            said.subrange(1, said.len() - 1),
        )
        &&& match said.last() {
            Exchange::LastBits { bits } => forall|k: int|
                0 <= k < 21 * self.c ==> #[trigger] r.last@[k] == (k < bits.len() && bits[k]),
            _ => false,
        }
    }

    /// Whether `r` is written behind the front part of a frame, between two states of
    /// the stream.
    pub open spec fn tail_written(
        self,
        e0: EncoderState,
        e1: EncoderState,
        front: FrontPart,
        transient: bool,
        flag: bool,
        r: TailCoded,
    ) -> bool {
        let t = self.tail(e0, front, transient, r.fine@);
        &&& t.alloc.splits_to(t.split, r.alloc)
        &&& r.kept == t.kept
        &&& encoder::fine_ok(t.fine_quant, r.fine@, self.c)
        &&& bands::encode::shapes_written(
            self.shapes_env(front, transient, r),
            self.shapes_first(t.last, r),
            t.last,
            r.behind@,
            r.shapes,
        )
        &&& r.behind@.wf()
        &&& r.last@.len() == 21 * self.c
        &&& e1 == self.put_end(r.behind@, t.kept, t.fine_quant, t.fine_priority(), flag, r.last@)
    }

    /// What a frame that was written holds, as a wish.
    pub open spec fn wish(self, a: FrontInput, h: HeadCoded, t: TailCoded) -> FrameWish {
        FrameWish { header: h.plan, coarse: h.coarse@, front: a, choice: h.front.choice(self.end), fine: t.fine@ }
    }
}

/// What the decoder reads of the bytes of a packet's only frame is what `encode_head` and
/// `encode_tail` wrote, with or without shrinking between them: every number of the
/// frame comes back, and both ends finish with the same range.
pub proof fn lemma_encoded_round_trip(
    c: CeltEncoder,
    inp: FrameInput,
    a: FrontInput,
    h: HeadCoded,
    t: TailCoded,
    bytes: usize,
    head: EncoderState,
    last: EncoderState,
    flag: bool,
)
    requires
        c.wf(),
        inp.c == c.channels,
        bytes <= 1275,
        h.plan.transient == a.transient,
        inp.head_written(c, EncoderState::start(inp.bytes), head, a, h),
        inp.sized(bytes as int).tail_written(
            EncoderState { size: bytes as int, ..head },
            last,
            h.front,
            a.transient,
            flag,
            t,
        ),
        inp.sendable(c, EncoderState::start(inp.bytes), inp.wish(a, h, t), bytes as int),
        last.fits(),
    ensures
        ({
            let w = inp.wish(a, h, t);
            let f = inp.sized(bytes as int).frame(DecoderState::start(last.finished()), 0);
            &&& inp.holds_sent(c, EncoderState::start(inp.bytes), w, bytes as int, f)
            &&& f.alloc.splits_to(f.split, t.alloc)
            &&& bands::plans_view(t.shapes.plans@) == f.shapes.plans
            &&& t.shapes.collapse_masks@ == f.shapes.masks
            &&& f.anti_collapse == (t.kept > 0 && flag)
            &&& encoder::last_matches(f.last.out, t.last@)
            &&& f.last.dec.rng == last.rng
        }),
{
    let e = EncoderState::start(inp.bytes);
    let w = inp.wish(a, h, t);
    let s = inp.sent(c, e, w, bytes as int);
    let small = inp.sized(bytes as int);
    let tail = small.tail(s.front, h.front, a.transient, t.fine@);
    assert(s.alloc == tail.alloc);
    assert(s.fine_quant =~= tail.fine_quant);
    assert(s.fine_priority() =~= tail.fine_priority());
    lemma_sent_shapes(
        c,
        inp,
        e,
        w,
        bytes,
        inp.start as usize,
        inp.end as usize,
        inp.lm as usize,
        h.front,
        t.alloc,
        t.kept,
        0,
    );
    lemma_packet_round_trip(c, inp, w, bytes as int, 0, t.shapes, t.behind@, flag, t.last@);
}

/// A frame that a packet starts with, of at least two bytes, can be sent as `encode_head`
/// and `encode_tail` write it: with short blocks only where it is long enough for them,
/// with a post-filter only where it has the bytes for which a pitch is searched, and in
/// the size that it had or that it was shrunk to.
pub proof fn lemma_sendable(
    c: CeltEncoder,
    inp: FrameInput,
    a: FrontInput,
    h: HeadCoded,
    t: TailCoded,
    bytes: usize,
    head: EncoderState,
    last: EncoderState,
    flag: bool,
    vbr: bool,
    target: int,
)
    requires
        c.wf(),
        inp.wf(),
        inp.c == c.channels,
        2 <= inp.bytes <= 1275,
        c.front_ok(a, inp.start, inp.end),
        h.plan.wf(),
        h.plan.transient == a.transient,
        a.transient ==> inp.lm > 0,
        h.plan.postfilter.gain > 0 ==> inp.bytes > 12 * c.channels,
        inp.head_written(c, EncoderState::start(inp.bytes), head, a, h),
        bytes == if vbr {
            analysis::shrunk_bytes(
                target,
                head.tell_frac(),
                64 * inp.bytes - h.front.total,
                inp.bytes,
                inp.lm,
            )
        } else {
            inp.bytes
        },
        inp.sized(bytes as int).tail_written(
            EncoderState { size: bytes as int, ..head },
            last,
            h.front,
            a.transient,
            flag,
            t,
        ),
    ensures
        inp.sendable(c, EncoderState::start(inp.bytes), inp.wish(a, h, t), bytes as int),
        head.tell() <= inp.total(),
{
    let e = EncoderState::start(inp.bytes);
    let w = inp.wish(a, h, t);
    let s = inp.sent(c, e, w, bytes as int);
    lemma_header_flags(inp, h.plan);
    lemma_head_tell(c, inp, e, h.plan, h.coarse@, a);
    assert(s.front == EncoderState { size: bytes as int, ..head });
    assert(s.front.tell_frac() == head.tell_frac()) by {
        reveal(EncoderState::tell_frac);
    }
    let small = inp.sized(bytes as int);
    let tail = small.tail(s.front, h.front, a.transient, t.fine@);
    assert(s.alloc == tail.alloc);
    assert(s.fine_quant =~= tail.fine_quant);
}

/// Where the decoder's noise generator stands makes no difference to where the reading of
/// a frame ends.
pub proof fn lemma_frame_seed(inp: FrameInput, d: DecoderState, a: int, b: int)
    ensures
        inp.frame(d, a).last == inp.frame(d, b).last,
        inp.frame(d, a).shapes.masks == inp.frame(d, b).shapes.masks,
{
    reveal(FrameInput::frame);
    let header = inp.header(d);
    let (coarse, d1) = inp.energy_env(header.intra).coarse(header.dec, inp.end, 0);
    let tf_res = inp.tf().tf_res(d1, header.transient);
    let d2 = inp.tf().after_tf(d1, header.transient);
    let spread = inp.spread(d2);
    let boosts = inp.boosts(inp.after_spread(d2), inp.end);
    let d3 = inp.after_trim(boosts);
    let rsv = inp.collapse_rsv(d3, header.transient);
    let alloc = inp.alloc_input(boosts, header.transient);
    let t = alloc.settle(d3);
    let fq = Seq::new(21, |j: int| alloc.fine_quant(t, j) as i32);
    let (fine, d4) = energy::fine(alloc.after(d3), inp.start, fq, inp.c, inp.end, 0);
    let env = inp.shape_env(header, spread, tf_res, alloc, t, rsv);
    let first = FrameState {
        dec: d4,
        balance: alloc.balance_at(t, t.coded),
        lowband: 0,
        update: true,
        dual: t.dual,
        seed: a,
        masks: Seq::new((21 * inp.c) as nat, |k: int| 0u8),
        plans: Seq::empty(),
    };
    let other = FrameState { seed: b, ..first };
    lemma_run_seed(env, first, other, inp.end);
    assert(inp.frame(d, a).shapes == env.run(first, inp.end));
    assert(inp.frame(d, b).shapes == env.run(other, inp.end));
    assert(env.run(first, inp.end).masks == env.run(first, inp.end).seen().masks);
    assert(env.run(other, inp.end).masks == env.run(other, inp.end).seen().masks);
}

impl CeltEncoder {
    /// Writes what stands before the allocation of a frame: its header, the coarse
    /// energy steps that the signal asks for, and resolutions, spread, boosts and tilt.
    /// The signal is asked for each step in turn and told what was coded for it.
    pub fn encode_head<S: FrameSignal>(
        &mut self,
        enc: &mut RangeEncoder,
        src: &mut S,
        start: usize,
        end: usize,
        lm: usize,
        nb_bytes: usize,
        postfilter: Postfilter,
        input: &FrontInput,
    ) -> (r: HeadCoded)
        requires
            old(self).wf(),
            old(enc).wf(),
            lm <= 3,
            nb_bytes <= 1275,
            old(self).front_ok(*input, start as int, end as int),
            (HeaderPlan { postfilter, transient: input.transient, intra: false }).wf(),
        ensures
            final(self).wf(),
            final(enc).wf(),
            final(enc)@.wf(),
            final(enc)@.size == old(enc)@.size,
            r.plan == (HeaderPlan { postfilter, transient: input.transient, intra: old(self).frames == 0 }),
            ({
                let inp = FrameInput {
                    bytes: nb_bytes as int,
                    c: old(self).channels as int,
                    lm: lm as int,
                    start: start as int,
                    end: end as int,
                };
                let energies = inp.energies(old(enc)@, r);
                &&& inp.head_written(*old(self), old(enc)@, final(enc)@, *input, r)
                &&& inp.energy_env(r.plan.intra).coarse_follows(
                    inp.put_header(old(enc)@, r.plan),
                    r.coarse@,
                    bands::encode::since(old(src).talk(), final(src).talk()),
                    end as int,
                    0,
                )
                &&& *final(self) == old(self).after_front(inp, energies, *input)
                &&& inp.holds_header(old(enc)@, r.plan) ==> final(enc)@.tell() <= inp.total()
            }),
            old(src).talk().is_prefix_of(final(src).talk()),
            r.front.wf(),
            encoder::resolved(r.front.tf_res@, start as int, end as int, lm as int, input.transient),
    {
        let ghost inp = FrameInput {
            bytes: nb_bytes as int,
            c: self.channels as int,
            lm: lm as int,
            start: start as int,
            end: end as int,
        };
        let ghost e0 = enc@;
        proof {
            enc.lemma_wf();
        }
        let plan: HeaderPlan = self.header_plan(postfilter, input.transient);
        proof {
            let plain = FrameInput { c: 1, end: 21, ..inp };
            reveal(FrameInput::put_header);
            assert(plain.put_header(enc@, plan) == inp.put_header(enc@, plan));
        }
        encode_header(enc, start, lm, nb_bytes, plan);
        let coarse: Vec<i32> = encode_coarse(
            enc,
            src,
            start,
            end,
            self.channels,
            lm,
            plan.intra,
            8 * nb_bytes as u32,
        );
        proof {
            if inp.holds_header(e0, plan) {
                lemma_head_tell(*self, inp, e0, plan, coarse@, *input);
            }
        }
        let front: FrontPart = self.encode_front(enc, start, end, lm, nb_bytes, input);
        HeadCoded { plan, coarse, front }
    }

    /// Writes the rest of a frame of `nb_bytes` bytes: the allocation, the fine energy
    /// values and the band shapes that the signal has, the anti-collapse flag and the
    /// last energy bits. Moves the encoder past the frame.
    pub fn encode_tail<S: FrameSignal>(
        &mut self,
        enc: &mut RangeEncoder,
        src: &mut S,
        start: usize,
        end: usize,
        lm: usize,
        nb_bytes: usize,
        transient: bool,
        front: &FrontPart,
    ) -> (r: TailCoded)
        requires
            old(self).wf(),
            old(enc).wf(),
            start < end <= 21,
            lm <= 3,
            nb_bytes <= 1275,
            front.wf(),
            encoder::resolved(front.tf_res@, start as int, end as int, lm as int, transient),
        ensures
            final(self).wf(),
            final(enc).wf(),
            final(enc)@.size == old(enc)@.size,
            ({
                let inp = FrameInput {
                    bytes: nb_bytes as int,
                    c: old(self).channels as int,
                    lm: lm as int,
                    start: start as int,
                    end: end as int,
                };
                let flag = old(self).consec_transient < 2;
                &&& inp.tail_written(old(enc)@, final(enc)@, *front, transient, flag, r)
                &&& inp.tail_follows(
                    old(enc)@,
                    *front,
                    transient,
                    r,
                    bands::encode::since(old(src).talk(), final(src).talk()),
                )
                &&& r.bits_left == inp.total() - inp.put_anti_collapse(r.behind@, r.kept as int, flag).tell()
                &&& r.bits_left >= 0 ==> final(enc)@.tell() <= inp.total()
                &&& r.bits_left >= 0 && old(enc)@.size == nb_bytes ==> final(enc)@.fits()
                &&& *final(self) == (CeltEncoder {
                    last_coded_bands: r.alloc.coded_bands,
                    consec_transient: if transient {
                        math::min(old(self).consec_transient + 1, u32::MAX as int) as u32
                    } else {
                        0
                    },
                    last_transient: transient,
                    frames: math::min(old(self).frames + 1, u64::MAX as int) as u64,
                    final_range: final(enc)@.rng as u32,
                    ..*old(self)
                })
            }),
            old(src).talk().is_prefix_of(final(src).talk()),
            r.alloc.bounded(old(self).channels as int),
    {
        let ghost t0 = src.talk();
        let channels: usize = self.channels;
        let ghost inp = FrameInput {
            bytes: nb_bytes as int,
            c: self.channels as int,
            lm: lm as int,
            start: start as int,
            end: end as int,
        };
        let ghost e0 = enc@;
        let (alloc, kept) = self.allocate(enc, start, end, lm, nb_bytes, transient, front);
        let ghost t = inp.tail(e0, *front, transient, Seq::empty());
        proof {
            assert forall|j: int| 0 <= j < 21 implies #[trigger] alloc.fine_quant@[j] == t.fine_quant[j] by {
                assert(alloc.fine_quant@[j] == t.alloc.fine_quant(t.split, j));
            }
            assert(alloc.fine_quant@ =~= t.fine_quant);
            assert(alloc.fine_priority@ =~= t.fine_priority());
        }
        let fine: Vec<u32> = kept_values(src.fine_values(&alloc.fine_quant), &alloc.fine_quant, channels);
        let ghost t1 = src.talk();
        quant_fine_energy(enc, start, end, &alloc.fine_quant, channels, &fine);
        let shapes: FrameShapes = self.encode_shapes(
            enc,
            src,
            start,
            end,
            lm,
            nb_bytes,
            transient,
            front,
            &alloc,
            kept,
            0,
        );
        let ghost t2 = src.talk();
        let behind: Ghost<EncoderState> = Ghost(enc@);
        self.encode_anti_collapse(enc, kept);
        let bits_left: i32 = 8 * nb_bytes as i32 - enc.tell() as i32;
        let last: Vec<bool> = kept_bits(src.last_bits(), channels);
        quant_energy_finalise(
            enc,
            start,
            end,
            &alloc.fine_quant,
            &alloc.fine_priority,
            bits_left,
            channels,
            &last,
        );
        self.finish_frame(transient, enc.range_size());
        proof {
            let flag = old(self).consec_transient < 2;
            if bits_left >= 0 {
                lemma_end_tell(inp, behind@, kept as int, t.fine_quant, t.fine_priority(), flag, last@);
                if enc@.size == nb_bytes {
                    enc.lemma_room();
                }
            }
            let t3 = src.talk();
            lemma_said(t0, t1.last());
            lemma_said(t2, t3.last());
            lemma_since(t0, t1, t2);
            lemma_since(t0, t2, t3);
            let said = bands::encode::since(t0, t3);
            assert(said.subrange(1, said.len() - 1) =~= bands::encode::since(t1, t2));
        }
        TailCoded { alloc, kept, fine, shapes, behind, last, bits_left }
    }
}

/// A signal whose answers are given beforehand. Each list is used up from its end; where
/// it is used up, the answer is zero, unset or empty.
pub struct Answers {
    pub angles: Vec<i32>,
    pub pulses: Vec<Vec<i32>>,
    pub flags: Vec<bool>,
    pub steps: Vec<i32>,
    pub fine: Vec<u32>,
    pub last: Vec<bool>,
    pub talk: Ghost<Seq<Exchange>>,
}

/// The last of a list, or else `none`.
pub open spec fn last_or<T>(s: Seq<T>, none: T) -> T {
    if s.len() > 0 {
        s.last()
    } else {
        none
    }
}

/// A list without its last item.
pub open spec fn but_last<T>(s: Seq<T>) -> Seq<T> {
    if s.len() > 0 {
        s.drop_last()
    } else {
        s
    }
}

/// Takes the last number of a list.
fn take_number(v: &mut Vec<i32>) -> (r: i32)
    ensures
        r == last_or(old(v)@, 0),
        final(v)@ == but_last(old(v)@),
{
    match v.pop() {
        Some(x) => x,
        None => 0,
    }
}

/// Takes the last flag of a list.
fn take_flag(v: &mut Vec<bool>) -> (r: bool)
    ensures
        r == last_or(old(v)@, false),
        final(v)@ == but_last(old(v)@),
{
    match v.pop() {
        Some(x) => x,
        None => false,
    }
}

impl Answers {
    /// A signal that was asked nothing yet.
    pub fn new(
        angles: Vec<i32>,
        pulses: Vec<Vec<i32>>,
        flags: Vec<bool>,
        steps: Vec<i32>,
        fine: Vec<u32>,
        last: Vec<bool>,
    ) -> (r: Answers)
        ensures
            r == (Answers { angles, pulses, flags, steps, fine, last, talk: Ghost(Seq::empty()) }),
    {
        Answers { angles, pulses, flags, steps, fine, last, talk: Ghost(Seq::empty()) }
    }
}

impl ShapeSource for Answers {
    open spec fn talk(&self) -> Talk {
        self.talk@
    }

    fn angle(&mut self, at: Place, offset: usize, half: usize) -> (r: i32)
        ensures
            r == last_or(old(self).angles@, 0),
            final(self).angles@ == but_last(old(self).angles@),
            *final(self) == (Answers { angles: final(self).angles, talk: final(self).talk, ..*old(self) }),
    {
        let r: i32 = take_number(&mut self.angles);
        self.talk = Ghost(
            self.talk@.push(Exchange::Angle { at, offset: offset as int, half: half as int, angle: r }),
        );
        r
    }

    fn pulses(&mut self, at: Place, offset: usize, len: usize, blocks: usize, count: usize) -> (r: Vec<i32>)
        ensures
            old(self).pulses@.len() > 0 ==> r@ == old(self).pulses@.last()@,
            old(self).pulses@.len() == 0 ==> r@ == Seq::<i32>::empty(),
            final(self).pulses@ == but_last(old(self).pulses@),
            *final(self) == (Answers { pulses: final(self).pulses, talk: final(self).talk, ..*old(self) }),
    {
        let r: Vec<i32> = match self.pulses.pop() {
            Some(y) => y,
            None => Vec::new(),
        };
        self.talk = Ghost(
            self.talk@.push(
                Exchange::Pulses {
                    at,
                    offset: offset as int,
                    len: len as int,
                    blocks: blocks as int,
                    count: count as int,
                    pulses: r@,
                },
            ),
        );
        r
    }

    fn sign(&mut self, band: usize, channel: Channel) -> (r: bool)
        ensures
            r == last_or(old(self).flags@, false),
            final(self).flags@ == but_last(old(self).flags@),
            *final(self) == (Answers { flags: final(self).flags, talk: final(self).talk, ..*old(self) }),
    {
        let r: bool = take_flag(&mut self.flags);
        self.talk = Ghost(self.talk@.push(Exchange::Sign { band: band as int, channel, negative: r }));
        r
    }

    fn stereo_angle(&mut self, band: usize) -> (r: i32)
        ensures
            r == last_or(old(self).angles@, 0),
            final(self).angles@ == but_last(old(self).angles@),
            *final(self) == (Answers { angles: final(self).angles, talk: final(self).talk, ..*old(self) }),
    {
        let r: i32 = take_number(&mut self.angles);
        self.talk = Ghost(self.talk@.push(Exchange::StereoAngle { band: band as int, angle: r }));
        r
    }

    fn combine(&mut self, band: usize, image: Image)
        ensures
            *final(self) == (Answers { talk: final(self).talk, ..*old(self) }),
    {
        self.talk = Ghost(self.talk@.push(Exchange::Combined { band: band as int, image }));
    }

    fn negated(&mut self, band: usize, swapped: bool) -> (r: bool)
        ensures
            r == last_or(old(self).flags@, false),
            final(self).flags@ == but_last(old(self).flags@),
            *final(self) == (Answers { flags: final(self).flags, talk: final(self).talk, ..*old(self) }),
    {
        let r: bool = take_flag(&mut self.flags);
        self.talk = Ghost(self.talk@.push(Exchange::Negated { band: band as int, swapped, negated: r }));
        r
    }
}

impl FrameSignal for Answers {
    fn coarse_step(&mut self, band: usize, channel: usize) -> (r: i32)
        ensures
            r == last_or(old(self).steps@, 0),
            final(self).steps@ == but_last(old(self).steps@),
            *final(self) == (Answers { steps: final(self).steps, talk: final(self).talk, ..*old(self) }),
    {
        let r: i32 = take_number(&mut self.steps);
        self.talk = Ghost(
            self.talk@.push(Exchange::CoarseStep { band: band as int, ch: channel as int, step: r }),
        );
        r
    }

    fn coarse_coded(&mut self, band: usize, channel: usize, step: i32)
        ensures
            *final(self) == (Answers { talk: final(self).talk, ..*old(self) }),
    {
        self.talk = Ghost(
            self.talk@.push(Exchange::CoarseCoded { band: band as int, ch: channel as int, step }),
        );
    }

    fn fine_values(&mut self, fine_quant: &[i32; NB_EBANDS]) -> (r: Vec<u32>)
        ensures
            r@ == old(self).fine@,
            final(self).fine@ == Seq::<u32>::empty(),
            *final(self) == (Answers { fine: final(self).fine, talk: final(self).talk, ..*old(self) }),
    {
        let mut r: Vec<u32> = Vec::new();
        std::mem::swap(&mut r, &mut self.fine);
        self.talk = Ghost(self.talk@.push(Exchange::FineValues { fine_quant: fine_quant@, values: r@ }));
        r
    }

    fn last_bits(&mut self) -> (r: Vec<bool>)
        ensures
            r@ == old(self).last@,
            final(self).last@ == Seq::<bool>::empty(),
            *final(self) == (Answers { last: final(self).last, talk: final(self).talk, ..*old(self) }),
    {
        let mut r: Vec<bool> = Vec::new();
        std::mem::swap(&mut r, &mut self.last);
        self.talk = Ghost(self.talk@.push(Exchange::LastBits { bits: r@ }));
        r
    }
}

} // verus!
