//! A frame as the encoder writes it: the allocation, the band shapes, and what the
//! decoder reads of all that was written.

use vstd::arithmetic::power2::lemma2_to64;
use vstd::prelude::*;

use crate::celt::bands::encode::{quant_all_bands_enc, ShapeSource};
use crate::celt::bands::{self, FrameEnv, FrameShapes, FrameState};
use crate::celt::decoder::{FrameInput, FrameSpec};
use crate::celt::encoder::{
    self, lemma_coarse_round_trip, lemma_fine_round_trip, lemma_front_back, lemma_front_round_trip, lemma_header_back,
    lemma_header_round_trip, lemma_last_back, lemma_last_round_trip, lemma_small_entry, BoostPut, CeltEncoder, FrontInput, FrontPart, HeaderPlan,
};
use crate::celt::energy::{self, EnergyEnv, SMALL_ENERGY_ICDF};
use crate::celt::energy_model::lemma_model_fits;
use crate::celt::laplace;
use crate::celt::modes::{self, NB_EBANDS};
use crate::celt::rate::encode::{encode_allocation, AllocChoice};
use crate::celt::rate::{self, init_caps, AllocInput, Allocation, Settled};
use crate::celt::shrink::{self, lemma_eighths, lemma_same_front, lemma_same_header};
use crate::math;
use crate::range::decoder::{DecoderState, BIT_LIMIT};
use crate::range::encoder::EncoderState;
use crate::range::symbols::{self, lemma_finished_leads, lemma_start, lemma_start_wf, lemma_symbol, lemma_symbol_back, Symbol};
use crate::range::RangeEncoder;

verus! {

impl FrameInput {
    /// What is kept back for the anti-collapse flag.
    pub open spec fn put_collapse_rsv(self, e: EncoderState, transient: bool) -> int {
        if transient && self.lm >= 2 && 64 * self.bytes - e.tell_frac() - 1 >= 8 * (self.lm + 2) {
            8
        } else {
            0
        }
    }

    /// The allocation's input, with boosts and a tilt that the decoder will have.
    pub open spec fn put_alloc_input(
        self,
        e: EncoderState,
        offsets: Seq<int>,
        trim: int,
        transient: bool,
    ) -> AllocInput {
        AllocInput {
            start: self.start,
            end: self.end,
            offsets,
            cap: Seq::new(21, |j: int| rate::band_cap(self.lm, self.c, j)),
            trim,
            total: 64 * self.bytes - e.tell_frac() - 1 - self.put_collapse_rsv(e, transient),
            c: self.c,
            lm: self.lm,
        }
    }
}

impl FrontPart {
    /// The decisions of the allocation: the signal reaches all bands below `end`.
    pub open spec fn choice(&self, end: int) -> AllocChoice {
        AllocChoice {
            signal_bandwidth: (end - 1) as usize,
            intensity: self.intensity,
            dual_stereo: self.dual_stereo,
        }
    }
}

impl CeltEncoder {
    /// Encodes the allocation of a frame of `nb_bytes` bytes. Gives it, and what is
    /// kept back for the anti-collapse flag.
    pub fn allocate(
        &mut self,
        enc: &mut RangeEncoder,
        start: usize,
        end: usize,
        lm: usize,
        nb_bytes: usize,
        transient: bool,
        front: &FrontPart,
    ) -> (r: (Allocation, i32))
        requires
            old(self).wf(),
            old(enc).wf(),
            start < end <= 21,
            lm <= 3,
            nb_bytes <= 1275,
            front.wf(),
        ensures
            final(self).wf(),
            final(enc).wf(),
            final(enc)@.wf(),
            final(enc)@.size == old(enc)@.size,
            ({
                let inp = FrameInput {
                    bytes: nb_bytes as int,
                    c: old(self).channels as int,
                    lm: lm as int,
                    start: start as int,
                    end: end as int,
                };
                let alloc = inp.put_alloc_input(
                    old(enc)@,
                    rate::ints(front.offsets@),
                    front.trim as int,
                    transient,
                );
                let choice = front.choice(end as int);
                &&& alloc.splits_to(alloc.put_settle(old(enc)@, choice), r.0)
                &&& final(enc)@ == alloc.put_after(old(enc)@, choice)
                &&& r.1 == inp.put_collapse_rsv(old(enc)@, transient)
                &&& *final(self) == (CeltEncoder { last_coded_bands: r.0.coded_bands, ..*old(self) })
            }),
            r.0.bounded(old(self).channels as int),
            r.1 == 0 || r.1 == 8,
    {
        let ghost e0 = enc@;
        let (bits, kept) = self.allocation_budget(enc, nb_bytes, transient, lm);
        let caps: [i32; NB_EBANDS] = init_caps(lm, self.channels);
        let choice = AllocChoice {
            signal_bandwidth: end - 1,
            intensity: front.intensity,
            dual_stereo: front.dual_stereo,
        };
        proof {
            let inp = FrameInput {
                bytes: nb_bytes as int,
                c: self.channels as int,
                lm: lm as int,
                start: start as int,
                end: end as int,
            };
            let want = inp.put_alloc_input(enc@, rate::ints(front.offsets@), front.trim as int, transient);
            let alloc = rate::alloc_input(
                start,
                end,
                front.offsets@,
                caps@,
                front.trim as i32,
                bits,
                self.channels,
                lm,
            );
            assert(alloc.cap =~= want.cap);
            assert(alloc == want);
            enc.lemma_wf();
            assert forall|j: int| 0 <= j < 21 implies 0 <= #[trigger] alloc.offsets[j] <= 0x10_0000 by {
                assert(alloc.offsets[j] == front.offsets@[j]);
            }
            assert forall|j: int| 0 <= j < 21 implies 0 <= #[trigger] alloc.cap[j] <= 0x10_0000 by {
                assert(alloc.cap[j] == caps@[j]);
            }
        }
        let alloc: Allocation = encode_allocation(
            enc,
            start,
            end,
            &front.offsets,
            &caps,
            front.trim as i32,
            bits,
            self.channels,
            lm,
            choice,
        );
        proof {
            let inp = rate::alloc_input(
                start,
                end,
                front.offsets@,
                caps@,
                front.trim as i32,
                bits,
                self.channels,
                lm,
            );
            inp.lemma_put_allocation(e0, choice);
            inp.lemma_budget();
            let t = inp.put_settle(e0, choice);
            assert forall|j: int| 0 <= j < 21 implies 0 <= #[trigger] alloc.shape_bits@[j] <= 0x10_0000 by {
                assert(0 <= inp.shape_bits(t, j) <= math::max(inp.cap[j], 8 * inp.c));
                assert(inp.cap[j] == caps@[j]);
            }
            assert forall|j: int| 0 <= j < 21 implies 0 <= #[trigger] alloc.fine_quant@[j] <= 8 by {
                assert(0 <= inp.fine_quant(t, j) <= 8);
            }
        }
        self.last_coded_bands = alloc.coded_bands;
        (alloc, kept)
    }

    /// Encodes the band shapes of a frame of `nb_bytes` bytes, as the signal has them;
    /// what the decoder reads of them.
    pub fn encode_shapes<S: ShapeSource>(
        &self,
        enc: &mut RangeEncoder,
        src: &mut S,
        start: usize,
        end: usize,
        lm: usize,
        nb_bytes: usize,
        transient: bool,
        front: &FrontPart,
        alloc: &Allocation,
        kept: i32,
        seed: u32,
    ) -> (r: FrameShapes)
        requires
            self.wf(),
            old(enc).wf(),
            start < end <= 21,
            lm <= 3,
            nb_bytes <= 1275,
            alloc.bounded(self.channels as int),
            encoder::resolved(front.tf_res@, start as int, end as int, lm as int, transient),
            0 <= kept <= 8,
        ensures
            final(enc).wf(),
            final(enc)@.wf(),
            final(enc)@.size == old(enc)@.size,
            ({
                let env = bands::frame_env(
                    start,
                    end,
                    alloc.shape_bits@,
                    transient,
                    front.spread,
                    alloc.intensity,
                    front.tf_res@,
                    (64 * nb_bytes - kept) as i32,
                    lm,
                    alloc.coded_bands,
                    self.channels == 2,
                );
                let first = bands::frame_start(
                    symbols::mate(old(enc)@, Seq::empty()),
                    alloc.balance,
                    alloc.dual_stereo,
                    seed,
                    Seq::new((21 * env.channels()) as nat, |k: int| 0u8),
                );
                &&& bands::encode::shapes_written(env, first, old(enc)@, final(enc)@, r)
                &&& bands::encode::shapes_follow(
                    env,
                    first,
                    old(enc)@,
                    final(enc)@,
                    end as int,
                    bands::encode::since(old(src).talk(), final(src).talk()),
                )
            }),
            old(src).talk().is_prefix_of(final(src).talk()),
    {
        proof {
            let env = bands::frame_env(
                start,
                end,
                alloc.shape_bits@,
                transient,
                front.spread,
                alloc.intensity,
                front.tf_res@,
                (64 * nb_bytes - kept) as i32,
                lm,
                alloc.coded_bands,
                self.channels == 2,
            );
            assert forall|j: int| 0 <= j < 21 implies 0 <= #[trigger] env.shape_bits[j] <= 0x10_0000 by {
                assert(env.shape_bits[j] == alloc.shape_bits@[j]);
            }
            assert forall|j: int| env.start <= j < env.end implies bands::tf_fits(
                env.blocks(),
                #[trigger] env.tf_res[j],
            ) by {
                assert(env.tf_res[j] == front.tf_res@[j]);
            }
        }
        quant_all_bands_enc(
            enc,
            src,
            start,
            end,
            self.channels == 2,
            &alloc.shape_bits,
            transient,
            front.spread,
            alloc.dual_stereo,
            alloc.intensity,
            &front.tf_res,
            64 * nb_bytes as i32 - kept,
            alloc.balance,
            lm,
            alloc.coded_bands,
            seed,
        )
    }
}

impl EnergyEnv {
    /// The coarse steps of the bands below `i` and of the first `ch` channels of
    /// band `i` that the decoder will read, with the stream after them. The wanted
    /// step of a channel of a band stands at band times channels plus channel.
    pub open spec fn put_coarse(self, e: EncoderState, wants: Seq<i32>, i: int, ch: int) -> (Seq<i32>, EncoderState)
        decreases i - self.start, ch,
    {
        if i < self.start || (i == self.start && ch <= 0) {
            (Seq::new((21 * self.channels) as nat, |k: int| 0i32), e)
        } else if ch <= 0 {
            self.put_coarse(e, wants, i - 1, self.channels)
        } else {
            let (s, e1) = self.put_coarse(e, wants, i, ch - 1);
            let slot = i * self.channels + ch - 1;
            let want = wants[slot] as int;
            (s.update(slot, self.step_read(e1, i, want) as i32), self.put_step(e1, i, want))
        }
    }

    /// A buffer that can come of the state after a step can come of the one before.
    pub proof fn lemma_step_back(self, e: EncoderState, i: int, want: int, data: Seq<u8>, whole: Seq<bool>)
        requires
            e.wf(),
            self.wf(),
            self.start <= i < self.end,
        ensures
            self.put_step(e, i, want).wf(),
            symbols::grows(e, self.put_step(e, i, want)),
            symbols::leads_to(self.put_step(e, i, want), data, whole) ==> symbols::leads_to(e, data, whole),
    {
        let q = self.held(e, i, want);
        let left = self.budget - e.tell();
        if left >= 15 {
            lemma_model_fits(self.lm, self.intra, i);
            let fs = self.zero_freq(i);
            let decay = self.decay(i);
            let c = laplace::coded(q, fs, decay);
            laplace::lemma_coded(q, fs, decay);
            lemma_symbol_back(e, data, Symbol::Part { fl: c.fl, fh: c.fh, ft: 32768 }, whole);
        } else if left >= 2 {
            let k = if q == 0 {
                0int
            } else if q < 0 {
                1
            } else {
                2
            };
            lemma_small_entry(k);
            lemma_symbol_back(e, data, Symbol::Entry { k, icdf: SMALL_ENERGY_ICDF@, ftb: 2 }, whole);
        } else if left >= 1 {
            lemma_symbol_back(e, data, Symbol::Bit { bit: q < 0, logp: 1 }, whole);
        }
    }

    /// The decoder reads the coarse steps that were written.
    pub proof fn lemma_coarse_steps_round_trip(
        self,
        e: EncoderState,
        d: DecoderState,
        wants: Seq<i32>,
        i: int,
        ch: int,
        whole: Seq<bool>,
    )
        requires
            symbols::agrees(e, d),
            e.wf(),
            self.wf(),
            self.start <= i,
            i < self.end || (i == self.end && ch <= 0),
            ch <= self.channels,
        ensures
            self.put_coarse(e, wants, i, ch).1.wf(),
            symbols::grows(e, self.put_coarse(e, wants, i, ch).1),
            symbols::leads_to(self.put_coarse(e, wants, i, ch).1, d.data, whole) ==> {
                let (s, p) = self.put_coarse(e, wants, i, ch);
                let (q, t) = self.coarse(d, i, ch);
                &&& symbols::leads_to(e, d.data, whole)
                &&& symbols::agrees(p, t)
                &&& t.data == d.data
                &&& q == s
            },
        decreases i - self.start, ch,
    {
        if i == self.start && ch <= 0 {
        } else if ch <= 0 {
            self.lemma_coarse_steps_round_trip(e, d, wants, i - 1, self.channels, whole);
        } else {
            self.lemma_coarse_steps_round_trip(e, d, wants, i, ch - 1, whole);
            let (s, p) = self.put_coarse(e, wants, i, ch - 1);
            let (q, t) = self.coarse(d, i, ch - 1);
            let want = wants[i * self.channels + ch - 1] as int;
            self.lemma_step_back(p, i, want, d.data, whole);
            if symbols::leads_to(self.put_step(p, i, want), d.data, whole) {
                lemma_coarse_round_trip(self, p, t, i, want, whole);
            }
        }
    }
}

/// What the encoder puts into a frame, up to the band shapes: what stands before the
/// coarse energy, the wanted coarse steps, what stands between them and the
/// allocation, the decisions of the allocation, and the fine energy values.
pub struct FrameWish {
    pub header: HeaderPlan,
    pub coarse: Seq<i32>,
    pub front: FrontInput,
    pub choice: AllocChoice,
    pub fine: Seq<u32>,
}

/// How a frame comes out: the states behind its parts, the coarse steps, the boosts,
/// the allocation and the fine bits of the bands.
pub struct FrameSent {
    pub header: EncoderState,
    pub coarse: Seq<i32>,
    pub energies: EncoderState,
    pub boosts: BoostPut,
    pub front: EncoderState,
    pub alloc: AllocInput,
    pub split: Settled,
    pub fine_quant: Seq<i32>,
    /// What is kept back for the anti-collapse flag.
    pub kept: int,
    pub last: EncoderState,
}

impl FrameInput {
    /// A frame as written by encoder `c`, up to the band shapes: it is shrunk to
    /// `bytes` bytes before the allocation.
    pub open spec fn sent(self, c: CeltEncoder, e: EncoderState, w: FrameWish, bytes: int) -> FrameSent {
        let header = self.put_header(e, w.header);
        let (coarse, energies) = self.energy_env(w.header.intra).put_coarse(header, w.coarse, self.end, 0);
        let boosts = c.front_boosts(self, energies, w.front);
        let front = EncoderState { size: bytes, ..self.put_trim(boosts, w.front.trim as int) };
        let alloc = self.sized(bytes).put_alloc_input(
            front,
            boosts.offsets,
            self.trim_had(boosts, w.front.trim as int),
            w.header.transient,
        );
        let split = alloc.put_settle(front, w.choice);
        let fine_quant = Seq::new(21, |j: int| alloc.fine_quant(split, j) as i32);
        FrameSent {
            header,
            coarse,
            energies,
            boosts,
            front,
            alloc,
            split,
            fine_quant,
            kept: self.sized(bytes).put_collapse_rsv(front, w.header.transient),
            last: encoder::put_fine(
                alloc.put_after(front, w.choice),
                self.start,
                fine_quant,
                w.fine,
                self.c,
                self.end,
                0,
            ),
        }
    }
}

impl FrameInput {
    /// The input of the band shapes of a frame that was written.
    pub open spec fn sent_env(self, c: CeltEncoder, e: EncoderState, w: FrameWish, bytes: int) -> FrameEnv {
        let s = self.sent(c, e, w, bytes);
        let e1 = self.tf().after_put(s.energies, w.front.transient, w.front.tf_want@, w.front.tf_select);
        FrameEnv {
            start: self.start,
            end: self.end,
            shape_bits: Seq::new(21, |j: int| s.alloc.shape_bits(s.split, j)),
            short_blocks: w.header.transient,
            spread: self.spread_had(e1, c.wanted_spread(w.front, self.end, self.lm).0),
            intensity: s.split.intensity,
            tf_res: rate::ints(
                self.tf().put_res(s.energies, w.front.transient, w.front.tf_want@, w.front.tf_select),
            ),
            total_bits: 64 * bytes - s.kept,
            lm: self.lm,
            coded_bands: s.split.coded,
            stereo: self.c == 2,
        }
    }

    /// Where the band shapes of a frame that was written start.
    pub open spec fn sent_start(self, s: FrameSent, seed: int) -> FrameState {
        FrameState {
            dec: symbols::mate(s.last, Seq::empty()),
            balance: s.alloc.balance_at(s.split, s.split.coded),
            lowband: 0,
            update: true,
            dual: s.split.dual,
            seed,
            masks: Seq::new((21 * self.c) as nat, |k: int| 0u8),
            plans: Seq::empty(),
        }
    }

    /// Whether a frame can be written as wished: its input is in range, the flags for
    /// short blocks and for energies that stand on their own find room, and it is of
    /// full size or shrinks to `bytes` bytes.
    pub open spec fn sendable(self, c: CeltEncoder, e: EncoderState, w: FrameWish, bytes: int) -> bool {
        &&& e.wf()
        &&& self.wf()
        &&& self.sized(bytes).wf()
        &&& w.header.wf()
        &&& w.front.transient == w.header.transient
        &&& w.front.trim <= 10
        &&& e.tell() < self.total()
        &&& self.start == 0 && w.header.postfilter.gain > 0 ==> e.tell() + 16 <= self.total()
        &&& self.header_had(e, w.header).transient == w.header.transient
        &&& self.header_had(e, w.header).intra == w.header.intra
        &&& bytes == self.bytes || self.sent(c, e, w, bytes).shrinks(self.bytes, bytes)
        &&& encoder::fine_ok(self.sent(c, e, w, bytes).fine_quant, w.fine, self.c)
    }

    /// Whether a frame `f` holds what was written, up to the band shapes.
    pub open spec fn holds_sent(self, c: CeltEncoder, e: EncoderState, w: FrameWish, bytes: int, f: FrameSpec) -> bool {
        let s = self.sent(c, e, w, bytes);
        let e1 = self.tf().after_put(s.energies, w.front.transient, w.front.tf_want@, w.front.tf_select);
        &&& !f.header.silence
        &&& f.header.postfilter == self.header_had(e, w.header).postfilter
        &&& f.header.transient == w.header.transient
        &&& f.header.intra == w.header.intra
        &&& f.coarse == s.coarse
        &&& f.tf_res == self.tf().put_res(s.energies, w.front.transient, w.front.tf_want@, w.front.tf_select)
        &&& f.spread == self.spread_had(e1, c.wanted_spread(w.front, self.end, self.lm).0)
        &&& f.alloc == s.alloc
        &&& f.split == s.split
        &&& f.kept == s.kept
        &&& forall|j: int, k: int|
            self.start <= j < self.end && 0 <= k < self.c && #[trigger] encoder::fine_slot(j, self.c, k)
                && s.fine_quant[j] > 0 ==> f.fine[j * self.c + k] == w.fine[j * self.c + k]
    }
}

impl FrameSent {
    /// Which bands come second when the last bits are handed out.
    pub open spec fn fine_priority(self) -> Seq<bool> {
        Seq::new(21, |j: int| self.alloc.fine_priority(self.split, j))
    }

    /// Whether a frame of `from` bytes can be shrunk to `to` bytes: two bytes must
    /// remain beyond what is written and the boosts.
    pub open spec fn shrinks(self, from: int, to: int) -> bool {
        to <= from && self.front.tell_frac() + (64 * from - self.boosts.total) + 128 <= 64 * to
    }
}

/// A band's boost is at most a step beyond its cap.
proof fn lemma_boost_bound(
    inp: FrameInput,
    e: EncoderState,
    total: int,
    logp: int,
    boost: int,
    quanta: int,
    cap: int,
    steps: int,
)
    requires
        0 <= quanta,
        0 <= boost <= cap + quanta,
    ensures
        0 <= inp.put_steps(e, total, logp, boost, quanta, cap, steps).boost <= cap + quanta,
    decreases math::max(cap - boost, 0),
{
    if quanta > 0 && boost < cap && steps > 0 {
        lemma_boost_bound(
            inp,
            e.after_bit(true, logp),
            total - quanta,
            1,
            boost + quanta,
            quanta,
            cap,
            steps - 1,
        );
    }
}

proof fn lemma_boosts_bound(inp: FrameInput, e: EncoderState, steps: Seq<i32>, i: int)
    requires
        inp.wf(),
        inp.start <= i <= inp.end,
    ensures
        inp.put_boosts(e, steps, i).offsets.len() == 21,
        forall|j: int| 0 <= j < 21 ==> 0 <= #[trigger] inp.put_boosts(e, steps, i).offsets[j] <= 0x1_0000,
    decreases i - inp.start,
{
    if i > inp.start {
        lemma_boosts_bound(inp, e, steps, i - 1);
        let st = inp.put_boosts(e, steps, i - 1);
        let w = modes::width(i - 1);
        let m = modes::frame_mult(inp.lm);
        modes::lemma_width(i - 1);
        math::lemma_mul_range(w, 22, m, 8);
        math::lemma_mul_range(inp.c, 2, w * m, 176);
        rate::lemma_band_cap(inp.lm, inp.c, i - 1);
        lemma_boost_bound(
            inp,
            st.enc,
            st.total,
            st.logp,
            0,
            inp.quanta(i - 1),
            rate::band_cap(inp.lm, inp.c, i - 1),
            steps[i - 1] as int,
        );
    }
}

/// The size of the buffer makes no difference before the end of the stream.
proof fn lemma_resize(e: EncoderState, size: int)
    ensures
        (EncoderState { size, ..e }).tell_frac() == e.tell_frac(),
        (EncoderState { size, ..e }).tell() == e.tell(),
{
    reveal(EncoderState::tell_frac);
}

/// The allocation of a frame that was written has an input in range.
proof fn lemma_alloc_wf(c: CeltEncoder, inp: FrameInput, e: EncoderState, w: FrameWish, bytes: int)
    requires
        e.wf(),
        inp.wf(),
        w.header.wf(),
        w.front.trim <= 10,
        0 <= bytes <= inp.bytes,
    ensures
        inp.sent(c, e, w, bytes).alloc.wf(),
{
    let s = inp.sent(c, e, w, bytes);
    let none = Seq::<u8>::empty();
    lemma_header_back(inp, e, w.header, none, Seq::empty());
    inp.energy_env(w.header.intra).lemma_coarse_steps_round_trip(
        s.header,
        symbols::mate(s.header, none),
        w.coarse,
        inp.end,
        0,
        Seq::empty(),
    );
    lemma_front_back(c, inp, s.energies, w.front, none, Seq::empty());
    let e1 = inp.tf().after_put(s.energies, w.front.transient, w.front.tf_want@, w.front.tf_select);
    let e2 = inp.put_spread(e1, c.wanted_spread(w.front, inp.end, inp.lm).0);
    lemma_boosts_bound(inp, e2, w.front.boost_steps@, inp.end);
    assert forall|j: int| 0 <= j < 21 implies 0 <= #[trigger] s.alloc.offsets[j] <= 0x10_0000 by {
        assert(s.boosts.offsets[j] <= 0x1_0000);
    }
    assert forall|j: int| 0 <= j < 21 implies 0 <= #[trigger] s.alloc.cap[j] <= 0x10_0000 by {
        rate::lemma_band_cap(inp.lm, inp.c, j);
    }
    lemma_eighths(s.front);
    lemma2_to64();
    math::lemma_ilog_le(s.front.rng, 32);
}

/// A buffer that can come of the state before the band shapes can come of each one
/// before.
proof fn lemma_frame_back(
    c: CeltEncoder,
    inp: FrameInput,
    e: EncoderState,
    w: FrameWish,
    bytes: int,
    data: Seq<u8>,
    whole: Seq<bool>,
)
    requires
        e.wf(),
        inp.wf(),
        w.header.wf(),
        w.front.trim <= 10,
        bytes >= 0,
        inp.sent(c, e, w, bytes).alloc.wf(),
        encoder::fine_ok(inp.sent(c, e, w, bytes).fine_quant, w.fine, inp.c),
        symbols::leads_to(inp.sent(c, e, w, bytes).last, data, whole),
    ensures
        ({
            let s = inp.sent(c, e, w, bytes);
            let e4 = s.alloc.put_after(s.front, w.choice);
            &&& s.header.wf() && s.energies.wf() && s.front.wf() && e4.wf()
            &&& symbols::leads_to(s.header, data, whole)
            &&& symbols::leads_to(s.energies, data, whole)
            &&& symbols::leads_to(s.front, data, whole)
            &&& symbols::leads_to(e4, data, whole)
        }),
{
    let s = inp.sent(c, e, w, bytes);
    let env = inp.energy_env(w.header.intra);
    let e4 = s.alloc.put_after(s.front, w.choice);
    lemma_header_back(inp, e, w.header, data, whole);
    env.lemma_coarse_steps_round_trip(s.header, symbols::mate(s.header, data), w.coarse, inp.end, 0, whole);
    lemma_front_back(c, inp, s.energies, w.front, data, whole);
    assert(s.front.wf());
    s.alloc.lemma_allocation_back(s.front, w.choice, data, whole);
    lemma_fine_round_trip(
        e4,
        symbols::mate(e4, data),
        inp.start,
        s.fine_quant,
        w.fine,
        inp.c,
        inp.end,
        0,
        whole,
    );
}

/// A frame that shrinks has room for every flag before the allocation.
proof fn lemma_frame_roomy(c: CeltEncoder, inp: FrameInput, e: EncoderState, w: FrameWish, bytes: int)
    requires
        e.wf(),
        inp.wf(),
        w.header.wf(),
        w.front.trim <= 10,
        bytes >= 0,
        inp.sent(c, e, w, bytes).shrinks(inp.bytes, bytes),
    ensures
        ({
            let s = inp.sent(c, e, w, bytes);
            &&& s.front.bits < BIT_LIMIT
            &&& shrink::roomy(s.energies, 8 * bytes)
            &&& shrink::roomy(s.header, 8 * bytes)
        }),
{
    let s = inp.sent(c, e, w, bytes);
    let env = inp.energy_env(w.header.intra);
    let none = Seq::<u8>::empty();
    lemma_header_back(inp, e, w.header, none, Seq::empty());
    env.lemma_coarse_steps_round_trip(s.header, symbols::mate(s.header, none), w.coarse, inp.end, 0, Seq::empty());
    lemma_front_back(c, inp, s.energies, w.front, none, Seq::empty());
    lemma_resize(inp.put_trim(s.boosts, w.front.trim as int), bytes);
    lemma_eighths(s.front);
    lemma2_to64();
    math::lemma_ilog_le(s.front.rng, 32);
    lemma_same_front(c, inp, bytes, s.energies, w.front);
}

/// What the decoder reads before the allocation of a frame is what the encoder put
/// there.
proof fn lemma_head_round_trip(
    c: CeltEncoder,
    inp: FrameInput,
    e: EncoderState,
    d: DecoderState,
    w: FrameWish,
    bytes: int,
    whole: Seq<bool>,
)
    requires
        symbols::agrees(e, d),
        e.wf(),
        d.wf(),
        inp.wf(),
        w.header.wf(),
        w.front.trim <= 10,
        e.tell() < inp.total(),
        inp.start == 0 && w.header.postfilter.gain > 0 ==> e.tell() + 16 <= inp.total(),
        inp.header_had(e, w.header).intra == w.header.intra,
        bytes >= 0,
        bytes == inp.bytes || inp.sent(c, e, w, bytes).shrinks(inp.bytes, bytes),
        ({
            let s = inp.sent(c, e, w, bytes);
            &&& s.header.wf() && s.energies.wf()
            &&& symbols::leads_to(s.header, d.data, whole)
            &&& symbols::leads_to(s.energies, d.data, whole)
        }),
    ensures
        ({
            let s = inp.sent(c, e, w, bytes);
            let small = inp.sized(bytes);
            let header = small.header(d);
            let had = inp.header_had(e, w.header);
            let (coarse, d1) = small.energy_env(header.intra).coarse(header.dec, inp.end, 0);
            &&& !header.silence
            &&& header.postfilter == had.postfilter
            &&& header.transient == had.transient
            &&& header.intra == w.header.intra
            &&& coarse == s.coarse
            &&& symbols::agrees(s.energies, d1)
            &&& d1.data == d.data
        }),
{
    let s = inp.sent(c, e, w, bytes);
    let small = inp.sized(bytes);
    let env = inp.energy_env(w.header.intra);
    if bytes != inp.bytes {
        lemma_frame_roomy(c, inp, e, w, bytes);
        lemma_same_header(inp, bytes, e, w.header);
    } else {
        assert(small == inp);
    }
    lemma_header_round_trip(small, e, d, w.header, whole);
    let header = small.header(d);
    env.lemma_coarse_steps_round_trip(s.header, header.dec, w.coarse, inp.end, 0, whole);
    if bytes != inp.bytes {
        env.lemma_same_coarse(small.energy_env(w.header.intra), s.header, header.dec, w.coarse, inp.end, 0, whole);
    }
}

/// What the decoder reads of a frame is what the encoder put into it, up to the band
/// shapes: flags and post-filter, coarse energy steps, resolutions, spread, boosts,
/// tilt, allocation and fine energy values. That holds of a frame that was shrunk
/// before the allocation too. The flags for short blocks and for energies that stand
/// on their own must have found room.
pub proof fn lemma_frame_round_trip(
    c: CeltEncoder,
    inp: FrameInput,
    e: EncoderState,
    d: DecoderState,
    w: FrameWish,
    bytes: int,
    seed: int,
    whole: Seq<bool>,
)
    requires
        symbols::agrees(e, d),
        d.wf(),
        inp.sendable(c, e, w, bytes),
        symbols::leads_to(inp.sent(c, e, w, bytes).last, d.data, whole),
    ensures
        ({
            let s = inp.sent(c, e, w, bytes);
            let f = inp.sized(bytes).frame(d, seed);
            &&& inp.holds_sent(c, e, w, bytes, f)
            &&& f.shapes == inp.sent_env(c, e, w, bytes).run(
                inp.sent_start(s, seed).at(symbols::mate(s.last, d.data)),
                inp.end,
            )
        }),
{
    reveal(FrameInput::frame);
    let s = inp.sent(c, e, w, bytes);
    let small = inp.sized(bytes);
    let e4 = s.alloc.put_after(s.front, w.choice);
    lemma_alloc_wf(c, inp, e, w, bytes);
    lemma_frame_back(c, inp, e, w, bytes, d.data, whole);
    lemma_head_round_trip(c, inp, e, d, w, bytes, whole);
    let header = small.header(d);
    let d1 = small.energy_env(header.intra).coarse(header.dec, inp.end, 0).1;
    let trimmed = inp.put_trim(s.boosts, w.front.trim as int);
    lemma_resize(trimmed, bytes);
    assert(symbols::leads_to(trimmed, d.data, whole));
    if bytes != inp.bytes {
        lemma_frame_roomy(c, inp, e, w, bytes);
        lemma_same_front(c, inp, bytes, s.energies, w.front);
    } else {
        assert(small == inp);
    }
    lemma_front_round_trip(c, small, s.energies, d1, w.front, whole);
    let d2 = small.tf().after_tf(d1, w.header.transient);
    let boosts = small.boosts(small.after_spread(d2), inp.end);
    let d3 = small.after_trim(boosts);
    assert(d3.tell_frac() == s.front.tell_frac()) by {
        reveal(EncoderState::tell_frac);
        reveal(DecoderState::tell_frac);
    }
    assert(small.alloc_input(boosts, w.header.transient) == s.alloc);
    s.alloc.lemma_same_allocation(s.front, d3, w.choice, whole);
    lemma_fine_round_trip(
        e4,
        s.alloc.after(d3),
        inp.start,
        s.fine_quant,
        w.fine,
        inp.c,
        inp.end,
        0,
        whole,
    );
    let f = small.frame(d, seed);
    let fq = Seq::new(21, |j: int| f.alloc.fine_quant(f.split, j) as i32);
    assert(fq =~= s.fine_quant);
    let d4 = energy::fine(s.alloc.after(d3), inp.start, s.fine_quant, inp.c, inp.end, 0).1;
    assert(d4 =~= symbols::mate(s.last, d.data));
    let env = small.shape_env(header, f.spread, f.tf_res, f.alloc, f.split, f.kept);
    assert(env.shape_bits =~= inp.sent_env(c, e, w, bytes).shape_bits);
    assert(env == inp.sent_env(c, e, w, bytes));
}

impl FrameInput {
    /// The stream after the anti-collapse flag, where bits were kept back for it.
    pub open spec fn put_anti_collapse(self, e: EncoderState, kept: int, flag: bool) -> EncoderState {
        if kept > 0 {
            e.after_raw(
                if flag {
                    1
                } else {
                    0
                },
                1,
            )
        } else {
            e
        }
    }

    /// The stream behind a frame whose band shapes leave it at `e`: the anti-collapse
    /// flag, where bits were kept back for it, and the last energy bits.
    pub open spec fn put_end(
        self,
        e: EncoderState,
        kept: int,
        fine_quant: Seq<i32>,
        fine_priority: Seq<bool>,
        flag: bool,
        values: Seq<bool>,
    ) -> EncoderState {
        let e1 = self.put_anti_collapse(e, kept, flag);
        encoder::put_last(
            e1,
            self.start,
            self.end,
            fine_quant,
            fine_priority,
            self.total() - e1.tell(),
            self.c,
            values,
        ).enc
    }
}

/// Where the decoder stands behind the band shapes of a frame as the encoder stood,
/// it reads the anti-collapse flag and the last energy bits that the encoder put, and
/// ends with the encoder's range.
pub proof fn lemma_frame_end_round_trip(
    inp: FrameInput,
    d: DecoderState,
    seed: int,
    e: EncoderState,
    flag: bool,
    values: Seq<bool>,
    whole: Seq<bool>,
)
    requires
        inp.wf(),
        e.wf(),
        values.len() == 21 * inp.c,
        symbols::agrees(e, inp.frame(d, seed).shapes.dec),
        ({
            let f = inp.frame(d, seed);
            symbols::leads_to(
                inp.put_end(e, f.kept, f.fine_quant(), f.fine_priority(), flag, values),
                f.shapes.dec.data,
                whole,
            )
        }),
    ensures
        ({
            let f = inp.frame(d, seed);
            &&& symbols::leads_to(e, f.shapes.dec.data, whole)
            &&& f.anti_collapse == (f.kept > 0 && flag)
            &&& encoder::last_matches(f.last.out, values)
            &&& f.last.dec.rng == inp.put_end(e, f.kept, f.fine_quant(), f.fine_priority(), flag, values).rng
        }),
{
    reveal(FrameInput::frame);
    let f = inp.frame(d, seed);
    let t = f.shapes.dec;
    let fq = f.fine_quant();
    let fp = f.fine_priority();
    let bit: int = if flag { 1 } else { 0 };
    let s = Symbol::Raw { v: bit, n: 1 };
    lemma2_to64();
    lemma_symbol_back(e, t.data, s, whole);
    let e1 = inp.put_anti_collapse(e, f.kept, flag);
    lemma_last_back(
        e1,
        inp.start,
        inp.end,
        fq,
        fp,
        inp.total() - e1.tell(),
        inp.c,
        values,
        t.data,
        whole,
    );
    if f.kept > 0 {
        lemma_symbol(e, t, s, whole);
    }
    let d1 = if f.kept > 0 {
        t.after_raw(1)
    } else {
        t
    };
    lemma_last_round_trip(
        e1,
        d1,
        inp.start,
        inp.end,
        fq,
        fp,
        inp.total() - e1.tell(),
        inp.c,
        values,
        whole,
    );
}

/// What `encode_shapes` is given behind the parts of a frame is what the frame's shapes
/// depend on.
pub proof fn lemma_sent_shapes(
    c: CeltEncoder,
    inp: FrameInput,
    e: EncoderState,
    w: FrameWish,
    bytes: usize,
    start: usize,
    end: usize,
    lm: usize,
    front: FrontPart,
    alloc: Allocation,
    kept: i32,
    seed: u32,
)
    requires
        inp == (FrameInput {
            bytes: inp.bytes,
            c: c.channels as int,
            lm: lm as int,
            start: start as int,
            end: end as int,
        }),
        c.channels == 1 || c.channels == 2,
        bytes <= 1275,
        ({
            let s = inp.sent(c, e, w, bytes as int);
            let e1 = inp.tf().after_put(s.energies, w.front.transient, w.front.tf_want@, w.front.tf_select);
            &&& s.alloc.splits_to(s.split, alloc)
            &&& kept == s.kept
            &&& front.tf_res@ == inp.tf().put_res(
                s.energies,
                w.front.transient,
                w.front.tf_want@,
                w.front.tf_select,
            )
            &&& front.spread == inp.spread_had(e1, c.wanted_spread(w.front, inp.end, inp.lm).0)
        }),
    ensures
        ({
            let s = inp.sent(c, e, w, bytes as int);
            let env = bands::frame_env(
                start,
                end,
                alloc.shape_bits@,
                w.header.transient,
                front.spread,
                alloc.intensity,
                front.tf_res@,
                (64 * bytes - kept) as i32,
                lm,
                alloc.coded_bands,
                c.channels == 2,
            );
            let first = bands::frame_start(
                symbols::mate(s.last, Seq::empty()),
                alloc.balance,
                alloc.dual_stereo,
                seed,
                Seq::new((21 * env.channels()) as nat, |k: int| 0u8),
            );
            &&& env == inp.sent_env(c, e, w, bytes as int)
            &&& first == inp.sent_start(s, seed as int)
        }),
{
    let s = inp.sent(c, e, w, bytes as int);
    let want = inp.sent_env(c, e, w, bytes as int);
    assert(rate::ints(alloc.shape_bits@) =~= want.shape_bits) by {
        assert forall|j: int| 0 <= j < 21 implies rate::ints(alloc.shape_bits@)[j] == want.shape_bits[j] by {
            assert(alloc.shape_bits@[j] == s.alloc.shape_bits(s.split, j));
        }
    }
    let zeros = Seq::new((21 * inp.c) as nat, |k: int| 0u8);
    assert(zeros =~= Seq::new((21 * want.channels()) as nat, |k: int| 0u8));
}

/// A buffer that can come of the state behind a frame can come of the one before its
/// anti-collapse flag.
proof fn lemma_end_back(
    inp: FrameInput,
    e: EncoderState,
    kept: int,
    fine_quant: Seq<i32>,
    fine_priority: Seq<bool>,
    flag: bool,
    values: Seq<bool>,
    data: Seq<u8>,
    whole: Seq<bool>,
)
    requires
        e.wf(),
    ensures
        inp.put_end(e, kept, fine_quant, fine_priority, flag, values).wf(),
        symbols::leads_to(inp.put_end(e, kept, fine_quant, fine_priority, flag, values), data, whole)
            ==> symbols::leads_to(e, data, whole),
{
    let bit: int = if flag { 1 } else { 0 };
    lemma2_to64();
    lemma_symbol_back(e, data, Symbol::Raw { v: bit, n: 1 }, whole);
    let e1 = inp.put_anti_collapse(e, kept, flag);
    lemma_last_back(
        e1,
        inp.start,
        inp.end,
        fine_quant,
        fine_priority,
        inp.total() - e1.tell(),
        inp.c,
        values,
        data,
        whole,
    );
}

/// What the decoder reads of a frame is what the encoder put into it: all that stands
/// before the band shapes, the shapes `shapes` of which the coder says that they were
/// written, the anti-collapse flag and the last energy bits. Both ends finish with the
/// same range.
pub proof fn lemma_whole_frame_round_trip(
    c: CeltEncoder,
    inp: FrameInput,
    e: EncoderState,
    d: DecoderState,
    w: FrameWish,
    bytes: int,
    seed: int,
    shapes: FrameShapes,
    e1: EncoderState,
    flag: bool,
    values: Seq<bool>,
    whole: Seq<bool>,
)
    requires
        symbols::agrees(e, d),
        d.wf(),
        inp.sendable(c, e, w, bytes),
        e1.wf(),
        values.len() == 21 * inp.c,
        ({
            let s = inp.sent(c, e, w, bytes);
            let small = inp.sized(bytes);
            &&& bands::encode::shapes_written(
                inp.sent_env(c, e, w, bytes),
                inp.sent_start(s, seed),
                s.last,
                e1,
                shapes,
            )
            &&& symbols::leads_to(
                small.put_end(e1, s.kept, s.fine_quant, s.fine_priority(), flag, values),
                d.data,
                whole,
            )
        }),
    ensures
        ({
            let s = inp.sent(c, e, w, bytes);
            let small = inp.sized(bytes);
            let f = small.frame(d, seed);
            &&& inp.holds_sent(c, e, w, bytes, f)
            &&& bands::plans_view(shapes.plans@) == f.shapes.plans
            &&& shapes.collapse_masks@ == f.shapes.masks
            &&& shapes.seed == f.shapes.seed
            &&& f.anti_collapse == (s.kept > 0 && flag)
            &&& encoder::last_matches(f.last.out, values)
            &&& f.last.dec.rng == small.put_end(e1, s.kept, s.fine_quant, s.fine_priority(), flag, values).rng
        }),
{
    let s = inp.sent(c, e, w, bytes);
    let small = inp.sized(bytes);
    let f = small.frame(d, seed);
    lemma_end_back(small, e1, s.kept, s.fine_quant, s.fine_priority(), flag, values, d.data, whole);
    assert(symbols::leads_to(e1, d.data, whole));
    lemma_frame_round_trip(c, inp, e, d, w, bytes, seed, whole);
    assert(f.shapes.dec == symbols::mate(e1, d.data));
    assert(f.fine_quant() =~= s.fine_quant);
    assert(f.fine_priority() =~= s.fine_priority());
    lemma_frame_end_round_trip(small, d, seed, e1, flag, values, whole);
}

/// What the decoder reads of the bytes of a packet's only frame is what the encoder
/// put into it.
pub proof fn lemma_packet_round_trip(
    c: CeltEncoder,
    inp: FrameInput,
    w: FrameWish,
    bytes: int,
    seed: int,
    shapes: FrameShapes,
    e1: EncoderState,
    flag: bool,
    values: Seq<bool>,
)
    requires
        inp.sendable(c, EncoderState::start(inp.bytes), w, bytes),
        e1.wf(),
        values.len() == 21 * inp.c,
        ({
            let e = EncoderState::start(inp.bytes);
            let s = inp.sent(c, e, w, bytes);
            let last = inp.sized(bytes).put_end(e1, s.kept, s.fine_quant, s.fine_priority(), flag, values);
            &&& bands::encode::shapes_written(
                inp.sent_env(c, e, w, bytes),
                inp.sent_start(s, seed),
                s.last,
                e1,
                shapes,
            )
            &&& last.fits()
        }),
    ensures
        ({
            let e = EncoderState::start(inp.bytes);
            let s = inp.sent(c, e, w, bytes);
            let last = inp.sized(bytes).put_end(e1, s.kept, s.fine_quant, s.fine_priority(), flag, values);
            let f = inp.sized(bytes).frame(DecoderState::start(last.finished()), seed);
            &&& inp.holds_sent(c, e, w, bytes, f)
            &&& bands::plans_view(shapes.plans@) == f.shapes.plans
            &&& shapes.collapse_masks@ == f.shapes.masks
            &&& shapes.seed == f.shapes.seed
            &&& f.anti_collapse == (s.kept > 0 && flag)
            &&& encoder::last_matches(f.last.out, values)
            &&& f.last.dec.rng == last.rng
        }),
{
    let e = EncoderState::start(inp.bytes);
    let s = inp.sent(c, e, w, bytes);
    let small = inp.sized(bytes);
    let last = small.put_end(e1, s.kept, s.fine_quant, s.fine_priority(), flag, values);
    let data = last.finished();
    lemma_end_back(small, e1, s.kept, s.fine_quant, s.fine_priority(), flag, values, data, last.raw);
    lemma_finished_leads(last);
    lemma_start(inp.bytes, data);
    lemma_start_wf(data);
    let d = DecoderState::start(data);
    lemma_whole_frame_round_trip(c, inp, e, d, w, bytes, seed, shapes, e1, flag, values, last.raw);
}

} // verus!
