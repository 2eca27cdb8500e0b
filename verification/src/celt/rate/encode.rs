//! The encoder's side of the bit allocation: the same derivation, with the flags
//! and stereo parameters written to the stream.

use vstd::prelude::*;

use crate::celt::modes::NB_EBANDS;
use crate::celt::rate::{
    self, bracket, first_budgets, split_all, AllocInput, Allocation, InterpParams, Settled, SkipState, Skipped,
};
use crate::math::{self, max_i32};
use crate::range::decoder::DecoderState;
use crate::range::encoder::EncoderState;
use crate::range::symbols::{self, lemma_symbol, lemma_symbol_back, Symbol};
use crate::range::RangeEncoder;

verus! {

/// What the encoder decides of an allocation.
#[derive(Debug, Clone, Copy, PartialEq, Eq, Structural)]
pub struct AllocChoice {
    /// The highest band that the signal reaches: those above are dropped where a
    /// flag says so.
    pub signal_bandwidth: usize,
    /// The first band to be coded in intensity stereo.
    pub intensity: usize,
    /// Whether the channels are to be coded independently.
    pub dual_stereo: bool,
}

impl AllocInput {
    /// Bands dropped from the top, until one that must stay or that the signal
    /// reaches, and the stream behind the flags.
    pub open spec fn put_skip(self, st: SkipState, e: EncoderState, reach: int) -> (SkipState, EncoderState)
        decreases st.coded,
    {
        if self.must_stay(st) {
            (self.stayed(st), e)
        } else if self.flag_coded(st) {
            if st.coded - 1 <= reach {
                (st, e.after_bit(true, 1))
            } else {
                self.put_skip(self.next_down(st), e.after_bit(false, 1), reach)
            }
        } else {
            self.put_skip(self.next_down(st), e, reach)
        }
    }

    /// The first band coded in intensity stereo, of those coded.
    pub open spec fn intensity_had(self, st: SkipState, want: int) -> int {
        if st.rsv > 0 {
            math::max(math::min(want, st.coded), self.start)
        } else {
            0
        }
    }

    /// The stream after the intensity parameter.
    pub open spec fn put_intensity(self, st: SkipState, e: EncoderState, want: int) -> EncoderState {
        if st.rsv > 0 {
            e.after_uint(self.intensity_had(st, want) - self.start, st.coded + 1 - self.start)
        } else {
            e
        }
    }

    /// What the budgets are split by, with the parameters that are written.
    pub open spec fn put_settle(self, e: EncoderState, a: AllocChoice) -> Settled {
        let (st, _) = self.put_skip(self.skip_init(), e, a.signal_bandwidth as int);
        let intensity = self.intensity_had(st, a.intensity as int);
        self.settled(st, intensity, self.dual_coded(intensity) && a.dual_stereo)
    }

    /// The stream after the parameters.
    pub open spec fn put_after(self, e: EncoderState, a: AllocChoice) -> EncoderState {
        let (st, e1) = self.put_skip(self.skip_init(), e, a.signal_bandwidth as int);
        let e2 = self.put_intensity(st, e1, a.intensity as int);
        if self.dual_coded(self.intensity_had(st, a.intensity as int)) {
            e2.after_bit(a.dual_stereo, 1)
        } else {
            e2
        }
    }

    proof fn lemma_put_skip(self, st: SkipState, e: EncoderState, reach: int)
        requires
            self.wf(),
            self.skip_inv(st),
            st.refund == 0,
        ensures
            self.skip_inv(self.put_skip(st, e, reach).0),
            self.put_skip(st, e, reach).0.refund == 0 || self.put_skip(st, e, reach).0.refund == self.skip_rsv(),
        decreases st.coded,
    {
        if !self.must_stay(st) {
            self.lemma_next_down(st);
            if !self.flag_coded(st) {
                self.lemma_put_skip(self.next_down(st), e, reach);
            } else if st.coded - 1 > reach {
                self.lemma_put_skip(self.next_down(st), e.after_bit(false, 1), reach);
            }
        }
    }

    proof fn lemma_skip_back(self, st: SkipState, e: EncoderState, reach: int, data: Seq<u8>, whole: Seq<bool>)
        requires
            e.wf(),
        ensures
            self.put_skip(st, e, reach).1.wf(),
            symbols::leads_to(self.put_skip(st, e, reach).1, data, whole) ==> symbols::leads_to(e, data, whole),
        decreases st.coded,
    {
        if !self.must_stay(st) {
            if !self.flag_coded(st) {
                self.lemma_skip_back(self.next_down(st), e, reach, data, whole);
            } else {
                let keep = st.coded - 1 <= reach;
                lemma_symbol_back(e, data, Symbol::Bit { bit: keep, logp: 1 }, whole);
                if !keep {
                    self.lemma_skip_back(self.next_down(st), e.after_bit(false, 1), reach, data, whole);
                }
            }
        }
    }

    proof fn lemma_skip_round_trip(
        self,
        st: SkipState,
        e: EncoderState,
        d: DecoderState,
        reach: int,
        whole: Seq<bool>,
    )
        requires
            e.wf(),
            symbols::agrees(e, d),
            symbols::leads_to(self.put_skip(st, e, reach).1, d.data, whole),
        ensures
            self.skip(st, d).0 == self.put_skip(st, e, reach).0,
            symbols::agrees(self.put_skip(st, e, reach).1, self.skip(st, d).1),
            self.skip(st, d).1.data == d.data,
        decreases st.coded,
    {
        if !self.must_stay(st) {
            if !self.flag_coded(st) {
                self.lemma_skip_round_trip(self.next_down(st), e, d, reach, whole);
            } else {
                let keep = st.coded - 1 <= reach;
                let s = Symbol::Bit { bit: keep, logp: 1 };
                lemma_symbol_back(e, d.data, s, whole);
                if !keep {
                    self.lemma_skip_back(self.next_down(st), e.after_bit(false, 1), reach, d.data, whole);
                }
                lemma_symbol(e, d, s, whole);
                if !keep {
                    self.lemma_skip_round_trip(
                        self.next_down(st),
                        e.after_bit(false, 1),
                        d.after_bit(1),
                        reach,
                        whole,
                    );
                }
            }
        }
    }

    /// A buffer that can come of the state after the parameters can come of each one
    /// before.
    pub proof fn lemma_allocation_back(self, e: EncoderState, a: AllocChoice, data: Seq<u8>, whole: Seq<bool>)
        requires
            self.wf(),
            e.wf(),
        ensures
            ({
                let (st, e1) = self.put_skip(self.skip_init(), e, a.signal_bandwidth as int);
                let e2 = self.put_intensity(st, e1, a.intensity as int);
                &&& e1.wf() && e2.wf() && self.put_after(e, a).wf()
                &&& symbols::leads_to(self.put_after(e, a), data, whole) ==> symbols::leads_to(e2, data, whole)
                    && symbols::leads_to(e1, data, whole) && symbols::leads_to(e, data, whole)
            }),
    {
        let reach = a.signal_bandwidth as int;
        let init = self.skip_init();
        let (st, e1) = self.put_skip(init, e, reach);
        self.lemma_skip_init();
        self.lemma_put_skip(init, e, reach);
        self.lemma_skip_back(init, e, reach, data, whole);
        let had = self.intensity_had(st, a.intensity as int);
        let e2 = self.put_intensity(st, e1, a.intensity as int);
        if st.rsv > 0 {
            lemma_symbol_back(
                e1,
                data,
                Symbol::Uniform { v: had - self.start, ft: st.coded + 1 - self.start },
                whole,
            );
        }
        lemma_symbol_back(e2, data, Symbol::Bit { bit: a.dual_stereo, logp: 1 }, whole);
    }

    /// Encoder and decoder derive the same allocation: what the decoder reads
    /// of a stream is split as the encoder that wrote it split it.
    pub proof fn lemma_same_allocation(
        self,
        e: EncoderState,
        d: DecoderState,
        a: AllocChoice,
        whole: Seq<bool>,
    )
        requires
            self.wf(),
            e.wf(),
            symbols::agrees(e, d),
            symbols::leads_to(self.put_after(e, a), d.data, whole),
        ensures
            symbols::leads_to(e, d.data, whole),
            self.settle(d) == self.put_settle(e, a),
            symbols::agrees(self.put_after(e, a), self.after(d)),
            self.after(d).data == d.data,
    {
        let reach = a.signal_bandwidth as int;
        let init = self.skip_init();
        let (st, e1) = self.put_skip(init, e, reach);
        self.lemma_skip_init();
        self.lemma_put_skip(init, e, reach);
        self.lemma_allocation_back(e, a, d.data, whole);
        let had = self.intensity_had(st, a.intensity as int);
        let e2 = self.put_intensity(st, e1, a.intensity as int);
        let s = Symbol::Uniform { v: had - self.start, ft: st.coded + 1 - self.start };
        let b = Symbol::Bit { bit: a.dual_stereo, logp: 1 };
        self.lemma_skip_round_trip(init, e, d, reach, whole);
        let d1 = self.skip(init, d).1;
        if st.rsv > 0 {
            lemma_symbol(e1, d1, s, whole);
        }
        let d2 = self.after_intensity(st, d1);
        if self.dual_coded(had) {
            lemma_symbol(e2, d2, b, whole);
        }
    }

    /// The allocation that is written keeps its promises.
    pub proof fn lemma_put_allocation(self, e: EncoderState, a: AllocChoice)
        requires
            self.wf(),
        ensures
            self.sound(
                self.put_skip(self.skip_init(), e, a.signal_bandwidth as int).0,
                self.put_settle(e, a),
            ),
    {
        self.lemma_skip_init();
        self.lemma_put_skip(self.skip_init(), e, a.signal_bandwidth as int);
        let t = self.put_settle(e, a);
        self.lemma_budget();
        let st = self.put_skip(self.skip_init(), e, a.signal_bandwidth as int).0;
        rate::lemma_log2_frac(st.coded - self.start);
        self.lemma_sound(st, t.intensity, t.dual);
    }
}

/// Drops bands from the top, and writes the flags that say so.
fn put_bands(
    enc: &mut RangeEncoder,
    p: &InterpParams,
    first: Skipped,
    reach: usize,
    Ghost(inp): Ghost<AllocInput>,
) -> (r: (Skipped, Ghost<int>))
    requires
        old(enc).wf(),
        p.of(inp),
        inp.skip_inv(first.state(0)),
        first.refund == 0,
    ensures
        final(enc).wf(),
        final(enc)@.wf(),
        final(enc)@.size == old(enc)@.size,
        (r.0.state(r.1@), final(enc)@) == inp.put_skip(first.state(0), old(enc)@, reach as int),
{
    proof {
        enc.lemma_wf();
    }
    let ghost target = inp.put_skip(first.state(0), enc@, reach as int);
    let mut st = first;
    let ghost mut flags: int = 0;
    let floor: i32 = 8 * p.channels as i32;
    let mut searching: bool = true;
    while searching
        invariant
            enc.wf(),
            enc@.wf(),
            enc@.size == old(enc)@.size,
            p.of(inp),
            floor == 8 * inp.c,
            searching ==> inp.skip_inv(st.state(flags)) && st.refund == 0 && inp.put_skip(
                st.state(flags),
                enc@,
                reach as int,
            ) == target,
            !searching ==> (st.state(flags), enc@) == target,
        decreases st.coded, (if searching { 1int } else { 0int }),
    {
        let ghost cur = st.state(flags);
        proof {
            inp.lemma_last_boost(inp.end);
        }
        if st.coded - 1 <= p.skip_start {
            st.refund = p.skip_rsv;
            searching = false;
            assert(st.state(flags) == inp.stayed(cur));
        } else {
            proof {
                inp.lemma_thresh(cur.coded - 1);
                inp.lemma_next_down(cur);
            }
            let top_bits: i32 = st.top_bits(p, Ghost(inp), Ghost(flags));
            let flagged: bool = top_bits >= max_i32(p.thresh[st.coded - 1], floor + 8);
            if flagged {
                enc.encode_bit_logp(st.coded - 1 <= reach, 1);
            }
            if flagged && st.coded - 1 <= reach {
                searching = false;
            } else {
                st.go_down(p, flagged, top_bits, Ghost(inp), Ghost(flags));
                proof {
                    if flagged {
                        flags = flags + 1;
                    }
                }
            }
        }
    }
    (st, Ghost(flags))
}

/// The allocation of a frame, with the flags for dropped bands and the stereo
/// parameters written to the stream. `offsets` are the boosts of the bands,
/// `alloc_trim` the tilt (5 is level) and `total` the budget, in 1/8 bits.
pub fn encode_allocation(
    enc: &mut RangeEncoder,
    start: usize,
    end: usize,
    offsets: &[i32; NB_EBANDS],
    cap: &[i32; NB_EBANDS],
    alloc_trim: i32,
    total: i32,
    channels: usize,
    lm: usize,
    choice: AllocChoice,
) -> (r: Allocation)
    requires
        old(enc).wf(),
        rate::alloc_input(start, end, offsets@, cap@, alloc_trim, total, channels, lm).wf(),
    ensures
        final(enc).wf(),
        final(enc)@.wf(),
        final(enc)@.size == old(enc)@.size,
        ({
            let inp = rate::alloc_input(start, end, offsets@, cap@, alloc_trim, total, channels, lm);
            inp.splits_to(inp.put_settle(old(enc)@, choice), r) && final(enc)@ == inp.put_after(old(enc)@, choice)
        }),
{
    let ghost inp = rate::alloc_input(start, end, offsets@, cap@, alloc_trim, total, channels, lm);
    let p: InterpParams = bracket(start, end, offsets, cap, alloc_trim, total, channels, lm, Ghost(inp));
    let first: Skipped = first_budgets(&p, Ghost(inp));
    proof {
        inp.lemma_put_skip(inp.skip_init(), enc@, choice.signal_bandwidth as int);
        enc.lemma_wf();
    }
    let (skipped, Ghost(flags)) = put_bands(enc, &p, first, choice.signal_bandwidth, Ghost(inp));
    let coded: usize = skipped.coded;
    let mut intensity: usize = 0;
    if skipped.rsv > 0 {
        intensity = if choice.intensity >= coded {
            coded
        } else if choice.intensity <= start {
            start
        } else {
            choice.intensity
        };
        enc.encode_uint((intensity - start) as u32, (coded + 1 - start) as u32);
    }
    let mut dual_stereo: bool = false;
    if intensity > start && p.dual_stereo_rsv > 0 {
        dual_stereo = choice.dual_stereo;
        enc.encode_bit_logp(dual_stereo, 1);
    }
    split_all(&p, &skipped, intensity, dual_stereo, Ghost(inp), Ghost(flags))
}

} // verus!
