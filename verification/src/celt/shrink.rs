//! Shrinking a frame while it is written: what stands before the allocation reads the
//! same in the smaller frame, if two bytes beyond it and its boosts remain.

use vstd::prelude::*;

use crate::celt::analysis;
use crate::celt::decoder::{FrameInput, TfInput};
use crate::celt::encoder::{
    lemma_boosts_round_trip, lemma_front_back, lemma_header_back, lemma_postfilter_on, lemma_steps, lemma_tf_flags,
    BandBoost, BoostPut, CeltEncoder, FrontInput, HeaderPlan,
};
use crate::celt::energy::EnergyEnv;
use crate::celt::rate;
use crate::math;
use crate::range::decoder::{DecoderState, BIT_LIMIT};
use crate::range::encoder::EncoderState;
use crate::range::symbols::{self, lemma_symbol_back, lemma_two_bits, Symbol};

verus! {

impl FrameInput {
    /// The same frame with another number of bytes.
    pub open spec fn sized(self, bytes: int) -> FrameInput {
        FrameInput { bytes, ..self }
    }
}

/// The state is a whole bit count away from the end of the buffer that any flag needs.
pub open spec fn roomy(e: EncoderState, total: int) -> bool {
    e.bits < BIT_LIMIT && e.tell() + 15 <= total
}

/// Eighth bits and whole bits used differ by less than a bit.
pub proof fn lemma_eighths(e: EncoderState)
    requires
        e.wf(),
    ensures
        8 * e.tell() - 7 <= e.tell_frac() <= 8 * e.tell(),
{
    reveal(EncoderState::tell_frac);
    reveal(DecoderState::tell_frac);
    let d = DecoderState { data: Seq::empty(), offs: 0, rem: 0, rng: e.rng, val: 0, raw: 0, bits: e.bits };
    crate::range::decoder::lemma_tell_frac(d);
}

/// What stands before the coarse energy is written the same in a smaller frame.
pub proof fn lemma_same_header(inp: FrameInput, bytes: int, e: EncoderState, h: HeaderPlan)
    requires
        e.wf(),
        h.wf(),
        bytes <= inp.bytes,
        roomy(inp.put_header(e, h), 8 * bytes),
    ensures
        inp.sized(bytes).put_header(e, h) == inp.put_header(e, h),
        inp.sized(bytes).header_had(e, h) == inp.header_had(e, h),
        e.tell() < 8 * bytes,
        inp.start == 0 && h.postfilter.gain > 0 ==> e.tell() + 16 <= 8 * bytes,
{
    reveal(FrameInput::put_header);
    let none = Seq::<u8>::empty();
    let p = h.postfilter;
    lemma_header_back(inp, e, h, none, Seq::empty());
    let e1 = inp.put_sounding(e);
    let e2 = inp.put_postfilter(e1, p);
    let e3 = inp.put_flag(e2, h.transient, inp.lm > 0);
    if inp.start == 0 && p.gain > 0 {
        lemma_postfilter_on(inp, e1, symbols::mate(e1, none), p, Seq::empty());
    } else if inp.start == 0 && e1.tell() + 16 <= inp.total() {
        if inp.lm > 0 {
            lemma_two_bits(e1, false, h.transient, 3);
        }
        lemma_two_bits(e1, false, h.intra, 3);
    }
}

/// Resolution flags are written the same with fewer bits in all.
proof fn lemma_same_flags(
    inp: TfInput,
    small: TfInput,
    e: EncoderState,
    transient: bool,
    want: Seq<bool>,
    i: int,
)
    requires
        e.wf(),
        small == (TfInput { total: small.total, ..inp }),
        small.total <= inp.total,
        inp.start <= i,
        roomy(inp.put_flags(e, transient, want, i).enc, small.total),
    ensures
        small.put_flags(e, transient, want, i) == inp.put_flags(e, transient, want, i),
    decreases i - inp.start,
{
    let none = Seq::<u8>::empty();
    if i > inp.start {
        lemma_tf_flags(inp, e, symbols::mate(e, none), transient, want, i - 1, Seq::empty());
        let st = inp.put_flags(e, transient, want, i - 1);
        let logp = inp.tf_logp(transient, i - 1);
        lemma_symbol_back(st.enc, none, Symbol::Bit { bit: want[i - 1] != st.curr, logp }, Seq::empty());
        lemma_same_flags(inp, small, e, transient, want, i - 1);
    }
}

/// A band's boost is written the same with less in all.
proof fn lemma_same_steps(
    inp: FrameInput,
    small: FrameInput,
    e: EncoderState,
    total: int,
    less: int,
    logp: int,
    boost: int,
    quanta: int,
    cap: int,
    steps: int,
)
    requires
        e.wf(),
        0 < logp <= 6,
        0 <= less,
        ({
            let b = inp.put_steps(e, total, logp, boost, quanta, cap, steps);
            b.enc.bits < BIT_LIMIT && 8 * b.enc.tell() + 56 <= b.total - less
        }),
    ensures
        ({
            let b = inp.put_steps(e, total, logp, boost, quanta, cap, steps);
            small.put_steps(e, total - less, logp, boost, quanta, cap, steps) == (BandBoost {
                total: b.total - less,
                ..b
            })
        }),
    decreases math::max(cap - boost, 0),
{
    let none = Seq::<u8>::empty();
    lemma_steps(inp, e, symbols::mate(e, none), total, logp, boost, quanta, cap, steps, Seq::empty());
    lemma_eighths(e);
    if quanta > 0 && boost < cap && steps > 0 {
        let s = Symbol::Bit { bit: true, logp };
        lemma_symbol_back(e, none, s, Seq::empty());
        lemma_same_steps(
            inp,
            small,
            e.after_bit(true, logp),
            total - quanta,
            less,
            1,
            boost + quanta,
            quanta,
            cap,
            steps - 1,
        );
    }
}

/// Boosts are written the same in a smaller frame, with less left in all.
proof fn lemma_same_boosts(inp: FrameInput, bytes: int, e: EncoderState, steps: Seq<i32>, i: int)
    requires
        e.wf(),
        bytes <= inp.bytes,
        inp.start <= i,
        ({
            let b = inp.put_boosts(e, steps, i);
            b.enc.bits < BIT_LIMIT && 8 * b.enc.tell() + 56 <= b.total - 64 * (inp.bytes - bytes)
        }),
    ensures
        ({
            let b = inp.put_boosts(e, steps, i);
            inp.sized(bytes).put_boosts(e, steps, i) == (BoostPut {
                total: b.total - 64 * (inp.bytes - bytes),
                ..b
            })
        }),
    decreases i - inp.start,
{
    let none = Seq::<u8>::empty();
    if i > inp.start {
        let small = inp.sized(bytes);
        lemma_boosts_round_trip(inp, e, symbols::mate(e, none), steps, i - 1, Seq::empty());
        let st = inp.put_boosts(e, steps, i - 1);
        let quanta = inp.quanta(i - 1);
        let cap = rate::band_cap(inp.lm, inp.c, i - 1);
        let want = steps[i - 1] as int;
        lemma_steps(inp, st.enc, symbols::mate(st.enc, none), st.total, st.logp, 0, quanta, cap, want, Seq::empty());
        lemma_same_boosts(inp, bytes, e, steps, i - 1);
        assert(small.quanta(i - 1) == quanta);
        lemma_same_steps(
            inp,
            small,
            st.enc,
            st.total,
            64 * (inp.bytes - bytes),
            st.logp,
            0,
            quanta,
            cap,
            want,
        );
    }
}

/// What stands between the coarse energy and the allocation is written the same in a
/// smaller frame that keeps two bytes beyond it and its boosts.
pub proof fn lemma_same_front(c: CeltEncoder, inp: FrameInput, bytes: int, e: EncoderState, a: FrontInput)
    requires
        e.wf(),
        inp.start <= inp.end,
        bytes <= inp.bytes,
        a.trim <= 10,
        ({
            let b = c.front_boosts(inp, e, a);
            let f = inp.put_trim(b, a.trim as int);
            f.bits < BIT_LIMIT && f.tell_frac() + (64 * inp.bytes - b.total) + 128 <= 64 * bytes
        }),
    ensures
        ({
            let b = c.front_boosts(inp, e, a);
            let f = inp.put_trim(b, a.trim as int);
            let small = inp.sized(bytes);
            let e1 = inp.tf().after_put(e, a.transient, a.tf_want@, a.tf_select);
            &&& roomy(e, 8 * bytes)
            &&& small.tf().after_put(e, a.transient, a.tf_want@, a.tf_select) == e1
            &&& small.tf().put_res(e, a.transient, a.tf_want@, a.tf_select) == inp.tf().put_res(
                e,
                a.transient,
                a.tf_want@,
                a.tf_select,
            )
            &&& small.spread_had(e1, c.wanted_spread(a, inp.end, inp.lm).0) == inp.spread_had(
                e1,
                c.wanted_spread(a, inp.end, inp.lm).0,
            )
            &&& c.front_boosts(small, e, a) == (BoostPut { total: b.total - 64 * (inp.bytes - bytes), ..b })
            &&& small.put_trim(c.front_boosts(small, e, a), a.trim as int) == f
            &&& small.trim_had(c.front_boosts(small, e, a), a.trim as int) == inp.trim_had(b, a.trim as int)
        }),
{
    let none = Seq::<u8>::empty();
    let small = inp.sized(bytes);
    let tf = inp.tf();
    let e1 = tf.after_put(e, a.transient, a.tf_want@, a.tf_select);
    let spread = c.wanted_spread(a, inp.end, inp.lm).0;
    let e2 = inp.put_spread(e1, spread);
    let b = c.front_boosts(inp, e, a);
    let f = inp.put_trim(b, a.trim as int);
    lemma_front_back(c, inp, e, a, none, Seq::empty());
    lemma_eighths(f);
    lemma_eighths(b.enc);
    lemma_boosts_round_trip(inp, e2, symbols::mate(e2, none), a.boost_steps@, inp.end, Seq::empty());
    lemma_tf_flags(tf, e, symbols::mate(e, none), a.transient, a.tf_want@, tf.end, Seq::empty());
    let flags = tf.put_flags(e, a.transient, a.tf_want@, tf.end).enc;
    lemma_symbol_back(flags, none, Symbol::Bit { bit: a.tf_select, logp: 1 }, Seq::empty());
    lemma_same_flags(tf, small.tf(), e, a.transient, a.tf_want@, tf.end);
    assert(small.tf().put_res(e, a.transient, a.tf_want@, a.tf_select) =~= tf.put_res(
        e,
        a.transient,
        a.tf_want@,
        a.tf_select,
    ));
    lemma_same_boosts(inp, bytes, e2, a.boost_steps@, inp.end);
}

/// The size that a variable rate gives a frame keeps two bytes beyond what is
/// written and the boosts.
pub proof fn lemma_target_keeps_room(target: int, tell: int, boost: int, most: int)
    requires
        (tell + boost + 63) / 64 + 2 <= most,
    ensures
        tell + boost + 128 <= 64 * analysis::vbr_bytes_spec(target, tell, boost, most),
        analysis::vbr_bytes_spec(target, tell, boost, most) <= most,
{
}

impl EnergyEnv {
    /// Coarse steps that were written are read the same with fewer bits in all.
    pub proof fn lemma_same_coarse(
        self,
        small: EnergyEnv,
        e: EncoderState,
        d: DecoderState,
        wants: Seq<i32>,
        i: int,
        ch: int,
        whole: Seq<bool>,
    )
        requires
            symbols::agrees(e, d),
            e.wf(),
            self.wf(),
            small == (EnergyEnv { budget: small.budget, ..self }),
            small.budget <= self.budget,
            self.start <= i,
            i < self.end || (i == self.end && ch <= 0),
            ch <= self.channels,
            symbols::leads_to(self.put_coarse(e, wants, i, ch).1, d.data, whole),
            roomy(self.put_coarse(e, wants, i, ch).1, small.budget),
        ensures
            small.coarse(d, i, ch) == self.coarse(d, i, ch),
        decreases i - self.start, ch,
    {
        if i == self.start && ch <= 0 {
        } else if ch <= 0 {
            self.lemma_same_coarse(small, e, d, wants, i - 1, self.channels, whole);
        } else {
            self.lemma_coarse_steps_round_trip(e, d, wants, i, ch - 1, whole);
            let (s, p) = self.put_coarse(e, wants, i, ch - 1);
            let want = wants[i * self.channels + ch - 1] as int;
            self.lemma_step_back(p, i, want, d.data, whole);
            self.lemma_same_coarse(small, e, d, wants, i, ch - 1, whole);
        }
    }
}

} // verus!
