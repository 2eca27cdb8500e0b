//! What a frame uses of its bytes.
//!
//! Up to the allocation every symbol is written only where there is room for the most
//! that it can cost, and so are the last energy bits. So the bits used stay within the
//! frame, as far as the band shapes leave it so.

use vstd::arithmetic::power2::lemma2_to64;
use vstd::prelude::*;

use crate::celt::decoder::{FrameInput, Postfilter, TfInput, SPREAD_ICDF, TAPSET_ICDF, TRIM_ICDF};
use crate::celt::encoder::{
    self, lemma_front_back, lemma_header_back, lemma_period, lemma_tf_flags,
    CeltEncoder, FrontInput, HeaderPlan, LastPut,
};
use crate::celt::energy::{EnergyEnv, SMALL_ENERGY_ICDF};
use crate::celt::energy_model::lemma_model_fits;
use crate::celt::laplace;
use crate::celt::shrink::lemma_eighths;
use crate::math;
use crate::range::cost::{self, lemma_bit_cost, lemma_entry_cost, lemma_narrowed_cost, lemma_raw_cost, lemma_uint_cost};
use crate::range::encoder::EncoderState;
use crate::range::symbols;

verus! {

/// The parameters of a post-filter that is on take at most 18 bits.
proof fn lemma_filter_tell(inp: FrameInput, e: EncoderState, p: Postfilter)
    requires
        e.wf(),
        p.gain > 0,
        (HeaderPlan { postfilter: p, transient: false, intra: false }).wf(),
    ensures
        inp.put_postfilter_on(e, p).tell() <= e.tell() + 18,
{
    lemma2_to64();
    lemma_period(p.period as int);
    let octave = encoder::octave_of(p.period as int);
    let s0 = symbols::Symbol::Bit { bit: true, logp: 1 };
    let s1 = symbols::Symbol::Uniform { v: octave, ft: 6 };
    let none = Seq::<u8>::empty();
    symbols::lemma_symbol_back(e, none, s0, Seq::empty());
    let e0 = e.after_bit(true, 1);
    symbols::lemma_symbol_back(e0, none, s1, Seq::empty());
    let e1 = e0.after_uint(octave, 6);
    let low = p.period + 1 - 16 * vstd::arithmetic::power2::pow2(octave as nat);
    symbols::lemma_symbol_back(e1, none, symbols::Symbol::Raw { v: low, n: 4 + octave }, Seq::empty());
    let e2 = e1.after_raw(low, 4 + octave);
    let v = p.gain - 1;
    symbols::lemma_symbol_back(e2, none, symbols::Symbol::Raw { v, n: 3 }, Seq::empty());
    lemma_bit_cost(e, true, 1);
    lemma_uint_cost(e0, octave, 6, 3);
    lemma_raw_cost(e1, low, 4 + octave);
    lemma_raw_cost(e2, v, 3);
    let e3 = inp.put_filter(e, p);
    reveal(TAPSET_ICDF);
    let k = p.tapset as int;
    assert(k == 0 || k == 1 || k == 2);
    lemma_entry_cost(e3, k, TAPSET_ICDF@, 2, 0);
}

impl FrameInput {
    /// Whether a frame that starts at `e` holds its header: it has a bit for the silence
    /// flag and 19 for a post-filter.
    pub open spec fn holds_header(self, e: EncoderState, h: HeaderPlan) -> bool {
        &&& e.tell() < self.total()
        &&& self.start == 0 && h.postfilter.gain > 0 ==> e.tell() + 19 <= self.total()
    }
}

/// What stands before the coarse energy stays within the frame.
pub proof fn lemma_header_tell(inp: FrameInput, e: EncoderState, h: HeaderPlan)
    requires
        e.wf(),
        h.wf(),
        inp.holds_header(e, h),
    ensures
        inp.put_header(e, h).wf(),
        inp.put_header(e, h).tell() <= inp.total(),
{
    reveal(FrameInput::put_header);
    lemma_header_back(inp, e, h, Seq::empty(), Seq::empty());
    lemma_bit_cost(e, false, 15);
    let e1 = inp.put_sounding(e);
    if inp.start == 0 && h.postfilter.gain > 0 {
        lemma_filter_tell(inp, e1, h.postfilter);
    }
    lemma_bit_cost(e1, false, 1);
    let e2 = inp.put_postfilter(e1, h.postfilter);
    lemma_bit_cost(e2, h.transient, 3);
    let e3 = inp.put_flag(e2, h.transient, inp.lm > 0);
    lemma_bit_cost(e3, h.intra, 3);
}

/// The first frame of a packet, of at least two bytes and with a post-filter at least
/// thirteen, has room for the flags of its header.
pub proof fn lemma_header_flags(inp: FrameInput, h: HeaderPlan)
    requires
        h.wf(),
        2 <= inp.bytes <= 1275,
        h.transient ==> inp.lm > 0,
        inp.start == 0 && h.postfilter.gain > 0 ==> inp.bytes >= 13,
    ensures
        ({
            let e = EncoderState::start(inp.bytes);
            &&& e.wf()
            &&& e.tell() == 1
            &&& inp.holds_header(e, h)
            &&& inp.header_had(e, h).transient == h.transient
            &&& inp.header_had(e, h).intra == h.intra
        }),
{
    let e = EncoderState::start(inp.bytes);
    symbols::lemma_start(inp.bytes, Seq::empty());
    lemma2_to64();
    math::lemma_ilog_gt(0x8000_0000, 31);
    math::lemma_ilog_le(0x8000_0000, 32);
    lemma_header_back(inp, e, h, Seq::empty(), Seq::empty());
    lemma_bit_cost(e, false, 15);
    let e1 = inp.put_sounding(e);
    if inp.start == 0 && h.postfilter.gain > 0 {
        lemma_filter_tell(inp, e1, h.postfilter);
    }
    lemma_bit_cost(e1, false, 1);
    let e2 = inp.put_postfilter(e1, h.postfilter);
    lemma_bit_cost(e2, h.transient, 3);
}

/// The coarse energy stays within the frame.
proof fn lemma_coarse_tell(env: EnergyEnv, e: EncoderState, wants: Seq<i32>, i: int, ch: int)
    requires
        e.wf(),
        env.wf(),
        e.tell() <= env.budget,
        env.start <= i,
        i < env.end || (i == env.end && ch <= 0),
        ch <= env.channels,
    ensures
        env.put_coarse(e, wants, i, ch).1.wf(),
        env.put_coarse(e, wants, i, ch).1.tell() <= env.budget,
    decreases i - env.start, ch,
{
    if i == env.start && ch <= 0 {
    } else if ch <= 0 {
        lemma_coarse_tell(env, e, wants, i - 1, env.channels);
    } else {
        lemma_coarse_tell(env, e, wants, i, ch - 1);
        let p = env.put_coarse(e, wants, i, ch - 1).1;
        let want = wants[i * env.channels + ch - 1] as int;
        env.lemma_step_back(p, i, want, Seq::empty(), Seq::empty());
        let q = env.held(p, i, want);
        let left = env.budget - p.tell();
        lemma2_to64();
        if left >= 15 {
            lemma_model_fits(env.lm, env.intra, i);
            let c = laplace::coded(q, env.zero_freq(i), env.decay(i));
            laplace::lemma_coded(q, env.zero_freq(i), env.decay(i));
            lemma_narrowed_cost(p, c.fl, c.fh, 32768, 15);
        } else if left >= 2 {
            let k = if q == 0 {
                0int
            } else if q < 0 {
                1
            } else {
                2
            };
            reveal(SMALL_ENERGY_ICDF);
            lemma_entry_cost(p, k, SMALL_ENERGY_ICDF@, 2, 0);
        } else if left >= 1 {
            lemma_bit_cost(p, q < 0, 1);
        }
    }
}

/// The resolution flags stay within what is not kept back.
proof fn lemma_flags_tell(inp: TfInput, e: EncoderState, transient: bool, want: Seq<bool>, i: int)
    requires
        e.wf(),
        inp.start <= i,
        e.tell() <= inp.total,
    ensures
        inp.put_flags(e, transient, want, i).enc.wf(),
        inp.put_flags(e, transient, want, i).enc.tell() + (if inp.put_reserved(e, transient) {
            1int
        } else {
            0
        }) <= inp.total,
    decreases i - inp.start,
{
    if i > inp.start {
        lemma_flags_tell(inp, e, transient, want, i - 1);
        let st = inp.put_flags(e, transient, want, i - 1);
        let none = Seq::<u8>::empty();
        lemma_tf_flags(inp, e, symbols::mate(e, none), transient, want, i, Seq::empty());
        lemma_bit_cost(st.enc, want[i - 1] != st.curr, inp.tf_logp(transient, i - 1));
    }
}

/// A band's boost stays within the budget.
proof fn lemma_steps_tell(
    inp: FrameInput,
    e: EncoderState,
    total: int,
    logp: int,
    boost: int,
    quanta: int,
    cap: int,
    steps: int,
    bits: int,
)
    requires
        e.wf(),
        0 < logp <= 6,
        total <= 8 * bits,
        e.tell() <= bits,
    ensures
        inp.put_steps(e, total, logp, boost, quanta, cap, steps).enc.tell() <= bits,
    decreases math::max(cap - boost, 0),
{
    if quanta > 0 && e.tell_frac() + 8 * logp < total && boost < cap {
        lemma_eighths(e);
        let bit = steps > 0;
        lemma_bit_cost(e, bit, logp);
        symbols::lemma_symbol_back(e, Seq::empty(), symbols::Symbol::Bit { bit, logp }, Seq::empty());
        if steps > 0 {
            lemma_steps_tell(
                inp,
                e.after_bit(true, logp),
                total - quanta,
                1,
                boost + quanta,
                quanta,
                cap,
                steps - 1,
                bits,
            );
        }
    }
}

/// The boosts stay within the frame.
proof fn lemma_boosts_tell(inp: FrameInput, e: EncoderState, steps: Seq<i32>, i: int)
    requires
        e.wf(),
        inp.start <= i,
        e.tell() <= inp.total(),
    ensures
        inp.put_boosts(e, steps, i).enc.tell() <= inp.total(),
    decreases i - inp.start,
{
    if i > inp.start {
        lemma_boosts_tell(inp, e, steps, i - 1);
        let none = Seq::<u8>::empty();
        encoder::lemma_boosts_round_trip(inp, e, symbols::mate(e, none), steps, i - 1, Seq::empty());
        let st = inp.put_boosts(e, steps, i - 1);
        lemma_steps_tell(
            inp,
            st.enc,
            st.total,
            st.logp,
            0,
            inp.quanta(i - 1),
            crate::celt::rate::band_cap(inp.lm, inp.c, i - 1),
            steps[i - 1] as int,
            inp.total(),
        );
    }
}

/// What stands between the coarse energy and the allocation stays within the frame.
proof fn lemma_front_tell(c: CeltEncoder, inp: FrameInput, e: EncoderState, a: FrontInput)
    requires
        e.wf(),
        inp.start <= inp.end,
        a.trim <= 10,
        e.tell() <= inp.total(),
    ensures
        inp.put_trim(c.front_boosts(inp, e, a), a.trim as int).tell() <= inp.total(),
{
    lemma2_to64();
    lemma_front_back(c, inp, e, a, Seq::empty(), Seq::empty());
    let tf = inp.tf();
    let st = tf.put_flags(e, a.transient, a.tf_want@, tf.end);
    lemma_flags_tell(tf, e, a.transient, a.tf_want@, tf.end);
    lemma_bit_cost(st.enc, a.tf_select, 1);
    let e1 = tf.after_put(e, a.transient, a.tf_want@, a.tf_select);
    let spread = c.wanted_spread(a, inp.end, inp.lm).0;
    let k = spread.raw_spec() as int;
    assert(k == 0 || k == 1 || k == 2 || k == 3);
    assert(cost::entry_width(k, SPREAD_ICDF@, 5) >= 2) by {
        reveal(SPREAD_ICDF);
    }
    lemma_entry_cost(e1, k, SPREAD_ICDF@, 5, 1);
    let e2 = inp.put_spread(e1, spread);
    lemma_boosts_tell(inp, e2, a.boost_steps@, inp.end);
    let b = c.front_boosts(inp, e, a);
    let t = a.trim as int;
    assert(t == 0 || t == 1 || t == 2 || t == 3 || t == 4 || t == 5 || t == 6 || t == 7 || t == 8 || t == 9 || t == 10);
    assert(cost::entry_width(t, TRIM_ICDF@, 7) >= 2) by {
        reveal(TRIM_ICDF);
    }
    lemma_entry_cost(b.enc, t, TRIM_ICDF@, 7, 1);
    lemma_eighths(b.enc);
}

/// What stands before the allocation of a frame stays within the frame.
pub proof fn lemma_head_tell(
    c: CeltEncoder,
    inp: FrameInput,
    e: EncoderState,
    h: HeaderPlan,
    coarse: Seq<i32>,
    a: FrontInput,
)
    requires
        inp.wf(),
        e.wf(),
        h.wf(),
        a.trim <= 10,
        inp.holds_header(e, h),
    ensures
        ({
            let energies = inp.energy_env(h.intra).put_coarse(inp.put_header(e, h), coarse, inp.end, 0).1;
            inp.put_trim(c.front_boosts(inp, energies, a), a.trim as int).tell() <= inp.total()
        }),
{
    lemma_header_tell(inp, e, h);
    let env = inp.energy_env(h.intra);
    lemma_coarse_tell(env, inp.put_header(e, h), coarse, inp.end, 0);
    let energies = env.put_coarse(inp.put_header(e, h), coarse, inp.end, 0).1;
    lemma_front_tell(c, inp, energies, a);
}

/// The last bits take no more than are left.
proof fn lemma_pass_tell(
    st: LastPut,
    end: int,
    fine_quant: Seq<i32>,
    fine_priority: Seq<bool>,
    prio: bool,
    c: int,
    values: Seq<bool>,
    i: int,
    total: int,
)
    requires
        c == 1 || c == 2,
        st.left >= 0,
        st.enc.tell() + st.left <= total,
    ensures
        ({
            let r = encoder::put_pass(st, end, fine_quant, fine_priority, prio, c, values, i);
            r.left >= 0 && r.enc.tell() + r.left <= total
        }),
    decreases end - i,
{
    if i >= end || st.left < c {
    } else if fine_quant[i] >= 8 || fine_priority[i] != prio {
        lemma_pass_tell(st, end, fine_quant, fine_priority, prio, c, values, i + 1, total);
    } else {
        let one = encoder::put_one(st, values[i * c]);
        lemma_raw_cost(st.enc, if values[i * c] { 1 } else { 0 }, 1);
        let next = if c == 2 {
            encoder::put_one(one, values[i * c + 1])
        } else {
            one
        };
        lemma_raw_cost(one.enc, if values[i * c + 1] { 1 } else { 0 }, 1);
        lemma_pass_tell(next, end, fine_quant, fine_priority, prio, c, values, i + 1, total);
    }
}

/// Where the band shapes and the anti-collapse flag stay within the frame, so does the
/// whole of it.
pub proof fn lemma_end_tell(
    inp: FrameInput,
    e: EncoderState,
    kept: int,
    fine_quant: Seq<i32>,
    fine_priority: Seq<bool>,
    flag: bool,
    values: Seq<bool>,
)
    requires
        inp.c == 1 || inp.c == 2,
        inp.put_anti_collapse(e, kept, flag).tell() <= inp.total(),
    ensures
        inp.put_end(e, kept, fine_quant, fine_priority, flag, values).tell() <= inp.total(),
{
    let e1 = inp.put_anti_collapse(e, kept, flag);
    let total = inp.total();
    let first = LastPut { enc: e1, left: total - e1.tell() };
    lemma_pass_tell(first, inp.end, fine_quant, fine_priority, false, inp.c, values, inp.start, total);
    let second = encoder::put_pass(first, inp.end, fine_quant, fine_priority, false, inp.c, values, inp.start);
    lemma_pass_tell(second, inp.end, fine_quant, fine_priority, true, inp.c, values, inp.start, total);
}

} // verus!
