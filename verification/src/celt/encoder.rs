//! What the transform encoder writes before the band shapes, and the decisions
//! that shape it.
//!
//! The signal analysis hands in integers: levels, counts, wanted steps. What is
//! written follows the order in which the decoder reads.

pub mod laws;

use vstd::arithmetic::power2::{lemma2_to64, pow2};
use vstd::prelude::*;

use crate::celt::analysis::{self, cap_bytes, choose_intensity, equiv_rate, spreading_decision, vbr_bytes, SmallCounts};
use crate::celt::bands;
use crate::celt::decoder::{
    self as frame, lemma_icdfs, lemma_tf_table, FrameInput, COMBFILTER_MINPERIOD, Postfilter, TfInput, SPREAD_ICDF, TAPSET_ICDF, TF_SELECT_TABLE, TRIM_ICDF,
};
use crate::celt::energy::{self, lemma_slot, lemma_small_icdf, EnergyEnv, LastBits, SMALL_ENERGY_ICDF};
use crate::celt::energy_model::lemma_model_fits;
use crate::celt::laplace::{self, ec_laplace_encode, lemma_laplace_inverse};
use crate::celt::modes::{self, band_width, frame_multiple, E_PROB_MODEL, NB_EBANDS};
use crate::celt::rate::{self, init_caps};
use crate::celt::vq::Spread;
use crate::math::{self, ec_ilog, max_i32, pow2_u32};
use crate::range::decoder::{lemma_tell, DecoderState, BIT_LIMIT};
use crate::range::encoder::EncoderState;
use crate::range::symbols::{self, lemma_symbol, lemma_symbol_back, Symbol};
use crate::range::RangeEncoder;

verus! {

/// Where the writing of the resolutions stands.
#[verifier::ext_equal]
pub struct TfPut {
    pub enc: EncoderState,
    pub curr: bool,
    pub changed: bool,
    pub flags: Seq<bool>,
}

impl TfInput {
    /// Whether the selection between the two pairs of resolutions is kept back.
    pub open spec fn put_reserved(self, e: EncoderState, transient: bool) -> bool {
        self.lm > 0 && e.tell() + self.tf_logp(transient, self.start) < self.total
    }

    /// The wanted resolution flags of the bands below `i`, as far as there are
    /// bits for them; beyond that a flag stays as it was.
    pub open spec fn put_flags(self, e: EncoderState, transient: bool, want: Seq<bool>, i: int) -> TfPut
        decreases i - self.start,
    {
        if i <= self.start {
            TfPut { enc: e, curr: false, changed: false, flags: Seq::empty() }
        } else {
            let st = self.put_flags(e, transient, want, i - 1);
            let logp = self.tf_logp(transient, i - 1);
            let budget = self.total - if self.put_reserved(e, transient) {
                1int
            } else {
                0
            };
            if st.enc.tell() + logp <= budget {
                TfPut {
                    enc: st.enc.after_bit(want[i - 1] != st.curr, logp),
                    curr: want[i - 1],
                    changed: st.changed || want[i - 1],
                    flags: st.flags.push(want[i - 1]),
                }
            } else {
                TfPut { flags: st.flags.push(st.curr), ..st }
            }
        }
    }

    /// Whether the selection is coded: it is kept back and makes a difference.
    pub open spec fn put_select_coded(self, e: EncoderState, transient: bool, want: Seq<bool>) -> bool {
        let st = self.put_flags(e, transient, want, self.end);
        self.put_reserved(e, transient) && self.tf_entry(transient, false, st.changed) != self.tf_entry(
            transient,
            true,
            st.changed,
        )
    }

    /// The resolution change of each band that the flags come to.
    pub open spec fn put_res(self, e: EncoderState, transient: bool, want: Seq<bool>, select: bool) -> Seq<i32> {
        let st = self.put_flags(e, transient, want, self.end);
        let chosen = self.put_select_coded(e, transient, want) && select;
        Seq::new(
            21,
            |j: int|
                if self.start <= j < self.end {
                    self.tf_entry(transient, chosen, st.flags[j - self.start]) as i32
                } else {
                    0
                },
        )
    }

    /// The stream after the resolutions.
    pub open spec fn after_put(self, e: EncoderState, transient: bool, want: Seq<bool>, select: bool) -> EncoderState {
        let st = self.put_flags(e, transient, want, self.end);
        if self.put_select_coded(e, transient, want) {
            st.enc.after_bit(select, 1)
        } else {
            st.enc
        }
    }
}

/// The resolution changes of a frame are possible for its blocks.
pub open spec fn resolved(tf_res: Seq<i32>, start: int, end: int, lm: int, transient: bool) -> bool {
    forall|j: int|
        start <= j < end ==> bands::tf_fits(
            if transient {
                modes::frame_mult(lm)
            } else {
                1
            },
            #[trigger] tf_res[j] as int,
        )
}

/// Encodes the time-frequency resolution of the bands: `want` holds the wanted
/// flag of each, `select` the wanted pair. Gives the resolution changes that the
/// decoder will have.
pub fn tf_encode(
    enc: &mut RangeEncoder,
    start: usize,
    end: usize,
    is_transient: bool,
    lm: usize,
    total_bits: u32,
    want: &[bool; NB_EBANDS],
    select: bool,
) -> (r: [i32; NB_EBANDS])
    requires
        old(enc).wf(),
        start <= end <= 21,
        lm <= 3,
    ensures
        final(enc).wf(),
        final(enc)@.wf(),
        final(enc)@.size == old(enc)@.size,
        ({
            let inp = TfInput { start: start as int, end: end as int, lm: lm as int, total: total_bits as int };
            &&& r@ == inp.put_res(old(enc)@, is_transient, want@, select)
            &&& final(enc)@ == inp.after_put(old(enc)@, is_transient, want@, select)
        }),
        resolved(r@, start as int, end as int, lm as int, is_transient),
{
    let ghost inp = TfInput { start: start as int, end: end as int, lm: lm as int, total: total_bits as int };
    let ghost e0 = enc@;
    let ghost w = want@;
    proof {
        enc.lemma_wf();
    }
    let mut tell: u32 = enc.tell();
    let mut logp: u32 = if is_transient {
        2
    } else {
        4
    };
    let reserved: bool = lm > 0 && tell + logp < total_bits;
    let budget: u32 = if reserved {
        total_bits - 1
    } else {
        total_bits
    };
    let mut curr: bool = false;
    let mut changed: bool = false;
    let mut flags: Vec<bool> = Vec::new();
    let mut j: usize = start;
    assert(flags@ =~= Seq::<bool>::empty());
    while j < end
        invariant
            enc.wf(),
            enc@.wf(),
            enc@.size == old(enc)@.size,
            start <= end <= 21,
            w == want@,
            start == inp.start,
            end == inp.end,
            start <= j <= end,
            reserved == inp.put_reserved(e0, is_transient),
            budget == inp.total - if reserved {
                1int
            } else {
                0
            },
            logp == inp.tf_logp(is_transient, j as int),
            tell == enc@.tell(),
            tell <= crate::range::decoder::BIT_LIMIT,
            flags@.len() == j - start,
            (TfPut { enc: enc@, curr, changed, flags: flags@ }) == inp.put_flags(e0, is_transient, w, j as int),
        decreases end - j,
    {
        if tell + logp <= budget {
            let flag: bool = want[j];
            enc.encode_bit_logp(flag != curr, logp);
            tell = enc.tell();
            curr = flag;
            changed = changed || flag;
        }
        flags.push(curr);
        logp = if is_transient {
            4
        } else {
            5
        };
        j = j + 1;
    }
    let base: usize = if is_transient {
        4
    } else {
        0
    };
    let which: usize = if changed {
        1
    } else {
        0
    };
    let mut pair: usize = 0;
    if reserved && TF_SELECT_TABLE[lm][base + which] != TF_SELECT_TABLE[lm][base + 2 + which] {
        enc.encode_bit_logp(select, 1);
        pair = if select {
            2
        } else {
            0
        };
    }
    let mut r: [i32; NB_EBANDS] = [0; 21];
    let ghost target = inp.put_res(e0, is_transient, w, select);
    j = start;
    while j < end
        invariant
            start <= end <= 21,
            lm <= 3,
            start == inp.start,
            end == inp.end,
            lm == inp.lm,
            start <= j <= end,
            base == if is_transient {
                4int
            } else {
                0
            },
            pair == 0 || pair == 2,
            flags@ == inp.put_flags(e0, is_transient, w, inp.end).flags,
            flags@.len() == end - start,
            target == inp.put_res(e0, is_transient, w, select),
            (pair == 2) == (inp.put_select_coded(e0, is_transient, w) && select),
            forall|k: int| 0 <= k < j ==> #[trigger] r@[k] == target[k],
            forall|k: int| j <= k < 21 ==> #[trigger] r@[k] == 0,
        decreases end - j,
    {
        let f: usize = if flags[j - start] {
            1
        } else {
            0
        };
        r[j] = TF_SELECT_TABLE[lm][base + pair + f];
        j = j + 1;
    }
    assert(r@ =~= target);
    proof {
        let chosen = inp.put_select_coded(e0, is_transient, w) && select;
        let st = inp.put_flags(e0, is_transient, w, inp.end);
        assert forall|k: int| start <= k < end implies bands::tf_fits(
            if is_transient {
                modes::frame_mult(lm as int)
            } else {
                1
            },
            #[trigger] r@[k] as int,
        ) by {
            lemma_tf_table(
                lm as int,
                is_transient,
                (if chosen {
                    2int
                } else {
                    0
                }) + (if st.flags[k - start] {
                    1int
                } else {
                    0
                }),
            );
            assert(r@[k] == target[k]);
        }
    }
    r
}

pub proof fn lemma_tf_flags(
    inp: TfInput,
    e: EncoderState,
    d: DecoderState,
    transient: bool,
    want: Seq<bool>,
    i: int,
    whole: Seq<bool>,
)
    requires
        symbols::agrees(e, d),
        e.wf(),
        inp.start <= i,
    ensures
        inp.put_flags(e, transient, want, i).enc.wf(),
        symbols::grows(e, inp.put_flags(e, transient, want, i).enc),
        symbols::leads_to(inp.put_flags(e, transient, want, i).enc, d.data, whole) ==> {
            let p = inp.put_flags(e, transient, want, i);
            let t = inp.tf_flags(d, transient, i);
            &&& symbols::leads_to(e, d.data, whole)
            &&& symbols::agrees(p.enc, t.dec)
            &&& t.dec.data == d.data
            &&& p.curr == t.curr
            &&& p.changed == t.changed
            &&& p.flags == t.flags
        },
    decreases i - inp.start,
{
    if i > inp.start {
        lemma_tf_flags(inp, e, d, transient, want, i - 1, whole);
        let st = inp.put_flags(e, transient, want, i - 1);
        let t = inp.tf_flags(d, transient, i - 1);
        let logp = inp.tf_logp(transient, i - 1);
        let s = Symbol::Bit { bit: want[i - 1] != st.curr, logp };
        if symbols::leads_to(st.enc, d.data, whole) {
            lemma_symbol(st.enc, t.dec, s, whole);
        } else {
            lemma_symbol_back(st.enc, d.data, s, whole);
        }
    }
}

/// The decoder reads the resolution changes that the encoder ended with.
pub proof fn lemma_tf_round_trip(
    inp: TfInput,
    e: EncoderState,
    d: DecoderState,
    transient: bool,
    want: Seq<bool>,
    select: bool,
    whole: Seq<bool>,
)
    requires
        symbols::agrees(e, d),
        e.wf(),
        inp.start <= inp.end,
        symbols::leads_to(inp.after_put(e, transient, want, select), d.data, whole),
    ensures
        symbols::leads_to(e, d.data, whole),
        inp.tf_res(d, transient) == inp.put_res(e, transient, want, select),
        symbols::agrees(inp.after_put(e, transient, want, select), inp.after_tf(d, transient)),
        inp.after_tf(d, transient).data == d.data,
{
    lemma_tf_flags(inp, e, d, transient, want, inp.end, whole);
    let p = inp.put_flags(e, transient, want, inp.end);
    let t = inp.tf_flags(d, transient, inp.end);
    if inp.put_select_coded(e, transient, want) {
        let s = Symbol::Bit { bit: select, logp: 1 };
        lemma_symbol_back(p.enc, d.data, s, whole);
        lemma_symbol(p.enc, t.dec, s, whole);
    }
    assert(inp.tf_res(d, transient) =~= inp.put_res(e, transient, want, select));
}

/// Where the writing of the boosts stands: the stream, the budget less the
/// boosts, the cost of the next boost's first step, and the boosts so far.
#[verifier::ext_equal]
pub struct BoostPut {
    pub enc: EncoderState,
    pub total: int,
    pub logp: int,
    pub offsets: Seq<int>,
}

/// One band's boost as written: the boost, the stream and the budget.
#[verifier::ext_equal]
pub struct BandBoost {
    pub boost: int,
    pub enc: EncoderState,
    pub total: int,
}

impl FrameInput {
    /// The boost of a band from `boost` on: `steps` steps, as far as there are
    /// bits for them and the cap allows.
    pub open spec fn put_steps(
        self,
        e: EncoderState,
        total: int,
        logp: int,
        boost: int,
        quanta: int,
        cap: int,
        steps: int,
    ) -> BandBoost
        decreases math::max(cap - boost, 0),
    {
        if quanta > 0 && e.tell_frac() + 8 * logp < total && boost < cap {
            if steps > 0 {
                self.put_steps(e.after_bit(true, logp), total - quanta, 1, boost + quanta, quanta, cap, steps - 1)
            } else {
                BandBoost { boost, enc: e.after_bit(false, logp), total }
            }
        } else {
            BandBoost { boost, enc: e, total }
        }
    }

    /// The boosts of the bands below `i`, where band `k` is to have `steps[k]`
    /// steps.
    pub open spec fn put_boosts(self, e: EncoderState, steps: Seq<i32>, i: int) -> BoostPut
        decreases i - self.start,
    {
        if i <= self.start {
            BoostPut { enc: e, total: 8 * self.total(), logp: 6, offsets: Seq::new(21, |k: int| 0int) }
        } else {
            let st = self.put_boosts(e, steps, i - 1);
            let b = self.put_steps(
                st.enc,
                st.total,
                st.logp,
                0,
                self.quanta(i - 1),
                rate::band_cap(self.lm, self.c, i - 1),
                steps[i - 1] as int,
            );
            BoostPut {
                enc: b.enc,
                total: b.total,
                logp: if b.boost > 0 {
                    math::max(2, st.logp - 1)
                } else {
                    st.logp
                },
                offsets: st.offsets.update(i - 1, b.boost),
            }
        }
    }

    /// The stream after the tilt.
    pub open spec fn put_trim(self, st: BoostPut, trim: int) -> EncoderState {
        if st.enc.tell_frac() + 48 <= st.total {
            st.enc.after_icdf(trim, TRIM_ICDF@, 7)
        } else {
            st.enc
        }
    }

    /// The tilt that the decoder will have.
    pub open spec fn trim_had(self, st: BoostPut, trim: int) -> int {
        if st.enc.tell_frac() + 48 <= st.total {
            trim
        } else {
            5
        }
    }

    /// The stream after the spread.
    pub open spec fn put_spread(self, e: EncoderState, spread: Spread) -> EncoderState {
        if e.tell() + 4 <= self.total() {
            e.after_icdf(spread.raw_spec() as int, SPREAD_ICDF@, 5)
        } else {
            e
        }
    }

    /// The spread that the decoder will have.
    pub open spec fn spread_had(self, e: EncoderState, spread: Spread) -> Spread {
        if e.tell() + 4 <= self.total() {
            spread
        } else {
            Spread::Normal
        }
    }
}

/// Encodes the boosts of the bands: band `k` is to have `steps[k]` steps. Gives
/// the boosts in eighth bits and the budget less the boosts.
pub fn encode_boosts(
    enc: &mut RangeEncoder,
    start: usize,
    end: usize,
    channels: usize,
    lm: usize,
    nb_bytes: usize,
    steps: &[i32; NB_EBANDS],
) -> (r: ([i32; NB_EBANDS], i64))
    requires
        old(enc).wf(),
        start < end <= 21,
        channels == 1 || channels == 2,
        lm <= 3,
        nb_bytes <= 0x1_0000,
    ensures
        final(enc).wf(),
        final(enc)@.wf(),
        final(enc)@.size == old(enc)@.size,
        ({
            let inp = FrameInput {
                bytes: nb_bytes as int,
                c: channels as int,
                lm: lm as int,
                start: start as int,
                end: end as int,
            };
            let b = inp.put_boosts(old(enc)@, steps@, end as int);
            &&& final(enc)@ == b.enc
            &&& r.1 == b.total
            &&& rate::ints(r.0@) == b.offsets
        }),
        forall|j: int| 0 <= j < 21 ==> 0 <= #[trigger] r.0@[j] <= 0x1_0000,
{
    let ghost inp = FrameInput {
        bytes: nb_bytes as int,
        c: channels as int,
        lm: lm as int,
        start: start as int,
        end: end as int,
    };
    let ghost e0 = enc@;
    let ghost want = steps@;
    proof {
        enc.lemma_wf();
    }
    let caps: [i32; NB_EBANDS] = init_caps(lm, channels);
    let mut offsets: [i32; NB_EBANDS] = [0; 21];
    assert(rate::ints(offsets@) =~= Seq::new(21, |k: int| 0int));
    let mut logp: u32 = 6;
    let mut total: i64 = 64 * nb_bytes as i64;
    let m: i32 = frame_multiple(lm);
    let mut i: usize = start;
    while i < end
        invariant
            enc.wf(),
            enc@.wf(),
            enc@.size == old(enc)@.size,
            inp.wf(),
            start == inp.start,
            end == inp.end,
            channels == inp.c,
            lm == inp.lm,
            m == modes::frame_mult(inp.lm),
            1 <= m <= 8,
            nb_bytes <= 0x1_0000,
            want == steps@,
            start <= i <= end,
            2 <= logp <= 6,
            -0x1_0000 * (i - start) <= total <= 64 * nb_bytes,
            forall|j: int| 0 <= j < 21 ==> #[trigger] caps@[j] == rate::band_cap(inp.lm, inp.c, j),
            forall|j: int| 0 <= j < 21 ==> 0 < #[trigger] caps@[j] <= 0x8000,
            forall|j: int| 0 <= j < 21 ==> 0 <= #[trigger] offsets@[j] <= 0x1_0000,
            (BoostPut { enc: enc@, total: total as int, logp: logp as int, offsets: rate::ints(offsets@) })
                == inp.put_boosts(e0, want, i as int),
        decreases end - i,
    {
        let w: i32 = band_width(i);
        proof {
            let wi = w as int;
            let mi = m as int;
            assert(1 <= wi * mi <= 176) by (nonlinear_arith)
                requires
                    1 <= wi <= 22,
                    1 <= mi <= 8,
            ;
            let x = wi * mi;
            let ci = channels as int;
            assert(1 <= ci * x <= 352) by (nonlinear_arith)
                requires
                    1 <= x <= 176,
                    1 <= ci <= 2,
            ;
        }
        let width: i32 = channels as i32 * (w * m);
        let quanta: i32 = math::min_i32(8 * width, math::max_i32(48, width));
        let cap: i32 = caps[i];
        let target: i32 = steps[i];
        let ghost st = inp.put_boosts(e0, want, i as int);
        let ghost whole = inp.put_steps(
            st.enc,
            st.total,
            st.logp,
            0,
            quanta as int,
            cap as int,
            target as int,
        );
        let mut loop_logp: u32 = logp;
        let mut boost: i32 = 0;
        let mut left: i32 = target;
        let mut more: bool = true;
        let total0: i64 = total;
        while more && enc.tell_frac() as i64 + 8 * (loop_logp as i64) < total && boost < cap
            invariant
                enc.wf(),
                enc@.wf(),
                enc@.size == old(enc)@.size,
                1 <= loop_logp <= 6,
                8 <= quanta <= 2816,
                0 < cap <= 0x8000,
                0 <= boost <= cap + quanta,
                total == total0 - boost,
                -0x15_0000 <= total0 <= 0x40_0000,
                more ==> whole == inp.put_steps(
                    enc@,
                    total as int,
                    loop_logp as int,
                    boost as int,
                    quanta as int,
                    cap as int,
                    left as int,
                ),
                !more ==> whole == (BandBoost { boost: boost as int, enc: enc@, total: total as int }),
            decreases math::max(cap - boost, 0), (if more { 1int } else { 0int }),
        {
            if left > 0 {
                enc.encode_bit_logp(true, loop_logp);
                boost = boost + quanta;
                total = total - quanta as i64;
                loop_logp = 1;
                left = left - 1;
            } else {
                enc.encode_bit_logp(false, loop_logp);
                more = false;
            }
        }
        assert(whole == (BandBoost { boost: boost as int, enc: enc@, total: total as int }));
        offsets[i] = boost;
        if boost > 0 {
            logp = if logp > 3 {
                logp - 1
            } else {
                2
            };
        }
        i = i + 1;
        assert(rate::ints(offsets@) =~= st.offsets.update(i - 1, boost as int));
    }
    (offsets, total)
}

pub proof fn lemma_steps(
    inp: FrameInput,
    e: EncoderState,
    d: DecoderState,
    total: int,
    logp: int,
    boost: int,
    quanta: int,
    cap: int,
    steps: int,
    whole: Seq<bool>,
)
    requires
        symbols::agrees(e, d),
        e.wf(),
        0 < logp <= 16,
    ensures
        inp.put_steps(e, total, logp, boost, quanta, cap, steps).enc.wf(),
        symbols::grows(e, inp.put_steps(e, total, logp, boost, quanta, cap, steps).enc),
        inp.put_steps(e, total, logp, boost, quanta, cap, steps).total <= total,
        symbols::leads_to(inp.put_steps(e, total, logp, boost, quanta, cap, steps).enc, d.data, whole) ==> {
            let p = inp.put_steps(e, total, logp, boost, quanta, cap, steps);
            let (b, t, left) = inp.boost_steps(d, total, logp, boost, quanta, cap);
            &&& symbols::leads_to(e, d.data, whole)
            &&& symbols::agrees(p.enc, t)
            &&& t.data == d.data
            &&& p.boost == b
            &&& p.total == left
        },
    decreases math::max(cap - boost, 0),
{
    reveal(EncoderState::tell_frac);
    reveal(DecoderState::tell_frac);
    if quanta > 0 && e.tell_frac() + 8 * logp < total && boost < cap {
        let s = Symbol::Bit { bit: steps > 0, logp };
        lemma_symbol(e, d, s, whole);
        if steps > 0 {
            if symbols::leads_to(s.put(e), d.data, whole) {
                lemma_steps(
                    inp,
                    s.put(e),
                    s.take(d),
                    total - quanta,
                    1,
                    boost + quanta,
                    quanta,
                    cap,
                    steps - 1,
                    whole,
                );
            } else {
                lemma_steps(
                    inp,
                    s.put(e),
                    symbols::mate(s.put(e), d.data),
                    total - quanta,
                    1,
                    boost + quanta,
                    quanta,
                    cap,
                    steps - 1,
                    whole,
                );
            }
        }
    }
}

/// The decoder reads the boosts that the encoder ended with.
pub proof fn lemma_boosts_round_trip(
    inp: FrameInput,
    e: EncoderState,
    d: DecoderState,
    steps: Seq<i32>,
    i: int,
    whole: Seq<bool>,
)
    requires
        symbols::agrees(e, d),
        e.wf(),
        inp.start <= i,
    ensures
        inp.put_boosts(e, steps, i).enc.wf(),
        symbols::grows(e, inp.put_boosts(e, steps, i).enc),
        inp.put_boosts(e, steps, i).total <= 8 * inp.total(),
        2 <= inp.put_boosts(e, steps, i).logp <= 6,
        symbols::leads_to(inp.put_boosts(e, steps, i).enc, d.data, whole) ==> {
            let p = inp.put_boosts(e, steps, i);
            let t = inp.boosts(d, i);
            &&& symbols::leads_to(e, d.data, whole)
            &&& symbols::agrees(p.enc, t.dec)
            &&& t.dec.data == d.data
            &&& p.total == t.total
            &&& p.logp == t.logp
            &&& p.offsets == t.offsets
        },
    decreases i - inp.start,
{
    if i > inp.start {
        lemma_boosts_round_trip(inp, e, d, steps, i - 1, whole);
        let st = inp.put_boosts(e, steps, i - 1);
        let t = inp.boosts(d, i - 1);
        let quanta = inp.quanta(i - 1);
        let cap = rate::band_cap(inp.lm, inp.c, i - 1);
        if symbols::leads_to(st.enc, d.data, whole) {
            lemma_steps(inp, st.enc, t.dec, st.total, st.logp, 0, quanta, cap, steps[i - 1] as int, whole);
        } else {
            let m = symbols::mate(st.enc, d.data);
            lemma_steps(inp, st.enc, m, st.total, st.logp, 0, quanta, cap, steps[i - 1] as int, whole);
        }
    }
}

/// Encodes the spread, where there are bits for it; gives the one that the
/// decoder will have.
pub fn encode_spread(enc: &mut RangeEncoder, nb_bytes: usize, spread: Spread) -> (r: Spread)
    requires
        old(enc).wf(),
        nb_bytes <= 0x1_0000,
    ensures
        final(enc).wf(),
        final(enc)@.wf(),
        final(enc)@.size == old(enc)@.size,
        ({
            let inp = FrameInput { bytes: nb_bytes as int, c: 1, lm: 0, start: 0, end: 1 };
            &&& r == inp.spread_had(old(enc)@, spread)
            &&& final(enc)@ == inp.put_spread(old(enc)@, spread)
        }),
{
    proof {
        enc.lemma_wf();
        lemma_spread_entry(spread.raw_spec() as int);
    }
    if enc.tell() + 4 <= 8 * nb_bytes as u32 {
        enc.encode_icdf(spread.raw(), &SPREAD_ICDF, 5);
        spread
    } else {
        Spread::Normal
    }
}

/// Encodes the tilt, where there are bits for it; gives the one that the decoder
/// will have. `total` is the budget less the boosts.
pub fn encode_trim(enc: &mut RangeEncoder, total: i64, trim: usize) -> (r: usize)
    requires
        old(enc).wf(),
        trim <= 10,
    ensures
        final(enc).wf(),
        final(enc)@.wf(),
        final(enc)@.size == old(enc)@.size,
        ({
            let inp = FrameInput { bytes: 0, c: 1, lm: 0, start: 0, end: 1 };
            let st = BoostPut { enc: old(enc)@, total: total as int, logp: 0, offsets: Seq::empty() };
            &&& r == inp.trim_had(st, trim as int)
            &&& final(enc)@ == inp.put_trim(st, trim as int)
        }),
{
    proof {
        enc.lemma_wf();
        lemma_trim_entry(trim as int);
    }
    if enc.tell_frac() as i64 + 48 <= total {
        enc.encode_icdf(trim, &TRIM_ICDF, 7);
        trim
    } else {
        5
    }
}

/// No entry of the table has probability zero.
proof fn lemma_spread_entry(k: int)
    requires
        0 <= k < 4,
    ensures
        (Symbol::Entry { k, icdf: SPREAD_ICDF@, ftb: 5 }).legal(),
        SPREAD_ICDF@.len() == 4,
{
    reveal(SPREAD_ICDF);
    lemma_icdfs();
    lemma2_to64();
    assert(k == 0 || k == 1 || k == 2 || k == 3);
    assert forall|j: int| 0 <= j < k implies #[trigger] SPREAD_ICDF@[j] >= SPREAD_ICDF@[k - 1] by {
        assert(j == 0 || j == 1 || j == 2 || j == 3);
    }
}

/// No entry of the table has probability zero.
proof fn lemma_trim_entry(k: int)
    requires
        0 <= k < 11,
    ensures
        (Symbol::Entry { k, icdf: TRIM_ICDF@, ftb: 7 }).legal(),
        TRIM_ICDF@.len() == 11,
{
    reveal(TRIM_ICDF);
    lemma_icdfs();
    lemma2_to64();
    assert(k == 0 || k == 1 || k == 2 || k == 3 || k == 4 || k == 5 || k == 6 || k == 7 || k == 8 || k == 9 || k == 10);
    assert forall|j: int| 0 <= j < k implies #[trigger] TRIM_ICDF@[j] >= TRIM_ICDF@[k - 1] by {
        assert(j == 0 || j == 1 || j == 2 || j == 3 || j == 4 || j == 5 || j == 6 || j == 7 || j == 8 || j == 9 || j == 10);
    }
}

/// No entry of the table has probability zero.
proof fn lemma_tapset_entry(k: int)
    requires
        0 <= k < 3,
    ensures
        (Symbol::Entry { k, icdf: TAPSET_ICDF@, ftb: 2 }).legal(),
        TAPSET_ICDF@.len() == 3,
{
    reveal(TAPSET_ICDF);
    lemma_icdfs();
    lemma2_to64();
    assert(k == 0 || k == 1 || k == 2);
    assert forall|j: int| 0 <= j < k implies #[trigger] TAPSET_ICDF@[j] >= TAPSET_ICDF@[k - 1] by {
        assert(j == 0 || j == 1 || j == 2);
    }
}

/// No entry of the table has probability zero.
pub proof fn lemma_small_entry(k: int)
    requires
        0 <= k < 3,
    ensures
        (Symbol::Entry { k, icdf: SMALL_ENERGY_ICDF@, ftb: 2 }).legal(),
        SMALL_ENERGY_ICDF@.len() == 3,
{
    reveal(SMALL_ENERGY_ICDF);
    lemma_small_icdf();
    lemma2_to64();
    assert(k == 0 || k == 1 || k == 2);
    assert forall|j: int| 0 <= j < k implies #[trigger] SMALL_ENERGY_ICDF@[j] >= SMALL_ENERGY_ICDF@[k - 1] by {
        assert(j == 0 || j == 1 || j == 2);
    }
}

/// The decoder reads the spread that the encoder ended with.
pub proof fn lemma_spread_round_trip(
    inp: FrameInput,
    e: EncoderState,
    d: DecoderState,
    spread: Spread,
    whole: Seq<bool>,
)
    requires
        symbols::agrees(e, d),
        e.wf(),
        symbols::leads_to(inp.put_spread(e, spread), d.data, whole),
    ensures
        symbols::leads_to(e, d.data, whole),
        inp.spread(d) == inp.spread_had(e, spread),
        symbols::agrees(inp.put_spread(e, spread), inp.after_spread(d)),
        inp.after_spread(d).data == d.data,
{
    let k = spread.raw_spec() as int;
    lemma_spread_entry(k);
    lemma_symbol(e, d, Symbol::Entry { k, icdf: SPREAD_ICDF@, ftb: 5 }, whole);
}

/// The decoder reads the tilt that the encoder ended with.
pub proof fn lemma_trim_round_trip(
    inp: FrameInput,
    st: BoostPut,
    t: frame::BoostState,
    trim: int,
    whole: Seq<bool>,
)
    requires
        symbols::agrees(st.enc, t.dec),
        st.enc.wf(),
        st.total == t.total,
        0 <= trim <= 10,
        symbols::leads_to(inp.put_trim(st, trim), t.dec.data, whole),
    ensures
        symbols::leads_to(st.enc, t.dec.data, whole),
        inp.trim(t) == inp.trim_had(st, trim),
        symbols::agrees(inp.put_trim(st, trim), inp.after_trim(t)),
        inp.after_trim(t).data == t.dec.data,
{
    reveal(EncoderState::tell_frac);
    reveal(DecoderState::tell_frac);
    lemma_trim_entry(trim);
    lemma_symbol(st.enc, t.dec, Symbol::Entry { k: trim, icdf: TRIM_ICDF@, ftb: 7 }, whole);
}

/// What stands before the coarse energy, as written: the post-filter, whether
/// the blocks are short, and whether the energies stand on their own.
#[derive(Clone, Copy, Debug, PartialEq, Eq, Structural)]
pub struct HeaderPlan {
    /// The post-filter; a gain of zero switches it off.
    pub postfilter: Postfilter,
    pub transient: bool,
    pub intra: bool,
}

impl HeaderPlan {
    /// A post-filter that is on has a period and a gain that can be coded.
    pub open spec fn wf(self) -> bool {
        self.postfilter.gain > 0 ==> {
            &&& 15 <= self.postfilter.period <= 1022
            &&& self.postfilter.gain <= 8
            &&& self.postfilter.tapset <= 2
        }
    }
}

/// The octave of a period.
pub open spec fn octave_of(period: int) -> int {
    math::ilog(period + 1) - 5
}

impl FrameInput {
    /// The stream after the flag that the frame is not silent, which only the
    /// first bits of a packet hold.
    pub open spec fn put_sounding(self, e: EncoderState) -> EncoderState {
        if e.tell() == 1 {
            e.after_bit(false, 15)
        } else {
            e
        }
    }

    /// The stream after period and gain of a post-filter that is on.
    pub open spec fn put_filter(self, e: EncoderState, p: Postfilter) -> EncoderState {
        let octave = octave_of(p.period as int);
        let e1 = e.after_bit(true, 1).after_uint(octave, 6);
        let e2 = e1.after_raw(p.period + 1 - 16 * pow2(octave as nat), 4 + octave);
        e2.after_raw(p.gain - 1, 3)
    }

    /// The stream after the parameters of a post-filter that is on.
    pub open spec fn put_postfilter_on(self, e: EncoderState, p: Postfilter) -> EncoderState {
        let e3 = self.put_filter(e, p);
        if e3.tell() + 2 <= self.total() {
            e3.after_icdf(p.tapset as int, TAPSET_ICDF@, 2)
        } else {
            e3
        }
    }

    /// The stream after the post-filter, which only a frame from the first band on
    /// can hold.
    pub open spec fn put_postfilter(self, e: EncoderState, p: Postfilter) -> EncoderState {
        if self.start != 0 {
            e
        } else if p.gain > 0 {
            self.put_postfilter_on(e, p)
        } else if e.tell() + 16 <= self.total() {
            e.after_bit(false, 1)
        } else {
            e
        }
    }

    /// The stream after a flag of three bits, where there is room for it.
    pub open spec fn put_flag(self, e: EncoderState, flag: bool, wanted: bool) -> EncoderState {
        if wanted && e.tell() + 3 <= self.total() {
            e.after_bit(flag, 3)
        } else {
            e
        }
    }

    /// The stream after what stands before the coarse energy.
    #[verifier::opaque]
    pub open spec fn put_header(self, e: EncoderState, h: HeaderPlan) -> EncoderState {
        let e1 = self.put_postfilter(self.put_sounding(e), h.postfilter);
        self.put_flag(self.put_flag(e1, h.transient, self.lm > 0), h.intra, true)
    }
}

pub proof fn lemma_period(period: int)
    requires
        15 <= period <= 1022,
    ensures
        0 <= octave_of(period) <= 5,
        16 * pow2(octave_of(period) as nat) <= period + 1,
        period + 1 - 16 * pow2(octave_of(period) as nat) < pow2((4 + octave_of(period)) as nat),
        pow2((4 + octave_of(period)) as nat) == 16 * pow2(octave_of(period) as nat),
        1 <= pow2(octave_of(period) as nat) <= 32,
{
    lemma2_to64();
    let p = period + 1;
    math::lemma_ilog(p);
    math::lemma_ilog_gt(p, 4);
    math::lemma_ilog_le(p, 10);
    let o = octave_of(period);
    assert(o == 0 || o == 1 || o == 2 || o == 3 || o == 4 || o == 5);
}

/// Encodes what stands before the coarse energy.
pub fn encode_header(enc: &mut RangeEncoder, start: usize, lm: usize, nb_bytes: usize, plan: HeaderPlan)
    requires
        old(enc).wf(),
        start < 21,
        lm <= 3,
        nb_bytes <= 0x1_0000,
        plan.wf(),
    ensures
        final(enc).wf(),
        final(enc)@.wf(),
        final(enc)@.size == old(enc)@.size,
        ({
            let inp = FrameInput { bytes: nb_bytes as int, c: 1, lm: lm as int, start: start as int, end: 21 };
            final(enc)@ == inp.put_header(old(enc)@, plan)
        }),
{
    let ghost inp = FrameInput { bytes: nb_bytes as int, c: 1, lm: lm as int, start: start as int, end: 21 };
    proof {
        reveal(FrameInput::put_header);
        enc.lemma_wf();
    }
    let total: u32 = 8 * nb_bytes as u32;
    if enc.tell() == 1 {
        enc.encode_bit_logp(false, 15);
    }
    let p: Postfilter = plan.postfilter;
    if start == 0 {
        if p.gain > 0 {
            proof {
                lemma_period(p.period as int);
                lemma_tapset_entry(p.tapset as int);
            }
            enc.encode_bit_logp(true, 1);
            let value: u32 = p.period as u32 + 1;
            let octave: u32 = ec_ilog(value) - 5;
            enc.encode_uint(octave, 6);
            enc.encode_raw_bits(value - 16 * pow2_u32(octave), 4 + octave);
            enc.encode_raw_bits(p.gain - 1, 3);
            if enc.tell() + 2 <= total {
                enc.encode_icdf(p.tapset, &TAPSET_ICDF, 2);
            }
        } else if enc.tell() + 16 <= total {
            enc.encode_bit_logp(false, 1);
        }
    }
    if lm > 0 && enc.tell() + 3 <= total {
        enc.encode_bit_logp(plan.transient, 3);
    }
    if enc.tell() + 3 <= total {
        enc.encode_bit_logp(plan.intra, 3);
    }
}

impl FrameInput {
    /// The post-filter that the decoder will have.
    pub open spec fn postfilter_had(self, e: EncoderState, p: Postfilter) -> Postfilter {
        if self.start == 0 && p.gain > 0 {
            Postfilter {
                tapset: if self.put_filter(e, p).tell() + 2 <= self.total() {
                    p.tapset
                } else {
                    0
                },
                ..p
            }
        } else {
            frame::no_postfilter()
        }
    }

    /// What the decoder will have before the coarse energy.
    pub open spec fn header_had(self, e: EncoderState, h: HeaderPlan) -> HeaderPlan {
        let e1 = self.put_sounding(e);
        let e2 = self.put_postfilter(e1, h.postfilter);
        let e3 = self.put_flag(e2, h.transient, self.lm > 0);
        HeaderPlan {
            postfilter: self.postfilter_had(e1, h.postfilter),
            transient: self.lm > 0 && e2.tell() + 3 <= self.total() && h.transient,
            intra: e3.tell() + 3 <= self.total() && h.intra,
        }
    }
}

pub proof fn lemma_postfilter_on(inp: FrameInput, e: EncoderState, d: DecoderState, p: Postfilter, whole: Seq<bool>)
    requires
        symbols::agrees(e, d),
        e.wf(),
        inp.start == 0,
        p.gain > 0,
        (HeaderPlan { postfilter: p, transient: false, intra: false }).wf(),
    ensures
        inp.put_postfilter_on(e, p).wf(),
        symbols::grows(e, inp.put_postfilter_on(e, p)),
        symbols::grows(inp.put_filter(e, p), inp.put_postfilter_on(e, p)),
        inp.put_postfilter_on(e, p).bits < BIT_LIMIT ==> inp.put_filter(e, p).tell() >= e.tell() + 7,
        symbols::leads_to(inp.put_postfilter_on(e, p), d.data, whole) ==> {
            let out = inp.postfilter_on(d.after_bit(1));
            &&& symbols::leads_to(e, d.data, whole)
            &&& d.bit(1)
            &&& out.postfilter == inp.postfilter_had(e, p)
            &&& symbols::agrees(inp.put_postfilter_on(e, p), out.dec)
            &&& out.dec.data == d.data
        },
{
    let period = p.period as int;
    lemma_period(period);
    lemma_tapset_entry(p.tapset as int);
    lemma2_to64();
    let octave = octave_of(period);
    let low = period + 1 - 16 * pow2(octave as nat);
    let s0 = Symbol::Bit { bit: true, logp: 1 };
    let s1 = Symbol::Uniform { v: octave, ft: 6 };
    let s2 = Symbol::Raw { v: low, n: 4 + octave };
    let s3 = Symbol::Raw { v: p.gain - 1, n: 3 };
    let s4 = Symbol::Entry { k: p.tapset as int, icdf: TAPSET_ICDF@, ftb: 2 };
    let e0 = s0.put(e);
    let e1 = s1.put(e0);
    let e2 = s2.put(e1);
    let e3 = s3.put(e2);
    lemma_symbol_back(e, d.data, s0, whole);
    lemma_symbol_back(e0, d.data, s1, whole);
    lemma_symbol_back(e1, d.data, s2, whole);
    lemma_symbol_back(e2, d.data, s3, whole);
    lemma_symbol_back(e3, d.data, s4, whole);
    reveal(EncoderState::after_raw);
    if symbols::leads_to(e3, d.data, whole) {
        lemma_symbol(e, d, s0, whole);
        let d0 = s0.take(d);
        lemma_symbol(e0, d0, s1, whole);
        let d1 = s1.take(d0);
        lemma_symbol(e1, d1, s2, whole);
        let d2 = s2.take(d1);
        lemma_symbol(e2, d2, s3, whole);
        let d3 = s3.take(d2);
        if e3.tell() + 2 <= inp.total() && symbols::leads_to(s4.put(e3), d.data, whole) {
            lemma_symbol(e3, d3, s4, whole);
        }
    }
}

/// A buffer that can come of the state before the coarse energy can come of each one
/// before.
pub proof fn lemma_header_back(inp: FrameInput, e: EncoderState, h: HeaderPlan, data: Seq<u8>, whole: Seq<bool>)
    requires
        e.wf(),
        h.wf(),
    ensures
        ({
            let e1 = inp.put_sounding(e);
            let e2 = inp.put_postfilter(e1, h.postfilter);
            let e3 = inp.put_flag(e2, h.transient, inp.lm > 0);
            &&& e1.wf() && e2.wf() && e3.wf() && inp.put_header(e, h).wf()
            &&& symbols::grows(e, e1) && symbols::grows(e1, e2) && symbols::grows(e2, e3) && symbols::grows(
                e3,
                inp.put_header(e, h),
            )
            &&& symbols::leads_to(inp.put_header(e, h), data, whole) ==> symbols::leads_to(e3, data, whole)
                && symbols::leads_to(e2, data, whole) && symbols::leads_to(e1, data, whole) && symbols::leads_to(
                e,
                data,
                whole,
            )
        }),
{
    reveal(FrameInput::put_header);
    let p = h.postfilter;
    let e1 = inp.put_sounding(e);
    lemma_symbol_back(e, data, Symbol::Bit { bit: false, logp: 15 }, whole);
    let e2 = inp.put_postfilter(e1, p);
    lemma_symbol_back(e1, data, Symbol::Bit { bit: false, logp: 1 }, whole);
    if inp.start == 0 && p.gain > 0 {
        lemma_postfilter_on(inp, e1, symbols::mate(e1, data), p, whole);
    }
    let e3 = inp.put_flag(e2, h.transient, inp.lm > 0);
    lemma_symbol_back(e2, data, Symbol::Bit { bit: h.transient, logp: 3 }, whole);
    lemma_symbol_back(e3, data, Symbol::Bit { bit: h.intra, logp: 3 }, whole);
}

/// The decoder reads before the coarse energy what the encoder put there, if the
/// frame has bits at all, and enough for the post-filter where that is on.
pub proof fn lemma_header_round_trip(
    inp: FrameInput,
    e: EncoderState,
    d: DecoderState,
    h: HeaderPlan,
    whole: Seq<bool>,
)
    requires
        symbols::agrees(e, d),
        e.wf(),
        d.wf(),
        h.wf(),
        e.tell() < inp.total(),
        inp.start == 0 && h.postfilter.gain > 0 ==> e.tell() + 16 <= inp.total(),
        symbols::leads_to(inp.put_header(e, h), d.data, whole),
    ensures
        symbols::leads_to(e, d.data, whole),
        ({
            let r = inp.header(d);
            let had = inp.header_had(e, h);
            &&& !r.silence
            &&& r.postfilter == had.postfilter
            &&& r.transient == had.transient
            &&& r.intra == had.intra
            &&& symbols::agrees(inp.put_header(e, h), r.dec)
            &&& r.dec.data == d.data
        }),
{
    reveal(FrameInput::put_header);
    reveal(FrameInput::header);
    lemma_header_back(inp, e, h, d.data, whole);
    let p = h.postfilter;
    let total = inp.total();
    let s1 = Symbol::Bit { bit: false, logp: 15 };
    let e1 = inp.put_sounding(e);
    let off = Symbol::Bit { bit: false, logp: 1 };
    let e2 = inp.put_postfilter(e1, p);
    let s3 = Symbol::Bit { bit: h.transient, logp: 3 };
    let e3 = inp.put_flag(e2, h.transient, inp.lm > 0);
    let s4 = Symbol::Bit { bit: h.intra, logp: 3 };
    // Forward, symbol by symbol.
    let used = d.tell();
    lemma_tell(d);
    if e.tell() == 1 {
        lemma_symbol(e, d, s1, whole);
        crate::range::decoder::lemma_unset_bit_tell(d, 15);
        crate::range::decoder::lemma_after_bit(d, 15);
        lemma_tell(d.after_bit(15));
    }
    let d1 = inp.after_silence(d);
    assert(!inp.silence(d));
    assert(symbols::agrees(e1, d1));
    assert(d1.data == d.data);
    assert(e1.tell() == used || (used == 1 && e1.tell() <= 2 && e1.tell() >= 1));
    assert(used + 16 <= total <==> e1.tell() + 16 <= total);
    assert(used + 3 <= total <==> e1.tell() + 3 <= total);
    if inp.start == 0 && p.gain > 0 {
        lemma_postfilter_on(inp, e1, d1, p, whole);
    } else if inp.start == 0 && e1.tell() + 16 <= total {
        lemma_symbol(e1, d1, off, whole);
    }
    let out = inp.postfilter(d1, used);
    assert(symbols::agrees(e2, out.dec));
    assert(out.postfilter == inp.postfilter_had(e1, p));
    if inp.lm > 0 && e2.tell() + 3 <= total {
        lemma_symbol(e2, out.dec, s3, whole);
    }
    let d2 = if inp.lm > 0 && e2.tell() + 3 <= total {
        out.dec.after_bit(3)
    } else {
        out.dec
    };
    assert(symbols::agrees(e3, d2));
    if e3.tell() + 3 <= total {
        lemma_symbol(e3, d2, s4, whole);
    }
}

impl EnergyEnv {
    /// A wanted coarse step of band `i`, held to one step where few bits are left.
    pub open spec fn held(self, e: EncoderState, i: int, q: int) -> int {
        let left = self.budget - e.tell() - 3 * self.channels * (self.end - i);
        if i == self.start {
            q
        } else if left < 16 {
            math::max(math::min(q, 1), -1)
        } else if left < 24 {
            math::min(q, 1)
        } else {
            q
        }
    }

    /// The coarse step of band `i` that is coded for a wanted one, by the bits
    /// that are left.
    pub open spec fn step_had(self, e: EncoderState, i: int, want: int) -> int {
        let q = self.held(e, i, want);
        let left = self.budget - e.tell();
        if left >= 15 {
            laplace::coded(q, self.zero_freq(i), self.decay(i)).val
        } else if left >= 2 {
            math::max(math::min(q, 1), -1)
        } else if left >= 1 {
            math::min(q, 0)
        } else {
            -1
        }
    }

    /// The coarse step of band `i` that the decoder reads: the one that was coded,
    /// but for one below -1 with a single bit left, of which only the sign is.
    pub open spec fn step_read(self, e: EncoderState, i: int, want: int) -> int {
        if self.budget - e.tell() == 1 {
            math::max(self.step_had(e, i, want), -1)
        } else {
            self.step_had(e, i, want)
        }
    }

    /// The stream after it.
    pub open spec fn put_step(self, e: EncoderState, i: int, want: int) -> EncoderState {
        let q = self.held(e, i, want);
        let left = self.budget - e.tell();
        if left >= 15 {
            let s = laplace::coded(q, self.zero_freq(i), self.decay(i));
            e.narrowed(s.fl, s.fh, 32768)
        } else if left >= 2 {
            e.after_icdf(
                if q == 0 {
                    0
                } else if q < 0 {
                    1
                } else {
                    2
                },
                SMALL_ENERGY_ICDF@,
                2,
            )
        } else if left >= 1 {
            e.after_bit(q < 0, 1)
        } else {
            e
        }
    }
}

/// Encodes the coarse energy step of one channel of band `i`: `want` is the step
/// that the energy asks for. Gives the step that was coded.
pub fn quant_coarse_step(
    enc: &mut RangeEncoder,
    start: usize,
    end: usize,
    i: usize,
    channels: usize,
    lm: usize,
    intra: bool,
    budget: u32,
    want: i32,
) -> (r: i32)
    requires
        old(enc).wf(),
        start <= i < end <= 21,
        channels == 1 || channels == 2,
        lm <= 3,
        budget <= 0x8_0000,
        want > i32::MIN,
    ensures
        final(enc).wf(),
        final(enc)@.wf(),
        final(enc)@.size == old(enc)@.size,
        ({
            let env = EnergyEnv {
                start: start as int,
                end: end as int,
                channels: channels as int,
                lm: lm as int,
                intra,
                budget: budget as int,
            };
            &&& r == env.step_had(old(enc)@, i as int, want as int)
            &&& final(enc)@ == env.put_step(old(enc)@, i as int, want as int)
        }),
{
    let ghost env = EnergyEnv {
        start: start as int,
        end: end as int,
        channels: channels as int,
        lm: lm as int,
        intra,
        budget: budget as int,
    };
    proof {
        enc.lemma_wf();
    }
    let left: i64 = budget as i64 - enc.tell() as i64;
    let spare: i64 = left - (if channels == 2 {
        6
    } else {
        3
    }) * (end - i) as i64;
    assert(3 * env.channels * (env.end - i) == if channels == 2 {
        6 * (end - i)
    } else {
        3 * (end - i)
    });
    let mut q: i32 = want;
    if i != start {
        if spare < 24 && q > 1 {
            q = 1;
        }
        if spare < 16 && q < -1 {
            q = -1;
        }
    }
    assert(q == env.held(enc@, i as int, want as int));
    if left >= 15 {
        let row: usize = if intra {
            1
        } else {
            0
        };
        proof {
            lemma_model_fits(lm as int, intra, i as int);
        }
        let fs: u32 = E_PROB_MODEL[lm][row][2 * i] as u32 * 128;
        let decay: u32 = E_PROB_MODEL[lm][row][2 * i + 1] as u32 * 64;
        ec_laplace_encode(enc, q, fs, decay)
    } else if left >= 2 {
        let k: usize = if q == 0 {
            0
        } else if q < 0 {
            1
        } else {
            2
        };
        proof {
            lemma_small_entry(k as int);
        }
        enc.encode_icdf(k, &SMALL_ENERGY_ICDF, 2);
        if q == 0 {
            0
        } else if q < 0 {
            -1
        } else {
            1
        }
    } else if left >= 1 {
        enc.encode_bit_logp(q < 0, 1);
        if q < 0 {
            q
        } else {
            0
        }
    } else {
        -1
    }
}

/// The decoder reads the coarse step that was coded, but for a step below -1 with a
/// single bit left, of which only the sign is coded.
pub proof fn lemma_coarse_round_trip(
    env: EnergyEnv,
    e: EncoderState,
    d: DecoderState,
    i: int,
    want: int,
    whole: Seq<bool>,
)
    requires
        symbols::agrees(e, d),
        e.wf(),
        env.wf(),
        env.start <= i < env.end,
        symbols::leads_to(env.put_step(e, i, want), d.data, whole),
    ensures
        symbols::leads_to(e, d.data, whole),
        env.step(d, i) == env.step_read(e, i, want),
        symbols::agrees(env.put_step(e, i, want), env.after_step(d, i)),
        env.after_step(d, i).data == d.data,
{
    let q = env.held(e, i, want);
    let left = env.budget - e.tell();
    if left >= 15 {
        lemma_model_fits(env.lm, env.intra, i);
        reveal(laplace::symbol);
        reveal(laplace::after_symbol);
        let fs = env.zero_freq(i);
        let decay = env.decay(i);
        let c = laplace::coded(q, fs, decay);
        laplace::lemma_coded(q, fs, decay);
        lemma_symbol(e, d, Symbol::Part { fl: c.fl, fh: c.fh, ft: 32768 }, whole);
        lemma_laplace_inverse(q, fs, decay, d.freq(32768));
    } else if left >= 2 {
        let k = if q == 0 {
            0int
        } else if q < 0 {
            1
        } else {
            2
        };
        lemma_small_entry(k);
        lemma_symbol(e, d, Symbol::Entry { k, icdf: SMALL_ENERGY_ICDF@, ftb: 2 }, whole);
    } else if left >= 1 {
        lemma_symbol(e, d, Symbol::Bit { bit: q < 0, logp: 1 }, whole);
    }
}

/// The stream after the fine energy values of the bands below `i` and of the
/// first `ch` channels of band `i`.
pub open spec fn put_fine(
    e: EncoderState,
    start: int,
    fine_quant: Seq<i32>,
    values: Seq<u32>,
    channels: int,
    i: int,
    ch: int,
) -> EncoderState
    decreases i - start, ch,
{
    if i < start || (i == start && ch <= 0) {
        e
    } else if ch <= 0 {
        put_fine(e, start, fine_quant, values, channels, i - 1, channels)
    } else {
        let before = put_fine(e, start, fine_quant, values, channels, i, ch - 1);
        if fine_quant[i] <= 0 {
            before
        } else {
            before.after_raw(values[i * channels + ch - 1] as int, fine_quant[i] as int)
        }
    }
}

/// Whether the fine values fit their bits.
pub open spec fn fine_ok(fine_quant: Seq<i32>, values: Seq<u32>, channels: int) -> bool {
    &&& values.len() == 21 * channels
    &&& forall|j: int| 0 <= j < 21 ==> #[trigger] fine_quant[j] <= 25
    &&& forall|i: int, ch: int|
        0 <= i < 21 && 0 <= ch < channels && #[trigger] fine_slot(i, channels, ch) && fine_quant[i] > 0
            ==> values[i * channels + ch] < pow2(fine_quant[i] as nat)
}

/// A channel of a band.
pub open spec fn fine_slot(i: int, channels: int, ch: int) -> bool {
    true
}

/// Encodes the fine energy values of the bands from `start` up to `end`; that of
/// a channel of a band stands at band times channels plus channel.
pub fn quant_fine_energy(
    enc: &mut RangeEncoder,
    start: usize,
    end: usize,
    fine_quant: &[i32; NB_EBANDS],
    channels: usize,
    values: &[u32],
)
    requires
        old(enc).wf(),
        start <= end <= 21,
        channels == 1 || channels == 2,
        fine_ok(fine_quant@, values@, channels as int),
    ensures
        final(enc).wf(),
        final(enc)@.wf(),
        final(enc)@.size == old(enc)@.size,
        final(enc)@ == put_fine(old(enc)@, start as int, fine_quant@, values@, channels as int, end as int, 0),
{
    let ghost e0 = enc@;
    let ghost fq = fine_quant@;
    let ghost vs = values@;
    proof {
        enc.lemma_wf();
    }
    let mut i: usize = start;
    while i < end
        invariant
            enc.wf(),
            enc@.wf(),
            enc@.size == old(enc)@.size,
            start <= i <= end <= 21,
            channels == 1 || channels == 2,
            fq == fine_quant@,
            vs == values@,
            fine_ok(fq, vs, channels as int),
            enc@ == put_fine(e0, start as int, fq, vs, channels as int, i as int, 0),
        decreases end - i,
    {
        let bits: i32 = fine_quant[i];
        assert(fq[i as int] <= 25);
        let mut ch: usize = 0;
        while ch < channels
            invariant
                enc.wf(),
                enc@.wf(),
                enc@.size == old(enc)@.size,
                start <= i < 21,
                channels == 1 || channels == 2,
                fq == fine_quant@,
                vs == values@,
                vs.len() == 21 * channels,
                bits == fq[i as int],
                bits <= 25,
                ch <= channels,
                enc@ == put_fine(e0, start as int, fq, vs, channels as int, i as int, ch as int),
            decreases channels - ch,
        {
            if bits > 0 {
                proof {
                    lemma_slot(i as int, channels as int, ch as int);
                }
                enc.encode_raw_bits(values[i * channels + ch], bits as u32);
            }
            ch = ch + 1;
        }
        i = i + 1;
    }
}

/// The decoder reads the fine energy values that the encoder put.
pub proof fn lemma_fine_round_trip(
    e: EncoderState,
    d: DecoderState,
    start: int,
    fine_quant: Seq<i32>,
    values: Seq<u32>,
    channels: int,
    i: int,
    ch: int,
    whole: Seq<bool>,
)
    requires
        symbols::agrees(e, d),
        e.wf(),
        0 <= start <= i,
        i < 21 || (i == 21 && ch <= 0),
        channels == 1 || channels == 2,
        ch <= channels,
        fine_ok(fine_quant, values, channels),
    ensures
        put_fine(e, start, fine_quant, values, channels, i, ch).wf(),
        energy::fine(d, start, fine_quant, channels, i, ch).0.len() == 21 * channels,
        symbols::leads_to(put_fine(e, start, fine_quant, values, channels, i, ch), d.data, whole) ==> {
            let p = put_fine(e, start, fine_quant, values, channels, i, ch);
            let (q, t) = energy::fine(d, start, fine_quant, channels, i, ch);
            &&& symbols::leads_to(e, d.data, whole)
            &&& symbols::agrees(p, t)
            &&& t.data == d.data
            &&& forall|j: int, c: int|
                start <= j <= i && 0 <= c < channels && #[trigger] fine_slot(j, channels, c) && (j < i || c < ch)
                    && fine_quant[j] > 0 ==> q[j * channels + c] == values[j * channels + c]
        },
    decreases i - start, ch,
{
    if i < start || (i == start && ch <= 0) {
    } else if ch <= 0 {
        lemma_fine_round_trip(e, d, start, fine_quant, values, channels, i - 1, channels, whole);
    } else {
        lemma_fine_round_trip(e, d, start, fine_quant, values, channels, i, ch - 1, whole);
        let before = put_fine(e, start, fine_quant, values, channels, i, ch - 1);
        let (q, t) = energy::fine(d, start, fine_quant, channels, i, ch - 1);
        lemma_slot(i, channels, ch - 1);
        if fine_quant[i] > 0 {
            let v = values[i * channels + ch - 1] as int;
            assert(fine_quant[i] <= 25);
            assert(fine_slot(i, channels, ch - 1));
            assert(values[i * channels + (ch - 1)] < pow2(fine_quant[i] as nat));
            let s = Symbol::Raw { v, n: fine_quant[i] as int };
            lemma_symbol_back(before, d.data, s, whole);
            if symbols::leads_to(s.put(before), d.data, whole) {
                lemma_symbol(before, t, s, whole);
                let (q2, t2) = energy::fine(d, start, fine_quant, channels, i, ch);
                assert forall|j: int, c: int|
                    start <= j <= i && 0 <= c < channels && #[trigger] fine_slot(j, channels, c) && (j < i || c < ch)
                        && fine_quant[j] > 0 implies q2[j * channels + c] == values[j * channels + c] by {
                    lemma_slot(j, channels, c);
                    lemma_slots_apart(j, c, i, ch - 1, channels);
                }
            }
        }
    }
}

/// Channels of bands stand at places of their own.
proof fn lemma_slots_apart(j: int, c: int, i: int, ch: int, channels: int)
    requires
        channels == 1 || channels == 2,
        0 <= c < channels,
        0 <= ch < channels,
    ensures
        j * channels + c == i * channels + ch ==> j == i && c == ch,
{
    assert(channels == 1 ==> j * channels == j && i * channels == i) by (nonlinear_arith);
    assert(channels == 2 ==> j * channels == 2 * j && i * channels == 2 * i) by (nonlinear_arith);
}

/// Where the writing of the last bits stands.
#[verifier::ext_equal]
pub struct LastPut {
    pub enc: EncoderState,
    pub left: int,
}

/// One more bit.
pub open spec fn put_one(st: LastPut, bit: bool) -> LastPut {
    LastPut {
        enc: st.enc.after_raw(
            if bit {
                1
            } else {
                0
            },
            1,
        ),
        left: st.left - 1,
    }
}

/// The bands from `i` on of one priority, each with one more bit per channel as
/// long as there are enough.
pub open spec fn put_pass(
    st: LastPut,
    end: int,
    fine_quant: Seq<i32>,
    fine_priority: Seq<bool>,
    prio: bool,
    c: int,
    values: Seq<bool>,
    i: int,
) -> LastPut
    decreases end - i,
{
    if i >= end || st.left < c {
        st
    } else if fine_quant[i] >= 8 || fine_priority[i] != prio {
        put_pass(st, end, fine_quant, fine_priority, prio, c, values, i + 1)
    } else {
        let one = put_one(st, values[i * c]);
        put_pass(
            if c == 2 {
                put_one(one, values[i * c + 1])
            } else {
                one
            },
            end,
            fine_quant,
            fine_priority,
            prio,
            c,
            values,
            i + 1,
        )
    }
}

/// The last bits of the bands: first those of first priority, then the others.
pub open spec fn put_last(
    e: EncoderState,
    start: int,
    end: int,
    fine_quant: Seq<i32>,
    fine_priority: Seq<bool>,
    left: int,
    c: int,
    values: Seq<bool>,
) -> LastPut {
    put_pass(
        put_pass(LastPut { enc: e, left }, end, fine_quant, fine_priority, false, c, values, start),
        end,
        fine_quant,
        fine_priority,
        true,
        c,
        values,
        start,
    )
}

fn finalise_put(
    enc: &mut RangeEncoder,
    start: usize,
    end: usize,
    fine_quant: &[i32; NB_EBANDS],
    fine_priority: &[bool; NB_EBANDS],
    prio: bool,
    channels: usize,
    left: i32,
    values: &[bool],
) -> (r: i32)
    requires
        old(enc).wf(),
        start <= end <= 21,
        channels == 1 || channels == 2,
        values@.len() == 21 * channels,
    ensures
        final(enc).wf(),
        final(enc)@.size == old(enc)@.size,
        (LastPut { enc: final(enc)@, left: r as int }) == put_pass(
            LastPut { enc: old(enc)@, left: left as int },
            end as int,
            fine_quant@,
            fine_priority@,
            prio,
            channels as int,
            values@,
            start as int,
        ),
{
    let ghost whole = put_pass(
        LastPut { enc: enc@, left: left as int },
        end as int,
        fine_quant@,
        fine_priority@,
        prio,
        channels as int,
        values@,
        start as int,
    );
    let mut left: i32 = left;
    let mut i: usize = start;
    while i < end && left >= channels as i32
        invariant
            enc.wf(),
            enc@.size == old(enc)@.size,
            start <= i <= end <= 21,
            channels == 1 || channels == 2,
            values@.len() == 21 * channels,
            whole == put_pass(
                LastPut { enc: enc@, left: left as int },
                end as int,
                fine_quant@,
                fine_priority@,
                prio,
                channels as int,
                values@,
                i as int,
            ),
        decreases end - i,
    {
        if fine_quant[i] < 8 && fine_priority[i] == prio {
            proof {
                lemma_slot(i as int, channels as int, 0);
                lemma_slot(i as int, channels as int, channels - 1);
            }
            enc.encode_raw_bits(
                if values[i * channels] {
                    1
                } else {
                    0
                },
                1,
            );
            left = left - 1;
            if channels == 2 {
                enc.encode_raw_bits(
                    if values[i * channels + 1] {
                        1
                    } else {
                        0
                    },
                    1,
                );
                left = left - 1;
            }
        }
        i = i + 1;
    }
    left
}

/// Hands the bits that are left at the end of a frame to the bands: `values` says
/// for each channel of a band in which half of its step the energy lies. Gives
/// the bits that are still left.
pub fn quant_energy_finalise(
    enc: &mut RangeEncoder,
    start: usize,
    end: usize,
    fine_quant: &[i32; NB_EBANDS],
    fine_priority: &[bool; NB_EBANDS],
    bits_left: i32,
    channels: usize,
    values: &[bool],
) -> (r: i32)
    requires
        old(enc).wf(),
        start <= end <= 21,
        channels == 1 || channels == 2,
        values@.len() == 21 * channels,
    ensures
        final(enc).wf(),
        final(enc)@.size == old(enc)@.size,
        (LastPut { enc: final(enc)@, left: r as int }) == put_last(
            old(enc)@,
            start as int,
            end as int,
            fine_quant@,
            fine_priority@,
            bits_left as int,
            channels as int,
            values@,
        ),
{
    let left: i32 = finalise_put(enc, start, end, fine_quant, fine_priority, false, channels, bits_left, values);
    finalise_put(enc, start, end, fine_quant, fine_priority, true, channels, left, values)
}

/// Each last bit that was read is the one that was put.
pub open spec fn last_matches(out: Seq<Option<bool>>, values: Seq<bool>) -> bool {
    out.len() == values.len() && forall|k: int|
        0 <= k < out.len() && (#[trigger] out[k]) is Some ==> out[k]->0 == values[k]
}

proof fn lemma_one(st: LastPut, t: LastBits, values: Seq<bool>, slot: int, whole: Seq<bool>)
    requires
        symbols::agrees(st.enc, t.dec),
        st.enc.wf(),
        st.left == t.left,
        last_matches(t.out, values),
        0 <= slot < values.len(),
        symbols::leads_to(put_one(st, values[slot]).enc, t.dec.data, whole),
    ensures
        put_one(st, values[slot]).enc.wf(),
        ({
            let p = put_one(st, values[slot]);
            let q = energy::one_more(t, slot);
            &&& symbols::agrees(p.enc, q.dec)
            &&& q.dec.data == t.dec.data
            &&& p.left == q.left
            &&& last_matches(q.out, values)
        }),
{
    lemma2_to64();
    let v = if values[slot] {
        1int
    } else {
        0
    };
    lemma_symbol(st.enc, t.dec, Symbol::Raw { v, n: 1 }, whole);
}

proof fn lemma_one_back(st: LastPut, bit: bool, data: Seq<u8>, whole: Seq<bool>)
    requires
        st.enc.wf(),
    ensures
        put_one(st, bit).enc.wf(),
        symbols::leads_to(put_one(st, bit).enc, data, whole) ==> symbols::leads_to(st.enc, data, whole),
{
    lemma2_to64();
    let v = if bit {
        1int
    } else {
        0
    };
    lemma_symbol_back(st.enc, data, Symbol::Raw { v, n: 1 }, whole);
}

proof fn lemma_pass_back(
    st: LastPut,
    end: int,
    fine_quant: Seq<i32>,
    fine_priority: Seq<bool>,
    prio: bool,
    c: int,
    values: Seq<bool>,
    i: int,
    data: Seq<u8>,
    whole: Seq<bool>,
)
    requires
        st.enc.wf(),
    ensures
        put_pass(st, end, fine_quant, fine_priority, prio, c, values, i).enc.wf(),
        symbols::leads_to(put_pass(st, end, fine_quant, fine_priority, prio, c, values, i).enc, data, whole)
            ==> symbols::leads_to(st.enc, data, whole),
    decreases end - i,
{
    if i >= end || st.left < c {
    } else if fine_quant[i] >= 8 || fine_priority[i] != prio {
        lemma_pass_back(st, end, fine_quant, fine_priority, prio, c, values, i + 1, data, whole);
    } else {
        lemma_one_back(st, values[i * c], data, whole);
        let one = put_one(st, values[i * c]);
        lemma_one_back(one, values[i * c + 1], data, whole);
        let next = if c == 2 {
            put_one(one, values[i * c + 1])
        } else {
            one
        };
        lemma_pass_back(next, end, fine_quant, fine_priority, prio, c, values, i + 1, data, whole);
    }
}

proof fn lemma_pass(
    st: LastPut,
    t: LastBits,
    end: int,
    fine_quant: Seq<i32>,
    fine_priority: Seq<bool>,
    prio: bool,
    c: int,
    values: Seq<bool>,
    i: int,
    whole: Seq<bool>,
)
    requires
        symbols::agrees(st.enc, t.dec),
        st.enc.wf(),
        st.left == t.left,
        last_matches(t.out, values),
        values.len() == 21 * c,
        c == 1 || c == 2,
        0 <= i,
        end <= 21,
        symbols::leads_to(
            put_pass(st, end, fine_quant, fine_priority, prio, c, values, i).enc,
            t.dec.data,
            whole,
        ),
    ensures
        ({
            let p = put_pass(st, end, fine_quant, fine_priority, prio, c, values, i);
            let q = energy::last_pass(t, end, fine_quant, fine_priority, prio, c, i);
            &&& symbols::agrees(p.enc, q.dec)
            &&& q.dec.data == t.dec.data
            &&& p.left == q.left
            &&& last_matches(q.out, values)
        }),
    decreases end - i,
{
    if i >= end || st.left < c {
    } else if fine_quant[i] >= 8 || fine_priority[i] != prio {
        lemma_pass(st, t, end, fine_quant, fine_priority, prio, c, values, i + 1, whole);
    } else {
        let data = t.dec.data;
        lemma_slot(i, c, 0);
        lemma_slot(i, c, c - 1);
        let one = put_one(st, values[i * c]);
        lemma_one_back(st, values[i * c], data, whole);
        lemma_one_back(one, values[i * c + 1], data, whole);
        let next = if c == 2 {
            put_one(one, values[i * c + 1])
        } else {
            one
        };
        lemma_pass_back(next, end, fine_quant, fine_priority, prio, c, values, i + 1, data, whole);
        lemma_one(st, t, values, i * c, whole);
        let u = energy::one_more(t, i * c);
        if c == 2 {
            lemma_one(one, u, values, i * c + 1, whole);
        }
        let v = if c == 2 {
            energy::one_more(u, i * c + 1)
        } else {
            u
        };
        lemma_pass(next, v, end, fine_quant, fine_priority, prio, c, values, i + 1, whole);
    }
}

/// A buffer that can come of the state behind the last bits can come of the one
/// before.
pub proof fn lemma_last_back(
    e: EncoderState,
    start: int,
    end: int,
    fine_quant: Seq<i32>,
    fine_priority: Seq<bool>,
    left: int,
    c: int,
    values: Seq<bool>,
    data: Seq<u8>,
    whole: Seq<bool>,
)
    requires
        e.wf(),
    ensures
        put_last(e, start, end, fine_quant, fine_priority, left, c, values).enc.wf(),
        symbols::leads_to(
            put_last(e, start, end, fine_quant, fine_priority, left, c, values).enc,
            data,
            whole,
        ) ==> symbols::leads_to(e, data, whole),
{
    let none = LastPut { enc: e, left };
    lemma_pass_back(none, end, fine_quant, fine_priority, false, c, values, start, data, whole);
    let first = put_pass(none, end, fine_quant, fine_priority, false, c, values, start);
    lemma_pass_back(first, end, fine_quant, fine_priority, true, c, values, start, data, whole);
}

/// The decoder hands out the last bits to the same bands, and each is the one
/// that the encoder put.
pub proof fn lemma_last_round_trip(
    e: EncoderState,
    d: DecoderState,
    start: int,
    end: int,
    fine_quant: Seq<i32>,
    fine_priority: Seq<bool>,
    left: int,
    c: int,
    values: Seq<bool>,
    whole: Seq<bool>,
)
    requires
        symbols::agrees(e, d),
        e.wf(),
        0 <= start <= end <= 21,
        c == 1 || c == 2,
        values.len() == 21 * c,
        symbols::leads_to(
            put_last(e, start, end, fine_quant, fine_priority, left, c, values).enc,
            d.data,
            whole,
        ),
    ensures
        symbols::leads_to(e, d.data, whole),
        ({
            let p = put_last(e, start, end, fine_quant, fine_priority, left, c, values);
            let q = energy::last_bits(d, start, end, fine_quant, fine_priority, left, c);
            &&& symbols::agrees(p.enc, q.dec)
            &&& p.left == q.left
            &&& last_matches(q.out, values)
        }),
{
    let st = LastPut { enc: e, left };
    let mid = put_pass(st, end, fine_quant, fine_priority, false, c, values, start);
    lemma_pass_back(st, end, fine_quant, fine_priority, false, c, values, start, d.data, whole);
    lemma_pass_back(mid, end, fine_quant, fine_priority, true, c, values, start, d.data, whole);
    let t = LastBits { out: Seq::new((21 * c) as nat, |k: int| None::<bool>), dec: d, left };
    lemma_pass(st, t, end, fine_quant, fine_priority, false, c, values, start, whole);
    let u = energy::last_pass(t, end, fine_quant, fine_priority, false, c, start);
    lemma_pass(mid, u, end, fine_quant, fine_priority, true, c, values, start, whole);
}

/// What the signal analysis wants of a frame, between the coarse energy and the
/// allocation.
pub struct FrontInput {
    /// The blocks are short.
    pub transient: bool,
    /// The resolution flag of each band.
    pub tf_want: [bool; NB_EBANDS],
    /// The pair of resolutions.
    pub tf_select: bool,
    /// How many values of each band are small, channel after channel.
    pub counts: Vec<SmallCounts>,
    /// The weight of each band for the spread.
    pub spread_weight: [i32; NB_EBANDS],
    /// The boost of each band in steps.
    pub boost_steps: [i32; NB_EBANDS],
    /// The tilt.
    pub trim: usize,
    /// The channels are better coded one by one.
    pub dual_stereo: bool,
}

/// What the decoder will have of it.
pub struct FrontPart {
    pub tf_res: [i32; NB_EBANDS],
    pub spread: Spread,
    /// The boosts in eighth bits.
    pub offsets: [i32; NB_EBANDS],
    /// The frame's eighth bits less the boosts.
    pub total: i64,
    pub trim: usize,
    /// The first band without a stereo image of its own.
    pub intensity: usize,
    pub dual_stereo: bool,
}

impl FrontPart {
    /// Whether boosts and tilt are such as can be written.
    pub open spec fn wf(&self) -> bool {
        &&& forall|j: int| 0 <= j < 21 ==> 0 <= #[trigger] self.offsets@[j] <= 0x1_0000
        &&& self.trim <= 10
    }
}

/// The transform encoder's state between frames, without the signal's.
#[derive(Clone, Copy, Debug, PartialEq, Eq, Structural)]
pub struct CeltEncoder {
    pub channels: usize,
    /// The frames so far.
    pub frames: u64,
    /// The frames of short blocks in a row.
    pub consec_transient: u32,
    pub last_transient: bool,
    /// The tonality of the frames so far.
    pub tonal_average: i32,
    pub spread_decision: Spread,
    pub intensity: usize,
    /// The bits per second of a variable rate; none fills every frame.
    pub target_bitrate: Option<u32>,
    pub last_coded_bands: usize,
    /// The pre-filter of the last frame, which the decoder's post-filter undoes.
    pub prefilter: Postfilter,
    pub final_range: u32,
    pub complexity: u8,
}

impl Default for CeltEncoder {
    /// A mono encoder.
    fn default() -> (r: CeltEncoder)
        ensures
            r == CeltEncoder::fresh(1),
    {
        Self::new()
    }
}

impl CeltEncoder {
    /// What holds of an encoder between frames.
    pub open spec fn wf(self) -> bool {
        &&& self.channels == 1 || self.channels == 2
        &&& 0 <= self.tonal_average <= 0x1_0000
        &&& self.intensity <= 21
    }

    /// An encoder that has written nothing yet.
    pub open spec fn fresh(channels: usize) -> CeltEncoder {
        CeltEncoder {
            channels,
            frames: 0,
            consec_transient: 0,
            last_transient: false,
            tonal_average: 256,
            spread_decision: Spread::Normal,
            intensity: 0,
            target_bitrate: None,
            last_coded_bands: 0,
            prefilter: Postfilter { period: COMBFILTER_MINPERIOD, gain: 0, tapset: 0 },
            final_range: 0,
            complexity: 5,
        }
    }

    /// A mono encoder.
    pub fn new() -> (r: CeltEncoder)
        ensures
            r == CeltEncoder::fresh(1),
            r.wf(),
    {
        Self::with_channels(1)
    }

    /// An encoder of one or two channels.
    pub fn with_channels(channels: usize) -> (r: CeltEncoder)
        requires
            channels == 1 || channels == 2,
        ensures
            r == CeltEncoder::fresh(channels),
            r.wf(),
    {
        CeltEncoder {
            channels,
            frames: 0,
            consec_transient: 0,
            last_transient: false,
            tonal_average: 256,
            spread_decision: Spread::Normal,
            intensity: 0,
            target_bitrate: None,
            last_coded_bands: 0,
            prefilter: Postfilter { period: COMBFILTER_MINPERIOD, gain: 0, tapset: 0 },
            final_range: 0,
            complexity: 5,
        }
    }

    /// The final range of the last frame.
    pub fn final_range(&self) -> (r: u32)
        ensures
            r == self.final_range,
    {
        self.final_range
    }

    /// Sets the bits per second of a variable rate; none fills every frame.
    pub fn set_target_bitrate(&mut self, bitrate: Option<u32>)
        ensures
            *final(self) == (CeltEncoder { target_bitrate: bitrate, ..*old(self) }),
    {
        self.target_bitrate = bitrate;
    }

    /// Sets the depth of the analysis.
    pub fn set_complexity(&mut self, complexity: u8)
        ensures
            *final(self) == (CeltEncoder { complexity, ..*old(self) }),
    {
        self.complexity = complexity;
    }

    /// Whether the signal's pitch, resolutions and spread are searched for, which at
    /// the least complexity they are not.
    pub fn analyses_deeply(&self) -> (r: bool)
        ensures
            r == (self.complexity > 0),
    {
        self.complexity > 0
    }

    /// Whether a frame of size `lm` can have short blocks: where it is long enough and has
    /// the bits for the flag, `tell` of `total_bits` being written.
    pub fn seeks_transient(&self, lm: usize, tell: u32, total_bits: u32) -> (r: bool)
        ensures
            r == (lm > 0 && tell + 3 <= total_bits),
    {
        lm > 0 && total_bits >= 3 && tell <= total_bits - 3
    }

    /// What a change of the resolution costs, where the resolutions are searched for.
    pub open spec fn change_cost(self, nb_bytes: int, lm: int) -> Option<int> {
        if nb_bytes >= 15 * self.channels && lm > 0 && self.complexity > 0 {
            Some(math::max(80, 20480int / nb_bytes + 2))
        } else {
            None
        }
    }

    /// What a change of the resolution costs, where the resolutions of a frame of
    /// `nb_bytes` bytes are searched for: the more, the fewer bytes there are.
    pub fn resolution_cost(&self, nb_bytes: usize, lm: usize) -> (r: Option<i32>)
        requires
            self.wf(),
            0 < nb_bytes <= 1275,
        ensures
            r is Some <==> self.change_cost(nb_bytes as int, lm as int) is Some,
            r is Some ==> r->0 == self.change_cost(nb_bytes as int, lm as int)->0,
    {
        if nb_bytes >= 15 * self.channels && lm > 0 && self.analyses_deeply() {
            Some(max_i32(80, 20480 / nb_bytes as i32 + 2))
        } else {
            None
        }
    }

    /// Whether the pitch of a frame of `nb_bytes` bytes is searched for.
    pub fn seeks_pitch(&self, nb_bytes: usize) -> (r: bool)
        requires
            self.wf(),
        ensures
            r == (nb_bytes > 12 * self.channels && self.complexity > 0),
    {
        nb_bytes > 12 * self.channels && self.analyses_deeply()
    }

    /// The rate that a frame is shrunk to, where its size may vary.
    pub fn shrink_wanted(&self, vbr: bool) -> (r: Option<u32>)
        ensures
            r == if vbr {
                self.target_bitrate
            } else {
                None
            },
    {
        if vbr {
            self.target_bitrate
        } else {
            None
        }
    }

    /// Whether a frame of `nb_bytes` bytes can be shrunk: what is written, and the boosts
    /// of `boost` eighth bits, leave it two bytes.
    pub fn can_shrink(&self, enc: &RangeEncoder, boost: i64, nb_bytes: usize, lm: usize) -> (r: bool)
        requires
            enc.wf(),
            lm <= 3,
            nb_bytes <= 1275,
            0 <= boost <= 0x4000_0000,
        ensures
            r == ((enc@.tell_frac() + boost + 63) / 64 + 2 <= analysis::most_bytes(nb_bytes as int, lm as int)),
    {
        let most: usize = cap_bytes(nb_bytes, lm);
        (enc.tell_frac() as i64 + boost + 63) / 64 + 2 <= most as i64
    }

    /// Whether the last frame had short blocks.
    pub fn last_transient(&self) -> (r: bool)
        ensures
            r == self.last_transient,
    {
        self.last_transient
    }

    /// What stands before the coarse energy of the next frame.
    pub open spec fn next_header(self, postfilter: Postfilter, transient: bool) -> HeaderPlan {
        HeaderPlan { postfilter, transient, intra: self.frames == 0 }
    }

    /// What stands before the coarse energy of the next frame: only the energies
    /// of the first frame stand on their own.
    pub fn header_plan(&self, postfilter: Postfilter, transient: bool) -> (r: HeaderPlan)
        ensures
            r == self.next_header(postfilter, transient),
    {
        HeaderPlan { postfilter, transient, intra: self.frames == 0 }
    }

    /// The gain, in tenths, from which on a pitch of `pitch` samples is filtered:
    /// more where the pitch jumps or the frame has few bytes, less after a frame
    /// that was filtered strongly.
    pub open spec fn prefilter_threshold_spec(self, pitch: int, nb_bytes: int) -> int {
        math::max(
            2 + (if 10 * math::abs(pitch - self.prefilter.period) > pitch {
                2int
            } else {
                0
            }) + (if nb_bytes < 25 {
                1int
            } else {
                0
            }) + (if nb_bytes < 35 {
                1int
            } else {
                0
            }) - (if self.prefilter.gain > 4 {
                1int
            } else {
                0
            }) - (if self.prefilter.gain > 5 {
                1int
            } else {
                0
            }),
            2,
        )
    }

    /// The gain, in tenths, from which on a pitch is filtered.
    pub fn prefilter_threshold(&self, pitch: usize, nb_bytes: usize) -> (r: u32)
        requires
            pitch <= 1024,
            self.prefilter.period <= 1024,
        ensures
            r == self.prefilter_threshold_spec(pitch as int, nb_bytes as int),
    {
        let jump: i32 = pitch as i32 - self.prefilter.period as i32;
        let far: bool = 10 * (if jump < 0 {
            -jump
        } else {
            jump
        }) > pitch as i32;
        let t: i32 = 2 + (if far {
            2
        } else {
            0
        }) + (if nb_bytes < 25 {
            1
        } else {
            0
        }) + (if nb_bytes < 35 {
            1
        } else {
            0
        }) - (if self.prefilter.gain > 4 {
            1
        } else {
            0
        }) - (if self.prefilter.gain > 5 {
            1
        } else {
            0
        });
        if t < 2 {
            2
        } else {
            t as u32
        }
    }

    /// The pre-filter of a frame with a pitch of `pitch` samples and a gain of `level` steps.
    pub open spec fn filter_of(self, pitch: int, level: Option<i32>) -> Postfilter {
        Postfilter {
            period: math::max(pitch, 15) as usize,
            gain: match level {
                None => 0,
                Some(v) => math::min(math::max(v as int, 1), 8) as u32,
            },
            tapset: self.prefilter.tapset,
        }
    }

    /// Takes over the pre-filter of a frame: `level` is its gain rounded to the
    /// nearest step of 3/32, of which one to eight can be coded; none switches it
    /// off. Gives the filter.
    pub fn set_prefilter(&mut self, pitch: usize, level: Option<i32>) -> (r: Postfilter)
        ensures
            r == old(self).filter_of(pitch as int, level),
            *final(self) == (CeltEncoder { prefilter: r, ..*old(self) }),
    {
        let gain: u32 = match level {
            None => 0,
            Some(v) => if v < 1 {
                1
            } else if v > 8 {
                8
            } else {
                v as u32
            },
        };
        let period: usize = if pitch < COMBFILTER_MINPERIOD {
            COMBFILTER_MINPERIOD
        } else {
            pitch
        };
        let r = Postfilter { period, gain, tapset: self.prefilter.tapset };
        self.prefilter = r;
        r
    }

    /// Whether the analysis' wishes are such as it can have.
    pub open spec fn front_ok(self, a: FrontInput, start: int, end: int) -> bool {
        &&& 0 <= start < end <= 21
        &&& a.counts@.len() == self.channels * end
        &&& forall|k: int| 0 <= k < a.counts@.len() ==> analysis::small_ok(#[trigger] a.counts@[k])
        &&& forall|k: int| 0 <= k < 21 ==> 0 <= #[trigger] a.spread_weight@[k] <= 32
        &&& a.trim <= 10
    }

    /// The spread that the encoder wants, and the tonality that goes with it. At the
    /// least complexity neither changes.
    pub open spec fn wanted_spread(self, a: FrontInput, end: int, lm: int) -> (Spread, int) {
        let m = modes::frame_mult(lm);
        let t = analysis::tonality(
            a.counts@,
            a.spread_weight@,
            end,
            m,
            self.channels as int,
            self.tonal_average as int,
        );
        if self.complexity == 0 {
            (self.spread_decision, self.tonal_average as int)
        } else if m * modes::width(end - 1) <= 8 {
            (Spread::Off, self.tonal_average as int)
        } else {
            (analysis::spread_for(t, self.spread_decision), t)
        }
    }

    /// The encoder after the part between the coarse energy and the allocation.
    pub open spec fn after_front(self, inp: FrameInput, e: EncoderState, a: FrontInput) -> CeltEncoder {
        let e1 = inp.tf().after_put(e, a.transient, a.tf_want@, a.tf_select);
        let (spread, t) = self.wanted_spread(a, inp.end, inp.lm);
        let spoken = e1.tell() + 4 <= inp.total();
        CeltEncoder {
            spread_decision: if spoken {
                spread
            } else {
                self.spread_decision
            },
            tonal_average: if spoken {
                t as i32
            } else {
                self.tonal_average
            },
            intensity: if self.channels == 2 {
                analysis::intensity_spec(
                    analysis::equiv_rate_spec(inp.bytes, inp.lm, 2),
                    self.intensity as int,
                    inp.start,
                    inp.end,
                ) as usize
            } else {
                self.intensity
            },
            ..self
        }
    }

    /// The boosts as written.
    pub open spec fn front_boosts(self, inp: FrameInput, e: EncoderState, a: FrontInput) -> BoostPut {
        let e1 = inp.tf().after_put(e, a.transient, a.tf_want@, a.tf_select);
        let e2 = inp.put_spread(e1, self.wanted_spread(a, inp.end, inp.lm).0);
        inp.put_boosts(e2, a.boost_steps@, inp.end)
    }

    /// Encodes what stands between the coarse energy and the allocation of a
    /// frame of `nb_bytes` bytes: resolutions, spread, boosts and tilt. Gives what
    /// the decoder will have of it, and the stereo decisions.
    pub fn encode_front(
        &mut self,
        enc: &mut RangeEncoder,
        start: usize,
        end: usize,
        lm: usize,
        nb_bytes: usize,
        a: &FrontInput,
    ) -> (r: FrontPart)
        requires
            old(self).wf(),
            old(enc).wf(),
            lm <= 3,
            nb_bytes <= 1275,
            old(self).front_ok(*a, start as int, end as int),
        ensures
            final(self).wf(),
            final(enc).wf(),
            final(enc)@.wf(),
            final(enc)@.size == old(enc)@.size,
            ({
                let inp = FrameInput {
                    bytes: nb_bytes as int,
                    c: old(self).channels as int,
                    lm: lm as int,
                    start: start as int,
                    end: end as int,
                };
                let e1 = inp.tf().after_put(old(enc)@, a.transient, a.tf_want@, a.tf_select);
                let b = old(self).front_boosts(inp, old(enc)@, *a);
                &&& *final(self) == old(self).after_front(inp, old(enc)@, *a)
                &&& final(enc)@ == inp.put_trim(b, a.trim as int)
                &&& r.tf_res@ == inp.tf().put_res(old(enc)@, a.transient, a.tf_want@, a.tf_select)
                &&& r.spread == inp.spread_had(e1, old(self).wanted_spread(*a, end as int, lm as int).0)
                &&& rate::ints(r.offsets@) == b.offsets
                &&& r.total == b.total
                &&& r.trim == inp.trim_had(b, a.trim as int)
                &&& r.intensity == if old(self).channels == 2 {
                    final(self).intensity
                } else {
                    end
                }
                &&& r.dual_stereo == (old(self).channels == 2 && lm != 0 && a.dual_stereo)
            }),
            r.wf(),
            resolved(r.tf_res@, start as int, end as int, lm as int, a.transient),
    {
        let ghost inp = FrameInput {
            bytes: nb_bytes as int,
            c: self.channels as int,
            lm: lm as int,
            start: start as int,
            end: end as int,
        };
        let total_bits: u32 = 8 * nb_bytes as u32;
        let tf_res: [i32; NB_EBANDS] = tf_encode(
            enc,
            start,
            end,
            a.transient,
            lm,
            total_bits,
            &a.tf_want,
            a.tf_select,
        );
        let mut spread: Spread = Spread::Normal;
        if enc.tell() + 4 <= total_bits {
            let mut average: i32 = self.tonal_average;
            let wanted: Spread = if self.analyses_deeply() {
                spreading_decision(
                    a.counts.as_slice(),
                    &a.spread_weight,
                    &mut average,
                    self.spread_decision,
                    end,
                    self.channels,
                    lm,
                )
            } else {
                self.spread_decision
            };
            self.tonal_average = average;
            self.spread_decision = wanted;
            spread = encode_spread(enc, nb_bytes, wanted);
        }
        let (offsets, total): ([i32; NB_EBANDS], i64) = encode_boosts(
            enc,
            start,
            end,
            self.channels,
            lm,
            nb_bytes,
            &a.boost_steps,
        );
        let trim: usize = encode_trim(enc, total, a.trim);
        let stereo: bool = self.channels == 2;
        if stereo {
            self.intensity = choose_intensity(equiv_rate(nb_bytes, lm, 2), self.intensity, start, end);
        }
        FrontPart {
            tf_res,
            spread,
            offsets,
            total,
            trim,
            intensity: if stereo {
                self.intensity
            } else {
                end
            },
            dual_stereo: stereo && lm != 0 && a.dual_stereo,
        }
    }

    /// Shrinks a frame to its target of `target` eighth bits beyond what is
    /// written. `boost` is what the boosts cost. Gives the bytes of the frame; one that
    /// what is written leaves no room to shrink keeps its size.
    pub fn shrink_to_target(
        &self,
        enc: &mut RangeEncoder,
        target: i64,
        boost: i64,
        nb_bytes: usize,
        lm: usize,
    ) -> (r: usize)
        requires
            old(enc).wf(),
            lm <= 3,
            nb_bytes <= 1275,
            -0x4000_0000 <= target <= 0x4000_0000,
            0 <= boost <= 0x4000_0000,
        ensures
            final(enc).wf(),
            final(enc)@.wf(),
            r == analysis::shrunk_bytes(
                target as int,
                old(enc)@.tell_frac(),
                boost as int,
                nb_bytes as int,
                lm as int,
            ),
            r <= nb_bytes,
            final(enc)@ == (EncoderState { size: r as int, ..old(enc)@ }),
    {
        let mut r: usize = nb_bytes;
        if self.can_shrink(enc, boost, nb_bytes, lm) {
            r = vbr_bytes(target, enc.tell_frac(), boost, cap_bytes(nb_bytes, lm));
        }
        enc.shrink(r);
        r
    }

    /// The eighth bits of a frame that are left for the allocation when `tell` are written,
    /// and what is kept back for the anti-collapse flag.
    pub open spec fn budget_spec(tell: int, nb_bytes: int, transient: bool, lm: int) -> (int, int) {
        let bits = 64 * nb_bytes - tell - 1;
        let kept = if transient && lm >= 2 && bits >= 8 * (lm + 2) {
            8int
        } else {
            0
        };
        (bits - kept, kept)
    }

    /// The eighth bits of a frame that are left for the allocation, and what is
    /// kept back for the anti-collapse flag.
    pub fn allocation_budget(&self, enc: &RangeEncoder, nb_bytes: usize, transient: bool, lm: usize) -> (r: (i32, i32))
        requires
            enc.wf(),
            nb_bytes <= 1275,
            lm <= 3,
        ensures
            (r.0 as int, r.1 as int) == CeltEncoder::budget_spec(
                enc@.tell_frac(),
                nb_bytes as int,
                transient,
                lm as int,
            ),
            r.0 < 64 * nb_bytes,
    {
        let bits: i32 = 64 * nb_bytes as i32 - enc.tell_frac() as i32 - 1;
        let kept: i32 = if transient && lm >= 2 && bits >= 8 * (lm as i32 + 2) {
            8
        } else {
            0
        };
        (bits - kept, kept)
    }

    /// Whether the empty blocks of the next frame of short blocks are filled.
    pub open spec fn fills_blocks(self) -> bool {
        self.consec_transient < 2
    }

    /// Encodes the anti-collapse flag, where bits were kept back for it: it is set
    /// unless short blocks have gone on for long.
    pub fn encode_anti_collapse(&self, enc: &mut RangeEncoder, kept: i32)
        requires
            old(enc).wf(),
        ensures
            final(enc).wf(),
            final(enc)@.wf(),
            final(enc)@.size == old(enc)@.size,
            final(enc)@ == if kept > 0 {
                old(enc)@.after_raw(
                    if self.fills_blocks() {
                        1
                    } else {
                        0
                    },
                    1,
                )
            } else {
                old(enc)@
            },
    {
        proof {
            enc.lemma_wf();
        }
        if kept > 0 {
            enc.encode_raw_bits(
                if self.consec_transient < 2 {
                    1
                } else {
                    0
                },
                1,
            );
        }
    }

    /// The encoder behind a frame.
    pub open spec fn behind(self, transient: bool, range: u32) -> CeltEncoder {
        CeltEncoder {
            consec_transient: if transient {
                math::min(self.consec_transient + 1, u32::MAX as int) as u32
            } else {
                0
            },
            last_transient: transient,
            frames: math::min(self.frames + 1, u64::MAX as int) as u64,
            final_range: range,
            ..self
        }
    }

    /// Moves the encoder past a frame.
    pub fn finish_frame(&mut self, transient: bool, range: u32)
        ensures
            *final(self) == old(self).behind(transient, range),
    {
        self.consec_transient = if transient {
            self.consec_transient.saturating_add(1)
        } else {
            0
        };
        self.last_transient = transient;
        self.frames = self.frames.saturating_add(1);
        self.final_range = range;
    }
}

/// A buffer that can come of the state before the allocation can come of each one
/// since the coarse energy.
pub proof fn lemma_front_back(
    c: CeltEncoder,
    inp: FrameInput,
    e: EncoderState,
    a: FrontInput,
    data: Seq<u8>,
    whole: Seq<bool>,
)
    requires
        e.wf(),
        inp.start <= inp.end,
        a.trim <= 10,
    ensures
        ({
            let e1 = inp.tf().after_put(e, a.transient, a.tf_want@, a.tf_select);
            let e2 = inp.put_spread(e1, c.wanted_spread(a, inp.end, inp.lm).0);
            let b = c.front_boosts(inp, e, a);
            let e4 = inp.put_trim(b, a.trim as int);
            &&& e1.wf() && e2.wf() && b.enc.wf() && e4.wf()
            &&& symbols::grows(e, e1) && symbols::grows(e1, e2) && symbols::grows(e2, b.enc) && symbols::grows(
                b.enc,
                e4,
            )
            &&& b.total <= 8 * inp.total()
            &&& symbols::leads_to(e4, data, whole) ==> symbols::leads_to(b.enc, data, whole) && symbols::leads_to(
                e2,
                data,
                whole,
            ) && symbols::leads_to(e1, data, whole) && symbols::leads_to(e, data, whole)
        }),
{
    let tf = inp.tf();
    let e1 = tf.after_put(e, a.transient, a.tf_want@, a.tf_select);
    let spread = c.wanted_spread(a, inp.end, inp.lm).0;
    let e2 = inp.put_spread(e1, spread);
    let b = c.front_boosts(inp, e, a);
    lemma_tf_flags(tf, e, symbols::mate(e, data), a.transient, a.tf_want@, tf.end, whole);
    let flags = tf.put_flags(e, a.transient, a.tf_want@, tf.end).enc;
    lemma_symbol_back(flags, data, Symbol::Bit { bit: a.tf_select, logp: 1 }, whole);
    assert(e1.wf());
    let k = spread.raw_spec() as int;
    lemma_spread_entry(k);
    lemma_symbol_back(e1, data, Symbol::Entry { k, icdf: SPREAD_ICDF@, ftb: 5 }, whole);
    assert(e2.wf());
    lemma_boosts_round_trip(inp, e2, symbols::mate(e2, data), a.boost_steps@, inp.end, whole);
    lemma_trim_entry(a.trim as int);
    lemma_symbol_back(b.enc, data, Symbol::Entry { k: a.trim as int, icdf: TRIM_ICDF@, ftb: 7 }, whole);
}

/// The decoder reads between the coarse energy and the allocation what the encoder
/// said that it would have: resolutions, spread, boosts, tilt and the budget that
/// they leave.
pub proof fn lemma_front_round_trip(
    c: CeltEncoder,
    inp: FrameInput,
    e: EncoderState,
    d: DecoderState,
    a: FrontInput,
    whole: Seq<bool>,
)
    requires
        symbols::agrees(e, d),
        e.wf(),
        inp.start <= inp.end,
        a.trim <= 10,
        symbols::leads_to(inp.put_trim(c.front_boosts(inp, e, a), a.trim as int), d.data, whole),
    ensures
        symbols::leads_to(e, d.data, whole),
        ({
            let e1 = inp.tf().after_put(e, a.transient, a.tf_want@, a.tf_select);
            let b = c.front_boosts(inp, e, a);
            let d1 = inp.tf().after_tf(d, a.transient);
            let t = inp.boosts(inp.after_spread(d1), inp.end);
            &&& inp.tf().tf_res(d, a.transient) == inp.tf().put_res(e, a.transient, a.tf_want@, a.tf_select)
            &&& inp.spread(d1) == inp.spread_had(e1, c.wanted_spread(a, inp.end, inp.lm).0)
            &&& t.offsets == b.offsets
            &&& t.total == b.total
            &&& inp.trim(t) == inp.trim_had(b, a.trim as int)
            &&& symbols::agrees(inp.put_trim(b, a.trim as int), inp.after_trim(t))
            &&& inp.after_trim(t).data == d.data
        }),
{
    lemma_front_back(c, inp, e, a, d.data, whole);
    let tf = inp.tf();
    let e1 = tf.after_put(e, a.transient, a.tf_want@, a.tf_select);
    let spread = c.wanted_spread(a, inp.end, inp.lm).0;
    let e2 = inp.put_spread(e1, spread);
    let b = c.front_boosts(inp, e, a);
    lemma_tf_round_trip(tf, e, d, a.transient, a.tf_want@, a.tf_select, whole);
    let d1 = tf.after_tf(d, a.transient);
    lemma_spread_round_trip(inp, e1, d1, spread, whole);
    let d2 = inp.after_spread(d1);
    lemma_boosts_round_trip(inp, e2, d2, a.boost_steps@, inp.end, whole);
    let t = inp.boosts(d2, inp.end);
    lemma_trim_round_trip(inp, b, t, a.trim as int, whole);
}

} // verus!
