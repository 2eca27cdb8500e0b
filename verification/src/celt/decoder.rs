//! The CELT frame decoder, up to the synthesis of the signal.
//!
//! A frame holds, in this order: a silence flag, the post-filter, the transient
//! and intra flags, the coarse energy, the time-frequency resolution, the spread,
//! the boosts, the tilt, the allocation's own parameters, the fine energy, the
//! band shapes, the anti-collapse flag and the last energy bits. Reading it never
//! depends on the signal, so all of it is read here, along with every decision
//! that the decoder carries from frame to frame.

pub mod laws;

use vstd::arithmetic::power2::{lemma2_to64, pow2};
use vstd::prelude::*;

use crate::celt::bands::{self, quant_all_bands, FrameEnv, FrameShapes};
use crate::celt::energy::{self, decode_coarse_energy, decode_energy_finalise, decode_fine_energy, EnergyEnv};
use crate::celt::modes::{self, band_width, frame_multiple, NB_EBANDS};
use crate::celt::rate::{self, compute_allocation, init_caps, AllocInput, Allocation};
use crate::celt::vq::Spread;
use crate::math::{self, pow2_u32};
use crate::range::decoder::{self, DecoderState};
use crate::range::RangeDecoder;

verus! {

/// The distribution of the spread.
#[verifier::opaque]
pub const SPREAD_ICDF: [u8; 4] = [25, 23, 2, 0];

/// The distribution of the tilt.
#[verifier::opaque]
pub const TRIM_ICDF: [u8; 11] = [126, 124, 119, 109, 87, 41, 19, 9, 4, 2, 0];

/// The distribution of the post-filter's tap set.
#[verifier::opaque]
pub const TAPSET_ICDF: [u8; 3] = [2, 1, 0];

/// The resolution changes, by frame size: for long and for short blocks, two
/// pairs of which one is selected.
#[verifier::opaque]
pub const TF_SELECT_TABLE: [[i32; 8]; 4] = [
    [0, -1, 0, -1, 0, -1, 0, -1],
    [0, -1, 0, -2, 1, 0, 1, -1],
    [0, -2, 0, -3, 2, 0, 1, -1],
    [0, -2, 0, -3, 3, 0, 1, -1],
];

/// The shortest period of the post-filter.
pub const COMBFILTER_MINPERIOD: usize = 15;

/// The longest pitch lag that concealment searches.
pub const PLC_PITCH_LAG_MAX: usize = 720;

/// The longest excitation that concealment repeats.
pub const MAX_PERIOD: usize = 1024;

/// The tables are such as the coders can use.
pub proof fn lemma_icdfs()
    ensures
        decoder::icdf_ok(SPREAD_ICDF@, 5),
        decoder::icdf_ok(TRIM_ICDF@, 7),
        decoder::icdf_ok(TAPSET_ICDF@, 2),
{
    reveal(SPREAD_ICDF);
    reveal(TRIM_ICDF);
    reveal(TAPSET_ICDF);
    lemma2_to64();
    assert forall|k: int| 0 <= k < 4 implies #[trigger] SPREAD_ICDF@[k] <= pow2(5) by {
        assert(k == 0 || k == 1 || k == 2 || k == 3);
    }
    assert forall|k: int| 0 <= k < 11 implies #[trigger] TRIM_ICDF@[k] <= pow2(7) by {
        assert(k == 0 || k == 1 || k == 2 || k == 3 || k == 4 || k == 5 || k == 6 || k == 7 || k == 8 || k == 9 || k
            == 10);
    }
    assert forall|k: int| 0 <= k < 3 implies #[trigger] TAPSET_ICDF@[k] <= pow2(2) by {
        assert(k == 0 || k == 1 || k == 2);
    }
}

/// A setting of the post-filter. A gain of zero switches it off; otherwise it is
/// in units of 3/32.
#[derive(Clone, Copy, Debug, PartialEq, Eq, Structural)]
pub struct Postfilter {
    pub period: usize,
    pub gain: u32,
    pub tapset: usize,
}

/// What reading a frame depends on, besides the stream and the noise generator.
pub struct FrameInput {
    pub bytes: int,
    pub c: int,
    pub lm: int,
    pub start: int,
    pub end: int,
}

/// What stands before the coarse energy.
#[verifier::ext_equal]
pub struct Header {
    pub silence: bool,
    pub postfilter: Postfilter,
    pub transient: bool,
    pub intra: bool,
    pub dec: DecoderState,
}

/// The post-filter as read, and the stream after it.
#[verifier::ext_equal]
pub struct PostfilterOut {
    pub postfilter: Postfilter,
    pub dec: DecoderState,
}

/// The post-filter switched off.
pub open spec fn no_postfilter() -> Postfilter {
    Postfilter { period: 0, gain: 0, tapset: 0 }
}

/// Where the reading of the boosts stands: the stream, the budget less the
/// boosts, the cost of the next boost's first step, and the boosts so far.
#[verifier::ext_equal]
pub struct BoostState {
    pub dec: DecoderState,
    pub total: int,
    pub logp: int,
    pub offsets: Seq<int>,
}

/// Where the reading of the resolutions stands.
#[verifier::ext_equal]
pub struct TfState {
    pub dec: DecoderState,
    pub curr: bool,
    pub changed: bool,
    pub flags: Seq<bool>,
}

/// What the resolutions of a frame depend on, besides the stream.
pub struct TfInput {
    pub start: int,
    pub end: int,
    pub lm: int,
    pub total: int,
}

impl TfInput {
    /// The cost of the resolution flag of band `i`.
    pub open spec fn tf_logp(self, transient: bool, i: int) -> int {
        if i == self.start {
            if transient {
                2
            } else {
                4
            }
        } else if transient {
            4
        } else {
            5
        }
    }

    /// Whether the selection between the two pairs of resolutions is kept back.
    pub open spec fn tf_reserved(self, d: DecoderState, transient: bool) -> bool {
        self.lm > 0 && d.tell() + self.tf_logp(transient, self.start) < self.total
    }

    /// The resolution flags of the bands below `i`: each tells whether the flag
    /// changes, as long as there are bits for it.
    pub open spec fn tf_flags(self, d: DecoderState, transient: bool, i: int) -> TfState
        decreases i - self.start,
    {
        if i <= self.start {
            TfState { dec: d, curr: false, changed: false, flags: Seq::empty() }
        } else {
            let st = self.tf_flags(d, transient, i - 1);
            let logp = self.tf_logp(transient, i - 1);
            let budget = self.total - if self.tf_reserved(d, transient) {
                1int
            } else {
                0
            };
            if st.dec.tell() + logp <= budget {
                let curr = st.curr != st.dec.bit(logp);
                TfState {
                    dec: st.dec.after_bit(logp),
                    curr,
                    changed: st.changed || curr,
                    flags: st.flags.push(curr),
                }
            } else {
                TfState { flags: st.flags.push(st.curr), ..st }
            }
        }
    }

    /// A resolution change of the table.
    pub open spec fn tf_entry(self, transient: bool, select: bool, flag: bool) -> int {
        TF_SELECT_TABLE[self.lm][(if transient {
            4int
        } else {
            0
        }) + (if select {
            2int
        } else {
            0
        }) + (if flag {
            1int
        } else {
            0
        })] as int
    }

    /// Whether the selection is coded: it is kept back and makes a difference.
    pub open spec fn tf_select_coded(self, d: DecoderState, transient: bool) -> bool {
        let st = self.tf_flags(d, transient, self.end);
        self.tf_reserved(d, transient) && self.tf_entry(transient, false, st.changed) != self.tf_entry(
            transient,
            true,
            st.changed,
        )
    }

    /// The resolution change of each band.
    pub open spec fn tf_res(self, d: DecoderState, transient: bool) -> Seq<i32> {
        let st = self.tf_flags(d, transient, self.end);
        let select = self.tf_select_coded(d, transient) && st.dec.bit(1);
        Seq::new(
            21,
            |j: int|
                if self.start <= j < self.end {
                    self.tf_entry(transient, select, st.flags[j - self.start]) as i32
                } else {
                    0
                },
        )
    }

    /// The stream after the resolutions.
    pub open spec fn after_tf(self, d: DecoderState, transient: bool) -> DecoderState {
        let st = self.tf_flags(d, transient, self.end);
        if self.tf_select_coded(d, transient) {
            st.dec.after_bit(1)
        } else {
            st.dec
        }
    }
}

impl FrameInput {
    /// The frame's bits.
    pub open spec fn total(self) -> int {
        8 * self.bytes
    }

    /// Bands, channels and frame size exist, and the frame is not absurdly long.
    pub open spec fn wf(self) -> bool {
        &&& 0 <= self.bytes <= 0x1_0000
        &&& self.c == 1 || self.c == 2
        &&& 0 <= self.lm <= 3
        &&& 0 <= self.start < self.end <= 21
    }

    /// Whether the frame is silent: it says so, or has no bits.
    pub open spec fn silence(self, d: DecoderState) -> bool {
        d.tell() >= self.total() || (d.tell() == 1 && d.bit(15))
    }

    /// The stream after the silence flag; a silent frame counts as read.
    pub open spec fn after_silence(self, d: DecoderState) -> DecoderState {
        let read = if d.tell() < self.total() && d.tell() == 1 {
            d.after_bit(15)
        } else {
            d
        };
        if self.silence(d) {
            read.forced(self.total())
        } else {
            read
        }
    }

    /// The bits that count as used where the post-filter would stand.
    pub open spec fn used(self, d: DecoderState) -> int {
        if self.silence(d) {
            self.total()
        } else {
            d.tell()
        }
    }

    /// The parameters of a post-filter that is on.
    pub open spec fn postfilter_on(self, d: DecoderState) -> PostfilterOut {
        let x = d.uint(6);
        let octave = if x < 6 {
            x
        } else {
            0
        };
        let d1 = d.after_uint(6);
        let d2 = d1.after_raw(4 + octave);
        let d3 = d2.after_raw(3);
        let taps = d3.tell() + 2 <= self.total();
        PostfilterOut {
            postfilter: Postfilter {
                period: (16 * pow2(octave as nat) + d1.raw_bits(4 + octave) - 1) as usize,
                gain: (d2.raw_bits(3) + 1) as u32,
                tapset: if taps {
                    d3.icdf(TAPSET_ICDF@, 2) as usize
                } else {
                    0
                },
            },
            dec: if taps {
                d3.after_icdf(TAPSET_ICDF@, 2)
            } else {
                d3
            },
        }
    }

    /// The post-filter, which only a frame from the first band on can hold.
    pub open spec fn postfilter(self, d: DecoderState, used: int) -> PostfilterOut {
        if self.start == 0 && used + 16 <= self.total() {
            if d.bit(1) {
                self.postfilter_on(d.after_bit(1))
            } else {
                PostfilterOut { postfilter: no_postfilter(), dec: d.after_bit(1) }
            }
        } else {
            PostfilterOut { postfilter: no_postfilter(), dec: d }
        }
    }

    /// What stands before the coarse energy.
    #[verifier::opaque]
    pub open spec fn header(self, d: DecoderState) -> Header {
        let used = self.used(d);
        let p = self.postfilter(self.after_silence(d), used);
        let t1 = if self.start == 0 && used + 16 <= self.total() {
            p.dec.tell()
        } else {
            used
        };
        let short_coded = self.lm > 0 && t1 + 3 <= self.total();
        let d2 = if short_coded {
            p.dec.after_bit(3)
        } else {
            p.dec
        };
        let t2 = if short_coded {
            d2.tell()
        } else {
            t1
        };
        let intra_coded = t2 + 3 <= self.total();
        Header {
            silence: self.silence(d),
            postfilter: p.postfilter,
            transient: short_coded && p.dec.bit(3),
            intra: intra_coded && d2.bit(3),
            dec: if intra_coded {
                d2.after_bit(3)
            } else {
                d2
            },
        }
    }

    /// The energies' input.
    pub open spec fn energy_env(self, intra: bool) -> EnergyEnv {
        EnergyEnv {
            start: self.start,
            end: self.end,
            channels: self.c,
            lm: self.lm,
            intra,
            budget: self.total(),
        }
    }

    /// The resolutions' input.
    pub open spec fn tf(self) -> TfInput {
        TfInput { start: self.start, end: self.end, lm: self.lm, total: self.total() }
    }

    /// The spread.
    pub open spec fn spread(self, d: DecoderState) -> Spread {
        if d.tell() + 4 <= self.total() {
            Spread::of(d.icdf(SPREAD_ICDF@, 5))
        } else {
            Spread::Normal
        }
    }

    /// The stream after the spread.
    pub open spec fn after_spread(self, d: DecoderState) -> DecoderState {
        if d.tell() + 4 <= self.total() {
            d.after_icdf(SPREAD_ICDF@, 5)
        } else {
            d
        }
    }

    /// The step of band `i`'s boost: six bits, but no more than one bit per value
    /// and no less than an eighth.
    pub open spec fn quanta(self, i: int) -> int {
        let w = self.c * (modes::width(i) * modes::frame_mult(self.lm));
        math::min(8 * w, math::max(48, w))
    }

    /// The boost of a band from `boost` on: a step for each set flag, of which
    /// only the first is expensive. Gives the boost, the stream and the budget.
    pub open spec fn boost_steps(
        self,
        d: DecoderState,
        total: int,
        logp: int,
        boost: int,
        quanta: int,
        cap: int,
    ) -> (int, DecoderState, int)
        decreases math::max(cap - boost, 0),
    {
        if quanta > 0 && d.tell_frac() + 8 * logp < total && boost < cap {
            if d.bit(logp) {
                self.boost_steps(d.after_bit(logp), total - quanta, 1, boost + quanta, quanta, cap)
            } else {
                (boost, d.after_bit(logp), total)
            }
        } else {
            (boost, d, total)
        }
    }

    /// The boosts of the bands below `i`.
    pub open spec fn boosts(self, d: DecoderState, i: int) -> BoostState
        decreases i - self.start,
    {
        if i <= self.start {
            BoostState { dec: d, total: 8 * self.total(), logp: 6, offsets: Seq::new(21, |k: int| 0int) }
        } else {
            let st = self.boosts(d, i - 1);
            let (boost, dec, total) = self.boost_steps(
                st.dec,
                st.total,
                st.logp,
                0,
                self.quanta(i - 1),
                rate::band_cap(self.lm, self.c, i - 1),
            );
            BoostState {
                dec,
                total,
                logp: if boost > 0 {
                    math::max(2, st.logp - 1)
                } else {
                    st.logp
                },
                offsets: st.offsets.update(i - 1, boost),
            }
        }
    }

    /// The tilt.
    pub open spec fn trim(self, st: BoostState) -> int {
        if st.dec.tell_frac() + 48 <= st.total {
            st.dec.icdf(TRIM_ICDF@, 7)
        } else {
            5
        }
    }

    /// The stream after the tilt.
    pub open spec fn after_trim(self, st: BoostState) -> DecoderState {
        if st.dec.tell_frac() + 48 <= st.total {
            st.dec.after_icdf(TRIM_ICDF@, 7)
        } else {
            st.dec
        }
    }

    /// What is kept back for the anti-collapse flag.
    pub open spec fn collapse_rsv(self, d: DecoderState, transient: bool) -> int {
        if transient && self.lm >= 2 && 64 * self.bytes - d.tell_frac() - 1 >= 8 * (self.lm + 2) {
            8
        } else {
            0
        }
    }

    /// The allocation's input.
    pub open spec fn alloc_input(self, st: BoostState, transient: bool) -> AllocInput {
        let d = self.after_trim(st);
        AllocInput {
            start: self.start,
            end: self.end,
            offsets: st.offsets,
            cap: Seq::new(21, |j: int| rate::band_cap(self.lm, self.c, j)),
            trim: self.trim(st),
            total: 64 * self.bytes - d.tell_frac() - 1 - self.collapse_rsv(d, transient),
            c: self.c,
            lm: self.lm,
        }
    }
}

/// A table of resolutions fits the blocks it is for.
pub proof fn lemma_tf_table(lm: int, transient: bool, k: int)
    requires
        0 <= lm <= 3,
        0 <= k < 4,
    ensures
        bands::tf_fits(
            if transient {
                modes::frame_mult(lm)
            } else {
                1
            },
            TF_SELECT_TABLE[lm][(if transient {
                4int
            } else {
                0
            }) + k] as int,
        ),
{
    reveal(TF_SELECT_TABLE);
    assert(lm == 0 || lm == 1 || lm == 2 || lm == 3);
    assert(k == 0 || k == 1 || k == 2 || k == 3);
}

/// Decodes the time-frequency resolution of the bands.
pub fn tf_decode(
    dec: &mut RangeDecoder,
    start: usize,
    end: usize,
    is_transient: bool,
    lm: usize,
    total_bits: u32,
) -> (r: [i32; NB_EBANDS])
    requires
        old(dec).wf(),
        start <= end <= 21,
        lm <= 3,
    ensures
        final(dec).wf(),
        ({
            let inp = TfInput { start: start as int, end: end as int, lm: lm as int, total: total_bits as int };
            r@ == inp.tf_res(old(dec)@, is_transient) && final(dec)@ == inp.after_tf(old(dec)@, is_transient)
        }),
        forall|j: int|
            start <= j < end ==> bands::tf_fits(
                if is_transient {
                    modes::frame_mult(lm as int)
                } else {
                    1
                },
                #[trigger] r@[j] as int,
            ),
{
    let ghost inp = TfInput { start: start as int, end: end as int, lm: lm as int, total: total_bits as int };
    let ghost d0 = dec@;
    let mut tell: u32 = dec.tell();
    let mut logp: u32 = if is_transient {
        2
    } else {
        4
    };
    let reserved: bool = lm > 0 && tell + logp < total_bits;
    let budget: u32 = if reserved {
        total_bits - 1
    } else {
        total_bits
    };
    let mut curr: bool = false;
    let mut changed: bool = false;
    let mut flags: Vec<bool> = Vec::new();
    let mut j: usize = start;
    assert(flags@ =~= Seq::<bool>::empty());
    while j < end
        invariant
            dec.wf(),
            start <= end <= 21,
            lm <= 3,
            start == inp.start,
            end == inp.end,
            start <= j <= end,
            reserved == inp.tf_reserved(d0, is_transient),
            budget == inp.total - if reserved {
                1int
            } else {
                0
            },
            logp == inp.tf_logp(is_transient, j as int),
            tell == dec@.tell(),
            tell <= decoder::BIT_LIMIT,
            flags@.len() == j - start,
            (TfState { dec: dec@, curr, changed, flags: flags@ }) == inp.tf_flags(d0, is_transient, j as int),
        decreases end - j,
    {
        if tell + logp <= budget {
            let b: bool = dec.decode_bit_logp(logp);
            tell = dec.tell();
            curr = curr != b;
            changed = changed || curr;
        }
        flags.push(curr);
        logp = if is_transient {
            4
        } else {
            5
        };
        j = j + 1;
    }
    let base: usize = if is_transient {
        4
    } else {
        0
    };
    let which: usize = if changed {
        1
    } else {
        0
    };
    let mut select: usize = 0;
    if reserved && TF_SELECT_TABLE[lm][base + which] != TF_SELECT_TABLE[lm][base + 2 + which] {
        select = if dec.decode_bit_logp(1) {
            2
        } else {
            0
        };
    }
    let mut r: [i32; NB_EBANDS] = [0; 21];
    let ghost target = inp.tf_res(d0, is_transient);
    j = start;
    while j < end
        invariant
            start <= end <= 21,
            lm <= 3,
            start == inp.start,
            end == inp.end,
            lm == inp.lm,
            start <= j <= end,
            base == if is_transient {
                4int
            } else {
                0
            },
            select == 0 || select == 2,
            flags@ == inp.tf_flags(d0, is_transient, inp.end).flags,
            flags@.len() == end - start,
            target == inp.tf_res(d0, is_transient),
            (select == 2) == (inp.tf_select_coded(d0, is_transient) && inp.tf_flags(
                d0,
                is_transient,
                inp.end,
            ).dec.bit(1)),
            forall|k: int| 0 <= k < j ==> #[trigger] r@[k] == target[k],
            forall|k: int| j <= k < 21 ==> #[trigger] r@[k] == 0,
            forall|k: int|
                inp.start <= k < j ==> bands::tf_fits(
                    if is_transient {
                        modes::frame_mult(inp.lm)
                    } else {
                        1
                    },
                    #[trigger] r@[k] as int,
                ),
        decreases end - j,
    {
        let f: usize = if flags[j - start] {
            1
        } else {
            0
        };
        proof {
            lemma_tf_table(lm as int, is_transient, select + f);
        }
        r[j] = TF_SELECT_TABLE[lm][base + select + f];
        j = j + 1;
    }
    assert(r@ =~= target);
    r
}

/// Reads what stands before the coarse energy.
fn decode_header(dec: &mut RangeDecoder, start: usize, lm: usize, total_bits: u32, Ghost(inp): Ghost<FrameInput>) -> (r: (
    bool,
    Postfilter,
    bool,
    bool,
))
    requires
        old(dec).wf(),
        inp.wf(),
        start == inp.start,
        lm == inp.lm,
        total_bits == inp.total(),
    ensures
        final(dec).wf(),
        ({
            let h = inp.header(old(dec)@);
            &&& r.0 == h.silence
            &&& r.1 == h.postfilter
            &&& r.2 == h.transient
            &&& r.3 == h.intra
            &&& final(dec)@ == h.dec
        }),
        r.2 ==> lm > 0,
        r.1.period <= 1022,
        r.1.gain <= 8,
{
    proof {
        reveal(FrameInput::header);
        lemma_icdfs();
    }
    let ghost d0 = dec@;
    let mut tell: u32 = dec.tell();
    let silence: bool = if tell >= total_bits {
        true
    } else if tell == 1 {
        dec.decode_bit_logp(15)
    } else {
        false
    };
    if silence {
        dec.force_tell(total_bits);
        tell = total_bits;
    }
    assert(dec@ == inp.after_silence(d0));
    let mut postfilter = Postfilter { period: 0, gain: 0, tapset: 0 };
    if start == 0 && tell + 16 <= total_bits {
        if dec.decode_bit_logp(1) {
            let octave: u32 = match dec.decode_uint(6) {
                Some(x) => x,
                None => 0,
            };
            let ghost d1 = dec@;
            let low: u32 = dec.decode_raw_bits(4 + octave);
            let g: u32 = dec.decode_raw_bits(3);
            proof {
                lemma2_to64();
                lemma_octave(octave as int);
            }
            let tapset: usize = if dec.tell() + 2 <= total_bits {
                dec.decode_icdf(&TAPSET_ICDF, 2)
            } else {
                0
            };
            postfilter = Postfilter { period: (16 * pow2_u32(octave) + low - 1) as usize, gain: g + 1, tapset };
        }
        tell = dec.tell();
    }
    let mut transient: bool = false;
    if lm > 0 && tell + 3 <= total_bits {
        transient = dec.decode_bit_logp(3);
        tell = dec.tell();
    }
    let intra: bool = if tell + 3 <= total_bits {
        dec.decode_bit_logp(3)
    } else {
        false
    };
    (silence, postfilter, transient, intra)
}

proof fn lemma_octave(octave: int)
    requires
        0 <= octave < 6,
    ensures
        1 <= pow2(octave as nat) <= 32,
        pow2((4 + octave) as nat) == 16 * pow2(octave as nat),
        pow2((4 + octave) as nat) <= 512,
{
    lemma2_to64();
    assert(octave == 0 || octave == 1 || octave == 2 || octave == 3 || octave == 4 || octave == 5);
}

/// Reads the boosts of the bands; gives them and the budget less the boosts.
fn decode_boosts(
    dec: &mut RangeDecoder,
    start: usize,
    end: usize,
    c: usize,
    lm: usize,
    total_bits: u32,
    caps: &[i32; NB_EBANDS],
    Ghost(inp): Ghost<FrameInput>,
) -> (r: ([i32; NB_EBANDS], i64))
    requires
        old(dec).wf(),
        inp.wf(),
        start == inp.start,
        end == inp.end,
        c == inp.c,
        lm == inp.lm,
        total_bits == inp.total(),
        forall|j: int| 0 <= j < 21 ==> #[trigger] caps@[j] == rate::band_cap(inp.lm, inp.c, j),
        forall|j: int| 0 <= j < 21 ==> 0 < #[trigger] caps@[j] <= 0x8000,
    ensures
        final(dec).wf(),
        (BoostState {
            dec: final(dec)@,
            total: r.1 as int,
            logp: inp.boosts(old(dec)@, inp.end).logp,
            offsets: rate::ints(r.0@),
        }) == inp.boosts(old(dec)@, inp.end),
        forall|j: int| 0 <= j < 21 ==> 0 <= #[trigger] r.0@[j] <= 0x1_0000,
        r.1 <= 8 * total_bits,
{
    let ghost d0 = dec@;
    let mut offsets: [i32; NB_EBANDS] = [0; 21];
    assert(rate::ints(offsets@) =~= Seq::new(21, |k: int| 0int));
    let mut logp: u32 = 6;
    let mut total: i64 = 8 * total_bits as i64;
    let m: i32 = frame_multiple(lm);
    let mut i: usize = start;
    while i < end
        invariant
            dec.wf(),
            inp.wf(),
            start == inp.start,
            end == inp.end,
            c == inp.c,
            lm == inp.lm,
            m == modes::frame_mult(inp.lm),
            1 <= m <= 8,
            total_bits <= 0x8_0000,
            start <= i <= end,
            2 <= logp <= 6,
            -0x1_0000 * (i - start) <= total <= 8 * total_bits,
            forall|j: int| 0 <= j < 21 ==> #[trigger] caps@[j] == rate::band_cap(inp.lm, inp.c, j),
            forall|j: int| 0 <= j < 21 ==> 0 < #[trigger] caps@[j] <= 0x8000,
            forall|j: int| 0 <= j < 21 ==> 0 <= #[trigger] offsets@[j] <= 0x1_0000,
            (BoostState { dec: dec@, total: total as int, logp: logp as int, offsets: rate::ints(offsets@) })
                == inp.boosts(d0, i as int),
        decreases end - i,
    {
        let w: i32 = band_width(i);
        proof {
            let wi = w as int;
            let mi = m as int;
            assert(1 <= wi * mi <= 176) by (nonlinear_arith)
                requires
                    1 <= wi <= 22,
                    1 <= mi <= 8,
            ;
            let x = wi * mi;
            let ci = c as int;
            assert(1 <= ci * x <= 352) by (nonlinear_arith)
                requires
                    1 <= x <= 176,
                    1 <= ci <= 2,
            ;
        }
        let width: i32 = c as i32 * (w * m);
        let quanta: i32 = math::min_i32(8 * width, math::max_i32(48, width));
        let cap: i32 = caps[i];
        let ghost st = inp.boosts(d0, i as int);
        let ghost whole = inp.boost_steps(st.dec, st.total, st.logp, 0, quanta as int, cap as int);
        let mut loop_logp: u32 = logp;
        let mut boost: i32 = 0;
        let mut more: bool = true;
        let total0: i64 = total;
        while more && dec.tell_frac() as i64 + 8 * (loop_logp as i64) < total && boost < cap
            invariant
                dec.wf(),
                1 <= loop_logp <= 6,
                8 <= quanta <= 2816,
                0 < cap <= 0x8000,
                0 <= boost <= cap + quanta,
                total == total0 - boost,
                -0x15_0000 <= total0 <= 0x40_0000,
                more ==> whole == inp.boost_steps(
                    dec@,
                    total as int,
                    loop_logp as int,
                    boost as int,
                    quanta as int,
                    cap as int,
                ),
                !more ==> whole == (boost as int, dec@, total as int),
            decreases math::max(cap - boost, 0), (if more { 1int } else { 0int }),
        {
            if dec.decode_bit_logp(loop_logp) {
                boost = boost + quanta;
                total = total - quanta as i64;
                loop_logp = 1;
            } else {
                more = false;
            }
        }
        assert(whole == (boost as int, dec@, total as int));
        offsets[i] = boost;
        if boost > 0 {
            logp = if logp > 3 {
                logp - 1
            } else {
                2
            };
        }
        i = i + 1;
        assert(rate::ints(offsets@) =~= st.offsets.update(i - 1, boost as int));
    }
    (offsets, total)
}

/// Everything that a frame holds.
pub struct FrameSpec {
    pub header: Header,
    pub coarse: Seq<i32>,
    pub tf_res: Seq<i32>,
    pub spread: Spread,
    pub alloc: AllocInput,
    pub split: rate::Settled,
    pub fine: Seq<u32>,
    pub shapes: bands::FrameState,
    /// What is kept back for the anti-collapse flag.
    pub kept: int,
    pub anti_collapse: bool,
    pub last: energy::LastBits,
}

impl FrameSpec {
    /// The fine bits of the bands.
    pub open spec fn fine_quant(self) -> Seq<i32> {
        Seq::new(21, |j: int| self.alloc.fine_quant(self.split, j) as i32)
    }

    /// Which bands come second when the last bits are handed out.
    pub open spec fn fine_priority(self) -> Seq<bool> {
        Seq::new(21, |j: int| self.alloc.fine_priority(self.split, j))
    }
}

impl FrameInput {
    /// The shapes' input.
    pub open spec fn shape_env(
        self,
        header: Header,
        spread: Spread,
        tf_res: Seq<i32>,
        alloc: AllocInput,
        t: rate::Settled,
        rsv: int,
    ) -> FrameEnv {
        FrameEnv {
            start: self.start,
            end: self.end,
            shape_bits: Seq::new(21, |j: int| alloc.shape_bits(t, j)),
            short_blocks: header.transient,
            spread,
            intensity: t.intensity,
            tf_res: rate::ints(tf_res),
            total_bits: 64 * self.bytes - rsv,
            lm: self.lm,
            coded_bands: t.coded,
            stereo: self.c == 2,
        }
    }

    /// Everything that the frame at the start of `d` holds, where the noise
    /// generator stands at `seed`.
    #[verifier::opaque]
    pub open spec fn frame(self, d: DecoderState, seed: int) -> FrameSpec {
        let header = self.header(d);
        let (coarse, d1) = self.energy_env(header.intra).coarse(header.dec, self.end, 0);
        let tf_res = self.tf().tf_res(d1, header.transient);
        let d2 = self.tf().after_tf(d1, header.transient);
        let spread = self.spread(d2);
        let boosts = self.boosts(self.after_spread(d2), self.end);
        let d3 = self.after_trim(boosts);
        let rsv = self.collapse_rsv(d3, header.transient);
        let alloc = self.alloc_input(boosts, header.transient);
        let t = alloc.settle(d3);
        let fq = Seq::new(21, |j: int| alloc.fine_quant(t, j) as i32);
        let fp = Seq::new(21, |j: int| alloc.fine_priority(t, j));
        let (fine, d4) = energy::fine(alloc.after(d3), self.start, fq, self.c, self.end, 0);
        let env = self.shape_env(header, spread, tf_res, alloc, t, rsv);
        let first = bands::FrameState {
            dec: d4,
            balance: alloc.balance_at(t, t.coded),
            lowband: 0,
            update: true,
            dual: t.dual,
            seed,
            masks: Seq::new((21 * self.c) as nat, |k: int| 0u8),
            plans: Seq::empty(),
        };
        let shapes = env.run(first, self.end);
        let d5 = if rsv > 0 {
            shapes.dec.after_raw(1)
        } else {
            shapes.dec
        };
        FrameSpec {
            header,
            coarse,
            tf_res,
            spread,
            alloc,
            split: t,
            fine,
            shapes,
            kept: rsv,
            anti_collapse: rsv > 0 && shapes.dec.raw_bits(1) == 1,
            last: energy::last_bits(d5, self.start, self.end, fq, fp, self.total() - d5.tell(), self.c),
        }
    }
}

/// Everything that a frame holds.
#[derive(Debug)]
pub struct FrameParams {
    /// Whether the frame is silent.
    pub silence: bool,
    /// The post-filter from this frame on.
    pub postfilter: Postfilter,
    /// Whether the frame is cut into short blocks.
    pub transient: bool,
    /// Whether the coarse energy is predicted within the frame only.
    pub intra: bool,
    /// The coarse energy steps, by band and channel.
    pub coarse: Vec<i32>,
    /// The resolution change of each band.
    pub tf_res: [i32; NB_EBANDS],
    /// How strongly pulses are spread.
    pub spread: Spread,
    /// The bit allocation.
    pub alloc: Allocation,
    /// The fine energy values, by band and channel.
    pub fine: Vec<u32>,
    /// The band shapes.
    pub shapes: FrameShapes,
    /// Whether blocks without pulses are filled with noise.
    pub anti_collapse: bool,
    /// The last energy bits, by band and channel.
    pub last: Vec<Option<bool>>,
}

impl FrameParams {
    /// Whether these are the contents `f` of a frame.
    pub open spec fn holds(&self, f: FrameSpec) -> bool {
        &&& self.silence == f.header.silence
        &&& self.postfilter == f.header.postfilter
        &&& self.transient == f.header.transient
        &&& self.intra == f.header.intra
        &&& self.coarse@ == f.coarse
        &&& self.tf_res@ == f.tf_res
        &&& self.spread == f.spread
        &&& f.alloc.splits_to(f.split, self.alloc)
        &&& self.fine@ == f.fine
        &&& bands::plans_view(self.shapes.plans@) == f.shapes.plans
        &&& self.shapes.collapse_masks@ == f.shapes.masks
        &&& self.shapes.seed == f.shapes.seed
        &&& self.anti_collapse == f.anti_collapse
        &&& self.last@ == f.last.out
    }
}

/// Reads a frame of `frame_bytes` bytes, `120 << lm` samples and the bands from
/// `start` up to `end`, with the noise generator at `seed`.
#[verifier::rlimit(100)]
#[verifier::spinoff_prover]
pub fn read_frame(
    dec: &mut RangeDecoder,
    frame_bytes: usize,
    lm: usize,
    channels: usize,
    start: usize,
    end: usize,
    seed: u32,
) -> (r: FrameParams)
    requires
        old(dec).wf(),
        frame_bytes <= 0x1_0000,
        channels == 1 || channels == 2,
        lm <= 3,
        start < end <= 21,
    ensures
        final(dec).wf(),
        ({
            let inp = FrameInput {
                bytes: frame_bytes as int,
                c: channels as int,
                lm: lm as int,
                start: start as int,
                end: end as int,
            };
            let f = inp.frame(old(dec)@, seed as int);
            r.holds(f) && final(dec)@ == f.last.dec
        }),
        r.postfilter.period <= 1022,
        r.postfilter.gain <= 8,
{
    let ghost inp = FrameInput {
        bytes: frame_bytes as int,
        c: channels as int,
        lm: lm as int,
        start: start as int,
        end: end as int,
    };
    let ghost f = inp.frame(dec@, seed as int);
    proof {
        reveal(FrameInput::frame);
        lemma_icdfs();
    }
    let total_bits: u32 = 8 * frame_bytes as u32;
    let (silence, postfilter, transient, intra) = decode_header(dec, start, lm, total_bits, Ghost(inp));
    let coarse: Vec<i32> = decode_coarse_energy(dec, start, end, intra, channels, lm, total_bits);
    let tf_res: [i32; NB_EBANDS] = tf_decode(dec, start, end, transient, lm, total_bits);
    let spread: Spread = if dec.tell() + 4 <= total_bits {
        Spread::from_raw(dec.decode_icdf(&SPREAD_ICDF, 5) as u32)
    } else {
        Spread::Normal
    };
    let caps: [i32; NB_EBANDS] = init_caps(lm, channels);
    let (offsets, total_frac) = decode_boosts(dec, start, end, channels, lm, total_bits, &caps, Ghost(inp));
    let trim: i32 = if dec.tell_frac() as i64 + 48 <= total_frac {
        dec.decode_icdf(&TRIM_ICDF, 7) as i32
    } else {
        5
    };
    let mut bits: i32 = 64 * frame_bytes as i32 - dec.tell_frac() as i32 - 1;
    let rsv: i32 = if transient && lm >= 2 && bits >= 8 * (lm as i32 + 2) {
        8
    } else {
        0
    };
    bits = bits - rsv;
    let ghost d3 = dec@;
    proof {
        dec.lemma_wf();
        assert(rate::ints(caps@) =~= f.alloc.cap);
        assert(rate::alloc_input(start, end, offsets@, caps@, trim, bits, channels, lm) == f.alloc);
        lemma_trim_len();
        assert(f.alloc.wf()) by {
            assert forall|j: int| 0 <= j < 21 implies 0 <= #[trigger] f.alloc.offsets[j] <= 0x10_0000 by {
                assert(f.alloc.offsets[j] == offsets@[j]);
            }
            assert forall|j: int| 0 <= j < 21 implies 0 <= #[trigger] f.alloc.cap[j] <= 0x10_0000 by {
                assert(f.alloc.cap[j] == caps@[j]);
            }
        }
        f.alloc.lemma_allocation(d3);
    }
    let alloc: Allocation = compute_allocation(dec, start, end, &offsets, &caps, trim, bits, channels, lm);
    let ghost t = f.split;
    let ghost fq = Seq::new(21, |j: int| f.alloc.fine_quant(t, j) as i32);
    let ghost fp = Seq::new(21, |j: int| f.alloc.fine_priority(t, j));
    proof {
        assert forall|j: int| 0 <= j < 21 implies #[trigger] alloc.fine_quant@[j] <= 25 by {
            assert(0 <= f.alloc.fine_quant(t, j) <= 8);
        }
        assert forall|j: int| 0 <= j < 21 implies #[trigger] alloc.fine_quant@[j] == fq[j] by {
            assert(0 <= f.alloc.fine_quant(t, j) <= 8);
        }
        assert(alloc.fine_quant@ =~= fq);
        assert(alloc.fine_priority@ =~= fp);
    }
    let fine: Vec<u32> = decode_fine_energy(dec, start, end, &alloc.fine_quant, channels);
    let ghost env = inp.shape_env(f.header, f.spread, f.tf_res, f.alloc, t, rsv as int);
    proof {
        assert(rate::ints(alloc.shape_bits@) =~= env.shape_bits);
        assert(env == bands::frame_env(
            start,
            end,
            alloc.shape_bits@,
            transient,
            spread,
            alloc.intensity,
            tf_res@,
            (64 * frame_bytes - rsv) as i32,
            lm,
            alloc.coded_bands,
            channels == 2,
        ));
        assert(env.wf()) by {
            assert forall|j: int| 0 <= j < 21 implies 0 <= #[trigger] env.shape_bits[j] <= 0x10_0000 by {
                assert(0 <= f.alloc.shape_bits(t, j) <= math::max(f.alloc.cap[j], 8 * f.alloc.c));
                assert(f.alloc.cap[j] == caps@[j]);
            }
            assert forall|j: int| env.start <= j < env.end implies bands::tf_fits(
                env.blocks(),
                #[trigger] env.tf_res[j],
            ) by {
                assert(env.tf_res[j] == tf_res@[j]);
            }
        }
    }
    let shapes: FrameShapes = quant_all_bands(
        dec,
        start,
        end,
        channels == 2,
        &alloc.shape_bits,
        transient,
        spread,
        alloc.dual_stereo,
        alloc.intensity,
        &tf_res,
        64 * frame_bytes as i32 - rsv,
        alloc.balance,
        lm,
        alloc.coded_bands,
        seed,
    );
    let anti_collapse: bool = if rsv > 0 {
        dec.decode_raw_bits(1) == 1
    } else {
        false
    };
    let left: i32 = total_bits as i32 - dec.tell() as i32;
    let last: Vec<Option<bool>> = decode_energy_finalise(
        dec,
        start,
        end,
        &alloc.fine_quant,
        &alloc.fine_priority,
        left,
        channels,
    );
    FrameParams {
        silence,
        postfilter,
        transient,
        intra,
        coarse,
        tf_res,
        spread,
        alloc,
        fine,
        shapes,
        anti_collapse,
        last,
    }
}

proof fn lemma_trim_len()
    ensures
        TRIM_ICDF@.len() == 11,
{
}

/// What the synthesis of a frame takes from the frames before: how far energies
/// lost with earlier frames can be trusted, whether concealed signal is blended
/// in, the post-filter before and after, and by how much the background noise
/// estimate may rise.
#[derive(Clone, Copy, Debug)]
pub struct FrameHistory {
    /// How many lost frames the energy prediction has to bridge, at most ten;
    /// `None` where it is sound.
    pub missing: Option<usize>,
    /// Whether concealed signal is blended in.
    pub fold: bool,
    /// The post-filter of the frame before the last one.
    pub older: Postfilter,
    /// The post-filter of the last frame.
    pub newer: Postfilter,
    /// The post-filter of this frame.
    pub current: Postfilter,
    /// The rise of the background noise estimate, in thousandths.
    pub background_rise: usize,
}

/// How a lost frame is concealed.
#[derive(Clone, Copy, Debug, PartialEq, Eq, Structural)]
pub struct LostPlan {
    /// With noise, rather than by repeating the last pitch period.
    pub noise: bool,
    /// Whether this is the first lost frame in a row.
    pub first: bool,
    /// Whether concealed signal is blended in.
    pub fold: bool,
}

/// What a lost frame is concealed with.
#[derive(Debug)]
pub enum Concealed {
    /// Noise for the bands, channel after channel.
    Noise(Vec<i32>),
    /// A pitch period, repeated; `excitation` samples of it are looked at.
    Pitch { period: usize, excitation: usize },
}

/// The decisions of a CELT decoder that outlive a frame.
#[derive(Clone, Copy, Debug)]
pub struct CeltDecoder {
    /// The number of output channels.
    pub channels: usize,
    /// The post-filter of the last frame.
    pub postfilter: Postfilter,
    /// The post-filter of the frame before.
    pub postfilter_old: Postfilter,
    /// The noise generator, and the final range of the last frame.
    pub rng: u32,
    /// How long the present loss has lasted, in units of 2.5 ms.
    pub loss_duration: usize,
    /// Whether repeating the pitch period has to wait for good frames.
    pub skip_plc: bool,
    /// The pitch period that concealment repeats.
    pub last_pitch_index: usize,
    /// Whether the next frame is blended with concealed signal.
    pub prefilter_and_fold: bool,
    /// By how much the output rate is below 48 kHz.
    pub downsample: usize,
}

/// The exponent of a frame size, for the four frame sizes.
pub open spec fn size_exponent(frame_size: int) -> Option<usize> {
    if frame_size == 120 {
        Some(0)
    } else if frame_size == 240 {
        Some(1)
    } else if frame_size == 480 {
        Some(2)
    } else if frame_size == 960 {
        Some(3)
    } else {
        None
    }
}

/// The exponent of a frame size, for the four frame sizes.
pub fn frame_exponent(frame_size: usize) -> (r: Option<usize>)
    ensures
        r == size_exponent(frame_size as int),
{
    if frame_size == 120 {
        Some(0)
    } else if frame_size == 240 {
        Some(1)
    } else if frame_size == 480 {
        Some(2)
    } else if frame_size == 960 {
        Some(3)
    } else {
        None
    }
}

impl Postfilter {
    /// The setting with a period that is not too short.
    pub open spec fn raised(self) -> Postfilter {
        Postfilter {
            period: if self.period < COMBFILTER_MINPERIOD {
                COMBFILTER_MINPERIOD
            } else {
                self.period
            },
            ..self
        }
    }

    fn raise(self) -> (r: Postfilter)
        ensures
            r == self.raised(),
    {
        Postfilter {
            period: if self.period < COMBFILTER_MINPERIOD {
                COMBFILTER_MINPERIOD
            } else {
                self.period
            },
            gain: self.gain,
            tapset: self.tapset,
        }
    }
}

/// Where a frame lies: its bytes, its samples, the channels of the stream and
/// the bands.
#[verifier::ext_equal]
pub struct FramePlace {
    pub bytes: int,
    pub size: int,
    pub channels: int,
    pub start: int,
    pub end: int,
}

impl CeltDecoder {
    /// The output rates that a decoder can have.
    pub open spec fn rate_ok(fs_hz: int) -> bool {
        fs_hz == 48_000 || fs_hz == 24_000 || fs_hz == 16_000 || fs_hz == 12_000 || fs_hz == 8_000
    }

    /// One or two channels, a loss that is counted up to 25 s, and a pitch period
    /// that the search can find.
    pub open spec fn wf(self) -> bool {
        &&& self.channels == 1 || self.channels == 2
        &&& self.loss_duration <= 10_000
        &&& self.last_pitch_index <= PLC_PITCH_LAG_MAX
    }

    /// A decoder at 48 kHz.
    pub fn new(channels: usize) -> (r: CeltDecoder)
        requires
            channels == 1 || channels == 2,
        ensures
            r == CeltDecoder::fresh(channels, 1),
            r.wf(),
    {
        Self::with_rate(channels, 48_000)
    }

    /// A decoder that has seen nothing yet.
    pub open spec fn fresh(channels: usize, downsample: usize) -> CeltDecoder {
        CeltDecoder {
            channels,
            postfilter: no_postfilter(),
            postfilter_old: no_postfilter(),
            rng: 0,
            loss_duration: 0,
            skip_plc: false,
            last_pitch_index: 0,
            prefilter_and_fold: false,
            downsample,
        }
    }

    /// A decoder at one of the output rates.
    pub fn with_rate(channels: usize, fs_hz: u32) -> (r: CeltDecoder)
        requires
            channels == 1 || channels == 2,
            CeltDecoder::rate_ok(fs_hz as int),
        ensures
            r == CeltDecoder::fresh(channels, (48_000u32 / fs_hz) as usize),
            r.wf(),
    {
        CeltDecoder {
            channels,
            postfilter: Postfilter { period: 0, gain: 0, tapset: 0 },
            postfilter_old: Postfilter { period: 0, gain: 0, tapset: 0 },
            rng: 0,
            loss_duration: 0,
            skip_plc: false,
            last_pitch_index: 0,
            prefilter_and_fold: false,
            downsample: (48_000 / fs_hz) as usize,
        }
    }

    /// The final range of the last frame.
    pub fn final_range(&self) -> (r: u32)
        ensures
            r == self.rng,
    {
        self.rng
    }

    /// What is left of the decoder's state after a frame.
    pub open spec fn after_frame(self, postfilter: Postfilter, lm: int, rng: u32) -> CeltDecoder {
        let now = postfilter.raised();
        CeltDecoder {
            postfilter: now,
            postfilter_old: if lm != 0 {
                now
            } else {
                self.postfilter.raised()
            },
            rng,
            loss_duration: 0,
            skip_plc: self.loss_duration != 0 && self.skip_plc,
            prefilter_and_fold: false,
            ..self
        }
    }

    /// What a frame holds.
    pub open spec fn frame_at(self, d: DecoderState, place: FramePlace) -> FrameSpec {
        FrameInput {
            bytes: place.bytes,
            c: place.channels,
            lm: size_exponent(place.size)->0 as int,
            start: place.start,
            end: place.end,
        }.frame(d, self.rng as int)
    }

    /// The decoder's state after a frame.
    pub open spec fn after(self, f: FrameSpec, place: FramePlace) -> CeltDecoder {
        self.after_frame(f.header.postfilter, size_exponent(place.size)->0 as int, f.last.dec.rng as u32)
    }

    /// What the synthesis of a frame takes from the frames before.
    pub open spec fn history(self, f: FrameSpec, place: FramePlace) -> FrameHistory {
        let m = modes::frame_mult(size_exponent(place.size)->0 as int);
        FrameHistory {
            missing: if !f.header.intra && self.loss_duration != 0 {
                Some(math::min(10, self.loss_duration as int / m) as usize)
            } else {
                None
            },
            fold: self.prefilter_and_fold,
            older: self.postfilter_old.raised(),
            newer: self.postfilter.raised(),
            current: f.header.postfilter.raised(),
            background_rise: math::min(160, self.loss_duration + m) as usize,
        }
    }

    /// Reads a frame and moves the decoder past it: what the frame holds, and
    /// what its synthesis takes from the frames before.
    pub fn decode_frame(
        &mut self,
        dec: &mut RangeDecoder,
        frame_bytes: usize,
        frame_size: usize,
        stream_channels: usize,
        start: usize,
        end: usize,
    ) -> (r: (FrameParams, FrameHistory))
        requires
            old(dec).wf(),
            frame_bytes <= 0x1_0000,
            size_exponent(frame_size as int) is Some,
            stream_channels == 1 || stream_channels == 2,
            start < end <= 21,
            old(self).wf(),
        ensures
            final(dec).wf(),
            final(self).wf(),
            ({
                let place = FramePlace {
                    bytes: frame_bytes as int,
                    size: frame_size as int,
                    channels: stream_channels as int,
                    start: start as int,
                    end: end as int,
                };
                let f = old(self).frame_at(old(dec)@, place);
                &&& r.0.holds(f)
                &&& final(dec)@ == f.last.dec
                &&& *final(self) == old(self).after(f, place)
                &&& r.1 == old(self).history(f, place)
            }),
    {
        let lm: usize = match frame_exponent(frame_size) {
            Some(x) => x,
            None => 0,
        };
        let m: usize = frame_multiple(lm) as usize;
        let params: FrameParams = read_frame(dec, frame_bytes, lm, stream_channels, start, end, self.rng);
        let current: Postfilter = params.postfilter.raise();
        let newer: Postfilter = self.postfilter.raise();
        let bridged: usize = self.loss_duration / m;
        let risen: usize = self.loss_duration + m;
        let history = FrameHistory {
            missing: if !params.intra && self.loss_duration != 0 {
                Some(
                    if bridged < 10 {
                        bridged
                    } else {
                        10
                    },
                )
            } else {
                None
            },
            fold: self.prefilter_and_fold,
            older: self.postfilter_old.raise(),
            newer,
            current,
            background_rise: if risen < 160 {
                risen
            } else {
                160
            },
        };
        if self.loss_duration == 0 {
            self.skip_plc = false;
        }
        self.postfilter_old = if lm != 0 {
            current
        } else {
            newer
        };
        self.postfilter = current;
        self.rng = dec.range_size();
        self.loss_duration = 0;
        self.prefilter_and_fold = false;
        (params, history)
    }

    /// How the next frame is concealed if it is lost.
    pub open spec fn lost_plan_spec(self, start: int) -> LostPlan {
        LostPlan {
            noise: self.loss_duration >= 40 || start != 0 || self.skip_plc,
            first: self.loss_duration == 0,
            fold: self.prefilter_and_fold,
        }
    }

    /// How the next frame is concealed if it is lost: with noise after 100 ms,
    /// above the first band, or before two good frames in a row; else by
    /// repeating the last pitch period.
    pub fn lost_plan(&self, start: usize) -> (r: LostPlan)
        ensures
            r == self.lost_plan_spec(start as int),
    {
        LostPlan {
            noise: self.loss_duration >= 40 || start != 0 || self.skip_plc,
            first: self.loss_duration == 0,
            fold: self.prefilter_and_fold,
        }
    }

    /// How long the loss has lasted after a lost frame.
    pub open spec fn longer_loss(self, lm: int) -> usize {
        math::min(10_000, self.loss_duration + modes::frame_mult(lm)) as usize
    }

    fn lengthen_loss(&self, lm: usize) -> (r: usize)
        requires
            self.wf(),
            lm <= 3,
        ensures
            r == self.longer_loss(lm as int),
    {
        let d: usize = self.loss_duration + frame_multiple(lm) as usize;
        if d < 10_000 {
            d
        } else {
            10_000
        }
    }

    /// The number of noise values per channel of a concealed frame.
    pub open spec fn noise_len(lm: int, start: int, end: int) -> int {
        if start < end {
            (modes::edge(end) - modes::edge(start)) * modes::frame_mult(lm)
        } else {
            0
        }
    }

    /// Conceals a frame with noise: the noise of the bands from `start` up to
    /// `end`, channel after channel.
    fn conceal_noise(&mut self, lm: usize, start: usize, end: usize) -> (r: Vec<i32>)
        requires
            old(self).wf(),
            lm <= 3,
            start <= 21,
            end <= 21,
        ensures
            ({
                let n = (CeltDecoder::noise_len(lm as int, start as int, end as int) * old(self).channels) as nat;
                &&& r@ == bands::noise(old(self).rng as int, n)
                &&& *final(self) == (CeltDecoder {
                    rng: bands::lcg_n(old(self).rng as int, n) as u32,
                    prefilter_and_fold: false,
                    skip_plc: true,
                    loss_duration: old(self).longer_loss(lm as int),
                    ..*old(self)
                })
            }),
    {
        let m: usize = frame_multiple(lm) as usize;
        let mut len: usize = 0;
        if start < end {
            proof {
                modes::lemma_edges(start as int, end as int);
            }
            let bins: usize = (modes::band_edge(end) - modes::band_edge(start)) as usize;
            proof {
                math::lemma_mul_range(bins as int, 100, m as int, 8);
            }
            len = bins * m;
        }
        proof {
            math::lemma_mul_range(len as int, 800, self.channels as int, 2);
        }
        let (values, _, seed) = bands::run_noise(self.rng, len * self.channels);
        self.loss_duration = self.lengthen_loss(lm);
        self.rng = seed;
        self.prefilter_and_fold = false;
        self.skip_plc = true;
        values
    }

    /// Conceals a frame by repeating a pitch period: `found` is where the search
    /// found it, counted from the longest lag, which only the first lost frame in
    /// a row looks for. Gives the period and the length of the excitation to
    /// repeat, at most two periods.
    fn conceal_pitch(&mut self, lm: usize, found: usize) -> (r: (usize, usize))
        requires
            old(self).wf(),
            lm <= 3,
            found <= PLC_PITCH_LAG_MAX,
        ensures
            ({
                let period = old(self).lost_period(found as int);
                &&& r.0 == period
                &&& r.1 == math::min(2 * period, MAX_PERIOD as int)
                &&& *final(self) == (CeltDecoder {
                    last_pitch_index: period,
                    prefilter_and_fold: true,
                    loss_duration: old(self).longer_loss(lm as int),
                    ..*old(self)
                })
            }),
    {
        if self.loss_duration == 0 {
            self.last_pitch_index = PLC_PITCH_LAG_MAX - found;
        }
        let period: usize = self.last_pitch_index;
        self.loss_duration = self.lengthen_loss(lm);
        self.prefilter_and_fold = true;
        (
            period,
            if 2 * period < MAX_PERIOD {
                2 * period
            } else {
                MAX_PERIOD
            },
        )
    }

    /// The pitch period that a lost frame repeats.
    pub open spec fn lost_period(self, found: int) -> usize {
        if self.loss_duration == 0 {
            (PLC_PITCH_LAG_MAX - found) as usize
        } else {
            self.last_pitch_index
        }
    }

    /// The decoder's state after a lost frame.
    pub open spec fn after_lost(self, frame_size: int, start: int, end: int, found: int) -> CeltDecoder {
        let lm = size_exponent(frame_size)->0 as int;
        if self.lost_plan_spec(start).noise {
            CeltDecoder {
                rng: bands::lcg_n(self.rng as int, (CeltDecoder::noise_len(lm, start, end) * self.channels) as nat) as u32,
                prefilter_and_fold: false,
                skip_plc: true,
                loss_duration: self.longer_loss(lm),
                ..self
            }
        } else {
            CeltDecoder {
                last_pitch_index: self.lost_period(found),
                prefilter_and_fold: true,
                loss_duration: self.longer_loss(lm),
                ..self
            }
        }
    }

    /// Conceals a lost frame of `frame_size` samples: with noise or by repeating
    /// the last pitch period, as the plan says. `found` is where the pitch search
    /// found it, counted from the longest lag, for the first of the lost frames
    /// in a row.
    pub fn decode_lost(&mut self, frame_size: usize, start: usize, end: usize, found: usize) -> (r: Concealed)
        requires
            old(self).wf(),
            size_exponent(frame_size as int) is Some,
            start <= 21,
            end <= 21,
            found <= PLC_PITCH_LAG_MAX,
        ensures
            final(self).wf(),
            ({
                let lm = size_exponent(frame_size as int)->0 as int;
                let n = (CeltDecoder::noise_len(lm, start as int, end as int) * old(self).channels) as nat;
                let period = old(self).lost_period(found as int);
                if old(self).lost_plan_spec(start as int).noise {
                    &&& r is Noise
                    &&& r->0@ == bands::noise(old(self).rng as int, n)
                } else {
                    r == (Concealed::Pitch {
                        period,
                        excitation: math::min(2 * period, MAX_PERIOD as int) as usize,
                    })
                }
            }),
            *final(self) == old(self).after_lost(frame_size as int, start as int, end as int, found as int),
    {
        let lm: usize = match frame_exponent(frame_size) {
            Some(lm) => lm,
            None => 0,
        };
        if self.lost_plan(start).noise {
            Concealed::Noise(self.conceal_noise(lm, start, end))
        } else {
            let (period, excitation) = self.conceal_pitch(lm, found);
            Concealed::Pitch { period, excitation }
        }
    }
}

} // verus!
