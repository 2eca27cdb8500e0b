//! The energy envelope, as symbols.
//!
//! Each band's energy is sent in up to three stages: a coarse step relative to a
//! prediction, fine bits within that step as the allocation gives them, and one
//! last bit for some bands from what is left at the end of the frame.

pub mod laws;

use vstd::arithmetic::power2::{lemma2_to64, pow2};
use vstd::prelude::*;

use crate::celt::laplace::{self, ec_laplace_decode};
use crate::celt::modes::{E_PROB_MODEL, NB_EBANDS};
use crate::math;
use crate::range::decoder::{lemma_even_bit_tell, lemma_three_cost, DecoderState};
use crate::range::RangeDecoder;

verus! {

/// The three values of a coarse step when few bits are left.
#[verifier::opaque]
pub const SMALL_ENERGY_ICDF: [u8; 3] = [2, 1, 0];

/// What the energies of a frame depend on, besides the stream.
pub struct EnergyEnv {
    pub start: int,
    pub end: int,
    pub channels: int,
    pub lm: int,
    pub intra: bool,
    pub budget: int,
}

impl EnergyEnv {
    /// Bands, channels and frame size exist.
    pub open spec fn wf(self) -> bool {
        &&& 0 <= self.start <= self.end <= 21
        &&& self.channels == 1 || self.channels == 2
        &&& 0 <= self.lm <= 3
    }

    /// The probability that a coarse step of band `i` is zero.
    pub open spec fn zero_freq(self, i: int) -> int {
        E_PROB_MODEL[self.lm][if self.intra { 1int } else { 0int }][2 * i] * 128
    }

    /// The decay of the probabilities of larger steps.
    pub open spec fn decay(self, i: int) -> int {
        E_PROB_MODEL[self.lm][if self.intra { 1int } else { 0int }][2 * i + 1] * 64
    }

    /// The coarse step of band `i` that the stream holds: a full symbol, one of
    /// three values, one of two, or a fixed step, by the bits that are left.
    pub open spec fn step(self, dec: DecoderState, i: int) -> int {
        let left = self.budget - dec.tell();
        if left >= 15 {
            laplace::symbol(dec, self.zero_freq(i), self.decay(i))
        } else if left >= 2 {
            let q = dec.icdf(SMALL_ENERGY_ICDF@, 2);
            if q == 0 {
                0
            } else if q == 1 {
                -1
            } else {
                1
            }
        } else if left >= 1 {
            if dec.bit(1) {
                -1
            } else {
                0
            }
        } else {
            -1
        }
    }

    /// The stream after it.
    pub open spec fn after_step(self, dec: DecoderState, i: int) -> DecoderState {
        let left = self.budget - dec.tell();
        if left >= 15 {
            laplace::after_symbol(dec, self.zero_freq(i), self.decay(i))
        } else if left >= 2 {
            dec.after_icdf(SMALL_ENERGY_ICDF@, 2)
        } else if left >= 1 {
            dec.after_bit(1)
        } else {
            dec
        }
    }

    /// The coarse steps of the bands below `i` and of the first `ch` channels of
    /// band `i`, with the stream after them. The step of a channel of a band
    /// stands at band times channels plus channel.
    pub open spec fn coarse(self, dec: DecoderState, i: int, ch: int) -> (Seq<i32>, DecoderState)
        decreases i - self.start, ch,
    {
        if i < self.start || (i == self.start && ch <= 0) {
            (Seq::new((21 * self.channels) as nat, |k: int| 0i32), dec)
        } else if ch <= 0 {
            self.coarse(dec, i - 1, self.channels)
        } else {
            let (s, d) = self.coarse(dec, i, ch - 1);
            (s.update(i * self.channels + ch - 1, self.step(d, i) as i32), self.after_step(d, i))
        }
    }
}

/// The table is such as the coders can use.
pub proof fn lemma_small_icdf()
    ensures
        crate::range::decoder::icdf_ok(SMALL_ENERGY_ICDF@, 2),
        SMALL_ENERGY_ICDF@.len() == 3,
{
    reveal(SMALL_ENERGY_ICDF);
    lemma2_to64();
    assert forall|k: int| 0 <= k < 3 implies #[trigger] SMALL_ENERGY_ICDF@[k] <= pow2(2) by {
        assert(k == 0 || k == 1 || k == 2);
    }
}

proof fn lemma_small_cost(st: DecoderState)
    requires
        st.wf(),
    ensures
        st.after_icdf(SMALL_ENERGY_ICDF@, 2).tell() <= st.tell() + 2,
{
    reveal(SMALL_ENERGY_ICDF);
    assert(SMALL_ENERGY_ICDF@ =~= seq![2u8, 1u8, 0u8]);
    lemma_three_cost(st, SMALL_ENERGY_ICDF@);
}

/// Decodes the coarse step of one channel of a band.
fn coarse_step(
    dec: &mut RangeDecoder,
    i: usize,
    intra: bool,
    lm: usize,
    budget_bits: u32,
    Ghost(env): Ghost<EnergyEnv>,
) -> (q: i32)
    requires
        old(dec).wf(),
        env.wf(),
        i < 21,
        intra == env.intra,
        lm == env.lm,
        budget_bits == env.budget,
    ensures
        final(dec).wf(),
        q == env.step(old(dec)@, i as int),
        final(dec)@ == env.after_step(old(dec)@, i as int),
        -40000 <= q <= 40000,
        final(dec)@.tell() <= math::max(old(dec)@.tell(), env.budget),
{
    let ghost st = dec@;
    proof {
        dec.lemma_wf();
    }
    let tell: i64 = dec.tell() as i64;
    let left: i64 = budget_bits as i64 - tell;
    if left >= 15 {
        let row: usize = if intra {
            1
        } else {
            0
        };
        let fs: u32 = E_PROB_MODEL[lm][row][2 * i] as u32 * 128;
        let decay: u32 = E_PROB_MODEL[lm][row][2 * i + 1] as u32 * 64;
        ec_laplace_decode(dec, fs, decay)
    } else if left >= 2 {
        proof {
            lemma_small_icdf();
            lemma_small_cost(st);
        }
        let q: usize = dec.decode_icdf(&SMALL_ENERGY_ICDF, 2);
        if q == 0 {
            0
        } else if q == 1 {
            -1
        } else {
            1
        }
    } else if left >= 1 {
        proof {
            lemma_even_bit_tell(st);
        }
        if dec.decode_bit_logp(1) {
            -1
        } else {
            0
        }
    } else {
        -1
    }
}

/// Decodes the coarse energy steps of the bands from `start` up to `end`. They never
/// take more than the budget.
pub fn decode_coarse_energy(
    dec: &mut RangeDecoder,
    start: usize,
    end: usize,
    intra: bool,
    channels: usize,
    lm: usize,
    budget_bits: u32,
) -> (q: Vec<i32>)
    requires
        old(dec).wf(),
        start <= end <= 21,
        channels == 1 || channels == 2,
        lm <= 3,
    ensures
        final(dec).wf(),
        ({
            let env = EnergyEnv {
                start: start as int,
                end: end as int,
                channels: channels as int,
                lm: lm as int,
                intra,
                budget: budget_bits as int,
            };
            (q@, final(dec)@) == env.coarse(old(dec)@, end as int, 0)
        }),
        q@.len() == 21 * channels,
        final(dec)@.tell() <= math::max(old(dec)@.tell(), budget_bits as int),
{
    let ghost env = EnergyEnv {
        start: start as int,
        end: end as int,
        channels: channels as int,
        lm: lm as int,
        intra,
        budget: budget_bits as int,
    };
    let ghost d0 = dec@;
    let mut q: Vec<i32> = vec![0i32; 21 * channels];
    assert(q@ =~= Seq::new((21 * channels) as nat, |k: int| 0i32));
    let mut i: usize = start;
    while i < end
        invariant
            dec.wf(),
            env.wf(),
            start == env.start,
            end == env.end,
            channels == env.channels,
            lm == env.lm,
            intra == env.intra,
            budget_bits == env.budget,
            start <= i <= end,
            q@.len() == 21 * channels,
            (q@, dec@) == env.coarse(d0, i as int, 0),
            dec@.tell() <= math::max(d0.tell(), budget_bits as int),
        decreases end - i,
    {
        let mut ch: usize = 0;
        while ch < channels
            invariant
                dec.wf(),
                env.wf(),
                channels == env.channels,
                lm == env.lm,
                intra == env.intra,
                budget_bits == env.budget,
                env.start <= i < env.end,
                ch <= channels,
                q@.len() == 21 * channels,
                (q@, dec@) == env.coarse(d0, i as int, ch as int),
                dec@.tell() <= math::max(d0.tell(), budget_bits as int),
            decreases channels - ch,
        {
            let x: i32 = coarse_step(dec, i, intra, lm, budget_bits, Ghost(env));
            proof {
                lemma_slot(i as int, channels as int, ch as int);
            }
            q[i * channels + ch] = x;
            ch = ch + 1;
        }
        i = i + 1;
    }
    q
}

/// A channel of a band has a place in the list.
pub proof fn lemma_slot(i: int, c: int, ch: int)
    requires
        0 <= i < 21,
        1 <= c <= 2,
        0 <= ch < c,
    ensures
        0 <= i * c,
        i * c + ch < 21 * c,
{
    assert(0 <= i * c && i * c + c <= 21 * c) by (nonlinear_arith)
        requires
            0 <= i,
            i + 1 <= 21,
            c >= 1,
    ;
}

/// The fine energy values of the bands below `i` and of the first `ch` channels
/// of band `i`, with the stream after them. Bands without fine bits have none.
pub open spec fn fine(
    dec: DecoderState,
    start: int,
    fine_quant: Seq<i32>,
    channels: int,
    i: int,
    ch: int,
) -> (Seq<u32>, DecoderState)
    decreases i - start, ch,
{
    if i < start || (i == start && ch <= 0) {
        (Seq::new((21 * channels) as nat, |k: int| 0u32), dec)
    } else if ch <= 0 {
        fine(dec, start, fine_quant, channels, i - 1, channels)
    } else {
        let (s, d) = fine(dec, start, fine_quant, channels, i, ch - 1);
        if fine_quant[i] <= 0 {
            (s, d)
        } else {
            (s.update(i * channels + ch - 1, d.raw_bits(fine_quant[i] as int) as u32), d.after_raw(fine_quant[i] as int))
        }
    }
}

/// Decodes the fine energy values of the bands from `start` up to `end`.
pub fn decode_fine_energy(
    dec: &mut RangeDecoder,
    start: usize,
    end: usize,
    fine_quant: &[i32; NB_EBANDS],
    channels: usize,
) -> (q: Vec<u32>)
    requires
        old(dec).wf(),
        start <= end <= 21,
        channels == 1 || channels == 2,
        forall|j: int| 0 <= j < 21 ==> #[trigger] fine_quant@[j] <= 25,
    ensures
        final(dec).wf(),
        (q@, final(dec)@) == fine(old(dec)@, start as int, fine_quant@, channels as int, end as int, 0),
        q@.len() == 21 * channels,
{
    let ghost d0 = dec@;
    let ghost fq = fine_quant@;
    let mut q: Vec<u32> = vec![0u32; 21 * channels];
    assert(q@ =~= Seq::new((21 * channels) as nat, |k: int| 0u32));
    let mut i: usize = start;
    while i < end
        invariant
            dec.wf(),
            start <= i <= end <= 21,
            channels == 1 || channels == 2,
            fq == fine_quant@,
            forall|j: int| 0 <= j < 21 ==> #[trigger] fine_quant@[j] <= 25,
            q@.len() == 21 * channels,
            (q@, dec@) == fine(d0, start as int, fq, channels as int, i as int, 0),
        decreases end - i,
    {
        let bits: i32 = fine_quant[i];
        let mut ch: usize = 0;
        while ch < channels
            invariant
                dec.wf(),
                start <= i < 21,
                channels == 1 || channels == 2,
                fq == fine_quant@,
                bits == fq[i as int],
                bits <= 25,
                ch <= channels,
                q@.len() == 21 * channels,
                (q@, dec@) == fine(d0, start as int, fq, channels as int, i as int, ch as int),
            decreases channels - ch,
        {
            if bits > 0 {
                let x: u32 = dec.decode_raw_bits(bits as u32);
                proof {
                    lemma_slot(i as int, channels as int, ch as int);
                }
                q[i * channels + ch] = x;
            }
            ch = ch + 1;
        }
        i = i + 1;
    }
    q
}

/// Where the hand-out of the last bits stands.
#[verifier::ext_equal]
pub struct LastBits {
    pub out: Seq<Option<bool>>,
    pub dec: DecoderState,
    pub left: int,
}

/// One more bit for the channel at `slot`.
pub open spec fn one_more(st: LastBits, slot: int) -> LastBits {
    LastBits {
        out: st.out.update(slot, Some(st.dec.raw_bits(1) == 1)),
        dec: st.dec.after_raw(1),
        left: st.left - 1,
    }
}

/// The bands from `i` on of one priority, each with one more bit per channel as
/// long as there are enough.
pub open spec fn last_pass(
    st: LastBits,
    end: int,
    fine_quant: Seq<i32>,
    fine_priority: Seq<bool>,
    prio: bool,
    c: int,
    i: int,
) -> LastBits
    decreases end - i,
{
    if i >= end || st.left < c {
        st
    } else if fine_quant[i] >= 8 || fine_priority[i] != prio {
        last_pass(st, end, fine_quant, fine_priority, prio, c, i + 1)
    } else {
        let one = one_more(st, i * c);
        last_pass(
            if c == 2 {
                one_more(one, i * c + 1)
            } else {
                one
            },
            end,
            fine_quant,
            fine_priority,
            prio,
            c,
            i + 1,
        )
    }
}

/// The last bits of the bands: first those of first priority, then the others.
pub open spec fn last_bits(
    dec: DecoderState,
    start: int,
    end: int,
    fine_quant: Seq<i32>,
    fine_priority: Seq<bool>,
    left: int,
    c: int,
) -> LastBits {
    let none = LastBits { out: Seq::new((21 * c) as nat, |k: int| None::<bool>), dec, left };
    last_pass(
        last_pass(none, end, fine_quant, fine_priority, false, c, start),
        end,
        fine_quant,
        fine_priority,
        true,
        c,
        start,
    )
}

/// Hands the bits that are left at the end of a frame to the bands; each bit
/// says in which half of its step the energy lies.
pub fn decode_energy_finalise(
    dec: &mut RangeDecoder,
    start: usize,
    end: usize,
    fine_quant: &[i32; NB_EBANDS],
    fine_priority: &[bool; NB_EBANDS],
    bits_left: i32,
    channels: usize,
) -> (out: Vec<Option<bool>>)
    requires
        old(dec).wf(),
        start <= end <= 21,
        channels == 1 || channels == 2,
    ensures
        final(dec).wf(),
        ({
            let r = last_bits(
                old(dec)@,
                start as int,
                end as int,
                fine_quant@,
                fine_priority@,
                bits_left as int,
                channels as int,
            );
            out@ == r.out && final(dec)@ == r.dec
        }),
        out@.len() == 21 * channels,
{
    let mut out: Vec<Option<bool>> = vec![None; 21 * channels];
    assert(out@ =~= Seq::new((21 * channels) as nat, |k: int| None::<bool>));
    let mut left: i32 = bits_left;
    finalise_pass(dec, start, end, fine_quant, fine_priority, false, channels, &mut left, &mut out);
    finalise_pass(dec, start, end, fine_quant, fine_priority, true, channels, &mut left, &mut out);
    out
}

fn finalise_pass(
    dec: &mut RangeDecoder,
    start: usize,
    end: usize,
    fine_quant: &[i32; NB_EBANDS],
    fine_priority: &[bool; NB_EBANDS],
    prio: bool,
    channels: usize,
    left: &mut i32,
    out: &mut Vec<Option<bool>>,
)
    requires
        old(dec).wf(),
        start <= end <= 21,
        channels == 1 || channels == 2,
        old(out)@.len() == 21 * channels,
    ensures
        final(dec).wf(),
        (LastBits { out: final(out)@, dec: final(dec)@, left: *final(left) as int }) == last_pass(
            LastBits { out: old(out)@, dec: old(dec)@, left: *old(left) as int },
            end as int,
            fine_quant@,
            fine_priority@,
            prio,
            channels as int,
            start as int,
        ),
        final(out)@.len() == 21 * channels,
{
    let ghost whole = last_pass(
        LastBits { out: out@, dec: dec@, left: *left as int },
        end as int,
        fine_quant@,
        fine_priority@,
        prio,
        channels as int,
        start as int,
    );
    let mut i: usize = start;
    while i < end && *left >= channels as i32
        invariant
            dec.wf(),
            start <= i <= end <= 21,
            channels == 1 || channels == 2,
            out@.len() == 21 * channels,
            whole == last_pass(
                LastBits { out: out@, dec: dec@, left: *left as int },
                end as int,
                fine_quant@,
                fine_priority@,
                prio,
                channels as int,
                i as int,
            ),
        decreases end - i,
    {
        if !(fine_quant[i] >= 8 || fine_priority[i] != prio) {
            proof {
                lemma_slot(i as int, channels as int, 0);
                lemma_slot(i as int, channels as int, channels - 1);
            }
            let ghost st = LastBits { out: out@, dec: dec@, left: *left as int };
            let x: bool = dec.decode_raw_bits(1) == 1;
            out[i * channels] = Some(x);
            *left = *left - 1;
            assert((LastBits { out: out@, dec: dec@, left: *left as int }) == one_more(st, i * channels));
            if channels == 2 {
                let ghost st2 = LastBits { out: out@, dec: dec@, left: *left as int };
                let y: bool = dec.decode_raw_bits(1) == 1;
                out[i * channels + 1] = Some(y);
                *left = *left - 1;
                assert((LastBits { out: out@, dec: dec@, left: *left as int }) == one_more(st2, i * channels + 1));
            }
        }
        i = i + 1;
    }
}

} // verus!
