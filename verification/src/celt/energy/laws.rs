//! What the energies of a frame come to: steps as large as the bits that are left allow, and
//! last bits that go to the bands in their order.

use vstd::arithmetic::power2::pow2;
use vstd::prelude::*;

use crate::celt::energy::{self, EnergyEnv, LastBits, SMALL_ENERGY_ICDF};
use crate::celt::laplace;
use crate::celt::modes::E_PROB_MODEL;
use crate::range::decoder::{lemma_raw_value, DecoderState};

verus! {

/// From 15 bits on a step is any that the band's model has; from two on it is one up or down
/// or none, with one bit it is one down or none, and without any it is one down and nothing
/// is read.
pub proof fn lemma_step_by_bits(env: EnergyEnv, d: DecoderState, i: int)
    requires
        env.wf(),
        0 <= i < 21,
    ensures
        ({
            let left = env.budget - d.tell();
            let row = if env.intra {
                1int
            } else {
                0
            };
            let zero = 128 * E_PROB_MODEL[env.lm][row][2 * i];
            let decay = 64 * E_PROB_MODEL[env.lm][row][2 * i + 1];
            &&& left >= 15 ==> env.step(d, i) == laplace::symbol(d, zero, decay) && env.after_step(d, i)
                == laplace::after_symbol(d, zero, decay)
            &&& left < 15 ==> -1 <= env.step(d, i) <= 1
            &&& 2 <= left < 15 ==> env.after_step(d, i) == d.after_icdf(SMALL_ENERGY_ICDF@, 2) && (env.step(d, i) == 0
                <==> d.icdf(SMALL_ENERGY_ICDF@, 2) == 0) && (env.step(d, i) == -1 <==> d.icdf(SMALL_ENERGY_ICDF@, 2)
                == 1)
            &&& left == 1 ==> env.after_step(d, i) == d.after_bit(1) && env.step(d, i) <= 0 && (env.step(d, i) == -1
                <==> d.bit(1))
            &&& left <= 0 ==> env.step(d, i) == -1 && env.after_step(d, i) == d
        }),
{
}

/// A channel of a band has its own place.
proof fn lemma_places(i: int, ch: int, k: int, kh: int, c: int)
    requires
        1 <= c <= 2,
        0 <= ch < c,
        0 <= kh < c,
    ensures
        i * c + ch == k * c + kh <==> i == k && ch == kh,
{
    if c == 1 {
        assert(i * c == i && k * c == k) by (nonlinear_arith)
            requires
                c == 1,
        ;
    } else {
        assert(i * c == 2 * i && k * c == 2 * k) by (nonlinear_arith)
            requires
                c == 2,
        ;
    }
}

/// Only the frame's bands have a coarse step.
pub proof fn lemma_coarse_bands(env: EnergyEnv, d: DecoderState, i: int, ch: int, k: int, kh: int)
    requires
        env.wf(),
        env.start <= i <= env.end,
        0 <= ch <= env.channels,
        i == 21 ==> ch == 0,
        0 <= k < 21,
        0 <= kh < env.channels,
        k < env.start || k > i || (k == i && kh >= ch),
    ensures
        env.coarse(d, i, ch).0.len() == 21 * env.channels,
        env.coarse(d, i, ch).0[k * env.channels + kh] == 0,
    decreases i - env.start, ch,
{
    energy::lemma_slot(k, env.channels, kh);
    if i < env.start || (i == env.start && ch <= 0) {
    } else if ch <= 0 {
        lemma_coarse_bands(env, d, i - 1, env.channels, k, kh);
    } else {
        lemma_coarse_bands(env, d, i, ch - 1, k, kh);
        lemma_places(i, ch - 1, k, kh, env.channels);
        energy::lemma_slot(i, env.channels, ch - 1);
    }
}

/// A fine value fits the bits of its band; a band without any has none.
pub proof fn lemma_fine_values(
    d: DecoderState,
    start: int,
    fine_quant: Seq<i32>,
    channels: int,
    i: int,
    ch: int,
    k: int,
    kh: int,
)
    requires
        1 <= channels <= 2,
        0 <= start <= i <= 21,
        0 <= ch <= channels,
        i == 21 ==> ch == 0,
        0 <= k < 21,
        0 <= kh < channels,
        forall|j: int| 0 <= j < 21 ==> #[trigger] fine_quant[j] <= 25,
    ensures
        ({
            let s = energy::fine(d, start, fine_quant, channels, i, ch).0;
            &&& s.len() == 21 * channels
            &&& k < start || k > i || fine_quant[k] <= 0 ==> s[k * channels + kh] == 0
            &&& fine_quant[k] > 0 ==> s[k * channels + kh] < pow2(fine_quant[k] as nat)
        }),
    decreases i - start, ch,
{
    energy::lemma_slot(k, channels, kh);
    if i < start || (i == start && ch <= 0) {
        vstd::arithmetic::power2::lemma_pow2_pos(fine_quant[k] as nat);
    } else if ch <= 0 {
        lemma_fine_values(d, start, fine_quant, channels, i - 1, channels, k, kh);
    } else {
        lemma_fine_values(d, start, fine_quant, channels, i, ch - 1, k, kh);
        lemma_places(i, ch - 1, k, kh, channels);
        energy::lemma_slot(i, channels, ch - 1);
        let before = energy::fine(d, start, fine_quant, channels, i, ch - 1).1;
        if fine_quant[i] > 0 {
            reveal(DecoderState::raw_bits);
            lemma_raw_value(before.data, before.raw, fine_quant[i] as nat);
            assert(fine_quant[i] <= 25);
            vstd::arithmetic::power2::lemma2_to64();
            if fine_quant[i] < 32 {
                vstd::arithmetic::power2::lemma_pow2_strictly_increases(fine_quant[i] as nat, 32);
            }
        }
    }
}

/// Whether a band can have one more bit in the pass of a priority.
pub open spec fn served(fine_quant: Seq<i32>, fine_priority: Seq<bool>, prio: bool, k: int) -> bool {
    fine_quant[k] < 8 && fine_priority[k] == prio
}

/// What a pass gives band `k`.
proof fn lemma_pass(
    st: LastBits,
    end: int,
    fine_quant: Seq<i32>,
    fine_priority: Seq<bool>,
    prio: bool,
    c: int,
    i: int,
    k: int,
    kh: int,
)
    requires
        1 <= c <= 2,
        0 <= i <= end <= 21,
        st.out.len() == 21 * c,
        0 <= k < 21,
        0 <= kh < c,
        st.left >= 0,
    ensures
        ({
            let r = energy::last_pass(st, end, fine_quant, fine_priority, prio, c, i);
            &&& r.out.len() == 21 * c
            &&& 0 <= r.left <= st.left
            &&& st.left < c ==> r == st
            &&& k < i || k >= end || !served(fine_quant, fine_priority, prio, k) ==> r.out[k * c + kh] == st.out[k * c
                + kh]
            &&& st.out[k * c + kh] is Some ==> r.out[k * c + kh] is Some
            &&& i <= k < end && served(fine_quant, fine_priority, prio, k) ==> r.out[k * c + kh] is Some || r.left < c
        }),
    decreases end - i,
{
    energy::lemma_slot(k, c, kh);
    if i < end && st.left >= c {
        energy::lemma_slot(i, c, 0);
        if c == 2 {
            energy::lemma_slot(i, c, 1);
        }
        lemma_places(i, 0, k, kh, c);
        if c == 2 {
            lemma_places(i, 1, k, kh, c);
        }
        if fine_quant[i] >= 8 || fine_priority[i] != prio {
            lemma_pass(st, end, fine_quant, fine_priority, prio, c, i + 1, k, kh);
        } else {
            let one = energy::one_more(st, i * c);
            let next = if c == 2 {
                energy::one_more(one, i * c + 1)
            } else {
                one
            };
            lemma_pass(next, end, fine_quant, fine_priority, prio, c, i + 1, k, kh);
        }
    }
}

/// The last bits go to the bands with fewer than eight fine bits, one for each channel, as long
/// as there are enough for all channels of a band: none is left over that a band could have.
/// No band of second priority has one unless all of first priority do.
pub proof fn lemma_last_bits(
    d: DecoderState,
    start: int,
    end: int,
    fine_quant: Seq<i32>,
    fine_priority: Seq<bool>,
    left: int,
    c: int,
    k: int,
    kh: int,
    first: int,
    fh: int,
)
    requires
        1 <= c <= 2,
        0 <= start <= end <= 21,
        left >= 0,
        0 <= k < 21,
        0 <= kh < c,
        start <= first < end,
        0 <= fh < c,
        fine_quant[first] < 8,
        !fine_priority[first],
    ensures
        ({
            let r = energy::last_bits(d, start, end, fine_quant, fine_priority, left, c);
            &&& r.out.len() == 21 * c
            &&& 0 <= r.left <= left
            &&& k < start || k >= end || fine_quant[k] >= 8 ==> r.out[k * c + kh] is None
            &&& start <= k < end && fine_quant[k] < 8 ==> r.out[k * c + kh] is Some || r.left < c
            &&& start <= k < end && fine_priority[k] && r.out[k * c + kh] is Some ==> r.out[first * c + fh] is Some
            &&& left < c ==> r.left == left && r.dec == d
        }),
{
    let none = LastBits { out: Seq::new((21 * c) as nat, |x: int| None::<bool>), dec: d, left };
    let one = energy::last_pass(none, end, fine_quant, fine_priority, false, c, start);
    energy::lemma_slot(k, c, kh);
    energy::lemma_slot(first, c, fh);
    lemma_pass(none, end, fine_quant, fine_priority, false, c, start, k, kh);
    lemma_pass(none, end, fine_quant, fine_priority, false, c, start, first, fh);
    lemma_pass(one, end, fine_quant, fine_priority, true, c, start, k, kh);
    lemma_pass(one, end, fine_quant, fine_priority, true, c, start, first, fh);
}

/// Where few bits are left a wanted step is held back: with 24 bits beyond three for each step
/// that is to come it is coded as it is wanted, with 16 it goes up by no more than one, and below
/// by no more than one either way; that of the first band is never held.
pub proof fn lemma_held(env: EnergyEnv, e: crate::range::encoder::EncoderState, i: int, q: int)
    ensures
        ({
            let left = env.budget - e.tell() - 3 * env.channels * (env.end - i);
            let r = env.held(e, i, q);
            &&& i == env.start || left >= 24 ==> r == q
            &&& -1 <= q <= 1 ==> r == q
            &&& i != env.start && 16 <= left < 24 && q > 1 ==> r == 1
            &&& i != env.start && 16 <= left < 24 && q <= 1 ==> r == q
            &&& i != env.start && left < 16 && q > 1 ==> r == 1
            &&& i != env.start && left < 16 && q < -1 ==> r == -1
        }),
{
}

/// With fewer than 15 bits left a coded step is one up or down at most, as wanted; with one bit
/// it does not go up, and without any it goes down.
pub proof fn lemma_step_had(env: EnergyEnv, e: crate::range::encoder::EncoderState, i: int, want: int)
    ensures
        ({
            let left = env.budget - e.tell();
            let r = env.step_had(e, i, want);
            &&& 2 <= left < 15 ==> -1 <= r <= 1
            &&& 2 <= left < 15 && -1 <= want <= 1 ==> r == want
            &&& left == 1 ==> r <= 0
            &&& left == 1 && want == 0 ==> r == 0
            &&& left <= 0 ==> r == -1 && env.put_step(e, i, want) == e
            &&& left == 1 ==> env.step_read(e, i, want) >= -1
        }),
{
}

} // verus!
