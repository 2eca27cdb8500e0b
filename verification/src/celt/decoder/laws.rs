//! What reading a transform frame comes to: parameters that stand where there are bits for
//! them, boosts that are paid for, and a history that says what a frame can build on.

use vstd::arithmetic::power2::{lemma2_to64, pow2};
use vstd::prelude::*;

use crate::celt::analysis;
use crate::celt::decoder::{self, BoostState, CeltDecoder, FrameInput, FramePlace, FrameSpec, TfInput};
use crate::celt::modes;
use crate::celt::rate;
use crate::celt::vq::Spread;
use crate::math;
use crate::range::decoder::{icdf_symbol, lemma_raw_value, lemma_uint, DecoderState};

verus! {

/// A silent frame holds nothing else: no post-filter, no short blocks, no energies of its own.
/// A frame without a bit to read is silent; one that starts with the flag's place is silent
/// if the flag says so, and any other is not.
pub proof fn lemma_silent(inp: FrameInput, d: DecoderState)
    requires
        inp.wf(),
    ensures
        ({
            let h = inp.header(d);
            &&& h.silence ==> h.postfilter.gain == 0 && !h.transient && !h.intra
            &&& d.tell() >= 8 * inp.bytes ==> h.silence
            &&& d.tell() < 8 * inp.bytes && d.tell() == 1 ==> h.silence == d.bit(15)
            &&& d.tell() < 8 * inp.bytes && d.tell() != 1 ==> !h.silence
        }),
{
    reveal(FrameInput::header);
}

/// Short blocks are only in a frame that has more than one, and a post-filter only in one
/// that starts with the first band.
pub proof fn lemma_header_parts(inp: FrameInput, d: DecoderState)
    requires
        inp.wf(),
    ensures
        inp.lm == 0 ==> !inp.header(d).transient,
        inp.start > 0 ==> inp.header(d).postfilter.gain == 0,
        d.tell() + 16 > 8 * inp.bytes ==> inp.header(d).postfilter.gain == 0,
        d.tell() + 3 > 8 * inp.bytes ==> !inp.header(d).transient && !inp.header(d).intra,
{
    reveal(FrameInput::header);
}

/// A post-filter that is on has a period of 15 to 1022 samples, in the octave that was read, a
/// gain of one to eight steps, and one of three tap sets.
pub proof fn lemma_filter_range(inp: FrameInput, d: DecoderState)
    requires
        inp.wf(),
    ensures
        ({
            let p = inp.postfilter_on(d).postfilter;
            let octave = if d.uint(6) < 6 {
                d.uint(6)
            } else {
                0
            };
            &&& 15 <= p.period <= 1022
            &&& 16 * pow2(octave as nat) <= p.period + 1 < 32 * pow2(octave as nat)
            &&& 1 <= p.gain <= 8
            &&& p.tapset <= 2
        }),
{
    lemma_uint(d, 6);
    let x = d.uint(6);
    let octave = if x < 6 {
        x
    } else {
        0
    };
    lemma2_to64();
    assert(octave == 0 || octave == 1 || octave == 2 || octave == 3 || octave == 4 || octave == 5);
    let d1 = d.after_uint(6);
    let d2 = d1.after_raw(4 + octave);
    let d3 = d2.after_raw(3);
    reveal(DecoderState::raw_bits);
    lemma_raw_value(d1.data, d1.raw, (4 + octave) as nat);
    lemma_raw_value(d2.data, d2.raw, 3);
    reveal(DecoderState::icdf);
    reveal(decoder::TAPSET_ICDF);
    lemma_icdf_symbol(decoder::TAPSET_ICDF@, d3.rng / pow2(2) as int, d3.val, 0);
}

/// A symbol is an entry of its table.
proof fn lemma_icdf_symbol(icdf: Seq<u8>, r: int, val: int, k: int)
    requires
        0 <= k < icdf.len(),
    ensures
        k <= icdf_symbol(icdf, r, val, k) < icdf.len(),
    decreases icdf.len() - k,
{
    if k + 1 < icdf.len() && val < r * icdf[k] {
        lemma_icdf_symbol(icdf, r, val, k + 1);
    }
}

/// The spread and the tilt are read where there are bits for them: four bits for the spread,
/// six for the tilt. Else the spread is the usual one and the tilt the neutral one of the
/// shortest frame, and nothing is read.
pub proof fn lemma_usual(inp: FrameInput, d: DecoderState, st: BoostState)
    requires
        inp.wf(),
    ensures
        d.tell() + 4 > 8 * inp.bytes ==> inp.spread(d) == Spread::Normal && inp.after_spread(d) == d,
        st.dec.tell_frac() + 48 > st.total ==> inp.trim(st) == 5 && inp.after_trim(st) == st.dec,
        0 <= inp.trim(st) <= 10,
        d.tell() + 4 <= 8 * inp.bytes ==> inp.spread(d) == Spread::of(d.icdf(decoder::SPREAD_ICDF@, 5)),
        st.dec.tell_frac() + 48 <= st.total ==> inp.trim(st) == st.dec.icdf(decoder::TRIM_ICDF@, 7),
{
    reveal(DecoderState::icdf);
    reveal(decoder::TRIM_ICDF);
    lemma_icdf_symbol(decoder::TRIM_ICDF@, st.dec.rng / pow2(7) as int, st.dec.val, 0);
}

/// A step of a boost is what the analysis counts one as: six bits, within a bit and an eighth
/// of one for each value.
pub proof fn lemma_boost_step(inp: FrameInput, i: int)
    requires
        inp.wf(),
        0 <= i < 21,
    ensures
        ({
            let w = inp.c * (modes::width(i) * modes::frame_mult(inp.lm));
            &&& inp.quanta(i) == analysis::boost_bits(1, w)
            &&& w <= inp.quanta(i) <= 8 * w
            &&& 6 <= w <= 48 ==> inp.quanta(i) == 48
            &&& inp.quanta(i) > 0
        }),
{
    let w = inp.c * (modes::width(i) * modes::frame_mult(inp.lm));
    modes::lemma_width(i);
    lemma_positive(inp, i);
    assert(1 * w == w);
}

proof fn lemma_positive(inp: FrameInput, i: int)
    requires
        inp.wf(),
        0 <= i < 21,
    ensures
        inp.c * (modes::width(i) * modes::frame_mult(inp.lm)) >= 1,
{
    modes::lemma_width(i);
    let c = inp.c;
    let w = modes::width(i);
    let m = modes::frame_mult(inp.lm);
    assert(c * (w * m) >= 1) by (nonlinear_arith)
        requires
            c >= 1,
            w >= 1,
            m >= 1,
    ;
}

/// The boosts of a band are whole steps, go on until a flag says no, the cap is reached or
/// nothing more is affordable, and are paid from the frame.
proof fn lemma_steps(inp: FrameInput, d: DecoderState, total: int, logp: int, boost: int, quanta: int, cap: int)
    requires
        quanta > 0,
        boost >= 0,
        boost % quanta == 0,
        boost < cap + quanta,
    ensures
        ({
            let (b, after, left) = inp.boost_steps(d, total, logp, boost, quanta, cap);
            &&& b >= boost
            &&& b % quanta == 0
            &&& b < cap + quanta
            &&& left + b == total + boost
        }),
    decreases math::max(cap - boost, 0),
{
    if quanta > 0 && d.tell_frac() + 8 * logp < total && boost < cap {
        if d.bit(logp) {
            vstd::arithmetic::div_mod::lemma_mod_add_multiples_vanish(boost, quanta);
            lemma_steps(inp, d.after_bit(logp), total - quanta, 1, boost + quanta, quanta, cap);
        }
    }
}

/// How many of the bands from `start` below `i` have a boost.
pub open spec fn boosted(offsets: Seq<int>, start: int, i: int) -> int
    decreases i - start,
{
    if i <= start {
        0
    } else {
        boosted(offsets, start, i - 1) + if offsets[i - 1] > 0 {
            1int
        } else {
            0
        }
    }
}

/// The sum of the boosts of the bands from `start` below `i`.
pub open spec fn boost_sum(offsets: Seq<int>, start: int, i: int) -> int
    decreases i - start,
{
    if i <= start {
        0
    } else {
        boost_sum(offsets, start, i - 1) + offsets[i - 1]
    }
}

proof fn lemma_same_below(a: Seq<int>, b: Seq<int>, start: int, i: int)
    requires
        0 <= start,
        forall|k: int| start <= k < i ==> #[trigger] a[k] == b[k],
    ensures
        boosted(a, start, i) == boosted(b, start, i),
        boost_sum(a, start, i) == boost_sum(b, start, i),
    decreases i - start,
{
    if i > start {
        lemma_same_below(a, b, start, i - 1);
    }
}

/// Boosts are whole steps that stay within a step of the band's cap. They are paid from the
/// frame: what is left and the boosts are all of its bits. The first flag of a band costs six
/// bits, and a bit less for each band boosted before, two at least. Only the frame's bands
/// have any.
pub proof fn lemma_boosts(inp: FrameInput, d: DecoderState, i: int, k: int)
    requires
        inp.wf(),
        inp.start <= i <= inp.end,
        0 <= k < 21,
    ensures
        ({
            let st = inp.boosts(d, i);
            &&& st.offsets.len() == 21
            &&& st.total + boost_sum(st.offsets, inp.start, i) == 64 * inp.bytes
            &&& st.logp == if boosted(st.offsets, inp.start, i) >= 4 {
                2
            } else {
                6 - boosted(st.offsets, inp.start, i)
            }
            &&& boosted(st.offsets, inp.start, i) >= 0
            &&& st.offsets[k] >= 0
            &&& inp.start <= k < i ==> st.offsets[k] % inp.quanta(k) == 0 && st.offsets[k] < rate::band_cap(
                inp.lm,
                inp.c,
                k,
            ) + inp.quanta(k)
            &&& k < inp.start || k >= i ==> st.offsets[k] == 0
        }),
    decreases i,
{
    if i > inp.start {
        lemma_boosts(inp, d, i - 1, k);
        let st = inp.boosts(d, i - 1);
        let q = inp.quanta(i - 1);
        let cap = rate::band_cap(inp.lm, inp.c, i - 1);
        lemma_boost_step(inp, i - 1);
        rate::lemma_band_cap(inp.lm, inp.c, i - 1);
        vstd::arithmetic::div_mod::lemma_small_mod(0, q as nat);
        lemma_steps(inp, st.dec, st.total, st.logp, 0, q, cap);
        lemma_same_below(inp.boosts(d, i).offsets, st.offsets, inp.start, i - 1);
    }
}

/// A bit is kept for the anti-collapse flag in frames of several short blocks only, where the
/// frame has bits for it; the bands get all that is left but that and an eighth of a bit.
pub proof fn lemma_kept(inp: FrameInput, st: BoostState, transient: bool)
    requires
        inp.wf(),
    ensures
        ({
            let a = inp.alloc_input(st, transient);
            let d = inp.after_trim(st);
            let kept = inp.collapse_rsv(d, transient);
            &&& a.total + kept + d.tell_frac() + 1 == 64 * inp.bytes
            &&& kept == 0 || kept == 8
            &&& kept == 8 ==> transient && inp.lm >= 2 && a.total >= 8 * (inp.lm + 1)
            &&& kept == 0 && transient && inp.lm >= 2 ==> a.total < 8 * (inp.lm + 2)
            &&& a.start == inp.start && a.end == inp.end
            &&& a.c == inp.c && a.lm == inp.lm
            &&& a.offsets == st.offsets
            &&& a.trim == inp.trim(st)
            &&& forall|j: int| 0 <= j < 21 ==> #[trigger] a.cap[j] == rate::band_cap(inp.lm, inp.c, j)
        }),
{
}

/// The resolutions that long and short blocks of a frame size have.
pub open spec fn choice(lm: int, transient: bool, k: int) -> i32 {
    if transient {
        decoder::TF_SELECT_TABLE[lm][4 + k]
    } else {
        decoder::TF_SELECT_TABLE[lm][k]
    }
}

/// The resolution of a band is one of the four that the frame size and its blocks have; a
/// band outside the frame has none. The selection is read where it was kept back and makes a
/// difference.
pub proof fn lemma_resolutions(t: TfInput, d: DecoderState, transient: bool, i: int)
    requires
        0 <= t.start < t.end <= 21,
        0 <= t.lm <= 3,
        0 <= i < 21,
    ensures
        ({
            let r = t.tf_res(d, transient);
            &&& r.len() == 21
            &&& i < t.start || i >= t.end ==> r[i] == 0
            &&& t.start <= i < t.end ==> exists|k: int|
                0 <= k < 4 && r[i] == #[trigger] choice(t.lm, transient, k)
            &&& t.lm == 0 ==> !t.tf_select_coded(d, transient)
            &&& t.tf_select_coded(d, transient) ==> t.tf_reserved(d, transient)
            &&& !t.tf_select_coded(d, transient) ==> t.after_tf(d, transient) == t.tf_flags(d, transient, t.end).dec
        }),
{
    let st = t.tf_flags(d, transient, t.end);
    let select = t.tf_select_coded(d, transient) && st.dec.bit(1);
    if t.start <= i < t.end {
        let f = st.flags[i - t.start];
        let k = (if select {
            2int
        } else {
            0
        }) + if f {
            1int
        } else {
            0
        };
        assert(t.tf_res(d, transient)[i] == choice(t.lm, transient, k));
    }
}

/// A band without bits for its flag has that of the band below; the first flag is a quarter or
/// a sixteenth, any other a sixteenth or a thirty-second, for short and long blocks.
pub proof fn lemma_resolution_flags(t: TfInput, d: DecoderState, transient: bool, i: int)
    requires
        t.start < i,
    ensures
        t.tf_logp(transient, t.start) == if transient {
            2int
        } else {
            4
        },
        t.tf_logp(transient, i) == if transient {
            4int
        } else {
            5
        },
        t.tf_reserved(d, transient) ==> t.lm > 0 && d.tell() + t.tf_logp(transient, t.start) < t.total,
        ({
            let st = t.tf_flags(d, transient, i);
            let next = t.tf_flags(d, transient, i + 1);
            &&& next.flags.len() == st.flags.len() + 1
            &&& st.dec.tell() + t.tf_logp(transient, i) > t.total ==> next.flags.last() == st.curr && next.dec == st.dec
            &&& next.curr == next.flags.last()
            &&& next.dec != st.dec && !st.dec.bit(t.tf_logp(transient, i)) ==> next.curr == st.curr
            &&& next.dec != st.dec && st.dec.bit(t.tf_logp(transient, i)) ==> next.curr != st.curr
            &&& st.changed ==> next.changed
            &&& next.changed ==> st.changed || next.curr
            &&& next.dec != st.dec && next.curr ==> next.changed
        }),
{
}

/// The resolution of a band of one value for long blocks is never made coarser, that of short
/// blocks is made coarser by no more than there are blocks.
pub proof fn lemma_resolution_table(lm: int, k: int)
    requires
        0 <= lm <= 3,
        0 <= k < 8,
    ensures
        k < 4 ==> decoder::TF_SELECT_TABLE[lm][k] <= 0,
        k == 0 || k == 2 ==> decoder::TF_SELECT_TABLE[lm][k] == 0,
        -3 <= decoder::TF_SELECT_TABLE[lm][k] <= lm,
        k % 2 == 0 ==> decoder::TF_SELECT_TABLE[lm][k] > decoder::TF_SELECT_TABLE[lm][k + 1],
        decoder::TF_SELECT_TABLE[lm][4] == lm,
{
    reveal(decoder::TF_SELECT_TABLE);
    assert(lm == 0 || lm == 1 || lm == 2 || lm == 3);
    assert(k == 0 || k == 1 || k == 2 || k == 3 || k == 4 || k == 5 || k == 6 || k == 7);
}

/// A good frame ends a loss, keeps its range for the noise of the next, and leaves its
/// post-filter, with a period that is not too short; the one before is forgotten but in the
/// shortest frames, which have only room for one change.
pub proof fn lemma_good_frame(c: CeltDecoder, f: FrameSpec, place: FramePlace)
    requires
        c.wf(),
        place.size == 120 || place.size == 240 || place.size == 480 || place.size == 960,
    ensures
        ({
            let r = c.after(f, place);
            let p = f.header.postfilter;
            &&& r.wf()
            &&& r.loss_duration == 0
            &&& !r.prefilter_and_fold
            &&& r.rng == f.last.dec.rng as u32
            &&& r.postfilter.gain == p.gain && r.postfilter.tapset == p.tapset
            &&& p.period >= 15 ==> r.postfilter.period == p.period
            &&& p.period < 15 ==> r.postfilter.period == 15
            &&& place.size > 120 ==> r.postfilter_old == r.postfilter
            &&& place.size == 120 ==> r.postfilter_old == c.postfilter.raised()
            &&& r.channels == c.channels && r.downsample == c.downsample
            &&& r.last_pitch_index == c.last_pitch_index
        }),
{
}

/// Concealment repeats the pitch again once two good frames came in a row: behind the first
/// it still does not if it did not before, behind the second it does.
pub proof fn lemma_two_good_frames(c: CeltDecoder, f: FrameSpec, g: FrameSpec, a: FramePlace, b: FramePlace)
    ensures
        !c.after(f, a).after(g, b).lost_plan_spec(0).noise,
        c.loss_duration > 0 ==> c.after(f, a).lost_plan_spec(0).noise == c.skip_plc,
        c.loss_duration == 0 ==> !c.after(f, a).lost_plan_spec(0).noise,
        c.after(f, a).lost_plan_spec(0).first,
{
}

/// A lost frame is concealed with noise above the first band, once 100 ms are lost, or where
/// the pitch must not be repeated; with the pitch in all other cases. The loss gets longer by
/// the frame.
pub proof fn lemma_concealed(c: CeltDecoder, size: int, start: int, end: int, found: int)
    requires
        c.wf(),
        size == 120 || size == 240 || size == 480 || size == 960,
        0 <= start <= 21,
        0 <= end <= 21,
        0 <= found <= 720,
    ensures
        ({
            let p = c.lost_plan_spec(start);
            let r = c.after_lost(size, start, end, found);
            &&& p.noise <==> start > 0 || c.loss_duration * 120 >= 4_800 || c.skip_plc
            &&& p.first <==> c.loss_duration == 0
            &&& p.fold == c.prefilter_and_fold
            &&& p.noise ==> r.skip_plc && !r.prefilter_and_fold && r.last_pitch_index == c.last_pitch_index
            &&& !p.noise ==> r.prefilter_and_fold && !r.skip_plc && r.rng == c.rng
            &&& !p.noise && p.first ==> r.last_pitch_index + found == 720
            &&& !p.noise && !p.first ==> r.last_pitch_index == c.last_pitch_index
            &&& c.loss_duration < 9_992 ==> r.loss_duration * 120 == c.loss_duration * 120 + size
            &&& r.loss_duration > 0
            &&& r.postfilter == c.postfilter && r.postfilter_old == c.postfilter_old
            &&& r.channels == c.channels && r.downsample == c.downsample
        }),
{
}

/// Once noise has concealed a frame, all frames lost with it are noise.
pub proof fn lemma_noise_goes_on(c: CeltDecoder, size: int, start: int, end: int, found: int, next: int)
    requires
        c.wf(),
        c.lost_plan_spec(start).noise,
    ensures
        c.after_lost(size, start, end, found).lost_plan_spec(next).noise,
{
}

/// A frame behind a loss builds on what was lost unless it stands alone: it bridges as many
/// frames of its length as were lost, ten at most. The background may rise by what was lost
/// and the frame itself, 160 at most.
pub proof fn lemma_bridge(c: CeltDecoder, f: FrameSpec, place: FramePlace)
    requires
        c.wf(),
        place.size == 120 || place.size == 240 || place.size == 480 || place.size == 960,
    ensures
        ({
            let h = c.history(f, place);
            &&& h.missing is Some <==> !f.header.intra && c.loss_duration > 0
            &&& h.missing is Some ==> h.missing->0 <= 10
            &&& h.missing is Some ==> h.missing->0 * place.size <= c.loss_duration * 120
            &&& h.missing is Some && h.missing->0 < 10 ==> c.loss_duration * 120 < (h.missing->0 + 1) * place.size
            &&& h.fold == c.prefilter_and_fold
            &&& h.background_rise <= 160
            &&& h.background_rise < 160 ==> h.background_rise * 120 == c.loss_duration * 120 + place.size
            &&& h.newer.gain == c.postfilter.gain && h.older.gain == c.postfilter_old.gain
            &&& h.current.gain == f.header.postfilter.gain
            &&& h.current == c.after(f, place).postfilter
            &&& h.newer.period >= 15 && h.older.period >= 15 && h.current.period >= 15
        }),
{
    let d = c.loss_duration as int;
    assert(d / 1 == d);
    if c.history(f, place).missing is Some {
        let k = c.history(f, place).missing->0 as int;
        if place.size == 120 {
            assert(k * 120 <= d * 120);
        } else if place.size == 240 {
            assert(2 * (d / 2) <= d < 2 * (d / 2) + 2);
        } else if place.size == 480 {
            assert(4 * (d / 4) <= d < 4 * (d / 4) + 4);
        } else {
            assert(8 * (d / 8) <= d < 8 * (d / 8) + 8);
        }
    }
}

/// Concealing noise has a value for each bin of the bands.
pub proof fn lemma_noise_len(lm: int, start: int, end: int)
    requires
        0 <= lm <= 3,
        0 <= start <= 21,
        0 <= end <= 21,
    ensures
        start >= end ==> CeltDecoder::noise_len(lm, start, end) == 0,
        start < end ==> CeltDecoder::noise_len(lm, start, end) == modes::frame_mult(lm) * modes::width(start)
            + CeltDecoder::noise_len(lm, start + 1, end),
        0 <= CeltDecoder::noise_len(lm, start, end) <= 800,
{
    let m = modes::frame_mult(lm);
    if start < end {
        modes::lemma_edges(start, end);
        modes::lemma_width(start);
        let a = modes::edge(end) - modes::edge(start + 1);
        let w = modes::width(start);
        assert((a + w) * m == m * w + a * m) by (nonlinear_arith);
        math::lemma_mul_range(modes::edge(end) - modes::edge(start), 100, m, 8);
        assert(0 * m == 0) by (nonlinear_arith);
    }
}

/// The four frame sizes are 2.5 ms, doubled.
pub proof fn lemma_sizes(size: int)
    ensures
        decoder::size_exponent(size) is Some <==> size == 120 || size == 240 || size == 480 || size == 960,
        decoder::size_exponent(size) is Some ==> 120 * modes::frame_mult(decoder::size_exponent(size)->0 as int)
            == size && decoder::size_exponent(size)->0 <= 3,
{
}

/// The shapes are read with the budgets and the stereo decisions of the allocation, the blocks of
/// the header, and all bits of the frame but those kept back.
pub proof fn lemma_shape_env(
    inp: FrameInput,
    header: decoder::Header,
    spread: Spread,
    tf_res: Seq<i32>,
    alloc: rate::AllocInput,
    t: rate::Settled,
    kept: int,
    j: int,
)
    requires
        inp.wf(),
        0 <= j < 21,
        tf_res.len() == 21,
    ensures
        ({
            let e = inp.shape_env(header, spread, tf_res, alloc, t, kept);
            &&& e.start == inp.start && e.end == inp.end && e.lm == inp.lm
            &&& e.shape_bits[j] == alloc.shape_bits(t, j)
            &&& e.tf_res[j] == tf_res[j]
            &&& e.short_blocks == header.transient
            &&& e.spread == spread
            &&& e.intensity == t.intensity && e.coded_bands == t.coded
            &&& e.total_bits + kept == 64 * inp.bytes
            &&& e.stereo <==> inp.c == 2
            &&& e.blocks() == if header.transient {
                modes::frame_mult(inp.lm)
            } else {
                1
            }
        }),
{
}

/// The frame at a place is read with the place's bytes, bands and channels, at its size.
pub proof fn lemma_place(c: CeltDecoder, d: DecoderState, place: FramePlace, lm: int)
    requires
        0 <= lm <= 3,
        place.size == 120 * modes::frame_mult(lm),
    ensures
        c.frame_at(d, place) == (FrameInput {
            bytes: place.bytes,
            c: place.channels,
            lm,
            start: place.start,
            end: place.end,
        }).frame(d, c.rng as int),
{
}

/// A frame from the first band on says with a bit whether it has a post-filter, where it has 16 bits
/// left; any other has none and says nothing.
pub proof fn lemma_filter_flag(inp: FrameInput, d: DecoderState, used: int)
    requires
        inp.wf(),
    ensures
        ({
            let p = inp.postfilter(d, used);
            let asked = inp.start == 0 && used + 16 <= 8 * inp.bytes;
            &&& !asked ==> p.postfilter.gain == 0 && p.dec == d
            &&& asked ==> (p.postfilter.gain > 0 <==> d.bit(1))
            &&& asked && !d.bit(1) ==> p.dec == d.after_bit(1)
        }),
{
    lemma_filter_range(inp, d.after_bit(1));
}

/// Short blocks and energies that stand alone are flags of an eighth, read where there are three
/// bits for them: short blocks in all but the shortest frames.
pub proof fn lemma_header_flags(inp: FrameInput, d: DecoderState)
    requires
        inp.wf(),
        inp.start > 0,
        !inp.silence(d),
    ensures
        ({
            let h = inp.header(d);
            let a = inp.after_silence(d);
            let b = a.after_bit(3);
            &&& inp.lm > 0 && d.tell() + 3 <= 8 * inp.bytes ==> h.transient == a.bit(3)
            &&& inp.lm > 0 && d.tell() + 3 <= 8 * inp.bytes && b.tell() + 3 <= 8 * inp.bytes ==> h.intra == b.bit(3)
                && h.dec == b.after_bit(3)
            &&& inp.lm == 0 && d.tell() + 3 <= 8 * inp.bytes ==> h.intra == a.bit(3) && h.dec == b
        }),
{
    reveal(FrameInput::header);
}

} // verus!
