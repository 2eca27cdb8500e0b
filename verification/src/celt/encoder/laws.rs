//! What the transform encoder's decisions are for: filters that can be coded, budgets that
//! the decoder finds again, a first frame that stands alone.

use vstd::prelude::*;

use crate::celt::decoder::{FrameInput, Postfilter};
use crate::celt::encoder::{CeltEncoder, FrontInput, HeaderPlan};
use crate::celt::modes;
use crate::celt::vq::Spread;
use crate::math;
use crate::range::decoder::DecoderState;
use crate::range::encoder::EncoderState;

verus! {

/// A change of the resolution costs 80 at least, and beyond that two more than 20480 for the
/// frame's bytes, rounded down: never less in a smaller frame. It is not searched for in the
/// shortest frames, at the least complexity or below 15 bytes a channel.
pub proof fn lemma_change_cost(e: CeltEncoder, nb_bytes: int, fewer: int, lm: int)
    requires
        e.wf(),
        0 < fewer <= nb_bytes,
        0 <= lm <= 3,
    ensures
        ({
            let c = e.change_cost(nb_bytes, lm);
            &&& c is Some <==> lm > 0 && e.complexity > 0 && nb_bytes >= 15 * e.channels
            &&& c is Some ==> c->0 >= 80
            &&& c is Some && c->0 > 80 ==> (c->0 - 2) * nb_bytes <= 20480 < (c->0 - 1) * nb_bytes
            &&& c is Some && c->0 == 80 ==> 20480 < 79 * nb_bytes
            &&& e.change_cost(fewer, lm) is Some ==> c is Some && e.change_cost(fewer, lm)->0 >= c->0
        }),
{
    math::lemma_div(20480, nb_bytes);
    let q = 20480int / nb_bytes;
    assert(q * nb_bytes == nb_bytes * q) by (nonlinear_arith);
    assert((q + 1) * nb_bytes == nb_bytes * q + nb_bytes) by (nonlinear_arith);
    if q <= 78 {
        assert((q + 1) * nb_bytes <= 79 * nb_bytes) by (nonlinear_arith)
            requires
                q <= 78,
                nb_bytes > 0,
        ;
    }
    assert(20480int / fewer >= q) by {
        math::lemma_div(20480, fewer);
        let p = 20480int / fewer;
        if p < q {
            assert(fewer * (p + 1) <= nb_bytes * q) by (nonlinear_arith)
                requires
                    0 < fewer <= nb_bytes,
                    p + 1 <= q,
                    p + 1 >= 0 || q >= 0,
                    q >= 0,
            ;
            assert(fewer * (p + 1) == fewer * p + fewer) by (nonlinear_arith);
        }
    }
}

/// The energies of the first frame stand on their own, those of all others build on the frame
/// before.
pub proof fn lemma_first_alone(e: CeltEncoder, channels: usize, p: Postfilter, transient: bool, before: bool, range: u32)
    ensures
        CeltEncoder::fresh(channels).next_header(p, transient).intra,
        !e.behind(before, range).next_header(p, transient).intra,
        e.next_header(p, transient).postfilter == p,
        e.next_header(p, transient).transient == transient,
{
}

/// The empty blocks are filled in the first two of a row of frames of short blocks, and not in
/// those that follow.
pub proof fn lemma_filled_twice(e: CeltEncoder, a: u32, b: u32, c: u32, d: u32)
    ensures
        e.behind(false, a).fills_blocks(),
        e.behind(false, a).behind(true, b).fills_blocks(),
        !e.behind(false, a).behind(true, b).behind(true, c).fills_blocks(),
        !e.fills_blocks() ==> !e.behind(true, d).fills_blocks(),
        CeltEncoder::fresh(1).fills_blocks(),
{
}

/// A frame is counted, leaves its range, and changes nothing that the caller set.
pub proof fn lemma_behind(e: CeltEncoder, transient: bool, range: u32)
    requires
        e.wf(),
    ensures
        ({
            let r = e.behind(transient, range);
            &&& r.wf()
            &&& e.frames < u64::MAX ==> r.frames == e.frames + 1
            &&& r.final_range == range
            &&& r.last_transient == transient
            &&& r.channels == e.channels && r.complexity == e.complexity && r.target_bitrate == e.target_bitrate
            &&& r.prefilter == e.prefilter && r.intensity == e.intensity && r.spread_decision == e.spread_decision
        }),
{
}

/// A pre-filter can be coded: its period is 15 at least, its gain one to eight steps, the
/// nearest of these to the wanted one, and none where none is wanted.
pub proof fn lemma_codable_filter(e: CeltEncoder, pitch: int, level: Option<i32>, transient: bool)
    requires
        0 <= pitch <= 1022,
        e.prefilter.tapset <= 2,
    ensures
        ({
            let p = e.filter_of(pitch, level);
            &&& e.next_header(p, transient).wf()
            &&& p.period >= 15 && p.period >= pitch
            &&& pitch >= 15 ==> p.period == pitch
            &&& p.gain == 0 <==> level is None
            &&& p.gain <= 8
            &&& level is Some && 1 <= level->0 <= 8 ==> p.gain == level->0
            &&& level is Some && level->0 < 1 ==> p.gain == 1
            &&& level is Some && level->0 > 8 ==> p.gain == 8
            &&& p.tapset == e.prefilter.tapset
        }),
{
}

/// The gain from which on a pitch is filtered is two tenths, two more where the pitch is off
/// the last by more than a tenth, one more below 35 and another below 25 bytes; one less
/// behind a strong filter, and another behind a stronger one, but never below two.
pub proof fn lemma_filter_threshold(e: CeltEncoder, pitch: int, nb_bytes: int)
    ensures
        ({
            let t = e.prefilter_threshold_spec(pitch, nb_bytes);
            let far = 10 * (pitch - e.prefilter.period) > pitch || 10 * (e.prefilter.period - pitch) > pitch;
            &&& 2 <= t <= 6
            &&& !far && nb_bytes >= 35 ==> t == 2
            &&& far && nb_bytes >= 35 && e.prefilter.gain <= 4 ==> t == 4
            &&& far && nb_bytes >= 35 && e.prefilter.gain == 5 ==> t == 3
            &&& far && nb_bytes >= 35 && e.prefilter.gain > 5 ==> t == 2
            &&& !far && 25 <= nb_bytes < 35 && e.prefilter.gain <= 4 ==> t == 3
            &&& !far && nb_bytes < 25 && e.prefilter.gain <= 4 ==> t == 4
            &&& far && nb_bytes < 25 && e.prefilter.gain <= 4 ==> t == 6
            &&& e.prefilter_threshold_spec(pitch, nb_bytes + 1) <= t
        }),
{
}

/// Both ends keep back the same for the anti-collapse flag, and have the same left for the
/// bands.
pub proof fn lemma_same_budget(inp: FrameInput, d: DecoderState, transient: bool)
    requires
        inp.wf(),
    ensures
        ({
            let (left, kept) = CeltEncoder::budget_spec(d.tell_frac(), inp.bytes, transient, inp.lm);
            &&& kept == inp.collapse_rsv(d, transient)
            &&& left + kept + d.tell_frac() + 1 == 64 * inp.bytes
            &&& kept > 0 ==> transient && inp.lm >= 2 && left >= 8 * (inp.lm + 1)
        }),
{
}

/// At the least complexity spread and tonality stay what they were; where the last band is
/// narrow nothing is spread, and the tonality stays.
pub proof fn lemma_wanted_spread(e: CeltEncoder, a: FrontInput, end: int, lm: int)
    ensures
        ({
            let (s, t) = e.wanted_spread(a, end, lm);
            &&& e.complexity == 0 ==> s == e.spread_decision && t == e.tonal_average
            &&& e.complexity > 0 && modes::frame_mult(lm) * modes::width(end - 1) <= 8 ==> s == Spread::Off && t
                == e.tonal_average
        }),
{
}

/// The part behind the coarse energy changes the spread and tonality where the spread is
/// written, the stereo image of two channels, and nothing else.
pub proof fn lemma_after_front(e: CeltEncoder, inp: FrameInput, s: EncoderState, a: FrontInput)
    requires
        e.wf(),
    ensures
        ({
            let r = e.after_front(inp, s, a);
            let e1 = inp.tf().after_put(s, a.transient, a.tf_want@, a.tf_select);
            &&& r == (CeltEncoder {
                spread_decision: r.spread_decision,
                tonal_average: r.tonal_average,
                intensity: r.intensity,
                ..e
            })
            &&& e1.tell() + 4 > 8 * inp.bytes ==> r.spread_decision == e.spread_decision && r.tonal_average
                == e.tonal_average
            &&& e1.tell() + 4 <= 8 * inp.bytes ==> r.spread_decision == e.wanted_spread(a, inp.end, inp.lm).0
            &&& e.channels == 1 ==> r.intensity == e.intensity
        }),
{
}

/// The parameters that the decoder will have are those that were wanted where there was room
/// for them, and the usual ones else; a flag that is not wanted is never had.
pub proof fn lemma_had(inp: FrameInput, e: EncoderState, h: HeaderPlan, spread: Spread)
    ensures
        ({
            let r = inp.header_had(e, h);
            &&& r.transient ==> h.transient && inp.lm > 0
            &&& r.intra ==> h.intra
            &&& inp.start > 0 || h.postfilter.gain == 0 ==> r.postfilter.gain == 0
            &&& inp.start == 0 && h.postfilter.gain > 0 ==> r.postfilter.gain == h.postfilter.gain
                && r.postfilter.period == h.postfilter.period
            &&& inp.spread_had(e, spread) == spread || inp.spread_had(e, spread) == Spread::Normal
            &&& e.tell() + 4 <= 8 * inp.bytes ==> inp.spread_had(e, spread) == spread
        }),
{
}

} // verus!
