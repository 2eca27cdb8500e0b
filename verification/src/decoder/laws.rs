//! What the decoder's decisions are for: gaps that are filled, changes of mode that are
//! bridged, samples that are kept.

use vstd::prelude::*;

use crate::celt::decoder::CeltDecoder;
use crate::celt::modes;
use crate::decoder::{self, FramePlan, OpusDecoder, Redundancy, TransitionFade};
use crate::encoder::OpusEncoder;
use crate::math;
use crate::packet::{self, Bandwidth, Mode};
use crate::range::decoder::{
    lemma_after_bit, lemma_even_bit_tell, lemma_small_uint, lemma_tell, DecoderState,
};

verus! {

/// The sum of a list of sizes.
pub open spec fn sum(s: Seq<int>) -> int
    decreases s.len(),
{
    if s.len() == 0 {
        0
    } else {
        s.last() + sum(s.drop_last())
    }
}

/// A first size adds itself.
proof fn lemma_sum_first(x: int, s: Seq<int>)
    ensures
        sum(seq![x] + s) == x + sum(s),
    decreases s.len(),
{
    if s.len() == 0 {
        assert((seq![x] + s).drop_last() =~= Seq::<int>::empty());
        assert((seq![x] + s).last() == x);
        assert(sum(Seq::<int>::empty()) == 0);
    } else {
        assert((seq![x] + s).drop_last() =~= seq![x] + s.drop_last());
        assert((seq![x] + s).last() == s.last());
        lemma_sum_first(x, s.drop_last());
    }
}

/// However long a gap is, its chunks fill it, each 20 ms at most and no longer than the
/// last good frame.
pub proof fn lemma_chunks_fill(rem: int, last: int)
    requires
        rem >= 0,
        last > 0,
    ensures
        sum(decoder::chunks(rem, last)) == rem,
        forall|i: int|
            0 <= i < decoder::chunks(rem, last).len() ==> 0 < #[trigger] decoder::chunks(rem, last)[i] <= 960
                && decoder::chunks(rem, last)[i] <= last,
    decreases rem,
{
    let s = decoder::chunks(rem, last);
    if rem > 0 {
        let n = decoder::chunk(rem, last);
        let tail = decoder::chunks(rem - n, last);
        lemma_chunks_fill(rem - n, last);
        lemma_sum_first(n, tail);
        assert(s == seq![n] + tail);
        assert forall|i: int| 0 <= i < s.len() implies 0 < #[trigger] s[i] <= 960 && s[i] <= last by {
            if i > 0 {
                assert(s[i] == tail[i - 1]);
            }
        }
    }
}

/// The durations of the transform coder.
pub open spec fn runnable(n: int) -> bool {
    n == 120 || n == 240 || n == 480 || n == 960
}

/// Of a gap of whole 2.5 ms steps each chunk is the longest frame of the transform coder
/// that neither the rest of the gap nor the last good frame is shorter than; the other
/// chunks are those of the rest.
pub proof fn lemma_chunks_longest(rem: int, last: int)
    requires
        rem > 0,
        rem % 120 == 0,
        last == 120 || last == 240 || last == 480 || last == 960 || last == 1920 || last == 2880,
    ensures
        ({
            let s = decoder::chunks(rem, last);
            &&& s.len() > 0
            &&& runnable(s[0])
            &&& s[0] <= rem && s[0] <= last
            &&& forall|n: int| #[trigger] runnable(n) && n <= rem && n <= last ==> n <= s[0]
            &&& s.drop_first() == decoder::chunks(rem - s[0], last)
        }),
{
    let s = decoder::chunks(rem, last);
    let n = decoder::chunk(rem, last);
    assert(s == seq![n] + decoder::chunks(rem - n, last));
    assert(s.drop_first() =~= decoder::chunks(rem - n, last));
}

/// A gap is filled by every coder that had a part in the last frame: by linear prediction
/// behind a linear-prediction or hybrid frame, where its control is known, and by the
/// transform decoder behind a transform or hybrid frame, or a redundant one. A coder that
/// had no part conceals nothing.
pub proof fn lemma_gap_filled(d: OpusDecoder, gap: int)
    requires
        d.wf(),
        gap >= 0,
    ensures
        !d.prev_redundancy && (d.prev_mode == Some(Mode::SilkOnly) || d.prev_mode == Some(Mode::Hybrid))
            && d.last_silk_ctl is Some ==> sum(d.silk_chunks(gap)) == gap,
        d.prev_redundancy || d.prev_mode == Some(Mode::CeltOnly) || d.prev_mode == Some(Mode::Hybrid) ==> sum(
            d.celt_chunks(gap),
        ) == gap,
        d.prev_redundancy || d.prev_mode is None || d.prev_mode == Some(Mode::CeltOnly) || d.last_silk_ctl is None
            ==> d.silk_chunks(gap).len() == 0,
        !d.prev_redundancy && (d.prev_mode is None || d.prev_mode == Some(Mode::SilkOnly)) ==> d.celt_chunks(gap).len()
            == 0,
        forall|i: int|
            0 <= i < d.silk_chunks(gap).len() ==> 0 < #[trigger] d.silk_chunks(gap)[i] <= 960 && d.silk_chunks(gap)[i]
                <= d.last_frame_size,
        forall|i: int| 0 <= i < d.celt_chunks(gap).len() ==> 0 < #[trigger] d.celt_chunks(gap)[i] <= 960,
{
    lemma_chunks_fill(gap, d.last_frame_size as int);
    lemma_chunks_fill(gap, 960);
}

/// Where the high bands of a hybrid stream are concealed, from the 18th on, its low band
/// is too, for as long: both coders fill the same gap.
pub proof fn lemma_both_bands(d: OpusDecoder, gap: int)
    requires
        d.wf(),
        gap > 0,
        d.first_lost_band() == 17,
        d.last_silk_ctl is Some,
    ensures
        sum(d.silk_chunks(gap)) == gap,
        sum(d.celt_chunks(gap)) == gap,
{
    lemma_gap_filled(d, gap);
}

/// The transform decoder conceals from the first band on, but for the low bands that the
/// linear-prediction decoder conceals of a hybrid stream.
pub proof fn lemma_lost_bands(d: OpusDecoder)
    ensures
        d.first_lost_band() == 0 || d.first_lost_band() == 17,
        d.first_lost_band() == 17 <==> d.prev_mode == Some(Mode::Hybrid) && !d.prev_redundancy,
{
}

/// A gap that can be concealed is a whole number of frames that the transform decoder has,
/// where that has a part; of a hybrid stream it conceals 20 ms at a time as long as it can.
pub proof fn lemma_concealable(d: OpusDecoder, gap: int)
    requires
        d.wf(),
        d.can_conceal(gap),
    ensures
        gap == 0 || 120 <= gap <= 2880,
        forall|i: int| 0 <= i < d.celt_chunks(gap).len() ==> runnable(#[trigger] d.celt_chunks(gap)[i]),
        d.first_lost_band() == 17 ==> forall|i: int|
            0 <= i < d.celt_chunks(gap).len() - 1 ==> #[trigger] d.celt_chunks(gap)[i] == 960,
{
    if d.celt_chunks(gap).len() > 0 {
        if d.first_lost_band() == 17 {
            decoder::lemma_chunks(gap, 960);
            lemma_hybrid_chunks(gap);
        } else {
            decoder::lemma_chunks(gap, d.last_frame_size as int);
        }
    }
}

/// 20 ms at a time, and the rest at once.
proof fn lemma_hybrid_chunks(gap: int)
    requires
        gap >= 0,
        gap % 960 == 0 || gap % 960 == 120 || gap % 960 == 240 || gap % 960 == 480,
    ensures
        forall|i: int|
            0 <= i < decoder::chunks(gap, 960).len() - 1 ==> #[trigger] decoder::chunks(gap, 960)[i] == 960,
    decreases gap,
{
    let s = decoder::chunks(gap, 960);
    if gap > 960 {
        let tail = decoder::chunks(gap - 960, 960);
        lemma_hybrid_chunks(gap - 960);
        assert(s == seq![960int] + tail);
        assert forall|i: int| 0 <= i < s.len() - 1 implies #[trigger] s[i] == 960 by {
            if i > 0 {
                assert(s[i] == tail[i - 1]);
            }
        }
    } else if gap > 0 {
        let n = decoder::chunk(gap, 960);
        assert(n == gap);
        assert(decoder::chunks(0, 960).len() == 0);
        assert(s == seq![n] + decoder::chunks(0, 960));
    }
}

/// Every gap of 2.5 to 60 ms of whole transform frames can be concealed, and so can none
/// that is not one behind a transform frame.
pub proof fn lemma_concealed_gaps(d: OpusDecoder, gap: int)
    requires
        d.wf(),
    ensures
        gap == 120 || gap == 240 || gap == 480 || gap == 960 || gap == 1920 || gap == 2880 ==> d.can_conceal(gap),
        d.prev_mode is None && !d.prev_redundancy && 120 <= gap <= 2880 ==> d.can_conceal(gap),
        d.prev_mode == Some(Mode::SilkOnly) && !d.prev_redundancy && 120 <= gap <= 2880 ==> d.can_conceal(gap),
        d.prev_redundancy && gap % 120 != 0 ==> !d.can_conceal(gap),
        d.prev_mode == Some(Mode::CeltOnly) && 120 <= gap <= 2880 ==> (d.can_conceal(gap) <==> gap % 120 == 0),
{
}

/// A frame that is lost behind another is concealed in the mode of that one, for all of its
/// coders: linear prediction under the control that the frame had, the transform decoder up
/// to the bands that it had; behind a redundant frame at the end, by the transform decoder
/// alone.
pub proof fn lemma_lost_behind(
    d: OpusDecoder,
    mode: Mode,
    bw: Bandwidth,
    n: usize,
    red: Redundancy,
    run: decoder::CeltRun,
    gap: int,
)
    requires
        d.wf(),
        n == 120 || n == 240 || n == 480 || n == 960 || n == 1920 || n == 2880,
        gap >= 0,
    ensures
        ({
            let next = d.after_frame(mode, bw, n, red, run);
            let bridged = red.present && !red.celt_to_silk;
            &&& next.wf()
            &&& sum(next.silk_chunks(gap)) == if mode != Mode::CeltOnly && !bridged {
                gap
            } else {
                0
            }
            &&& sum(next.celt_chunks(gap)) == if mode != Mode::SilkOnly || bridged {
                gap
            } else {
                0
            }
            &&& mode != Mode::CeltOnly ==> next.last_silk_ctl == d.start_spec(mode, bw, n as int).silk
            &&& mode == Mode::CeltOnly ==> next.last_silk_ctl == d.last_silk_ctl
            &&& modes::edge(next.prev_end as int) * 200 == reach(bw)
            &&& next.last_frame_size == n
            &&& next.channels == d.channels && next.fs == d.fs && next.ds == d.ds
            &&& next.stream_channels == d.stream_channels
        }),
{
    let next = d.after_frame(mode, bw, n, red, run);
    assert(next.wf());
    lemma_gap_filled(next, gap);
    lemma_reach(bw);
}

/// How far the coded spectrum of a bandwidth reaches, in Hz; that of the transform coder
/// beyond the low band has no medium band.
pub open spec fn reach(bw: Bandwidth) -> int {
    match bw {
        Bandwidth::NarrowBand => 4_000,
        Bandwidth::MediumBand => 8_000,
        Bandwidth::WideBand => 8_000,
        Bandwidth::SuperWideBand => 12_000,
        Bandwidth::FullBand => 20_000,
    }
}

/// The bands of a bandwidth end where its spectrum does.
pub proof fn lemma_reach(bw: Bandwidth)
    ensures
        modes::edge(decoder::end_band_spec(bw) as int) * 200 == reach(bw),
        0 < decoder::end_band_spec(bw) <= 21,
{
    reveal(modes::EBANDS);
}

/// The linear-prediction decoder runs at the rate that the coder of the same bandwidth runs
/// at, at 16 kHz in a hybrid frame, and gives as many channels at the rate of the output.
pub proof fn lemma_same_rate(e: OpusEncoder, d: OpusDecoder, len: int, max_bytes: int, n: int, channels: usize)
    requires
        e.wf(),
        e.silk_plan(len, max_bytes) is Ok,
        n > 0,
        n % 48 == 0,
        n <= 2880,
    ensures
        ({
            let low = d.control(channels, Mode::SilkOnly, e.bandwidth, n);
            let high = d.control(channels, Mode::Hybrid, e.bandwidth, n);
            &&& low.internal_sample_rate == 1000 * e.silk_plan(len, max_bytes)->Ok_0.internal_khz
            &&& high.internal_sample_rate == 16_000
            &&& low.channels_internal == channels && high.channels_internal == channels
            &&& low.channels_api == d.channels && high.channels_api == d.channels
            &&& low.api_sample_rate == d.fs && high.api_sample_rate == d.fs
            &&& low.payload_size_ms == high.payload_size_ms
            &&& n >= 480 ==> low.payload_size_ms * 48 == n
            &&& n < 480 ==> low.payload_size_ms == 10
        }),
{
}

/// The output rates are 48 kHz divided by one of five numbers.
proof fn lemma_step(d: OpusDecoder)
    requires
        d.wf(),
    ensures
        d.ds == 1 || d.ds == 2 || d.ds == 3 || d.ds == 4 || d.ds == 6,
        d.ds * d.fs == 48_000,
{
    assert(48_000u32 / 48_000u32 == 1);
    assert(48_000u32 / 24_000u32 == 2);
    assert(48_000u32 / 16_000u32 == 3);
    assert(48_000u32 / 12_000u32 == 4);
    assert(48_000u32 / 8_000u32 == 6);
}

/// A frame is a whole number of samples at every output rate.
proof fn lemma_exact(n: int, ds: int)
    requires
        n == 120 || n == 240 || n == 480 || n == 960 || n == 1920 || n == 2880,
        ds == 1 || ds == 2 || ds == 3 || ds == 4 || ds == 6,
    ensures
        n == ds * (n / ds),
        n == (n / ds) * ds,
{
    if ds == 1 {
        assert(n / 1 == n);
    } else if ds == 2 {
        assert(n == 2 * (n / 2));
    } else if ds == 3 {
        assert(n == 3 * (n / 3));
    } else if ds == 4 {
        assert(n == 4 * (n / 4));
    } else {
        assert(n == 6 * (n / 6));
    }
}

/// A change of mode is one between transform coding alone and the rest, in either
/// direction; one to transform coding that a redundant frame has bridged is none.
pub proof fn lemma_transitions(d: OpusDecoder, mode: Mode)
    ensures
        d.prev_mode is None ==> !d.transition(mode),
        d.prev_mode is Some && (d.prev_mode->0 == Mode::CeltOnly) == (mode == Mode::CeltOnly) ==> !d.transition(mode),
        d.prev_mode == Some(Mode::CeltOnly) && mode != Mode::CeltOnly ==> d.transition(mode),
        d.prev_mode is Some && d.prev_mode->0 != Mode::CeltOnly && mode == Mode::CeltOnly ==> d.transition(mode)
            == !d.prev_redundancy,
{
}

/// A frame starts its linear-prediction decoder afresh behind transform coding, and calls
/// it for each 20 ms; before a change to transform coding, 5 ms of the old audio are
/// concealed, or a shorter frame's length.
pub proof fn lemma_start(d: OpusDecoder, mode: Mode, bw: Bandwidth, n: int)
    requires
        d.wf(),
        n == 120 || n == 240 || n == 480 || n == 960 || n == 1920 || n == 2880,
    ensures
        ({
            let s = d.start_spec(mode, bw, n);
            &&& s.silk is Some <==> mode != Mode::CeltOnly
            &&& mode == Mode::CeltOnly ==> s.silk_calls == 0 && !s.reset_silk
            &&& mode != Mode::CeltOnly ==> {
                &&& s.reset_silk == (d.prev_mode == Some(Mode::CeltOnly))
                &&& (n <= 960 ==> s.silk_calls == 1)
                &&& (n > 960 ==> s.silk_calls * 960 == n)
                &&& s.silk->0.channels_internal == d.stream_channels
            }
            &&& s.conceal is Some <==> s.transition && mode == Mode::CeltOnly
            &&& s.transition == d.transition(mode)
            &&& s.conceal is Some ==> {
                let most = if n < 240 {
                    n
                } else {
                    240
                };
                s.conceal->0 * d.ds == most
            }
        }),
{
    lemma_step(d);
    let most = if n < 240 {
        n
    } else {
        240
    };
    let k = most / d.ds as int;
    lemma_exact(most, d.ds as int);
}

/// A frame's bands are those of its mode and bandwidth: all for transform coding, those
/// from the 18th on for hybrid, none for linear prediction, which fades the high bands of a
/// hybrid frame before it out.
pub proof fn lemma_main_part(d: OpusDecoder, mode: Mode, bw: Bandwidth, n: int, red: Redundancy)
    requires
        n == 120 || n == 240 || n == 480 || n == 960 || n == 1920 || n == 2880,
    ensures
        ({
            let p = d.plan_spec(mode, bw, n, red);
            &&& mode == Mode::CeltOnly ==> p.main is Frame && p.main->start == 0
            &&& mode == Mode::Hybrid ==> p.main is Frame && p.main->start == 17
            &&& mode == Mode::SilkOnly ==> !(p.main is Frame)
            &&& mode == Mode::SilkOnly && d.prev_mode != Some(Mode::Hybrid) ==> p.main is Off
            &&& mode == Mode::SilkOnly && d.prev_mode == Some(Mode::Hybrid) && !(red.present && d.prev_redundancy)
                ==> p.main is Silence
            &&& mode == Mode::SilkOnly && d.prev_mode == Some(Mode::Hybrid) && red.present && !red.celt_to_silk
                ==> p.main is Silence
            &&& mode == Mode::SilkOnly && red.present && red.celt_to_silk && d.prev_redundancy ==> p.main is Off
            &&& p.main is Frame ==> modes::edge(p.main->Frame_end as int) * 200 == reach(bw)
            &&& p.main is Silence ==> modes::edge(p.main->Silence_end as int) * 200 == reach(bw)
            &&& p.main is Frame && n <= 960 ==> p.main->size == n
            &&& p.main is Frame && n > 960 ==> p.main->size == 960
        }),
{
    lemma_reach(bw);
}

/// A redundant frame is decoded once: first where it bridges a change from transform
/// coding, last where it bridges a change to it; no fade is made beside it.
pub proof fn lemma_redundant_once(d: OpusDecoder, mode: Mode, bw: Bandwidth, n: int, red: Redundancy)
    ensures
        ({
            let p = d.plan_spec(mode, bw, n, red);
            &&& !red.present ==> !p.redundant_first && !p.redundant_last && !p.lead_in
            &&& red.present ==> p.redundant_first != p.redundant_last && p.redundant_first == red.celt_to_silk
            &&& red.present ==> p.fade == TransitionFade::Off && p.conceal is None
            &&& p.lead_in ==> p.redundant_first
            &&& p.redundant_first && d.prev_mode != Some(Mode::SilkOnly) ==> p.lead_in
            &&& p.redundant_first && d.prev_redundancy ==> p.lead_in
            &&& p.redundant_first && d.prev_mode == Some(Mode::SilkOnly) && !d.prev_redundancy ==> !p.lead_in
        }),
{
}

/// Old audio is concealed for a fade, and only for one: before the frame for a change to
/// transform coding, by the transform decoder for a change from it.
pub proof fn lemma_fade(d: OpusDecoder, mode: Mode, bw: Bandwidth, n: int, red: Redundancy)
    requires
        n == 120 || n == 240 || n == 480 || n == 960 || n == 1920 || n == 2880,
    ensures
        ({
            let s = d.start_spec(mode, bw, n);
            let p = d.plan_spec(mode, bw, n, red);
            &&& p.fade != TransitionFade::Off <==> !red.present && (s.conceal is Some || p.conceal is Some)
            &&& !(s.conceal is Some && p.conceal is Some)
            &&& p.conceal is Some ==> mode != Mode::CeltOnly && d.prev_mode == Some(Mode::CeltOnly)
            &&& p.conceal is Some ==> p.conceal->0 == if n < 240 {
                n
            } else {
                240
            }
            &&& p.fade == TransitionFade::Short ==> n == 120
            &&& p.fade == TransitionFade::Long ==> n >= 240
        }),
{
}

/// A stream that keeps its mode decodes its frames without fades, fresh starts or
/// concealment.
pub proof fn lemma_same_mode(d: OpusDecoder, mode: Mode, bw: Bandwidth, n: int, red: Redundancy)
    requires
        d.prev_mode == Some(mode) || d.prev_mode is None,
    ensures
        ({
            let s = d.start_spec(mode, bw, n);
            let p = d.plan_spec(mode, bw, n, red);
            &&& s.conceal is None && !s.reset_silk
            &&& p.conceal is None && !p.reset_celt && p.fade == TransitionFade::Off
            &&& p.main is Frame <==> mode != Mode::SilkOnly
            &&& !(p.main is Silence)
        }),
{
}

/// The transform decoder starts afresh where it had no part, or another, in the frame
/// before, and no redundant frame has started it already.
pub proof fn lemma_fresh_start(d: OpusDecoder, mode: Mode, bw: Bandwidth, n: int, red: Redundancy)
    ensures
        d.plan_spec(mode, bw, n, red).reset_celt <==> {
            &&& mode == Mode::CeltOnly || mode == Mode::Hybrid
            &&& d.prev_mode is Some
            &&& d.prev_mode->0 != mode
            &&& !d.prev_redundancy
        },
{
}

/// A redundant frame at the end leaves a transform decoder that knows of nothing else: what
/// it was before, and what the main frame held, does not matter to what comes.
pub proof fn lemma_bridged(
    d: OpusDecoder,
    a: CeltDecoder,
    b: CeltDecoder,
    main_a: DecoderState,
    main_b: DecoderState,
    data: Seq<u8>,
    plan: FramePlan,
    red: Redundancy,
    end: int,
)
    requires
        plan.redundant_last,
    ensures
        d.run_spec(a, main_a, data, plan, red, end).celt == d.run_spec(b, main_b, data, plan, red, end).celt,
        !plan.redundant_first ==> d.run_spec(a, main_a, data, plan, red, end).redundant == d.run_spec(
            b,
            main_b,
            data,
            plan,
            red,
            end,
        ).redundant,
{
}

/// Where the transform decoder starts afresh, what it was before does not matter to the main
/// frame; and the main frame is read from the frame's own coder, so that the bytes of the
/// redundant frame do not matter to it unless that was read first.
pub proof fn lemma_main_alone(
    d: OpusDecoder,
    a: CeltDecoder,
    b: CeltDecoder,
    main: DecoderState,
    data_a: Seq<u8>,
    data_b: Seq<u8>,
    plan: FramePlan,
    red: Redundancy,
    end: int,
)
    ensures
        plan.reset_celt ==> d.run_spec(a, main, data_a, plan, red, end).main == d.run_spec(
            b,
            main,
            data_b,
            plan,
            red,
            end,
        ).main,
        plan.reset_celt ==> d.run_spec(a, main, data_a, plan, red, end).dec == d.run_spec(
            b,
            main,
            data_b,
            plan,
            red,
            end,
        ).dec,
        !plan.redundant_first ==> d.run_spec(a, main, data_a, plan, red, end).main == d.run_spec(
            a,
            main,
            data_b,
            plan,
            red,
            end,
        ).main,
        !plan.redundant_first ==> d.run_spec(a, main, data_a, plan, red, end).dec == d.run_spec(
            a,
            main,
            data_b,
            plan,
            red,
            end,
        ).dec,
        !(plan.main is Frame) ==> d.run_spec(a, main, data_a, plan, red, end).dec == main,
{
}

/// The redundant frame is 5 ms of all bands in the last bytes of the data, and only these
/// matter to it.
pub proof fn lemma_redundant_bytes(
    d: OpusDecoder,
    c: CeltDecoder,
    main: DecoderState,
    head_a: Seq<u8>,
    head_b: Seq<u8>,
    spare: Seq<u8>,
    plan: FramePlan,
    red: Redundancy,
    end: int,
)
    requires
        red.bytes == spare.len(),
    ensures
        d.run_spec(c, main, head_a + spare, plan, red, end) == d.run_spec(c, main, head_b + spare, plan, red, end),
        decoder::redundant_place(red.bytes as int, d.stream_channels as int, end).size == 240,
        decoder::redundant_place(red.bytes as int, d.stream_channels as int, end).start == 0,
        decoder::redundant_place(red.bytes as int, d.stream_channels as int, end).end == end,
        decoder::redundant_place(red.bytes as int, d.stream_channels as int, end).bytes == red.bytes,
{
    assert(decoder::tail(head_a + spare, red.bytes as int) =~= spare);
    assert(decoder::tail(head_b + spare, red.bytes as int) =~= spare);
}

/// The final range of a packet is that of its main coder, and tells that of a redundant
/// frame: mixed in once more, it leaves the main coder's.
pub proof fn lemma_final_range(run: decoder::CeltRun)
    ensures
        run.redundant is None ==> OpusDecoder::mixed_range(run) == run.dec.rng as u32,
        run.redundant is Some ==> OpusDecoder::mixed_range(run) ^ (run.redundant->0.frame.last.dec.rng as u32)
            == run.dec.rng as u32,
{
    let a = run.dec.rng as u32;
    let b = run.redundant->0.frame.last.dec.rng as u32;
    assert(a ^ 0 == a) by (bit_vector);
    assert((a ^ b) ^ b == a) by (bit_vector);
}

/// The parameters of a redundant frame cut the bytes of a frame in two: the frame keeps what
/// its coder has read of, the redundant frame has the rest. A transform frame has none, nor
/// has one without room for it, and none of their bits is read.
pub proof fn lemma_redundancy(d: DecoderState, mode: Mode, len: int)
    requires
        d.wf(),
        0 <= len <= 0x1_0000,
    ensures
        ({
            let r = decoder::redundancy_spec(d, mode, len).redundancy;
            let after = decoder::redundancy_spec(d, mode, len).dec;
            &&& r.present ==> r.bytes + r.len == len
            &&& r.present ==> after.tell() <= 8 * r.len
            &&& r.present ==> mode != Mode::CeltOnly
            &&& !r.present ==> r.bytes == 0 && (r.len == len || r.len == 0)
            &&& mode == Mode::CeltOnly ==> !r.present && r.len == len && after == d
            &&& mode == Mode::Hybrid && d.tell() + 37 > 8 * len ==> !r.present && r.len == len && after == d
            &&& mode == Mode::SilkOnly && d.tell() + 17 > 8 * len ==> !r.present && r.len == len && after == d
            &&& r.present && mode == Mode::Hybrid ==> 2 <= r.bytes <= 257
            &&& r.present && mode == Mode::SilkOnly ==> r.len == (after.tell() + 7) / 8
        }),
{
    lemma_tell(d);
    lemma_after_bit(d, 12);
    let a = if mode == Mode::Hybrid {
        d.after_bit(12)
    } else {
        d
    };
    lemma_after_bit(a, 1);
    lemma_tell(a.after_bit(1));
    lemma_even_bit_tell(a);
    lemma_small_uint(a.after_bit(1), 256);
    let r = decoder::redundancy_spec(d, mode, len);
    if r.redundancy.present {
        let b = if mode == Mode::Hybrid {
            a.after_bit(1).after_uint(256)
        } else {
            a.after_bit(1)
        };
        assert(r.dec.tell() == b.tell());
        if mode == Mode::Hybrid {
            lemma_tell(b);
        }
    }
}

/// A lost packet is restored where the next one has its low band once more: that one's
/// frame is no longer than the gap, and neither it nor what came before is transform coded.
/// Else all of the gap is concealed.
pub proof fn lemma_restored(d: OpusDecoder, data: Seq<u8>, frame_size: int)
    requires
        d.wf(),
        data.len() > 0,
        0 <= frame_size,
        frame_size * d.ds <= usize::MAX,
    ensures
        ({
            let p = d.fec_spec(data, frame_size);
            let config = data[0] as int / 8;
            let n = packet::frame_size_of(config).samples();
            &&& p is Restore <==> {
                &&& config < 16
                &&& d.prev_mode != Some(Mode::CeltOnly)
                &&& n <= frame_size * d.ds
            }
            &&& p is Conceal ==> p->Conceal_0 == frame_size
            &&& p is Restore ==> {
                &&& p->size == n
                &&& p->before * d.ds + p->size == frame_size * d.ds
                &&& (p->high is Some <==> 12 <= config < 16)
                &&& p->high is Some ==> p->high->0 == n
                &&& (p->Restore_mode == Mode::Hybrid <==> 12 <= config < 16)
                &&& (p->Restore_mode == Mode::SilkOnly <==> config < 12)
                &&& p->ctl.channels_internal == 1 + data[0] as int / 4 % 2
                &&& p->ctl.channels_api == d.channels
                &&& p->ctl == d.control(p->ctl.channels_internal, p->Restore_mode, p->Restore_bandwidth, n)
                &&& (p->Restore_bandwidth == Bandwidth::NarrowBand <==> config < 4)
                &&& (p->Restore_bandwidth == Bandwidth::MediumBand <==> 4 <= config < 8)
                &&& (p->Restore_bandwidth == Bandwidth::WideBand <==> 8 <= config < 12)
                &&& (p->Restore_bandwidth == Bandwidth::SuperWideBand <==> 12 <= config < 14)
                &&& (p->Restore_bandwidth == Bandwidth::FullBand <==> 14 <= config)
            }
        }),
{
    lemma_step(d);
    let n = packet::frame_size_of(data[0] as int / 8).samples();
    let ds = d.ds as int;
    let gap = frame_size * ds;
    let k = n / ds;
    assert(n == 120 || n == 240 || n == 480 || n == 960 || n == 1920 || n == 2880);
    lemma_exact(n, ds);
    if gap >= n {
        assert(gap - n == ds * (frame_size - k)) by (nonlinear_arith)
            requires
                gap == frame_size * ds,
                n == ds * k,
        ;
        math::lemma_div(gap - n, ds);
        assert((gap - n) / ds == frame_size - k) by (nonlinear_arith)
            requires
                gap - n == ds * (frame_size - k),
                ds > 0,
                ds * ((gap - n) / ds) <= gap - n,
                gap - n < ds * ((gap - n) / ds) + ds,
        ;
        assert((frame_size - k) * ds == gap - n) by (nonlinear_arith)
            requires
                gap - n == ds * (frame_size - k),
        ;
    }
}

/// Of the decoded samples the first `pre_skip` of each channel are dropped, and as many are
/// kept as the final granule position counts behind them, as far as there are any.
pub proof fn lemma_trimmed(len: int, channels: int, pre_skip: int, final_granule: int)
    requires
        len >= 0,
        1 <= channels,
        pre_skip >= 0,
        final_granule >= 0,
    ensures
        ({
            let (drop, keep) = decoder::trimmed_spec(len, channels, pre_skip, final_granule);
            &&& 0 <= drop && 0 <= keep && drop + keep <= len
            &&& drop <= pre_skip * channels
            &&& drop < len ==> drop == pre_skip * channels
            &&& final_granule <= pre_skip ==> keep == 0
            &&& final_granule >= pre_skip ==> drop + keep <= final_granule * channels
            &&& final_granule >= pre_skip && drop + keep < len ==> drop + keep == final_granule * channels
        }),
{
    let (drop, keep) = decoder::trimmed_spec(len, channels, pre_skip, final_granule);
    let rest = math::max(final_granule - pre_skip, 0);
    assert(pre_skip * channels >= 0) by (nonlinear_arith)
        requires
            pre_skip >= 0,
            channels >= 1,
    ;
    assert(rest * channels >= 0) by (nonlinear_arith)
        requires
            rest >= 0,
            channels >= 1,
    ;
    if final_granule >= pre_skip {
        assert(rest * channels + pre_skip * channels == final_granule * channels) by (nonlinear_arith)
            requires
                rest == final_granule - pre_skip,
        ;
    } else {
        assert(0 * channels == 0) by (nonlinear_arith);
    }
    if final_granule == pre_skip {
        assert(0 * channels == 0) by (nonlinear_arith);
    }
}

/// A new decoder has nothing to conceal from and nothing to bridge: it conceals silence,
/// and takes up any mode as it is.
pub proof fn lemma_new(fs: u32, channels: usize, mode: Mode, bw: Bandwidth, n: int, red: Redundancy, gap: int)
    requires
        fs == 48_000 || fs == 24_000 || fs == 16_000 || fs == 12_000 || fs == 8_000,
        channels == 1 || channels == 2,
    ensures
        ({
            let d = OpusDecoder::fresh(fs, channels);
            &&& d.wf()
            &&& d.ds * fs == 48_000
            &&& d.channels == channels && d.stream_channels == channels
            &&& d.silk_chunks(gap).len() == 0 && d.celt_chunks(gap).len() == 0
            &&& !d.transition(mode)
            &&& d.plan_spec(mode, bw, n, red).fade == TransitionFade::Off
            &&& !d.plan_spec(mode, bw, n, red).reset_celt
            &&& d.final_range == 0
        }),
{
    assert(48_000u32 / 48_000u32 == 1);
    assert(48_000u32 / 24_000u32 == 2);
    assert(48_000u32 / 16_000u32 == 3);
    assert(48_000u32 / 12_000u32 == 4);
    assert(48_000u32 / 8_000u32 == 6);
}

} // verus!
