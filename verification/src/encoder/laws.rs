//! What the encoder's decisions are for: rates that are kept, speech that goes to the
//! speech coders, bandwidths that the rate can fill.

use vstd::prelude::*;

use crate::decoder;
use crate::encoder::{
    self, Application, AutoPlan, ChosenMode, CeltPlan, EncodeError, HybridPlan, OpusEncoder, Signal, SilkPlan,
};
use crate::math;
use crate::packet::{Bandwidth, Mode};
use crate::range::decoder::DecoderState;
use crate::range::encoder::EncoderState;

verus! {

/// At a constant rate the bits of a transform frame's payload are the rate times the time
/// that the frame lasts, to the byte below, as far as the two limits allow: it has two
/// bytes at least and fits the budget with its head. The payload is then filled.
pub proof fn lemma_constant_bits(e: OpusEncoder, n: int, max_bytes: int)
    requires
        e.wf(),
        !e.vbr,
        e.target_bitrate is Some,
        e.celt_plan(n * e.channels, max_bytes) is Ok,
    ensures
        ({
            let p = e.celt_plan(n * e.channels, max_bytes)->Ok_0;
            let rate = e.target_bitrate->0;
            &&& 2 <= p.nb_bytes <= max_bytes - 1
            &&& p.nb_bytes > 2 ==> 8 * p.nb_bytes * 48_000 <= rate * n
            &&& p.nb_bytes < max_bytes - 1 ==> rate * n < 8 * (p.nb_bytes + 1) * 48_000
            &&& p.target_bitrate is None
        }),
{
    lemma_samples(e, n);
    let b = e.target_bitrate->0 as int;
    math::lemma_div(b * n, 384_000);
}

/// Twice the frame takes twice the bytes at a constant rate, or one more.
pub proof fn lemma_constant_rate_scales(e: OpusEncoder, n: int, max_bytes: int)
    requires
        e.wf(),
        !e.vbr,
        e.target_bitrate is Some,
        e.celt_plan(n * e.channels, max_bytes) is Ok,
        e.celt_plan(2 * n * e.channels, max_bytes) is Ok,
        2 < e.celt_plan(n * e.channels, max_bytes)->Ok_0.nb_bytes,
        e.celt_plan(2 * n * e.channels, max_bytes)->Ok_0.nb_bytes < max_bytes - 1,
    ensures
        ({
            let one = e.celt_plan(n * e.channels, max_bytes)->Ok_0.nb_bytes;
            let two = e.celt_plan(2 * n * e.channels, max_bytes)->Ok_0.nb_bytes;
            2 * one <= two <= 2 * one + 1
        }),
{
    let b = e.target_bitrate->0 as int;
    lemma_constant_bits(e, n, max_bytes);
    lemma_constant_bits(e, 2 * n, max_bytes);
    assert(b * (2 * n) == 2 * (b * n)) by (nonlinear_arith);
}

/// Where the rate may vary, or none is set, a transform frame is given all the bytes there
/// are, and the rate to shrink to.
pub proof fn lemma_varying_bytes(e: OpusEncoder, len: int, max_bytes: int)
    requires
        e.wf(),
        e.vbr || e.target_bitrate is None,
        e.celt_plan(len, max_bytes) is Ok,
    ensures
        e.celt_plan(len, max_bytes)->Ok_0.nb_bytes == max_bytes - 1,
        e.celt_plan(len, max_bytes)->Ok_0.target_bitrate == e.target_bitrate,
{
}

/// `n` samples of each channel are as many times the channels in all.
proof fn lemma_samples(e: OpusEncoder, n: int)
    requires
        e.channels == 1 || e.channels == 2,
    ensures
        e.per_channel(n * e.channels) == Some(n),
{
    if e.channels == 1 {
        assert(n * 1 == n);
    } else {
        assert(n * e.channels == 2 * n) by (nonlinear_arith)
            requires
                e.channels == 2,
        ;
    }
}

/// The samples of a frame are those of all channels, in equal shares.
pub proof fn lemma_shares(e: OpusEncoder, len: int)
    requires
        e.channels == 1 || e.channels == 2,
        len >= 0,
    ensures
        e.per_channel(len) is Some <==> len % e.channels as int == 0,
        e.per_channel(len) is Some ==> e.per_channel(len)->0 * e.channels == len,
{
}

/// Each coder takes the frames that it has, and no others: 2.5 to 20 ms the transform
/// coder, 10 to 60 ms linear prediction, 10 and 20 ms both together, for the two widest
/// bandwidths. The budget is three to 1275 bytes.
pub proof fn lemma_accepted(e: OpusEncoder, n: int, max_bytes: int)
    requires
        e.wf(),
    ensures
        e.celt_plan(n * e.channels, max_bytes) is Ok <==> (n == 120 || n == 240 || n == 480 || n == 960) && 3
            <= max_bytes <= 1275,
        e.silk_plan(n * e.channels, max_bytes) is Ok <==> (n == 480 || n == 960 || n == 1920 || n == 2880) && 3
            <= max_bytes <= 1275,
        e.hybrid_plan(n * e.channels, max_bytes) is Ok <==> (n == 480 || n == 960) && 21 <= max_bytes <= 1275 && (
        e.bandwidth == Bandwidth::SuperWideBand || e.bandwidth == Bandwidth::FullBand),
        e.celt_plan(n * e.channels, max_bytes) == Err::<CeltPlan, EncodeError>(EncodeError::InvalidBudget) <==> (n
            == 120 || n == 240 || n == 480 || n == 960) && !(3 <= max_bytes <= 1275),
        e.silk_plan(n * e.channels, max_bytes) == Err::<SilkPlan, EncodeError>(EncodeError::InvalidBudget) <==> (n
            == 480 || n == 960 || n == 1920 || n == 2880) && !(3 <= max_bytes <= 1275),
        e.hybrid_plan(n * e.channels, max_bytes) == Err::<HybridPlan, EncodeError>(EncodeError::InvalidBudget) <==> (n
            == 480 || n == 960) && !(21 <= max_bytes <= 1275) && (e.bandwidth == Bandwidth::SuperWideBand
            || e.bandwidth == Bandwidth::FullBand),
{
    lemma_samples(e, n);
}

/// A transform frame of `2^lm` times 2.5 ms has that exponent, codes the bands of its
/// bandwidth, and says so in its head.
pub proof fn lemma_celt_layout(e: OpusEncoder, n: int, max_bytes: int)
    requires
        e.wf(),
        e.celt_plan(n * e.channels, max_bytes) is Ok,
    ensures
        ({
            let p = e.celt_plan(n * e.channels, max_bytes)->Ok_0;
            let config = p.toc as int / 8;
            &&& n == 120 * crate::celt::modes::frame_mult(p.lm as int)
            &&& p.lm <= 3
            &&& 16 <= config <= 31
            &&& config % 4 == p.lm
            &&& (config / 4 == 4) == (e.bandwidth == Bandwidth::NarrowBand)
            &&& (config / 4 == 5) == (e.bandwidth == Bandwidth::MediumBand || e.bandwidth == Bandwidth::WideBand)
            &&& (config / 4 == 6) == (e.bandwidth == Bandwidth::SuperWideBand)
            &&& (config / 4 == 7) == (e.bandwidth == Bandwidth::FullBand)
            &&& p.toc as int % 8 == if e.coded() == 2 {
                4int
            } else {
                0
            }
            &&& p.end == match e.bandwidth {
                Bandwidth::NarrowBand => 13int,
                Bandwidth::MediumBand => 17,
                Bandwidth::WideBand => 17,
                Bandwidth::SuperWideBand => 19,
                Bandwidth::FullBand => 21,
            }
        }),
{
    lemma_samples(e, n);
}

/// A linear-prediction packet names its bandwidth and duration in its head. The coder runs
/// at the rate of the bandwidth, wideband at most, in four parts of 5 ms, or two in a frame
/// of 10 ms.
pub proof fn lemma_silk_layout(e: OpusEncoder, n: int, max_bytes: int)
    requires
        e.wf(),
        e.silk_plan(n * e.channels, max_bytes) is Ok,
    ensures
        ({
            let p = e.silk_plan(n * e.channels, max_bytes)->Ok_0;
            let config = p.toc as int / 8;
            &&& 0 <= config <= 11
            &&& (config % 4 == 0) == (n == 480)
            &&& (config % 4 == 1) == (n == 960)
            &&& (config % 4 == 2) == (n == 1920)
            &&& (config % 4 == 3) == (n == 2880)
            &&& (config / 4 == 0) == (e.bandwidth == Bandwidth::NarrowBand)
            &&& (config / 4 == 1) == (e.bandwidth == Bandwidth::MediumBand)
            &&& p.internal_khz == 8 + 4 * (config / 4)
            &&& p.nb_subfr == if n == 480 {
                2int
            } else {
                4
            }
            &&& p.toc as int % 8 == if e.coded() == 2 {
                4int
            } else {
                0
            }
            &&& p.channels == e.coded()
            &&& p.cap == max_bytes - 1
        }),
{
    lemma_samples(e, n);
}

/// The low band of a linear-prediction packet gets the rate that was set, within what the
/// coder can use: 5 kb/s at least, 80 kb/s at most for one channel and 100 kb/s for two;
/// 20 kb/s where none was set.
pub proof fn lemma_silk_bits(e: OpusEncoder, len: int, max_bytes: int)
    requires
        e.wf(),
        e.silk_plan(len, max_bytes) is Ok,
    ensures
        ({
            let p = e.silk_plan(len, max_bytes)->Ok_0;
            &&& 5_000 <= p.bitrate <= if e.coded() == 1 {
                80_000int
            } else {
                100_000
            }
            &&& e.target_bitrate is None ==> p.bitrate == 20_000
            &&& e.target_bitrate is Some && 5_000 <= e.target_bitrate->0 <= 80_000 ==> p.bitrate
                == e.target_bitrate->0
            &&& e.target_bitrate is Some && e.coded() == 2 && 80_000 <= e.target_bitrate->0 <= 100_000 ==> p.bitrate
                == e.target_bitrate->0
            &&& e.target_bitrate is Some && e.target_bitrate->0 < 5_000 ==> p.bitrate == 5_000
            &&& e.target_bitrate is Some && 100_000 < e.target_bitrate->0 <= 0x7FFF_FFFF ==> p.bitrate
                == if e.coded() == 1 {
                80_000int
            } else {
                100_000
            }
        }),
{
}

/// A low-band coder is set up anew only where it was set up otherwise before: the same
/// plan again needs nothing, and a plan of the other number of channels does not disturb
/// it.
pub proof fn lemma_set_up_once(e: OpusEncoder, len: int, max_bytes: int, more: int)
    requires
        e.wf(),
        e.silk_plan(len, max_bytes) is Ok,
        3 <= more <= 1275,
    ensures
        ({
            let p = e.silk_plan(len, max_bytes)->Ok_0;
            let next = e.with_setup(encoder::SilkSetup { khz: p.internal_khz, nb_subfr: p.nb_subfr });
            &&& next.silk_plan(len, more) is Ok
            &&& !next.silk_plan(len, more)->Ok_0.fresh
            &&& e.setup() is None ==> p.fresh
            &&& !p.fresh ==> next == e
            &&& e.coded() == 1 ==> next.silk_stereo == e.silk_stereo
            &&& e.coded() == 2 ==> next.silk == e.silk
            &&& next.coded() == e.coded()
        }),
{
}

/// The bits of a hybrid payload are the rate times the time that the frame lasts, to the
/// byte below, as far as the two limits allow: it has 20 bytes at least and fits the
/// budget with its head. Where no rate was set it is 32 kb/s.
pub proof fn lemma_hybrid_bits(e: OpusEncoder, n: int, max_bytes: int)
    requires
        e.wf(),
        e.hybrid_plan(n * e.channels, max_bytes) is Ok,
        e.target_bitrate is Some ==> e.target_bitrate->0 <= 0x7FFF_FFFF,
    ensures
        ({
            let p = e.hybrid_plan(n * e.channels, max_bytes)->Ok_0;
            let rate = match e.target_bitrate {
                None => 32_000int,
                Some(b) => b as int,
            };
            &&& 20 <= p.nb_bytes <= max_bytes - 1
            &&& p.nb_bytes > 20 ==> 8 * p.nb_bytes * 48_000 <= rate * n
            &&& p.nb_bytes < max_bytes - 1 ==> rate * n < 8 * (p.nb_bytes + 1) * 48_000
        }),
{
    lemma_samples(e, n);
    let rate = match e.target_bitrate {
        None => 32_000int,
        Some(b) => b as int,
    };
    let ms = n / 48;
    assert(n == 48 * ms);
    assert(rate * n == 48 * (rate * ms)) by (nonlinear_arith)
        requires
            n == 48 * ms,
    ;
    assert(rate * ms >= 0) by (nonlinear_arith)
        requires
            rate >= 0,
            ms >= 0,
    ;
    math::lemma_div(rate * ms, 8_000);
}

/// A hybrid packet names its bandwidth and duration in its head; its low band runs at
/// 16 kHz in parts of 5 ms, its high bands are those of the bandwidth from the 18th on, of
/// which each keeps three bytes from the low band.
pub proof fn lemma_hybrid_layout(e: OpusEncoder, n: int, max_bytes: int)
    requires
        e.wf(),
        e.hybrid_plan(n * e.channels, max_bytes) is Ok,
    ensures
        ({
            let p = e.hybrid_plan(n * e.channels, max_bytes)->Ok_0;
            let config = p.toc as int / 8;
            &&& 12 <= config <= 15
            &&& (config >= 14) == (e.bandwidth == Bandwidth::FullBand)
            &&& (config % 2 == 1) == (n == 960)
            &&& p.toc as int % 8 == if e.coded() == 2 {
                4int
            } else {
                0
            }
            &&& p.nb_subfr * 240 == n
            &&& p.end == if e.bandwidth == Bandwidth::FullBand {
                21int
            } else {
                19
            }
            &&& p.channels == e.coded()
            &&& p.silk_bits % 8 == 0
            &&& p.silk_bits >= 64
            &&& p.silk_bits > 64 ==> p.silk_bits / 8 + 3 * (p.end - 17) + 3 == p.nb_bytes
            &&& p.silk_bits == 64 ==> p.nb_bytes <= 3 * (p.end - 17) + 11
            &&& p.fresh == (e.setup() != Some(encoder::SilkSetup { khz: 16, nb_subfr: p.nb_subfr }))
        }),
{
    lemma_samples(e, n);
}

/// A straight line stays between its ends and is not left by more than the rounding.
proof fn lemma_between(x: int, x0: int, width: int, lo: int, hi: int)
    requires
        x0 <= x <= x0 + width,
        width > 0,
        0 <= lo <= hi,
    ensures
        lo <= encoder::between(x, x0, width, lo, hi) <= hi,
        width * encoder::between(x, x0, width, lo, hi) <= lo * width + (hi - lo) * (x - x0),
        lo * width + (hi - lo) * (x - x0) < width * (encoder::between(x, x0, width, lo, hi) + 1),
{
    let num = lo * (x0 + width - x) + hi * (x - x0);
    assert(num == lo * width + (hi - lo) * (x - x0)) by (nonlinear_arith)
        requires
            num == lo * (x0 + width - x) + hi * (x - x0),
    ;
    assert(lo * width <= num <= hi * width) by (nonlinear_arith)
        requires
            num == lo * width + (hi - lo) * (x - x0),
            0 <= x - x0 <= width,
            hi >= lo,
    ;
    assert(lo * width >= 0) by (nonlinear_arith)
        requires
            lo >= 0,
            width > 0,
    ;
    math::lemma_div(num, width);
    let r = num / width;
    assert(lo <= r) by (nonlinear_arith)
        requires
            lo * width <= num,
            num < width * r + width,
            width > 0,
    ;
    assert(r <= hi) by (nonlinear_arith)
        requires
            num <= hi * width,
            width * r <= num,
            width > 0,
    ;
    assert(width * (r + 1) == width * r + width) by (nonlinear_arith);
}

/// The low band of a hybrid stream gets the rates of seven points, straight between them,
/// and half of what is beyond the last; more rate never gives it less, and it never gets
/// more than there is.
pub proof fn lemma_low_band_rate(x: int, y: int)
    requires
        0 <= x <= y,
    ensures
        encoder::low_band_rate(x) <= encoder::low_band_rate(y),
        encoder::low_band_rate(x) <= x,
        y <= 12_000 ==> 6 * encoder::low_band_rate(y) <= 5 * y < 6 * encoder::low_band_rate(y) + 6,
        encoder::low_band_rate(12_000) == 10_000,
        encoder::low_band_rate(16_000) == 13_500,
        encoder::low_band_rate(20_000) == 16_000,
        encoder::low_band_rate(24_000) == 18_000,
        encoder::low_band_rate(32_000) == 22_000,
        encoder::low_band_rate(64_000) == 38_000,
        y >= 64_000 ==> 2 * (encoder::low_band_rate(y) - 38_000) <= y - 64_000 <= 2 * (encoder::low_band_rate(y)
            - 38_000) + 1,
{
    lemma_low_band_line(x);
    lemma_low_band_line(y);
}

/// The piece of the line that a rate lies on.
proof fn lemma_low_band_line(x: int)
    requires
        0 <= x,
    ensures
        ({
            let r = encoder::low_band_rate(x);
            &&& x <= 12_000 ==> 12_000 * r <= 10_000 * x < 12_000 * (r + 1)
            &&& 12_000 <= x <= 16_000 ==> 8 * r <= 80_000 + 7 * (x - 12_000) < 8 * (r + 1)
            &&& 16_000 <= x <= 20_000 ==> 8 * r <= 108_000 + 5 * (x - 16_000) < 8 * (r + 1)
            &&& 20_000 <= x <= 24_000 ==> 2 * r <= 32_000 + (x - 20_000) < 2 * (r + 1)
            &&& 24_000 <= x <= 32_000 ==> 2 * r <= 36_000 + (x - 24_000) < 2 * (r + 1)
            &&& 32_000 <= x <= 64_000 ==> 2 * r <= 44_000 + (x - 32_000) < 2 * (r + 1)
            &&& 64_000 <= x ==> 2 * r <= 76_000 + (x - 64_000) < 2 * (r + 1)
        }),
{
    if x < 12_000 {
        lemma_between(x, 0, 12_000, 0, 10_000);
    } else if x < 16_000 {
        lemma_between(x, 12_000, 4_000, 10_000, 13_500);
    } else if x < 20_000 {
        lemma_between(x, 16_000, 4_000, 13_500, 16_000);
    } else if x < 24_000 {
        lemma_between(x, 20_000, 4_000, 16_000, 18_000);
    } else if x < 32_000 {
        lemma_between(x, 24_000, 8_000, 18_000, 22_000);
    } else if x < 64_000 {
        lemma_between(x, 32_000, 32_000, 22_000, 38_000);
    }
}

/// A stereo stream's low band is that of two mono streams of half the rate, and the
/// narrower of the two bandwidths gives each channel 300 bits per second more.
pub proof fn lemma_low_band_shares(rate: int)
    requires
        0 <= rate,
    ensures
        encoder::silk_rate(rate, false, 2) == 2 * encoder::silk_rate(rate / 2, false, 1),
        encoder::silk_rate(rate, true, 2) == 2 * encoder::silk_rate(rate / 2, true, 1),
        encoder::silk_rate(rate, true, 1) == encoder::silk_rate(rate, false, 1) + 300,
        encoder::silk_rate(rate, false, 1) == encoder::low_band_rate(rate),
{
    assert(rate / 1 == rate);
}

/// A hybrid plan gives its low band what such a stream of its rate gives it.
pub proof fn lemma_hybrid_low_band(e: OpusEncoder, n: int, max_bytes: int)
    requires
        e.wf(),
        e.hybrid_plan(n * e.channels, max_bytes) is Ok,
        e.target_bitrate is Some ==> e.target_bitrate->0 <= 0x7FFF_FFFF,
    ensures
        ({
            let p = e.hybrid_plan(n * e.channels, max_bytes)->Ok_0;
            let rate = match e.target_bitrate {
                None => 32_000int,
                Some(b) => b as int,
            };
            let extra = if e.bandwidth == Bandwidth::SuperWideBand {
                300int
            } else {
                0
            };
            p.silk_bps == if e.coded() == 2 {
                2 * (encoder::low_band_rate(rate / 2) + extra)
            } else {
                encoder::low_band_rate(rate) + extra
            }
        }),
{
    lemma_samples(e, n);
    let rate = match e.target_bitrate {
        None => 32_000int,
        Some(b) => b as int,
    };
    lemma_low_band_rate(rate, rate);
    lemma_low_band_rate(rate / 2, rate / 2);
    assert(rate / 1 == rate);
}

/// Whether linear prediction alone reaches a bandwidth.
pub open spec fn within_reach(bw: Bandwidth) -> bool {
    bw == Bandwidth::NarrowBand || bw == Bandwidth::MediumBand || bw == Bandwidth::WideBand
}

/// Clear speech with a voice hint, or in a call, goes to the speech coders at any rate,
/// unless the least delay is needed: to linear prediction where that reaches the
/// bandwidth, else to both.
pub proof fn lemma_clear_speech(e: OpusEncoder, bw: Bandwidth)
    requires
        e.application != Application::RestrictedLowDelay,
        e.signal == Signal::Voice || e.application == Application::Voip,
    ensures
        within_reach(bw) ==> e.mode_spec(bw, false, true) == ChosenMode::Silk,
        !within_reach(bw) ==> e.mode_spec(bw, false, true) == ChosenMode::Hybrid,
        forall|n: int|
            n == 480 || n == 960 ==> #[trigger] e.auto_spec(n, false, true) == Ok::<AutoPlan, EncodeError>(
                if within_reach(e.bandwidth) {
                    AutoPlan::Silk
                } else {
                    AutoPlan::HybridOrCelt
                },
            ),
{
}

/// At a low rate, up to 24 kb/s where linear prediction reaches the bandwidth and up to
/// 40 kb/s beyond, all but music goes to the speech coders, whatever the hints.
pub proof fn lemma_low_rate(e: OpusEncoder, bw: Bandwidth, spoken: bool)
    requires
        e.application != Application::RestrictedLowDelay,
        e.target_bitrate is Some,
        e.target_bitrate->0 <= if within_reach(bw) {
            24_000int
        } else {
            40_000
        },
    ensures
        e.mode_spec(bw, false, spoken) == if within_reach(bw) {
            ChosenMode::Silk
        } else {
            ChosenMode::Hybrid
        },
        e.mode_spec(bw, true, spoken) == ChosenMode::Celt,
{
}

/// At a higher rate, or where none is set, only speech that was asked for goes to the
/// speech coders: without a voice hint outside a call, or where the signal is not clearly
/// speech, a frame is transform coded.
pub proof fn lemma_high_rate(e: OpusEncoder, bw: Bandwidth, musical: bool, spoken: bool)
    requires
        e.target_bitrate is Some ==> e.target_bitrate->0 > if within_reach(bw) {
            24_000int
        } else {
            40_000
        },
        !spoken || e.signal != Signal::Voice && e.application != Application::Voip,
    ensures
        e.mode_spec(bw, musical, spoken) == ChosenMode::Celt,
{
}

/// Each coder gets only bandwidths that it can code, and more rate never moves a frame from
/// the transform coder to the speech coders.
pub proof fn lemma_modes(e: OpusEncoder, bw: Bandwidth, musical: bool, spoken: bool, more: u32)
    requires
        e.target_bitrate is Some,
        e.target_bitrate->0 <= more,
    ensures
        e.mode_spec(bw, musical, spoken) == ChosenMode::Silk ==> within_reach(bw),
        e.mode_spec(bw, musical, spoken) == ChosenMode::Hybrid ==> !within_reach(bw),
        e.mode_spec(bw, false, spoken) == ChosenMode::Celt ==> (OpusEncoder { target_bitrate: Some(more), ..e }).mode_spec(
            bw,
            false,
            spoken,
        ) == ChosenMode::Celt,
{
}

/// A frame of 10 or 20 ms goes where the mode of its bandwidth says.
pub proof fn lemma_auto_mode(e: OpusEncoder, n: int, musical: bool, spoken: bool)
    requires
        n == 480 || n == 960,
    ensures
        match e.mode_spec(e.bandwidth, musical, spoken) {
            ChosenMode::Silk => e.auto_spec(n, musical, spoken) == Ok::<AutoPlan, EncodeError>(AutoPlan::Silk),
            ChosenMode::Hybrid => e.auto_spec(n, musical, spoken) == Ok::<AutoPlan, EncodeError>(
                AutoPlan::HybridOrCelt,
            ),
            ChosenMode::Celt => e.auto_spec(n, musical, spoken) == Ok::<AutoPlan, EncodeError>(AutoPlan::Celt),
        },
{
}

/// The analysis is left out only where no outcome of it could change the mode, and is made
/// wherever two outcomes lead to two modes.
pub proof fn lemma_analysis_needed(e: OpusEncoder, a: (bool, bool), b: (bool, bool))
    requires
        e.mode_spec(e.bandwidth, a.0, a.1) != e.mode_spec(e.bandwidth, b.0, b.1),
    ensures
        e.uses_analysis(),
{
}

/// The place of a bandwidth among the five, from the narrowest on.
pub open spec fn place(bw: Bandwidth) -> int {
    match bw {
        Bandwidth::NarrowBand => 0,
        Bandwidth::MediumBand => 1,
        Bandwidth::WideBand => 2,
        Bandwidth::SuperWideBand => 3,
        Bandwidth::FullBand => 4,
    }
}

/// The least rate, in bits per second, that fills the bandwidth at a place.
pub open spec fn least_rate(k: int) -> int {
    if k <= 0 {
        0
    } else if k == 1 {
        11_000
    } else if k == 2 {
        14_000
    } else if k == 3 {
        24_000
    } else {
        42_000
    }
}

/// The bandwidth that is chosen for a frame of 10 or 20 ms reaches as far as the signal, the
/// setting and the rate all reach, and no farther.
pub proof fn lemma_chosen_bandwidth(e: OpusEncoder, n: int, detected: Bandwidth, k: int)
    requires
        !e.bandwidth_forced,
        n == 480 || n == 960,
        0 <= k <= 4,
    ensures
        ({
            let r = e.with_bandwidth(n, detected);
            &&& place(r.bandwidth) >= k <==> {
                &&& place(detected) >= k
                &&& place(e.max_bandwidth) >= k
                &&& e.target_bitrate is None || e.target_bitrate->0 >= least_rate(k)
            }
            &&& r == (OpusEncoder { bandwidth: r.bandwidth, ..e })
        }),
{
}

/// The detected bandwidth holds every part of the spectrum that counts, and is no wider than
/// the highest of these.
pub proof fn lemma_detected(above: Seq<bool>, k: int)
    requires
        above.len() == 4,
        0 <= k < 4,
    ensures
        above[k] ==> place(encoder::detected_spec(above)) > k,
        place(encoder::detected_spec(above)) == k + 1 ==> above[k],
{
}

/// A bandwidth that the caller forced is kept, and that of a frame of another duration too.
pub proof fn lemma_kept_bandwidth(e: OpusEncoder, n: int, detected: Bandwidth)
    requires
        e.bandwidth_forced || n != 480 && n != 960,
    ensures
        e.with_bandwidth(n, detected) == e,
{
}

/// The encoder after `k` frames of `n` samples without activity.
pub open spec fn after_silence(e: OpusEncoder, n: int, k: nat) -> OpusEncoder
    decreases k,
{
    if k == 0 {
        e
    } else {
        after_silence(e, n, (k - 1) as nat).dtx_step(n, false).0
    }
}

/// Without activity from a moment on, frames go on being sent for 200 ms, then none is for
/// 400 ms, each standing for itself by the head of the last packet.
pub proof fn lemma_silence(e: OpusEncoder, n: int, k: nat)
    requires
        e.use_dtx,
        e.dtx_no_activity_q1 == 0,
        e.repeats_head(),
        n == 480 || n == 960 || n == 1920 || n == 2880,
        k * n <= 28_800,
    ensures
        ({
            let s = after_silence(e, n, k);
            &&& s.dtx_no_activity_q1 * 24 == k * n
            &&& s.use_dtx
            &&& s.repeats_head()
            &&& s.last_toc == e.last_toc
            &&& (k + 1) * n <= 9_600 ==> s.dtx_step(n, false).1 is None
            &&& 9_600 < (k + 1) * n <= 28_800 ==> s.dtx_step(n, false).1 == Some(e.last_toc)
            &&& (k + 1) * n > 28_800 ==> s.dtx_step(n, false).1 is None
        }),
    decreases k,
{
    if k > 0 {
        assert((k - 1) * n <= k * n) by (nonlinear_arith)
            requires
                n >= 0,
        ;
        assert((k - 1 + 1) * n == (k - 1) * n + n) by (nonlinear_arith);
        lemma_silence(e, n, (k - 1) as nat);
    } else {
        assert(0 * n == 0) by (nonlinear_arith);
    }
    assert((k + 1) * n == k * n + n) by (nonlinear_arith);
}

/// Once a frame was sent again after 600 ms, none is for another 400 ms.
pub proof fn lemma_sent_again(e: OpusEncoder, n: int)
    requires
        e.use_dtx,
        0 <= e.dtx_no_activity_q1 <= 1200,
        e.repeats_head(),
        n == 480 || n == 960 || n == 1920 || n == 2880,
        e.dtx_no_activity_q1 * 24 + n > 28_800,
    ensures
        e.dtx_step(n, false).1 is None,
        e.dtx_step(n, false).0.dtx_no_activity_q1 * 24 == 9_600,
        e.dtx_step(n, false).0.dtx_step(n, false).1 == Some(e.last_toc),
{
}

/// A frame with activity is always sent, and the time without activity starts anew with it,
/// as it does with a frame below 10 ms; with discontinuous transmission off, every frame is
/// sent and nothing is counted.
pub proof fn lemma_activity(e: OpusEncoder, n: int, active: bool)
    requires
        0 <= e.dtx_no_activity_q1 <= 1200,
        n > 0,
    ensures
        active || n < 480 || !e.use_dtx ==> e.dtx_step(n, active).1 is None,
        e.use_dtx && (active || n < 480) ==> e.dtx_step(n, active).0.dtx_no_activity_q1 == 0,
        !e.use_dtx ==> e.dtx_step(n, active).0 == e,
        e.last_toc == 0 ==> e.dtx_step(n, active).1 is None,
        e.dtx_step(n, active).1 is Some ==> e.dtx_step(n, active).1->0 == e.last_toc,
{
}

/// The channels that are coded are those forced, but never more than there are.
pub proof fn lemma_coded_channels(e: OpusEncoder)
    requires
        e.wf(),
    ensures
        e.force_channels is None ==> e.coded() == e.channels,
        e.force_channels == Some(1usize) ==> e.coded() == 1,
        e.force_channels == Some(2usize) ==> e.coded() == e.channels,
{
}

/// A reset keeps every setting and forgets every frame: the encoder then does what a new one
/// with these settings does.
pub proof fn lemma_reset(e: OpusEncoder, len: int, max_bytes: int)
    requires
        e.wf(),
    ensures
        ({
            let r = e.as_new();
            &&& r.channels == e.channels
            &&& r.bandwidth == e.bandwidth
            &&& r.target_bitrate == e.target_bitrate
            &&& r.use_dtx == e.use_dtx
            &&& r.complexity == e.complexity
            &&& r.vbr == e.vbr
            &&& r.force_channels == e.force_channels
            &&& r.signal == e.signal
            &&& r.application == e.application
            &&& r.max_bandwidth == e.max_bandwidth
            &&& r.bandwidth_forced == e.bandwidth_forced
            &&& r.use_inband_fec == e.use_inband_fec
            &&& r.packet_loss_perc == e.packet_loss_perc
            &&& r.last_toc == 0
            &&& r.last_final_range == 0
            &&& r.dtx_no_activity_q1 == 0
            &&& r.setup() is None
            &&& r.celt.frames == 0
            &&& r.celt_plan(len, max_bytes) == e.celt_plan(len, max_bytes)
            &&& r.as_new() == r
        }),
{
}

/// The frames of a file of whole samples hold all of them, each once and in order: the first
/// begins at the start, each begins where the one before ends, and the last ends at the end. No
/// frame holds more than 20 ms, and only the last one less.
pub proof fn lemma_file_frames(len: int, channels: int, f: int)
    requires
        channels == 1 || channels == 2,
        len > 0,
        len % channels == 0,
        0 <= f < encoder::ogg_frames(len, channels),
    ensures
        ({
            let n = encoder::ogg_frames(len, channels);
            let (from, to) = encoder::ogg_bounds(len, channels, f);
            &&& from < to <= len
            &&& to - from <= 960 * channels
            &&& f < n - 1 ==> to - from == 960 * channels && encoder::ogg_bounds(len, channels, f + 1).0 == to
            &&& f == 0 ==> from == 0
            &&& f == n - 1 ==> to == len
        }),
{
    let n = encoder::ogg_frames(len, channels);
    if channels == 1 {
        assert(len / 1 == len);
        assert(f * (960 * channels) == 960 * f && (f + 1) * (960 * channels) == 960 * f + 960) by (nonlinear_arith)
            requires
                channels == 1,
        ;
    } else {
        assert(len == 2 * (len / 2));
        assert(f * (960 * channels) == 1920 * f && (f + 1) * (960 * channels) == 1920 * f + 1920) by (nonlinear_arith)
            requires
                channels == 2,
        ;
    }
}

/// A hybrid frame says that it has no redundant frame where the decoder asks, and where it does
/// not, nothing is said.
pub proof fn lemma_no_redundancy(e: EncoderState, d: DecoderState, nb_bytes: int)
    requires
        0 <= nb_bytes <= 1275,
        e.tell() == d.tell(),
        !d.bit(12),
    ensures
        ({
            let r = decoder::redundancy_spec(d, Mode::Hybrid, nb_bytes);
            &&& !r.redundancy.present && r.redundancy.len == nb_bytes
            &&& d.tell() + 37 <= 8 * nb_bytes ==> r.dec == d.after_bit(12) && encoder::put_no_redundancy(e, nb_bytes)
                == e.after_bit(false, 12)
            &&& d.tell() + 37 > 8 * nb_bytes ==> r.dec == d && encoder::put_no_redundancy(e, nb_bytes) == e
        }),
{
}

/// A new encoder has no rate set, follows the signal up to the full bandwidth, sends every frame
/// at a varying rate, and has sent nothing yet.
pub proof fn lemma_new(channels: usize)
    requires
        channels == 1 || channels == 2,
    ensures
        ({
            let e = OpusEncoder::fresh(channels);
            &&& e.wf()
            &&& e.channels == channels && e.coded() == channels
            &&& e.target_bitrate is None
            &&& e.vbr && !e.use_dtx && !e.use_inband_fec && e.packet_loss_perc == 0
            &&& e.bandwidth == Bandwidth::FullBand && !e.bandwidth_forced
            &&& e.complexity == 5
            &&& e.application == Application::Audio
            &&& e.signal == Signal::Auto
            &&& e.max_bandwidth == Bandwidth::FullBand
            &&& e.setup() is None
            &&& e.last_toc == 0 && e.last_final_range == 0
            &&& e.as_new() == e
        }),
{
}

/// A planned transform frame is read from all its bytes, in the channels that are coded, with all
/// bands from the first on.
pub proof fn lemma_celt_input(e: OpusEncoder, n: int, max_bytes: int)
    requires
        e.wf(),
        e.celt_plan(n * e.channels, max_bytes) is Ok,
    ensures
        ({
            let p = e.celt_plan(n * e.channels, max_bytes)->Ok_0;
            let i = e.celt_input(n * e.channels, max_bytes);
            &&& i.wf()
            &&& i.bytes == p.nb_bytes
            &&& i.c == e.coded()
            &&& 120 * crate::celt::modes::frame_mult(i.lm) == n
            &&& i.start == 0
            &&& i.end == p.end
        }),
{
    lemma_samples(e, n);
}

/// The analysis is made only where it decides: clear speech and music then go different ways.
pub proof fn lemma_analysis_decides(e: OpusEncoder)
    requires
        e.uses_analysis(),
    ensures
        e.mode_spec(e.bandwidth, false, true) != e.mode_spec(e.bandwidth, true, false),
{
}

} // verus!
