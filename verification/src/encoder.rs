//! The decisions of the Opus encoder: its settings, which coder a frame goes to,
//! how its bytes are divided, and how its packet is headed.

pub mod laws;

use vstd::prelude::*;

use crate::celt::coder::{lemma_encoded_round_trip, lemma_frame_seed, lemma_sendable, HeadCoded, TailCoded};
use crate::celt::decoder::{CeltDecoder, FrameInput};
use crate::celt::encoder::{CeltEncoder, FrontInput};
use crate::decoder::{self, end_band, OpusDecoder};
use crate::math::{self, lemma_mul_range};
use crate::ogg::opus::{self, lemma_file_round_trip, HeadView, MappingView, OggOpusWriter, OpusHead, OpusTags, OpusWriterView, TagsView};
use crate::ogg::page::NO_GRANULE;
use crate::packet::{Bandwidth, Mode, Toc};
use crate::range::decoder::DecoderState;
use crate::range::encoder::EncoderState;
use crate::range::RangeEncoder;

verus! {

/// What the caller knows of the signal.
#[derive(Clone, Copy, Debug, PartialEq, Eq, Structural)]
pub enum Signal {
    /// Nothing.
    Auto,
    /// It is speech.
    Voice,
    /// It is music.
    Music,
}

/// What the stream is for.
#[derive(Clone, Copy, Debug, PartialEq, Eq, Structural)]
pub enum Application {
    /// Calls.
    Voip,
    /// Any audio.
    Audio,
    /// Whatever needs the least delay: linear prediction, which adds to it, is never used,
    /// so that every frame is transform coded.
    RestrictedLowDelay,
}

/// Why a frame was not encoded.
#[derive(Clone, Copy, Debug, PartialEq, Eq, Structural)]
pub enum EncodeError {
    /// The mode has no frame of so many samples.
    InvalidFrameSize,
    /// The byte budget is out of range, or the frame did not fit it.
    InvalidBudget,
}

/// The coder that a frame goes to.
#[derive(Clone, Copy, Debug, PartialEq, Eq, Structural)]
pub enum ChosenMode {
    /// Linear prediction.
    Silk,
    /// Both.
    Hybrid,
    /// Transform.
    Celt,
}

/// The narrowest bandwidth that holds nearly all of a signal.
pub open spec fn detected_spec(above: Seq<bool>) -> Bandwidth {
    if above[3] {
        Bandwidth::FullBand
    } else if above[2] {
        Bandwidth::SuperWideBand
    } else if above[1] {
        Bandwidth::WideBand
    } else if above[0] {
        Bandwidth::MediumBand
    } else {
        Bandwidth::NarrowBand
    }
}

/// The narrowest bandwidth that holds nearly all of a signal: `above` says which
/// of the parts of 4 to 6 kHz, 6 to 8 kHz, 8 to 12 kHz and beyond hold more than a
/// fiftieth of it.
pub fn detected_bandwidth(above: [bool; 4]) -> (r: Bandwidth)
    ensures
        r == detected_spec(above@),
{
    if above[3] {
        Bandwidth::FullBand
    } else if above[2] {
        Bandwidth::SuperWideBand
    } else if above[1] {
        Bandwidth::WideBand
    } else if above[0] {
        Bandwidth::MediumBand
    } else {
        Bandwidth::NarrowBand
    }
}

/// The value at `x` on the straight line from `(x0, lo)` to `(x0 + width, hi)`,
/// rounded toward zero.
pub open spec fn between(x: int, x0: int, width: int, lo: int, hi: int) -> int {
    math::div_trunc(lo * (x0 + width - x) + hi * (x - x0), width)
}

/// The bits per second of the low band of one channel of a hybrid stream that has
/// `x` bits per second: straight between seven points, and half of what is more
/// behind the last.
pub open spec fn low_band_rate(x: int) -> int {
    if x < 12_000 {
        between(x, 0, 12_000, 0, 10_000)
    } else if x < 16_000 {
        between(x, 12_000, 4_000, 10_000, 13_500)
    } else if x < 20_000 {
        between(x, 16_000, 4_000, 13_500, 16_000)
    } else if x < 24_000 {
        between(x, 20_000, 4_000, 16_000, 18_000)
    } else if x < 32_000 {
        between(x, 24_000, 8_000, 18_000, 22_000)
    } else if x < 64_000 {
        between(x, 32_000, 32_000, 22_000, 38_000)
    } else {
        38_000 + (x - 64_000) / 2
    }
}

/// The bits per second of the low band of a hybrid stream of `rate` bits per
/// second in all, a little more for the narrower of the two bandwidths.
pub open spec fn silk_rate(rate: int, swb: bool, channels: int) -> int {
    channels * (low_band_rate(math::div_trunc(rate, channels)) + (if swb {
        300int
    } else {
        0
    }))
}

/// The bits per second of the low band of a hybrid stream of `rate` bits per
/// second in all.
pub fn compute_silk_rate_for_hybrid(rate: i32, swb: bool, channels: i32) -> (r: i32)
    requires
        channels == 1 || channels == 2,
    ensures
        r == silk_rate(rate as int, swb, channels as int),
{
    let x: i64 = if channels == 1 {
        rate as i64
    } else {
        rate as i64 / 2
    };
    let base: i64 = if x < 12_000 {
        10_000 * x / 12_000
    } else if x < 16_000 {
        (10_000 * (16_000 - x) + 13_500 * (x - 12_000)) / 4_000
    } else if x < 20_000 {
        (13_500 * (20_000 - x) + 16_000 * (x - 16_000)) / 4_000
    } else if x < 24_000 {
        (16_000 * (24_000 - x) + 18_000 * (x - 20_000)) / 4_000
    } else if x < 32_000 {
        (18_000 * (32_000 - x) + 22_000 * (x - 24_000)) / 8_000
    } else if x < 64_000 {
        (22_000 * (64_000 - x) + 38_000 * (x - 32_000)) / 32_000
    } else {
        38_000 + (x - 64_000) / 2
    };
    let one: i64 = if swb {
        base + 300
    } else {
        base
    };
    if channels == 1 {
        one as i32
    } else {
        (2 * one) as i32
    }
}

/// The bits of the low band of a hybrid frame, at most: three bytes for each high
/// band and three more are kept from it, but not the last eight.
pub open spec fn low_band_cap(nb_bytes: int, end: int) -> int {
    8 * math::max(nb_bytes - (3 * (end - 17) + 3), 8)
}

fn low_band_bits(nb_bytes: usize, end: usize) -> (r: usize)
    requires
        nb_bytes <= 1275,
        17 <= end <= 21,
    ensures
        r == low_band_cap(nb_bytes as int, end as int),
{
    let floor: usize = 3 * (end - 17) + 3;
    if nb_bytes < floor + 8 {
        64
    } else {
        8 * (nb_bytes - floor)
    }
}

/// A number of bits per second as the coders take it.
pub open spec fn signed_rate(b: u32) -> int {
    if b < 0x8000_0000 {
        b as int
    } else {
        b - 0x1_0000_0000
    }
}

fn signed(b: u32) -> (r: i32)
    ensures
        r == signed_rate(b),
{
    if b < 0x8000_0000 {
        b as i32
    } else {
        (b as i64 - 0x1_0000_0000) as i32
    }
}

/// How a transform frame is encoded.
#[derive(Clone, Copy, Debug, PartialEq, Eq, Structural)]
pub struct CeltPlan {
    /// The byte that heads the packet.
    pub toc: u8,
    /// The frame size's exponent.
    pub lm: usize,
    /// The first band above those that are coded.
    pub end: usize,
    /// The bytes behind the head.
    pub nb_bytes: usize,
    /// The bits per second of a variable rate; none fills the bytes.
    pub target_bitrate: Option<u32>,
}

/// How a linear-prediction frame is encoded.
#[derive(Clone, Copy, Debug, PartialEq, Eq, Structural)]
pub struct SilkPlan {
    /// The byte that heads the packet.
    pub toc: u8,
    /// The coded rate in kHz.
    pub internal_khz: u32,
    /// The parts of a frame.
    pub nb_subfr: usize,
    /// The bits per second.
    pub bitrate: i32,
    /// The channels that are coded.
    pub channels: usize,
    /// The coder must be set up anew.
    pub fresh: bool,
    /// The bytes behind the head, at most.
    pub cap: usize,
}

/// The bytes of the smallest hybrid payload.
pub const HYBRID_LEAST: usize = 20;

/// How a hybrid frame is encoded.
#[derive(Clone, Copy, Debug, PartialEq, Eq, Structural)]
pub struct HybridPlan {
    /// The byte that heads the packet.
    pub toc: u8,
    /// The parts of a low band's frame.
    pub nb_subfr: usize,
    /// The first band above those that are coded.
    pub end: usize,
    /// The bytes behind the head.
    pub nb_bytes: usize,
    /// The bits per second of the low band.
    pub silk_bps: i32,
    /// The bits of the low band, at most.
    pub silk_bits: usize,
    /// The channels that are coded.
    pub channels: usize,
    /// The low band's coder must be set up anew.
    pub fresh: bool,
}

/// What is done with a frame whose mode is chosen automatically.
#[derive(Clone, Copy, Debug, PartialEq, Eq, Structural)]
pub enum AutoPlan {
    /// It goes to the transform coder.
    Celt,
    /// It goes to the linear-prediction coder.
    Silk,
    /// It goes to both, or to the transform coder alone where that fails.
    HybridOrCelt,
}

/// The set-up of a linear-prediction coder: its rate in kHz and the parts of a
/// frame.
#[derive(Clone, Copy, Debug, PartialEq, Eq, Structural)]
pub struct SilkSetup {
    pub khz: u32,
    pub nb_subfr: usize,
}

/// The settings of the Opus encoder, and its state between packets without the
/// signal's.
#[derive(Clone, Copy, Debug, PartialEq, Eq, Structural)]
pub struct OpusEncoder {
    pub celt: CeltEncoder,
    pub channels: usize,
    pub bandwidth: Bandwidth,
    /// How the mono low-band coder is set up, if it is.
    pub silk: Option<SilkSetup>,
    /// How the stereo low-band coder is set up, if it is.
    pub silk_stereo: Option<SilkSetup>,
    pub target_bitrate: Option<u32>,
    /// The final range of the last packet.
    pub last_final_range: u32,
    pub use_dtx: bool,
    /// The time without activity, in halves of a millisecond.
    pub dtx_no_activity_q1: i32,
    /// The head of the last packet.
    pub last_toc: u8,
    pub complexity: u8,
    pub vbr: bool,
    pub force_channels: Option<usize>,
    pub signal: Signal,
    pub application: Application,
    pub max_bandwidth: Bandwidth,
    pub bandwidth_forced: bool,
    pub use_inband_fec: bool,
    pub packet_loss_perc: u8,
}

/// The time without activity after which nothing is sent, and after which one
/// frame is sent again, in halves of a millisecond.
pub const BEFORE_DTX_Q1: i32 = 400;

pub const MAX_DTX_Q1: i32 = 1200;

/// The fixed bytes of a frame of `n` samples at a constant rate.
pub open spec fn cbr_bytes(bitrate: u32, n: int, most: int) -> int {
    math::min(math::max(bitrate * n / 384_000, 2), most)
}

impl OpusEncoder {
    /// What holds of an encoder.
    pub open spec fn wf(self) -> bool {
        &&& self.channels == 1 || self.channels == 2
        &&& self.celt.wf()
        &&& self.celt.channels == self.coded()
        &&& self.celt.complexity == self.complexity
        &&& self.celt.target_bitrate == self.target_bitrate
        &&& match self.force_channels {
            None => true,
            Some(n) => n == 1 || n == 2,
        }
        &&& self.complexity <= 10
        &&& self.packet_loss_perc <= 100
        &&& 0 <= self.dtx_no_activity_q1 <= MAX_DTX_Q1
    }

    /// The channels that are coded.
    pub open spec fn coded(self) -> usize {
        match self.force_channels {
            None => self.channels,
            Some(n) => if n < self.channels {
                n
            } else {
                self.channels
            },
        }
    }

    /// An encoder that has encoded nothing yet.
    pub open spec fn fresh(channels: usize) -> OpusEncoder {
        OpusEncoder {
            celt: CeltEncoder::fresh(channels),
            channels,
            bandwidth: Bandwidth::FullBand,
            silk: None,
            silk_stereo: None,
            target_bitrate: None,
            last_final_range: 0,
            use_dtx: false,
            dtx_no_activity_q1: 0,
            last_toc: 0,
            complexity: 5,
            vbr: true,
            force_channels: None,
            signal: Signal::Auto,
            application: Application::Audio,
            max_bandwidth: Bandwidth::FullBand,
            bandwidth_forced: false,
            use_inband_fec: false,
            packet_loss_perc: 0,
        }
    }

    /// An encoder of one or two channels.
    pub fn new(channels: usize) -> (r: OpusEncoder)
        requires
            channels == 1 || channels == 2,
        ensures
            r == OpusEncoder::fresh(channels),
            r.wf(),
    {
        OpusEncoder {
            celt: CeltEncoder::with_channels(channels),
            channels,
            bandwidth: Bandwidth::FullBand,
            silk: None,
            silk_stereo: None,
            target_bitrate: None,
            last_final_range: 0,
            use_dtx: false,
            dtx_no_activity_q1: 0,
            last_toc: 0,
            complexity: 5,
            vbr: true,
            force_channels: None,
            signal: Signal::Auto,
            application: Application::Audio,
            max_bandwidth: Bandwidth::FullBand,
            bandwidth_forced: false,
            use_inband_fec: false,
            packet_loss_perc: 0,
        }
    }

    /// The transform coder set up anew, with the encoder's settings.
    pub open spec fn fresh_celt(self, channels: usize) -> CeltEncoder {
        CeltEncoder {
            complexity: self.complexity,
            target_bitrate: self.target_bitrate,
            ..CeltEncoder::fresh(channels)
        }
    }

    fn make_celt(&self, channels: usize) -> (r: CeltEncoder)
        requires
            channels == 1 || channels == 2,
        ensures
            r == self.fresh_celt(channels),
            r.wf(),
    {
        let mut celt: CeltEncoder = CeltEncoder::with_channels(channels);
        celt.set_complexity(self.complexity);
        celt.set_target_bitrate(self.target_bitrate);
        celt
    }

    /// An encoder with the same settings that has encoded nothing yet.
    pub open spec fn as_new(self) -> OpusEncoder {
        OpusEncoder {
            celt: self.fresh_celt(self.coded()),
            bandwidth: self.bandwidth,
            target_bitrate: self.target_bitrate,
            use_dtx: self.use_dtx,
            complexity: self.complexity,
            vbr: self.vbr,
            force_channels: self.force_channels,
            signal: self.signal,
            application: self.application,
            max_bandwidth: self.max_bandwidth,
            bandwidth_forced: self.bandwidth_forced,
            use_inband_fec: self.use_inband_fec,
            packet_loss_perc: self.packet_loss_perc,
            ..OpusEncoder::fresh(self.channels)
        }
    }

    /// Forgets the frames so far and keeps the settings.
    pub fn reset(&mut self)
        requires
            old(self).wf(),
        ensures
            final(self).wf(),
            *final(self) == old(self).as_new(),
    {
        self.celt = self.make_celt(self.coded_channels());
        self.silk = None;
        self.silk_stereo = None;
        self.last_final_range = 0;
        self.dtx_no_activity_q1 = 0;
        self.last_toc = 0;
    }

    /// The channels.
    pub fn channels(&self) -> (r: usize)
        ensures
            r == self.channels,
    {
        self.channels
    }

    /// The channels that are coded.
    pub fn coded_channels(&self) -> (r: usize)
        ensures
            r == self.coded(),
    {
        match self.force_channels {
            None => self.channels,
            Some(n) => if n < self.channels {
                n
            } else {
                self.channels
            },
        }
    }

    /// Forces the number of channels that are coded, or lets it be that of the
    /// input. Where it changes, the coders are set up anew.
    pub fn set_force_channels(&mut self, force: Option<usize>)
        requires
            old(self).wf(),
            match force {
                None => true,
                Some(n) => n == 1 || n == 2,
            },
        ensures
            final(self).wf(),
            ({
                let next = OpusEncoder { force_channels: force, ..*old(self) };
                *final(self) == if next.coded() == old(self).coded() {
                    next
                } else {
                    OpusEncoder {
                        celt: next.fresh_celt(next.coded()),
                        silk: None,
                        silk_stereo: None,
                        ..next
                    }
                }
            }),
    {
        let before: usize = self.coded_channels();
        self.force_channels = force;
        let after: usize = self.coded_channels();
        if after != before {
            self.celt = self.make_celt(after);
            self.silk = None;
            self.silk_stereo = None;
        }
    }

    /// The forced number of channels.
    pub fn force_channels(&self) -> (r: Option<usize>)
        ensures
            r == self.force_channels,
    {
        self.force_channels
    }

    /// The depth of the analysis, 0 to 10.
    pub fn complexity(&self) -> (r: u8)
        ensures
            r == self.complexity,
    {
        self.complexity
    }

    /// The bits per second, if they are set.
    pub fn bitrate(&self) -> (r: Option<u32>)
        ensures
            r == self.target_bitrate,
    {
        self.target_bitrate
    }

    /// The bandwidth.
    pub fn bandwidth(&self) -> (r: Bandwidth)
        ensures
            r == self.bandwidth,
    {
        self.bandwidth
    }

    /// Whether silence is left out.
    pub fn dtx(&self) -> (r: bool)
        ensures
            r == self.use_dtx,
    {
        self.use_dtx
    }

    /// Sets whether the rate varies.
    pub fn set_vbr(&mut self, vbr: bool)
        ensures
            *final(self) == (OpusEncoder { vbr, ..*old(self) }),
    {
        self.vbr = vbr;
    }

    /// Whether the rate varies.
    pub fn vbr(&self) -> (r: bool)
        ensures
            r == self.vbr,
    {
        self.vbr
    }

    /// Sets the depth of the analysis; more than 10 counts as 10.
    pub fn set_complexity(&mut self, complexity: u8)
        ensures
            ({
                let c = math::min(complexity as int, 10) as u8;
                *final(self) == (OpusEncoder {
                    complexity: c,
                    celt: CeltEncoder { complexity: c, ..old(self).celt },
                    ..*old(self)
                })
            }),
            old(self).wf() ==> final(self).wf(),
    {
        let c: u8 = if complexity > 10 {
            10
        } else {
            complexity
        };
        self.complexity = c;
        self.celt.set_complexity(c);
    }

    /// Sets whether silence is left out.
    pub fn set_dtx(&mut self, on: bool)
        ensures
            *final(self) == (OpusEncoder { use_dtx: on, ..*old(self) }),
    {
        self.use_dtx = on;
    }

    /// Sets whether packets hold the low band of the packet before once more.
    pub fn set_inband_fec(&mut self, on: bool)
        ensures
            *final(self) == (OpusEncoder { use_inband_fec: on, ..*old(self) }),
    {
        self.use_inband_fec = on;
    }

    /// Whether packets hold the low band of the packet before once more.
    pub fn inband_fec(&self) -> (r: bool)
        ensures
            r == self.use_inband_fec,
    {
        self.use_inband_fec
    }

    /// Sets the percentage of packets that get lost; more than 100 counts as 100.
    pub fn set_packet_loss_perc(&mut self, perc: u8)
        ensures
            *final(self) == (OpusEncoder {
                packet_loss_perc: math::min(perc as int, 100) as u8,
                ..*old(self)
            }),
    {
        self.packet_loss_perc = if perc > 100 {
            100
        } else {
            perc
        };
    }

    /// The percentage of packets that get lost.
    pub fn packet_loss_perc(&self) -> (r: u8)
        ensures
            r == self.packet_loss_perc,
    {
        self.packet_loss_perc
    }

    /// Forces the bandwidth.
    pub fn set_bandwidth(&mut self, bandwidth: Bandwidth)
        ensures
            *final(self) == (OpusEncoder { bandwidth, bandwidth_forced: true, ..*old(self) }),
    {
        self.bandwidth = bandwidth;
        self.bandwidth_forced = true;
    }

    /// Lets the bandwidth follow the signal.
    pub fn set_auto_bandwidth(&mut self)
        ensures
            *final(self) == (OpusEncoder { bandwidth_forced: false, ..*old(self) }),
    {
        self.bandwidth_forced = false;
    }

    /// Whether the bandwidth is forced.
    pub fn bandwidth_forced(&self) -> (r: bool)
        ensures
            r == self.bandwidth_forced,
    {
        self.bandwidth_forced
    }

    /// What the caller knows of the signal.
    pub fn signal(&self) -> (r: Signal)
        ensures
            r == self.signal,
    {
        self.signal
    }

    /// Sets what the caller knows of the signal.
    pub fn set_signal(&mut self, signal: Signal)
        ensures
            *final(self) == (OpusEncoder { signal, ..*old(self) }),
    {
        self.signal = signal;
    }

    /// What the stream is for.
    pub fn application(&self) -> (r: Application)
        ensures
            r == self.application,
    {
        self.application
    }

    /// Sets what the stream is for.
    pub fn set_application(&mut self, application: Application)
        ensures
            *final(self) == (OpusEncoder { application, ..*old(self) }),
    {
        self.application = application;
    }

    /// The widest bandwidth that is chosen.
    pub fn max_bandwidth(&self) -> (r: Bandwidth)
        ensures
            r == self.max_bandwidth,
    {
        self.max_bandwidth
    }

    /// Sets the widest bandwidth that is chosen.
    pub fn set_max_bandwidth(&mut self, bandwidth: Bandwidth)
        ensures
            *final(self) == (OpusEncoder { max_bandwidth: bandwidth, ..*old(self) }),
    {
        self.max_bandwidth = bandwidth;
    }

    /// Sets the bits per second, or leaves them open.
    pub fn set_bitrate(&mut self, bitrate: Option<u32>)
        ensures
            *final(self) == (OpusEncoder {
                target_bitrate: bitrate,
                celt: CeltEncoder { target_bitrate: bitrate, ..old(self).celt },
                ..*old(self)
            }),
            old(self).wf() ==> final(self).wf(),
    {
        self.celt.set_target_bitrate(bitrate);
        self.target_bitrate = bitrate;
    }

    /// The final range of the last packet.
    pub fn final_range(&self) -> (r: u32)
        ensures
            r == self.last_final_range,
    {
        self.last_final_range
    }

    /// The samples at 48 kHz by which the output is late.
    pub fn lookahead(&self) -> (r: u32)
        ensures
            r == 120,
    {
        120
    }

    /// What comes of a frame of `ms_q1` halves of a millisecond: whether nothing is
    /// sent for it, and the time without activity.
    pub open spec fn dtx_spec(self, active: bool, ms_q1: int) -> (bool, int) {
        let t = self.dtx_no_activity_q1 + ms_q1;
        if active {
            (false, 0)
        } else if t <= BEFORE_DTX_Q1 {
            (false, t)
        } else if t <= MAX_DTX_Q1 {
            (true, t)
        } else {
            (false, BEFORE_DTX_Q1 as int)
        }
    }

    /// Decides whether nothing is sent for a frame: after 200 ms without activity,
    /// but one frame every 400 ms.
    pub fn decide_dtx(&mut self, active: bool, frame_ms_q1: i32) -> (r: bool)
        requires
            0 <= old(self).dtx_no_activity_q1 <= MAX_DTX_Q1,
            0 <= frame_ms_q1 <= i32::MAX - MAX_DTX_Q1,
        ensures
            r == old(self).dtx_spec(active, frame_ms_q1 as int).0,
            *final(self) == (OpusEncoder {
                dtx_no_activity_q1: old(self).dtx_spec(active, frame_ms_q1 as int).1 as i32,
                ..*old(self)
            }),
            0 <= final(self).dtx_no_activity_q1 <= MAX_DTX_Q1,
    {
        if active {
            self.dtx_no_activity_q1 = 0;
            return false;
        }
        self.dtx_no_activity_q1 = self.dtx_no_activity_q1 + frame_ms_q1;
        if self.dtx_no_activity_q1 > BEFORE_DTX_Q1 {
            if self.dtx_no_activity_q1 <= MAX_DTX_Q1 {
                return true;
            }
            self.dtx_no_activity_q1 = BEFORE_DTX_Q1;
        }
        false
    }

    /// The widest bandwidth that a rate can fill.
    pub open spec fn rate_cap(self) -> Bandwidth {
        match self.target_bitrate {
            None => Bandwidth::FullBand,
            Some(b) => if b < 11_000 {
                Bandwidth::NarrowBand
            } else if b < 14_000 {
                Bandwidth::MediumBand
            } else if b < 24_000 {
                Bandwidth::WideBand
            } else if b < 42_000 {
                Bandwidth::SuperWideBand
            } else {
                Bandwidth::FullBand
            },
        }
    }

    /// The bandwidth for a signal: the narrowest of what it takes, what the rate
    /// can fill and what is allowed.
    pub fn auto_bandwidth(&self, detected: Bandwidth) -> (r: Bandwidth)
        ensures
            r == detected.narrower_spec(self.rate_cap()).narrower_spec(self.max_bandwidth),
            r.rank_spec() <= detected.rank_spec(),
            r.rank_spec() <= self.max_bandwidth.rank_spec(),
    {
        let cap: Bandwidth = match self.target_bitrate {
            None => Bandwidth::FullBand,
            Some(b) => if b < 11_000 {
                Bandwidth::NarrowBand
            } else if b < 14_000 {
                Bandwidth::MediumBand
            } else if b < 24_000 {
                Bandwidth::WideBand
            } else if b < 42_000 {
                Bandwidth::SuperWideBand
            } else {
                Bandwidth::FullBand
            },
        };
        detected.narrower(cap).narrower(self.max_bandwidth)
    }

    /// Whether a bandwidth is within reach of linear prediction alone.
    pub open spec fn is_low(bw: Bandwidth) -> bool {
        bw.rank_spec() <= 2
    }

    /// The mode that the rate asks for where the signal is speech.
    pub open spec fn speech_mode(self, bw: Bandwidth) -> Option<ChosenMode> {
        match self.target_bitrate {
            None => None,
            Some(b) => if OpusEncoder::is_low(bw) && b <= 24_000 {
                Some(ChosenMode::Silk)
            } else if !OpusEncoder::is_low(bw) && b <= 40_000 {
                Some(ChosenMode::Hybrid)
            } else {
                None
            },
        }
    }

    /// Whether the caller asked for speech coding.
    pub open spec fn speech_requested(self) -> bool {
        self.signal == Signal::Voice || self.application == Application::Voip
    }

    /// The mode of a frame of bandwidth `bw`: `musical` says that the signal is
    /// very likely music, `spoken` that it is very likely speech.
    pub open spec fn mode_spec(self, bw: Bandwidth, musical: bool, spoken: bool) -> ChosenMode {
        if self.application == Application::RestrictedLowDelay {
            ChosenMode::Celt
        } else {
            match self.speech_mode(bw) {
                Some(mode) => if musical {
                    ChosenMode::Celt
                } else {
                    mode
                },
                None => if self.speech_requested() && spoken {
                    if OpusEncoder::is_low(bw) {
                        ChosenMode::Silk
                    } else {
                        ChosenMode::Hybrid
                    }
                } else {
                    ChosenMode::Celt
                },
            }
        }
    }

    /// Chooses the mode of a frame.
    pub fn decide_mode(&self, bw: Bandwidth, musical: bool, spoken: bool) -> (r: ChosenMode)
        ensures
            r == self.mode_spec(bw, musical, spoken),
    {
        if self.application == Application::RestrictedLowDelay {
            return ChosenMode::Celt;
        }
        let low: bool = bw.rank() <= 2;
        let speech: Option<ChosenMode> = match self.target_bitrate {
            None => None,
            Some(b) => if low && b <= 24_000 {
                Some(ChosenMode::Silk)
            } else if !low && b <= 40_000 {
                Some(ChosenMode::Hybrid)
            } else {
                None
            },
        };
        match speech {
            Some(mode) => if musical {
                ChosenMode::Celt
            } else {
                mode
            },
            None => {
                let requested: bool = self.signal == Signal::Voice || self.application == Application::Voip;
                if requested && spoken {
                    if low {
                        ChosenMode::Silk
                    } else {
                        ChosenMode::Hybrid
                    }
                } else {
                    ChosenMode::Celt
                }
            },
        }
    }

    /// Whether the mode can depend on the signal.
    pub open spec fn uses_analysis(self) -> bool {
        self.application != Application::RestrictedLowDelay && (self.speech_mode(self.bandwidth) is Some
            || self.speech_requested())
    }

    /// Whether the mode can depend on the signal.
    pub fn mode_decision_uses_analysis(&self) -> (r: bool)
        ensures
            r == self.uses_analysis(),
    {
        if self.application == Application::RestrictedLowDelay {
            return false;
        }
        let low: bool = self.bandwidth.rank() <= 2;
        let possible: bool = match self.target_bitrate {
            None => false,
            Some(b) => (low && b <= 24_000) || (!low && b <= 40_000),
        };
        possible || self.signal == Signal::Voice || self.application == Application::Voip
    }

    /// The samples per channel of `len` interleaved ones.
    pub open spec fn per_channel(self, len: int) -> Option<int> {
        if self.channels == 1 {
            Some(len)
        } else if len % 2 == 0 {
            Some(len / 2)
        } else {
            None
        }
    }

    fn split_len(&self, len: usize) -> (r: Option<usize>)
        requires
            self.wf(),
        ensures
            r is Some <==> self.per_channel(len as int) is Some,
            r is Some ==> r->0 == self.per_channel(len as int)->0,
    {
        if self.channels == 1 {
            Some(len)
        } else if len % 2 == 0 {
            Some(len / 2)
        } else {
            None
        }
    }

    /// Whether the activity of a frame of `len` samples is to be judged, for which
    /// nothing might be sent.
    pub fn wants_activity(&self, len: usize) -> (r: bool)
        requires
            self.wf(),
        ensures
            r == (self.use_dtx && self.per_channel(len as int) is Some && self.per_channel(len as int)->0 >= 480),
    {
        match self.split_len(len) {
            None => false,
            Some(n) => self.use_dtx && n >= 480,
        }
    }

    /// Whether the head of the last packet can stand for a frame that is not sent: there
    /// was one, and it is of the mode that what needs the least delay is kept to.
    pub open spec fn repeats_head(self) -> bool {
        self.last_toc != 0 && (self.application == Application::RestrictedLowDelay ==> self.last_toc >= 128)
    }

    /// The encoder after it was decided whether a frame is sent, and the head of
    /// the packet that stands for a frame that is not.
    pub open spec fn dtx_step(self, n: int, active: bool) -> (OpusEncoder, Option<u8>) {
        if !self.use_dtx {
            (self, None)
        } else if n < 480 {
            (OpusEncoder { dtx_no_activity_q1: 0, ..self }, None)
        } else {
            let (quiet, t) = self.dtx_spec(active, n / 24);
            let next = OpusEncoder { dtx_no_activity_q1: t as i32, ..self };
            if quiet && self.repeats_head() {
                (OpusEncoder { last_final_range: 0, ..next }, Some(self.last_toc))
            } else {
                (next, None)
            }
        }
    }

    /// Starts a frame of `len` samples: the head of the packet that stands for it
    /// where nothing is sent, an error where its length does not fit the channels.
    pub fn start_auto(&mut self, len: usize, active: bool) -> (r: Result<Option<u8>, EncodeError>)
        requires
            old(self).wf(),
            old(self).use_dtx && old(self).per_channel(len as int) is Some ==> old(self).per_channel(len as int)->0
                <= 1_073_741,
        ensures
            final(self).wf(),
            match old(self).per_channel(len as int) {
                None => r == Err::<Option<u8>, EncodeError>(EncodeError::InvalidFrameSize) && *final(self) == *old(
                    self,
                ),
                Some(n) => {
                    let (next, toc) = old(self).dtx_step(n, active);
                    r == Ok::<Option<u8>, EncodeError>(toc) && *final(self) == next
                },
            },
    {
        let n: usize = match self.split_len(len) {
            None => {
                return Err(EncodeError::InvalidFrameSize);
            },
            Some(n) => n,
        };
        if self.use_dtx {
            if n >= 480 {
                let last: u8 = self.last_toc;
                let fit: bool = last != 0 && (self.application != Application::RestrictedLowDelay || last >= 128);
                if self.decide_dtx(active, (n / 24) as i32) && fit {
                    self.last_final_range = 0;
                    return Ok(Some(last));
                }
            } else {
                self.dtx_no_activity_q1 = 0;
            }
        }
        Ok(None)
    }

    /// Whether a frame of `n` samples per channel is to be analysed.
    pub fn needs_analysis(&self, n: usize) -> (r: bool)
        ensures
            r == ((n == 480 || n == 960) && (!self.bandwidth_forced || self.uses_analysis())),
    {
        (n == 480 || n == 960) && (!self.bandwidth_forced || self.mode_decision_uses_analysis())
    }

    /// The encoder after the bandwidth of a frame was chosen.
    pub open spec fn with_bandwidth(self, n: int, detected: Bandwidth) -> OpusEncoder {
        if !self.bandwidth_forced && (n == 480 || n == 960) {
            OpusEncoder {
                bandwidth: detected.narrower_spec(self.rate_cap()).narrower_spec(self.max_bandwidth),
                ..self
            }
        } else {
            self
        }
    }

    /// What is done with a frame, once its bandwidth is chosen.
    pub open spec fn auto_spec(self, n: int, musical: bool, spoken: bool) -> Result<AutoPlan, EncodeError> {
        if n == 120 || n == 240 {
            Ok(AutoPlan::Celt)
        } else if (n == 1920 || n == 2880) && self.application != Application::RestrictedLowDelay {
            Ok(AutoPlan::Silk)
        } else if n == 480 || n == 960 {
            match self.mode_spec(self.bandwidth, musical, spoken) {
                ChosenMode::Silk => Ok(AutoPlan::Silk),
                ChosenMode::Hybrid => if OpusEncoder::is_low(self.bandwidth) {
                    Ok(AutoPlan::Celt)
                } else {
                    Ok(AutoPlan::HybridOrCelt)
                },
                ChosenMode::Celt => Ok(AutoPlan::Celt),
            }
        } else {
            Err(EncodeError::InvalidFrameSize)
        }
    }

    /// Chooses bandwidth and mode of a frame of `n` samples per channel, from what
    /// the analysis found: the bandwidth that the signal takes, and whether it is
    /// very likely music or speech. Frames beyond 20 ms only linear prediction has, and
    /// what needs the least delay is not given to it: those are refused there.
    pub fn encode_auto(&mut self, n: usize, detected: Bandwidth, musical: bool, spoken: bool) -> (r: Result<
        AutoPlan,
        EncodeError,
    >)
        ensures
            *final(self) == old(self).with_bandwidth(n as int, detected),
            r == final(self).auto_spec(n as int, musical, spoken),
            old(self).wf() ==> final(self).wf(),
    {
        if !self.bandwidth_forced && (n == 480 || n == 960) {
            self.bandwidth = self.auto_bandwidth(detected);
        }
        let bw: Bandwidth = self.bandwidth;
        if n == 120 || n == 240 {
            Ok(AutoPlan::Celt)
        } else if (n == 1920 || n == 2880) && self.application != Application::RestrictedLowDelay {
            Ok(AutoPlan::Silk)
        } else if n == 480 || n == 960 {
            let low: bool = bw.rank() <= 2;
            match self.decide_mode(bw, musical, spoken) {
                ChosenMode::Silk => Ok(AutoPlan::Silk),
                ChosenMode::Hybrid => if low {
                    Ok(AutoPlan::Celt)
                } else {
                    Ok(AutoPlan::HybridOrCelt)
                },
                ChosenMode::Celt => Ok(AutoPlan::Celt),
            }
        } else {
            Err(EncodeError::InvalidFrameSize)
        }
    }

    /// Remembers the head of a packet that was sent.
    pub fn finish_auto(&mut self, packet: &[u8])
        ensures
            *final(self) == if packet@.len() > 0 {
                OpusEncoder { last_toc: packet@[0], ..*old(self) }
            } else {
                *old(self)
            },
    {
        if packet.len() > 0 {
            self.last_toc = packet[0];
        }
    }

    /// The head of a packet with one frame.
    pub open spec fn toc_of(self, config: int) -> int {
        Toc::packed(config, self.coded() == 2, 0)
    }

    fn make_toc(&self, config: u8) -> (r: u8)
        requires
            config <= 31,
        ensures
            r == self.toc_of(config as int),
    {
        Toc::from_parts(config, self.coded_channels() == 2, 0).byte()
    }

    /// The first configuration of the transform mode of a bandwidth.
    pub open spec fn celt_base(bw: Bandwidth) -> int {
        match bw {
            Bandwidth::NarrowBand => 16,
            Bandwidth::MediumBand | Bandwidth::WideBand => 20,
            Bandwidth::SuperWideBand => 24,
            Bandwidth::FullBand => 28,
        }
    }

    /// The exponent of a transform frame of `n` samples per channel.
    pub open spec fn celt_exponent(n: int) -> Option<int> {
        if n == 120 {
            Some(0)
        } else if n == 240 {
            Some(1)
        } else if n == 480 {
            Some(2)
        } else if n == 960 {
            Some(3)
        } else {
            None
        }
    }

    /// How a transform frame is encoded.
    pub open spec fn celt_plan(self, len: int, max_bytes: int) -> Result<CeltPlan, EncodeError> {
        match self.per_channel(len) {
            None => Err(EncodeError::InvalidFrameSize),
            Some(n) => match OpusEncoder::celt_exponent(n) {
                None => Err(EncodeError::InvalidFrameSize),
                Some(lm) => if max_bytes < 3 || max_bytes > 1275 {
                    Err(EncodeError::InvalidBudget)
                } else {
                    let fixed = self.target_bitrate is Some && !self.vbr;
                    Ok(
                        CeltPlan {
                            toc: self.toc_of(OpusEncoder::celt_base(self.bandwidth) + lm) as u8,
                            lm: lm as usize,
                            end: decoder::end_band_spec(self.bandwidth),
                            nb_bytes: if fixed {
                                cbr_bytes(self.target_bitrate->0, n, max_bytes - 1) as usize
                            } else {
                                (max_bytes - 1) as usize
                            },
                            target_bitrate: if fixed {
                                None
                            } else {
                                self.target_bitrate
                            },
                        },
                    )
                },
            },
        }
    }

    /// The transform coder's place in such a frame.
    pub open spec fn celt_input(self, len: int, max_bytes: int) -> FrameInput {
        let plan = self.celt_plan(len, max_bytes)->Ok_0;
        FrameInput {
            bytes: plan.nb_bytes as int,
            c: self.coded() as int,
            lm: plan.lm as int,
            start: 0,
            end: plan.end as int,
        }
    }

    /// Says how a frame of `len` interleaved samples is encoded as a transform
    /// packet of at most `max_bytes` bytes: at a constant rate it has a fixed number
    /// of bytes.
    pub fn encode(&self, len: usize, max_bytes: usize) -> (r: Result<CeltPlan, EncodeError>)
        requires
            self.wf(),
        ensures
            r == self.celt_plan(len as int, max_bytes as int),
    {
        let n: usize = match self.split_len(len) {
            None => {
                return Err(EncodeError::InvalidFrameSize);
            },
            Some(n) => n,
        };
        let lm: usize = if n == 120 {
            0
        } else if n == 240 {
            1
        } else if n == 480 {
            2
        } else if n == 960 {
            3
        } else {
            return Err(EncodeError::InvalidFrameSize);
        };
        if max_bytes < 3 || max_bytes > 1275 {
            return Err(EncodeError::InvalidBudget);
        }
        let base: u8 = match self.bandwidth {
            Bandwidth::NarrowBand => 16,
            Bandwidth::MediumBand | Bandwidth::WideBand => 20,
            Bandwidth::SuperWideBand => 24,
            Bandwidth::FullBand => 28,
        };
        let toc: u8 = self.make_toc(base + lm as u8);
        let end: usize = end_band(self.bandwidth);
        let mut nb_bytes: usize = max_bytes - 1;
        let mut target_bitrate: Option<u32> = self.target_bitrate;
        if !self.vbr {
            if let Some(b) = self.target_bitrate {
                proof {
                    lemma_mul_range(b as int, 0xFFFF_FFFF, n as int, 960);
                }
                let wanted: u64 = b as u64 * n as u64 / 384_000;
                if wanted < nb_bytes as u64 {
                    nb_bytes = if wanted < 2 {
                        2
                    } else {
                        wanted as usize
                    };
                }
                target_bitrate = None;
            }
        }
        Ok(CeltPlan { toc, lm, end, nb_bytes, target_bitrate })
    }

    /// The exponent of a linear-prediction frame of `n` samples per channel.
    pub open spec fn silk_exponent(n: int) -> Option<int> {
        if n == 480 {
            Some(0)
        } else if n == 960 {
            Some(1)
        } else if n == 1920 {
            Some(2)
        } else if n == 2880 {
            Some(3)
        } else {
            None
        }
    }

    /// The first configuration of the linear-prediction mode of a bandwidth.
    pub open spec fn silk_base(bw: Bandwidth) -> int {
        match bw {
            Bandwidth::NarrowBand => 0,
            Bandwidth::MediumBand => 4,
            _ => 8,
        }
    }

    /// The set-up of the low band's coder in use.
    pub open spec fn setup(self) -> Option<SilkSetup> {
        if self.coded() == 1 {
            self.silk
        } else {
            self.silk_stereo
        }
    }

    /// The encoder with a low-band coder set up.
    pub open spec fn with_setup(self, s: SilkSetup) -> OpusEncoder {
        if self.coded() == 1 {
            OpusEncoder { silk: Some(s), ..self }
        } else {
            OpusEncoder { silk_stereo: Some(s), ..self }
        }
    }

    /// The parts of a low band's frame.
    pub open spec fn parts(lm: int) -> usize {
        if lm == 0 {
            2
        } else {
            4
        }
    }

    /// The bits per second for the low band's coder.
    pub open spec fn silk_bitrate(self) -> int {
        let b = match self.target_bitrate {
            None => 20_000,
            Some(b) => signed_rate(b),
        };
        math::min(
            math::max(b, 5_000),
            if self.coded() == 1 {
                80_000
            } else {
                100_000
            },
        )
    }

    fn low_band_bitrate(&self) -> (r: i32)
        ensures
            r == self.silk_bitrate(),
    {
        let wanted: i32 = match self.target_bitrate {
            None => 20_000,
            Some(b) => signed(b),
        };
        let most: i32 = if self.coded_channels() == 1 {
            80_000
        } else {
            100_000
        };
        math::min_i32(math::max_i32(wanted, 5_000), most)
    }

    /// How a linear-prediction frame is encoded.
    pub open spec fn silk_plan(self, len: int, max_bytes: int) -> Result<SilkPlan, EncodeError> {
        match self.per_channel(len) {
            None => Err(EncodeError::InvalidFrameSize),
            Some(n) => match OpusEncoder::silk_exponent(n) {
                None => Err(EncodeError::InvalidFrameSize),
                Some(lm) => if max_bytes < 3 || max_bytes > 1275 {
                    Err(EncodeError::InvalidBudget)
                } else {
                    let setup = SilkSetup {
                        khz: (8 + OpusEncoder::silk_base(self.bandwidth)) as u32,
                        nb_subfr: OpusEncoder::parts(lm),
                    };
                    Ok(
                        SilkPlan {
                            toc: self.toc_of(OpusEncoder::silk_base(self.bandwidth) + lm) as u8,
                            internal_khz: setup.khz,
                            nb_subfr: setup.nb_subfr,
                            bitrate: self.silk_bitrate() as i32,
                            channels: self.coded(),
                            fresh: self.setup() != Some(setup),
                            cap: (max_bytes - 1) as usize,
                        },
                    )
                },
            },
        }
    }

    fn need_setup(&mut self, s: SilkSetup) -> (r: bool)
        ensures
            r == (old(self).setup() != Some(s)),
            *final(self) == old(self).with_setup(s),
    {
        let one: bool = self.coded_channels() == 1;
        let have: Option<SilkSetup> = if one {
            self.silk
        } else {
            self.silk_stereo
        };
        let same: bool = match have {
            None => false,
            Some(x) => x.khz == s.khz && x.nb_subfr == s.nb_subfr,
        };
        if one {
            self.silk = Some(s);
        } else {
            self.silk_stereo = Some(s);
        }
        !same
    }

    /// Says how a frame of `len` interleaved samples is encoded as a
    /// linear-prediction packet of at most `max_bytes` bytes, and takes the coder as
    /// set up for it. Bandwidths beyond wideband count as wideband.
    pub fn encode_silk(&mut self, len: usize, max_bytes: usize) -> (r: Result<SilkPlan, EncodeError>)
        requires
            old(self).wf(),
        ensures
            final(self).wf(),
            r == old(self).silk_plan(len as int, max_bytes as int),
            *final(self) == match r {
                Err(_) => *old(self),
                Ok(p) => old(self).with_setup(SilkSetup { khz: p.internal_khz, nb_subfr: p.nb_subfr }),
            },
    {
        let n: usize = match self.split_len(len) {
            None => {
                return Err(EncodeError::InvalidFrameSize);
            },
            Some(n) => n,
        };
        let lm: u8 = if n == 480 {
            0
        } else if n == 960 {
            1
        } else if n == 1920 {
            2
        } else if n == 2880 {
            3
        } else {
            return Err(EncodeError::InvalidFrameSize);
        };
        if max_bytes < 3 || max_bytes > 1275 {
            return Err(EncodeError::InvalidBudget);
        }
        let base: u8 = match self.bandwidth {
            Bandwidth::NarrowBand => 0,
            Bandwidth::MediumBand => 4,
            _ => 8,
        };
        let nb_subfr: usize = if lm == 0 {
            2
        } else {
            4
        };
        let channels: usize = self.coded_channels();
        let bitrate: i32 = self.low_band_bitrate();
        let khz: u32 = 8 + base as u32;
        let toc: u8 = self.make_toc(base + lm);
        let fresh: bool = self.need_setup(SilkSetup { khz, nb_subfr });
        Ok(SilkPlan { toc, internal_khz: khz, nb_subfr, bitrate, channels, fresh, cap: max_bytes - 1 })
    }

    /// The bytes of a hybrid frame's payload where there is room for `room` bytes: those
    /// of the rate, 20 at least. A rate beyond the signed range takes all there are.
    pub open spec fn hybrid_bytes(self, ms: int, room: int) -> int {
        let target = match self.target_bitrate {
            None => 32_000,
            Some(b) => signed_rate(b),
        };
        let bytes = math::div_trunc(target * ms, 8_000);
        if bytes < 0 {
            room
        } else {
            math::min(math::max(bytes, HYBRID_LEAST as int), room)
        }
    }

    fn hybrid_budget(&self, lm: u8, room: usize) -> (r: usize)
        requires
            lm <= 1,
            HYBRID_LEAST <= room <= 1275,
        ensures
            r == self.hybrid_bytes(10 * (lm + 1), room as int),
            HYBRID_LEAST <= r <= room,
    {
        let target: i32 = match self.target_bitrate {
            None => 32_000,
            Some(b) => signed(b),
        };
        let wanted: i64 = if lm == 0 {
            target as i64 * 10 / 8_000
        } else {
            target as i64 * 20 / 8_000
        };
        if 0 <= wanted && wanted < HYBRID_LEAST as i64 {
            HYBRID_LEAST
        } else if wanted < 0 || wanted > room as i64 {
            room
        } else {
            wanted as usize
        }
    }

    /// How a hybrid frame is encoded.
    pub open spec fn hybrid_plan(self, len: int, max_bytes: int) -> Result<HybridPlan, EncodeError> {
        match self.per_channel(len) {
            None => Err(EncodeError::InvalidFrameSize),
            Some(n) => if n != 480 && n != 960 {
                Err(EncodeError::InvalidFrameSize)
            } else if OpusEncoder::is_low(self.bandwidth) {
                Err(EncodeError::InvalidFrameSize)
            } else if max_bytes < HYBRID_LEAST + 1 || max_bytes > 1275 {
                Err(EncodeError::InvalidBudget)
            } else {
                let swb = self.bandwidth == Bandwidth::SuperWideBand;
                let lm = if n == 480 {
                    0int
                } else {
                    1
                };
                let target = match self.target_bitrate {
                    None => 32_000,
                    Some(b) => signed_rate(b),
                };
                let bytes = self.hybrid_bytes(10 * (lm + 1), max_bytes - 1);
                let end = decoder::end_band_spec(self.bandwidth);
                Ok(
                    HybridPlan {
                        toc: self.toc_of(
                            (if swb {
                                12int
                            } else {
                                14
                            }) + lm,
                        ) as u8,
                        nb_subfr: OpusEncoder::parts(lm),
                        end,
                        nb_bytes: bytes as usize,
                        silk_bps: silk_rate(target, swb, self.coded() as int) as i32,
                        silk_bits: low_band_cap(bytes, end as int) as usize,
                        channels: self.coded(),
                        fresh: self.setup() != Some(SilkSetup { khz: 16, nb_subfr: OpusEncoder::parts(lm) }),
                    },
                )
            },
        }
    }

    /// Says how a frame of `len` interleaved samples is encoded as a hybrid packet of at
    /// most `max_bytes` bytes, its head counted, and takes the low band's coder as set up
    /// for it. A budget that the smallest hybrid packet does not fit is refused. The low
    /// band has no more than leaves some bytes for each high band.
    pub fn encode_hybrid(&mut self, len: usize, max_bytes: usize) -> (r: Result<HybridPlan, EncodeError>)
        requires
            old(self).wf(),
        ensures
            final(self).wf(),
            r == old(self).hybrid_plan(len as int, max_bytes as int),
            r is Ok ==> 1 + r->Ok_0.nb_bytes <= max_bytes,
            *final(self) == match r {
                Err(_) => *old(self),
                Ok(p) => old(self).with_setup(SilkSetup { khz: 16, nb_subfr: p.nb_subfr }),
            },
    {
        let n: usize = match self.split_len(len) {
            None => {
                return Err(EncodeError::InvalidFrameSize);
            },
            Some(n) => n,
        };
        if n != 480 && n != 960 {
            return Err(EncodeError::InvalidFrameSize);
        }
        if self.bandwidth.rank() <= 2 {
            return Err(EncodeError::InvalidFrameSize);
        }
        if max_bytes < HYBRID_LEAST + 1 || max_bytes > 1275 {
            return Err(EncodeError::InvalidBudget);
        }
        let swb: bool = self.bandwidth == Bandwidth::SuperWideBand;
        let lm: u8 = if n == 480 {
            0
        } else {
            1
        };
        let nb_subfr: usize = if n == 480 {
            2
        } else {
            4
        };
        let target: i32 = match self.target_bitrate {
            None => 32_000,
            Some(b) => signed(b),
        };
        let nb_bytes: usize = self.hybrid_budget(lm, max_bytes - 1);
        let channels: usize = self.coded_channels();
        let silk_bps: i32 = compute_silk_rate_for_hybrid(target, swb, channels as i32);
        let end: usize = end_band(self.bandwidth);
        let silk_bits: usize = low_band_bits(nb_bytes, end);
        let base: u8 = if swb {
            12
        } else {
            14
        };
        let toc: u8 = self.make_toc(base + lm);
        let fresh: bool = self.need_setup(SilkSetup { khz: 16, nb_subfr });
        Ok(HybridPlan { toc, nb_subfr, end, nb_bytes, silk_bps, silk_bits, channels, fresh })
    }

    /// Takes over the final range of a packet.
    pub fn set_final_range(&mut self, range: u32)
        ensures
            *final(self) == (OpusEncoder { last_final_range: range, ..*old(self) }),
    {
        self.last_final_range = range;
    }
}

/// The stream after the flag that a hybrid frame has no redundant frame.
pub open spec fn put_no_redundancy(e: EncoderState, nb_bytes: int) -> EncoderState {
    if e.tell() + 37 <= 8 * nb_bytes {
        e.after_bit(false, 12)
    } else {
        e
    }
}

/// Encodes that a hybrid frame has no redundant frame, where there is room for
/// the flag.
pub fn encode_no_redundancy(enc: &mut RangeEncoder, nb_bytes: usize)
    requires
        old(enc).wf(),
        nb_bytes <= 1275,
    ensures
        final(enc).wf(),
        final(enc)@.wf(),
        final(enc)@.size == old(enc)@.size,
        final(enc)@ == put_no_redundancy(old(enc)@, nb_bytes as int),
{
    proof {
        enc.lemma_wf();
    }
    if enc.tell() + 37 <= 8 * nb_bytes as u32 {
        enc.encode_bit_logp(false, 12);
    }
}

/// A payload with its head.
pub fn frame_packet(toc: u8, payload: &[u8]) -> (r: Vec<u8>)
    ensures
        r@ == seq![toc] + payload@,
{
    let mut packet: Vec<u8> = Vec::new();
    packet.push(toc);
    packet.extend_from_slice(payload);
    assert(packet@ =~= seq![toc] + payload@);
    packet
}

impl SilkPlan {
    /// The packet of a linear-prediction frame; a payload that does not fit is
    /// refused.
    pub fn finish(&self, payload: &[u8]) -> (r: Result<Vec<u8>, EncodeError>)
        ensures
            r is Ok <==> payload@.len() <= self.cap,
            r is Ok ==> r->Ok_0@ == seq![self.toc] + payload@,
            r is Err ==> r->Err_0 == EncodeError::InvalidBudget,
    {
        if payload.len() > self.cap {
            return Err(EncodeError::InvalidBudget);
        }
        Ok(frame_packet(self.toc, payload))
    }
}

/// Where the mode cannot depend on the signal, any analysis gives the same mode:
/// it can be left out.
pub proof fn lemma_analysis_unused(e: OpusEncoder, a: (bool, bool), b: (bool, bool))
    requires
        !e.uses_analysis(),
    ensures
        e.mode_spec(e.bandwidth, a.0, a.1) == e.mode_spec(e.bandwidth, b.0, b.1),
        e.mode_spec(e.bandwidth, a.0, a.1) == ChosenMode::Celt,
{
}

/// What needs the least delay never goes to linear prediction: every frame that is taken
/// is transform coded.
pub proof fn lemma_low_delay(e: OpusEncoder, n: int, musical: bool, spoken: bool)
    requires
        e.application == Application::RestrictedLowDelay,
    ensures
        e.auto_spec(n, musical, spoken) is Ok ==> e.auto_spec(n, musical, spoken) == Ok::<AutoPlan, EncodeError>(
            AutoPlan::Celt,
        ),
        n == 120 || n == 240 || n == 480 || n == 960 ==> e.auto_spec(n, musical, spoken) is Ok,
{
}

/// Every packet of what needs the least delay, one that stands for a frame that is not
/// sent too, has the head of a transform packet.
pub proof fn lemma_low_delay_heads(e: OpusEncoder, len: int, max_bytes: int, n: int, active: bool)
    requires
        e.wf(),
        e.application == Application::RestrictedLowDelay,
    ensures
        e.celt_plan(len, max_bytes) is Ok ==> e.celt_plan(len, max_bytes)->Ok_0.toc / 8 >= 16,
        e.dtx_step(n, active).1 is Some ==> e.dtx_step(n, active).1->0 / 8 >= 16,
        e.dtx_step(n, active).0.application == e.application,
{
    if e.celt_plan(len, max_bytes) is Ok {
        lemma_celt_head(e, len, max_bytes);
    }
}

/// Frames below 10 ms are always transform coded; those beyond 20 ms go to linear
/// prediction, but for what needs the least delay, which does not take them; no other
/// sizes are taken.
pub proof fn lemma_frame_sizes(e: OpusEncoder, n: int, musical: bool, spoken: bool)
    ensures
        n == 120 || n == 240 ==> e.auto_spec(n, musical, spoken) == Ok::<AutoPlan, EncodeError>(AutoPlan::Celt),
        (n == 1920 || n == 2880) && e.application != Application::RestrictedLowDelay ==> e.auto_spec(
            n,
            musical,
            spoken,
        ) == Ok::<AutoPlan, EncodeError>(AutoPlan::Silk),
        e.auto_spec(n, musical, spoken) == Err::<AutoPlan, EncodeError>(EncodeError::InvalidFrameSize) <==> !(n
            == 120 || n == 240 || n == 480 || n == 960 || (n == 1920 || n == 2880) && e.application
            != Application::RestrictedLowDelay),
{
}

/// What is very likely music, and not also speech, is transform coded at any rate.
pub proof fn lemma_music(e: OpusEncoder, bw: Bandwidth)
    ensures
        e.mode_spec(bw, true, false) == ChosenMode::Celt,
{
}

/// A hybrid frame that is long enough keeps three bytes for each high band, and
/// three more, from the low one.
pub proof fn lemma_high_bands_kept(e: OpusEncoder, len: int, max_bytes: int)
    requires
        e.wf(),
        e.hybrid_plan(len, max_bytes) is Ok,
        ({
            let p = e.hybrid_plan(len, max_bytes)->Ok_0;
            p.nb_bytes >= 3 * (p.end - 17) + 11
        }),
    ensures
        ({
            let p = e.hybrid_plan(len, max_bytes)->Ok_0;
            p.silk_bits + 8 * (3 * (p.end - 17) + 3) == 8 * p.nb_bytes
        }),
{
}

/// A frame that is chosen automatically never gets a bandwidth beyond the widest
/// allowed, unless the caller forced one.
pub proof fn lemma_bandwidth_cap(e: OpusEncoder, n: int, detected: Bandwidth)
    requires
        !e.bandwidth_forced,
        n == 480 || n == 960,
    ensures
        e.with_bandwidth(n, detected).bandwidth.rank_spec() <= e.max_bandwidth.rank_spec(),
        e.with_bandwidth(n, detected).bandwidth.rank_spec() <= detected.rank_spec(),
{
}

/// A frame with activity is always sent; one without is not only where the time
/// without activity is beyond 200 ms and within 600 ms.
pub proof fn lemma_dtx(e: OpusEncoder, ms_q1: int)
    requires
        0 <= e.dtx_no_activity_q1 <= MAX_DTX_Q1,
        ms_q1 > 0,
    ensures
        !e.dtx_spec(true, ms_q1).0,
        e.dtx_spec(false, ms_q1).0 ==> BEFORE_DTX_Q1 < e.dtx_spec(false, ms_q1).1 <= MAX_DTX_Q1,
        e.dtx_no_activity_q1 + ms_q1 > MAX_DTX_Q1 ==> !e.dtx_spec(false, ms_q1).0,
        e.dtx_no_activity_q1 + ms_q1 <= BEFORE_DTX_Q1 ==> !e.dtx_spec(false, ms_q1).0,
{
}

/// How long frames last together.
pub open spec fn total_time(ms_q1: Seq<int>) -> int
    decreases ms_q1.len(),
{
    if ms_q1.len() == 0 {
        0
    } else {
        ms_q1[0] + total_time(ms_q1.drop_first())
    }
}

impl OpusEncoder {
    /// Whether nothing is sent for any of the frames without activity that follow.
    pub open spec fn all_dropped(self, ms_q1: Seq<int>) -> bool
        decreases ms_q1.len(),
    {
        ms_q1.len() == 0 || {
            let (dropped, t) = self.dtx_spec(false, ms_q1[0]);
            dropped && (OpusEncoder { dtx_no_activity_q1: t as i32, ..self }).all_dropped(ms_q1.drop_first())
        }
    }
}

/// Frames in a row for which nothing is sent end within 600 ms without activity, so
/// those behind the first last less than 400 ms.
pub proof fn lemma_dtx_run(e: OpusEncoder, ms_q1: Seq<int>)
    requires
        0 <= e.dtx_no_activity_q1 <= MAX_DTX_Q1,
        forall|k: int| 0 <= k < ms_q1.len() ==> 0 < #[trigger] ms_q1[k],
        ms_q1.len() > 0,
        e.all_dropped(ms_q1),
    ensures
        e.dtx_no_activity_q1 + total_time(ms_q1) <= MAX_DTX_Q1,
        total_time(ms_q1.drop_first()) < MAX_DTX_Q1 - BEFORE_DTX_Q1,
    decreases ms_q1.len(),
{
    reveal_with_fuel(total_time, 2);
    let (dropped, t) = e.dtx_spec(false, ms_q1[0]);
    let next = OpusEncoder { dtx_no_activity_q1: t as i32, ..e };
    let rest = ms_q1.drop_first();
    if rest.len() > 0 {
        assert forall|k: int| 0 <= k < rest.len() implies 0 < #[trigger] rest[k] by {
            assert(rest[k] == ms_q1[k + 1]);
        }
        lemma_dtx_run(next, rest);
    }
}

/// The head of a transform packet names its mode, bandwidth, frame size and
/// channels.
pub proof fn lemma_celt_head(e: OpusEncoder, len: int, max_bytes: int)
    requires
        e.wf(),
        e.celt_plan(len, max_bytes) is Ok,
    ensures
        ({
            let toc = e.celt_plan(len, max_bytes)->Ok_0.toc as int;
            &&& crate::packet::mode_of(toc / 8) == crate::packet::Mode::CeltOnly
            &&& crate::packet::frame_size_of(toc / 8).samples() == e.per_channel(len)->0
            &&& (toc / 4 % 2 == 1) == (e.coded() == 2)
            &&& toc % 4 == 0
            &&& decoder::end_band_spec(crate::packet::bandwidth_of(toc / 8)) == e.celt_plan(len, max_bytes)->Ok_0.end
        }),
{
}

/// A transform packet, its head and the frame that `encode_head` and `encode_tail` wrote,
/// is read by a decoder in any state: it is cut into that frame, lasts as long as the
/// samples that were encoded, and leaves the decoder with the encoder's final range. The
/// frame has short blocks only where it is long enough for them, a post-filter only where
/// a pitch was searched, and the bytes of the plan, or at a varying rate those that it was
/// shrunk to; and it fits them.
pub proof fn lemma_celt_packet(
    e: OpusEncoder,
    len: int,
    max_bytes: int,
    d: OpusDecoder,
    celt: CeltDecoder,
    c: CeltEncoder,
    a: FrontInput,
    h: HeadCoded,
    t: TailCoded,
    bytes: usize,
    head: EncoderState,
    last: EncoderState,
    flag: bool,
    target: int,
)
    requires
        e.wf(),
        e.celt_plan(len, max_bytes) is Ok,
        c.wf(),
        c.channels == e.coded(),
        ({
            let plan = e.celt_plan(len, max_bytes)->Ok_0;
            let inp = e.celt_input(len, max_bytes);
            &&& c.front_ok(a, 0, inp.end)
            &&& h.plan.wf()
            &&& h.plan.transient == a.transient
            &&& a.transient ==> inp.lm > 0
            &&& h.plan.postfilter.gain > 0 ==> inp.bytes > 12 * c.channels
            &&& inp.head_written(c, EncoderState::start(inp.bytes), head, a, h)
            &&& bytes == if plan.target_bitrate is Some {
                crate::celt::analysis::shrunk_bytes(
                    target,
                    head.tell_frac(),
                    64 * inp.bytes - h.front.total,
                    inp.bytes,
                    inp.lm,
                )
            } else {
                inp.bytes
            }
            &&& inp.sized(bytes as int).tail_written(
                EncoderState { size: bytes as int, ..head },
                last,
                h.front,
                a.transient,
                flag,
                t,
            )
        }),
        last.size == bytes,
        last.fits(),
    ensures
        ({
            let plan = e.celt_plan(len, max_bytes)->Ok_0;
            let payload = last.finished();
            let packet = seq![plan.toc] + payload;
            let config = packet[0] as int / 8;
            let mode = crate::packet::mode_of(config);
            let bw = crate::packet::bandwidth_of(config);
            let n = crate::packet::frame_size_of(config).samples();
            let d1 = OpusDecoder {
                stream_channels: if packet[0] / 4 % 2 == 1 {
                    2
                } else {
                    1
                },
                ..d
            };
            let red = decoder::redundancy_spec(DecoderState::start(payload), mode, bytes as int);
            let run = d1.run_spec(
                celt,
                red.dec,
                payload,
                d1.plan_spec(mode, bw, n, red.redundancy),
                red.redundancy,
                decoder::end_band_spec(bw) as int,
            );
            &&& crate::packet::layout(packet) is Ok
            &&& crate::packet::cut(packet, crate::packet::layout(packet)->Ok_0) == seq![payload]
            &&& crate::packet::packet_samples(packet) == Some(n)
            &&& n * e.channels == len
            &&& mode == Mode::CeltOnly
            &&& run.main is Some
            &&& d1.after_frame(mode, bw, n as usize, red.redundancy, run).final_range == last.rng as u32
        }),
{
    let plan = e.celt_plan(len, max_bytes)->Ok_0;
    let inp = e.celt_input(len, max_bytes);
    let payload = last.finished();
    let packet = seq![plan.toc] + payload;
    lemma_celt_head(e, len, max_bytes);
    crate::packet::lemma_one_frame(plan.toc, payload);
    lemma_packet_size(e, len, max_bytes);
    lemma_sendable(c, inp, a, h, t, bytes, head, last, flag, plan.target_bitrate is Some, target);
    lemma_encoded_round_trip(c, inp, a, h, t, bytes, head, last, flag);
    let start = DecoderState::start(payload);
    let small = inp.sized(bytes as int);
    lemma_frame_seed(small, start, 0, celt.rng as int);
    lemma_frame_seed(small, start, 0, CeltDecoder::fresh(d.channels, d.ds).rng as int);
    assert(packet[0] == plan.toc);
    let n = e.per_channel(len)->0;
    assert(n * e.channels == len) by {
        vstd::arithmetic::div_mod::lemma_fundamental_div_mod(len, e.channels as int);
        vstd::arithmetic::mul::lemma_mul_is_commutative(n, e.channels as int);
    }
    let place = FrameInput {
        bytes: bytes as int,
        c: e.coded() as int,
        lm: crate::celt::decoder::size_exponent(n)->0 as int,
        start: 0,
        end: plan.end as int,
    };
    assert(place == small);
    let r = last.rng as u32;
    assert(r ^ 0u32 == r) by (bit_vector);
}

/// The head of a linear-prediction packet names its mode, the coded rate, the frame
/// size and the channels.
pub proof fn lemma_silk_head(e: OpusEncoder, len: int, max_bytes: int)
    requires
        e.wf(),
        e.silk_plan(len, max_bytes) is Ok,
    ensures
        ({
            let p = e.silk_plan(len, max_bytes)->Ok_0;
            let toc = p.toc as int;
            &&& crate::packet::mode_of(toc / 8) == crate::packet::Mode::SilkOnly
            &&& crate::packet::frame_size_of(toc / 8).samples() == e.per_channel(len)->0
            &&& (toc / 4 % 2 == 1) == (e.coded() == 2)
            &&& toc % 4 == 0
            &&& p.internal_khz == match crate::packet::bandwidth_of(toc / 8) {
                Bandwidth::NarrowBand => 8u32,
                Bandwidth::MediumBand => 12,
                _ => 16,
            }
        }),
{
}

/// The head of a hybrid packet names its mode, bandwidth, frame size and channels.
pub proof fn lemma_hybrid_head(e: OpusEncoder, len: int, max_bytes: int)
    requires
        e.wf(),
        e.hybrid_plan(len, max_bytes) is Ok,
    ensures
        ({
            let p = e.hybrid_plan(len, max_bytes)->Ok_0;
            let toc = p.toc as int;
            &&& crate::packet::mode_of(toc / 8) == crate::packet::Mode::Hybrid
            &&& crate::packet::bandwidth_of(toc / 8) == e.bandwidth
            &&& crate::packet::frame_size_of(toc / 8).samples() == e.per_channel(len)->0
            &&& (toc / 4 % 2 == 1) == (e.coded() == 2)
            &&& toc % 4 == 0
        }),
{
}

/// A packet has no more bytes than allowed, its head counted.
pub proof fn lemma_packet_size(e: OpusEncoder, len: int, max_bytes: int)
    requires
        e.wf(),
    ensures
        e.celt_plan(len, max_bytes) is Ok ==> 2 <= e.celt_plan(len, max_bytes)->Ok_0.nb_bytes <= max_bytes - 1,
        e.silk_plan(len, max_bytes) is Ok ==> e.silk_plan(len, max_bytes)->Ok_0.cap == max_bytes - 1,
        e.hybrid_plan(len, max_bytes) is Ok ==> HYBRID_LEAST <= e.hybrid_plan(len, max_bytes)->Ok_0.nb_bytes
            <= max_bytes - 1,
{
}

/// At a constant rate every transform packet of a duration has as many bytes as any
/// other, whatever the encoder's state and its other settings.
pub proof fn lemma_constant_rate(a: OpusEncoder, b: OpusEncoder, len: int, max_bytes: int)
    requires
        a.wf(),
        b.wf(),
        !a.vbr,
        !b.vbr,
        a.channels == b.channels,
        a.target_bitrate is Some,
        a.target_bitrate == b.target_bitrate,
        a.celt_plan(len, max_bytes) is Ok,
    ensures
        b.celt_plan(len, max_bytes) is Ok,
        a.celt_plan(len, max_bytes)->Ok_0.nb_bytes == b.celt_plan(len, max_bytes)->Ok_0.nb_bytes,
        a.celt_plan(len, max_bytes)->Ok_0.target_bitrate is None,
{
}

/// A frame whose mode is chosen automatically can be encoded: in that mode, or, where it
/// goes to both coders, by the transform coder alone; by both where the budget holds the
/// smallest hybrid packet.
pub proof fn lemma_auto_encodable(e: OpusEncoder, len: int, max_bytes: int, musical: bool, spoken: bool)
    requires
        e.wf(),
        3 <= max_bytes <= 1275,
        e.per_channel(len) is Some,
        e.auto_spec(e.per_channel(len)->0, musical, spoken) is Ok,
    ensures
        match e.auto_spec(e.per_channel(len)->0, musical, spoken)->Ok_0 {
            AutoPlan::Celt => e.celt_plan(len, max_bytes) is Ok,
            AutoPlan::Silk => e.silk_plan(len, max_bytes) is Ok,
            AutoPlan::HybridOrCelt => {
                &&& e.celt_plan(len, max_bytes) is Ok
                &&& e.hybrid_plan(len, max_bytes) is Ok <==> max_bytes > HYBRID_LEAST
            },
        },
{
}

/// The samples per channel of a frame of a file.
pub const OGG_FRAME: usize = 960;

/// The serial number of a file's stream.
pub const OGG_SERIAL: u32 = 1;

/// The header of a file: what is dropped at its start is the delay of the mode
/// that the rate leads to.
pub open spec fn ogg_head(channels: u8, bitrate: u32) -> HeadView {
    HeadView {
        version: 1,
        channels,
        pre_skip: if bitrate > 40_000 {
            120
        } else {
            69
        },
        rate: 48_000,
        gain: 0,
        mapping: MappingView::Family0,
    }
}

/// The tags of a file: "opus_rs" made it.
pub open spec fn ogg_tags() -> TagsView {
    TagsView { vendor: seq![111u8, 112, 117, 115, 95, 114, 115], comments: Seq::empty() }
}

/// The file of packets.
pub open spec fn ogg_file(packets: Seq<Seq<u8>>, channels: u8, bitrate: u32) -> Seq<u8> {
    opus::with_packets(
        OpusWriterView::start(ogg_head(channels, bitrate), ogg_tags(), OGG_SERIAL),
        packets,
        packets.len() as int,
    ).file()
}

/// The frames of a file of `len` interleaved samples.
pub open spec fn ogg_frames(len: int, channels: int) -> int {
    (len / channels + 959) / 960
}

/// Where the samples of frame `f` of a file stand.
pub open spec fn ogg_bounds(len: int, channels: int, f: int) -> (int, int) {
    (f * (960 * channels), math::min(len, (f + 1) * (960 * channels)))
}

/// The frames of a file of `len` interleaved samples; the last may be short of
/// samples.
pub fn ogg_frame_count(len: usize, channels: usize) -> (r: usize)
    requires
        channels == 1 || channels == 2,
    ensures
        r == ogg_frames(len as int, channels as int),
{
    let per_channel: usize = if channels == 1 {
        len
    } else {
        len / 2
    };
    let full: usize = per_channel / OGG_FRAME;
    if per_channel % OGG_FRAME == 0 {
        full
    } else {
        full + 1
    }
}

/// Where the samples of frame `f` stand: from the first to before the second;
/// zeros follow where these are less than a frame.
pub fn ogg_frame_bounds(len: usize, channels: usize, f: usize) -> (r: (usize, usize))
    requires
        channels == 1 || channels == 2,
        f * (OGG_FRAME * channels) <= len,
    ensures
        (r.0 as int, r.1 as int) == ogg_bounds(len as int, channels as int, f as int),
{
    let size: usize = if channels == 1 {
        OGG_FRAME
    } else {
        2 * OGG_FRAME
    };
    assert(size == OGG_FRAME * channels);
    let start: usize = f * size;
    assert((f + 1) * size == f * size + size) by (nonlinear_arith);
    if len - start < size {
        (start, len)
    } else {
        (start, start + size)
    }
}

/// Makes a file of packets, one for each frame.
pub fn encode_ogg_opus(packets: &[Vec<u8>], channels: usize, bitrate: u32) -> (r: Vec<u8>)
    requires
        channels == 1 || channels == 2,
    ensures
        r@ == ogg_file(opus::comments_view(packets@), channels as u8, bitrate),
{
    let pre_skip: u16 = if bitrate > 40_000 {
        120
    } else {
        69
    };
    let head: OpusHead = OpusHead::family0(channels as u8, pre_skip, 48_000);
    let tags: OpusTags = OpusTags { vendor: vec![111, 112, 117, 115, 95, 114, 115], comments: Vec::new() };
    assert(tags@ =~= ogg_tags());
    let mut writer: OggOpusWriter = OggOpusWriter::new(&head, &tags, OGG_SERIAL);
    let n: usize = packets.len();
    let ghost start = writer@;
    let ghost all = opus::comments_view(packets@);
    let mut i: usize = 0;
    while i < n
        invariant
            i <= n,
            n == packets@.len(),
            all == opus::comments_view(packets@),
            writer.wf(),
            writer@ == opus::with_packets(start, all, i as int),
            i < n ==> !writer@.finished,
        decreases n - i,
    {
        writer.push(packets[i].as_slice(), i + 1 == n);
        assert(all[i as int] == packets@[i as int]@);
        i = i + 1;
    }
    writer.finish()
}

/// From a file, a reader takes its header and, in order, its packets.
pub proof fn lemma_ogg_file(packets: Seq<Seq<u8>>, channels: u8, bitrate: u32)
    requires
        channels == 1 || channels == 2,
        packets.len() > 0,
        opus::position(ogg_head(channels, bitrate).pre_skip as int, packets, packets.len() as int) < NO_GRANULE,
    ensures
        ({
            let o = opus::opening(ogg_file(packets, channels, bitrate));
            let read = opus::resolved(o->Ok_0.packets, 0);
            &&& o is Ok
            &&& o->Ok_0.head == ogg_head(channels, bitrate)
            &&& o->Ok_0.tags == ogg_tags()
            &&& read.len() == packets.len()
            &&& forall|i: int| 0 <= i < packets.len() ==> (#[trigger] read[i]).data == packets[i]
        }),
{
    lemma_file_round_trip(ogg_head(channels, bitrate), ogg_tags(), OGG_SERIAL, packets);
}

/// Packets of 20 ms move the position by as much.
proof fn lemma_ogg_position(start: int, packets: Seq<Seq<u8>>, n: int)
    requires
        0 <= n <= packets.len(),
        forall|i: int| 0 <= i < packets.len() ==> crate::packet::packet_samples(#[trigger] packets[i]) == Some(960int),
    ensures
        opus::position(start, packets, n) == start + 960 * n,
    decreases n,
{
    if n > 0 {
        lemma_ogg_position(start, packets, n - 1);
        assert(crate::packet::packet_samples(packets[n - 1]) == Some(960int));
    }
}

/// A file of `len` interleaved samples, one packet for each 20 ms of them, says how many
/// channels it has and how many samples are dropped at its start, and gives back all that
/// its packets decode to but those.
pub proof fn lemma_ogg_length(packets: Seq<Seq<u8>>, len: int, channels: u8, bitrate: u32)
    requires
        channels == 1 || channels == 2,
        packets.len() > 0,
        packets.len() == (len / channels as int + 959) / 960,
        forall|i: int| 0 <= i < packets.len() ==> crate::packet::packet_samples(#[trigger] packets[i]) == Some(960int),
        960 * packets.len() + 120 < NO_GRANULE,
    ensures
        ({
            let o = opus::opening(ogg_file(packets, channels, bitrate));
            let skip = if bitrate > 40_000 {
                120int
            } else {
                69
            };
            let frames = (len / channels as int + 959) / 960;
            let last = opus::resolved(o->Ok_0.packets, 0).last();
            &&& o is Ok
            &&& o->Ok_0.head.channels == channels
            &&& o->Ok_0.head.mapping is Family0
            &&& o->Ok_0.head.pre_skip == skip
            &&& o->Ok_0.head.gain == 0
            &&& opus::resolved(o->Ok_0.packets, 0).len() == frames
            &&& decoder::trimmed_spec(960 * frames * channels, channels as int, skip, last.granule as int) == (
                skip * channels,
                (960 * frames - skip) * channels,
            )
        }),
{
    let head = ogg_head(channels, bitrate);
    let skip = head.pre_skip as int;
    let frames = packets.len() as int;
    lemma_ogg_position(skip, packets, frames);
    lemma_file_round_trip(head, ogg_tags(), OGG_SERIAL, packets);
    let read = opus::resolved(opus::opening(ogg_file(packets, channels, bitrate))->Ok_0.packets, 0);
    assert(read.last() == read[frames - 1]);
    assert(read[frames - 1].granule == skip + 960 * frames);
    if channels == 1 {
        assert(960 * frames * channels == 960 * frames) by (nonlinear_arith)
            requires
                channels == 1,
        ;
    } else {
        assert(960 * frames * channels == 1920 * frames) by (nonlinear_arith)
            requires
                channels == 2,
        ;
    }
    let total = math::max(skip + 960 * frames - skip, 0);
    assert(total * channels == 960 * frames * channels);
    assert((960 * frames - skip) * channels == 960 * frames * channels - skip * channels) by (nonlinear_arith);
}

impl OpusEncoder {
    /// Whether a packet has the head that the encoder plans for a frame of `len`
    /// interleaved samples, by whichever coder.
    pub open spec fn heads(self, len: int, max_bytes: int, packet: Seq<u8>) -> bool {
        &&& packet.len() > 0
        &&& {
            ||| self.celt_plan(len, max_bytes) is Ok && self.celt_plan(len, max_bytes)->Ok_0.toc == packet[0]
            ||| self.silk_plan(len, max_bytes) is Ok && self.silk_plan(len, max_bytes)->Ok_0.toc == packet[0]
            ||| self.hybrid_plan(len, max_bytes) is Ok && self.hybrid_plan(len, max_bytes)->Ok_0.toc == packet[0]
        }
    }
}

/// A packet with the head that an encoder plans for a frame, whatever stands behind it,
/// is cut into one frame that lasts as long as the samples of that frame.
pub proof fn lemma_planned_packet(e: OpusEncoder, len: int, max_bytes: int, packet: Seq<u8>)
    requires
        e.wf(),
        e.heads(len, max_bytes, packet),
        packet.len() <= 1275,
    ensures
        crate::packet::packet_samples(packet) == e.per_channel(len),
        e.per_channel(len) == Some(crate::packet::frame_size_of(packet[0] as int / 8).samples()),
        crate::packet::layout(packet) is Ok,
        crate::packet::cut(packet, crate::packet::layout(packet)->Ok_0) == seq![packet.skip(1)],
{
    if e.celt_plan(len, max_bytes) is Ok && e.celt_plan(len, max_bytes)->Ok_0.toc == packet[0] {
        lemma_celt_head(e, len, max_bytes);
    } else if e.silk_plan(len, max_bytes) is Ok && e.silk_plan(len, max_bytes)->Ok_0.toc == packet[0] {
        lemma_silk_head(e, len, max_bytes);
    } else {
        lemma_hybrid_head(e, len, max_bytes);
    }
    crate::packet::lemma_one_frame(packet[0], packet.skip(1));
    assert(seq![packet[0]] + packet.skip(1) =~= packet);
}

/// A file of `len` interleaved samples, for each 20 ms of which an encoder in some state
/// planned a packet, is read as so many packets. They are each cut into one frame of 20 ms;
/// of all the samples that these last, those that the header names are dropped at the
/// start, and the rest is kept.
pub proof fn lemma_ogg_samples(
    packets: Seq<Seq<u8>>,
    encoders: Seq<OpusEncoder>,
    len: int,
    channels: u8,
    bitrate: u32,
)
    requires
        channels == 1 || channels == 2,
        packets.len() > 0,
        packets.len() == (len / channels as int + 959) / 960,
        encoders.len() == packets.len(),
        forall|i: int|
            0 <= i < packets.len() ==> {
                &&& (#[trigger] encoders[i]).wf()
                &&& encoders[i].channels == channels
                &&& encoders[i].heads(960 * channels, 1275, packets[i])
                &&& 2 <= packets[i].len() <= 1275
            },
        960 * packets.len() + 120 < NO_GRANULE,
    ensures
        ({
            let o = opus::opening(ogg_file(packets, channels, bitrate));
            let skip = if bitrate > 40_000 {
                120int
            } else {
                69
            };
            let frames = (len / channels as int + 959) / 960;
            let read = opus::resolved(o->Ok_0.packets, 0);
            &&& o is Ok
            &&& o->Ok_0.head.channels == channels
            &&& o->Ok_0.head.mapping is Family0
            &&& o->Ok_0.head.pre_skip == skip
            &&& o->Ok_0.head.gain == 0
            &&& read.len() == frames
            &&& forall|i: int|
                0 <= i < frames ==> {
                    let data = (#[trigger] read[i]).data;
                    &&& !OpusDecoder::is_dtx(data)
                    &&& crate::packet::layout(data) is Ok
                    &&& crate::packet::cut(data, crate::packet::layout(data)->Ok_0).len() == 1
                    &&& crate::packet::frame_size_of(data[0] as int / 8).samples() == 960
                }
            &&& decoder::trimmed_spec(960 * frames * channels, channels as int, skip, read.last().granule as int) == (
                skip * channels,
                (960 * frames - skip) * channels,
            )
        }),
{
    assert forall|i: int| 0 <= i < packets.len() implies {
        &&& crate::packet::packet_samples(#[trigger] packets[i]) == Some(960int)
        &&& crate::packet::layout(packets[i]) is Ok
        &&& crate::packet::cut(packets[i], crate::packet::layout(packets[i])->Ok_0).len() == 1
        &&& crate::packet::frame_size_of(packets[i][0] as int / 8).samples() == 960
    } by {
        let e = encoders[i];
        lemma_planned_packet(e, 960 * channels, 1275, packets[i]);
        assert(e.per_channel(960 * channels) == Some(960int));
    }
    lemma_ogg_length(packets, len, channels, bitrate);
    lemma_ogg_position(ogg_head(channels, bitrate).pre_skip as int, packets, packets.len() as int);
    lemma_ogg_file(packets, channels, bitrate);
    let read = opus::resolved(opus::opening(ogg_file(packets, channels, bitrate))->Ok_0.packets, 0);
    assert forall|i: int| 0 <= i < packets.len() implies {
        let data = (#[trigger] read[i]).data;
        &&& !OpusDecoder::is_dtx(data)
        &&& crate::packet::layout(data) is Ok
        &&& crate::packet::cut(data, crate::packet::layout(data)->Ok_0).len() == 1
        &&& crate::packet::frame_size_of(data[0] as int / 8).samples() == 960
    } by {
        assert(read[i].data == packets[i]);
        assert(encoders[i].wf());
        assert(crate::packet::packet_samples(packets[i]) == Some(960int));
    }
}

/// What a file's header says is dropped at its start is the delay of the mode
/// that its frames get: above 40 000 bits per second they are all transform coded,
/// up to there hybrid unless they are very likely music.
pub proof fn lemma_ogg_delay(channels: u8, bitrate: u32, musical: bool, spoken: bool)
    requires
        channels == 1 || channels == 2,
    ensures
        ({
            let e = OpusEncoder { target_bitrate: Some(bitrate), ..OpusEncoder::fresh(channels as usize) };
            let mode = e.mode_spec(Bandwidth::FullBand, musical, spoken);
            &&& ogg_head(channels, bitrate).pre_skip == 120 ==> mode == ChosenMode::Celt
            &&& ogg_head(channels, bitrate).pre_skip == 69 && !musical ==> mode == ChosenMode::Hybrid
            &&& ogg_head(channels, bitrate).pre_skip == 120 <==> bitrate > 40_000
        }),
{
}

} // verus!
