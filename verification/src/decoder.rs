//! The decisions of the Opus decoder: which coder a frame goes to, what it
//! carries besides its audio, what is concealed and what is faded, and the
//! state that passes from one packet to the next.

pub mod laws;

use vstd::prelude::*;

use crate::celt::decoder::{self as celt, CeltDecoder, FrameHistory, FrameParams, FramePlace, FrameSpec};
use crate::math::{self, lemma_mul_range};
use crate::ogg::opus::{ChannelMapping, OggOpusError, OpusHead};
use crate::packet::{Bandwidth, Mode, Packet, PacketError};
use crate::range::decoder::{lemma_after_bit, lemma_even_bit_tell, lemma_small_uint, DecoderState, RangeDecoder};

verus! {

/// 5 ms at 48 kHz.
const F5: usize = 240;

/// 20 ms at 48 kHz.
const F20: usize = 960;

/// The first band above those of a bandwidth.
pub open spec fn end_band_spec(bw: Bandwidth) -> usize {
    match bw {
        Bandwidth::NarrowBand => 13,
        Bandwidth::MediumBand | Bandwidth::WideBand => 17,
        Bandwidth::SuperWideBand => 19,
        Bandwidth::FullBand => 21,
    }
}

/// The first band above those of a bandwidth.
pub fn end_band(bw: Bandwidth) -> (r: usize)
    ensures
        r == end_band_spec(bw),
        13 <= r <= 21,
{
    match bw {
        Bandwidth::NarrowBand => 13,
        Bandwidth::MediumBand | Bandwidth::WideBand => 17,
        Bandwidth::SuperWideBand => 19,
        Bandwidth::FullBand => 21,
    }
}

/// What the linear-prediction decoder is told about a packet.
#[derive(Clone, Copy, Debug, PartialEq, Eq, Structural)]
pub struct DecControl {
    /// Channels in the packet.
    pub channels_internal: usize,
    /// Channels in the output.
    pub channels_api: usize,
    /// The coded rate in Hz.
    pub internal_sample_rate: u32,
    /// The output rate in Hz.
    pub api_sample_rate: u32,
    /// The duration of the packet in milliseconds, 10 at least.
    pub payload_size_ms: usize,
}

/// The duration of `n` samples at 48 kHz in milliseconds, 10 at least.
pub open spec fn payload_ms(n: int) -> int {
    math::max(10, n / 48)
}

/// The rate at which the low band of a frame is coded.
pub open spec fn internal_rate(mode: Mode, bw: Bandwidth) -> u32 {
    if mode == Mode::SilkOnly && bw == Bandwidth::NarrowBand {
        8_000
    } else if mode == Mode::SilkOnly && bw == Bandwidth::MediumBand {
        12_000
    } else {
        16_000
    }
}

/// The frame durations that a packet can have.
pub open spec fn is_frame_size(n: int) -> bool {
    n == 120 || n == 240 || n == 480 || n == 960 || n == 1920 || n == 2880
}

/// The samples that are concealed at once when `rem` are missing and the last
/// good frame had `last`.
pub open spec fn chunk(rem: int, last: int) -> int {
    let n = math::min(rem, last);
    if n > 960 {
        960
    } else if 480 < n < 960 {
        480
    } else if 240 < n < 480 {
        240
    } else {
        n
    }
}

/// The chunks in which `rem` samples are concealed.
pub open spec fn chunks(rem: int, last: int) -> Seq<int>
    decreases rem,
{
    if rem <= 0 || last <= 0 {
        Seq::empty()
    } else {
        seq![chunk(rem, last)] + chunks(rem - chunk(rem, last), last)
    }
}

/// The sum of a list of chunks.
pub open spec fn chunk_sum(s: Seq<int>) -> int
    decreases s.len(),
{
    if s.len() == 0 {
        0
    } else {
        s[0] + chunk_sum(s.drop_first())
    }
}

/// The chunks of a gap of whole 2.5 ms steps have durations that the transform
/// coder has, and fill the gap.
pub proof fn lemma_chunks(rem: int, last: int)
    requires
        rem >= 0,
        rem % 120 == 0,
        is_frame_size(last),
    ensures
        chunk_sum(chunks(rem, last)) == rem,
        forall|i: int|
            0 <= i < chunks(rem, last).len() ==> {
                let n = #[trigger] chunks(rem, last)[i];
                n == 120 || n == 240 || n == 480 || n == 960
            },
    decreases rem,
{
    if rem > 0 {
        let n = chunk(rem, last);
        let tail = chunks(rem - n, last);
        lemma_chunks(rem - n, last);
        assert(chunks(rem, last) == seq![n] + tail);
        assert(chunks(rem, last).drop_first() =~= tail);
        assert forall|i: int| 0 <= i < chunks(rem, last).len() implies {
            let k = #[trigger] chunks(rem, last)[i];
            k == 120 || k == 240 || k == 480 || k == 960
        } by {
            if i > 0 {
                assert(chunks(rem, last)[i] == tail[i - 1]);
            }
        }
    }
}

/// The integers that a list of sizes holds.
pub open spec fn sizes_view(s: Seq<usize>) -> Seq<int> {
    Seq::new(s.len(), |i: int| s[i] as int)
}

fn chunk_size(rem: usize, last: usize) -> (r: usize)
    requires
        rem > 0,
        last > 0,
    ensures
        r == chunk(rem as int, last as int),
        0 < r <= rem,
{
    let n: usize = if last < rem {
        last
    } else {
        rem
    };
    if n > F20 {
        F20
    } else if 480 < n && n < F20 {
        480
    } else if F5 < n && n < 480 {
        F5
    } else {
        n
    }
}

proof fn lemma_chunks_push(done: Seq<int>, whole: Seq<int>, rem: int, last: int)
    requires
        rem > 0,
        last > 0,
        done + chunks(rem, last) == whole,
    ensures
        done.push(chunk(rem, last)) + chunks(rem - chunk(rem, last), last) == whole,
{
    assert(done.push(chunk(rem, last)) + chunks(rem - chunk(rem, last), last) =~= done + (seq![chunk(rem, last)]
        + chunks(rem - chunk(rem, last), last)));
}

/// Cuts a gap of `rem` samples into the chunks in which it is concealed, none
/// longer than 20 ms or than the last good frame.
pub fn conceal_chunks(rem: usize, last: usize) -> (r: Vec<usize>)
    requires
        last > 0,
    ensures
        sizes_view(r@) == chunks(rem as int, last as int),
{
    let mut out: Vec<usize> = Vec::new();
    let mut left: usize = rem;
    assert(sizes_view(out@) =~= Seq::<int>::empty());
    assert(Seq::<int>::empty() + chunks(rem as int, last as int) =~= chunks(rem as int, last as int));
    while left > 0
        invariant
            last > 0,
            sizes_view(out@) + chunks(left as int, last as int) == chunks(rem as int, last as int),
        decreases left,
    {
        let n: usize = chunk_size(left, last);
        proof {
            lemma_chunks_push(sizes_view(out@), chunks(rem as int, last as int), left as int, last as int);
        }
        let ghost before = sizes_view(out@);
        out.push(n);
        assert(sizes_view(out@) =~= before.push(n as int));
        left = left - n;
    }
    assert(sizes_view(out@) + Seq::<int>::empty() =~= sizes_view(out@));
    out
}

/// How a lost packet is concealed, in samples at 48 kHz.
pub struct LossPlan {
    /// What the linear-prediction decoder is told of each chunk; none where it
    /// has no part.
    pub silk: Vec<DecControl>,
    /// The sizes of its chunks.
    pub silk_sizes: Vec<usize>,
    /// The chunks of the transform decoder; none where it has no part.
    pub celt: Vec<usize>,
    /// The first band that it conceals.
    pub start: usize,
    /// The first band above those that it conceals.
    pub end: usize,
}

/// What a frame needs before its bits are read.
#[derive(Clone, Copy, Debug, PartialEq, Eq, Structural)]
pub struct FrameStart {
    /// The mode changes to or from transform-only coding.
    pub transition: bool,
    /// Conceal as many samples per channel in the old mode first, at the output
    /// rate.
    pub conceal: Option<usize>,
    /// Start the linear-prediction decoder afresh.
    pub reset_silk: bool,
    /// What the linear-prediction decoder is told, where it has a part.
    pub silk: Option<DecControl>,
    /// How often it is called for the frame.
    pub silk_calls: usize,
}

/// A redundant transform frame at the end of a packet.
#[derive(Clone, Copy, Debug, PartialEq, Eq, Structural)]
pub struct Redundancy {
    pub present: bool,
    /// It bridges the change from transform coding, at the start of the frame;
    /// else it bridges the change to it, at the end.
    pub celt_to_silk: bool,
    /// Its bytes, at the end of the data.
    pub bytes: usize,
    /// The bytes that are left for the frame itself.
    pub len: usize,
}

/// A redundant frame and the decoder's state behind its parameters.
#[verifier::ext_equal]
pub struct RedundancyOut {
    pub redundancy: Redundancy,
    pub dec: DecoderState,
}

/// The fade between the audio of two modes.
#[derive(Clone, Copy, Debug, PartialEq, Eq, Structural)]
pub enum TransitionFade {
    /// There is none.
    Off,
    /// 2.5 ms of the old audio, then 2.5 ms of fade.
    Long,
    /// 2.5 ms of fade.
    Short,
}

/// What the transform decoder does in a frame.
#[derive(Clone, Copy, Debug, PartialEq, Eq, Structural)]
pub enum MainPart {
    /// It has no part.
    Off,
    /// It decodes the frame's bands from `start` to `end`.
    Frame { size: usize, start: usize, end: usize },
    /// It decodes 2.5 ms of silence, to fade out.
    Silence { end: usize },
}

/// What is done with a frame once its redundancy is known.
#[derive(Clone, Copy, Debug, PartialEq, Eq, Structural)]
pub struct FramePlan {
    /// Conceal as many samples with the transform decoder, for the fade.
    pub conceal: Option<usize>,
    /// Decode the redundant frame before the main one.
    pub redundant_first: bool,
    /// Start the transform decoder afresh before the main part.
    pub reset_celt: bool,
    pub main: MainPart,
    /// Decode the redundant frame after the main one, with a fresh decoder.
    pub redundant_last: bool,
    /// Replace the start of the frame by the redundant audio.
    pub lead_in: bool,
    pub fade: TransitionFade,
}

/// The frames that the transform decoder read for one packet frame.
pub struct FrameAudio {
    pub redundant: Option<(FrameParams, FrameHistory)>,
    pub main: Option<(FrameParams, FrameHistory)>,
}

/// What is done with a packet.
pub enum PacketAction<'a> {
    /// It holds no audio: conceal as many samples per channel at the output rate.
    Conceal(usize),
    /// Decode its frames.
    Frames(Packet<'a>),
}

/// How a lost packet is restored from the next one.
#[derive(Clone, Copy, Debug, PartialEq, Eq, Structural)]
pub enum FecPlan {
    /// There is nothing to restore it from: conceal as many samples per channel
    /// at the output rate.
    Conceal(usize),
    /// Conceal `before` samples per channel at the output rate, then decode the
    /// redundant low band of the first frame; `high` samples at 48 kHz of the high
    /// band are concealed.
    Restore { before: usize, ctl: DecControl, high: Option<usize>, mode: Mode, bandwidth: Bandwidth, size: usize },
}

/// The state of the Opus decoder of one stream between packets.
#[derive(Clone, Copy, Debug, PartialEq, Eq, Structural)]
pub struct OpusDecoder {
    pub channels: usize,
    /// The output rate in Hz.
    pub fs: u32,
    /// 48000 divided by it.
    pub ds: usize,
    /// The channels of the last packet.
    pub stream_channels: usize,
    pub prev_mode: Option<Mode>,
    /// The last frame ended in a redundant transform frame.
    pub prev_redundancy: bool,
    /// The end band of the last frame.
    pub prev_end: usize,
    /// The duration of the last good frame.
    pub last_frame_size: usize,
    /// What the linear-prediction decoder was told last.
    pub last_silk_ctl: Option<DecControl>,
    /// The final range of the last packet.
    pub final_range: u32,
}

/// Reads the parameters of a redundant frame, where there is room for one behind
/// the low band of a frame of `len` bytes.
pub open spec fn redundancy_spec(d: DecoderState, mode: Mode, len: int) -> RedundancyOut {
    let hybrid = mode == Mode::Hybrid;
    let need = if hybrid {
        37int
    } else {
        17
    };
    let absent = Redundancy { present: false, celt_to_silk: false, bytes: 0, len: len as usize };
    if mode == Mode::CeltOnly || d.tell() + need > 8 * len {
        RedundancyOut { redundancy: absent, dec: d }
    } else if hybrid && !d.bit(12) {
        RedundancyOut { redundancy: absent, dec: d.after_bit(12) }
    } else {
        let a = if hybrid {
            d.after_bit(12)
        } else {
            d
        };
        let b = a.after_bit(1);
        let after = if hybrid {
            b.after_uint(256)
        } else {
            b
        };
        let bytes = if hybrid {
            b.uint(256) + 2
        } else {
            len - (b.tell() + 7) / 8
        };
        if 8 * (len - bytes) < after.tell() {
            RedundancyOut {
                redundancy: Redundancy { present: false, celt_to_silk: a.bit(1), bytes: 0, len: 0 },
                dec: after,
            }
        } else {
            RedundancyOut {
                redundancy: Redundancy {
                    present: true,
                    celt_to_silk: a.bit(1),
                    bytes: bytes as usize,
                    len: (len - bytes) as usize,
                },
                dec: after.shrunk(len - bytes),
            }
        }
    }
}

/// Reads the parameters of a redundant frame. No raw bits may have been read yet.
pub fn read_redundancy(dec: &mut RangeDecoder, mode: Mode, len: usize) -> (r: Redundancy)
    requires
        old(dec).wf(),
        old(dec)@.raw == 0,
        old(dec)@.data.len() == len,
        len <= 0x1_0000,
    ensures
        final(dec).wf(),
        r == redundancy_spec(old(dec)@, mode, len as int).redundancy,
        final(dec)@ == redundancy_spec(old(dec)@, mode, len as int).dec,
        r.present ==> r.bytes + r.len == len,
        r.len <= len,
{
    proof {
        dec.lemma_wf();
    }
    let hybrid: bool = mode == Mode::Hybrid;
    let need: u32 = if hybrid {
        37
    } else {
        17
    };
    if mode == Mode::CeltOnly || dec.tell() + need > 8 * len as u32 {
        return Redundancy { present: false, celt_to_silk: false, bytes: 0, len };
    }
    if hybrid {
        proof {
            lemma_after_bit(dec@, 12);
        }
        if !dec.decode_bit_logp(12) {
            return Redundancy { present: false, celt_to_silk: false, bytes: 0, len };
        }
    }
    proof {
        lemma_after_bit(dec@, 1);
        lemma_even_bit_tell(dec@);
    }
    let celt_to_silk: bool = dec.decode_bit_logp(1);
    let bytes: i64 = if hybrid {
        proof {
            lemma_small_uint(dec@, 256);
        }
        match dec.decode_uint(256) {
            Some(x) => x as i64 + 2,
            None => 2,
        }
    } else {
        len as i64 - ((dec.tell() + 7) / 8) as i64
    };
    let rest: i64 = len as i64 - bytes;
    if 8 * rest < dec.tell() as i64 {
        Redundancy { present: false, celt_to_silk, bytes: 0, len: 0 }
    } else {
        dec.shrink_storage(rest as usize);
        Redundancy { present: true, celt_to_silk, bytes: bytes as usize, len: rest as usize }
    }
}

impl OpusDecoder {
    /// The output rates that a decoder can have.
    pub open spec fn rate_ok(fs_hz: int) -> bool {
        CeltDecoder::rate_ok(fs_hz)
    }

    /// What holds of a decoder between packets.
    pub open spec fn wf(self) -> bool {
        &&& self.channels == 1 || self.channels == 2
        &&& OpusDecoder::rate_ok(self.fs as int)
        &&& self.ds == 48_000u32 / self.fs
        &&& self.stream_channels == 1 || self.stream_channels == 2
        &&& self.prev_end <= 21
        &&& is_frame_size(self.last_frame_size as int)
    }

    proof fn lemma_ds(self)
        requires
            self.wf(),
        ensures
            1 <= self.ds <= 6,
    {
        assert(48_000u32 / 48_000u32 == 1);
        assert(48_000u32 / 24_000u32 == 2);
        assert(48_000u32 / 16_000u32 == 3);
        assert(48_000u32 / 12_000u32 == 4);
        assert(48_000u32 / 8_000u32 == 6);
    }

    /// A decoder that has seen nothing yet.
    pub open spec fn fresh(fs_hz: u32, channels: usize) -> OpusDecoder {
        OpusDecoder {
            channels,
            fs: fs_hz,
            ds: (48_000u32 / fs_hz) as usize,
            stream_channels: channels,
            prev_mode: None,
            prev_redundancy: false,
            prev_end: 21,
            last_frame_size: 120,
            last_silk_ctl: None,
            final_range: 0,
        }
    }

    /// A decoder at 48 kHz.
    pub fn new(channels: usize) -> (r: OpusDecoder)
        requires
            channels == 1 || channels == 2,
        ensures
            r == OpusDecoder::fresh(48_000, channels),
            r.wf(),
    {
        Self::with_rate(48_000, channels)
    }

    /// A decoder at one of the output rates.
    pub fn with_rate(fs_hz: u32, channels: usize) -> (r: OpusDecoder)
        requires
            channels == 1 || channels == 2,
            OpusDecoder::rate_ok(fs_hz as int),
        ensures
            r == OpusDecoder::fresh(fs_hz, channels),
            r.wf(),
    {
        OpusDecoder {
            channels,
            fs: fs_hz,
            ds: (48_000 / fs_hz) as usize,
            stream_channels: channels,
            prev_mode: None,
            prev_redundancy: false,
            prev_end: 21,
            last_frame_size: 120,
            last_silk_ctl: None,
            final_range: 0,
        }
    }

    /// The final range of the last packet; zero after a concealed one.
    pub fn final_range(&self) -> (r: u32)
        ensures
            r == self.final_range,
    {
        self.final_range
    }

    /// Whether a packet of so many bytes holds audio at all.
    pub open spec fn is_dtx(data: Seq<u8>) -> bool {
        data.len() <= 1
    }

    /// Says what is done with a packet, and takes over its channels. Less than
    /// two bytes stand for silence as long as the last frame.
    pub fn decode_packet<'a>(&mut self, data: &'a [u8]) -> (r: Result<PacketAction<'a>, PacketError>)
        requires
            old(self).wf(),
        ensures
            final(self).wf(),
            OpusDecoder::is_dtx(data@) ==> {
                &&& r is Ok
                &&& r->Ok_0 is Conceal
                &&& r->Ok_0->Conceal_0 == old(self).last_frame_size / old(self).ds
                &&& *final(self) == *old(self)
            },
            !OpusDecoder::is_dtx(data@) ==> match crate::packet::layout(data@) {
                Err(e) => r is Err && r->Err_0 == e && *final(self) == *old(self),
                Ok(l) => {
                    &&& r is Ok
                    &&& r->Ok_0 is Frames
                    &&& r->Ok_0->Frames_0@.toc == data@[0]
                    &&& r->Ok_0->Frames_0@.frames == crate::packet::cut(data@, l)
                    &&& *final(self) == (OpusDecoder {
                        stream_channels: if data@[0] / 4 % 2 == 1 {
                            2
                        } else {
                            1
                        },
                        ..*old(self)
                    })
                },
            },
    {
        if data.len() <= 1 {
            proof {
                self.lemma_ds();
            }
            return Ok(PacketAction::Conceal(self.last_frame_size / self.ds));
        }
        match Packet::parse(data) {
            Err(e) => Err(e),
            Ok(p) => {
                self.stream_channels = p.toc().channels() as usize;
                Ok(PacketAction::Frames(p))
            },
        }
    }

    /// What the linear-prediction decoder is told of a frame.
    pub open spec fn control(self, stream_channels: usize, mode: Mode, bw: Bandwidth, n: int) -> DecControl {
        DecControl {
            channels_internal: stream_channels,
            channels_api: self.channels,
            internal_sample_rate: internal_rate(mode, bw),
            api_sample_rate: self.fs,
            payload_size_ms: payload_ms(n) as usize,
        }
    }

    fn make_control(&self, stream_channels: usize, mode: Mode, bw: Bandwidth, n: usize) -> (r: DecControl)
        ensures
            r == self.control(stream_channels, mode, bw, n as int),
    {
        let ms: usize = n / 48;
        let rate: u32 = if mode == Mode::SilkOnly {
            match bw {
                Bandwidth::NarrowBand => 8_000,
                Bandwidth::MediumBand => 12_000,
                _ => 16_000,
            }
        } else {
            16_000
        };
        DecControl {
            channels_internal: stream_channels,
            channels_api: self.channels,
            internal_sample_rate: rate,
            api_sample_rate: self.fs,
            payload_size_ms: if ms < 10 {
                10
            } else {
                ms
            },
        }
    }

    /// The mode in which a loss is concealed.
    pub open spec fn loss_mode(self) -> Option<Mode> {
        if self.prev_redundancy {
            Some(Mode::CeltOnly)
        } else {
            self.prev_mode
        }
    }

    /// The chunks that the linear-prediction decoder conceals of a gap.
    pub open spec fn silk_chunks(self, gap: int) -> Seq<int> {
        if (self.loss_mode() == Some(Mode::SilkOnly) || self.loss_mode() == Some(Mode::Hybrid)) && self.last_silk_ctl
            is Some {
            chunks(gap, self.last_frame_size as int)
        } else {
            Seq::empty()
        }
    }

    /// The chunks that the transform decoder conceals of a gap: of a hybrid
    /// stream only the high bands, 20 ms at a time.
    pub open spec fn celt_chunks(self, gap: int) -> Seq<int> {
        if self.loss_mode() == Some(Mode::CeltOnly) {
            chunks(gap, self.last_frame_size as int)
        } else if self.loss_mode() == Some(Mode::Hybrid) {
            chunks(gap, 960)
        } else {
            Seq::empty()
        }
    }

    /// The first band that the transform decoder conceals of a gap.
    pub open spec fn first_lost_band(self) -> int {
        if self.loss_mode() == Some(Mode::Hybrid) {
            17
        } else {
            0
        }
    }

    /// Whether a gap can be concealed: nothing, or what a packet can hold, 2.5 to 60 ms;
    /// where the transform decoder has a part, it consists of frames that this has.
    pub open spec fn can_conceal(self, gap: int) -> bool {
        &&& gap == 0 || 120 <= gap <= 2880
        &&& self.loss_mode() == Some(Mode::CeltOnly) ==> gap % 120 == 0
        &&& self.loss_mode() == Some(Mode::Hybrid) ==> gap % 960 == 0 || gap % 960 == 120 || gap % 960 == 240 || gap
            % 960 == 480
    }

    /// Whether `frame_size` lost samples per channel at the output rate can be concealed.
    pub fn conceals(&self, frame_size: usize) -> (r: bool)
        requires
            self.wf(),
        ensures
            r == self.can_conceal(frame_size * self.ds),
    {
        proof {
            self.lemma_ds();
            let f = frame_size as int;
            let ds = self.ds as int;
            if f > 2880 {
                assert(f * ds > 2880) by (nonlinear_arith)
                    requires
                        f > 2880,
                        ds >= 1,
                ;
            } else {
                assert(0 <= f * ds <= 2880 * 6) by (nonlinear_arith)
                    requires
                        0 <= f <= 2880,
                        1 <= ds <= 6,
                ;
            }
        }
        if frame_size > 2880 {
            return false;
        }
        let gap: usize = frame_size * self.ds;
        let mode: Option<Mode> = if self.prev_redundancy {
            Some(Mode::CeltOnly)
        } else {
            self.prev_mode
        };
        let whole: bool = match mode {
            Some(Mode::CeltOnly) => gap % 120 == 0,
            Some(Mode::Hybrid) => gap % 960 == 0 || gap % 960 == 120 || gap % 960 == 240 || gap % 960 == 480,
            _ => true,
        };
        (gap == 0 || 120 <= gap && gap <= 2880) && whole
    }

    /// Plans the concealment of `frame_size` lost samples per channel at the
    /// output rate, and clears the final range.
    pub fn decode_lost(&mut self, frame_size: usize) -> (r: LossPlan)
        requires
            old(self).wf(),
            old(self).can_conceal(frame_size * old(self).ds),
        ensures
            *final(self) == (OpusDecoder { final_range: 0, ..*old(self) }),
            ({
                let gap = (frame_size * old(self).ds) as int;
                let silk = old(self).silk_chunks(gap);
                &&& r.silk@ == Seq::new(
                    silk.len(),
                    |i: int|
                        DecControl {
                            payload_size_ms: payload_ms(silk[i]) as usize,
                            ..old(self).last_silk_ctl->0
                        },
                )
                &&& sizes_view(r.silk_sizes@) == silk
                &&& sizes_view(r.celt@) == old(self).celt_chunks(gap)
                &&& r.start == old(self).first_lost_band()
                &&& r.end == old(self).prev_end
            }),
    {
        proof {
            self.lemma_ds();
        }
        let gap: usize = frame_size * self.ds;
        let mode: Option<Mode> = if self.prev_redundancy {
            Some(Mode::CeltOnly)
        } else {
            self.prev_mode
        };
        let silk_mode: bool = match mode {
            Some(Mode::SilkOnly) | Some(Mode::Hybrid) => true,
            _ => false,
        };
        let mut silk: Vec<DecControl> = Vec::new();
        let mut silk_sizes: Vec<usize> = Vec::new();
        assert(sizes_view(silk_sizes@) =~= Seq::<int>::empty());
        if silk_mode {
            if let Some(base) = self.last_silk_ctl {
                let sizes: Vec<usize> = conceal_chunks(gap, self.last_frame_size);
                let ghost list = chunks(gap as int, self.last_frame_size as int);
                let mut i: usize = 0;
                while i < sizes.len()
                    invariant
                        i <= sizes@.len(),
                        sizes_view(sizes@) == list,
                        silk@ == Seq::new(
                            i as nat,
                            |k: int| DecControl { payload_size_ms: payload_ms(list[k]) as usize, ..base },
                        ),
                    decreases sizes.len() - i,
                {
                    let ms: usize = sizes[i] / 48;
                    assert(list[i as int] == sizes@[i as int]);
                    silk.push(
                        DecControl {
                            channels_internal: base.channels_internal,
                            channels_api: base.channels_api,
                            internal_sample_rate: base.internal_sample_rate,
                            api_sample_rate: base.api_sample_rate,
                            payload_size_ms: if ms < 10 {
                                10
                            } else {
                                ms
                            },
                        },
                    );
                    i = i + 1;
                }
                silk_sizes = sizes;
            }
        }
        let hybrid: bool = mode == Some(Mode::Hybrid);
        let celt: Vec<usize> = if mode == Some(Mode::CeltOnly) {
            conceal_chunks(gap, self.last_frame_size)
        } else if hybrid {
            conceal_chunks(gap, F20)
        } else {
            Vec::new()
        };
        assert(mode != Some(Mode::CeltOnly) && !hybrid ==> sizes_view(celt@) =~= Seq::<int>::empty());
        self.final_range = 0;
        LossPlan {
            silk,
            silk_sizes,
            celt,
            start: if hybrid {
                17
            } else {
                0
            },
            end: self.prev_end,
        }
    }

    /// Whether the mode changes to or from transform-only coding.
    pub open spec fn transition(self, mode: Mode) -> bool {
        self.prev_mode is Some && ((mode == Mode::CeltOnly && self.prev_mode->0 != Mode::CeltOnly
            && !self.prev_redundancy) || (mode != Mode::CeltOnly && self.prev_mode->0 == Mode::CeltOnly))
    }

    fn is_transition(&self, mode: Mode) -> (r: bool)
        ensures
            r == self.transition(mode),
    {
        match self.prev_mode {
            None => false,
            Some(prev) => (mode == Mode::CeltOnly && prev != Mode::CeltOnly && !self.prev_redundancy) || (mode
                != Mode::CeltOnly && prev == Mode::CeltOnly),
        }
    }

    /// What a frame needs before its bits are read.
    pub open spec fn start_spec(self, mode: Mode, bw: Bandwidth, n: int) -> FrameStart {
        let low = mode != Mode::CeltOnly;
        FrameStart {
            transition: self.transition(mode),
            conceal: if self.transition(mode) && !low {
                Some((math::min(240, n) / self.ds as int) as usize)
            } else {
                None
            },
            reset_silk: low && self.prev_mode == Some(Mode::CeltOnly),
            silk: if low {
                Some(self.control(self.stream_channels, mode, bw, n))
            } else {
                None
            },
            silk_calls: if low {
                ((payload_ms(n) + 19) / 20) as usize
            } else {
                0
            },
        }
    }

    /// Says what a frame of `frame_size` samples at 48 kHz needs before its bits
    /// are read.
    pub fn start_frame(&self, mode: Mode, bandwidth: Bandwidth, frame_size: usize) -> (r: FrameStart)
        requires
            self.wf(),
            is_frame_size(frame_size as int),
        ensures
            r == self.start_spec(mode, bandwidth, frame_size as int),
    {
        proof {
            self.lemma_ds();
        }
        let transition: bool = self.is_transition(mode);
        let low: bool = mode != Mode::CeltOnly;
        let ctl: DecControl = self.make_control(self.stream_channels, mode, bandwidth, frame_size);
        let n: usize = if frame_size < F5 {
            frame_size
        } else {
            F5
        };
        FrameStart {
            transition,
            conceal: if transition && !low {
                Some(n / self.ds)
            } else {
                None
            },
            reset_silk: low && self.prev_mode == Some(Mode::CeltOnly),
            silk: if low {
                Some(ctl)
            } else {
                None
            },
            silk_calls: if low {
                (ctl.payload_size_ms + 19) / 20
            } else {
                0
            },
        }
    }

    /// What is done with a frame once its redundancy is known.
    pub open spec fn plan_spec(self, mode: Mode, bw: Bandwidth, n: int, red: Redundancy) -> FramePlan {
        let fading = self.transition(mode) && !red.present;
        let changed = self.prev_mode is Some && self.prev_mode->0 != mode;
        FramePlan {
            conceal: if fading && mode != Mode::CeltOnly && self.prev_mode == Some(Mode::CeltOnly) {
                Some(math::min(240, n) as usize)
            } else {
                None
            },
            redundant_first: red.present && red.celt_to_silk,
            reset_celt: mode != Mode::SilkOnly && changed && !self.prev_redundancy,
            main: if mode != Mode::SilkOnly {
                MainPart::Frame {
                    size: math::min(960, n) as usize,
                    start: if mode == Mode::CeltOnly {
                        0
                    } else {
                        17
                    },
                    end: end_band_spec(bw),
                }
            } else if self.prev_mode == Some(Mode::Hybrid) && !(red.present && red.celt_to_silk
                && self.prev_redundancy) {
                MainPart::Silence { end: end_band_spec(bw) }
            } else {
                MainPart::Off
            },
            redundant_last: red.present && !red.celt_to_silk,
            lead_in: red.present && red.celt_to_silk && (self.prev_mode != Some(Mode::SilkOnly)
                || self.prev_redundancy),
            fade: if !fading {
                TransitionFade::Off
            } else if n >= 240 {
                TransitionFade::Long
            } else {
                TransitionFade::Short
            },
        }
    }

    /// Says what is done with a frame once its redundancy is known.
    pub fn plan_frame(&self, mode: Mode, bandwidth: Bandwidth, frame_size: usize, red: Redundancy) -> (r: FramePlan)
        ensures
            r == self.plan_spec(mode, bandwidth, frame_size as int, red),
    {
        let fading: bool = self.is_transition(mode) && !red.present;
        let changed: bool = match self.prev_mode {
            None => false,
            Some(prev) => prev != mode,
        };
        let end: usize = end_band(bandwidth);
        let early: bool = red.present && red.celt_to_silk;
        FramePlan {
            conceal: if fading && mode != Mode::CeltOnly && self.prev_mode == Some(Mode::CeltOnly) {
                Some(
                    if frame_size < F5 {
                        frame_size
                    } else {
                        F5
                    },
                )
            } else {
                None
            },
            redundant_first: early,
            reset_celt: mode != Mode::SilkOnly && changed && !self.prev_redundancy,
            main: if mode != Mode::SilkOnly {
                MainPart::Frame {
                    size: if frame_size < F20 {
                        frame_size
                    } else {
                        F20
                    },
                    start: if mode == Mode::CeltOnly {
                        0
                    } else {
                        17
                    },
                    end,
                }
            } else if self.prev_mode == Some(Mode::Hybrid) && !(early && self.prev_redundancy) {
                MainPart::Silence { end }
            } else {
                MainPart::Off
            },
            redundant_last: red.present && !red.celt_to_silk,
            lead_in: early && (self.prev_mode != Some(Mode::SilkOnly) || self.prev_redundancy),
            fade: if !fading {
                TransitionFade::Off
            } else if frame_size >= F5 {
                TransitionFade::Long
            } else {
                TransitionFade::Short
            },
        }
    }
}

/// A frame that the transform decoder read.
#[verifier::ext_equal]
pub struct ReadFrame {
    pub frame: FrameSpec,
    pub history: FrameHistory,
}

/// The transform decoder's way through a packet frame.
#[verifier::ext_equal]
pub struct CeltRun {
    pub redundant: Option<ReadFrame>,
    pub main: Option<ReadFrame>,
    pub celt: CeltDecoder,
    pub dec: DecoderState,
}

/// The last `n` bytes.
pub open spec fn tail(data: Seq<u8>, n: int) -> Seq<u8> {
    data.subrange(data.len() - n, data.len() as int)
}

/// The place of a redundant frame.
pub open spec fn redundant_place(bytes: int, channels: int, end: int) -> FramePlace {
    FramePlace { bytes, size: 240, channels, start: 0, end }
}

/// What is read of a frame.
pub open spec fn read(c: CeltDecoder, d: DecoderState, place: FramePlace) -> ReadFrame {
    ReadFrame { frame: c.frame_at(d, place), history: c.history(c.frame_at(d, place), place) }
}

impl FrameAudio {
    /// Whether the frames are those of a run.
    pub open spec fn holds(&self, run: CeltRun) -> bool {
        &&& self.redundant is Some <==> run.redundant is Some
        &&& self.redundant is Some ==> (self.redundant->0).0.holds(run.redundant->0.frame) && (self.redundant->0).1
            == run.redundant->0.history
        &&& self.main is Some <==> run.main is Some
        &&& self.main is Some ==> (self.main->0).0.holds(run.main->0.frame) && (self.main->0).1
            == run.main->0.history
    }
}

impl OpusDecoder {
    /// The transform decoder's way through a frame: the redundant frame first or
    /// last, and the main part.
    pub open spec fn run_spec(
        self,
        c: CeltDecoder,
        d: DecoderState,
        data: Seq<u8>,
        plan: FramePlan,
        red: Redundancy,
        end: int,
    ) -> CeltRun {
        let sc = self.stream_channels as int;
        let fresh = CeltDecoder::fresh(self.channels, self.ds);
        let place = redundant_place(red.bytes as int, sc, end);
        let spare = DecoderState::start(tail(data, red.bytes as int));
        let first = read(c, spare, place);
        let c1 = if plan.redundant_first {
            c.after(first.frame, place)
        } else {
            c
        };
        let c2 = if plan.reset_celt {
            fresh
        } else {
            c1
        };
        let main_place = match plan.main {
            MainPart::Frame { size, start, end } => FramePlace {
                bytes: red.len as int,
                size: size as int,
                channels: sc,
                start: start as int,
                end: end as int,
            },
            _ => FramePlace { bytes: 2, size: 120, channels: sc, start: 0, end },
        };
        let main = match plan.main {
            MainPart::Frame { size, start, end } => read(c2, d, main_place),
            _ => read(c2, DecoderState::start(seq![0xFFu8, 0xFFu8]), main_place),
        };
        let c3 = if plan.main is Off {
            c2
        } else {
            c2.after(main.frame, main_place)
        };
        let last = read(fresh, spare, place);
        CeltRun {
            redundant: if plan.redundant_first {
                Some(first)
            } else if plan.redundant_last {
                Some(last)
            } else {
                None
            },
            main: if plan.main is Off {
                None
            } else {
                Some(main)
            },
            celt: if plan.redundant_last {
                fresh.after(last.frame, place)
            } else {
                c3
            },
            dec: if plan.main is Frame {
                main.frame.last.dec
            } else {
                d
            },
        }
    }

    /// The final range of a packet: the main coder's, mixed with that of a
    /// redundant frame.
    pub open spec fn mixed_range(run: CeltRun) -> u32 {
        (run.dec.rng as u32) ^ (if run.redundant is Some {
            run.redundant->0.frame.last.dec.rng as u32
        } else {
            0u32
        })
    }

    /// The state after a frame.
    pub open spec fn after_frame(
        self,
        mode: Mode,
        bw: Bandwidth,
        n: usize,
        red: Redundancy,
        run: CeltRun,
    ) -> OpusDecoder {
        OpusDecoder {
            final_range: OpusDecoder::mixed_range(run),
            prev_mode: Some(mode),
            prev_end: end_band_spec(bw),
            last_frame_size: n,
            prev_redundancy: red.present && !red.celt_to_silk,
            last_silk_ctl: if mode != Mode::CeltOnly {
                Some(self.control(self.stream_channels, mode, bw, n as int))
            } else {
                self.last_silk_ctl
            },
            ..self
        }
    }

    /// Reads what the transform decoder has in a frame, behind its low band and
    /// its redundancy parameters, and moves both decoders past the frame.
    pub fn decode_frame(
        &mut self,
        celt: &mut CeltDecoder,
        dec: &mut RangeDecoder,
        data: &[u8],
        mode: Mode,
        bandwidth: Bandwidth,
        frame_size: usize,
        red: Redundancy,
    ) -> (r: FrameAudio)
        requires
            old(self).wf(),
            old(dec).wf(),
            old(celt).wf(),
            data@.len() <= 0x1_0000,
            is_frame_size(frame_size as int),
            mode == Mode::Hybrid ==> bandwidth == Bandwidth::SuperWideBand || bandwidth == Bandwidth::FullBand,
            red.len <= data@.len(),
            red.present ==> red.bytes <= data@.len(),
        ensures
            final(dec).wf(),
            ({
                let plan = old(self).plan_spec(mode, bandwidth, frame_size as int, red);
                let run = old(self).run_spec(
                    *old(celt),
                    old(dec)@,
                    data@,
                    plan,
                    red,
                    end_band_spec(bandwidth) as int,
                );
                &&& r.holds(run)
                &&& *final(celt) == run.celt
                &&& final(dec)@ == run.dec
                &&& *final(self) == old(self).after_frame(mode, bandwidth, frame_size, red, run)
            }),
            final(self).wf(),
            final(celt).wf(),
    {
        let plan: FramePlan = self.plan_frame(mode, bandwidth, frame_size, red);
        let end: usize = end_band(bandwidth);
        let len: usize = data.len();
        let mut redundant: Option<(FrameParams, FrameHistory)> = None;
        let mut main: Option<(FrameParams, FrameHistory)> = None;
        let mut redundant_rng: u32 = 0;
        if plan.redundant_first {
            let mut rdec: RangeDecoder = RangeDecoder::new(vstd::slice::slice_subrange(data, len - red.bytes, len));
            redundant = Some(celt.decode_frame(&mut rdec, red.bytes, F5, self.stream_channels, 0, end));
            redundant_rng = rdec.range_size();
        }
        if plan.reset_celt {
            *celt = CeltDecoder::with_rate(self.channels, self.fs);
        }
        match plan.main {
            MainPart::Frame { size, start, end } => {
                main = Some(celt.decode_frame(dec, red.len, size, self.stream_channels, start, end));
            },
            MainPart::Silence { end } => {
                let silence: Vec<u8> = vec![0xFFu8; 2];
                assert(silence@ =~= seq![0xFFu8, 0xFFu8]);
                let mut sdec: RangeDecoder = RangeDecoder::new(silence.as_slice());
                main = Some(celt.decode_frame(&mut sdec, 2, 120, self.stream_channels, 0, end));
            },
            MainPart::Off => {},
        }
        if plan.redundant_last {
            *celt = CeltDecoder::with_rate(self.channels, self.fs);
            let mut rdec: RangeDecoder = RangeDecoder::new(vstd::slice::slice_subrange(data, len - red.bytes, len));
            redundant = Some(celt.decode_frame(&mut rdec, red.bytes, F5, self.stream_channels, 0, end));
            redundant_rng = rdec.range_size();
        }
        if mode != Mode::CeltOnly {
            self.last_silk_ctl = Some(self.make_control(self.stream_channels, mode, bandwidth, frame_size));
        }
        self.final_range = dec.range_size() ^ redundant_rng;
        self.prev_mode = Some(mode);
        self.prev_end = end;
        self.last_frame_size = frame_size;
        self.prev_redundancy = red.present && !red.celt_to_silk;
        FrameAudio { redundant, main }
    }

    /// How a lost packet is restored from the one after it.
    pub open spec fn fec_spec(self, data: Seq<u8>, frame_size: int) -> FecPlan {
        let config = data[0] as int / 8;
        let mode = crate::packet::mode_of(config);
        let bw = crate::packet::bandwidth_of(config);
        let n = crate::packet::frame_size_of(config).samples();
        let gap = frame_size * self.ds;
        if gap < n || mode == Mode::CeltOnly || self.prev_mode == Some(Mode::CeltOnly) {
            FecPlan::Conceal(frame_size as usize)
        } else {
            FecPlan::Restore {
                before: ((gap - n) / self.ds as int) as usize,
                ctl: self.control(
                    if data[0] / 4 % 2 == 1 {
                        2
                    } else {
                        1
                    },
                    mode,
                    bw,
                    n,
                ),
                high: if mode == Mode::Hybrid {
                    Some(n as usize)
                } else {
                    None
                },
                mode,
                bandwidth: bw,
                size: n as usize,
            }
        }
    }

    /// Says how a lost packet of `frame_size` samples per channel at the output
    /// rate is restored from the packet after it: the first frame of that one may
    /// hold its low band once more.
    pub fn decode_fec(&self, data: &[u8], frame_size: usize) -> (r: Result<FecPlan, PacketError>)
        requires
            self.wf(),
            frame_size * self.ds <= usize::MAX,
        ensures
            r is Ok <==> crate::packet::layout(data@) is Ok,
            r is Err ==> r->Err_0 == crate::packet::layout(data@)->Err_0,
            r is Ok ==> r->Ok_0 == self.fec_spec(data@, frame_size as int),
    {
        let packet: Packet = match Packet::parse(data) {
            Err(e) => {
                return Err(e);
            },
            Ok(p) => p,
        };
        let toc = packet.toc();
        let mode: Mode = toc.mode();
        let bandwidth: Bandwidth = toc.bandwidth();
        let size: usize = toc.frame_size().samples_per_channel_48k();
        proof {
            self.lemma_ds();
        }
        let gap: usize = frame_size * self.ds;
        if gap < size || mode == Mode::CeltOnly || self.prev_mode == Some(Mode::CeltOnly) {
            return Ok(FecPlan::Conceal(frame_size));
        }
        Ok(
            FecPlan::Restore {
                before: (gap - size) / self.ds,
                ctl: self.make_control(toc.channels() as usize, mode, bandwidth, size),
                high: if mode == Mode::Hybrid {
                    Some(size)
                } else {
                    None
                },
                mode,
                bandwidth,
                size,
            },
        )
    }

    /// Moves the decoder past a restored packet, whose decoding ended in the
    /// interval `range`.
    pub fn finish_fec(&mut self, plan: FecPlan, range: u32)
        ensures
            *final(self) == match plan {
                FecPlan::Conceal(_) => *old(self),
                FecPlan::Restore { before, ctl, high, mode, bandwidth, size } => OpusDecoder {
                    stream_channels: ctl.channels_internal,
                    last_silk_ctl: Some(ctl),
                    final_range: range,
                    prev_mode: Some(mode),
                    prev_redundancy: false,
                    prev_end: end_band_spec(bandwidth),
                    last_frame_size: size,
                    ..*old(self)
                },
            },
    {
        if let FecPlan::Restore { before: _, ctl, high: _, mode, bandwidth, size } = plan {
            self.stream_channels = ctl.channels_internal;
            self.last_silk_ctl = Some(ctl);
            self.final_range = range;
            self.prev_mode = Some(mode);
            self.prev_redundancy = false;
            self.prev_end = end_band(bandwidth);
            self.last_frame_size = size;
        }
    }
}

/// Why a file was not decoded.
#[derive(Clone, Copy, Debug, PartialEq, Eq, Structural)]
pub enum OggDecodeError {
    /// The container or its headers are malformed.
    Container(OggOpusError),
    /// A packet is malformed.
    Packet(PacketError),
    /// Its channels are spread over several streams.
    UnsupportedMapping,
}

/// The channels of the decoder for a file: only a mono or stereo stream is decoded.
pub fn file_channels(head: &OpusHead) -> (r: Result<usize, OggDecodeError>)
    ensures
        r is Ok <==> head@.mapping is Family0,
        r is Ok ==> r->Ok_0 == head@.channels,
        r is Err ==> r->Err_0 == OggDecodeError::UnsupportedMapping,
{
    match &head.channel_mapping {
        ChannelMapping::Family0 => Ok(head.channel_count as usize),
        _ => Err(OggDecodeError::UnsupportedMapping),
    }
}

/// How many of the decoded samples of a stream are dropped at its start, and how many are
/// kept behind them.
pub open spec fn trimmed_spec(len: int, channels: int, pre_skip: int, final_granule: int) -> (int, int) {
    let first = math::min(len, pre_skip * channels);
    (first, math::min(len - first, math::max(final_granule - pre_skip, 0) * channels))
}

/// What is kept of the decoded samples of a stream: `len` of them, channels
/// interleaved, of which the first `pre_skip` per channel are dropped and none
/// are kept past the final granule position. Gives the number of samples to drop
/// and the number to keep.
pub fn trimmed(len: usize, channels: usize, pre_skip: u16, final_granule: u64) -> (r: (usize, usize))
    requires
        1 <= channels <= 255,
    ensures
        (r.0 as int, r.1 as int) == trimmed_spec(len as int, channels as int, pre_skip as int, final_granule as int),
{
    proof {
        lemma_mul_range(pre_skip as int, 0xFFFF, channels as int, 255);
    }
    let skip: usize = pre_skip as usize * channels;
    let first: usize = if skip < len {
        skip
    } else {
        len
    };
    let rest: usize = len - first;
    let total: u64 = if final_granule > pre_skip as u64 {
        final_granule - pre_skip as u64
    } else {
        0
    };
    proof {
        lemma_mul_range(total as int, 0xFFFF_FFFF_FFFF_FFFF, channels as int, 255);
    }
    let want: u128 = total as u128 * channels as u128;
    if want < rest as u128 {
        (first, want as usize)
    } else {
        (first, rest)
    }
}

} // verus!
