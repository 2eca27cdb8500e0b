//! Opus in Ogg: the two header packets, and the audio packets with their
//! positions.

pub mod laws;

use std::collections::VecDeque;

use vstd::prelude::*;
use vstd::utf8;

use crate::ogg::bytes::{self, lemma_le, lemma_le_bound, lemma_le_len, lemma_pow256, push_le, read_le};
use crate::ogg::page::{self, Open, OggPacket, PacketReader, PacketView, PageReader, PageView, Pending, NO_GRANULE};
use crate::ogg::writer::{self, PageWriter, Sent, WriterView, Written};
use crate::packet::{self, packet_samples_48k};

verus! {

/// What the identification header starts with.
pub const OPUS_HEAD_MAGIC: [u8; 8] = [0x4F, 0x70, 0x75, 0x73, 0x48, 0x65, 0x61, 0x64];

/// What the comment header starts with.
pub const OPUS_TAGS_MAGIC: [u8; 8] = [0x4F, 0x70, 0x75, 0x73, 0x54, 0x61, 0x67, 0x73];

/// Why a stream could not be read.
#[derive(Clone, Copy, Debug, PartialEq, Eq, Structural)]
pub enum OggOpusError {
    /// No logical stream starts with an identification header.
    NoOpusStream,
    /// The identification header is malformed.
    InvalidIdHeader,
    /// The version of the identification header is not known.
    UnsupportedVersion(u8),
    /// The comment header is missing or malformed.
    InvalidCommentHeader,
}

/// How coded streams make up the channels.
#[derive(Clone, Debug, PartialEq, Eq)]
pub enum ChannelMapping {
    /// One stream, mono or stereo.
    Family0,
    /// Any other family, with its table.
    Table {
        family: u8,
        /// The streams in each packet, at least one.
        stream_count: u8,
        /// Those of them that are stereo.
        coupled_count: u8,
        /// For each channel the decoded channel that it takes, or 255 for silence.
        mapping: Vec<u8>,
    },
}

/// What a channel mapping is.
#[verifier::ext_equal]
pub enum MappingView {
    Family0,
    Table { family: u8, streams: u8, coupled: u8, mapping: Seq<u8> },
}

impl View for ChannelMapping {
    type V = MappingView;

    open spec fn view(&self) -> MappingView {
        match self {
            ChannelMapping::Family0 => MappingView::Family0,
            ChannelMapping::Table { family, stream_count, coupled_count, mapping } => MappingView::Table {
                family: *family,
                streams: *stream_count,
                coupled: *coupled_count,
                mapping: mapping@,
            },
        }
    }
}

impl ChannelMapping {
    /// The streams in each packet.
    pub fn stream_count(&self) -> (r: u8)
        ensures
            r == match self@ {
                MappingView::Family0 => 1,
                MappingView::Table { family, streams, coupled, mapping } => streams,
            },
    {
        match self {
            ChannelMapping::Family0 => 1,
            ChannelMapping::Table { family: _, stream_count, coupled_count: _, mapping: _ } => *stream_count,
        }
    }
}

/// The identification header.
#[derive(Clone, Debug, PartialEq, Eq)]
pub struct OpusHead {
    pub version: u8,
    /// The number of channels.
    pub channel_count: u8,
    /// The samples at 48 kHz to drop at the start.
    pub pre_skip: u16,
    /// The rate of the original input in Hz; zero where it is not known.
    pub input_sample_rate: u32,
    /// The gain to play with, in 256ths of a decibel.
    pub output_gain_q8: i16,
    pub channel_mapping: ChannelMapping,
}

/// What an identification header is.
#[verifier::ext_equal]
pub struct HeadView {
    pub version: u8,
    pub channels: u8,
    pub pre_skip: u16,
    pub rate: u32,
    pub gain: i16,
    pub mapping: MappingView,
}

impl View for OpusHead {
    type V = HeadView;

    open spec fn view(&self) -> HeadView {
        HeadView {
            version: self.version,
            channels: self.channel_count,
            pre_skip: self.pre_skip,
            rate: self.input_sample_rate,
            gain: self.output_gain_q8,
            mapping: self.channel_mapping@,
        }
    }
}

/// The head's magic.
pub open spec fn head_magic() -> Seq<u8> {
    seq![0x4Fu8, 0x70u8, 0x75u8, 0x73u8, 0x48u8, 0x65u8, 0x61u8, 0x64u8]
}

/// The tags' magic.
pub open spec fn tags_magic() -> Seq<u8> {
    seq![0x4Fu8, 0x70u8, 0x75u8, 0x73u8, 0x54u8, 0x61u8, 0x67u8, 0x73u8]
}

/// Whether a channel table uses only decoded channels that there are.
pub open spec fn mapping_ok(streams: int, coupled: int, mapping: Seq<u8>) -> bool {
    &&& streams >= 1
    &&& coupled <= streams
    &&& streams + coupled <= 255
    &&& forall|i: int| 0 <= i < mapping.len() ==> #[trigger] mapping[i] == 255 || mapping[i] < streams + coupled
}

impl HeadView {
    /// A header that can stand in a stream.
    pub open spec fn valid(self) -> bool {
        &&& self.version < 16
        &&& self.channels >= 1
        &&& match self.mapping {
            MappingView::Family0 => self.channels <= 2,
            MappingView::Table { family, streams, coupled, mapping } => {
                &&& family != 0
                &&& mapping.len() == self.channels
                &&& mapping_ok(streams as int, coupled as int, mapping)
            },
        }
    }

    /// The gain as two bytes.
    pub open spec fn gain_bits(self) -> int {
        if self.gain < 0 {
            self.gain + 0x1_0000
        } else {
            self.gain as int
        }
    }

    /// The bytes of the header.
    pub open spec fn bytes(self) -> Seq<u8> {
        head_magic() + seq![self.version, self.channels] + bytes::le_bytes(self.pre_skip as int, 2) + bytes::le_bytes(
            self.rate as int,
            4,
        ) + bytes::le_bytes(self.gain_bits(), 2) + match self.mapping {
            MappingView::Family0 => seq![0u8],
            MappingView::Table { family, streams, coupled, mapping } => seq![family, streams, coupled] + mapping,
        }
    }
}

/// The fields of a header up to the mapping.
pub open spec fn head_fields(d: Seq<u8>, mapping: MappingView) -> HeadView {
    let g = bytes::le_value(d.subrange(16, 18));
    HeadView {
        version: d[8],
        channels: d[9],
        pre_skip: bytes::le_value(d.subrange(10, 12)) as u16,
        rate: bytes::le_value(d.subrange(12, 16)) as u32,
        gain: (if g >= 0x8000 {
            g - 0x1_0000
        } else {
            g
        }) as i16,
        mapping,
    }
}

/// What an identification header says.
pub open spec fn parse_head(d: Seq<u8>) -> Result<HeadView, OggOpusError> {
    if d.len() < 19 || d.take(8) != head_magic() {
        Err(OggOpusError::InvalidIdHeader)
    } else if d[8] >= 16 {
        Err(OggOpusError::UnsupportedVersion(d[8]))
    } else if d[9] == 0 {
        Err(OggOpusError::InvalidIdHeader)
    } else if d[18] == 0 {
        if d[9] > 2 {
            Err(OggOpusError::InvalidIdHeader)
        } else {
            Ok(head_fields(d, MappingView::Family0))
        }
    } else if d.len() < 21 + d[9] {
        Err(OggOpusError::InvalidIdHeader)
    } else {
        let mapping = d.subrange(21, 21 + d[9]);
        if !mapping_ok(d[19] as int, d[20] as int, mapping) {
            Err(OggOpusError::InvalidIdHeader)
        } else {
            Ok(head_fields(d, MappingView::Table { family: d[18], streams: d[19], coupled: d[20], mapping }))
        }
    }
}

fn has_head_magic(data: &[u8]) -> (r: bool)
    ensures
        r == (data@.len() >= 8 && data@.take(8) == head_magic()),
{
    if data.len() < 8 {
        return false;
    }
    let r: bool = data[0] == 0x4F && data[1] == 0x70 && data[2] == 0x75 && data[3] == 0x73 && data[4] == 0x48
        && data[5] == 0x65 && data[6] == 0x61 && data[7] == 0x64;
    proof {
        let t = data@.take(8);
        let m = head_magic();
        if r {
            assert(t =~= m);
        } else {
            assert(t[0] != m[0] || t[1] != m[1] || t[2] != m[2] || t[3] != m[3] || t[4] != m[4] || t[5] != m[5]
                || t[6] != m[6] || t[7] != m[7]);
        }
    }
    r
}

fn has_tags_magic(data: &[u8]) -> (r: bool)
    ensures
        r == (data@.len() >= 8 && data@.take(8) == tags_magic()),
{
    if data.len() < 8 {
        return false;
    }
    let r: bool = data[0] == 0x4F && data[1] == 0x70 && data[2] == 0x75 && data[3] == 0x73 && data[4] == 0x54
        && data[5] == 0x61 && data[6] == 0x67 && data[7] == 0x73;
    proof {
        let t = data@.take(8);
        let m = tags_magic();
        if r {
            assert(t =~= m);
        } else {
            assert(t[0] != m[0] || t[1] != m[1] || t[2] != m[2] || t[3] != m[3] || t[4] != m[4] || t[5] != m[5]
                || t[6] != m[6] || t[7] != m[7]);
        }
    }
    r
}

fn check_mapping(streams: u8, coupled: u8, mapping: &[u8]) -> (r: bool)
    ensures
        r == mapping_ok(streams as int, coupled as int, mapping@),
{
    if streams == 0 || coupled > streams || streams as u16 + coupled as u16 > 255 {
        return false;
    }
    let decoded: u8 = streams + coupled;
    let mut i: usize = 0;
    let len: usize = mapping.len();
    while i < len
        invariant
            i <= len,
            len == mapping@.len(),
            decoded == streams + coupled,
            forall|k: int| 0 <= k < i ==> #[trigger] mapping@[k] == 255 || mapping@[k] < decoded,
        decreases len - i,
    {
        if mapping[i] != 255 && mapping[i] >= decoded {
            return false;
        }
        i = i + 1;
    }
    true
}

impl OpusHead {
    /// The number that the mapping of the channels goes by.
    pub fn mapping_family(&self) -> (r: u8)
        ensures
            r == match self@.mapping {
                MappingView::Family0 => 0,
                MappingView::Table { family, streams, coupled, mapping } => family,
            },
    {
        match &self.channel_mapping {
            ChannelMapping::Family0 => 0,
            ChannelMapping::Table { family, stream_count: _, coupled_count: _, mapping: _ } => *family,
        }
    }

    /// The streams of a mapping that is a table.
    pub fn stream_count(&self) -> (r: Option<u8>)
        ensures
            r == match self@.mapping {
                MappingView::Family0 => None,
                MappingView::Table { family, streams, coupled, mapping } => Some(streams),
            },
    {
        match &self.channel_mapping {
            ChannelMapping::Family0 => None,
            ChannelMapping::Table { family: _, stream_count, coupled_count: _, mapping: _ } => Some(*stream_count),
        }
    }

    /// The stereo streams of a mapping that is a table.
    pub fn coupled_count(&self) -> (r: Option<u8>)
        ensures
            r == match self@.mapping {
                MappingView::Family0 => None,
                MappingView::Table { family, streams, coupled, mapping } => Some(coupled),
            },
    {
        match &self.channel_mapping {
            ChannelMapping::Family0 => None,
            ChannelMapping::Table { family: _, stream_count: _, coupled_count, mapping: _ } => Some(*coupled_count),
        }
    }

    /// The table of a mapping that is one.
    pub fn channel_mapping(&self) -> (r: Option<Vec<u8>>)
        ensures
            match self@.mapping {
                MappingView::Family0 => r is None,
                MappingView::Table { family, streams, coupled, mapping } => r is Some && r->0@ == mapping,
            },
    {
        match &self.channel_mapping {
            ChannelMapping::Family0 => None,
            ChannelMapping::Table { family: _, stream_count: _, coupled_count: _, mapping } => {
                let copy: Vec<u8> = mapping.clone();
                assert(copy@ =~= mapping@);
                Some(copy)
            },
        }
    }

    /// Reads an identification header.
    pub fn parse(data: &[u8]) -> (r: Result<OpusHead, OggOpusError>)
        ensures
            r is Ok <==> parse_head(data@) is Ok,
            r is Ok ==> r->Ok_0@ == parse_head(data@)->Ok_0 && r->Ok_0@.valid(),
            r is Err ==> r->Err_0 == parse_head(data@)->Err_0,
    {
        let len: usize = data.len();
        if len < 19 || !has_head_magic(data) {
            return Err(OggOpusError::InvalidIdHeader);
        }
        let version: u8 = data[8];
        if version >= 16 {
            return Err(OggOpusError::UnsupportedVersion(version));
        }
        let channel_count: u8 = data[9];
        if channel_count == 0 {
            return Err(OggOpusError::InvalidIdHeader);
        }
        proof {
            lemma_pow256();
        }
        let pre_skip: u16 = read_le(data, 10, 2) as u16;
        let input_sample_rate: u32 = read_le(data, 12, 4) as u32;
        let g: i32 = read_le(data, 16, 2) as i32;
        let output_gain_q8: i16 = (if g >= 0x8000 {
            g - 0x1_0000
        } else {
            g
        }) as i16;
        let family: u8 = data[18];
        let channel_mapping: ChannelMapping = if family == 0 {
            if channel_count > 2 {
                return Err(OggOpusError::InvalidIdHeader);
            }
            ChannelMapping::Family0
        } else {
            let n: usize = channel_count as usize;
            if len < 21 + n {
                return Err(OggOpusError::InvalidIdHeader);
            }
            let table: &[u8] = vstd::slice::slice_subrange(data, 21, 21 + n);
            if !check_mapping(data[19], data[20], table) {
                return Err(OggOpusError::InvalidIdHeader);
            }
            ChannelMapping::Table {
                family,
                stream_count: data[19],
                coupled_count: data[20],
                mapping: vstd::slice::slice_to_vec(table),
            }
        };
        Ok(OpusHead { version, channel_count, pre_skip, input_sample_rate, output_gain_q8, channel_mapping })
    }

    /// The bytes of the header.
    pub fn to_bytes(&self) -> (r: Vec<u8>)
        ensures
            r@ == self@.bytes(),
    {
        let mut out: Vec<u8> = Vec::new();
        out.push(0x4F);
        out.push(0x70);
        out.push(0x75);
        out.push(0x73);
        out.push(0x48);
        out.push(0x65);
        out.push(0x61);
        out.push(0x64);
        out.push(self.version);
        out.push(self.channel_count);
        assert(out@ =~= head_magic() + seq![self.version, self.channel_count]);
        push_le(&mut out, self.pre_skip as u64, 2);
        push_le(&mut out, self.input_sample_rate as u64, 4);
        let g: i32 = self.output_gain_q8 as i32;
        let bits: u64 = (if g < 0 {
            g + 0x1_0000
        } else {
            g
        }) as u64;
        push_le(&mut out, bits, 2);
        let ghost fields = out@;
        match &self.channel_mapping {
            ChannelMapping::Family0 => {
                out.push(0);
                assert(out@ =~= fields + seq![0u8]);
            },
            ChannelMapping::Table { family, stream_count, coupled_count, mapping } => {
                out.push(*family);
                out.push(*stream_count);
                out.push(*coupled_count);
                out.extend_from_slice(mapping.as_slice());
                assert(out@ =~= fields + (seq![*family, *stream_count, *coupled_count] + mapping@));
            },
        }
        out
    }

    /// The usual header of a mono or stereo stream.
    pub fn family0(channels: u8, pre_skip: u16, input_sample_rate: u32) -> (r: OpusHead)
        requires
            channels == 1 || channels == 2,
        ensures
            r@ == (HeadView {
                version: 1,
                channels,
                pre_skip,
                rate: input_sample_rate,
                gain: 0,
                mapping: MappingView::Family0,
            }),
            r@.valid(),
    {
        OpusHead {
            version: 1,
            channel_count: channels,
            pre_skip,
            input_sample_rate,
            output_gain_q8: 0,
            channel_mapping: ChannelMapping::Family0,
        }
    }
}

/// A header is read back from its bytes.
pub proof fn lemma_head_round_trip(h: HeadView)
    requires
        h.valid(),
    ensures
        parse_head(h.bytes()) == Ok::<HeadView, OggOpusError>(h),
        19 <= h.bytes().len() <= 276,
        h.bytes().take(8) == head_magic(),
{
    let d = h.bytes();
    lemma_pow256();
    lemma_le(h.pre_skip as int, 2);
    lemma_le(h.rate as int, 4);
    lemma_le(h.gain_bits(), 2);
    assert(d.take(8) =~= head_magic());
    assert(d.subrange(10, 12) =~= bytes::le_bytes(h.pre_skip as int, 2));
    assert(d.subrange(12, 16) =~= bytes::le_bytes(h.rate as int, 4));
    assert(d.subrange(16, 18) =~= bytes::le_bytes(h.gain_bits(), 2));
    match h.mapping {
        MappingView::Family0 => {
            assert(head_fields(d, MappingView::Family0) =~= h);
        },
        MappingView::Table { family, streams, coupled, mapping } => {
            assert(d.subrange(21, 21 + d[9]) =~= mapping);
            assert(head_fields(d, h.mapping) =~= h);
        },
    }
}

/// What stands behind an identification header makes no difference to what it says.
pub proof fn lemma_head_trailing(d: Seq<u8>, more: Seq<u8>)
    requires
        parse_head(d) is Ok,
    ensures
        parse_head(d + more) == parse_head(d),
{
    let e = d + more;
    assert(e.take(8) =~= d.take(8));
    assert(e.subrange(10, 12) =~= d.subrange(10, 12));
    assert(e.subrange(12, 16) =~= d.subrange(12, 16));
    assert(e.subrange(16, 18) =~= d.subrange(16, 18));
    if d[18] != 0 {
        assert(e.subrange(21, 21 + d[9]) =~= d.subrange(21, 21 + d[9]));
    }
}

/// An identification header that was cut short is refused.
pub proof fn lemma_head_truncated(h: HeadView, k: int)
    requires
        h.valid(),
        0 <= k < h.bytes().len(),
    ensures
        parse_head(h.bytes().take(k)) == Err::<HeadView, OggOpusError>(OggOpusError::InvalidIdHeader),
{
    let d = h.bytes();
    lemma_le_len(h.pre_skip as int, 2);
    lemma_le_len(h.rate as int, 4);
    lemma_le_len(h.gain_bits(), 2);
    let e = d.take(k);
    if k >= 19 {
        assert(d[8] == h.version);
        assert(d[9] == h.channels);
        match h.mapping {
            MappingView::Family0 => {},
            MappingView::Table { family, streams, coupled, mapping } => {
                assert(d[18] == family);
            },
        }
        assert(e[8] == d[8] && e[9] == d[9] && e[18] == d[18]);
    }
}

/// The comment header: who wrote the stream, and comments of the form
/// `TAG=value`, as bytes.
#[derive(Clone, Debug, PartialEq, Eq)]
pub struct OpusTags {
    pub vendor: Vec<u8>,
    pub comments: Vec<Vec<u8>>,
}

/// What a comment header is.
#[verifier::ext_equal]
pub struct TagsView {
    pub vendor: Seq<u8>,
    pub comments: Seq<Seq<u8>>,
}

/// The comments of a list.
pub open spec fn comments_view(s: Seq<Vec<u8>>) -> Seq<Seq<u8>> {
    Seq::new(s.len(), |i: int| s[i]@)
}

impl View for OpusTags {
    type V = TagsView;

    open spec fn view(&self) -> TagsView {
        TagsView { vendor: self.vendor@, comments: comments_view(self.comments@) }
    }
}

/// A field with its length before it.
pub open spec fn field_bytes(s: Seq<u8>) -> Seq<u8> {
    bytes::le_bytes(s.len() as int, 4) + s
}

/// Fields, one after the other.
pub open spec fn fields_bytes(s: Seq<Seq<u8>>) -> Seq<u8>
    decreases s.len(),
{
    if s.len() == 0 {
        Seq::empty()
    } else {
        fields_bytes(s.drop_last()) + field_bytes(s.last())
    }
}

impl TagsView {
    /// The lengths fit the header's fields.
    pub open spec fn valid(self) -> bool {
        &&& self.vendor.len() < 0x1_0000_0000
        &&& self.comments.len() < 0x1_0000_0000
        &&& forall|i: int| 0 <= i < self.comments.len() ==> (#[trigger] self.comments[i]).len() < 0x1_0000_0000
    }

    /// The bytes of the header.
    pub open spec fn bytes(self) -> Seq<u8> {
        tags_magic() + field_bytes(self.vendor) + bytes::le_bytes(self.comments.len() as int, 4) + fields_bytes(
            self.comments,
        )
    }
}

/// A field that was read, and the place behind it.
#[verifier::ext_equal]
pub struct Field {
    pub data: Seq<u8>,
    pub next: int,
}

/// The field at `pos`.
pub open spec fn field_at(d: Seq<u8>, pos: int) -> Option<Field> {
    if pos + 4 > d.len() {
        None
    } else {
        let n = bytes::le_value(d.subrange(pos, pos + 4));
        if pos + 4 + n > d.len() {
            None
        } else {
            Some(Field { data: d.subrange(pos + 4, pos + 4 + n), next: pos + 4 + n })
        }
    }
}

/// Fields that were read, and the place behind them.
#[verifier::ext_equal]
pub struct Fields {
    pub data: Seq<Seq<u8>>,
    pub next: int,
}

/// The first `n` fields from `pos` on.
pub open spec fn fields_at(d: Seq<u8>, pos: int, n: int) -> Option<Fields>
    decreases n,
{
    if n <= 0 {
        Some(Fields { data: Seq::empty(), next: pos })
    } else {
        match fields_at(d, pos, n - 1) {
            None => None,
            Some(f) => match field_at(d, f.next) {
                None => None,
                Some(g) => Some(Fields { data: f.data.push(g.data), next: g.next }),
            },
        }
    }
}

/// What a comment header says.
pub open spec fn parse_tags(d: Seq<u8>) -> Option<TagsView> {
    if d.len() < 8 || d.take(8) != tags_magic() {
        None
    } else {
        match field_at(d, 8) {
            None => None,
            Some(v) => if v.next + 4 > d.len() {
                None
            } else {
                let n = bytes::le_value(d.subrange(v.next, v.next + 4));
                if n > (d.len() - v.next - 4) / 4 {
                    None
                } else {
                    match fields_at(d, v.next + 4, n) {
                        None => None,
                        Some(f) => Some(TagsView { vendor: v.data, comments: f.data }),
                    }
                }
            },
        }
    }
}

fn read_u32(data: &[u8], pos: usize) -> (r: Option<u32>)
    requires
        pos <= data@.len(),
    ensures
        r is Some <==> pos + 4 <= data@.len(),
        r is Some ==> r->0 == bytes::le_value(data@.subrange(pos as int, pos + 4)),
{
    if data.len() - pos < 4 {
        None
    } else {
        proof {
            lemma_pow256();
        }
        Some(read_le(data, pos, 4) as u32)
    }
}

fn read_len_prefixed(data: &[u8], pos: usize) -> (r: Option<(Vec<u8>, usize)>)
    requires
        pos <= data@.len(),
    ensures
        r is Some <==> field_at(data@, pos as int) is Some,
        r is Some ==> (Field { data: (r->0).0@, next: (r->0).1 as int }) == field_at(data@, pos as int)->0 && (r->0).1
            <= data@.len(),
{
    let len: usize = data.len();
    match read_u32(data, pos) {
        None => None,
        Some(n) => {
            proof {
                lemma_le_bound(data@.subrange(pos as int, pos + 4));
            }
            if n as u64 > (len - pos - 4) as u64 {
                None
            } else {
                let end: usize = pos + 4 + n as usize;
                Some((vstd::slice::slice_to_vec(vstd::slice::slice_subrange(data, pos + 4, end)), end))
            }
        },
    }
}

proof fn lemma_fields_fail(d: Seq<u8>, pos: int, k: int, n: int)
    requires
        1 <= k <= n,
        fields_at(d, pos, k) is None,
    ensures
        fields_at(d, pos, n) is None,
    decreases n,
{
    if k < n {
        lemma_fields_fail(d, pos, k, n - 1);
    }
}

/// What a tag's value is: the bytes behind the first equals sign, where those
/// before it are the tag, whatever the case of its letters.
pub open spec fn first_equals(s: Seq<u8>, k: int) -> int
    decreases s.len() - k,
{
    if 0 <= k < s.len() && s[k] != 0x3D {
        first_equals(s, k + 1)
    } else {
        k
    }
}

/// A letter in lower case.
pub open spec fn lower(b: u8) -> u8 {
    if 0x41 <= b <= 0x5A {
        (b + 32) as u8
    } else {
        b
    }
}

/// Whether two byte strings differ at most in the case of letters.
pub open spec fn same_name(a: Seq<u8>, b: Seq<u8>) -> bool {
    a.len() == b.len() && forall|i: int| 0 <= i < a.len() ==> lower(#[trigger] a[i]) == lower(b[i])
}

/// What bytes that are not valid text say as text, with replacement characters
/// in place of what is invalid.
pub uninterp spec fn lossy_text(bytes: Seq<u8>) -> Seq<char>;

/// Reads bytes as text with `String::from_utf8_lossy`: valid text as it is, and
/// any other bytes with replacement characters in place of what is invalid.
#[verifier::external_body]
fn decode_lossy(bytes: &[u8]) -> (r: String)
    ensures
        utf8::valid_utf8(bytes@) ==> r@ == utf8::decode_utf8(bytes@),
        !utf8::valid_utf8(bytes@) ==> r@ == lossy_text(bytes@),
{
    String::from_utf8_lossy(bytes).into_owned()
}

/// What bytes say as text.
pub open spec fn text_of(bytes: Seq<u8>) -> Seq<char> {
    if utf8::valid_utf8(bytes) {
        utf8::decode_utf8(bytes)
    } else {
        lossy_text(bytes)
    }
}

/// Whether a comment's text names a tag.
pub open spec fn names(text: Seq<u8>, tag: Seq<u8>) -> bool {
    let k = first_equals(text, 0);
    k < text.len() && same_name(text.take(k), tag)
}

/// The bytes of a comment's text.
pub open spec fn text_bytes(comment: Seq<u8>) -> Seq<u8> {
    utf8::encode_utf8(text_of(comment))
}

/// The first comment, from `k` on, that names a tag.
pub open spec fn find_tag(comments: Seq<Seq<u8>>, tag: Seq<u8>, k: int) -> int
    decreases comments.len() - k,
{
    if 0 <= k < comments.len() && !names(text_bytes(comments[k]), tag) {
        find_tag(comments, tag, k + 1)
    } else {
        k
    }
}

fn same_name_exec(a: &[u8], b: &[u8]) -> (r: bool)
    ensures
        r == same_name(a@, b@),
{
    if a.len() != b.len() {
        return false;
    }
    let len: usize = a.len();
    let mut i: usize = 0;
    while i < len
        invariant
            i <= len,
            len == a@.len(),
            len == b@.len(),
            forall|k: int| 0 <= k < i ==> lower(#[trigger] a@[k]) == lower(b@[k]),
        decreases len - i,
    {
        let x: u8 = if 0x41 <= a[i] && a[i] <= 0x5A {
            a[i] + 32
        } else {
            a[i]
        };
        let y: u8 = if 0x41 <= b[i] && b[i] <= 0x5A {
            b[i] + 32
        } else {
            b[i]
        };
        if x != y {
            assert(lower(a@[i as int]) != lower(b@[i as int]));
            return false;
        }
        i = i + 1;
    }
    true
}

fn find_equals(s: &[u8]) -> (r: usize)
    ensures
        r == first_equals(s@, 0),
        r <= s@.len(),
        r < s@.len() ==> s@[r as int] == 0x3D,
{
    let mut k: usize = 0;
    let len: usize = s.len();
    while k < len && s[k] != 0x3D
        invariant
            k <= len,
            len == s@.len(),
            first_equals(s@, 0) == first_equals(s@, k as int),
        decreases len - k,
    {
        k = k + 1;
    }
    k
}

impl OpusTags {
    /// Reads a comment header.
    pub fn parse(data: &[u8]) -> (r: Result<OpusTags, OggOpusError>)
        ensures
            r is Ok <==> parse_tags(data@) is Some,
            r is Ok ==> r->Ok_0@ == parse_tags(data@)->0,
            r is Err ==> r->Err_0 == OggOpusError::InvalidCommentHeader,
    {
        if !has_tags_magic(data) {
            return Err(OggOpusError::InvalidCommentHeader);
        }
        let len: usize = data.len();
        let (vendor, mut pos): (Vec<u8>, usize) = match read_len_prefixed(data, 8) {
            None => {
                return Err(OggOpusError::InvalidCommentHeader);
            },
            Some(x) => x,
        };
        let count: u32 = match read_u32(data, pos) {
            None => {
                return Err(OggOpusError::InvalidCommentHeader);
            },
            Some(x) => x,
        };
        pos = pos + 4;
        if count as u64 > ((len - pos) / 4) as u64 {
            return Err(OggOpusError::InvalidCommentHeader);
        }
        let ghost first = pos as int;
        let mut comments: Vec<Vec<u8>> = Vec::new();
        let mut i: u32 = 0;
        assert(comments_view(comments@) =~= Seq::<Seq<u8>>::empty());
        while i < count
            invariant
                i <= count,
                len == data@.len(),
                pos <= len,
                fields_at(data@, first, i as int) == Some(
                    Fields { data: comments_view(comments@), next: pos as int },
                ),
                parse_tags(data@) is Some ==> fields_at(data@, first, count as int) is Some,
            decreases count - i,
        {
            match read_len_prefixed(data, pos) {
                None => {
                    proof {
                        lemma_fields_fail(data@, first, i + 1, count as int);
                    }
                    return Err(OggOpusError::InvalidCommentHeader);
                },
                Some((c, next)) => {
                    let ghost had = comments_view(comments@);
                    let ghost one = c@;
                    comments.push(c);
                    assert(comments_view(comments@) =~= had.push(one));
                    pos = next;
                },
            }
            i = i + 1;
        }
        Ok(OpusTags { vendor, comments })
    }

    /// The bytes of the header.
    pub fn to_bytes(&self) -> (r: Vec<u8>)
        ensures
            r@ == self@.bytes(),
    {
        let mut out: Vec<u8> = Vec::new();
        out.push(0x4F);
        out.push(0x70);
        out.push(0x75);
        out.push(0x73);
        out.push(0x54);
        out.push(0x61);
        out.push(0x67);
        out.push(0x73);
        assert(out@ =~= tags_magic());
        push_le(&mut out, self.vendor.len() as u64, 4);
        out.extend_from_slice(self.vendor.as_slice());
        assert(out@ =~= tags_magic() + field_bytes(self@.vendor));
        push_le(&mut out, self.comments.len() as u64, 4);
        let ghost head = out@;
        let ghost list = self@.comments;
        let len: usize = self.comments.len();
        let mut i: usize = 0;
        assert(list.take(0) =~= Seq::<Seq<u8>>::empty());
        assert(out@ =~= head + fields_bytes(list.take(0)));
        while i < len
            invariant
                i <= len,
                len == self.comments@.len(),
                list == self@.comments,
                out@ == head + fields_bytes(list.take(i as int)),
            decreases len - i,
        {
            let c: &Vec<u8> = &self.comments[i];
            assert(list.take(i + 1).drop_last() =~= list.take(i as int));
            assert(list.take(i + 1).last() == c@);
            let ghost before = out@;
            push_le(&mut out, c.len() as u64, 4);
            out.extend_from_slice(c.as_slice());
            assert(out@ =~= before + field_bytes(c@));
            assert(out@ =~= head + fields_bytes(list.take(i + 1)));
            i = i + 1;
        }
        assert(list.take(len as int) =~= list);
        out
    }

    /// The comments as text.
    pub fn comments_lossy(&self) -> (r: Vec<String>)
        ensures
            r@.len() == self@.comments.len(),
            forall|i: int| 0 <= i < r@.len() ==> (#[trigger] r@[i])@ == text_of(self@.comments[i]),
    {
        let mut out: Vec<String> = Vec::new();
        let len: usize = self.comments.len();
        let mut i: usize = 0;
        while i < len
            invariant
                i <= len,
                len == self.comments@.len(),
                out@.len() == i,
                forall|k: int| 0 <= k < i ==> (#[trigger] out@[k])@ == text_of(self@.comments[k]),
            decreases len - i,
        {
            out.push(decode_lossy(self.comments[i].as_slice()));
            i = i + 1;
        }
        out
    }

    /// The value of a tag, as text; the first comment that names it counts.
    pub fn get(&self, tag: &str) -> (r: Option<String>)
        ensures
            ({
                let name = utf8::encode_utf8(tag@);
                let k = find_tag(self@.comments, name, 0);
                &&& r is Some <==> k < self@.comments.len()
                &&& r is Some ==> {
                    let text = text_bytes(self@.comments[k]);
                    utf8::encode_utf8(r->0@) == text.skip(first_equals(text, 0) + 1)
                }
            }),
    {
        let ghost list = self@.comments;
        let ghost name = utf8::encode_utf8(tag@);
        let len: usize = self.comments.len();
        let wanted: &[u8] = tag.as_bytes();
        let mut i: usize = 0;
        while i < len
            invariant
                i <= len,
                len == self.comments@.len(),
                list == self@.comments,
                name == utf8::encode_utf8(tag@),
                wanted@ == name,
                find_tag(list, name, 0) == find_tag(list, name, i as int),
            decreases len - i,
        {
            let s: String = decode_lossy(self.comments[i].as_slice());
            let text: &str = s.as_str();
            let b: &[u8] = text.as_bytes();
            let k: usize = find_equals(b);
            if k < b.len() {
                let before: &[u8] = vstd::slice::slice_subrange(b, 0, k);
                assert(before@ =~= b@.take(k as int));
                if same_name_exec(before, wanted) {
                    proof {
                        lemma_behind_ascii(text@, b@, k as int);
                    }
                    let (_, value) = text.split_at(k + 1);
                    assert(utf8::encode_utf8(value@) =~= b@.skip(k + 1));
                    return Some(value.to_owned());
                }
            }
            i = i + 1;
        }
        None
    }

    /// Appends the comment `TAG=value`.
    pub fn push(&mut self, tag: &str, value: &str)
        ensures
            final(self)@ == (TagsView {
                comments: old(self)@.comments.push(
                    utf8::encode_utf8(tag@) + seq![0x3Du8] + utf8::encode_utf8(value@),
                ),
                ..old(self)@
            }),
    {
        let mut c: Vec<u8> = Vec::new();
        c.extend_from_slice(tag.as_bytes());
        c.push(0x3D);
        c.extend_from_slice(value.as_bytes());
        let ghost one = c@;
        assert(one =~= utf8::encode_utf8(tag@) + seq![0x3Du8] + utf8::encode_utf8(value@));
        let ghost had = self@.comments;
        self.comments.push(c);
        assert(self@.comments =~= had.push(one));
    }
}

/// Behind an equals sign text can be cut.
proof fn lemma_behind_ascii(text: Seq<char>, b: Seq<u8>, k: int)
    requires
        b == utf8::encode_utf8(text),
        0 <= k < b.len(),
        b[k] == 0x3D,
    ensures
        utf8::is_char_boundary(b, k + 1),
{
    utf8::encode_utf8_valid_utf8(text);
    lemma_boundary_behind(b, k);
}

proof fn lemma_boundary_behind(b: Seq<u8>, k: int)
    requires
        utf8::valid_utf8(b),
        0 <= k < b.len(),
        b[k] == 0x3D,
    ensures
        utf8::is_char_boundary(b, k + 1),
    decreases b.len(),
{
    reveal_with_fuel(utf8::is_char_boundary, 2);
    reveal_with_fuel(utf8::valid_utf8, 2);
    let n = utf8::length_of_first_scalar(b);
    let rest = utf8::pop_first_scalar(b);
    if k < n {
        assert(k == 0 && n == 1);
    } else {
        assert(rest[k - n] == b[k]);
        lemma_boundary_behind(rest, k - n);
    }
}

proof fn lemma_first_equals(s: Seq<u8>, k: int, at: int)
    requires
        0 <= k <= at < s.len(),
        s[at] == 0x3D,
        forall|i: int| k <= i < at ==> #[trigger] s[i] != 0x3D,
    ensures
        first_equals(s, k) == at,
    decreases at - k,
{
    if k < at {
        assert(s[k] != 0x3D);
        lemma_first_equals(s, k + 1, at);
    }
}

proof fn lemma_find_tag(comments: Seq<Seq<u8>>, more: Seq<u8>, tag: Seq<u8>, k: int)
    requires
        0 <= k <= comments.len(),
        find_tag(comments, tag, k) == comments.len(),
        names(text_bytes(more), tag),
    ensures
        find_tag(comments.push(more), tag, k) == comments.len(),
    decreases comments.len() - k,
{
    let all = comments.push(more);
    if k < comments.len() {
        assert(all[k] == comments[k]);
        lemma_find_above(comments, tag, k);
        lemma_find_tag(comments, more, tag, k + 1);
    } else {
        assert(all[k] == more);
    }
}

proof fn lemma_find_above(comments: Seq<Seq<u8>>, tag: Seq<u8>, k: int)
    requires
        0 <= k < comments.len(),
        find_tag(comments, tag, k) == comments.len(),
    ensures
        !names(text_bytes(comments[k]), tag),
        find_tag(comments, tag, k + 1) == comments.len(),
{
}

/// A tag that was not there and holds no equals sign has, once it was pushed, the
/// value it was pushed with.
pub proof fn lemma_push_get(t: TagsView, tag: Seq<char>, value: Seq<char>)
    requires
        find_tag(t.comments, utf8::encode_utf8(tag), 0) == t.comments.len(),
        !utf8::encode_utf8(tag).contains(0x3D),
    ensures
        ({
            let name = utf8::encode_utf8(tag);
            let c = name + seq![0x3Du8] + utf8::encode_utf8(value);
            let k = find_tag(t.comments.push(c), name, 0);
            let text = text_bytes(t.comments.push(c)[k]);
            &&& k == t.comments.len()
            &&& text.skip(first_equals(text, 0) + 1) == utf8::encode_utf8(value)
        }),
{
    let name = utf8::encode_utf8(tag);
    let v = utf8::encode_utf8(value);
    let sign = seq![0x3Du8];
    let c = name + sign + v;
    utf8::encode_utf8_valid_utf8(tag);
    utf8::encode_utf8_valid_utf8(value);
    assert(utf8::valid_utf8(sign)) by {
        reveal_with_fuel(utf8::valid_utf8, 3);
        assert(utf8::pop_first_scalar(sign) =~= Seq::<u8>::empty());
    }
    utf8::valid_utf8_concat(name, sign);
    utf8::valid_utf8_concat(name + sign, v);
    utf8::decode_utf8_encode_utf8(c);
    let text = text_bytes(c);
    assert(text == c);
    assert forall|i: int| 0 <= i < name.len() implies #[trigger] c[i] != 0x3D by {
        assert(c[i] == name[i]);
        assert(name.contains(name[i]));
    }
    lemma_first_equals(c, 0, name.len() as int);
    assert(c.take(name.len() as int) =~= name);
    assert(c.skip(name.len() as int + 1) =~= v);
    lemma_find_tag(t.comments, c, name, 0);
}

proof fn lemma_field(d: Seq<u8>, pos: int, s: Seq<u8>, rest: Seq<u8>)
    requires
        0 <= pos <= d.len(),
        d.skip(pos) == field_bytes(s) + rest,
        s.len() < 0x1_0000_0000,
    ensures
        field_at(d, pos) == Some(Field { data: s, next: pos + 4 + s.len() }),
        d.skip(pos + 4 + s.len()) == rest,
{
    lemma_pow256();
    let n = s.len() as int;
    lemma_le(n, 4);
    lemma_le_len(n, 4);
    let size = bytes::le_bytes(n, 4);
    let f = field_bytes(s) + rest;
    let t = d.skip(pos);
    assert(t == f);
    assert(f.len() == 4 + n + rest.len());
    assert(t.len() == d.len() - pos);
    assert(d.subrange(pos, pos + 4) == size) by {
        assert(d.subrange(pos, pos + 4) =~= t.take(4));
        assert(f.take(4) =~= size);
    }
    assert(d.subrange(pos + 4, pos + 4 + n) == s) by {
        assert(d.subrange(pos + 4, pos + 4 + n) =~= t.subrange(4, 4 + n));
        assert(f.subrange(4, 4 + n) =~= s);
    }
    assert(d.skip(pos + 4 + n) == rest) by {
        assert(d.skip(pos + 4 + n) =~= t.skip(4 + n));
        assert(f.skip(4 + n) =~= rest);
    }
    assert(bytes::le_value(size) == n);
    assert(field_at(d, pos) == Some(Field { data: s, next: pos + 4 + n }));
}

proof fn lemma_fields(d: Seq<u8>, pos: int, s: Seq<Seq<u8>>, rest: Seq<u8>)
    requires
        0 <= pos <= d.len(),
        d.skip(pos) == fields_bytes(s) + rest,
        forall|i: int| 0 <= i < s.len() ==> (#[trigger] s[i]).len() < 0x1_0000_0000,
    ensures
        fields_at(d, pos, s.len() as int) == Some(Fields { data: s, next: pos + fields_bytes(s).len() }),
        d.skip(pos + fields_bytes(s).len()) == rest,
        fields_bytes(s).len() >= 4 * s.len(),
    decreases s.len(),
{
    if s.len() == 0 {
        assert(fields_bytes(s) + rest =~= rest);
        assert(s =~= Seq::<Seq<u8>>::empty());
    } else {
        let head = s.drop_last();
        let last = s.last();
        assert(fields_bytes(s) + rest =~= fields_bytes(head) + (field_bytes(last) + rest));
        assert forall|i: int| 0 <= i < head.len() implies (#[trigger] head[i]).len() < 0x1_0000_0000 by {
            assert(head[i] == s[i]);
        }
        assert(last == s[s.len() - 1]);
        lemma_fields(d, pos, head, field_bytes(last) + rest);
        let at = pos + fields_bytes(head).len();
        lemma_field(d, at, last, rest);
        lemma_le_len(last.len() as int, 4);
        assert(head.push(last) =~= s);
    }
}

/// A comment header is read back from its bytes.
pub proof fn lemma_tags_round_trip(t: TagsView)
    requires
        t.valid(),
    ensures
        parse_tags(t.bytes()) == Some(t),
{
    let d = t.bytes();
    let n = bytes::le_bytes(t.comments.len() as int, 4);
    let list = fields_bytes(t.comments);
    lemma_pow256();
    lemma_le(t.comments.len() as int, 4);
    assert(d.take(8) =~= tags_magic());
    assert(d.skip(8) =~= field_bytes(t.vendor) + (n + list));
    lemma_field(d, 8, t.vendor, n + list);
    lemma_le_len(t.vendor.len() as int, 4);
    let at = 12 + t.vendor.len() as int;
    assert(d.subrange(at, at + 4) =~= (n + list).take(4));
    assert((n + list).take(4) =~= n);
    let none = Seq::<u8>::empty();
    assert(d.skip(at + 4) =~= (n + list).skip(4));
    assert((n + list).skip(4) =~= list + none);
    lemma_fields(d, at + 4, t.comments, none);
}

proof fn lemma_field_trailing(d: Seq<u8>, more: Seq<u8>, pos: int)
    requires
        0 <= pos,
        field_at(d, pos) is Some,
    ensures
        field_at(d + more, pos) == field_at(d, pos),
        pos <= field_at(d, pos)->0.next <= d.len(),
{
    let e = d + more;
    let n = bytes::le_value(d.subrange(pos, pos + 4));
    lemma_le_bound(d.subrange(pos, pos + 4));
    assert(e.subrange(pos, pos + 4) =~= d.subrange(pos, pos + 4));
    assert(e.subrange(pos + 4, pos + 4 + n) =~= d.subrange(pos + 4, pos + 4 + n));
}

proof fn lemma_fields_trailing(d: Seq<u8>, more: Seq<u8>, pos: int, n: int)
    requires
        0 <= pos <= d.len(),
        fields_at(d, pos, n) is Some,
    ensures
        fields_at(d + more, pos, n) == fields_at(d, pos, n),
        pos <= fields_at(d, pos, n)->0.next <= d.len(),
    decreases n,
{
    if n > 0 {
        lemma_fields_trailing(d, more, pos, n - 1);
        lemma_field_trailing(d, more, fields_at(d, pos, n - 1)->0.next);
    }
}

/// What stands behind a comment header makes no difference to what it says.
pub proof fn lemma_tags_trailing(d: Seq<u8>, more: Seq<u8>)
    requires
        parse_tags(d) is Some,
    ensures
        parse_tags(d + more) == parse_tags(d),
{
    let e = d + more;
    assert(e.take(8) =~= d.take(8));
    lemma_field_trailing(d, more, 8);
    let at = field_at(d, 8)->0.next;
    assert(e.subrange(at, at + 4) =~= d.subrange(at, at + 4));
    let n = bytes::le_value(d.subrange(at, at + 4));
    lemma_fields_trailing(d, more, at + 4, n);
}

/// A comment header that was cut short is refused.
pub proof fn lemma_tags_truncated(t: TagsView, k: int)
    requires
        t.valid(),
        0 <= k < t.bytes().len(),
    ensures
        parse_tags(t.bytes().take(k)) is None,
{
    let d = t.bytes();
    let e = d.take(k);
    let more = d.skip(k);
    assert(e + more =~= d);
    let n = bytes::le_bytes(t.comments.len() as int, 4);
    let list = fields_bytes(t.comments);
    let none = Seq::<u8>::empty();
    lemma_pow256();
    lemma_le(t.comments.len() as int, 4);
    lemma_le_len(t.comments.len() as int, 4);
    lemma_le_len(t.vendor.len() as int, 4);
    assert(d.skip(8) =~= field_bytes(t.vendor) + (n + list));
    lemma_field(d, 8, t.vendor, n + list);
    let at = 12 + t.vendor.len() as int;
    assert(d.subrange(at, at + 4) =~= (n + list).take(4));
    assert((n + list).take(4) =~= n);
    assert(d.skip(at + 4) =~= (n + list).skip(4));
    assert((n + list).skip(4) =~= list + none);
    lemma_fields(d, at + 4, t.comments, none);
    assert(at + 4 + list.len() == d.len());
    if parse_tags(e) is Some {
        lemma_field_trailing(e, more, 8);
        assert(e.subrange(at, at + 4) =~= d.subrange(at, at + 4));
        lemma_fields_trailing(e, more, at + 4, t.comments.len() as int);
    }
}

/// An audio packet with its position.
#[derive(Clone, Debug, PartialEq, Eq)]
pub struct AudioPacket {
    pub data: Vec<u8>,
    /// The samples at 48 kHz up to the end of the packet, with those to be dropped
    /// at the start.
    pub granule_position: u64,
    /// It ended on the last page of its stream.
    pub eos: bool,
}

impl View for AudioPacket {
    type V = PacketView;

    open spec fn view(&self) -> PacketView {
        PacketView { data: self.data@, granule: self.granule_position, eos: self.eos }
    }
}

/// The samples of a packet; none where it has no length.
pub open spec fn samples(data: Seq<u8>) -> u64 {
    match packet::packet_samples(data) {
        Some(n) => n as u64,
        None => 0,
    }
}

fn samples_of(data: &[u8]) -> (r: u64)
    ensures
        r == samples(data@),
        r <= 181_440,
{
    match packet_samples_48k(data) {
        Some(n) => n,
        None => 0,
    }
}

/// The number of packets up to the first that has a position, from the one at `k`
/// on; all of them where none has.
pub open spec fn group_len(rest: Seq<PacketView>, k: int) -> int
    decreases rest.len() - k,
{
    if k < 0 || k >= rest.len() {
        rest.len() as int
    } else if rest[k].granule != NO_GRANULE {
        k + 1
    } else {
        group_len(rest, k + 1)
    }
}

/// The difference, or zero.
pub open spec fn less(a: u64, b: u64) -> u64 {
    if a >= b {
        (a - b) as u64
    } else {
        0
    }
}

/// The position of packet `i` of a group, counted back from the last one's.
pub open spec fn back(group: Seq<PacketView>, i: int) -> u64
    decreases group.len() - i,
{
    if i >= group.len() - 1 {
        group.last().granule
    } else {
        less(back(group, i + 1), samples(group[i + 1].data))
    }
}

/// The position behind the first `i` packets of a group that has no position,
/// counted on from `last`.
pub open spec fn onward(group: Seq<PacketView>, last: u64, i: int) -> u64
    decreases i,
{
    if i <= 0 {
        last
    } else {
        onward(group, last, i - 1).wrapping_add(samples(group[i - 1].data))
    }
}

/// A group of packets, each with its position.
pub open spec fn placed(group: Seq<PacketView>, last: u64) -> Seq<PacketView> {
    Seq::new(
        group.len(),
        |i: int|
            PacketView {
                granule: if group.last().granule != NO_GRANULE {
                    back(group, i)
                } else {
                    onward(group, last, i + 1)
                },
                ..group[i]
            },
    )
}

proof fn lemma_group_len(rest: Seq<PacketView>, k: int)
    requires
        0 <= k < rest.len(),
    ensures
        k < group_len(rest, k) <= rest.len(),
    decreases rest.len() - k,
{
    reveal_with_fuel(group_len, 2);
    if rest[k].granule == NO_GRANULE && k + 1 < rest.len() {
        lemma_group_len(rest, k + 1);
    }
}

/// The packets of a stream, each with its position: within each page back from
/// the page's position, and behind the last page on from the position before.
pub open spec fn resolved(rest: Seq<PacketView>, last: u64) -> Seq<PacketView>
    decreases rest.len(),
{
    if rest.len() == 0 {
        Seq::empty()
    } else {
        let n = group_len(rest, 0);
        if 0 < n <= rest.len() {
            let group = placed(rest.take(n), last);
            group + resolved(rest.skip(n), group.last().granule)
        } else {
            Seq::empty()
        }
    }
}

/// The serial number of the first page of a stream that starts with an
/// identification header.
pub open spec fn opus_serial(pages: Seq<PageView>) -> Option<u32>
    decreases pages.len(),
{
    if pages.len() == 0 {
        None
    } else if pages[0].bos && pages[0].body.len() >= 8 && pages[0].body.take(8) == head_magic() {
        Some(pages[0].serial)
    } else {
        opus_serial(pages.drop_first())
    }
}

/// What a stream starts with: its headers and its serial number, and the packets
/// behind the headers.
#[verifier::ext_equal]
pub struct Opening {
    pub head: HeadView,
    pub tags: TagsView,
    pub serial: u32,
    pub packets: Seq<PacketView>,
}

/// The start of the Opus stream in `data`.
pub open spec fn opening(data: Seq<u8>) -> Result<Opening, OggOpusError> {
    let pages = page::pages_from(data, 0);
    match opus_serial(pages) {
        None => Err(OggOpusError::NoOpusStream),
        Some(serial) => {
            let packets = page::packets_from(pages, serial, Pending::Idle);
            if packets.len() == 0 {
                Err(OggOpusError::NoOpusStream)
            } else {
                match parse_head(packets[0].data) {
                    Err(e) => Err(e),
                    Ok(head) => if packets.len() == 1 {
                        Err(OggOpusError::InvalidCommentHeader)
                    } else {
                        match parse_tags(packets[1].data) {
                            None => Err(OggOpusError::InvalidCommentHeader),
                            Some(tags) => Ok(Opening { head, tags, serial, packets: packets.skip(2) }),
                        }
                    },
                }
            }
        },
    }
}

/// The last position on the pages of a stream.
pub open spec fn last_granule(pages: Seq<PageView>, serial: u32) -> Option<u64>
    decreases pages.len(),
{
    if pages.len() == 0 {
        None
    } else if pages.last().serial == serial && pages.last().granule != NO_GRANULE {
        Some(pages.last().granule)
    } else {
        last_granule(pages.drop_last(), serial)
    }
}

/// The pages from the first on that carries audio: behind those on which the `headers`
/// header packets end, or the last of these where audio goes on behind it.
pub open spec fn audio_pages(pages: Seq<PageView>, serial: u32, pending: Pending, headers: int) -> Seq<PageView>
    decreases pages.len(),
{
    if pages.len() == 0 || headers <= 0 {
        pages
    } else if pages[0].serial != serial {
        audio_pages(pages.drop_first(), serial, pending, headers)
    } else {
        let w = pages[0].walked(pending);
        if w.done.len() > headers {
            pages
        } else {
            audio_pages(pages.drop_first(), serial, w.pending, headers - w.done.len())
        }
    }
}

/// Reads the Opus stream of an Ogg file in memory.
pub struct OggOpusReader<'a> {
    head: OpusHead,
    tags: OpusTags,
    serial: u32,
    data: &'a [u8],
    packets: PacketReader<'a>,
    queue: VecDeque<AudioPacket>,
    last_position: u64,
}

/// What a reader is: the headers, the file, and the packets that are left, each
/// with its position.
#[verifier::ext_equal]
pub struct ReaderView {
    pub head: HeadView,
    pub tags: TagsView,
    pub serial: u32,
    pub data: Seq<u8>,
    pub left: Seq<PacketView>,
}

spec fn audio_view(q: Seq<AudioPacket>) -> Seq<PacketView> {
    Seq::new(q.len(), |i: int| q[i]@)
}

/// The position of the last packet; where there is none, of the one before.
spec fn last_of(q: Seq<PacketView>, last: u64) -> u64 {
    if q.len() == 0 {
        last
    } else {
        q.last().granule
    }
}

impl<'a> View for OggOpusReader<'a> {
    type V = ReaderView;

    closed spec fn view(&self) -> ReaderView {
        let q = audio_view(self.queue@);
        ReaderView {
            head: self.head@,
            tags: self.tags@,
            serial: self.serial,
            data: self.data@,
            left: q + resolved(self.packets@, last_of(q, self.last_position)),
        }
    }
}

fn find_opus(data: &[u8]) -> (r: Option<u32>)
    ensures
        r == opus_serial(page::pages_from(data@, 0)),
{
    let mut pages: PageReader = PageReader::new(data);
    let ghost all = pages@;
    loop
        invariant
            pages.wf(),
            opus_serial(all) == opus_serial(pages@),
            all == page::pages_from(data@, 0),
        decreases pages.left(),
    {
        match pages.next() {
            None => {
                return None;
            },
            Some(p) => {
                if p.bos && has_head_magic(p.body.as_slice()) {
                    return Some(p.serial);
                }
            },
        }
    }
}

proof fn lemma_placed_last(group: Seq<PacketView>, last: u64)
    requires
        group.len() > 0,
    ensures
        placed(group, last).len() == group.len(),
        placed(group, last).last() == placed(group, last)[group.len() - 1],
{
}

impl<'a> OggOpusReader<'a> {
    /// Whether the reader stands in its file.
    pub closed spec fn wf(&self) -> bool {
        self.packets.wf()
    }

    /// Reads the headers of the first Opus stream in `data`.
    pub fn new(data: &'a [u8]) -> (r: Result<OggOpusReader<'a>, OggOpusError>)
        ensures
            r is Ok <==> opening(data@) is Ok,
            r is Err ==> r->Err_0 == opening(data@)->Err_0,
            r is Ok ==> {
                let o = opening(data@)->Ok_0;
                &&& r->Ok_0.wf()
                &&& r->Ok_0@ == (ReaderView {
                    head: o.head,
                    tags: o.tags,
                    serial: o.serial,
                    data: data@,
                    left: resolved(o.packets, 0),
                })
            },
    {
        let serial: u32 = match find_opus(data) {
            None => {
                return Err(OggOpusError::NoOpusStream);
            },
            Some(s) => s,
        };
        let mut packets: PacketReader = PacketReader::new(data, serial);
        let ghost all = packets@;
        let head: OpusHead = match packets.next() {
            None => {
                return Err(OggOpusError::NoOpusStream);
            },
            Some(p) => match OpusHead::parse(p.data.as_slice()) {
                Err(e) => {
                    return Err(e);
                },
                Ok(h) => h,
            },
        };
        let tags: OpusTags = match packets.next() {
            None => {
                return Err(OggOpusError::InvalidCommentHeader);
            },
            Some(p) => match OpusTags::parse(p.data.as_slice()) {
                Err(_) => {
                    return Err(OggOpusError::InvalidCommentHeader);
                },
                Ok(t) => t,
            },
        };
        assert(packets@ =~= all.skip(2));
        let r = OggOpusReader { head, tags, serial, data, packets, queue: VecDeque::new(), last_position: 0 };
        assert(r@.left =~= resolved(all.skip(2), 0));
        Ok(r)
    }

    /// The identification header.
    pub fn head(&self) -> (r: &OpusHead)
        ensures
            r@ == self@.head,
    {
        &self.head
    }

    /// The comment header.
    pub fn tags(&self) -> (r: &OpusTags)
        ensures
            r@ == self@.tags,
    {
        &self.tags
    }

    /// The serial number of the stream.
    pub fn serial(&self) -> (r: u32)
        ensures
            r == self@.serial,
    {
        self.serial
    }

    /// The samples at 48 kHz that the stream plays: the last position less those
    /// to be dropped; `None` where no page of audio has a position.
    pub fn pcm_duration_48k(&self) -> (r: Option<u64>)
        ensures
            r == match last_granule(
                audio_pages(page::pages_from(self@.data, 0), self@.serial, Pending::Idle, 2),
                self@.serial,
            ) {
                None => None,
                Some(g) => Some(less(g, self@.head.pre_skip as u64)),
            },
    {
        let mut pages: PageReader = PageReader::new(self.data);
        let ghost audio = audio_pages(pages@, self.serial, Pending::Idle, 2);
        let ghost mut pending = Pending::Idle;
        let mut open: Open = Open::Idle;
        let mut headers: usize = 2;
        let mut last: Option<u64> = None;
        let ghost mut seen: int = 0;
        while headers > 0
            invariant_except_break
                pages.wf(),
                headers <= 2,
                page::kind_of(pending) == open,
                audio == audio_pages(pages@, self.serial, pending, headers as int),
                last is None,
                seen == 0,
            ensures
                pages.wf(),
                0 <= seen <= audio.len(),
                pages@ == audio.skip(seen),
                last == last_granule(audio.take(seen), self.serial),
            decreases pages.left(),
        {
            match pages.next() {
                None => {
                    assert(audio =~= pages@);
                    assert(audio.skip(0) =~= audio);
                    assert(audio.take(0) =~= Seq::<PageView>::empty());
                    break;
                },
                Some(p) => {
                    if p.serial == self.serial {
                        let (ended, state) = p.ended(open);
                        assert(p@.walked(pending).done.len() == ended);
                        if ended > headers {
                            proof {
                                assert(audio.skip(1) =~= pages@);
                                assert(audio.take(1) =~= seq![p@]);
                                assert(audio.take(1).drop_last() =~= Seq::<PageView>::empty());
                                assert(last_granule(Seq::<PageView>::empty(), self.serial) is None);
                                seen = 1;
                            }
                            if p.granule_position != NO_GRANULE {
                                last = Some(p.granule_position);
                            }
                            break;
                        }
                        headers = headers - ended;
                        open = state;
                        proof {
                            pending = p@.walked(pending).pending;
                        }
                    }
                },
            }
            proof {
                if headers == 0 {
                    assert(audio.skip(0) =~= audio);
                    assert(audio.take(0) =~= Seq::<PageView>::empty());
                }
            }
        }
        loop
            invariant
                pages.wf(),
                0 <= seen <= audio.len(),
                pages@ == audio.skip(seen),
                last == last_granule(audio.take(seen), self.serial),
            ensures
                last == last_granule(audio, self.serial),
            decreases pages.left(),
        {
            match pages.next() {
                None => {
                    assert(audio.take(seen) =~= audio);
                    break;
                },
                Some(p) => {
                    proof {
                        assert(audio.take(seen + 1).drop_last() =~= audio.take(seen));
                        assert(audio.take(seen + 1).last() == p@);
                        assert(audio.skip(seen).drop_first() =~= audio.skip(seen + 1));
                        seen = seen + 1;
                    }
                    if p.serial == self.serial && p.granule_position != NO_GRANULE {
                        last = Some(p.granule_position);
                    }
                },
            }
        }
        match last {
            None => None,
            Some(g) => Some(g.saturating_sub(self.head.pre_skip as u64)),
        }
    }

    /// Takes the next group of packets in, up to one with a position.
    fn gather(&mut self) -> (r: Vec<OggPacket>)
        requires
            old(self).wf(),
        ensures
            final(self).wf(),
            final(self).head == old(self).head,
            final(self).tags == old(self).tags,
            final(self).serial == old(self).serial,
            final(self).data == old(self).data,
            final(self).queue == old(self).queue,
            final(self).last_position == old(self).last_position,
            ({
                let n = group_len(old(self).packets@, 0);
                &&& 0 <= n <= old(self).packets@.len()
                &&& packets_view(r@) == old(self).packets@.take(n)
                &&& final(self).packets@ == old(self).packets@.skip(n)
            }),
            old(self).packets@.len() > 0 ==> r@.len() > 0,
            old(self).packets@.len() == 0 ==> r@.len() == 0,
    {
        let ghost all = self.packets@;
        let mut group: Vec<OggPacket> = Vec::new();
        let ghost mut k: int = 0;
        proof {
            if all.len() > 0 {
                lemma_group_len(all, 0);
            }
            assert(all.skip(0) =~= all);
        }
        assert(packets_view(group@) =~= all.take(0));
        loop
            invariant
                self.wf(),
                all == old(self).packets@,
                self.head == old(self).head,
                self.tags == old(self).tags,
                self.serial == old(self).serial,
                self.data == old(self).data,
                self.queue == old(self).queue,
                self.last_position == old(self).last_position,
                0 <= k <= all.len(),
                group@.len() == k,
                packets_view(group@) == all.take(k),
                self.packets@ == all.skip(k),
                group_len(all, 0) == group_len(all, k),
            decreases all.len() - k,
        {
            match self.packets.next() {
                None => {
                    return group;
                },
                Some(p) => {
                    let anchored: bool = p.granule_position != NO_GRANULE;
                    let ghost one = p@;
                    let ghost had = packets_view(group@);
                    group.push(p);
                    proof {
                        assert(one == all[k]);
                        assert(packets_view(group@) =~= had.push(one));
                        assert(had.push(one) =~= all.take(k + 1));
                        assert(all.skip(k).drop_first() =~= all.skip(k + 1));
                        k = k + 1;
                    }
                    if anchored {
                        return group;
                    }
                },
            }
        }
    }

    /// The next audio packet with its position, if there is one.
    pub fn next(&mut self) -> (r: Option<AudioPacket>)
        requires
            old(self).wf(),
        ensures
            final(self).wf(),
            r is Some <==> old(self)@.left.len() > 0,
            r is Some ==> r->0@ == old(self)@.left[0] && final(self)@ == (ReaderView {
                left: old(self)@.left.drop_first(),
                ..old(self)@
            }),
            r is None ==> final(self)@ == old(self)@,
    {
        let ghost whole = self@;
        if self.queue.len() == 0 {
            let ghost all = self.packets@;
            let last: u64 = self.last_position;
            let mut group: Vec<OggPacket> = self.gather();
            if group.len() == 0 {
                assert(all =~= Seq::<PacketView>::empty());
                assert(all.skip(group_len(all, 0)) =~= all);
                assert(self@.left =~= whole.left);
                return None;
            }
            let ghost n = group_len(all, 0);
            let ghost given = packets_view(group@);
            let ghost out = placed(given, last);
            self.place(group);
            proof {
                lemma_placed_last(given, last);
                assert(audio_view(self.queue@) == out);
                assert(whole.left =~= out + resolved(all.skip(n), out.last().granule));
                assert(self@.left =~= whole.left);
            }
        }
        assert(self@ == whole);
        let ghost q = audio_view(self.queue@);
        let ghost after = resolved(self.packets@, last_of(q, self.last_position));
        match self.queue.pop_front() {
            None => None,
            Some(p) => {
                self.last_position = p.granule_position;
                proof {
                    let rest = audio_view(self.queue@);
                    assert(rest =~= q.drop_first());
                    assert(last_of(rest, self.last_position) == last_of(q, 0));
                    assert(self@.left =~= whole.left.drop_first());
                }
                Some(p)
            },
        }
    }

    /// Gives each packet of a group its position and puts the group in the queue.
    fn place(&mut self, group: Vec<OggPacket>)
        requires
            old(self).wf(),
            old(self).queue@.len() == 0,
            group@.len() > 0,
        ensures
            final(self).wf(),
            final(self).head == old(self).head,
            final(self).tags == old(self).tags,
            final(self).serial == old(self).serial,
            final(self).data == old(self).data,
            final(self).packets == old(self).packets,
            final(self).last_position == old(self).last_position,
            audio_view(final(self).queue@) == placed(packets_view(group@), old(self).last_position),
    {
        let ghost given = packets_view(group@);
        let last: u64 = self.last_position;
        let ghost out = placed(given, last);
        let ghost list = group@;
        let count: usize = group.len();
        let anchor: u64 = group[count - 1].granule_position;
        let anchored: bool = anchor != NO_GRANULE;
        let mut onwards: Vec<u64> = Vec::new();
        if !anchored {
            let mut pos: u64 = last;
            let mut i: usize = 0;
            while i < count
                invariant
                    i <= count,
                    count == group@.len(),
                    given == packets_view(group@),
                    onwards@.len() == i,
                    pos == onward(given, last, i as int),
                    forall|k: int| 0 <= k < i ==> #[trigger] onwards@[k] == onward(given, last, k + 1),
                decreases count - i,
            {
                pos = pos.wrapping_add(samples_of(group[i].data.as_slice()));
                onwards.push(pos);
                i = i + 1;
            }
        }
        let mut group: Vec<OggPacket> = group;
        let mut pos: u64 = anchor;
        let mut i: usize = count;
        assert(list.take(count as int) =~= list);
        assert(audio_view(self.queue@) =~= out.skip(count as int));
        while i > 0
            invariant
                self.wf(),
                self.head == old(self).head,
                self.tags == old(self).tags,
                self.serial == old(self).serial,
                self.data == old(self).data,
                self.packets == old(self).packets,
                self.last_position == old(self).last_position,
                i <= count,
                count == list.len(),
                count == given.len(),
                given == packets_view(list),
                out == placed(given, last),
                group@ == list.take(i as int),
                anchored == (given.last().granule != NO_GRANULE),
                !anchored ==> onwards@.len() == count,
                !anchored ==> forall|k: int| 0 <= k < count ==> #[trigger] onwards@[k] == onward(given, last, k + 1),
                i > 0 ==> pos == back(given, i - 1),
                audio_view(self.queue@) == out.skip(i as int),
            decreases i,
        {
            if let Some(p) = group.pop() {
                assert(p == list[i - 1]);
                assert(p@ == given[i - 1]);
                let here: u64 = if anchored {
                    pos
                } else {
                    onwards[i - 1]
                };
                pos = pos.saturating_sub(samples_of(p.data.as_slice()));
                let a = AudioPacket { data: p.data, granule_position: here, eos: p.eos };
                assert(a@ == out[i - 1]);
                let ghost had = self.queue@;
                self.queue.push_front(a);
                assert(audio_view(self.queue@) =~= seq![out[i - 1]] + audio_view(had));
                assert(out.skip(i - 1) =~= seq![out[i - 1]] + out.skip(i as int));
                assert(group@ =~= list.take(i - 1));
            }
            i = i - 1;
        }
        assert(out.skip(0) =~= out);
    }
}

/// The packets of a list.
spec fn packets_view(s: Seq<OggPacket>) -> Seq<PacketView> {
    Seq::new(s.len(), |i: int| s[i]@)
}

/// Writes an Ogg file with one Opus stream: the headers on pages of their own,
/// then the audio packets.
pub struct OggOpusWriter {
    out: Vec<u8>,
    pages: PageWriter,
    granule: u64,
    finished: bool,
    given: Ghost<Seq<PageView>>,
}

/// What a writer is: its pages, its position, and whether it is closed. The bytes that it
/// holds are those of the pages, in a writer that is well formed.
#[verifier::ext_equal]
pub struct OpusWriterView {
    pub written: Written,
    pub granule: u64,
    pub finished: bool,
}

impl View for OggOpusWriter {
    type V = OpusWriterView;

    closed spec fn view(&self) -> OpusWriterView {
        OpusWriterView {
            written: Written { writer: self.pages@, pages: self.given@ },
            granule: self.granule,
            finished: self.finished,
        }
    }
}

impl OpusWriterView {
    /// A writer that has written the headers.
    pub open spec fn start(head: HeadView, tags: TagsView, serial: u32) -> OpusWriterView {
        let w = Written { writer: WriterView::start(serial), pages: Seq::empty() };
        OpusWriterView {
            written: w.with_packet(head.bytes(), 0, false).flushed().with_packet(tags.bytes(), 0, false).flushed(),
            granule: head.pre_skip as u64,
            finished: false,
        }
    }

    /// The writer after a packet.
    pub open spec fn with_packet(self, packet: Seq<u8>, last: bool) -> OpusWriterView {
        let granule = self.granule.wrapping_add(samples(packet));
        OpusWriterView {
            written: self.written.with_packet(packet, granule, last),
            granule,
            finished: self.finished || last,
        }
    }

    /// The pages of the file; an empty page closes a stream that no packet closed.
    pub open spec fn file_pages(self) -> Seq<PageView> {
        if self.finished {
            self.written.pages
        } else {
            self.written.closed(self.granule).pages
        }
    }

    /// The file.
    pub open spec fn file(self) -> Seq<u8> {
        page::pages_bytes(self.file_pages())
    }
}

impl OggOpusWriter {
    /// The bytes so far are those of the pages.
    pub closed spec fn wf(&self) -> bool {
        self.pages.wf() && self.out@ == page::pages_bytes(self.given@)
    }

    /// Appends a packet to the pages.
    fn lay_out(&mut self, packet: &[u8], granule: u64, last: bool)
        requires
            old(self).wf(),
        ensures
            final(self).wf(),
            final(self)@ == (OpusWriterView {
                written: old(self)@.written.with_packet(packet@, granule, last),
                ..old(self)@
            }),
    {
        let ghost before = self.given@;
        let ghost w = self.pages@;
        let ghost new = (Written { writer: w, pages: Seq::empty() }).with_packet(packet@, granule, last).pages;
        self.pages.push(&mut self.out, packet, granule, last);
        proof {
            writer::lemma_pages_before(w, before, packet@, granule, last);
            writer::lemma_bytes_concat(before, new);
        }
        self.given = Ghost(before + new);
    }

    /// Gives the page out that is being filled.
    fn end_page(&mut self)
        requires
            old(self).wf(),
        ensures
            final(self).wf(),
            final(self)@ == (OpusWriterView { written: old(self)@.written.flushed(), ..old(self)@ }),
    {
        let ghost before = self.given@;
        let ghost w = self.pages@;
        let ghost new = (Written { writer: w, pages: Seq::empty() }).flushed().pages;
        self.pages.flush(&mut self.out);
        proof {
            writer::lemma_pages_before(w, before, Seq::empty(), 0, false);
            writer::lemma_bytes_concat(before, new);
        }
        self.given = Ghost(before + new);
    }

    /// Starts a stream with its headers.
    pub fn new(head: &OpusHead, tags: &OpusTags, serial: u32) -> (r: OggOpusWriter)
        ensures
            r.wf(),
            r@ == OpusWriterView::start(head@, tags@, serial),
    {
        let mut w = OggOpusWriter {
            out: Vec::new(),
            pages: PageWriter::new(serial),
            granule: head.pre_skip as u64,
            finished: false,
            given: Ghost(Seq::empty()),
        };
        assert(w.out@ =~= page::pages_bytes(w.given@));
        let h: Vec<u8> = head.to_bytes();
        w.lay_out(h.as_slice(), 0, false);
        w.end_page();
        let t: Vec<u8> = tags.to_bytes();
        w.lay_out(t.as_slice(), 0, false);
        w.end_page();
        w
    }

    /// Appends an audio packet; the last one closes the stream.
    pub fn push(&mut self, packet: &[u8], last: bool)
        requires
            old(self).wf(),
            !old(self)@.finished,
        ensures
            final(self).wf(),
            final(self)@ == old(self)@.with_packet(packet@, last),
    {
        let granule: u64 = self.granule.wrapping_add(samples_of(packet));
        self.granule = granule;
        self.lay_out(packet, granule, last);
        if last {
            self.finished = true;
        }
    }

    /// Closes the stream with an empty page, where no packet closed it, and gives the
    /// file.
    pub fn finish(self) -> (r: Vec<u8>)
        requires
            self.wf(),
        ensures
            r@ == self@.file(),
    {
        let mut w = self;
        if !w.finished {
            let ghost before = w.given@;
            let ghost v = w.pages@;
            let granule: u64 = w.granule;
            w.pages.close(&mut w.out, granule);
            proof {
                let new = (Written { writer: v, pages: Seq::empty() }).closed(granule).pages;
                writer::lemma_pages_before(v, before, Seq::empty(), granule, false);
                writer::lemma_bytes_concat(before, new);
            }
        }
        w.out
    }
}

/// The writer after packets of which the last closes the stream.
pub open spec fn with_packets(w: OpusWriterView, packets: Seq<Seq<u8>>, n: int) -> OpusWriterView
    decreases n,
{
    if n <= 0 {
        w
    } else {
        with_packets(w, packets, n - 1).with_packet(packets[n - 1], n == packets.len())
    }
}

/// The position behind the first `n` packets.
pub open spec fn position(start: int, packets: Seq<Seq<u8>>, n: int) -> int
    decreases n,
{
    if n <= 0 {
        start
    } else {
        position(start, packets, n - 1) + samples(packets[n - 1])
    }
}

proof fn lemma_position(start: int, packets: Seq<Seq<u8>>, a: int, b: int)
    requires
        0 <= a <= b,
    ensures
        position(start, packets, a) <= position(start, packets, b),
    decreases b,
{
    if a < b {
        lemma_position(start, packets, a, b - 1);
    }
}

/// Positions that each packet has or has not are found again by counting.
proof fn lemma_back(group: Seq<PacketView>, pos: Seq<u64>, i: int)
    requires
        0 <= i < group.len(),
        pos.len() == group.len(),
        group.last().granule == pos.last(),
        forall|k: int| 0 < k < group.len() ==> pos[k - 1] + samples((#[trigger] group[k]).data) == pos[k],
    ensures
        back(group, i) == pos[i],
    decreases group.len() - i,
{
    if i < group.len() - 1 {
        lemma_back(group, pos, i + 1);
        assert(pos[i + 1 - 1] + samples(group[i + 1].data) == pos[i + 1]);
    }
}

proof fn lemma_group_end(rest: Seq<PacketView>, k: int)
    requires
        0 <= k < rest.len(),
        rest.last().granule != NO_GRANULE,
    ensures
        rest[group_len(rest, k) - 1].granule != NO_GRANULE,
        k < group_len(rest, k) <= rest.len(),
    decreases rest.len() - k,
{
    reveal_with_fuel(group_len, 2);
    if rest[k].granule == NO_GRANULE && k + 1 < rest.len() {
        lemma_group_end(rest, k + 1);
    }
}

/// Where each packet has its position or none, the last has it, and positions
/// grow by the packets' samples, counting finds every position.
pub proof fn lemma_resolved(rest: Seq<PacketView>, pos: Seq<u64>, last: u64)
    requires
        pos.len() == rest.len(),
        rest.len() > 0 ==> rest.last().granule == pos.last(),
        forall|i: int| 0 <= i < pos.len() ==> #[trigger] pos[i] != NO_GRANULE,
        forall|i: int|
            0 <= i < rest.len() ==> (#[trigger] rest[i]).granule == NO_GRANULE || rest[i].granule == pos[i],
        forall|k: int| 0 < k < rest.len() ==> pos[k - 1] + samples((#[trigger] rest[k]).data) == pos[k],
    ensures
        resolved(rest, last).len() == rest.len(),
        forall|i: int|
            0 <= i < rest.len() ==> (#[trigger] resolved(rest, last)[i]).granule == pos[i] && resolved(rest, last)[i].data
                == rest[i].data && resolved(rest, last)[i].eos == rest[i].eos,
    decreases rest.len(),
{
    if rest.len() > 0 {
        assert(pos[pos.len() - 1] != NO_GRANULE);
        lemma_group_end(rest, 0);
        let n = group_len(rest, 0);
        let group = rest.take(n);
        let more = rest.skip(n);
        let out = placed(group, last);
        let p = pos.take(n);
        let q = pos.skip(n);
        assert(group.last() == rest[n - 1]);
        assert(p.last() == pos[n - 1]);
        assert forall|k: int| 0 < k < group.len() implies p[k - 1] + samples((#[trigger] group[k]).data) == p[k] by {
            assert(group[k] == rest[k]);
        }
        assert forall|k: int| 0 < k < more.len() implies q[k - 1] + samples((#[trigger] more[k]).data) == q[k] by {
            assert(more[k] == rest[n + k]);
        }
        assert forall|i: int| 0 <= i < more.len() implies (#[trigger] more[i]).granule == NO_GRANULE
            || more[i].granule == q[i] by {
            assert(more[i] == rest[n + i]);
        }
        assert forall|i: int| 0 <= i < q.len() implies #[trigger] q[i] != NO_GRANULE by {
            assert(q[i] == pos[n + i]);
        }
        if more.len() > 0 {
            assert(more.last() == rest.last());
            assert(q.last() == pos.last());
        }
        lemma_resolved(more, q, out.last().granule);
        let tail = resolved(more, out.last().granule);
        assert(resolved(rest, last) == out + tail);
        assert forall|i: int| 0 <= i < rest.len() implies (#[trigger] resolved(rest, last)[i]).granule == pos[i]
            && resolved(rest, last)[i].data == rest[i].data && resolved(rest, last)[i].eos == rest[i].eos by {
            if i < n {
                lemma_back(group, p, i);
                assert(resolved(rest, last)[i] == out[i]);
            } else {
                assert(resolved(rest, last)[i] == tail[i - n]);
                assert(more[i - n] == rest[i]);
            }
        }
    }
}

/// The packets of a file as they were sent.
spec fn sent_of(head: HeadView, tags: TagsView, packets: Seq<Seq<u8>>, n: int) -> Seq<Sent> {
    seq![Sent { data: head.bytes(), granule: 0 }, Sent { data: tags.bytes(), granule: 0 }] + Seq::new(
        n as nat,
        |i: int|
            Sent { data: packets[i], granule: position(head.pre_skip as int, packets, i + 1) as u64 },
    )
}

/// The first page of a file.
spec fn starts_stream(pages: Seq<PageView>, serial: u32) -> bool {
    &&& pages.len() > 0
    &&& pages[0].bos
    &&& pages[0].body.len() >= 8
    &&& pages[0].body.take(8) == head_magic()
    &&& pages[0].serial == serial
}

proof fn lemma_pages_kept(w: Written, packet: Seq<u8>, granule: u64, last: bool, serial: u32)
    requires
        starts_stream(w.pages, serial),
    ensures
        starts_stream(w.with_packet(packet, granule, last).pages, serial),
        starts_stream(w.flushed().pages, serial),
{
    writer::lemma_pages_before(w.writer, w.pages, packet, granule, last);
    let more = (Written { writer: w.writer, pages: Seq::empty() }).with_packet(packet, granule, last).pages;
    assert((w.pages + more)[0] == w.pages[0]);
    let end = (Written { writer: w.writer, pages: Seq::empty() }).flushed().pages;
    assert((w.pages + end)[0] == w.pages[0]);
}

/// The stream with the identification header on its page.
spec fn headed(head: HeadView, serial: u32) -> Written {
    (Written { writer: WriterView::start(serial), pages: Seq::empty() }).with_packet(head.bytes(), 0, false).flushed()
}

/// One page holds all of the identification header.
proof fn lemma_first_page(head: HeadView, serial: u32)
    requires
        head.valid(),
    ensures
        headed(head, serial).holds(seq![Sent { data: head.bytes(), granule: 0 }], None),
        headed(head, serial).writer.serial == serial,
        starts_stream(headed(head, serial).pages, serial),
        headed(head, serial).goes_on(),
{
    lemma_head_round_trip(head);
    let none = Seq::<Sent>::empty();
    let w0 = Written { writer: WriterView::start(serial), pages: Seq::empty() };
    writer::lemma_start(serial);
    writer::lemma_push_packet(w0, none, head.bytes(), 0);
    let w1 = w0.with_packet(head.bytes(), 0, false);
    let s1 = none.push(Sent { data: head.bytes(), granule: 0 });
    assert(s1 =~= seq![Sent { data: head.bytes(), granule: 0 }]);
    writer::lemma_flush_packets(w1, s1);
    writer::lemma_goes_on(w0, head.bytes(), 0);
    writer::lemma_goes_on(w1, head.bytes(), 0);
    let b = head.bytes();
    reveal_with_fuel(Written::with_segments, 3);
    assert(b.len() as int / 255 == 0 || b.len() as int / 255 == 1);
    assert(w1.pages =~= Seq::<PageView>::empty());
    assert(w1.writer.body =~= b);
    assert(w1.flushed().pages[0] == w1.writer.page(false));
}

proof fn lemma_opening_pages(head: HeadView, tags: TagsView, serial: u32)
    requires
        head.valid(),
    ensures
        ({
            let w = OpusWriterView::start(head, tags, serial).written;
            &&& w.holds(sent_of(head, tags, Seq::empty(), 0), None)
            &&& w.writer.serial == serial
            &&& starts_stream(w.pages, serial)
            &&& w.writer.lacing.len() == 0
            &&& w.goes_on()
            &&& page::packets_from(w.pages, serial, Pending::Idle).len() == 2
            &&& page::packets_from(w.pages.drop_last(), serial, Pending::Idle).len() < 2
        }),
{
    lemma_first_page(head, serial);
    let w2 = headed(head, serial);
    let s1 = seq![Sent { data: head.bytes(), granule: 0 }];
    writer::lemma_push_packet(w2, s1, tags.bytes(), 0);
    let w3 = w2.with_packet(tags.bytes(), 0, false);
    let s2 = s1.push(Sent { data: tags.bytes(), granule: 0 });
    writer::lemma_flush_packets(w3, s2);
    writer::lemma_goes_on(w2, tags.bytes(), 0);
    writer::lemma_goes_on(w3, tags.bytes(), 0);
    lemma_pages_kept(w2, tags.bytes(), 0, false, serial);
    lemma_pages_kept(w3, tags.bytes(), 0, false, serial);
    assert(w3.flushed().pages.drop_last() =~= w3.pages);
    assert(w3.flushed().walked().done.len() == 0);
    assert(s2 =~= sent_of(head, tags, Seq::empty(), 0));
}

proof fn lemma_packets_sent(head: HeadView, tags: TagsView, serial: u32, packets: Seq<Seq<u8>>, n: int)
    requires
        head.valid(),
        0 <= n < packets.len(),
        position(head.pre_skip as int, packets, packets.len() as int) < NO_GRANULE,
    ensures
        ({
            let w = with_packets(OpusWriterView::start(head, tags, serial), packets, n);
            &&& w.written.holds(sent_of(head, tags, packets, n), None)
            &&& w.written.writer.serial == serial
            &&& w.granule == position(head.pre_skip as int, packets, n)
            &&& !w.finished
            &&& starts_stream(w.written.pages, serial)
            &&& w.written.goes_on()
        }),
    decreases n,
{
    let start = OpusWriterView::start(head, tags, serial);
    if n == 0 {
        lemma_opening_pages(head, tags, serial);
        assert(sent_of(head, tags, packets, 0) =~= sent_of(head, tags, Seq::empty(), 0));
    } else {
        lemma_packets_sent(head, tags, serial, packets, n - 1);
        let w = with_packets(start, packets, n - 1);
        lemma_position(head.pre_skip as int, packets, n, packets.len() as int);
        lemma_position(head.pre_skip as int, packets, 0, n - 1);
        let granule = w.granule.wrapping_add(samples(packets[n - 1]));
        assert(granule == position(head.pre_skip as int, packets, n));
        writer::lemma_push_packet(w.written, sent_of(head, tags, packets, n - 1), packets[n - 1], granule);
        lemma_pages_kept(w.written, packets[n - 1], granule, false, serial);
        writer::lemma_goes_on(w.written, packets[n - 1], granule);
        assert(sent_of(head, tags, packets, n - 1).push(Sent { data: packets[n - 1], granule }) =~= sent_of(
            head,
            tags,
            packets,
            n,
        ));
    }
}

/// Whether the reader takes of a file the headers and the first `n` packets, each with
/// its position.
pub open spec fn reads_back(
    file: Seq<u8>,
    head: HeadView,
    tags: TagsView,
    serial: u32,
    packets: Seq<Seq<u8>>,
    n: int,
) -> bool {
    let o = opening(file);
    &&& o is Ok
    &&& o->Ok_0.head == head
    &&& o->Ok_0.tags == tags
    &&& o->Ok_0.serial == serial
    &&& resolved(o->Ok_0.packets, 0).len() == n
    &&& forall|i: int|
        0 <= i < n ==> (#[trigger] resolved(o->Ok_0.packets, 0)[i]).data == packets[i] && resolved(
            o->Ok_0.packets,
            0,
        )[i].granule == position(head.pre_skip as int, packets, i + 1)
}

/// What the reader takes of pages on which the packets stand.
proof fn lemma_read_back(
    head: HeadView,
    tags: TagsView,
    serial: u32,
    packets: Seq<Seq<u8>>,
    n: int,
    pages: Seq<PageView>,
)
    requires
        head.valid(),
        tags.valid(),
        0 <= n <= packets.len(),
        position(head.pre_skip as int, packets, n) < NO_GRANULE,
        starts_stream(pages, serial),
        forall|k: int| 0 <= k < pages.len() ==> (#[trigger] pages[k]).wf(),
        ({
            let all = sent_of(head, tags, packets, n);
            let got = page::packets_from(pages, serial, Pending::Idle);
            &&& got.len() == all.len()
            &&& forall|i: int|
                0 <= i < got.len() ==> (#[trigger] got[i]).data == all[i].data && (got[i].granule == NO_GRANULE
                    || got[i].granule == all[i].granule)
            &&& got.last().granule == all.last().granule
        }),
    ensures
        reads_back(page::pages_bytes(pages), head, tags, serial, packets, n),
        opening(page::pages_bytes(pages))->Ok_0.packets == page::packets_from(pages, serial, Pending::Idle).skip(2),
        forall|i: int|
            0 <= i < n ==> (#[trigger] resolved(opening(page::pages_bytes(pages))->Ok_0.packets, 0)[i]).eos
                == page::packets_from(pages, serial, Pending::Idle)[i + 2].eos,
{
    let all = sent_of(head, tags, packets, n);
    writer::lemma_pages_round_trip(pages);
    let got = page::packets_from(pages, serial, Pending::Idle);
    assert(opus_serial(pages) == Some(serial));
    assert(got[0].data == all[0].data);
    assert(got[1].data == all[1].data);
    lemma_head_round_trip(head);
    lemma_tags_round_trip(tags);
    let rest = got.skip(2);
    let pos = Seq::new(n as nat, |i: int| position(head.pre_skip as int, packets, i + 1) as u64);
    assert forall|i: int| 0 <= i < n implies #[trigger] pos[i] != NO_GRANULE && pos[i] == position(
        head.pre_skip as int,
        packets,
        i + 1,
    ) by {
        lemma_position(head.pre_skip as int, packets, i + 1, n);
        lemma_position(head.pre_skip as int, packets, 0, i + 1);
    }
    assert forall|i: int| 0 <= i < rest.len() implies ((#[trigger] rest[i]).granule == NO_GRANULE || rest[i].granule
        == pos[i]) && rest[i].data == packets[i] by {
        assert(rest[i] == got[i + 2]);
        assert(got[i + 2].data == all[i + 2].data);
    }
    assert forall|k: int| 0 < k < rest.len() implies pos[k - 1] + samples((#[trigger] rest[k]).data) == pos[k] by {
        assert(rest[k].data == packets[k]);
        assert(pos[k - 1] == position(head.pre_skip as int, packets, k));
        assert(pos[k] == position(head.pre_skip as int, packets, k + 1));
    }
    if n > 0 {
        assert(rest.last() == got.last());
        assert(all.last() == all[n + 1]);
    }
    lemma_resolved(rest, pos, 0);
    let out = resolved(rest, 0);
    assert forall|i: int| 0 <= i < n implies (#[trigger] out[i]).data == packets[i] && out[i].granule == position(
        head.pre_skip as int,
        packets,
        i + 1,
    ) && out[i].eos == got[i + 2].eos by {
        assert(out[i].granule == pos[i]);
        assert(out[i].data == rest[i].data);
        assert(out[i].eos == rest[i].eos);
    }
}

/// The pages of a file whose last packet closed it.
proof fn lemma_finished_pages(head: HeadView, tags: TagsView, serial: u32, packets: Seq<Seq<u8>>)
    requires
        head.valid(),
        packets.len() > 0,
        position(head.pre_skip as int, packets, packets.len() as int) < NO_GRANULE,
    ensures
        ({
            let n = packets.len() as int;
            let pages = with_packets(OpusWriterView::start(head, tags, serial), packets, n).file_pages();
            let all = sent_of(head, tags, packets, n);
            let got = page::packets_from(pages, serial, Pending::Idle);
            &&& starts_stream(pages, serial)
            &&& forall|k: int| 0 <= k < pages.len() ==> (#[trigger] pages[k]).wf()
            &&& got.len() == all.len()
            &&& forall|i: int|
                0 <= i < got.len() ==> (#[trigger] got[i]).data == all[i].data && (got[i].granule == NO_GRANULE
                    || got[i].granule == all[i].granule)
            &&& got.last().granule == all.last().granule
            &&& got.last().eos
            &&& pages.last().granule == position(head.pre_skip as int, packets, n)
            &&& pages.last().serial == serial
            &&& only_last(pages)
        }),
{
    let n = packets.len() as int;
    let start = OpusWriterView::start(head, tags, serial);
    let w = with_packets(start, packets, n - 1);
    lemma_packets_sent(head, tags, serial, packets, n - 1);
    lemma_position(head.pre_skip as int, packets, 0, n - 1);
    let sent = sent_of(head, tags, packets, n - 1);
    let granule = w.granule.wrapping_add(samples(packets[n - 1]));
    assert(granule == position(head.pre_skip as int, packets, n));
    writer::lemma_close(w.written, sent, packets[n - 1], granule);
    writer::lemma_goes_on(w.written, packets[n - 1], granule);
    lemma_pages_kept(w.written, packets[n - 1], granule, true, serial);
    assert(sent.push(Sent { data: packets[n - 1], granule }) =~= sent_of(head, tags, packets, n));
    let end = with_packets(start, packets, n);
    assert(end.written.pages == w.written.with_packet(packets[n - 1], granule, true).pages);
    assert(end.finished);
    assert forall|k: int| 0 <= k < end.written.pages.len() implies (#[trigger] end.written.pages[k]).wf() by {
        assert(end.written.pages[k].wf());
    }
    assert forall|k: int| 0 <= k < end.written.pages.len() - 1 implies !(#[trigger] end.written.pages[k]).eos by {
        let before = Written { writer: end.written.writer, pages: end.written.pages.drop_last() };
        assert(before.goes_on());
        assert(before.pages[k] == end.written.pages[k]);
    }
}

/// The pages of a file that an empty page closed.
proof fn lemma_unfinished_pages(head: HeadView, tags: TagsView, serial: u32, packets: Seq<Seq<u8>>, n: int)
    requires
        head.valid(),
        0 <= n < packets.len(),
        position(head.pre_skip as int, packets, packets.len() as int) < NO_GRANULE,
    ensures
        ({
            let pages = with_packets(OpusWriterView::start(head, tags, serial), packets, n).file_pages();
            let all = sent_of(head, tags, packets, n);
            let got = page::packets_from(pages, serial, Pending::Idle);
            &&& starts_stream(pages, serial)
            &&& forall|k: int| 0 <= k < pages.len() ==> (#[trigger] pages[k]).wf()
            &&& got.len() == all.len()
            &&& forall|i: int|
                0 <= i < got.len() ==> (#[trigger] got[i]).data == all[i].data && (got[i].granule == NO_GRANULE
                    || got[i].granule == all[i].granule)
            &&& got.last().granule == all.last().granule
            &&& pages.last().granule == position(head.pre_skip as int, packets, n)
            &&& pages.last().body.len() == 0
            &&& only_last(pages)
        }),
{
    let w = with_packets(OpusWriterView::start(head, tags, serial), packets, n);
    lemma_packets_sent(head, tags, serial, packets, n);
    let sent = sent_of(head, tags, packets, n);
    writer::lemma_closed(w.written, sent, w.granule);
    writer::lemma_goes_on(w.written, Seq::empty(), 0);
    lemma_pages_kept(w.written, Seq::empty(), 0, false, serial);
    let f = w.written.flushed();
    let pages = w.written.closed(w.granule).pages;
    assert(pages[0] == f.pages[0]);
    assert forall|k: int| 0 <= k < pages.len() implies (#[trigger] pages[k]).wf() by {
        assert(w.written.closed(w.granule).pages[k].wf());
    }
    assert forall|k: int| 0 <= k < pages.len() - 1 implies !(#[trigger] pages[k]).eos by {
        assert(pages[k] == f.pages[k]);
    }
}

/// Whether the last page is the only one that is marked as the last.
pub open spec fn only_last(pages: Seq<PageView>) -> bool {
    &&& pages.len() > 0
    &&& pages.last().eos
    &&& forall|k: int| 0 <= k < pages.len() - 1 ==> !(#[trigger] pages[k]).eos
}

/// From the file that the writer made of headers and packets, the reader takes the
/// same headers and, in order, the same packets, each with the position that the
/// writer gave it: the samples up to its end, counted from those to be dropped.
pub proof fn lemma_file_round_trip(head: HeadView, tags: TagsView, serial: u32, packets: Seq<Seq<u8>>)
    requires
        head.valid(),
        tags.valid(),
        packets.len() > 0,
        position(head.pre_skip as int, packets, packets.len() as int) < NO_GRANULE,
    ensures
        ({
            let n = packets.len() as int;
            let w = with_packets(OpusWriterView::start(head, tags, serial), packets, n);
            &&& reads_back(w.file(), head, tags, serial, packets, n)
            &&& resolved(opening(w.file())->Ok_0.packets, 0).last().eos
        }),
{
    let n = packets.len() as int;
    let w = with_packets(OpusWriterView::start(head, tags, serial), packets, n);
    lemma_finished_pages(head, tags, serial, packets);
    lemma_read_back(head, tags, serial, packets, n, w.file_pages());
    let got = page::packets_from(w.file_pages(), serial, Pending::Idle);
    assert(got.last() == got[n - 1 + 2]);
}

/// A file that no packet closed, of which `n` packets were given to the writer, holds
/// these and no other, and an empty page at the end closes it.
pub proof fn lemma_unfinished_round_trip(head: HeadView, tags: TagsView, serial: u32, packets: Seq<Seq<u8>>, n: int)
    requires
        head.valid(),
        tags.valid(),
        0 <= n < packets.len(),
        position(head.pre_skip as int, packets, packets.len() as int) < NO_GRANULE,
    ensures
        ({
            let w = with_packets(OpusWriterView::start(head, tags, serial), packets, n);
            &&& !w.finished
            &&& reads_back(w.file(), head, tags, serial, packets, n)
            &&& w.file_pages().last().body.len() == 0
            &&& w.file_pages().last().granule == position(head.pre_skip as int, packets, n)
        }),
{
    lemma_packets_sent(head, tags, serial, packets, n);
    lemma_unfinished_pages(head, tags, serial, packets, n);
    lemma_position(head.pre_skip as int, packets, n, packets.len() as int);
    let w = with_packets(OpusWriterView::start(head, tags, serial), packets, n);
    lemma_read_back(head, tags, serial, packets, n, w.file_pages());
}

/// The last page of a file, and no other, is marked as the last, whether a packet closed
/// the stream or not.
pub proof fn lemma_last_page(head: HeadView, tags: TagsView, serial: u32, packets: Seq<Seq<u8>>, n: int)
    requires
        head.valid(),
        0 <= n <= packets.len(),
        packets.len() > 0,
        position(head.pre_skip as int, packets, packets.len() as int) < NO_GRANULE,
    ensures
        only_last(with_packets(OpusWriterView::start(head, tags, serial), packets, n).file_pages()),
{
    if n == packets.len() {
        lemma_finished_pages(head, tags, serial, packets);
    } else {
        lemma_unfinished_pages(head, tags, serial, packets, n);
    }
}

/// Where more packets are read than headers, the last page is one of audio.
proof fn lemma_audio_last(pages: Seq<PageView>, serial: u32, pending: Pending, headers: int)
    requires
        headers >= 0,
        page::packets_from(pages, serial, pending).len() > headers,
    ensures
        audio_pages(pages, serial, pending, headers).len() > 0,
        audio_pages(pages, serial, pending, headers).last() == pages.last(),
    decreases pages.len(),
{
    if pages.len() > 0 && headers > 0 {
        let rest = pages.drop_first();
        if pages[0].serial != serial {
            lemma_audio_last(rest, serial, pending, headers);
        } else {
            let w = pages[0].walked(pending);
            if w.done.len() <= headers {
                lemma_audio_last(rest, serial, w.pending, headers - w.done.len());
            }
        }
    }
}

/// Where the last header ends on the last page, no page is one of audio.
proof fn lemma_audio_none(pages: Seq<PageView>, serial: u32, pending: Pending, headers: int)
    requires
        pages.len() > 0,
        page::packets_from(pages, serial, pending).len() == headers,
        page::packets_from(pages.drop_last(), serial, pending).len() < headers,
    ensures
        audio_pages(pages, serial, pending, headers).len() == 0,
    decreases pages.len(),
{
    reveal_with_fuel(audio_pages, 2);
    reveal_with_fuel(page::packets_from, 2);
    let rest = pages.drop_first();
    if pages.len() == 1 {
        assert(rest =~= Seq::<PageView>::empty());
    } else {
        assert(pages.drop_last().drop_first() =~= rest.drop_last());
        assert(pages.drop_last()[0] == pages[0]);
        if pages[0].serial != serial {
            lemma_audio_none(rest, serial, pending, headers);
        } else {
            let w = pages[0].walked(pending);
            lemma_audio_none(rest, serial, w.pending, headers - w.done.len());
        }
    }
}

/// A file of the two headers alone plays for no known time.
pub proof fn lemma_no_duration(head: HeadView, tags: TagsView, serial: u32)
    requires
        head.valid(),
    ensures
        ({
            let file = page::pages_bytes(OpusWriterView::start(head, tags, serial).written.pages);
            last_granule(audio_pages(page::pages_from(file, 0), serial, Pending::Idle, 2), serial) is None
        }),
{
    let w = OpusWriterView::start(head, tags, serial).written;
    lemma_opening_pages(head, tags, serial);
    assert forall|k: int| 0 <= k < w.pages.len() implies (#[trigger] w.pages[k]).wf() by {
        assert(w.pages[k].wf());
    }
    writer::lemma_pages_round_trip(w.pages);
    lemma_audio_none(w.pages, serial, Pending::Idle, 2);
}

/// The file that the writer made of headers and packets plays as many samples as
/// its packets have together.
pub proof fn lemma_duration(head: HeadView, tags: TagsView, serial: u32, packets: Seq<Seq<u8>>)
    requires
        head.valid(),
        packets.len() > 0,
        position(head.pre_skip as int, packets, packets.len() as int) < NO_GRANULE,
    ensures
        ({
            let w = with_packets(OpusWriterView::start(head, tags, serial), packets, packets.len() as int);
            let g = last_granule(audio_pages(page::pages_from(w.file(), 0), serial, Pending::Idle, 2), serial);
            &&& g is Some
            &&& less(g->0, head.pre_skip as u64) == position(0, packets, packets.len() as int)
        }),
{
    let n = packets.len() as int;
    let pages = with_packets(OpusWriterView::start(head, tags, serial), packets, n).file_pages();
    lemma_finished_pages(head, tags, serial, packets);
    lemma_position_start(head.pre_skip as int, packets, n);
    lemma_position(head.pre_skip as int, packets, 0, n);
    writer::lemma_pages_round_trip(pages);
    lemma_audio_last(pages, serial, Pending::Idle, 2);
}

proof fn lemma_position_start(start: int, packets: Seq<Seq<u8>>, n: int)
    requires
        0 <= n,
    ensures
        position(start, packets, n) == start + position(0, packets, n),
    decreases n,
{
    if n > 0 {
        lemma_position_start(start, packets, n - 1);
    }
}

} // verus!
