//! The packet layer: the byte that heads every packet, and how a packet is cut
//! into frames.

pub mod laws;

use vstd::prelude::*;

use crate::math;

verus! {

/// The coding mode of a packet.
#[derive(Clone, Copy, Debug, PartialEq, Eq, Hash, Structural)]
pub enum Mode {
    /// Linear prediction only.
    SilkOnly,
    /// Linear prediction below 8 kHz, transform above.
    Hybrid,
    /// Transform only.
    CeltOnly,
}

/// The audio bandwidth of a packet, from 4 kHz to 20 kHz.
#[derive(Clone, Copy, Debug, PartialEq, Eq, PartialOrd, Ord, Hash, Structural)]
pub enum Bandwidth {
    NarrowBand,
    MediumBand,
    WideBand,
    SuperWideBand,
    FullBand,
}

impl Bandwidth {
    /// The place of a bandwidth among the others.
    pub open spec fn rank_spec(self) -> int {
        match self {
            Bandwidth::NarrowBand => 0,
            Bandwidth::MediumBand => 1,
            Bandwidth::WideBand => 2,
            Bandwidth::SuperWideBand => 3,
            Bandwidth::FullBand => 4,
        }
    }

    /// The place of a bandwidth among the others.
    pub fn rank(self) -> (r: u8)
        ensures
            r == self.rank_spec(),
    {
        match self {
            Bandwidth::NarrowBand => 0,
            Bandwidth::MediumBand => 1,
            Bandwidth::WideBand => 2,
            Bandwidth::SuperWideBand => 3,
            Bandwidth::FullBand => 4,
        }
    }

    /// The narrower of two bandwidths.
    pub open spec fn narrower_spec(self, other: Bandwidth) -> Bandwidth {
        if other.rank_spec() < self.rank_spec() {
            other
        } else {
            self
        }
    }

    /// The narrower of two bandwidths.
    pub fn narrower(self, other: Bandwidth) -> (r: Bandwidth)
        ensures
            r == self.narrower_spec(other),
    {
        if other.rank() < self.rank() {
            other
        } else {
            self
        }
    }
}

/// The duration of a frame.
#[derive(Clone, Copy, Debug, PartialEq, Eq, Hash, Structural)]
pub enum FrameSize {
    Ms2_5,
    Ms5,
    Ms10,
    Ms20,
    Ms40,
    Ms60,
}

impl FrameSize {
    /// The samples per channel at 48 kHz.
    pub open spec fn samples(self) -> int {
        match self {
            FrameSize::Ms2_5 => 120,
            FrameSize::Ms5 => 240,
            FrameSize::Ms10 => 480,
            FrameSize::Ms20 => 960,
            FrameSize::Ms40 => 1920,
            FrameSize::Ms60 => 2880,
        }
    }

    /// The samples per channel at 48 kHz.
    pub fn samples_per_channel_48k(self) -> (r: usize)
        ensures
            r == self.samples(),
            120 <= r <= 2880,
    {
        match self {
            FrameSize::Ms2_5 => 120,
            FrameSize::Ms5 => 240,
            FrameSize::Ms10 => 480,
            FrameSize::Ms20 => 960,
            FrameSize::Ms40 => 1920,
            FrameSize::Ms60 => 2880,
        }
    }
}

/// The byte that heads a packet: five bits of configuration, a stereo flag and
/// two bits that tell how frames are counted. Every byte is one.
#[derive(Clone, Copy, Debug, PartialEq, Eq, Hash, Structural)]
pub struct Toc {
    byte: u8,
}

impl View for Toc {
    type V = u8;

    closed spec fn view(&self) -> u8 {
        self.byte
    }
}

/// The mode of a configuration.
pub open spec fn mode_of(config: int) -> Mode {
    if config < 12 {
        Mode::SilkOnly
    } else if config < 16 {
        Mode::Hybrid
    } else {
        Mode::CeltOnly
    }
}

/// The bandwidth of a configuration.
pub open spec fn bandwidth_of(config: int) -> Bandwidth {
    if config < 4 {
        Bandwidth::NarrowBand
    } else if config < 8 {
        Bandwidth::MediumBand
    } else if config < 12 {
        Bandwidth::WideBand
    } else if config < 14 {
        Bandwidth::SuperWideBand
    } else if config < 16 {
        Bandwidth::FullBand
    } else if config < 20 {
        Bandwidth::NarrowBand
    } else if config < 24 {
        Bandwidth::WideBand
    } else if config < 28 {
        Bandwidth::SuperWideBand
    } else {
        Bandwidth::FullBand
    }
}

/// The frame size of a configuration.
pub open spec fn frame_size_of(config: int) -> FrameSize {
    if config < 12 {
        if config % 4 == 0 {
            FrameSize::Ms10
        } else if config % 4 == 1 {
            FrameSize::Ms20
        } else if config % 4 == 2 {
            FrameSize::Ms40
        } else {
            FrameSize::Ms60
        }
    } else if config < 16 {
        if config % 2 == 0 {
            FrameSize::Ms10
        } else {
            FrameSize::Ms20
        }
    } else if config % 4 == 0 {
        FrameSize::Ms2_5
    } else if config % 4 == 1 {
        FrameSize::Ms5
    } else if config % 4 == 2 {
        FrameSize::Ms10
    } else {
        FrameSize::Ms20
    }
}

impl Toc {
    /// The byte of three fields.
    pub open spec fn packed(config: int, stereo: bool, code: int) -> int {
        8 * config + (if stereo {
            4int
        } else {
            0
        }) + code
    }

    /// Takes a byte for what heads a packet.
    pub fn new(byte: u8) -> (r: Toc)
        ensures
            r@ == byte,
    {
        Toc { byte }
    }

    /// The byte of a configuration, a stereo flag and a frame count code.
    pub fn from_parts(config: u8, stereo: bool, frame_count_code: u8) -> (r: Toc)
        requires
            config <= 31,
            frame_count_code <= 3,
        ensures
            r@ == Toc::packed(config as int, stereo, frame_count_code as int),
            r@ / 8 == config,
            (r@ / 4 % 2 == 1) == stereo,
            r@ % 4 == frame_count_code,
    {
        Toc {
            byte: 8 * config + (if stereo {
                4
            } else {
                0
            }) + frame_count_code,
        }
    }

    /// The same with a check of the fields: `None` where one is too large.
    pub fn checked_from_parts(config: u8, stereo: bool, frame_count_code: u8) -> (r: Option<Toc>)
        ensures
            r is Some <==> config <= 31 && frame_count_code <= 3,
            r is Some ==> r->0@ == Toc::packed(config as int, stereo, frame_count_code as int),
    {
        if config > 31 || frame_count_code > 3 {
            None
        } else {
            Some(Toc::from_parts(config, stereo, frame_count_code))
        }
    }

    /// The byte.
    pub fn byte(&self) -> (r: u8)
        ensures
            r == self@,
    {
        self.byte
    }

    /// The configuration, 0 to 31.
    pub fn config(&self) -> (r: u8)
        ensures
            r == self@ / 8,
            r <= 31,
    {
        self.byte / 8
    }

    /// Whether the packet is stereo.
    pub fn stereo(&self) -> (r: bool)
        ensures
            r == (self@ / 4 % 2 == 1),
    {
        self.byte / 4 % 2 == 1
    }

    /// The number of channels.
    pub fn channels(&self) -> (r: u8)
        ensures
            r == if self@ / 4 % 2 == 1 {
                2int
            } else {
                1
            },
    {
        if self.stereo() {
            2
        } else {
            1
        }
    }

    /// How frames are counted, 0 to 3.
    pub fn frame_count_code(&self) -> (r: u8)
        ensures
            r == self@ % 4,
            r <= 3,
    {
        self.byte % 4
    }

    /// The mode.
    pub fn mode(&self) -> (r: Mode)
        ensures
            r == mode_of(self@ as int / 8),
    {
        let c: u8 = self.config();
        if c < 12 {
            Mode::SilkOnly
        } else if c < 16 {
            Mode::Hybrid
        } else {
            Mode::CeltOnly
        }
    }

    /// The bandwidth.
    pub fn bandwidth(&self) -> (r: Bandwidth)
        ensures
            r == bandwidth_of(self@ as int / 8),
    {
        let c: u8 = self.config();
        if c < 4 {
            Bandwidth::NarrowBand
        } else if c < 8 {
            Bandwidth::MediumBand
        } else if c < 12 {
            Bandwidth::WideBand
        } else if c < 14 {
            Bandwidth::SuperWideBand
        } else if c < 16 {
            Bandwidth::FullBand
        } else if c < 20 {
            Bandwidth::NarrowBand
        } else if c < 24 {
            Bandwidth::WideBand
        } else if c < 28 {
            Bandwidth::SuperWideBand
        } else {
            Bandwidth::FullBand
        }
    }

    /// The frame size.
    pub fn frame_size(&self) -> (r: FrameSize)
        ensures
            r == frame_size_of(self@ as int / 8),
    {
        let c: u8 = self.config();
        let k: u8 = c % 4;
        if c < 12 {
            if k == 0 {
                FrameSize::Ms10
            } else if k == 1 {
                FrameSize::Ms20
            } else if k == 2 {
                FrameSize::Ms40
            } else {
                FrameSize::Ms60
            }
        } else if c < 16 {
            if c % 2 == 0 {
                FrameSize::Ms10
            } else {
                FrameSize::Ms20
            }
        } else if k == 0 {
            FrameSize::Ms2_5
        } else if k == 1 {
            FrameSize::Ms5
        } else if k == 2 {
            FrameSize::Ms10
        } else {
            FrameSize::Ms20
        }
    }
}

/// Why a packet is malformed.
#[derive(Clone, Copy, Debug, PartialEq, Eq, Structural)]
pub enum PacketError {
    /// There is no byte at all.
    Empty,
    /// A frame is longer than 1275 bytes.
    FrameTooLarge,
    /// Two frames of one size have an odd number of bytes between them.
    OddLength,
    /// A coded frame length reaches past the packet.
    BadLength,
    /// There are no frames, or more than 120 ms of them.
    BadFrameCount,
    /// The padding reaches past the packet.
    BadPadding,
    /// Frames of one size do not fill the packet.
    UnevenFrames,
}

/// The longest frame, in bytes.
pub const MAX_FRAME_BYTES: usize = 1275;

/// Where the frames of a packet lie: the first one's place, their sizes, one
/// after the other, and the bytes of padding behind them.
#[verifier::ext_equal]
pub struct Layout {
    pub start: int,
    pub sizes: Seq<int>,
    pub padding: int,
}

/// A coded frame length at `pos`, of one or two bytes: the length and the place
/// behind it.
pub open spec fn coded_length(data: Seq<u8>, pos: int, end: int) -> Option<(int, int)> {
    if pos >= end {
        None
    } else if data[pos] < 252 {
        Some((data[pos] as int, pos + 1))
    } else if pos + 1 >= end {
        None
    } else {
        Some((data[pos] + 4 * data[pos + 1], pos + 2))
    }
}

/// The bytes of padding that are counted from `pos` on, and the place behind the
/// count.
pub open spec fn coded_padding(data: Seq<u8>, pos: int) -> Option<(int, int)>
    decreases data.len() - pos,
{
    if pos < 0 || pos >= data.len() {
        None
    } else if data[pos] == 255 {
        match coded_padding(data, pos + 1) {
            Some((n, next)) => Some((254 + n, next)),
            None => None,
        }
    } else {
        Some((data[pos] as int, pos + 1))
    }
}

/// The sum of the first `k` sizes.
pub open spec fn size_sum(sizes: Seq<int>, k: int) -> int
    decreases k,
{
    if k <= 0 {
        0
    } else {
        size_sum(sizes, k - 1) + sizes[k - 1]
    }
}

/// The first `k` coded lengths from `pos` on, and the place behind them.
pub open spec fn coded_lengths(data: Seq<u8>, pos: int, end: int, k: int) -> Option<(Seq<int>, int)>
    decreases k,
{
    if k <= 0 {
        Some((Seq::empty(), pos))
    } else {
        match coded_lengths(data, pos, end, k - 1) {
            None => None,
            Some((lens, next)) => match coded_length(data, next, end) {
                None => None,
                Some((len, after)) => Some((lens.push(len), after)),
            },
        }
    }
}

/// The layout of any number of frames between `pos` and `end`.
pub open spec fn frames_layout(data: Seq<u8>, pos: int, end: int, count: int, vbr: bool, padding: int) -> Result<
    Layout,
    PacketError,
> {
    if vbr {
        match coded_lengths(data, pos, end, count - 1) {
            None => Err(PacketError::BadLength),
            Some((lens, next)) => {
                let last = end - next - size_sum(lens, count - 1);
                if last < 0 {
                    Err(PacketError::BadLength)
                } else if last > MAX_FRAME_BYTES {
                    Err(PacketError::FrameTooLarge)
                } else {
                    Ok(Layout { start: next, sizes: lens.push(last), padding })
                }
            },
        }
    } else if (end - pos) % count != 0 {
        Err(PacketError::UnevenFrames)
    } else if (end - pos) / count > MAX_FRAME_BYTES {
        Err(PacketError::FrameTooLarge)
    } else {
        Ok(Layout { start: pos, sizes: Seq::new(count as nat, |i: int| (end - pos) / count), padding })
    }
}

/// The layout of a packet with a counted number of frames.
pub open spec fn counted_layout(data: Seq<u8>) -> Result<Layout, PacketError> {
    if data.len() < 2 {
        Err(PacketError::BadFrameCount)
    } else {
        let count = data[1] as int % 64;
        let vbr = data[1] as int / 128 == 1;
        let padded = data[1] as int / 64 % 2 == 1;
        if count == 0 || count * frame_size_of(data[0] as int / 8).samples() > 5760 {
            Err(PacketError::BadFrameCount)
        } else if padded {
            match coded_padding(data, 2) {
                None => Err(PacketError::BadPadding),
                Some((n, pos)) => if n > data.len() - pos {
                    Err(PacketError::BadPadding)
                } else {
                    frames_layout(data, pos, data.len() - n, count, vbr, n)
                },
            }
        } else {
            frames_layout(data, 2, data.len() as int, count, vbr, 0)
        }
    }
}

/// The layout of a packet.
pub open spec fn layout(data: Seq<u8>) -> Result<Layout, PacketError> {
    let n = data.len() - 1;
    if data.len() == 0 {
        Err(PacketError::Empty)
    } else if data[0] % 4 == 0 {
        if n > MAX_FRAME_BYTES {
            Err(PacketError::FrameTooLarge)
        } else {
            Ok(Layout { start: 1, sizes: seq![n], padding: 0 })
        }
    } else if data[0] % 4 == 1 {
        if n % 2 != 0 {
            Err(PacketError::OddLength)
        } else if n / 2 > MAX_FRAME_BYTES {
            Err(PacketError::FrameTooLarge)
        } else {
            Ok(Layout { start: 1, sizes: seq![n / 2, n / 2], padding: 0 })
        }
    } else if data[0] % 4 == 2 {
        frames_layout(data, 1, data.len() as int, 2, true, 0)
    } else {
        counted_layout(data)
    }
}

/// The integers that a list of sizes holds.
pub open spec fn sizes_view(s: Seq<usize>) -> Seq<int> {
    Seq::new(s.len(), |i: int| s[i] as int)
}

/// Where the frames of a packet lie.
pub struct FrameLayout {
    pub start: usize,
    pub sizes: Vec<usize>,
    pub padding: usize,
}

impl View for FrameLayout {
    type V = Layout;

    open spec fn view(&self) -> Layout {
        Layout { start: self.start as int, sizes: sizes_view(self.sizes@), padding: self.padding as int }
    }
}

fn read_length(data: &[u8], pos: usize, end: usize) -> (r: Option<(usize, usize)>)
    requires
        pos <= end <= data@.len(),
    ensures
        r is Some <==> coded_length(data@, pos as int, end as int) is Some,
        r is Some ==> {
            let s = coded_length(data@, pos as int, end as int)->0;
            (r->0).0 == s.0 && (r->0).1 == s.1 && (r->0).0 <= 1275 && (r->0).1 <= end
        },
{
    let len: usize = data.len();
    if pos >= end {
        None
    } else if data[pos] < 252 {
        Some((data[pos] as usize, pos + 1))
    } else if pos + 1 >= end {
        None
    } else {
        Some((data[pos] as usize + 4 * data[pos + 1] as usize, pos + 2))
    }
}

proof fn lemma_size_sum_push(s: Seq<int>, x: int, k: int)
    requires
        0 <= k <= s.len(),
    ensures
        size_sum(s.push(x), k) == size_sum(s, k),
    decreases k,
{
    if k > 0 {
        lemma_size_sum_push(s, x, k - 1);
    }
}

proof fn lemma_size_sum_even(n: nat, x: int, k: int)
    requires
        0 <= k <= n,
    ensures
        size_sum(Seq::new(n, |i: int| x), k) == k * x,
    decreases k,
{
    let s = Seq::new(n, |i: int| x);
    if k > 0 {
        lemma_size_sum_even(n, x, k - 1);
        assert(k * x == (k - 1) * x + x) by (nonlinear_arith);
    } else {
        assert(0 * x == 0) by (nonlinear_arith);
    }
}

/// The frames of a layout fill the packet between the first one and the padding.
pub open spec fn fills(l: Layout, len: int) -> bool {
    &&& 0 < l.start <= len
    &&& 0 <= l.padding
    &&& l.sizes.len() > 0
    &&& l.start + size_sum(l.sizes, l.sizes.len() as int) + l.padding == len
    &&& forall|i: int| 0 <= i < l.sizes.len() ==> 0 <= #[trigger] l.sizes[i] <= MAX_FRAME_BYTES
}

fn lay_out_frames(data: &[u8], pos: usize, end: usize, count: usize, vbr: bool, padding: usize) -> (r: Result<
    FrameLayout,
    PacketError,
>)
    requires
        0 < pos <= end,
        end + padding == data@.len(),
        1 <= count <= 63,
    ensures
        r is Ok <==> frames_layout(data@, pos as int, end as int, count as int, vbr, padding as int) is Ok,
        r is Ok ==> r->Ok_0@ == frames_layout(data@, pos as int, end as int, count as int, vbr, padding as int)->Ok_0
            && fills(r->Ok_0@, data@.len() as int),
        r is Err ==> r->Err_0 == frames_layout(
            data@,
            pos as int,
            end as int,
            count as int,
            vbr,
            padding as int,
        )->Err_0,
{
    let len: usize = data.len();
    let mut sizes: Vec<usize> = Vec::new();
    if vbr {
        let mut at: usize = pos;
        let mut k: usize = 0;
        let mut sum: usize = 0;
        assert(sizes_view(sizes@) =~= Seq::<int>::empty());
        while k < count - 1
            invariant
                vbr,
                len == data@.len(),
                pos <= at <= end <= len,
                k <= count - 1,
                count <= 63,
                sizes@.len() == k,
                coded_lengths(data@, pos as int, end as int, k as int) == Some((sizes_view(sizes@), at as int)),
                sum == size_sum(sizes_view(sizes@), k as int),
                sum <= 1275 * k,
                forall|i: int| 0 <= i < k ==> #[trigger] sizes@[i] <= 1275,
            decreases count - k,
        {
            match read_length(data, at, end) {
                None => {
                    proof {
                        lemma_no_lengths(data@, pos as int, end as int, k + 1, count - 1);
                    }
                    return Err(PacketError::BadLength);
                },
                Some((n, next)) => {
                    let ghost before = sizes_view(sizes@);
                    sizes.push(n);
                    proof {
                        assert(sizes_view(sizes@) =~= before.push(n as int));
                        lemma_size_sum_push(before, n as int, k as int);
                    }
                    sum = sum + n;
                    at = next;
                    k = k + 1;
                },
            }
        }
        if sum > end - at {
            return Err(PacketError::BadLength);
        }
        let last: usize = end - at - sum;
        if last > MAX_FRAME_BYTES {
            return Err(PacketError::FrameTooLarge);
        }
        let ghost before = sizes_view(sizes@);
        sizes.push(last);
        proof {
            assert(sizes_view(sizes@) =~= before.push(last as int));
            lemma_size_sum_push(before, last as int, count - 1);
            let l = sizes_view(sizes@);
            assert(size_sum(l, count as int) == size_sum(l, count - 1) + l[count - 1]);
            assert forall|i: int| 0 <= i < l.len() implies 0 <= #[trigger] l[i] <= MAX_FRAME_BYTES by {
                if i < count - 1 {
                    assert(l[i] == before[i]);
                }
            }
        }
        Ok(FrameLayout { start: at, sizes, padding })
    } else {
        let total: usize = end - pos;
        if total % count != 0 {
            return Err(PacketError::UnevenFrames);
        }
        let each: usize = total / count;
        if each > MAX_FRAME_BYTES {
            return Err(PacketError::FrameTooLarge);
        }
        let mut k: usize = 0;
        while k < count
            invariant
                k <= count,
                sizes@.len() == k,
                forall|i: int| 0 <= i < k ==> #[trigger] sizes@[i] == each,
            decreases count - k,
        {
            sizes.push(each);
            k = k + 1;
        }
        proof {
            let target = Seq::new(count as nat, |i: int| (end - pos) / (count as int));
            assert(sizes_view(sizes@) =~= target);
            lemma_size_sum_even(count as nat, each as int, count as int);
            assert(target =~= Seq::new(count as nat, |i: int| each as int));
            vstd::arithmetic::div_mod::lemma_fundamental_div_mod(total as int, count as int);
        }
        Ok(FrameLayout { start: pos, sizes, padding })
    }
}

proof fn lemma_no_lengths(data: Seq<u8>, pos: int, end: int, k: int, m: int)
    requires
        1 <= k <= m,
        coded_lengths(data, pos, end, k) is None,
    ensures
        coded_lengths(data, pos, end, m) is None,
    decreases m,
{
    if k < m {
        lemma_no_lengths(data, pos, end, k, m - 1);
    }
}

fn read_padding(data: &[u8], pos: usize) -> (r: Option<(usize, usize)>)
    requires
        pos <= data@.len(),
    ensures
        ({
            let s = coded_padding(data@, pos as int);
            &&& r is Some ==> s is Some && (r->0).0 == (s->0).0 && (r->0).1 == (s->0).1 && (r->0).1 <= data@.len()
                && (r->0).0 <= data@.len() - (r->0).1
            &&& r is None ==> s is None || (s->0).0 > data@.len() - (s->0).1
        }),
{
    let len: usize = data.len();
    let mut at: usize = pos;
    let mut n: usize = 0;
    let ghost whole = coded_padding(data@, pos as int);
    while at < len && data[at] == 255
        invariant
            len == data@.len(),
            pos <= at <= len,
            n <= len - at || at == pos,
            n == 0 || n <= len - at,
            whole == (match coded_padding(data@, at as int) {
                Some((m, next)) => Some((n + m, next)),
                None => None,
            }),
            whole == coded_padding(data@, pos as int),
        decreases len - at,
    {
        proof {
            lemma_padding(data@, at + 1);
        }
        if len - at - 1 < 254 || n > len - at - 1 - 254 {
            return None;
        }
        n = n + 254;
        at = at + 1;
    }
    if at >= len {
        None
    } else {
        let b: usize = data[at] as usize;
        if b > len - at - 1 || n > len - at - 1 - b {
            None
        } else {
            Some((n + b, at + 1))
        }
    }
}

proof fn lemma_padding(data: Seq<u8>, pos: int)
    requires
        0 <= pos,
    ensures
        coded_padding(data, pos) is Some ==> (coded_padding(data, pos)->0).0 >= 0 && pos < (coded_padding(data, pos)->0).1
            <= data.len(),
    decreases data.len() - pos,
{
    if pos < data.len() && data[pos] == 255 {
        lemma_padding(data, pos + 1);
    }
}

/// Finds the frames of a packet.
pub fn lay_out(data: &[u8]) -> (r: Result<FrameLayout, PacketError>)
    ensures
        r is Ok <==> layout(data@) is Ok,
        r is Ok ==> r->Ok_0@ == layout(data@)->Ok_0 && fills(r->Ok_0@, data@.len() as int),
        r is Err ==> r->Err_0 == layout(data@)->Err_0,
{
    let len: usize = data.len();
    if len == 0 {
        return Err(PacketError::Empty);
    }
    let toc: Toc = Toc::new(data[0]);
    let code: u8 = toc.frame_count_code();
    let n: usize = len - 1;
    if code == 0 {
        if n > MAX_FRAME_BYTES {
            return Err(PacketError::FrameTooLarge);
        }
        let mut sizes: Vec<usize> = Vec::new();
        sizes.push(n);
        proof {
            assert(sizes_view(sizes@) =~= seq![n as int]);
            reveal_with_fuel(size_sum, 2);
        }
        Ok(FrameLayout { start: 1, sizes, padding: 0 })
    } else if code == 1 {
        if n % 2 != 0 {
            return Err(PacketError::OddLength);
        }
        if n / 2 > MAX_FRAME_BYTES {
            return Err(PacketError::FrameTooLarge);
        }
        let mut sizes: Vec<usize> = Vec::new();
        sizes.push(n / 2);
        sizes.push(n / 2);
        proof {
            assert(sizes_view(sizes@) =~= seq![n as int / 2, n as int / 2]);
            reveal_with_fuel(size_sum, 3);
        }
        Ok(FrameLayout { start: 1, sizes, padding: 0 })
    } else if code == 2 {
        lay_out_frames(data, 1, len, 2, true, 0)
    } else {
        if len < 2 {
            return Err(PacketError::BadFrameCount);
        }
        let count: usize = (data[1] % 64) as usize;
        let vbr: bool = data[1] / 128 == 1;
        let padded: bool = data[1] / 64 % 2 == 1;
        let samples: usize = toc.frame_size().samples_per_channel_48k();
        proof {
            math::lemma_mul_range(count as int, 63, samples as int, 2880);
        }
        if count == 0 || count * samples > 5760 {
            return Err(PacketError::BadFrameCount);
        }
        if padded {
            match read_padding(data, 2) {
                None => Err(PacketError::BadPadding),
                Some((p, pos)) => {
                    proof {
                        lemma_padding(data@, 2);
                    }
                    lay_out_frames(data, pos, len - p, count, vbr, p)
                },
            }
        } else {
            lay_out_frames(data, 2, len, count, vbr, 0)
        }
    }
}

/// A packet cut into its frames.
pub struct Packet<'a> {
    toc: Toc,
    frames: Vec<&'a [u8]>,
    padding: usize,
}

/// What a packet is: its first byte, its frames and the bytes of its padding.
#[verifier::ext_equal]
pub struct PacketView {
    pub toc: u8,
    pub frames: Seq<Seq<u8>>,
    pub padding: int,
}

/// The frames of a packet at the places of a layout.
pub open spec fn cut(data: Seq<u8>, l: Layout) -> Seq<Seq<u8>> {
    Seq::new(
        l.sizes.len(),
        |i: int|
            data.subrange(l.start + size_sum(l.sizes, i), l.start + size_sum(l.sizes, i) + l.sizes[i]),
    )
}

impl<'a> View for Packet<'a> {
    type V = PacketView;

    closed spec fn view(&self) -> PacketView {
        PacketView {
            toc: self.toc@,
            frames: Seq::new(self.frames@.len(), |i: int| self.frames@[i]@),
            padding: self.padding as int,
        }
    }
}

proof fn lemma_size_sum_grows(s: Seq<int>, a: int, b: int)
    requires
        0 <= a <= b <= s.len(),
        forall|i: int| 0 <= i < s.len() ==> 0 <= #[trigger] s[i] <= MAX_FRAME_BYTES,
    ensures
        0 <= size_sum(s, a) <= size_sum(s, b),
    decreases b,
{
    if a < b {
        lemma_size_sum_grows(s, a, b - 1);
    } else if a > 0 {
        lemma_size_sum_grows(s, a - 1, a - 1);
    }
}

impl<'a> Packet<'a> {
    /// Cuts a packet into its frames.
    pub fn parse(data: &'a [u8]) -> (r: Result<Packet<'a>, PacketError>)
        ensures
            r is Ok <==> layout(data@) is Ok,
            r is Ok ==> r->Ok_0@ == (PacketView {
                toc: data@[0],
                frames: cut(data@, layout(data@)->Ok_0),
                padding: layout(data@)->Ok_0.padding,
            }),
            r is Err ==> r->Err_0 == layout(data@)->Err_0,
    {
        let l: FrameLayout = match lay_out(data) {
            Err(e) => {
                return Err(e);
            },
            Ok(l) => l,
        };
        let ghost lv = l@;
        let mut frames: Vec<&'a [u8]> = Vec::new();
        let mut at: usize = l.start;
        let mut i: usize = 0;
        let count: usize = l.sizes.len();
        proof {
            assert(lv.sizes.len() == count);
        }
        while i < count
            invariant
                lv == l@,
                fills(lv, data@.len() as int),
                count == l.sizes@.len(),
                lv.sizes.len() == count,
                i <= count,
                at == lv.start + size_sum(lv.sizes, i as int),
                frames@.len() == i,
                forall|k: int| 0 <= k < i ==> (#[trigger] frames@[k])@ == cut(data@, lv)[k],
            decreases count - i,
        {
            proof {
                lemma_size_sum_grows(lv.sizes, i + 1, count as int);
                lemma_size_sum_grows(lv.sizes, 0, i as int);
                assert(size_sum(lv.sizes, i + 1) == size_sum(lv.sizes, i as int) + lv.sizes[i as int]);
                assert(lv.sizes[i as int] == l.sizes@[i as int]);
            }
            let len: usize = data.len();
            let n: usize = l.sizes[i];
            frames.push(vstd::slice::slice_subrange(data, at, at + n));
            at = at + n;
            i = i + 1;
        }
        let p = Packet { toc: Toc::new(data[0]), frames, padding: l.padding };
        assert(p@.frames =~= cut(data@, lv));
        Ok(p)
    }

    /// The first byte.
    pub fn toc(&self) -> (r: Toc)
        ensures
            r@ == self@.toc,
    {
        self.toc
    }

    /// The number of frames.
    pub fn frame_count(&self) -> (r: usize)
        ensures
            r == self@.frames.len(),
    {
        self.frames.len()
    }

    /// A frame; an empty one stands for silence.
    pub fn frame(&self, i: usize) -> (r: &'a [u8])
        requires
            i < self@.frames.len(),
        ensures
            r@ == self@.frames[i as int],
    {
        self.frames[i]
    }

    /// The bytes of padding.
    pub fn padding(&self) -> (r: usize)
        ensures
            r == self@.padding,
    {
        self.padding
    }

    /// The place of a frame that is counted from the front, or from the back
    /// where `index` is negative; `None` where there is no such frame.
    pub fn frame_index(&self, index: i64) -> (r: Option<usize>)
        ensures
            ({
                let n = self@.frames.len() as int;
                let i = if index < 0 {
                    index + n
                } else {
                    index as int
                };
                r == if 0 <= i < n {
                    Some(i as usize)
                } else {
                    None
                }
            }),
    {
        let n: i128 = self.frames.len() as i128;
        let i: i128 = if index < 0 {
            index as i128 + n
        } else {
            index as i128
        };
        if i < 0 || i >= n {
            None
        } else {
            Some(i as usize)
        }
    }
}

/// The samples per channel at 48 kHz that a packet decodes to.
pub open spec fn packet_samples(data: Seq<u8>) -> Option<int> {
    if data.len() == 0 {
        None
    } else {
        let each = frame_size_of(data[0] as int / 8).samples();
        if data[0] % 4 == 0 {
            Some(each)
        } else if data[0] % 4 == 1 || data[0] % 4 == 2 {
            Some(2 * each)
        } else if data.len() < 2 {
            None
        } else {
            Some(each * (data[1] as int % 64))
        }
    }
}

/// The samples per channel at 48 kHz that a packet decodes to, from its first
/// bytes.
pub fn packet_samples_48k(packet: &[u8]) -> (r: Option<u64>)
    ensures
        r is Some <==> packet_samples(packet@) is Some,
        r is Some ==> r->0 == packet_samples(packet@)->0 && r->0 <= 181_440,
{
    if packet.len() == 0 {
        return None;
    }
    let toc: Toc = Toc::new(packet[0]);
    let each: u64 = toc.frame_size().samples_per_channel_48k() as u64;
    let code: u8 = toc.frame_count_code();
    if code == 0 {
        Some(each)
    } else if code == 1 || code == 2 {
        Some(2 * each)
    } else if packet.len() < 2 {
        None
    } else {
        let count: u64 = (packet[1] % 64) as u64;
        proof {
            math::lemma_mul_range(each as int, 2880, count as int, 63);
        }
        Some(each * count)
    }
}

proof fn lemma_coded_lengths(data: Seq<u8>, pos: int, end: int, k: int)
    requires
        0 <= pos <= end,
        0 <= k,
        coded_lengths(data, pos, end, k) is Some,
    ensures
        ({
            let (lens, next) = coded_lengths(data, pos, end, k)->0;
            &&& lens.len() == k
            &&& pos <= next <= end
            &&& forall|i: int| 0 <= i < k ==> 0 <= #[trigger] lens[i] <= MAX_FRAME_BYTES
        }),
    decreases k,
{
    if k > 0 {
        lemma_coded_lengths(data, pos, end, k - 1);
    }
}

proof fn lemma_frames_layout(data: Seq<u8>, pos: int, end: int, count: int, vbr: bool, padding: int)
    requires
        0 < pos <= end,
        0 <= padding,
        end + padding == data.len(),
        1 <= count,
        frames_layout(data, pos, end, count, vbr, padding) is Ok,
    ensures
        fills(frames_layout(data, pos, end, count, vbr, padding)->Ok_0, data.len() as int),
        frames_layout(data, pos, end, count, vbr, padding)->Ok_0.sizes.len() == count,
{
    let l = frames_layout(data, pos, end, count, vbr, padding)->Ok_0;
    if vbr {
        lemma_coded_lengths(data, pos, end, count - 1);
        let (lens, next) = coded_lengths(data, pos, end, count - 1)->0;
        let last = end - next - size_sum(lens, count - 1);
        lemma_size_sum_push(lens, last, count - 1);
        assert(size_sum(l.sizes, count) == size_sum(l.sizes, count - 1) + l.sizes[count - 1]);
        assert forall|i: int| 0 <= i < l.sizes.len() implies 0 <= #[trigger] l.sizes[i] <= MAX_FRAME_BYTES by {
            if i < count - 1 {
                assert(l.sizes[i] == lens[i]);
            }
        }
    } else {
        let each = (end - pos) / count;
        lemma_size_sum_even(count as nat, each, count);
        assert(l.sizes =~= Seq::new(count as nat, |i: int| each));
        vstd::arithmetic::div_mod::lemma_fundamental_div_mod(end - pos, count);
        vstd::arithmetic::div_mod::lemma_div_pos_is_pos(end - pos, count);
        assert(count * each == each * count) by (nonlinear_arith);
    }
}

/// A packet that can be cut has between one frame and 48, none of more than 1275
/// bytes and no more than 120 ms of them. They lie end to end up to the padding,
/// and last as long as the packet's first bytes say.
pub proof fn lemma_layout(data: Seq<u8>)
    requires
        layout(data) is Ok,
    ensures
        ({
            let l = layout(data)->Ok_0;
            let each = frame_size_of(data[0] as int / 8).samples();
            &&& fills(l, data.len() as int)
            &&& 1 <= l.sizes.len() <= 48
            &&& l.sizes.len() * each <= 5760
            &&& packet_samples(data) == Some(l.sizes.len() * each)
        }),
{
    let l = layout(data)->Ok_0;
    let each = frame_size_of(data[0] as int / 8).samples();
    reveal_with_fuel(size_sum, 3);
    if data[0] % 4 == 2 {
        lemma_frames_layout(data, 1, data.len() as int, 2, true, 0);
    } else if data[0] % 4 == 3 {
        let count = data[1] as int % 64;
        let vbr = data[1] as int / 128 == 1;
        if data[1] as int / 64 % 2 == 1 {
            lemma_padding(data, 2);
            let (n, pos) = coded_padding(data, 2)->0;
            lemma_frames_layout(data, pos, data.len() - n, count, vbr, n);
        } else {
            lemma_frames_layout(data, 2, data.len() as int, count, vbr, 0);
        }
        assert(count <= 48) by (nonlinear_arith)
            requires
                count * each <= 5760,
                each >= 120,
        ;
        assert(each * count == count * each) by (nonlinear_arith);
    }
}

/// A head that says that one frame follows, and the frame, make a packet that is cut
/// into that frame.
pub proof fn lemma_one_frame(toc: u8, frame: Seq<u8>)
    requires
        toc % 4 == 0,
        frame.len() <= MAX_FRAME_BYTES,
    ensures
        layout(seq![toc] + frame) is Ok,
        cut(seq![toc] + frame, layout(seq![toc] + frame)->Ok_0) == seq![frame],
{
    let data = seq![toc] + frame;
    let l = layout(data)->Ok_0;
    assert(size_sum(l.sizes, 0) == 0);
    assert(data.subrange(1, 1 + frame.len() as int) =~= frame);
    assert(cut(data, l) =~= seq![frame]);
}

} // verus!
