//! Pages, and the packets of a logical stream that they carry.

pub mod laws;

use std::collections::VecDeque;

use vstd::prelude::*;

use crate::ogg::bytes::{self, lemma_le, lemma_le_len, lemma_pow256, read_le};
use crate::ogg::crc::{self, crc_with_hole};

verus! {

/// What every page starts with.
pub const CAPTURE_PATTERN: [u8; 4] = [0x4F, 0x67, 0x67, 0x53];

/// The granule position of a page on which no packet ends.
pub const NO_GRANULE: u64 = 0xFFFF_FFFF_FFFF_FFFF;

/// Why there is no page at a place.
#[derive(Clone, Copy, Debug, PartialEq, Eq, Structural)]
pub enum OggError {
    /// The bytes end before the page does.
    Truncated,
    /// The bytes do not start like a page.
    BadCapture,
    /// The version is not known.
    BadVersion,
    /// The checksum is wrong.
    BadChecksum,
}

/// A page.
pub struct Page {
    /// The first packet goes on from the page before.
    pub continued: bool,
    /// The first page of its stream.
    pub bos: bool,
    /// The last page of its stream.
    pub eos: bool,
    /// The position at the end of the last packet that ends on the page.
    pub granule_position: u64,
    /// The stream.
    pub serial: u32,
    /// The number of the page in its stream.
    pub sequence: u32,
    /// The sizes of the segments; a packet ends with one below 255.
    pub lacing: Vec<u8>,
    /// The segments.
    pub body: Vec<u8>,
}

/// What a page is.
#[verifier::ext_equal]
pub struct PageView {
    pub continued: bool,
    pub bos: bool,
    pub eos: bool,
    pub granule: u64,
    pub serial: u32,
    pub sequence: u32,
    pub lacing: Seq<u8>,
    pub body: Seq<u8>,
}

impl View for Page {
    type V = PageView;

    open spec fn view(&self) -> PageView {
        PageView {
            continued: self.continued,
            bos: self.bos,
            eos: self.eos,
            granule: self.granule_position,
            serial: self.serial,
            sequence: self.sequence,
            lacing: self.lacing@,
            body: self.body@,
        }
    }
}

/// The sum of segment sizes.
pub open spec fn lacing_sum(s: Seq<u8>) -> int
    decreases s.len(),
{
    if s.len() == 0 {
        0
    } else {
        lacing_sum(s.drop_last()) + s.last()
    }
}

/// The capture pattern.
pub open spec fn capture() -> Seq<u8> {
    seq![0x4Fu8, 0x67u8, 0x67u8, 0x53u8]
}

impl PageView {
    /// The segments are as long as the page says, and not too many.
    pub open spec fn wf(self) -> bool {
        self.lacing.len() <= 255 && lacing_sum(self.lacing) == self.body.len()
    }

    /// The flags as a byte.
    pub open spec fn flags(self) -> u8 {
        ((if self.continued {
            1int
        } else {
            0
        }) + (if self.bos {
            2int
        } else {
            0
        }) + (if self.eos {
            4int
        } else {
            0
        })) as u8
    }

    /// The bytes of the page with the checksum `crc`.
    pub open spec fn bytes_with(self, crc: u32) -> Seq<u8> {
        capture() + seq![0u8, self.flags()] + bytes::le_bytes(self.granule as int, 8) + bytes::le_bytes(
            self.serial as int,
            4,
        ) + bytes::le_bytes(self.sequence as int, 4) + bytes::le_bytes(crc as int, 4) + seq![
            self.lacing.len() as u8,
        ] + self.lacing + self.body
    }

    /// The bytes of the page.
    pub open spec fn bytes(self) -> Seq<u8> {
        self.bytes_with(crc::crc_of(self.bytes_with(0)))
    }
}

/// The bytes of pages, one after the other.
pub open spec fn pages_bytes(pages: Seq<PageView>) -> Seq<u8>
    decreases pages.len(),
{
    if pages.len() == 0 {
        Seq::empty()
    } else {
        pages_bytes(pages.drop_last()) + pages.last().bytes()
    }
}

/// The page at the start of `d`, without its checksum.
pub open spec fn page_at(d: Seq<u8>) -> PageView {
    let n = d[26] as int;
    let lacing = d.subrange(27, 27 + n);
    PageView {
        continued: d[5] % 2 == 1,
        bos: d[5] / 2 % 2 == 1,
        eos: d[5] / 4 % 2 == 1,
        granule: bytes::le_value(d.subrange(6, 14)) as u64,
        serial: bytes::le_value(d.subrange(14, 18)) as u32,
        sequence: bytes::le_value(d.subrange(18, 22)) as u32,
        lacing,
        body: d.subrange(27 + n, 27 + n + lacing_sum(lacing)),
    }
}

/// The length of the page at the start of `d`.
pub open spec fn page_len(d: Seq<u8>) -> int {
    27 + d[26] + lacing_sum(d.subrange(27, 27 + d[26]))
}

/// What is wrong with the page at the start of `d`, if anything.
pub open spec fn page_fault(d: Seq<u8>) -> Option<OggError> {
    if d.len() < 4 {
        Some(OggError::Truncated)
    } else if d.take(4) != capture() {
        Some(OggError::BadCapture)
    } else if d.len() < 27 {
        Some(OggError::Truncated)
    } else if d[4] != 0 {
        Some(OggError::BadVersion)
    } else if d.len() < 27 + d[26] || d.len() < page_len(d) {
        Some(OggError::Truncated)
    } else if crc::crc_of(crc::with_hole(d.take(page_len(d)), 22)) != bytes::le_value(d.subrange(22, 26)) {
        Some(OggError::BadChecksum)
    } else {
        None
    }
}

/// Segments are below 256 bytes each.
pub proof fn lemma_lacing_sum(s: Seq<u8>)
    ensures
        0 <= lacing_sum(s) <= 255 * s.len(),
    decreases s.len(),
{
    if s.len() > 0 {
        lemma_lacing_sum(s.drop_last());
    }
}

fn sum_lacing(data: &[u8], from: usize, n: usize) -> (r: usize)
    requires
        from + n <= data@.len(),
        n <= 255,
    ensures
        r == lacing_sum(data@.subrange(from as int, from + n)),
        r <= 255 * n,
{
    let len: usize = data.len();
    let mut sum: usize = 0;
    let mut i: usize = 0;
    assert(data@.subrange(from as int, from + 0) =~= Seq::<u8>::empty());
    while i < n
        invariant
            i <= n <= 255,
            len == data@.len(),
            from + n <= len,
            sum == lacing_sum(data@.subrange(from as int, from + i)),
            sum <= 255 * i,
        decreases n - i,
    {
        assert(data@.subrange(from as int, from + i + 1).drop_last() =~= data@.subrange(from as int, from + i));
        sum = sum + data[from + i] as usize;
        i = i + 1;
    }
    sum
}

impl Page {
    /// Reads the page at the start of `data`: the page and its length.
    pub fn parse(data: &[u8]) -> (r: Result<(Page, usize), OggError>)
        ensures
            r is Ok <==> page_fault(data@) is None,
            r is Err ==> page_fault(data@) == Some(r->Err_0),
            r is Ok ==> (r->Ok_0).0@ == page_at(data@) && (r->Ok_0).1 == page_len(data@) && (r->Ok_0).1
                <= data@.len() && (r->Ok_0).1 >= 27 && (r->Ok_0).0@.wf(),
    {
        let len: usize = data.len();
        if len < 4 {
            return Err(OggError::Truncated);
        }
        if data[0] != 0x4F || data[1] != 0x67 || data[2] != 0x67 || data[3] != 0x53 {
            assert(data@.take(4)[0] != capture()[0] || data@.take(4)[1] != capture()[1] || data@.take(4)[2]
                != capture()[2] || data@.take(4)[3] != capture()[3]);
            return Err(OggError::BadCapture);
        }
        assert(data@.take(4) =~= capture());
        if len < 27 {
            return Err(OggError::Truncated);
        }
        if data[4] != 0 {
            return Err(OggError::BadVersion);
        }
        let n: usize = data[26] as usize;
        if len < 27 + n {
            return Err(OggError::Truncated);
        }
        let size: usize = sum_lacing(data, 27, n);
        let total: usize = 27 + n + size;
        if len < total {
            return Err(OggError::Truncated);
        }
        proof {
            lemma_pow256();
        }
        let stored: u64 = read_le(data, 22, 4);
        let whole: &[u8] = vstd::slice::slice_subrange(data, 0, total);
        assert(whole@ =~= data@.take(total as int));
        if crc_with_hole(whole, 22) as u64 != stored {
            return Err(OggError::BadChecksum);
        }
        let page = Page {
            continued: data[5] % 2 == 1,
            bos: data[5] / 2 % 2 == 1,
            eos: data[5] / 4 % 2 == 1,
            granule_position: read_le(data, 6, 8),
            serial: read_le(data, 14, 4) as u32,
            sequence: read_le(data, 18, 4) as u32,
            lacing: vstd::slice::slice_to_vec(vstd::slice::slice_subrange(data, 27, 27 + n)),
            body: vstd::slice::slice_to_vec(vstd::slice::slice_subrange(data, 27 + n, total)),
        };
        Ok((page, total))
    }
}

/// A page is read back from its bytes, whatever follows them.
#[verifier::rlimit(60)]
#[verifier::spinoff_prover]
pub proof fn lemma_page_round_trip(p: PageView, rest: Seq<u8>)
    requires
        p.wf(),
    ensures
        page_fault(p.bytes() + rest) is None,
        page_at(p.bytes() + rest) == p,
        page_len(p.bytes() + rest) == p.bytes().len(),
{
    let c = crc::crc_of(p.bytes_with(0));
    let d = p.bytes() + rest;
    let n = p.lacing.len() as int;
    lemma_layout(p, c);
    lemma_layout(p, 0);
    lemma_pow256();
    let b = p.bytes();
    assert(b == p.bytes_with(c));
    assert(b.len() == 27 + n + p.body.len());
    assert(d.take(4) =~= b.take(4));
    assert(d[26] == n);
    assert(d.subrange(27, 27 + n) =~= b.subrange(27, 27 + n));
    assert(d.subrange(27, 27 + n) == p.lacing);
    assert(page_len(d) == b.len());
    assert(d.take(b.len() as int) =~= b);
    lemma_le(c as int, 4);
    assert(d.subrange(22, 26) =~= b.subrange(22, 26));
    assert(crc::with_hole(b, 22) =~= p.bytes_with(0)) by {
        let z = p.bytes_with(0);
        assert forall|i: int| 0 <= i < b.len() implies crc::with_hole(b, 22)[i] == z[i] by {
            if 22 <= i < 26 {
                assert(z.subrange(22, 26)[i - 22] == z[i]);
                lemma_zero(i - 22);
            } else if i < 22 {
                assert(b.take(22)[i] == z.take(22)[i]);
            } else {
                assert(b.skip(26)[i - 26] == z.skip(26)[i - 26]);
            }
        }
    }
    lemma_le(p.granule as int, 8);
    lemma_le(p.serial as int, 4);
    lemma_le(p.sequence as int, 4);
    assert(d.subrange(6, 14) =~= b.subrange(6, 14));
    assert(d.subrange(14, 18) =~= b.subrange(14, 18));
    assert(d.subrange(18, 22) =~= b.subrange(18, 22));
    assert(d.subrange(27 + n, 27 + n + lacing_sum(p.lacing)) =~= p.body) by {
        assert(d.subrange(27 + n, 27 + n + p.body.len()) =~= b.subrange(27 + n, 27 + n + p.body.len()));
    }
    assert(page_at(d) =~= p);
}

/// A page is at least as long as its header.
pub proof fn lemma_page_size(p: PageView)
    requires
        p.wf(),
    ensures
        p.bytes().len() >= 27,
{
    lemma_layout(p, crc::crc_of(p.bytes_with(0)));
}

proof fn lemma_zero(i: int)
    requires
        0 <= i < 4,
    ensures
        bytes::le_bytes(0, 4)[i] == 0,
{
    reveal_with_fuel(bytes::le_bytes, 5);
    assert(bytes::le_bytes(0, 1) =~= seq![0u8]);
    assert(bytes::le_bytes(0, 2) =~= seq![0u8, 0u8]);
    assert(bytes::le_bytes(0, 3) =~= seq![0u8, 0u8, 0u8]);
    assert(bytes::le_bytes(0, 4) =~= seq![0u8, 0u8, 0u8, 0u8]);
}

/// Where the fields of a page lie.
proof fn lemma_layout(p: PageView, c: u32)
    requires
        p.wf(),
    ensures
        ({
            let b = p.bytes_with(c);
            let n = p.lacing.len() as int;
            &&& b.len() == 27 + n + p.body.len()
            &&& b.take(4) == capture()
            &&& b[4] == 0
            &&& b[5] == p.flags()
            &&& b.subrange(6, 14) == bytes::le_bytes(p.granule as int, 8)
            &&& b.subrange(14, 18) == bytes::le_bytes(p.serial as int, 4)
            &&& b.subrange(18, 22) == bytes::le_bytes(p.sequence as int, 4)
            &&& b.subrange(22, 26) == bytes::le_bytes(c as int, 4)
            &&& b[26] == n
            &&& b.subrange(27, 27 + n) == p.lacing
            &&& b.subrange(27 + n, 27 + n + p.body.len()) == p.body
            &&& b.take(22) == p.head()
            &&& b.skip(26) == p.tail()
        }),
{
    lemma_le_len(p.granule as int, 8);
    lemma_le_len(p.serial as int, 4);
    lemma_le_len(p.sequence as int, 4);
    lemma_le_len(c as int, 4);
    let b = p.bytes_with(c);
    let n = p.lacing.len() as int;
    assert(b.take(4) =~= capture());
    assert(b.subrange(6, 14) =~= bytes::le_bytes(p.granule as int, 8));
    assert(b.subrange(14, 18) =~= bytes::le_bytes(p.serial as int, 4));
    assert(b.subrange(18, 22) =~= bytes::le_bytes(p.sequence as int, 4));
    assert(b.subrange(22, 26) =~= bytes::le_bytes(c as int, 4));
    assert(b.subrange(27, 27 + n) =~= p.lacing);
    assert(b.subrange(27 + n, 27 + n + p.body.len()) =~= p.body);
    assert(b.take(22) =~= p.head());
    assert(b.skip(26) =~= p.tail());
}

impl PageView {
    /// The bytes before the checksum.
    spec fn head(self) -> Seq<u8> {
        capture() + seq![0u8, self.flags()] + bytes::le_bytes(self.granule as int, 8) + bytes::le_bytes(
            self.serial as int,
            4,
        ) + bytes::le_bytes(self.sequence as int, 4)
    }

    /// The bytes behind the checksum.
    spec fn tail(self) -> Seq<u8> {
        seq![self.lacing.len() as u8] + self.lacing + self.body
    }
}

/// A page and the place behind it.
#[verifier::ext_equal]
pub struct FoundPage {
    pub page: PageView,
    pub next: int,
}

/// The first page at or behind `pos`; what is not a page is passed over.
pub open spec fn find_page(data: Seq<u8>, pos: int) -> Option<FoundPage>
    decreases data.len() - pos,
{
    if pos < 0 || pos >= data.len() {
        None
    } else if page_fault(data.skip(pos)) is None {
        Some(FoundPage { page: page_at(data.skip(pos)), next: pos + page_len(data.skip(pos)) })
    } else {
        find_page(data, pos + 1)
    }
}

/// The pages from `pos` on.
pub open spec fn pages_from(data: Seq<u8>, pos: int) -> Seq<PageView>
    decreases data.len() - pos,
{
    match find_page(data, pos) {
        None => Seq::empty(),
        Some(f) => if pos < f.next <= data.len() {
            seq![f.page] + pages_from(data, f.next)
        } else {
            Seq::empty()
        },
    }
}

/// Reads the pages of a physical stream.
pub struct PageReader<'a> {
    data: &'a [u8],
    pos: usize,
}

impl<'a> View for PageReader<'a> {
    type V = Seq<PageView>;

    closed spec fn view(&self) -> Seq<PageView> {
        pages_from(self.data@, self.pos as int)
    }
}

impl<'a> PageReader<'a> {
    /// Whether the reader stands in its data.
    pub closed spec fn wf(&self) -> bool {
        self.pos <= self.data@.len()
    }

    /// The bytes that are left to the reader.
    pub closed spec fn left(&self) -> nat {
        (self.data@.len() - self.pos) as nat
    }

    /// A reader of the pages in `data`.
    pub fn new(data: &'a [u8]) -> (r: PageReader<'a>)
        ensures
            r.wf(),
            r@ == pages_from(data@, 0),
    {
        PageReader { data, pos: 0 }
    }

    /// The next page, if there is one.
    pub fn next(&mut self) -> (r: Option<Page>)
        requires
            old(self).wf(),
        ensures
            final(self).wf(),
            r is Some <==> old(self)@.len() > 0,
            r is Some ==> r->0@ == old(self)@[0] && final(self)@ == old(self)@.drop_first() && final(self).left()
                < old(self).left() && r->0@.wf(),
            r is None ==> final(self)@ == old(self)@,
    {
        let ghost data = self.data@;
        let ghost from = self.pos as int;
        let mut pos: usize = self.pos;
        let len: usize = self.data.len();
        while pos < len
            invariant
                len == self.data@.len(),
                data == self.data@,
                data == old(self).data@,
                self.pos == from,
                old(self).pos == from,
                from <= pos <= len,
                find_page(data, from) == find_page(data, pos as int),
            decreases len - pos,
        {
            let rest: &[u8] = vstd::slice::slice_subrange(self.data, pos, len);
            assert(rest@ =~= data.skip(pos as int));
            match Page::parse(rest) {
                Ok((page, n)) => {
                    self.pos = pos + n;
                    assert(self.data@ == data);
                    assert(pages_from(data, from) =~= seq![page@] + pages_from(data, pos + n));
                    assert((seq![page@] + pages_from(data, pos + n)).drop_first() =~= pages_from(data, pos + n));
                    return Some(page);
                },
                Err(_) => {},
            }
            pos = pos + 1;
        }
        None
    }
}

/// A packet of a logical stream.
pub struct OggPacket {
    pub data: Vec<u8>,
    /// The position at its end, where it is the last that ends on its page.
    pub granule_position: u64,
    /// It ends on the last page of its stream.
    pub eos: bool,
}

/// What a packet is.
#[verifier::ext_equal]
pub struct PacketView {
    pub data: Seq<u8>,
    pub granule: u64,
    pub eos: bool,
}

impl View for OggPacket {
    type V = PacketView;

    open spec fn view(&self) -> PacketView {
        PacketView { data: self.data@, granule: self.granule_position, eos: self.eos }
    }
}

/// What stands open between two segments.
#[verifier::ext_equal]
pub enum Pending {
    /// Nothing.
    Idle,
    /// A packet, with what there is of it.
    Open(Seq<u8>),
    /// A packet whose start is missing.
    Skip,
}

/// Where the walk through the segments of a page stands: the packets that ended,
/// what stands open, and the place in the body.
#[verifier::ext_equal]
pub struct Walk {
    pub done: Seq<Seq<u8>>,
    pub pending: Pending,
    pub off: int,
}

/// The walk after one more segment of `n` bytes.
pub open spec fn walk_step(w: Walk, body: Seq<u8>, n: int) -> Walk {
    let seg = body.subrange(w.off, w.off + n);
    let cur = match w.pending {
        Pending::Open(c) => c + seg,
        _ => seg,
    };
    if w.pending is Skip {
        Walk {
            pending: if n < 255 {
                Pending::Idle
            } else {
                Pending::Skip
            },
            off: w.off + n,
            ..w
        }
    } else if n < 255 {
        Walk { done: w.done.push(cur), pending: Pending::Idle, off: w.off + n }
    } else {
        Walk { pending: Pending::Open(cur), off: w.off + n, ..w }
    }
}

/// The walk through the first `k` segments.
pub open spec fn walk(lacing: Seq<u8>, body: Seq<u8>, start: Pending, k: int) -> Walk
    decreases k,
{
    if k <= 0 {
        Walk { done: Seq::empty(), pending: start, off: 0 }
    } else {
        walk_step(walk(lacing, body, start, k - 1), body, lacing[k - 1] as int)
    }
}

/// What stands open where a page begins.
pub open spec fn entry(continued: bool, pending: Pending) -> Pending {
    if !continued {
        Pending::Idle
    } else if pending is Idle {
        Pending::Skip
    } else {
        pending
    }
}

impl PageView {
    /// The walk through all of the page.
    pub open spec fn walked(self, pending: Pending) -> Walk {
        walk(self.lacing, self.body, entry(self.continued, pending), self.lacing.len() as int)
    }

    /// The packets that end on the page. Only the last has the page's position.
    pub open spec fn packets(self, pending: Pending) -> Seq<PacketView> {
        let done = self.walked(pending).done;
        Seq::new(
            done.len(),
            |i: int|
                PacketView {
                    data: done[i],
                    granule: if i == done.len() - 1 {
                        self.granule
                    } else {
                        NO_GRANULE
                    },
                    eos: self.eos,
                },
        )
    }
}

/// The packets of stream `serial` on pages.
pub open spec fn packets_from(pages: Seq<PageView>, serial: u32, pending: Pending) -> Seq<PacketView>
    decreases pages.len(),
{
    if pages.len() == 0 {
        Seq::empty()
    } else if pages[0].serial != serial {
        packets_from(pages.drop_first(), serial, pending)
    } else {
        pages[0].packets(pending) + packets_from(pages.drop_first(), serial, pages[0].walked(pending).pending)
    }
}

/// What stands open.
#[derive(Clone, Copy, Debug, PartialEq, Eq, Structural)]
pub enum Open {
    Idle,
    Open,
    Skip,
}

/// What stands open, without what there is of it.
pub open spec fn kind_of(p: Pending) -> Open {
    match p {
        Pending::Idle => Open::Idle,
        Pending::Open(_) => Open::Open,
        Pending::Skip => Open::Skip,
    }
}

impl Page {
    /// The number of packets that end on the page where `state` stands open before it,
    /// and what stands open behind it.
    pub fn ended(&self, state: Open) -> (r: (usize, Open))
        ensures
            forall|p: Pending|
                kind_of(p) == state ==> (#[trigger] self@.walked(p)).done.len() == r.0 && kind_of(
                    self@.walked(p).pending,
                ) == r.1,
            r.0 <= self.lacing@.len(),
    {
        let first: Open = if !self.continued {
            Open::Idle
        } else if state == Open::Idle {
            Open::Skip
        } else {
            state
        };
        let ghost v = self@;
        let mut now: Open = first;
        let mut count: usize = 0;
        let mut k: usize = 0;
        while k < self.lacing.len()
            invariant
                v == self@,
                k <= self.lacing@.len(),
                count <= k,
                forall|p: Pending|
                    kind_of(p) == first ==> (#[trigger] walk(v.lacing, v.body, p, k as int)).done.len() == count
                        && kind_of(walk(v.lacing, v.body, p, k as int).pending) == now,
            decreases self.lacing@.len() - k,
        {
            let n: u8 = self.lacing[k];
            let ghost before = now;
            let ghost had = count;
            if now != Open::Skip && n < 255 {
                count = count + 1;
            }
            if n < 255 {
                now = Open::Idle;
            } else if now != Open::Skip {
                now = Open::Open;
            }
            proof {
                assert forall|p: Pending| kind_of(p) == first implies (#[trigger] walk(
                    v.lacing,
                    v.body,
                    p,
                    k + 1,
                )).done.len() == count && kind_of(walk(v.lacing, v.body, p, k + 1).pending) == now by {
                    let w = walk(v.lacing, v.body, p, k as int);
                    assert(w.done.len() == had && kind_of(w.pending) == before);
                    assert(walk(v.lacing, v.body, p, k + 1) == walk_step(w, v.body, v.lacing[k as int] as int));
                }
            }
            k = k + 1;
        }
        proof {
            assert forall|p: Pending| kind_of(p) == state implies (#[trigger] v.walked(p)).done.len() == count
                && kind_of(v.walked(p).pending) == now by {
                assert(kind_of(entry(v.continued, p)) == first);
            }
        }
        (count, now)
    }
}

/// Puts the packets of one logical stream together.
pub struct PacketReader<'a> {
    pages: PageReader<'a>,
    serial: u32,
    partial: Vec<u8>,
    state: Open,
    queue: VecDeque<OggPacket>,
}

spec fn pending_of(state: Open, partial: Seq<u8>) -> Pending {
    match state {
        Open::Idle => Pending::Idle,
        Open::Open => Pending::Open(partial),
        Open::Skip => Pending::Skip,
    }
}

spec fn queue_view(q: Seq<OggPacket>) -> Seq<PacketView> {
    Seq::new(q.len(), |i: int| q[i]@)
}

impl<'a> View for PacketReader<'a> {
    type V = Seq<PacketView>;

    closed spec fn view(&self) -> Seq<PacketView> {
        queue_view(self.queue@) + packets_from(self.pages@, self.serial, pending_of(self.state, self.partial@))
    }
}

/// The place in the body is the sum of the sizes before it.
pub proof fn lemma_walk_off(lacing: Seq<u8>, body: Seq<u8>, start: Pending, k: int)
    requires
        0 <= k <= lacing.len(),
    ensures
        walk(lacing, body, start, k).off == lacing_sum(lacing.take(k)),
        0 <= walk(lacing, body, start, k).off <= lacing_sum(lacing),
    decreases k,
{
    lemma_lacing_take(lacing, k);
    if k > 0 {
        lemma_walk_off(lacing, body, start, k - 1);
        assert(lacing.take(k).drop_last() =~= lacing.take(k - 1));
    }
}

proof fn lemma_lacing_take(s: Seq<u8>, k: int)
    requires
        0 <= k <= s.len(),
    ensures
        0 <= lacing_sum(s.take(k)) <= lacing_sum(s),
    decreases s.len(),
{
    lemma_lacing_sum(s.take(k));
    if k == s.len() {
        assert(s.take(k) =~= s);
    } else {
        lemma_lacing_take(s.drop_last(), k);
        assert(s.drop_last().take(k) =~= s.take(k));
    }
}

impl<'a> PacketReader<'a> {
    /// Whether the reader stands in its data.
    pub closed spec fn wf(&self) -> bool {
        self.pages.wf()
    }

    /// The packets, or bytes, that are left to the reader.
    pub closed spec fn left(&self) -> nat {
        self.pages.left()
    }

    /// A reader of the packets of stream `serial` in `data`.
    pub fn new(data: &'a [u8], serial: u32) -> (r: PacketReader<'a>)
        ensures
            r.wf(),
            r@ == packets_from(pages_from(data@, 0), serial, Pending::Idle),
    {
        let r = PacketReader {
            pages: PageReader::new(data),
            serial,
            partial: Vec::new(),
            state: Open::Idle,
            queue: VecDeque::new(),
        };
        assert(r@ =~= packets_from(pages_from(data@, 0), serial, Pending::Idle));
        r
    }

    /// Takes a page of the stream apart.
    fn unpack(&mut self, page: Page)
        requires
            old(self).wf(),
            page@.wf(),
        ensures
            final(self).wf(),
            final(self).pages == old(self).pages,
            final(self).serial == old(self).serial,
            ({
                let before = pending_of(old(self).state, old(self).partial@);
                &&& queue_view(final(self).queue@) == queue_view(old(self).queue@) + page@.packets(before)
                &&& pending_of(final(self).state, final(self).partial@) == page@.walked(before).pending
            }),
    {
        let ghost before = pending_of(self.state, self.partial@);
        let ghost start = entry(page.continued, before);
        let ghost p = page@;
        let ghost old_queue = queue_view(self.queue@);
        if !page.continued {
            self.state = Open::Idle;
        } else if self.state == Open::Idle {
            self.state = Open::Skip;
        }
        if self.state != Open::Open {
            self.partial.clear();
        }
        let mut done: Vec<Vec<u8>> = Vec::new();
        let mut k: usize = 0;
        let mut off: usize = 0;
        let segments: usize = page.lacing.len();
        let total: usize = page.body.len();
        assert(done@.map_values(|v: Vec<u8>| v@) =~= Seq::<Seq<u8>>::empty());
        while k < segments
            invariant
                p == page@,
                p.wf(),
                segments == page.lacing@.len(),
                total == page.body@.len(),
                k <= segments,
                self.pages == old(self).pages,
                self.serial == old(self).serial,
                self.queue == old(self).queue,
                off as int == walk(p.lacing, p.body, start, k as int).off,
                done@.map_values(|v: Vec<u8>| v@) == walk(p.lacing, p.body, start, k as int).done,
                pending_of(self.state, self.partial@) == walk(p.lacing, p.body, start, k as int).pending,
                self.state != Open::Open ==> self.partial@.len() == 0,
            decreases segments - k,
        {
            let ghost w = walk(p.lacing, p.body, start, k as int);
            let n: usize = page.lacing[k] as usize;
            proof {
                lemma_walk_off(p.lacing, p.body, start, k + 1);
                lemma_walk_off(p.lacing, p.body, start, k as int);
                assert(walk(p.lacing, p.body, start, k + 1) == walk_step(w, p.body, n as int));
            }
            if self.state == Open::Skip {
                if n < 255 {
                    self.state = Open::Idle;
                }
            } else {
                let ghost had = self.partial@;
                let seg: &[u8] = vstd::slice::slice_subrange(page.body.as_slice(), off, off + n);
                self.partial.extend_from_slice(seg);
                assert(self.partial@ =~= had + p.body.subrange(w.off, w.off + n));
                assert(w.pending is Idle ==> self.partial@ =~= p.body.subrange(w.off, w.off + n));
                if n < 255 {
                    let mut packet: Vec<u8> = Vec::new();
                    let ghost whole = self.partial@;
                    let ghost list = done@;
                    packet.append(&mut self.partial);
                    assert(packet@ =~= whole);
                    done.push(packet);
                    assert(done@.map_values(|v: Vec<u8>| v@) =~= list.map_values(|v: Vec<u8>| v@).push(whole));
                    self.state = Open::Idle;
                } else {
                    self.state = Open::Open;
                }
            }
            off = off + n;
            k = k + 1;
        }
        let ghost list = done@;
        let ghost target = page@.packets(before);
        let count: usize = done.len();
        let mut waiting: VecDeque<OggPacket> = VecDeque::new();
        assert(queue_view(waiting@) =~= target.skip(target.len() as int));
        let mut i: usize = count;
        while i > 0
            invariant
                i <= count,
                count == list.len(),
                done@ == list.take(i as int),
                self.pages == old(self).pages,
                self.serial == old(self).serial,
                self.queue == old(self).queue,
                page@ == p,
                target == p.packets(before),
                list.map_values(|v: Vec<u8>| v@) == p.walked(before).done,
                queue_view(waiting@) == target.skip(i as int),
                pending_of(self.state, self.partial@) == p.walked(before).pending,
            decreases i,
        {
            if let Some(data) = done.pop() {
                let packet = OggPacket {
                    data,
                    granule_position: if i == count {
                        page.granule_position
                    } else {
                        NO_GRANULE
                    },
                    eos: page.eos,
                };
                proof {
                    assert(list.take(i as int)[i - 1] == list[i - 1]);
                    assert(list.map_values(|v: Vec<u8>| v@)[i - 1] == list[i - 1]@);
                    assert(packet@ == target[i - 1]);
                }
                let ghost had = waiting@;
                waiting.push_front(packet);
                assert(queue_view(waiting@) =~= seq![target[i - 1]] + queue_view(had));
                assert(target.skip(i - 1) =~= seq![target[i - 1]] + target.skip(i as int));
                assert(done@ =~= list.take(i - 1));
            }
            i = i - 1;
        }
        assert(target.skip(0) =~= target);
        let ghost had = self.queue@;
        let ghost more = waiting@;
        self.queue.append(&mut waiting);
        assert(queue_view(self.queue@) =~= queue_view(had) + queue_view(more));
    }

    /// The next packet, if there is one.
    pub fn next(&mut self) -> (r: Option<OggPacket>)
        requires
            old(self).wf(),
        ensures
            final(self).wf(),
            r is Some <==> old(self)@.len() > 0,
            r is Some ==> r->0@ == old(self)@[0] && final(self)@ == old(self)@.drop_first(),
            r is None ==> final(self)@ == old(self)@,
    {
        let ghost whole = self@;
        loop
            invariant
                self.wf(),
                self@ == whole,
                whole == old(self)@,
            decreases self.left(), self.queue@.len(),
        {
            let ghost q = queue_view(self.queue@);
            let ghost rest = packets_from(self.pages@, self.serial, pending_of(self.state, self.partial@));
            if let Some(p) = self.queue.pop_front() {
                assert(queue_view(self.queue@) =~= q.drop_first());
                assert(self@ =~= whole.drop_first());
                return Some(p);
            }
            assert(q =~= Seq::<PacketView>::empty());
            assert(whole =~= rest);
            let ghost pages = self.pages@;
            match self.pages.next() {
                None => {
                    assert(rest =~= Seq::<PacketView>::empty());
                    assert(self@ =~= whole);
                    return None;
                },
                Some(page) => {
                    if page.serial == self.serial {
                        let ghost before = pending_of(self.state, self.partial@);
                        self.unpack(page);
                        assert(self@ =~= pages[0].packets(before) + packets_from(
                            pages.drop_first(),
                            self.serial,
                            pages[0].walked(before).pending,
                        ));
                    } else {
                        assert(self@ =~= packets_from(
                            pages.drop_first(),
                            self.serial,
                            pending_of(self.state, self.partial@),
                        ));
                    }
                    assert(self@ =~= whole);
                },
            }
        }
    }
}

} // verus!
