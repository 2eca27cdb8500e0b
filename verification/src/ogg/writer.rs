//! Laying packets out on pages.

use vstd::prelude::*;

use crate::ogg::bytes::push_le;
use crate::ogg::crc::crc_with_hole;
use crate::ogg::page::{self, lemma_page_round_trip, PacketView, PageView, Pending, Walk, NO_GRANULE};

verus! {

/// Lays the packets of one logical stream out on pages.
pub struct PageWriter {
    serial: u32,
    sequence: u32,
    started: bool,
    continued: bool,
    granule: u64,
    lacing: Vec<u8>,
    body: Vec<u8>,
}

/// What a page writer is: the page that it is filling.
#[verifier::ext_equal]
pub struct WriterView {
    pub serial: u32,
    pub sequence: u32,
    pub started: bool,
    pub continued: bool,
    pub granule: u64,
    pub lacing: Seq<u8>,
    pub body: Seq<u8>,
}

impl View for PageWriter {
    type V = WriterView;

    closed spec fn view(&self) -> WriterView {
        WriterView {
            serial: self.serial,
            sequence: self.sequence,
            started: self.started,
            continued: self.continued,
            granule: self.granule,
            lacing: self.lacing@,
            body: self.body@,
        }
    }
}

/// A writer and the pages that came of it.
#[verifier::ext_equal]
pub struct Written {
    pub writer: WriterView,
    pub pages: Seq<PageView>,
}

impl WriterView {
    /// The segments are not too many and as long as they say.
    pub open spec fn wf(self) -> bool {
        self.lacing.len() <= 255 && page::lacing_sum(self.lacing) == self.body.len()
    }

    /// A writer that has written nothing yet.
    pub open spec fn start(serial: u32) -> WriterView {
        WriterView {
            serial,
            sequence: 0,
            started: false,
            continued: false,
            granule: NO_GRANULE,
            lacing: Seq::empty(),
            body: Seq::empty(),
        }
    }

    /// The page as it stands.
    pub open spec fn page(self, eos: bool) -> PageView {
        PageView {
            continued: self.continued,
            bos: !self.started,
            eos,
            granule: self.granule,
            serial: self.serial,
            sequence: self.sequence,
            lacing: self.lacing,
            body: self.body,
        }
    }

    /// The writer after it gave its page out, in the middle of a packet or not.
    pub open spec fn emptied(self, mid: bool) -> WriterView {
        WriterView {
            serial: self.serial,
            sequence: self.sequence.wrapping_add(1),
            started: true,
            continued: mid,
            granule: NO_GRANULE,
            lacing: Seq::empty(),
            body: Seq::empty(),
        }
    }
}

/// The size of segment `k` of a packet: 255 but for the last, which is smaller.
pub open spec fn segment_size(packet: Seq<u8>, k: int) -> int {
    if k < packet.len() as int / 255 {
        255
    } else {
        packet.len() as int % 255
    }
}

impl Written {
    /// After one more segment; a full page is given out first.
    pub open spec fn with_segment(self, packet: Seq<u8>, k: int) -> Written {
        let full = self.writer.lacing.len() >= 255;
        let w = if full {
            self.writer.emptied(k > 0)
        } else {
            self.writer
        };
        let size = segment_size(packet, k);
        Written {
            writer: WriterView {
                lacing: w.lacing.push(size as u8),
                body: w.body + packet.subrange(255 * k, 255 * k + size),
                ..w
            },
            pages: if full {
                self.pages.push(self.writer.page(false))
            } else {
                self.pages
            },
        }
    }

    /// After the first `k` segments of a packet.
    pub open spec fn with_segments(self, packet: Seq<u8>, k: int) -> Written
        decreases k,
    {
        if k <= 0 {
            self
        } else {
            self.with_segments(packet, k - 1).with_segment(packet, k - 1)
        }
    }

    /// After a packet that ends at position `granule`; the last one closes the
    /// stream.
    pub open spec fn with_packet(self, packet: Seq<u8>, granule: u64, last: bool) -> Written {
        let w = self.with_segments(packet, packet.len() as int / 255 + 1);
        let done = WriterView { granule, ..w.writer };
        if last {
            Written { writer: done.emptied(false), pages: w.pages.push(done.page(true)) }
        } else {
            Written { writer: done, pages: w.pages }
        }
    }

    /// After what is left was given out.
    pub open spec fn flushed(self) -> Written {
        if self.writer.lacing.len() == 0 {
            self
        } else {
            Written { writer: self.writer.emptied(false), pages: self.pages.push(self.writer.page(false)) }
        }
    }

    /// After what is left was given out and an empty page at position `granule` closed
    /// the stream.
    pub open spec fn closed(self, granule: u64) -> Written {
        let w = self.flushed();
        let empty = WriterView { granule, ..w.writer };
        Written { writer: empty.emptied(false), pages: w.pages.push(empty.page(true)) }
    }

    /// No page given out is the last of its stream.
    pub open spec fn goes_on(self) -> bool {
        forall|i: int| 0 <= i < self.pages.len() ==> !(#[trigger] self.pages[i]).eos
    }
}

/// Only the packet that closes a stream makes a page the last.
pub proof fn lemma_goes_on(w: Written, packet: Seq<u8>, granule: u64)
    requires
        w.goes_on(),
    ensures
        w.flushed().goes_on(),
        w.with_packet(packet, granule, false).goes_on(),
        ({
            let end = w.with_packet(packet, granule, true);
            &&& end.pages.len() > 0
            &&& end.pages.last().eos
            &&& (Written { writer: end.writer, pages: end.pages.drop_last() }).goes_on()
        }),
{
    let k = packet.len() as int / 255 + 1;
    lemma_segments_go_on(w, packet, k);
    let v = w.with_segments(packet, k);
    assert(w.with_packet(packet, granule, true).pages.drop_last() =~= v.pages);
}

proof fn lemma_segments_go_on(w: Written, packet: Seq<u8>, k: int)
    requires
        w.goes_on(),
    ensures
        w.with_segments(packet, k).goes_on(),
    decreases k,
{
    if k > 0 {
        lemma_segments_go_on(w, packet, k - 1);
    }
}

impl PageWriter {
    /// Whether the page that is being filled is well formed.
    pub closed spec fn wf(&self) -> bool {
        self@.wf()
    }

    /// A writer of stream `serial`.
    pub fn new(serial: u32) -> (r: PageWriter)
        ensures
            r.wf(),
            r@ == WriterView::start(serial),
    {
        let r = PageWriter {
            serial,
            sequence: 0,
            started: false,
            continued: false,
            granule: NO_GRANULE,
            lacing: Vec::new(),
            body: Vec::new(),
        };
        assert(r@ =~= WriterView::start(serial));
        r
    }

    /// Gives the page out.
    fn emit(&mut self, out: &mut Vec<u8>, eos: bool, mid: bool)
        requires
            old(self).wf(),
        ensures
            final(self).wf(),
            final(self)@ == old(self)@.emptied(mid),
            final(out)@ == old(out)@ + old(self)@.page(eos).bytes(),
    {
        let ghost p = self@.page(eos);
        let ghost before = out@;
        let mut b: Vec<u8> = Vec::new();
        b.push(0x4F);
        b.push(0x67);
        b.push(0x67);
        b.push(0x53);
        b.push(0);
        let flags: u8 = (if self.continued {
            1
        } else {
            0
        }) + (if self.started {
            0
        } else {
            2
        }) + (if eos {
            4
        } else {
            0
        });
        b.push(flags);
        assert(b@ =~= page::capture() + seq![0u8, p.flags()]);
        push_le(&mut b, self.granule, 8);
        push_le(&mut b, self.serial as u64, 4);
        push_le(&mut b, self.sequence as u64, 4);
        let ghost head = b@;
        let mut c: Vec<u8> = Vec::new();
        c.push(self.lacing.len() as u8);
        c.extend_from_slice(self.lacing.as_slice());
        c.extend_from_slice(self.body.as_slice());
        let ghost tail = c@;
        assert(tail =~= seq![p.lacing.len() as u8] + p.lacing + p.body);
        let mut plain: Vec<u8> = Vec::new();
        plain.extend_from_slice(b.as_slice());
        push_le(&mut plain, 0, 4);
        plain.extend_from_slice(c.as_slice());
        assert(plain@ =~= p.bytes_with(0));
        // Nothing is left out of the checksum: the hole lies behind the bytes.
        let crc: u32 = crc_with_hole(plain.as_slice(), plain.len());
        assert(crate::ogg::crc::with_hole(plain@, plain@.len() as int) =~= plain@);
        push_le(&mut b, crc as u64, 4);
        b.extend_from_slice(c.as_slice());
        assert(b@ =~= p.bytes());
        out.extend_from_slice(b.as_slice());
        assert(out@ =~= before + p.bytes());
        self.sequence = self.sequence.wrapping_add(1);
        self.started = true;
        self.continued = mid;
        self.granule = NO_GRANULE;
        self.lacing = Vec::new();
        self.body = Vec::new();
        assert(self@ =~= old(self)@.emptied(mid));
    }

    /// Lays a packet out that ends at position `granule_position`; pages that are
    /// full go to `out`. The last packet closes the stream.
    pub fn push(&mut self, out: &mut Vec<u8>, packet: &[u8], granule_position: u64, last: bool)
        requires
            old(self).wf(),
        ensures
            final(self).wf(),
            ({
                let w = (Written { writer: old(self)@, pages: Seq::empty() }).with_packet(
                    packet@,
                    granule_position,
                    last,
                );
                &&& final(self)@ == w.writer
                &&& final(out)@ == old(out)@ + page::pages_bytes(w.pages)
            }),
    {
        let ghost first = Written { writer: self@, pages: Seq::empty() };
        let ghost before = out@;
        let ghost data = packet@;
        let len: usize = packet.len();
        let whole: usize = len / 255;
        let mut k: usize = 0;
        let ghost mut pages: Seq<PageView> = Seq::empty();
        assert(out@ =~= before + page::pages_bytes(pages));
        while k <= whole
            invariant
                self.wf(),
                data == packet@,
                len == packet@.len(),
                whole == len / 255,
                k <= whole + 1,
                (Written { writer: self@, pages }) == first.with_segments(data, k as int),
                out@ == before + page::pages_bytes(pages),
            decreases whole + 1 - k,
        {
            let ghost w = Written { writer: self@, pages };
            let size: usize = if k < whole {
                255
            } else {
                len % 255
            };
            assert(255 * k + size <= len);
            if self.lacing.len() == 255 {
                let ghost p = self@.page(false);
                self.emit(out, false, k > 0);
                proof {
                    assert(pages.push(p).drop_last() =~= pages);
                    assert(out@ =~= before + page::pages_bytes(pages.push(p)));
                    pages = pages.push(p);
                }
            }
            let ghost had = self@;
            self.lacing.push(size as u8);
            self.body.extend_from_slice(vstd::slice::slice_subrange(packet, 255 * k, 255 * k + size));
            assert(self.body@ =~= had.body + data.subrange(255 * k, 255 * k + size));
            assert(self.lacing@.drop_last() =~= had.lacing);
            assert(self@ == w.with_segment(data, k as int).writer);
            k = k + 1;
        }
        self.granule = granule_position;
        let ghost done = self@;
        assert(done == (WriterView { granule: granule_position, ..first.with_segments(data, whole + 1).writer }));
        if last {
            let ghost p = self@.page(true);
            self.emit(out, true, false);
            proof {
                assert(pages.push(p).drop_last() =~= pages);
                assert(out@ =~= before + page::pages_bytes(pages.push(p)));
            }
        }
    }

    /// Gives out what is left.
    pub fn flush(&mut self, out: &mut Vec<u8>)
        requires
            old(self).wf(),
        ensures
            final(self).wf(),
            ({
                let w = (Written { writer: old(self)@, pages: Seq::empty() }).flushed();
                &&& final(self)@ == w.writer
                &&& final(out)@ == old(out)@ + page::pages_bytes(w.pages)
            }),
    {
        let ghost before = out@;
        if self.lacing.len() > 0 {
            let ghost p = self@.page(false);
            self.emit(out, false, false);
            proof {
                let none = Seq::<PageView>::empty();
                assert(page::pages_bytes(none) =~= Seq::<u8>::empty());
                assert(none.push(p).drop_last() =~= none);
                assert(out@ =~= before + page::pages_bytes(none.push(p)));
            }
        } else {
            assert(out@ =~= before + page::pages_bytes(Seq::<PageView>::empty()));
        }
    }

    /// Gives out what is left and closes the stream with an empty page.
    pub fn close(&mut self, out: &mut Vec<u8>, granule_position: u64)
        requires
            old(self).wf(),
        ensures
            final(self).wf(),
            ({
                let w = (Written { writer: old(self)@, pages: Seq::empty() }).closed(granule_position);
                &&& final(self)@ == w.writer
                &&& final(out)@ == old(out)@ + page::pages_bytes(w.pages)
            }),
    {
        let ghost before = out@;
        let ghost left = (Written { writer: self@, pages: Seq::empty() }).flushed().pages;
        self.flush(out);
        self.granule = granule_position;
        let ghost p = self@.page(true);
        self.emit(out, true, false);
        proof {
            assert(left.push(p).drop_last() =~= left);
            assert(out@ =~= before + page::pages_bytes(left.push(p)));
        }
    }
}

/// What stands open behind pages of one stream.
pub open spec fn pending_after(pages: Seq<PageView>, start: Pending) -> Pending
    decreases pages.len(),
{
    if pages.len() == 0 {
        start
    } else {
        pending_after(pages.drop_first(), pages[0].walked(start).pending)
    }
}

/// A packet that was given to the writer.
#[verifier::ext_equal]
pub struct Sent {
    pub data: Seq<u8>,
    pub granule: u64,
}

impl Written {
    /// The walk through the page that is being filled.
    pub open spec fn walked(self) -> Walk {
        page::walk(
            self.writer.lacing,
            self.writer.body,
            page::entry(self.writer.continued, pending_after(self.pages, Pending::Idle)),
            self.writer.lacing.len() as int,
        )
    }

    /// The packets on the pages that were given out.
    pub open spec fn read(self) -> Seq<PacketView> {
        page::packets_from(self.pages, self.writer.serial, Pending::Idle)
    }

    /// The pages are well formed and of the writer's stream.
    pub open spec fn pages_ok(self) -> bool {
        forall|i: int|
            0 <= i < self.pages.len() ==> (#[trigger] self.pages[i]).wf() && self.pages[i].serial
                == self.writer.serial
    }

    /// What was sent is on the pages and on the page that is being filled, in
    /// order, and of the next packet `open`. Each packet on the pages has its
    /// position or none; the last one has it if it ended the page.
    pub open spec fn holds(self, sent: Seq<Sent>, open: Option<Seq<u8>>) -> bool {
        let got = self.read();
        let w = self.walked();
        &&& self.writer.wf()
        &&& self.pages_ok()
        &&& w.pending == match open {
            None => Pending::Idle,
            Some(c) => Pending::Open(c),
        }
        &&& got.len() + w.done.len() == sent.len()
        &&& forall|i: int|
            0 <= i < got.len() ==> (#[trigger] got[i]).data == sent[i].data && (got[i].granule == NO_GRANULE
                || got[i].granule == sent[i].granule) && !got[i].eos
        &&& forall|j: int| 0 <= j < w.done.len() ==> #[trigger] w.done[j] == sent[got.len() + j].data
        &&& self.writer.granule == if w.done.len() > 0 {
            sent.last().granule
        } else {
            NO_GRANULE
        }
        &&& w.done.len() == 0 && sent.len() > 0 ==> got.last().granule == sent.last().granule
    }
}

pub proof fn lemma_packets_push(pages: Seq<PageView>, p: PageView, serial: u32, start: Pending)
    requires
        forall|i: int| 0 <= i < pages.len() ==> (#[trigger] pages[i]).serial == serial,
        p.serial == serial,
    ensures
        page::packets_from(pages.push(p), serial, start) == page::packets_from(pages, serial, start) + p.packets(
            pending_after(pages, start),
        ),
        pending_after(pages.push(p), start) == p.walked(pending_after(pages, start)).pending,
    decreases pages.len(),
{
    reveal_with_fuel(page::packets_from, 2);
    reveal_with_fuel(pending_after, 2);
    if pages.len() == 0 {
        assert(pages.push(p).drop_first() =~= pages);
        assert(page::packets_from(pages.push(p), serial, start) =~= p.packets(start));
    } else {
        let rest = pages.drop_first();
        assert(pages.push(p).drop_first() =~= rest.push(p));
        assert forall|i: int| 0 <= i < rest.len() implies (#[trigger] rest[i]).serial == serial by {
            assert(pages[i + 1].serial == serial);
        }
        assert(pages[0].serial == serial);
        lemma_packets_push(rest, p, serial, pages[0].walked(start).pending);
        assert(page::packets_from(pages.push(p), serial, start) =~= page::packets_from(pages, serial, start)
            + p.packets(pending_after(pages, start)));
    }
}

/// Giving a page out changes nothing of what was sent.
proof fn lemma_emit(w: Written, sent: Seq<Sent>, open: Option<Seq<u8>>, eos: bool)
    requires
        w.holds(sent, open),
    ensures
        ({
            let next = Written { writer: w.writer.emptied(open is Some), pages: w.pages.push(w.writer.page(eos)) };
            let got = next.read();
            &&& !eos ==> next.holds(sent, open)
            &&& next.pages_ok()
            &&& got.len() == sent.len()
            &&& forall|i: int|
                0 <= i < got.len() ==> (#[trigger] got[i]).data == sent[i].data && (got[i].granule == NO_GRANULE
                    || got[i].granule == sent[i].granule) && (got[i].eos ==> eos)
            &&& sent.len() > 0 ==> got.last().granule == sent.last().granule
            &&& w.walked().done.len() > 0 ==> got.last().eos == eos
        }),
{
    let p = w.writer.page(eos);
    let next = Written { writer: w.writer.emptied(open is Some), pages: w.pages.push(p) };
    let before = pending_after(w.pages, Pending::Idle);
    lemma_packets_push(w.pages, p, w.writer.serial, Pending::Idle);
    assert(p.walked(before) == w.walked());
    let got = w.read();
    let more = p.packets(before);
    assert(next.read() =~= got + more);
    assert(more.len() == w.walked().done.len());
    assert forall|i: int| 0 <= i < next.pages.len() implies (#[trigger] next.pages[i]).wf() && next.pages[i].serial
        == next.writer.serial by {
        if i < w.pages.len() {
            assert(next.pages[i] == w.pages[i]);
        }
    }
    assert(next.walked().done.len() == 0);
    assert(page::lacing_sum(Seq::<u8>::empty()) == 0);
    assert forall|i: int| 0 <= i < next.read().len() implies (#[trigger] next.read()[i]).data == sent[i].data && (
    next.read()[i].granule == NO_GRANULE || next.read()[i].granule == sent[i].granule) && (next.read()[i].eos
        ==> eos) by {
        if i < got.len() {
            assert(next.read()[i] == got[i]);
        } else {
            assert(next.read()[i] == more[i - got.len()]);
            assert(w.walked().done[i - got.len()] == sent[got.len() + (i - got.len())].data);
        }
    }
    if more.len() > 0 {
        assert(next.read().last() == more.last());
    } else {
        assert(next.read() =~= got);
    }
}

proof fn lemma_walk_prefix(lacing: Seq<u8>, body: Seq<u8>, n: u8, seg: Seq<u8>, start: Pending, k: int)
    requires
        0 <= k <= lacing.len(),
        page::lacing_sum(lacing) == body.len(),
    ensures
        page::walk(lacing.push(n), body + seg, start, k) == page::walk(lacing, body, start, k),
    decreases k,
{
    if k > 0 {
        lemma_walk_prefix(lacing, body, n, seg, start, k - 1);
        page::lemma_walk_off(lacing, body, start, k - 1);
        page::lemma_walk_off(lacing, body, start, k);
        let w = page::walk(lacing, body, start, k - 1);
        let size = lacing[k - 1] as int;
        assert(lacing.push(n)[k - 1] == lacing[k - 1]);
        assert((body + seg).subrange(w.off, w.off + size) =~= body.subrange(w.off, w.off + size));
    }
}

/// One more segment on a page that has room for it.
proof fn lemma_add(w: Written, n: u8, seg: Seq<u8>)
    requires
        w.writer.wf(),
        w.writer.lacing.len() < 255,
        seg.len() == n,
        !(w.walked().pending is Skip),
    ensures
        ({
            let next = Written {
                writer: WriterView { lacing: w.writer.lacing.push(n), body: w.writer.body + seg, ..w.writer },
                pages: w.pages,
            };
            let cur = match w.walked().pending {
                Pending::Open(c) => c + seg,
                _ => seg,
            };
            &&& next.writer.wf()
            &&& next.read() == w.read()
            &&& n < 255 ==> next.walked().done == w.walked().done.push(cur) && next.walked().pending is Idle
            &&& n == 255 ==> next.walked().done == w.walked().done && next.walked().pending == Pending::Open(cur)
        }),
{
    let lacing = w.writer.lacing;
    let body = w.writer.body;
    let start = page::entry(w.writer.continued, pending_after(w.pages, Pending::Idle));
    let len = lacing.len() as int;
    lemma_walk_prefix(lacing, body, n, seg, start, len);
    page::lemma_walk_off(lacing, body, start, len);
    assert(lacing.take(len) =~= lacing);
    let at = page::walk(lacing, body, start, len);
    assert(at.off == body.len());
    assert((body + seg).subrange(at.off, at.off + n) =~= seg);
    assert(lacing.push(n)[len] == n);
    assert(page::walk(lacing.push(n), body + seg, start, len + 1) == page::walk_step(at, body + seg, n as int));
    assert(lacing.push(n).drop_last() =~= lacing);
}

proof fn lemma_segments(w: Written, sent: Seq<Sent>, packet: Seq<u8>, k: int)
    requires
        w.holds(sent, None),
        0 <= k <= packet.len() as int / 255,
    ensures
        w.with_segments(packet, k).holds(
            sent,
            if k == 0 {
                None
            } else {
                Some(packet.take(255 * k))
            },
        ),
        w.with_segments(packet, k).writer.serial == w.writer.serial,
    decreases k,
{
    if k > 0 {
        lemma_segments(w, sent, packet, k - 1);
        lemma_segment(w.with_segments(packet, k - 1), sent, packet, k - 1);
    }
}

/// A whole segment in the middle of a packet.
proof fn lemma_segment(w: Written, sent: Seq<Sent>, packet: Seq<u8>, k: int)
    requires
        w.holds(
            sent,
            if k == 0 {
                None
            } else {
                Some(packet.take(255 * k))
            },
        ),
        0 <= k < packet.len() as int / 255,
    ensures
        w.with_segment(packet, k).holds(sent, Some(packet.take(255 * (k + 1)))),
        w.with_segment(packet, k).writer.serial == w.writer.serial,
{
    let open = if k == 0 {
        None
    } else {
        Some(packet.take(255 * k))
    };
    let full = w.writer.lacing.len() >= 255;
    let v = if full {
        Written { writer: w.writer.emptied(k > 0), pages: w.pages.push(w.writer.page(false)) }
    } else {
        w
    };
    if full {
        lemma_emit(w, sent, open, false);
    }
    let seg = packet.subrange(255 * k, 255 * k + 255);
    lemma_add(v, 255, seg);
    let cur = match v.walked().pending {
        Pending::Open(c) => c + seg,
        _ => seg,
    };
    assert(cur =~= packet.take(255 * (k + 1)));
    let next = w.with_segment(packet, k);
    assert(next.pages == v.pages);
    assert(next.pages_ok());
}

/// The last segment of a packet, with its position.
proof fn lemma_last_segment(w: Written, sent: Seq<Sent>, packet: Seq<u8>, granule: u64)
    requires
        w.holds(
            sent,
            if packet.len() < 255 {
                None
            } else {
                Some(packet.take(255 * (packet.len() as int / 255)))
            },
        ),
    ensures
        ({
            let next = w.with_segment(packet, packet.len() as int / 255);
            let done = Written { writer: WriterView { granule, ..next.writer }, pages: next.pages };
            &&& done.holds(sent.push(Sent { data: packet, granule }), None)
            &&& done.walked().done.len() > 0
            &&& done.writer.serial == w.writer.serial
        }),
{
    let k = packet.len() as int / 255;
    let open = if k == 0 {
        None
    } else {
        Some(packet.take(255 * k))
    };
    let full = w.writer.lacing.len() >= 255;
    let v = if full {
        Written { writer: w.writer.emptied(k > 0), pages: w.pages.push(w.writer.page(false)) }
    } else {
        w
    };
    if full {
        lemma_emit(w, sent, open, false);
    }
    let size = packet.len() as int % 255;
    let seg = packet.subrange(255 * k, 255 * k + size);
    lemma_add(v, size as u8, seg);
    let cur = match v.walked().pending {
        Pending::Open(c) => c + seg,
        _ => seg,
    };
    assert(cur =~= packet);
    let next = w.with_segment(packet, k);
    let done = Written { writer: WriterView { granule, ..next.writer }, pages: next.pages };
    assert(done.walked() == next.walked());
    assert(done.read() == v.read());
    assert(done.pages == v.pages);
    assert(done.pages_ok());
    let all = sent.push(Sent { data: packet, granule });
    assert forall|j: int| 0 <= j < done.walked().done.len() implies #[trigger] done.walked().done[j]
        == all[done.read().len() + j].data by {
        if j < v.walked().done.len() {
            assert(done.walked().done[j] == v.walked().done[j]);
        }
    }
}

/// A packet that was pushed is there with what was there before.
pub proof fn lemma_push_packet(w: Written, sent: Seq<Sent>, packet: Seq<u8>, granule: u64)
    requires
        w.holds(sent, None),
    ensures
        w.with_packet(packet, granule, false).holds(sent.push(Sent { data: packet, granule }), None),
        w.with_packet(packet, granule, false).writer.serial == w.writer.serial,
        w.with_packet(packet, granule, false).walked().done.len() > 0,
        w.with_packet(packet, granule, false).writer.lacing.len() > 0,
{
    let k = packet.len() as int / 255;
    lemma_segments(w, sent, packet, k);
    lemma_last_segment(w.with_segments(packet, k), sent, packet, granule);
}

/// Flushing keeps what was sent.
pub proof fn lemma_flush_packets(w: Written, sent: Seq<Sent>)
    requires
        w.holds(sent, None),
    ensures
        w.flushed().holds(sent, None),
        w.flushed().writer.serial == w.writer.serial,
{
    if w.writer.lacing.len() > 0 {
        lemma_emit(w, sent, None, false);
    }
}

/// The pages of a stream that the last packet closed hold every packet that was
/// sent, in order and whole. Each has the position it was sent with or none, the
/// last one has it and is marked as the last.
pub proof fn lemma_close(w: Written, sent: Seq<Sent>, packet: Seq<u8>, granule: u64)
    requires
        w.holds(sent, None),
    ensures
        ({
            let all = sent.push(Sent { data: packet, granule });
            let end = w.with_packet(packet, granule, true);
            let got = page::packets_from(end.pages, w.writer.serial, Pending::Idle);
            &&& end.pages_ok()
            &&& end.writer.serial == w.writer.serial
            &&& got.len() == all.len()
            &&& forall|i: int|
                0 <= i < got.len() ==> (#[trigger] got[i]).data == all[i].data && (got[i].granule == NO_GRANULE
                    || got[i].granule == all[i].granule)
            &&& got.last().granule == granule
            &&& got.last().eos
        }),
{
    let k = packet.len() as int / 255;
    lemma_segments(w, sent, packet, k);
    lemma_last_segment(w.with_segments(packet, k), sent, packet, granule);
    let next = w.with_segments(packet, k + 1);
    let done = Written { writer: WriterView { granule, ..next.writer }, pages: next.pages };
    lemma_emit(done, sent.push(Sent { data: packet, granule }), None, true);
}

/// The pages of a stream that an empty page closed hold every packet that was sent, in
/// order and whole, and no other. Each has the position it was sent with or none, the
/// last one has it.
pub proof fn lemma_closed(w: Written, sent: Seq<Sent>, granule: u64)
    requires
        w.holds(sent, None),
    ensures
        ({
            let end = w.closed(granule);
            let got = page::packets_from(end.pages, w.writer.serial, Pending::Idle);
            &&& end.pages_ok()
            &&& end.writer.serial == w.writer.serial
            &&& end.pages.last().eos
            &&& end.pages.last().granule == granule
            &&& end.pages.last().body.len() == 0
            &&& end.pages.last().serial == w.writer.serial
            &&& got.len() == sent.len()
            &&& forall|i: int|
                0 <= i < got.len() ==> (#[trigger] got[i]).data == sent[i].data && (got[i].granule == NO_GRANULE
                    || got[i].granule == sent[i].granule)
            &&& sent.len() > 0 ==> got.last().granule == sent.last().granule
        }),
{
    lemma_flush_packets(w, sent);
    let f = w.flushed();
    let p = (WriterView { granule, ..f.writer }).page(true);
    lemma_packets_push(f.pages, p, w.writer.serial, Pending::Idle);
    assert(p.lacing =~= Seq::<u8>::empty());
    assert(p.walked(pending_after(f.pages, Pending::Idle)).done.len() == 0);
    assert(page::packets_from(w.closed(granule).pages, w.writer.serial, Pending::Idle) =~= f.read());
    assert(f.walked().done.len() == 0);
    assert forall|i: int| 0 <= i < w.closed(granule).pages.len() implies (#[trigger] w.closed(granule).pages[i]).wf()
        && w.closed(granule).pages[i].serial == w.writer.serial by {
        if i < f.pages.len() {
            assert(f.pages[i].wf());
        } else {
            assert(page::lacing_sum(Seq::<u8>::empty()) == 0);
        }
    }
}

/// A writer that was given nothing holds nothing.
pub proof fn lemma_start(serial: u32)
    ensures
        (Written { writer: WriterView::start(serial), pages: Seq::empty() }).holds(Seq::empty(), None),
{
    let w = Written { writer: WriterView::start(serial), pages: Seq::empty() };
    assert(w.read() =~= Seq::<PacketView>::empty());
    assert(page::lacing_sum(Seq::<u8>::empty()) == 0);
}

/// What comes of a writer does not depend on the pages given out before.
pub proof fn lemma_pages_before(w: WriterView, before: Seq<PageView>, packet: Seq<u8>, granule: u64, last: bool)
    ensures
        ({
            let a = (Written { writer: w, pages: Seq::empty() }).with_packet(packet, granule, last);
            let b = (Written { writer: w, pages: before }).with_packet(packet, granule, last);
            b.writer == a.writer && b.pages == before + a.pages
        }),
        ({
            let a = (Written { writer: w, pages: Seq::empty() }).flushed();
            let b = (Written { writer: w, pages: before }).flushed();
            b.writer == a.writer && b.pages == before + a.pages
        }),
        ({
            let a = (Written { writer: w, pages: Seq::empty() }).closed(granule);
            let b = (Written { writer: w, pages: before }).closed(granule);
            b.writer == a.writer && b.pages == before + a.pages
        }),
{
    let k = packet.len() as int / 255 + 1;
    lemma_segments_before(w, before, packet, k);
    let a = (Written { writer: w, pages: Seq::empty() }).with_packet(packet, granule, last);
    let b = (Written { writer: w, pages: before }).with_packet(packet, granule, last);
    assert(b.pages =~= before + a.pages);
    let c = (Written { writer: w, pages: Seq::empty() }).flushed();
    let d = (Written { writer: w, pages: before }).flushed();
    assert(d.pages =~= before + c.pages);
    let x = (Written { writer: w, pages: Seq::empty() }).closed(granule);
    let y = (Written { writer: w, pages: before }).closed(granule);
    assert(y.pages =~= before + x.pages);
}

proof fn lemma_segments_before(w: WriterView, before: Seq<PageView>, packet: Seq<u8>, k: int)
    ensures
        ({
            let a = (Written { writer: w, pages: Seq::empty() }).with_segments(packet, k);
            let b = (Written { writer: w, pages: before }).with_segments(packet, k);
            b.writer == a.writer && b.pages == before + a.pages
        }),
    decreases k,
{
    let a = (Written { writer: w, pages: Seq::empty() }).with_segments(packet, k);
    let b = (Written { writer: w, pages: before }).with_segments(packet, k);
    if k > 0 {
        lemma_segments_before(w, before, packet, k - 1);
    }
    assert(b.pages =~= before + a.pages);
}

/// The bytes of two lists of pages are the bytes of the one, then of the other.
pub proof fn lemma_bytes_concat(a: Seq<PageView>, b: Seq<PageView>)
    ensures
        page::pages_bytes(a + b) == page::pages_bytes(a) + page::pages_bytes(b),
    decreases b.len(),
{
    if b.len() == 0 {
        assert(a + b =~= a);
        assert(page::pages_bytes(a) + page::pages_bytes(b) =~= page::pages_bytes(a));
    } else {
        lemma_bytes_concat(a, b.drop_last());
        assert((a + b).drop_last() =~= a + b.drop_last());
        assert(page::pages_bytes(a + b) =~= page::pages_bytes(a) + page::pages_bytes(b));
    }
}

proof fn lemma_read_from(pages: Seq<PageView>, i: int)
    requires
        0 <= i <= pages.len(),
        forall|k: int| 0 <= k < pages.len() ==> (#[trigger] pages[k]).wf(),
    ensures
        page::pages_from(page::pages_bytes(pages), page::pages_bytes(pages.take(i)).len() as int) == pages.skip(i),
    decreases pages.len() - i,
{
    let data = page::pages_bytes(pages);
    let pos = page::pages_bytes(pages.take(i)).len() as int;
    lemma_bytes_concat(pages.take(i), pages.skip(i));
    assert(pages.take(i) + pages.skip(i) =~= pages);
    if i == pages.len() {
        assert(pages.skip(i) =~= Seq::<PageView>::empty());
        assert(pages.take(i) =~= pages);
        assert(page::pages_from(data, pos) =~= Seq::<PageView>::empty());
    } else {
        let p = pages[i];
        let one = seq![p];
        let rest = page::pages_bytes(pages.skip(i + 1));
        lemma_bytes_concat(one, pages.skip(i + 1));
        assert(one + pages.skip(i + 1) =~= pages.skip(i));
        assert(one.drop_last() =~= Seq::<PageView>::empty());
        assert(page::pages_bytes(one) =~= p.bytes()) by {
            assert(page::pages_bytes(Seq::<PageView>::empty()) =~= Seq::<u8>::empty());
        }
        assert(data.skip(pos) =~= p.bytes() + rest);
        lemma_page_round_trip(p, rest);
        page::lemma_page_size(p);
        assert(pages.take(i + 1).drop_last() =~= pages.take(i));
        assert(page::pages_bytes(pages.take(i + 1)).len() == pos + p.bytes().len());
        lemma_read_from(pages, i + 1);
        assert(page::pages_from(data, pos) =~= one + pages.skip(i + 1));
    }
}

/// Pages are read back from their bytes.
pub proof fn lemma_pages_round_trip(pages: Seq<PageView>)
    requires
        forall|k: int| 0 <= k < pages.len() ==> (#[trigger] pages[k]).wf(),
    ensures
        page::pages_from(page::pages_bytes(pages), 0) == pages,
{
    lemma_read_from(pages, 0);
    assert(pages.take(0) =~= Seq::<PageView>::empty());
    assert(page::pages_bytes(pages.take(0)).len() == 0);
    assert(pages.skip(0) =~= pages);
}

} // verus!
