//! What pages are for: packets that are cut into segments and put together again.

use vstd::prelude::*;

use crate::ogg::bytes;
use crate::ogg::page::{self, PageView, Pending, Walk};

verus! {

/// Two bytes, the lower first.
proof fn lemma_two_bytes(s: Seq<u8>)
    requires
        s.len() == 2,
    ensures
        bytes::le_value(s) == s[0] + 256 * s[1],
{
    reveal_with_fuel(bytes::le_value, 3);
    assert(s.drop_first()[0] == s[1]);
    assert(s.drop_first().drop_first().len() == 0);
}

/// Four bytes, the lowest first.
pub proof fn lemma_four_bytes(s: Seq<u8>)
    requires
        s.len() == 4,
    ensures
        bytes::le_value(s) == s[0] + 0x100 * s[1] + 0x1_0000 * s[2] + 0x100_0000 * s[3],
{
    let t = s.drop_first().drop_first();
    assert(t[0] == s[2] && t[1] == s[3]);
    lemma_two_bytes(t);
    assert(s.drop_first()[0] == s[1]);
    assert(bytes::le_value(s.drop_first()) == s[1] + 256 * bytes::le_value(t));
}

/// The fields of a page's head stand where they belong: the flags in the sixth byte, the
/// position behind it, then serial and sequence number, the number of segments in the 27th,
/// the segments' sizes and the body behind it.
pub proof fn lemma_page_fields(d: Seq<u8>)
    requires
        d.len() >= 27,
        d.len() >= 27 + d[26],
        d.len() >= page::page_len(d),
    ensures
        ({
            let p = page::page_at(d);
            &&& p.continued == (d[5] % 2 == 1)
            &&& p.bos == (d[5] / 2 % 2 == 1)
            &&& p.eos == (d[5] / 4 % 2 == 1)
            &&& p.granule == d[6] + 0x100 * d[7] + 0x1_0000 * d[8] + 0x100_0000 * d[9] + 0x1_0000_0000 * (d[10] + 0x100
                * d[11] + 0x1_0000 * d[12] + 0x100_0000 * d[13])
            &&& p.serial == d[14] + 0x100 * d[15] + 0x1_0000 * d[16] + 0x100_0000 * d[17]
            &&& p.sequence == d[18] + 0x100 * d[19] + 0x1_0000 * d[20] + 0x100_0000 * d[21]
            &&& p.lacing.len() == d[26]
            &&& forall|i: int| 0 <= i < d[26] ==> #[trigger] p.lacing[i] == d[27 + i]
            &&& forall|i: int| 0 <= i < p.body.len() ==> #[trigger] p.body[i] == d[27 + d[26] + i]
        }),
{
    let g = d.subrange(6, 14);
    lemma_four_bytes(g.skip(4));
    lemma_four_bytes(d.subrange(14, 18));
    lemma_four_bytes(d.subrange(18, 22));
    let a = g.drop_first();
    let b = a.drop_first();
    let c = b.drop_first();
    let e = c.drop_first();
    assert(e =~= g.skip(4));
    assert(bytes::le_value(g) == g[0] + 256 * bytes::le_value(a));
    assert(bytes::le_value(a) == a[0] + 256 * bytes::le_value(b));
    assert(bytes::le_value(b) == b[0] + 256 * bytes::le_value(c));
    assert(bytes::le_value(c) == c[0] + 256 * bytes::le_value(e));
    page::lemma_lacing_sum(d.subrange(27, 27 + d[26]));
}

/// The bytes of packets, one after the other.
pub open spec fn flat(s: Seq<Seq<u8>>) -> Seq<u8>
    decreases s.len(),
{
    if s.len() == 0 {
        Seq::empty()
    } else {
        flat(s.drop_last()) + s.last()
    }
}

/// What stands open, as bytes.
pub open spec fn open_bytes(p: Pending) -> Seq<u8> {
    match p {
        Pending::Open(c) => c,
        _ => Seq::empty(),
    }
}

/// No byte of a page is lost: the packets that ended, and what stands open behind them, are
/// what stood open before and the segments so far.
pub proof fn lemma_nothing_lost(lacing: Seq<u8>, body: Seq<u8>, start: Pending, k: int)
    requires
        0 <= k <= lacing.len(),
        !(start is Skip),
        page::lacing_sum(lacing) <= body.len(),
    ensures
        ({
            let w = page::walk(lacing, body, start, k);
            &&& !(w.pending is Skip)
            &&& w.off == page::lacing_sum(lacing.take(k))
            &&& 0 <= w.off <= body.len()
            &&& flat(w.done) + open_bytes(w.pending) == open_bytes(start) + body.take(w.off)
            &&& k > 0 && lacing[k - 1] < 255 ==> w.pending is Idle
            &&& k > 0 && lacing[k - 1] == 255 ==> w.pending is Open
        }),
    decreases k,
{
    lemma_sum_prefix(lacing, k);
    if k == 0 {
        assert(lacing.take(0) =~= Seq::<u8>::empty());
        assert(flat(Seq::<Seq<u8>>::empty()) =~= Seq::<u8>::empty());
        assert(open_bytes(start) + body.take(0) =~= open_bytes(start));
        assert(Seq::<u8>::empty() + open_bytes(start) =~= open_bytes(start));
    } else {
        lemma_nothing_lost(lacing, body, start, k - 1);
        let v = page::walk(lacing, body, start, k - 1);
        let w = page::walk(lacing, body, start, k);
        let n = lacing[k - 1] as int;
        assert(lacing.take(k).drop_last() =~= lacing.take(k - 1));
        assert(lacing.take(k).last() == lacing[k - 1]);
        let seg = body.subrange(v.off, v.off + n);
        assert(body.take(v.off + n) =~= body.take(v.off) + seg);
        let cur = open_bytes(v.pending) + seg;
        assert(match v.pending {
            Pending::Open(c) => c + seg,
            _ => seg,
        } =~= cur);
        if n < 255 {
            assert(w.done == v.done.push(cur));
            assert(w.done.drop_last() =~= v.done);
            assert(flat(w.done) == flat(v.done) + cur);
            assert(flat(w.done) + open_bytes(w.pending) =~= flat(v.done) + open_bytes(v.pending) + seg);
        } else {
            assert(flat(w.done) + open_bytes(w.pending) =~= flat(v.done) + open_bytes(v.pending) + seg);
        }
        assert(flat(w.done) + open_bytes(w.pending) =~= open_bytes(start) + body.take(w.off));
    }
}

proof fn lemma_sum_prefix(lacing: Seq<u8>, k: int)
    requires
        0 <= k <= lacing.len(),
    ensures
        0 <= page::lacing_sum(lacing.take(k)) <= page::lacing_sum(lacing),
    decreases lacing.len(),
{
    page::lemma_lacing_sum(lacing.take(k));
    if k < lacing.len() {
        lemma_sum_prefix(lacing.drop_last(), k);
        assert(lacing.drop_last().take(k) =~= lacing.take(k));
    } else {
        assert(lacing.take(k) =~= lacing);
    }
}

/// How many packets end within the first `k` segments.
pub open spec fn ends(lacing: Seq<u8>, k: int) -> int
    decreases k,
{
    if k <= 0 {
        0
    } else {
        ends(lacing, k - 1) + if lacing[k - 1] < 255 {
            1int
        } else {
            0
        }
    }
}

/// A packet ends with each segment of fewer than 255 bytes; the rest of one whose start is
/// missing does not count.
pub proof fn lemma_packets_end(lacing: Seq<u8>, body: Seq<u8>, start: Pending, k: int)
    requires
        0 <= k <= lacing.len(),
    ensures
        ({
            let w = page::walk(lacing, body, start, k);
            &&& ends(lacing, k) >= 0
            &&& !(start is Skip) ==> w.done.len() == ends(lacing, k) && !(w.pending is Skip)
            &&& start is Skip && ends(lacing, k) == 0 ==> w.done.len() == 0 && w.pending is Skip
            &&& start is Skip && ends(lacing, k) > 0 ==> w.done.len() == ends(lacing, k) - 1 && !(w.pending is Skip)
        }),
    decreases k,
{
    if k > 0 {
        lemma_packets_end(lacing, body, start, k - 1);
    }
}

/// A page that does not go on with a packet drops what stood open, one that goes on with a
/// packet of which nothing is there leaves out its rest.
pub proof fn lemma_page_entry(p: PageView, a: Pending, b: Pending)
    ensures
        !p.continued ==> p.walked(a) == p.walked(b),
        p.continued ==> p.walked(Pending::Idle) == p.walked(Pending::Skip),
        p.continued && !(a is Idle) ==> p.walked(a) == page::walk(p.lacing, p.body, a, p.lacing.len() as int),
{
}

/// Only the last packet that ends on a page has the page's position, and all have its data.
pub proof fn lemma_page_packets(p: PageView, pending: Pending, i: int)
    requires
        0 <= i < p.packets(pending).len(),
    ensures
        ({
            let s = p.packets(pending);
            &&& s.len() == p.walked(pending).done.len()
            &&& s[i].data == p.walked(pending).done[i]
            &&& i == s.len() - 1 ==> s[i].granule == p.granule
            &&& i < s.len() - 1 ==> s[i].granule == 0xFFFF_FFFF_FFFF_FFFFu64
            &&& s[i].eos == p.eos
        }),
{
}

} // verus!
