//! What the Opus headers and positions of a file come to.

use vstd::prelude::*;

use crate::ogg::bytes;
use crate::ogg::opus::{self, HeadView, MappingView, OggOpusError};
use crate::ogg::page::{PacketView, PageView};

verus! {

proof fn lemma_two_bytes(s: Seq<u8>)
    requires
        s.len() == 2,
    ensures
        bytes::le_value(s) == s[0] + 256 * s[1],
{
    reveal_with_fuel(bytes::le_value, 3);
    assert(s.drop_first()[0] == s[1]);
    assert(s.drop_first().drop_first().len() == 0);
}

/// The fields of an identification header stand where they belong, the lowest byte of a number
/// first, the gain with its sign.
pub proof fn lemma_head_fields(d: Seq<u8>)
    requires
        opus::parse_head(d) is Ok,
    ensures
        ({
            let h = opus::parse_head(d)->Ok_0;
            let g = d[16] + 0x100 * d[17];
            &&& h.valid()
            &&& h.version == d[8] && h.version < 16
            &&& h.channels == d[9] && h.channels > 0
            &&& h.pre_skip == d[10] + 0x100 * d[11]
            &&& h.rate == d[12] + 0x100 * d[13] + 0x1_0000 * d[14] + 0x100_0000 * d[15]
            &&& h.gain == if d[17] < 128 {
                g
            } else {
                g - 0x1_0000
            }
            &&& h.mapping is Family0 <==> d[18] == 0
            &&& h.mapping is Family0 ==> h.channels <= 2
            &&& h.mapping matches MappingView::Table { family, streams, coupled, mapping } ==> {
                &&& family == d[18] && streams == d[19] && coupled == d[20]
                &&& mapping.len() == h.channels
                &&& streams + coupled <= 255 && coupled <= streams && streams >= 1
                &&& forall|i: int| 0 <= i < mapping.len() ==> #[trigger] mapping[i] == d[21 + i]
            }
        }),
{
    lemma_two_bytes(d.subrange(10, 12));
    lemma_two_bytes(d.subrange(16, 18));
    crate::ogg::page::laws::lemma_four_bytes(d.subrange(12, 16));
}

/// A header is refused where it is too short, has another magic, no channel, more than two
/// without a table, or a table that does not fit; one of a later version is told apart.
pub proof fn lemma_head_refused(d: Seq<u8>)
    ensures
        d.len() < 19 ==> opus::parse_head(d) == Err::<HeadView, OggOpusError>(OggOpusError::InvalidIdHeader),
        d.len() >= 19 && d.take(8) == opus::head_magic() && d[8] >= 16 ==> opus::parse_head(d) == Err::<
            HeadView,
            OggOpusError,
        >(OggOpusError::UnsupportedVersion(d[8])),
        d.len() >= 19 && d.take(8) == opus::head_magic() && d[8] < 16 && 1 <= d[9] <= 2 && d[18] == 0
            ==> opus::parse_head(d) is Ok,
        d.len() >= 19 && d[8] < 16 && d[9] > 2 && d[18] == 0 ==> opus::parse_head(d) == Err::<HeadView, OggOpusError>(
            OggOpusError::InvalidIdHeader,
        ),
        d.len() >= 19 && d[8] < 16 && d[18] != 0 && d.len() < 21 + d[9] ==> opus::parse_head(d) == Err::<
            HeadView,
            OggOpusError,
        >(OggOpusError::InvalidIdHeader),
{
}

/// The packets of a page that has a position are counted back from it, each by the samples of
/// the one behind it; those of one that has none are counted on from the last position.
pub proof fn lemma_positions(group: Seq<PacketView>, last: u64, i: int)
    requires
        0 <= i < group.len(),
    ensures
        ({
            let s = opus::placed(group, last);
            &&& s.len() == group.len()
            &&& s[i].data == group[i].data && s[i].eos == group[i].eos
            &&& group.last().granule != 0xFFFF_FFFF_FFFF_FFFFu64 ==> s.last().granule == group.last().granule
            &&& group.last().granule != 0xFFFF_FFFF_FFFF_FFFFu64 && i + 1 < group.len() && s[i + 1].granule
                >= opus::samples(group[i + 1].data) ==> s[i].granule + opus::samples(group[i + 1].data) == s[i
                + 1].granule
            &&& group.last().granule != 0xFFFF_FFFF_FFFF_FFFFu64 && i + 1 < group.len() && s[i + 1].granule
                < opus::samples(group[i + 1].data) ==> s[i].granule == 0
            &&& group.last().granule == 0xFFFF_FFFF_FFFF_FFFFu64 && i == 0 && last + opus::samples(group[0].data)
                <= u64::MAX ==> s[0].granule == last + opus::samples(group[0].data)
            &&& group.last().granule == 0xFFFF_FFFF_FFFF_FFFFu64 && i + 1 < group.len() && s[i].granule + opus::samples(
                group[i + 1].data,
            ) <= u64::MAX ==> s[i + 1].granule == s[i].granule + opus::samples(group[i + 1].data)
        }),
{
    reveal_with_fuel(opus::onward, 3);
}

/// Placing the packets of a stream keeps them, all of them and in order.
pub proof fn lemma_placed_keeps(rest: Seq<PacketView>, last: u64)
    ensures
        opus::resolved(rest, last).len() == rest.len(),
        forall|i: int|
            0 <= i < rest.len() ==> #[trigger] opus::resolved(rest, last)[i].data == rest[i].data && opus::resolved(
                rest,
                last,
            )[i].eos == rest[i].eos,
    decreases rest.len(),
{
    if rest.len() > 0 {
        opus::lemma_group_len(rest, 0);
        let n = opus::group_len(rest, 0);
        let group = opus::placed(rest.take(n), last);
        let g = group.last().granule;
        lemma_placed_keeps(rest.skip(n), g);
        let r = opus::resolved(rest, last);
        assert(r == group + opus::resolved(rest.skip(n), g));
        assert forall|i: int| 0 <= i < rest.len() implies #[trigger] r[i].data == rest[i].data && r[i].eos
            == rest[i].eos by {
            if i < n {
                assert(r[i] == group[i]);
                assert(rest.take(n)[i] == rest[i]);
            } else {
                assert(r[i] == opus::resolved(rest.skip(n), g)[i - n]);
                assert(rest.skip(n)[i - n] == rest[i]);
            }
        }
    }
}

/// A group ends with the first packet that has a position.
pub proof fn lemma_groups(rest: Seq<PacketView>, k: int)
    requires
        0 <= k < rest.len(),
    ensures
        ({
            let n = opus::group_len(rest, k);
            &&& k < n <= rest.len()
            &&& forall|i: int| k <= i < n - 1 ==> #[trigger] rest[i].granule == 0xFFFF_FFFF_FFFF_FFFFu64
            &&& n < rest.len() ==> rest[n - 1].granule != 0xFFFF_FFFF_FFFF_FFFFu64
        }),
    decreases rest.len() - k,
{
    reveal_with_fuel(opus::group_len, 2);
    if rest[k].granule == 0xFFFF_FFFF_FFFF_FFFFu64 && k + 1 < rest.len() {
        lemma_groups(rest, k + 1);
    }
}

/// The Opus stream is that of the first page that begins a stream with the header's magic.
pub proof fn lemma_first_stream(pages: Seq<PageView>) -> (k: int)
    ensures
        opus::opus_serial(pages) is Some ==> {
            &&& 0 <= k < pages.len()
            &&& pages[k].serial == opus::opus_serial(pages)->0
            &&& pages[k].bos && pages[k].body.len() >= 8 && pages[k].body.take(8) == opus::head_magic()
            &&& forall|i: int|
                0 <= i < k ==> !(#[trigger] pages[i].bos && pages[i].body.len() >= 8 && pages[i].body.take(8)
                    == opus::head_magic())
        },
        opus::opus_serial(pages) is None ==> forall|i: int|
            0 <= i < pages.len() ==> !(#[trigger] pages[i].bos && pages[i].body.len() >= 8 && pages[i].body.take(8)
                == opus::head_magic()),
    decreases pages.len(),
{
    if pages.len() == 0 {
        0
    } else if pages[0].bos && pages[0].body.len() >= 8 && pages[0].body.take(8) == opus::head_magic() {
        0
    } else {
        let rest = pages.drop_first();
        let k = lemma_first_stream(rest);
        assert forall|i: int| 0 < i < pages.len() implies #[trigger] pages[i] == rest[i - 1] by {}
        k + 1
    }
}

/// The last position of a stream is that of its last page that has one.
pub proof fn lemma_last_position(pages: Seq<PageView>, serial: u32) -> (k: int)
    ensures
        opus::last_granule(pages, serial) is Some ==> {
            &&& 0 <= k < pages.len()
            &&& pages[k].serial == serial
            &&& pages[k].granule == opus::last_granule(pages, serial)->0
            &&& pages[k].granule != 0xFFFF_FFFF_FFFF_FFFFu64
            &&& forall|i: int|
                k < i < pages.len() && #[trigger] pages[i].serial == serial ==> pages[i].granule
                    == 0xFFFF_FFFF_FFFF_FFFFu64
        },
        opus::last_granule(pages, serial) is None ==> forall|i: int|
            0 <= i < pages.len() && #[trigger] pages[i].serial == serial ==> pages[i].granule == 0xFFFF_FFFF_FFFF_FFFFu64,
    decreases pages.len(),
{
    if pages.len() == 0 {
        0
    } else if pages.last().serial == serial && pages.last().granule != 0xFFFF_FFFF_FFFF_FFFFu64 {
        pages.len() - 1
    } else {
        let rest = pages.drop_last();
        let k = lemma_last_position(rest, serial);
        assert forall|i: int| 0 <= i < rest.len() implies #[trigger] pages[i] == rest[i] by {}
        k
    }
}

/// A tag's name ends before the first equals sign, and is the same in any case of its letters.
pub proof fn lemma_tag_names(s: Seq<u8>, k: int, a: u8)
    requires
        0 <= k <= s.len(),
    ensures
        ({
            let e = opus::first_equals(s, k);
            &&& k <= e <= s.len()
            &&& e < s.len() ==> s[e] == 0x3D
            &&& forall|i: int| k <= i < e ==> #[trigger] s[i] != 0x3D
        }),
        opus::lower(opus::lower(a)) == opus::lower(a),
        0x41 <= a <= 0x5A ==> opus::lower(a) == a + 0x20,
        a < 0x41 || a > 0x5A ==> opus::lower(a) == a,
        opus::same_name(s, s),
    decreases s.len() - k,
{
    if k < s.len() && s[k] != 0x3D {
        lemma_tag_names(s, k + 1, a);
    }
}

/// A tag is the first comment that names it.
pub proof fn lemma_first_tag(comments: Seq<Seq<u8>>, tag: Seq<u8>, k: int)
    requires
        0 <= k <= comments.len(),
    ensures
        ({
            let r = opus::find_tag(comments, tag, k);
            &&& k <= r <= comments.len()
            &&& r < comments.len() ==> opus::names(opus::text_bytes(comments[r]), tag)
            &&& forall|i: int| k <= i < r ==> !opus::names(opus::text_bytes(#[trigger] comments[i]), tag)
        }),
    decreases comments.len() - k,
{
    if k < comments.len() && !opus::names(opus::text_bytes(comments[k]), tag) {
        lemma_first_tag(comments, tag, k + 1);
    }
}

} // verus!
