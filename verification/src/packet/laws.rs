//! What the framing of packets is for: frames that were put together are cut apart again.

use vstd::prelude::*;

use crate::packet::{self, Bandwidth, FrameSize, Mode};

verus! {

/// The code of a frame length: one byte up to 251, then two, of which the second counts in
/// fours.
pub open spec fn length_code(n: int) -> Seq<u8> {
    if n < 252 {
        seq![n as u8]
    } else {
        seq![(252 + n % 4) as u8, ((n - 252 - n % 4) / 4) as u8]
    }
}

/// Whether `part` stands in `data` from `pos` on.
pub open spec fn stands(data: Seq<u8>, pos: int, part: Seq<u8>) -> bool {
    &&& 0 <= pos
    &&& pos + part.len() <= data.len()
    &&& data.subrange(pos, pos + part.len()) == part
}

proof fn lemma_stands(data: Seq<u8>, pos: int, part: Seq<u8>, i: int)
    requires
        stands(data, pos, part),
        0 <= i < part.len(),
    ensures
        data[pos + i] == part[i],
{
    assert(data.subrange(pos, pos + part.len())[i] == data[pos + i]);
}

/// A frame length that was coded is read again, and nothing behind it.
pub proof fn lemma_length_read(data: Seq<u8>, pos: int, end: int, n: int)
    requires
        0 <= n <= 1275,
        stands(data, pos, length_code(n)),
        pos + length_code(n).len() <= end,
    ensures
        packet::coded_length(data, pos, end) == Some((n, pos + length_code(n).len())),
{
    let c = length_code(n);
    lemma_stands(data, pos, c, 0);
    if n >= 252 {
        lemma_stands(data, pos, c, 1);
    }
}

/// The bytes that count a padding: 255 for each 254 bytes beyond the last count.
pub open spec fn padding_code(n: int) -> Seq<u8>
    decreases n,
{
    if n < 255 {
        seq![n as u8]
    } else {
        seq![255u8] + padding_code(n - 254)
    }
}

/// A padding that was counted is read again.
pub proof fn lemma_padding_read(data: Seq<u8>, pos: int, n: int)
    requires
        0 <= n,
        stands(data, pos, padding_code(n)),
    ensures
        packet::coded_padding(data, pos) == Some((n, pos + padding_code(n).len())),
    decreases n,
{
    let c = padding_code(n);
    lemma_code_len(n);
    lemma_stands(data, pos, c, 0);
    if n >= 255 {
        let rest = padding_code(n - 254);
        assert(c == seq![255u8] + rest);
        assert(data.subrange(pos + 1, pos + 1 + rest.len()) =~= data.subrange(pos, pos + c.len()).skip(1));
        assert(c.skip(1) =~= rest);
        lemma_padding_read(data, pos + 1, n - 254);
    }
}

proof fn lemma_code_len(n: int)
    requires
        0 <= n,
    ensures
        padding_code(n).len() >= 1,
{
}

/// Two frames of one size behind their head are cut apart.
pub proof fn lemma_two_alike(toc: u8, f: Seq<u8>, g: Seq<u8>)
    requires
        toc % 4 == 1,
        f.len() == g.len(),
        f.len() <= 1275,
    ensures
        packet::layout(seq![toc] + f + g) is Ok,
        packet::cut(seq![toc] + f + g, packet::layout(seq![toc] + f + g)->Ok_0) == seq![f, g],
{
    let data = seq![toc] + f + g;
    let l = packet::layout(data)->Ok_0;
    reveal_with_fuel(packet::size_sum, 3);
    assert(data.subrange(1, 1 + f.len() as int) =~= f);
    assert(data.subrange(1 + f.len() as int, 1 + f.len() as int + g.len() as int) =~= g);
    assert(packet::cut(data, l) =~= seq![f, g]);
}

/// Two frames behind their head and the length of the first are cut apart.
pub proof fn lemma_two_frames(toc: u8, f: Seq<u8>, g: Seq<u8>)
    requires
        toc % 4 == 2,
        f.len() <= 1275,
        g.len() <= 1275,
    ensures
        ({
            let data = seq![toc] + length_code(f.len() as int) + f + g;
            &&& packet::layout(data) is Ok
            &&& packet::cut(data, packet::layout(data)->Ok_0) == seq![f, g]
        }),
{
    let code = length_code(f.len() as int);
    let data = seq![toc] + code + f + g;
    let end = data.len() as int;
    assert(data.subrange(1, 1 + code.len() as int) =~= code);
    lemma_length_read(data, 1, end, f.len() as int);
    reveal_with_fuel(packet::coded_lengths, 2);
    reveal_with_fuel(packet::size_sum, 3);
    let next = 1 + code.len() as int;
    let lens = Seq::<int>::empty().push(f.len() as int);
    assert(packet::coded_lengths(data, 1, end, 1) == Some((lens, next)));
    assert(packet::size_sum(lens, 1) == f.len());
    let l = packet::layout(data)->Ok_0;
    assert(l.sizes =~= seq![f.len() as int, g.len() as int]);
    assert(l.start == next);
    assert(data.subrange(next, next + f.len() as int) =~= f);
    assert(data.subrange(next + f.len() as int, next + f.len() as int + g.len() as int) =~= g);
    assert(packet::cut(data, l) =~= seq![f, g]);
}

/// Frames one after the other.
pub open spec fn joined(frames: Seq<Seq<u8>>, k: int) -> Seq<u8>
    decreases k,
{
    if k <= 0 {
        Seq::empty()
    } else {
        joined(frames, k - 1) + frames[k - 1]
    }
}

/// The codes of the first `k` frame lengths.
pub open spec fn codes(frames: Seq<Seq<u8>>, k: int) -> Seq<u8>
    decreases k,
{
    if k <= 0 {
        Seq::empty()
    } else {
        codes(frames, k - 1) + length_code(frames[k - 1].len() as int)
    }
}

/// The lengths of the first `k` frames.
pub open spec fn lengths(frames: Seq<Seq<u8>>, k: int) -> Seq<int> {
    Seq::new(k as nat, |i: int| frames[i].len() as int)
}

proof fn lemma_joined_len(frames: Seq<Seq<u8>>, k: int, m: int)
    requires
        0 <= k <= m <= frames.len(),
    ensures
        joined(frames, k).len() == packet::size_sum(lengths(frames, m), k),
    decreases k,
{
    if k > 0 {
        lemma_joined_len(frames, k - 1, m);
    }
}

/// A frame stands in the joined frames behind those before it.
proof fn lemma_joined_part(frames: Seq<Seq<u8>>, i: int, k: int)
    requires
        0 <= i < k <= frames.len(),
    ensures
        joined(frames, i).len() + frames[i].len() <= joined(frames, k).len(),
        joined(frames, k).subrange(joined(frames, i).len() as int, (joined(frames, i).len() + frames[i].len()) as int)
            == frames[i],
    decreases k,
{
    let a = joined(frames, i).len() as int;
    let b = a + frames[i].len();
    if i == k - 1 {
        assert(joined(frames, k).subrange(a, b) =~= frames[i]);
    } else {
        lemma_joined_part(frames, i, k - 1);
        assert(joined(frames, k).subrange(a, b) =~= joined(frames, k - 1).subrange(a, b));
    }
}

/// Length codes one after the other are read again.
proof fn lemma_codes_read(data: Seq<u8>, pos: int, end: int, frames: Seq<Seq<u8>>, k: int, m: int)
    requires
        0 <= k <= m <= frames.len(),
        forall|i: int| 0 <= i < m ==> #[trigger] frames[i].len() <= 1275,
        stands(data, pos, codes(frames, m)),
        pos + codes(frames, m).len() <= end,
    ensures
        packet::coded_lengths(data, pos, end, k) == Some((lengths(frames, k), pos + codes(frames, k).len())),
        codes(frames, k).len() <= codes(frames, m).len(),
        codes(frames, m).take(codes(frames, k).len() as int) == codes(frames, k),
{
    lemma_codes_prefix(frames, k, m);
    if k == 0 {
        assert(lengths(frames, 0) =~= Seq::<int>::empty());
    } else {
        lemma_codes_prefix(frames, k - 1, m);
        lemma_codes_prefix(frames, k - 1, k);
        lemma_codes_step(data, pos, end, frames, k, m);
    }
}

proof fn lemma_codes_step(data: Seq<u8>, pos: int, end: int, frames: Seq<Seq<u8>>, k: int, m: int)
    requires
        0 < k <= m <= frames.len(),
        forall|i: int| 0 <= i < m ==> #[trigger] frames[i].len() <= 1275,
        stands(data, pos, codes(frames, m)),
        pos + codes(frames, m).len() <= end,
    ensures
        packet::coded_lengths(data, pos, end, k) == Some((lengths(frames, k), pos + codes(frames, k).len())),
    decreases k,
{
    if k > 1 {
        lemma_codes_step(data, pos, end, frames, k - 1, m);
    } else {
        assert(lengths(frames, 0) =~= Seq::<int>::empty());
        assert(packet::coded_lengths(data, pos, end, 0) == Some((lengths(frames, 0), pos)));
    }
    lemma_codes_prefix(frames, k, m);
    lemma_codes_prefix(frames, k - 1, m);
    let n = frames[k - 1].len() as int;
    let a = codes(frames, k - 1).len() as int;
    let c = length_code(n);
    let next = pos + a;
    let whole = codes(frames, m);
    assert(codes(frames, k) == codes(frames, k - 1) + c);
    assert(data.subrange(next, next + c.len()) =~= data.subrange(pos, pos + whole.len()).subrange(a, a + c.len()));
    let t = whole.take(codes(frames, k).len() as int);
    assert(t == codes(frames, k));
    assert(whole.subrange(a, a + c.len()) =~= t.subrange(a, a + c.len()));
    assert(codes(frames, k).subrange(a, a + c.len()) =~= c);
    lemma_length_read(data, next, end, n);
    assert(lengths(frames, k - 1).push(n) =~= lengths(frames, k));
}

proof fn lemma_codes_prefix(frames: Seq<Seq<u8>>, k: int, m: int)
    requires
        0 <= k <= m <= frames.len(),
    ensures
        codes(frames, k).len() <= codes(frames, m).len(),
        codes(frames, m).take(codes(frames, k).len() as int) == codes(frames, k),
    decreases m - k,
{
    if k < m {
        lemma_codes_prefix(frames, k, m - 1);
        let a = codes(frames, k).len() as int;
        assert(codes(frames, m).take(a) =~= codes(frames, m - 1).take(a));
    } else {
        assert(codes(frames, m).take(codes(frames, k).len() as int) =~= codes(frames, k));
    }
}

/// Any number of frames, up to 120 ms of them, behind their head, their number and the lengths
/// of all but the last are cut apart.
pub proof fn lemma_many_frames(toc: u8, frames: Seq<Seq<u8>>)
    requires
        toc % 4 == 3,
        1 <= frames.len() <= 48,
        frames.len() * packet::frame_size_of(toc as int / 8).samples() <= 5760,
        forall|i: int| 0 <= i < frames.len() ==> #[trigger] frames[i].len() <= 1275,
    ensures
        ({
            let n = frames.len() as int;
            let data = seq![toc, (128 + n) as u8] + codes(frames, n - 1) + joined(frames, n);
            &&& packet::layout(data) is Ok
            &&& packet::cut(data, packet::layout(data)->Ok_0) == frames
        }),
{
    let n = frames.len() as int;
    let head = seq![toc, (128 + n) as u8];
    let c = codes(frames, n - 1);
    let body = joined(frames, n);
    let data = head + c + body;
    let end = data.len() as int;
    assert(data[0] == toc && data[1] == 128 + n);
    assert(data.subrange(2, 2 + c.len() as int) =~= c);
    lemma_codes_read(data, 2, end, frames, n - 1, n - 1);
    let lens = lengths(frames, n - 1);
    let next = 2 + c.len() as int;
    lemma_joined_len(frames, n - 1, n - 1);
    assert(body.len() == joined(frames, n - 1).len() + frames[n - 1].len());
    let last = end - next - packet::size_sum(lens, n - 1);
    assert(last == frames[n - 1].len());
    let l = packet::layout(data)->Ok_0;
    assert((128 + n) % 64 == n && (128 + n) / 128 == 1 && (128 + n) / 64 % 2 == 0);
    assert(l.sizes =~= lengths(frames, n));
    assert(l.start == next);
    assert forall|i: int| 0 <= i < n implies #[trigger] packet::cut(data, l)[i] == frames[i] by {
        lemma_joined_len(frames, i, n);
        lemma_joined_part(frames, i, n);
        let a = joined(frames, i).len() as int;
        assert(data.subrange(next + a, next + a + frames[i].len()) =~= body.subrange(a, a + frames[i].len() as int));
    }
    assert(packet::cut(data, l) =~= frames);
}

/// Frames of one size need no lengths, and a padding behind them, counted before them, is left
/// out.
pub proof fn lemma_padded_frames(toc: u8, frames: Seq<Seq<u8>>, size: int, padding: Seq<u8>)
    requires
        toc % 4 == 3,
        1 <= frames.len() <= 48,
        frames.len() * packet::frame_size_of(toc as int / 8).samples() <= 5760,
        0 <= size <= 1275,
        forall|i: int| 0 <= i < frames.len() ==> #[trigger] frames[i].len() == size,
    ensures
        ({
            let n = frames.len() as int;
            let data = seq![toc, (64 + n) as u8] + padding_code(padding.len() as int) + joined(frames, n) + padding;
            &&& packet::layout(data) is Ok
            &&& packet::layout(data)->Ok_0.padding == padding.len()
            &&& packet::cut(data, packet::layout(data)->Ok_0) == frames
        }),
{
    let n = frames.len() as int;
    let head = seq![toc, (64 + n) as u8];
    let c = padding_code(padding.len() as int);
    let body = joined(frames, n);
    let data = head + c + body + padding;
    assert(data[0] == toc && data[1] == 64 + n);
    assert(data.subrange(2, 2 + c.len() as int) =~= c);
    lemma_padding_read(data, 2, padding.len() as int);
    let pos = 2 + c.len() as int;
    let end = data.len() - padding.len() as int;
    lemma_equal_sum(frames, size, n);
    lemma_joined_len(frames, n, n);
    assert(end - pos == body.len());
    assert(body.len() == n * size);
    vstd::arithmetic::div_mod::lemma_div_multiples_vanish(size, n);
    vstd::arithmetic::div_mod::lemma_mod_multiples_basic(size, n);
    assert(size * n == n * size) by (nonlinear_arith);
    let l = packet::layout(data)->Ok_0;
    assert((64 + n) % 64 == n && (64 + n) / 128 == 0 && (64 + n) / 64 % 2 == 1);
    assert(l.sizes =~= lengths(frames, n));
    assert forall|i: int| 0 <= i < n implies #[trigger] packet::cut(data, l)[i] == frames[i] by {
        lemma_joined_len(frames, i, n);
        lemma_joined_part(frames, i, n);
        let a = joined(frames, i).len() as int;
        assert(data.subrange(pos + a, pos + a + frames[i].len()) =~= body.subrange(a, a + frames[i].len() as int));
    }
    assert(packet::cut(data, l) =~= frames);
}

proof fn lemma_equal_sum(frames: Seq<Seq<u8>>, size: int, k: int)
    requires
        0 <= k <= frames.len(),
        forall|i: int| 0 <= i < frames.len() ==> #[trigger] frames[i].len() == size,
    ensures
        packet::size_sum(lengths(frames, frames.len() as int), k) == k * size,
    decreases k,
{
    if k > 0 {
        lemma_equal_sum(frames, size, k - 1);
        assert(frames[k - 1].len() == size);
        assert(k * size == (k - 1) * size + size) by (nonlinear_arith);
    } else {
        assert(0 * size == 0) by (nonlinear_arith);
    }
}

/// Linear prediction has the three narrow bandwidths in frames of 10 ms and more, hybrid the
/// two wide ones in frames of 10 and 20 ms, and the transform all but the medium one in frames
/// of 20 ms at most.
pub proof fn lemma_heads(config: int)
    requires
        0 <= config < 32,
    ensures
        ({
            let m = packet::mode_of(config);
            let bw = packet::bandwidth_of(config);
            let n = packet::frame_size_of(config).samples();
            &&& m == Mode::SilkOnly ==> bw == Bandwidth::NarrowBand || bw == Bandwidth::MediumBand || bw
                == Bandwidth::WideBand
            &&& m == Mode::SilkOnly ==> n == 480 || n == 960 || n == 1920 || n == 2880
            &&& m == Mode::Hybrid ==> bw == Bandwidth::SuperWideBand || bw == Bandwidth::FullBand
            &&& m == Mode::Hybrid ==> n == 480 || n == 960
            &&& m == Mode::CeltOnly ==> bw != Bandwidth::MediumBand
            &&& m == Mode::CeltOnly ==> n == 120 || n == 240 || n == 480 || n == 960
        }),
{
}

/// No two configurations are of one mode, bandwidth and duration, and in each mode the
/// bandwidths widen and the durations grow with the configuration.
pub proof fn lemma_heads_differ(a: int, b: int)
    requires
        0 <= a < b < 32,
    ensures
        packet::mode_of(a) != packet::mode_of(b) || packet::bandwidth_of(a) != packet::bandwidth_of(b)
            || packet::frame_size_of(a).samples() != packet::frame_size_of(b).samples(),
        packet::mode_of(a) == packet::mode_of(b) ==> packet::bandwidth_of(a).rank_spec() <= packet::bandwidth_of(
            b,
        ).rank_spec(),
        packet::mode_of(a) == packet::mode_of(b) && packet::bandwidth_of(a) == packet::bandwidth_of(b)
            ==> packet::frame_size_of(a).samples() < packet::frame_size_of(b).samples(),
        a < 12 <= b ==> packet::mode_of(a) == Mode::SilkOnly && packet::mode_of(b) != Mode::SilkOnly,
        a < 16 <= b ==> packet::mode_of(a) != Mode::CeltOnly && packet::mode_of(b) == Mode::CeltOnly,
{
}

/// The frame sizes are 2.5, 5, 10, 20, 40 and 60 ms at 48 kHz.
pub proof fn lemma_durations(f: FrameSize)
    ensures
        f.samples() * 1000 == 48 * match f {
            FrameSize::Ms2_5 => 2_500int,
            FrameSize::Ms5 => 5_000,
            FrameSize::Ms10 => 10_000,
            FrameSize::Ms20 => 20_000,
            FrameSize::Ms40 => 40_000,
            FrameSize::Ms60 => 60_000,
        },
{
}

/// The narrower of two bandwidths is one of them and no wider than either; wider ones rank
/// higher.
pub proof fn lemma_narrower(a: Bandwidth, b: Bandwidth)
    ensures
        a.narrower_spec(b) == a || a.narrower_spec(b) == b,
        a.narrower_spec(b).rank_spec() <= a.rank_spec(),
        a.narrower_spec(b).rank_spec() <= b.rank_spec(),
        a.narrower_spec(b) == b.narrower_spec(a),
        a.narrower_spec(Bandwidth::FullBand) == a,
        a.narrower_spec(Bandwidth::NarrowBand) == Bandwidth::NarrowBand,
        a == Bandwidth::NarrowBand && b == Bandwidth::MediumBand ==> a.narrower_spec(b) == a,
        a == Bandwidth::MediumBand && b == Bandwidth::WideBand ==> a.narrower_spec(b) == a,
        a == Bandwidth::WideBand && b == Bandwidth::SuperWideBand ==> a.narrower_spec(b) == a,
        a == Bandwidth::SuperWideBand && b == Bandwidth::FullBand ==> a.narrower_spec(b) == a,
{
}

} // verus!
