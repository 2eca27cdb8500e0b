//! What the two coders promise each other: the decoder reads from a finished
//! buffer the symbols that the encoder put in, and ends in the same interval.

use vstd::arithmetic::power2::{lemma2_to64, lemma_pow2_adds, lemma_pow2_pos, lemma_pow2_strictly_increases, lemma_pow2_unfold, pow2};
use vstd::prelude::*;

use crate::math;
use crate::range::decoder::{self, DecoderState, BIT_LIMIT};
use crate::range::encoder::{self, lemma_bits_value, lemma_flush, EncoderState};

verus! {

/// A symbol and the way it is coded.
pub enum Symbol {
    /// A bit whose probability of being set is `2^-logp`.
    Bit { bit: bool, logp: int },
    /// Entry `k` of an inverse cumulative table of total `2^ftb`.
    Entry { k: int, icdf: Seq<u8>, ftb: int },
    /// The part `[fl, fh)` out of `ft`.
    Part { fl: int, fh: int, ft: int },
    /// An `n`-bit value, raw.
    Raw { v: int, n: int },
    /// A uniform value out of `ft`.
    Uniform { v: int, ft: int },
    /// A new size of the buffer, of which the decoder learns nothing.
    Resize { size: int },
}

impl Symbol {
    /// Whether the symbol can be coded at all.
    pub open spec fn legal(self) -> bool {
        match self {
            Symbol::Bit { bit, logp } => 0 < logp <= 16,
            Symbol::Entry { k, icdf, ftb } => {
                &&& decoder::icdf_ok(icdf, ftb)
                &&& 0 <= k < icdf.len()
                &&& k > 0 ==> icdf[k - 1] > icdf[k]
                &&& k == 0 ==> icdf[0] < pow2(ftb as nat)
                &&& forall|j: int| 0 <= j < k ==> #[trigger] icdf[j] >= icdf[k - 1]
            },
            Symbol::Part { fl, fh, ft } => 0 <= fl < fh <= ft <= 0x1_0000,
            Symbol::Raw { v, n } => 0 <= n <= 25 && 0 <= v < pow2(n as nat),
            Symbol::Uniform { v, ft } => 0 <= v < ft && 1 < ft <= 0xFFFF_FFFF,
            Symbol::Resize { size } => size >= 0,
        }
    }

    /// The encoder after the symbol.
    pub open spec fn put(self, e: EncoderState) -> EncoderState {
        match self {
            Symbol::Bit { bit, logp } => e.after_bit(bit, logp),
            Symbol::Entry { k, icdf, ftb } => e.after_icdf(k, icdf, ftb),
            Symbol::Part { fl, fh, ft } => e.narrowed(fl, fh, ft),
            Symbol::Raw { v, n } => e.after_raw(v, n),
            Symbol::Uniform { v, ft } => e.after_uint(v, ft),
            Symbol::Resize { size } => EncoderState { size, ..e },
        }
    }

    /// The decoder after a symbol of this kind.
    pub open spec fn take(self, d: DecoderState) -> DecoderState {
        match self {
            Symbol::Bit { bit, logp } => d.after_bit(logp),
            Symbol::Entry { k, icdf, ftb } => d.after_icdf(icdf, ftb),
            Symbol::Part { fl, fh, ft } => d.narrowed(fl, fh, ft),
            Symbol::Raw { v, n } => d.after_raw(n),
            Symbol::Uniform { v, ft } => d.after_uint(ft),
            Symbol::Resize { size } => d,
        }
    }

    /// Whether the decoder reads this symbol.
    pub open spec fn is_next(self, d: DecoderState) -> bool {
        match self {
            Symbol::Bit { bit, logp } => d.bit(logp) == bit,
            Symbol::Entry { k, icdf, ftb } => d.icdf(icdf, ftb) == k,
            Symbol::Part { fl, fh, ft } => fl <= d.freq(ft) < fh,
            Symbol::Raw { v, n } => d.raw_bits(n) == v,
            Symbol::Uniform { v, ft } => d.uint(ft) == v,
            Symbol::Resize { size } => true,
        }
    }
}

/// The encoder after a list of symbols.
pub open spec fn put_all(e: EncoderState, symbols: Seq<Symbol>) -> EncoderState
    decreases symbols.len(),
{
    if symbols.len() == 0 {
        e
    } else {
        put_all(symbols[0].put(e), symbols.drop_first())
    }
}

/// The decoder after a list of symbols.
pub open spec fn take_all(d: DecoderState, symbols: Seq<Symbol>) -> DecoderState
    decreases symbols.len(),
{
    if symbols.len() == 0 {
        d
    } else {
        take_all(symbols[0].take(d), symbols.drop_first())
    }
}

/// Whether the decoder reads a list of symbols.
pub open spec fn reads(d: DecoderState, symbols: Seq<Symbol>) -> bool
    decreases symbols.len(),
{
    symbols.len() == 0 || (symbols[0].is_next(d) && reads(symbols[0].take(d), symbols.drop_first()))
}

/// A byte of a buffer; zero beyond it.
pub open spec fn byte_at(data: Seq<u8>, i: int) -> int {
    if 0 <= i < data.len() {
        data[i] as int
    } else {
        0
    }
}

/// The number that the first `n` bytes spell.
pub open spec fn prefix(data: Seq<u8>, n: nat) -> int
    decreases n,
{
    if n == 0 {
        0
    } else {
        prefix(data, (n - 1) as nat) * 256 + byte_at(data, n - 1)
    }
}

/// The first `31 + 8 * count` bits of a buffer.
pub open spec fn window(data: Seq<u8>, count: nat) -> int {
    prefix(data, count + 4) / 2
}

/// Whether the fraction that a buffer spells lies in the encoder's interval.
pub open spec fn contains(e: EncoderState, data: Seq<u8>) -> bool {
    e.low <= window(data, e.count) < e.low + e.rng
}

/// The raw bits of the encoder are those at the back of the buffer.
pub open spec fn raw_agrees(raw: Seq<bool>, data: Seq<u8>) -> bool {
    &&& raw.len() <= 8 * data.len()
    &&& forall|p: int|
        0 <= p < raw.len() ==> (#[trigger] raw[p] <==> decoder::raw_bit(data, p) == 1)
}

/// Whether a buffer whose raw bits are `whole` can come of the encoder's state:
/// its fraction lies in the interval, and its raw bits go on from the encoder's.
pub open spec fn leads_to(e: EncoderState, data: Seq<u8>, whole: Seq<bool>) -> bool {
    contains(e, data) && raw_prefix(e.raw, whole) && raw_agrees(whole, data)
}

/// The decoder stands where the encoder stood.
pub open spec fn agrees(e: EncoderState, d: DecoderState) -> bool {
    &&& d.rng == e.rng
    &&& d.bits == e.bits
    &&& d.val == e.low + e.rng - 1 - window(d.data, e.count)
    &&& d.offs == math::min(e.count as int + 4, d.data.len() as int)
    &&& d.rem == byte_at(d.data, e.count as int + 3)
    &&& d.raw == e.raw.len()
}

/// The bits used do not shrink from one state to a later one, as long as they can be
/// counted.
pub open spec fn grows(a: EncoderState, b: EncoderState) -> bool {
    a.bits <= b.bits && (b.bits < BIT_LIMIT ==> a.tell() <= b.tell())
}

/// The decoder of a buffer that stands where the encoder stands.
pub open spec fn mate(e: EncoderState, data: Seq<u8>) -> DecoderState {
    DecoderState {
        data,
        offs: math::min(e.count as int + 4, data.len() as int),
        rem: byte_at(data, e.count as int + 3),
        rng: e.rng,
        val: e.low + e.rng - 1 - window(data, e.count),
        raw: e.raw.len() as int,
        bits: e.bits,
    }
}

proof fn lemma_prefix(data: Seq<u8>, n: nat)
    ensures
        prefix(data, n) >= 0,
    decreases n,
{
    if n > 0 {
        lemma_prefix(data, (n - 1) as nat);
    }
}

proof fn lemma_shift(e: EncoderState, d: DecoderState)
    requires
        agrees(e, d),
    ensures
        agrees(e.shift_out(), d.shift_in()),
        window(d.data, e.count + 1) / 256 == window(d.data, e.count),
{
    let x = prefix(d.data, e.count + 4);
    lemma_prefix(d.data, e.count + 4);
    lemma_prefix(d.data, e.count + 3);
    let y = prefix(d.data, e.count + 3);
    let b = byte_at(d.data, e.count as int + 4);
    assert(x == y * 256 + d.rem);
    assert(prefix(d.data, e.count + 5) == x * 256 + b);
    assert(d.next_byte() == b);
}

proof fn lemma_norm(e: EncoderState, d: DecoderState)
    requires
        agrees(e, d),
        0 < e.rng,
    ensures
        agrees(e.normalized(), d.normalized()),
        contains(e.normalized(), d.data) <==> contains(e, d.data),
        d.normalized().data == d.data,
        e.normalized().size == e.size,
        e.normalized().raw == e.raw,
    decreases 0x8000_0000 - e.rng,
{
    reveal(EncoderState::normalized);
    reveal(DecoderState::normalized);
    if e.rng <= 0x80_0000 {
        lemma_shift(e, d);
        lemma_norm(e.shift_out(), d.shift_in());
    }
}

proof fn lemma_norm_wf(e: EncoderState)
    requires
        e.in_range(),
    ensures
        e.normalized().wf(),
        e.normalized().size == e.size,
        e.normalized().raw == e.raw,
        grows(e, e.normalized()),
    decreases 0x8000_0000 - e.rng,
{
    reveal(EncoderState::normalized);
    if e.rng <= 0x80_0000 {
        let p = encoder::pow256(e.count);
        assert(encoder::pow256(e.count + 1) == 256 * p);
        lemma_norm_wf(e.shift_out());
        math::lemma_ilog(e.rng);
        let k = math::ilog(e.rng) as nat;
        lemma_pow2_adds(k, 8);
        lemma2_to64();
        math::lemma_ilog_le(e.rng * 256, k + 8);
    }
}

/// Where a symbol takes the part of size `rng` that starts `d` above the start
/// of the interval, the decoder of a buffer in that part takes the same.
proof fn lemma_part(e: EncoderState, d: DecoderState, off: int, rng: int)
    requires
        agrees(e, d),
        e.wf(),
        0 <= off,
        0 < rng,
        off + rng <= e.rng,
    ensures
        e.part(off, rng).wf(),
        e.part(off, rng).raw == e.raw,
        e.part(off, rng).size == e.size,
        grows(e, e.part(off, rng)),
        contains(e.part(off, rng), d.data) ==> {
            let top = e.rng - off - rng;
            &&& contains(e, d.data)
            &&& top <= d.val < top + rng
            &&& agrees(e.part(off, rng), (DecoderState { val: d.val - top, rng, ..d }).normalized())
            &&& (DecoderState { val: d.val - top, rng, ..d }).normalized().data == d.data
        },
{
    let next = EncoderState { low: e.low + off, rng, ..e };
    lemma_norm_wf(next);
    math::lemma_ilog(e.rng);
    math::lemma_ilog_le(rng, math::ilog(e.rng) as nat);
    let top = e.rng - off - rng;
    let dec = DecoderState { val: d.val - top, rng, ..d };
    lemma_norm(next, dec);
}

proof fn lemma_quotient(rng: int, p: int)
    requires
        0x80_0000 < rng <= 0x8000_0000,
        0 < p <= 0x1_0000,
    ensures
        0 < rng / p,
        p * (rng / p) <= rng,
        p >= 2 ==> 2 * (rng / p) <= rng,
{
    math::lemma_div(rng, p);
    let q = rng / p;
    if q == 0 {
        assert(p * q == 0) by (nonlinear_arith)
            requires
                q == 0,
        ;
    }
    if p >= 2 {
        assert(2 * q <= p * q) by (nonlinear_arith)
            requires
                q >= 0,
                p >= 2,
        ;
    }
}

proof fn lemma_bit(e: EncoderState, d: DecoderState, bit: bool, logp: int)
    requires
        agrees(e, d),
        e.wf(),
        0 < logp <= 16,
    ensures
        e.after_bit(bit, logp).wf(),
        e.after_bit(bit, logp).raw == e.raw,
        grows(e, e.after_bit(bit, logp)),
        contains(e.after_bit(bit, logp), d.data) ==> {
            &&& contains(e, d.data)
            &&& d.bit(logp) == bit
            &&& agrees(e.after_bit(bit, logp), d.after_bit(logp))
            &&& d.after_bit(logp).data == d.data
        },
{
    reveal(EncoderState::after_bit);
    reveal(DecoderState::after_bit);
    reveal(DecoderState::bit);
    lemma2_to64();
    if logp > 1 {
        lemma_pow2_strictly_increases(1, logp as nat);
    }
    if logp < 16 {
        lemma_pow2_strictly_increases(logp as nat, 16);
    }
    let p = pow2(logp as nat) as int;
    lemma_quotient(e.rng, p);
    let s = e.rng / p;
    if bit {
        lemma_part(e, d, e.rng - s, s);
        assert(DecoderState { val: d.val - 0, rng: s, ..d } == DecoderState { rng: s, ..d });
    } else {
        lemma_part(e, d, 0, e.rng - s);
    }
}

proof fn lemma_narrowed(e: EncoderState, d: DecoderState, fl: int, fh: int, ft: int)
    requires
        agrees(e, d),
        e.wf(),
        0 <= fl < fh <= ft <= 0x1_0000,
    ensures
        e.narrowed(fl, fh, ft).wf(),
        e.narrowed(fl, fh, ft).raw == e.raw,
        grows(e, e.narrowed(fl, fh, ft)),
        contains(e.narrowed(fl, fh, ft), d.data) ==> {
            &&& contains(e, d.data)
            &&& fl <= d.freq(ft) < fh
            &&& agrees(e.narrowed(fl, fh, ft), d.narrowed(fl, fh, ft))
            &&& d.narrowed(fl, fh, ft).data == d.data
        },
{
    reveal(EncoderState::narrowed);
    reveal(DecoderState::narrowed);
    lemma_quotient(e.rng, ft);
    let ext = e.rng / ft;
    let top = ext * (ft - fh);
    let size = ext * (fh - fl);
    let below = ext * (ft - fl);
    assert(below == top + size) by (nonlinear_arith)
        requires
            below == ext * (ft - fl),
            top == ext * (ft - fh),
            size == ext * (fh - fl),
    ;
    assert(0 <= top && 0 < size) by (nonlinear_arith)
        requires
            top == ext * (ft - fh),
            size == ext * (fh - fl),
            ext > 0,
            fl < fh <= ft,
    ;
    assert(below <= ft * ext) by (nonlinear_arith)
        requires
            below == ext * (ft - fl),
            ext > 0,
            fl >= 0,
    ;
    let off = if fl > 0 {
        e.rng - below
    } else {
        0
    };
    let rng = if fl > 0 {
        size
    } else {
        e.rng - top
    };
    lemma_part(e, d, off, rng);
    if contains(e.narrowed(fl, fh, ft), d.data) {
        let q = d.val / ext;
        math::lemma_div(d.val, ext);
        assert(q >= ft - fh) by (nonlinear_arith)
            requires
                d.val >= ext * (ft - fh),
                d.val < ext * q + ext,
                ext > 0,
        ;
        if fl > 0 {
            assert(q < ft - fl) by (nonlinear_arith)
                requires
                    d.val < ext * (ft - fl),
                    d.val >= ext * q,
                    ext > 0,
            ;
        }
    }
}

proof fn lemma_entry_search(icdf: Seq<u8>, r: int, val: int, j: int, k: int)
    requires
        0 <= j <= k < icdf.len(),
        forall|i: int| j <= i < k ==> val < r * #[trigger] icdf[i],
        val >= r * icdf[k] || k + 1 == icdf.len(),
    ensures
        decoder::icdf_symbol(icdf, r, val, j) == k,
    decreases k - j,
{
    if j < k {
        assert(val < r * icdf[j]);
        lemma_entry_search(icdf, r, val, j + 1, k);
    }
}

proof fn lemma_entry(e: EncoderState, d: DecoderState, k: int, icdf: Seq<u8>, ftb: int)
    requires
        agrees(e, d),
        e.wf(),
        (Symbol::Entry { k, icdf, ftb }).legal(),
    ensures
        e.after_icdf(k, icdf, ftb).wf(),
        e.after_icdf(k, icdf, ftb).raw == e.raw,
        grows(e, e.after_icdf(k, icdf, ftb)),
        contains(e.after_icdf(k, icdf, ftb), d.data) ==> {
            &&& contains(e, d.data)
            &&& d.icdf(icdf, ftb) == k
            &&& agrees(e.after_icdf(k, icdf, ftb), d.after_icdf(icdf, ftb))
            &&& d.after_icdf(icdf, ftb).data == d.data
        },
{
    reveal(EncoderState::after_icdf);
    reveal(DecoderState::after_icdf);
    reveal(DecoderState::icdf);
    lemma2_to64();
    if ftb < 8 {
        lemma_pow2_strictly_increases(ftb as nat, 8);
    }
    lemma_pow2_pos(ftb as nat);
    let p = pow2(ftb as nat) as int;
    lemma_quotient(e.rng, p);
    let r = e.rng / p;
    let low = r * icdf[k];
    let lk = icdf[k] as int;
    assert(0 <= low) by (nonlinear_arith)
        requires
            low == r * lk,
            r > 0,
            lk >= 0,
    ;
    if k > 0 {
        let hk = icdf[k - 1] as int;
        let high = r * icdf[k - 1];
        assert(hk <= p);
        assert(high <= p * r && r * (hk - lk) == high - low && low < high) by (nonlinear_arith)
            requires
                high == r * hk,
                low == r * lk,
                r > 0,
                lk < hk <= p,
        ;
        lemma_part(e, d, e.rng - high, high - low);
        if contains(e.after_icdf(k, icdf, ftb), d.data) {
            assert forall|i: int| 0 <= i < k implies d.val < r * #[trigger] icdf[i] by {
                let hi = icdf[i] as int;
                assert(r * hi >= high) by (nonlinear_arith)
                    requires
                        high == r * hk,
                        hi >= hk,
                        r > 0,
                ;
            }
            lemma_entry_search(icdf, r, d.val, 0, k);
        }
    } else {
        assert(low < p * r) by (nonlinear_arith)
            requires
                low == r * lk,
                r > 0,
                lk < p,
        ;
        lemma_part(e, d, 0, e.rng - low);
        if contains(e.after_icdf(k, icdf, ftb), d.data) {
            lemma_entry_search(icdf, r, d.val, 0, 0);
        }
    }
}

proof fn lemma_bits_read(data: Seq<u8>, raw: Seq<bool>, p: int, v: int, n: nat)
    requires
        0 <= p,
        p + n <= raw.len(),
        raw_agrees(raw, data),
        0 <= v < pow2(n),
        forall|i: int| 0 <= i < n ==> (#[trigger] raw[p + i] <==> encoder::bit_of(v, i as nat)),
    ensures
        decoder::raw_value(data, p, n) == v,
    decreases n,
{
    lemma2_to64();
    if n > 0 {
        lemma_pow2_unfold(n);
        assert forall|i: int| 0 <= i < n - 1 implies (#[trigger] raw[p + 1 + i] <==> encoder::bit_of(
            v / 2,
            i as nat,
        )) by {
            assert(raw[p + (i + 1)] <==> encoder::bit_of(v, (i + 1) as nat));
            lemma_pow2_unfold((i + 1) as nat);
            lemma_pow2_pos(i as nat);
            let q = pow2(i as nat) as int;
            vstd::arithmetic::div_mod::lemma_div_denominator(v, 2, q);
        }
        lemma_bits_read(data, raw, p + 1, v / 2, (n - 1) as nat);
        assert(raw[p + 0] <==> encoder::bit_of(v, 0));
        assert(v / 1 == v);
        assert(decoder::raw_bit(data, p) == 0 || decoder::raw_bit(data, p) == 1);
    }
}

/// A list of bits starts another.
pub open spec fn raw_prefix(raw: Seq<bool>, whole: Seq<bool>) -> bool {
    raw.len() <= whole.len() && raw == whole.take(raw.len() as int)
}

proof fn lemma_raw(e: EncoderState, d: DecoderState, v: int, n: int, whole: Seq<bool>)
    requires
        agrees(e, d),
        e.wf(),
        (Symbol::Raw { v, n }).legal(),
    ensures
        e.after_raw(v, n).wf(),
        grows(e, e.after_raw(v, n)),
        d.after_raw(n).data == d.data,
        contains(e.after_raw(v, n), d.data) == contains(e, d.data),
        raw_prefix(e.after_raw(v, n).raw, whole) ==> raw_prefix(e.raw, whole),
        raw_prefix(e.after_raw(v, n).raw, whole) && raw_agrees(whole, d.data) ==> {
            &&& d.raw_bits(n) == v
            &&& agrees(e.after_raw(v, n), d.after_raw(n))
        },
{
    reveal(EncoderState::after_raw);
    reveal(DecoderState::after_raw);
    reveal(DecoderState::raw_bits);
    let next = e.after_raw(v, n).raw;
    if raw_prefix(next, whole) {
        assert(e.raw =~= whole.take(e.raw.len() as int)) by {
            assert forall|i: int| 0 <= i < e.raw.len() implies e.raw[i] == whole[i] by {
                assert(next[i] == e.raw[i]);
            }
        }
        if raw_agrees(whole, d.data) {
            let p = e.raw.len() as int;
            assert forall|i: int| 0 <= i < n implies (#[trigger] whole[p + i] <==> encoder::bit_of(v, i as nat)) by {
                assert(next[p + i] == encoder::bits_of(v, n as nat)[i]);
            }
            lemma_bits_read(d.data, whole, p, v, n as nat);
        }
    }
}

proof fn lemma_uniform(e: EncoderState, d: DecoderState, v: int, ft: int, whole: Seq<bool>)
    requires
        agrees(e, d),
        e.wf(),
        (Symbol::Uniform { v, ft }).legal(),
    ensures
        e.after_uint(v, ft).wf(),
        grows(e, e.after_uint(v, ft)),
        raw_prefix(e.after_uint(v, ft).raw, whole) ==> raw_prefix(e.raw, whole),
        contains(e.after_uint(v, ft), d.data) && raw_prefix(e.after_uint(v, ft).raw, whole) && raw_agrees(
            whole,
            d.data,
        ) ==> {
            &&& contains(e, d.data)
            &&& d.uint(ft) == v
            &&& agrees(e.after_uint(v, ft), d.after_uint(ft))
            &&& d.after_uint(ft).data == d.data
        },
{
    reveal(EncoderState::after_uint);
    reveal(DecoderState::after_uint);
    reveal(DecoderState::uint);
    decoder::lemma_uint_split(ft);
    let low = DecoderState::uint_low_bits(ft);
    let p = pow2(low as nat) as int;
    let total = DecoderState::uint_total(ft);
    lemma_pow2_pos(low as nat);
    math::lemma_div(v, p);
    vstd::arithmetic::div_mod::lemma_div_is_ordered(v, ft - 1, p);
    let high = v / p;
    lemma_narrowed(e, d, high, high + 1, total);
    let coded = e.narrowed(high, high + 1, total);
    vstd::arithmetic::div_mod::lemma_fundamental_div_mod(v, p);
    assert(p * high == high * p) by (nonlinear_arith);
    if low > 0 {
        let mid = d.narrowed(high, high + 1, total);
        if contains(coded, d.data) {
            lemma_raw(coded, mid, v % p, low, whole);
        } else {
            reveal(EncoderState::after_raw);
            assert(!contains(coded.after_raw(v % p, low), d.data));
        }
        lemma_raw_wf(coded, v % p, low, e.raw, whole);
    } else {
        lemma2_to64();
        assert(v / 1 == v);
    }
}

proof fn lemma_raw_wf(e: EncoderState, v: int, n: int, raw: Seq<bool>, whole: Seq<bool>)
    requires
        e.wf(),
        n >= 0,
        e.raw == raw,
    ensures
        e.after_raw(v, n).wf(),
        grows(e, e.after_raw(v, n)),
        raw_prefix(e.after_raw(v, n).raw, whole) ==> raw_prefix(raw, whole),
{
    reveal(EncoderState::after_raw);
    let next = e.after_raw(v, n).raw;
    if raw_prefix(next, whole) {
        assert(raw =~= whole.take(raw.len() as int)) by {
            assert forall|i: int| 0 <= i < raw.len() implies raw[i] == whole[i] by {
                assert(next[i] == raw[i]);
            }
        }
    }
}

/// Where the decoder stands where the encoder stood, it reads the symbol that
/// the encoder put next, and stands where the encoder stands then.
pub proof fn lemma_symbol(e: EncoderState, d: DecoderState, s: Symbol, whole: Seq<bool>)
    requires
        agrees(e, d),
        e.wf(),
        s.legal(),
    ensures
        s.put(e).wf(),
        grows(e, s.put(e)),
        raw_prefix(s.put(e).raw, whole) ==> raw_prefix(e.raw, whole),
        leads_to(s.put(e), d.data, whole) ==> {
            &&& leads_to(e, d.data, whole)
            &&& s.is_next(d)
            &&& agrees(s.put(e), s.take(d))
            &&& s.take(d).data == d.data
        },
{
    match s {
        Symbol::Bit { bit, logp } => lemma_bit(e, d, bit, logp),
        Symbol::Entry { k, icdf, ftb } => lemma_entry(e, d, k, icdf, ftb),
        Symbol::Part { fl, fh, ft } => lemma_narrowed(e, d, fl, fh, ft),
        Symbol::Raw { v, n } => lemma_raw(e, d, v, n, whole),
        Symbol::Uniform { v, ft } => lemma_uniform(e, d, v, ft, whole),
        Symbol::Resize { size } => {},
    }
}

/// A buffer that can come of the state after a symbol can come of the one before.
pub proof fn lemma_symbol_back(e: EncoderState, data: Seq<u8>, s: Symbol, whole: Seq<bool>)
    requires
        e.wf(),
        s.legal(),
    ensures
        s.put(e).wf(),
        grows(e, s.put(e)),
        leads_to(s.put(e), data, whole) ==> leads_to(e, data, whole),
{
    let d = mate(e, data);
    lemma_symbol(e, d, s, whole);
}

/// Where the decoder stands where the encoder stood, it stands so behind a symbol too.
pub proof fn lemma_mate(e: EncoderState, data: Seq<u8>, s: Symbol, whole: Seq<bool>)
    requires
        e.wf(),
        s.legal(),
    ensures
        s.put(e).wf(),
        grows(e, s.put(e)),
        leads_to(s.put(e), data, whole) ==> {
            &&& leads_to(e, data, whole)
            &&& s.is_next(mate(e, data))
            &&& s.take(mate(e, data)) == mate(s.put(e), data)
        },
{
    lemma_symbol(e, mate(e, data), s, whole);
    if leads_to(s.put(e), data, whole) {
        assert(s.take(mate(e, data)) =~= mate(s.put(e), data));
    }
}

/// Both ends count the same.
pub proof fn lemma_mate_tell(e: EncoderState, data: Seq<u8>)
    ensures
        mate(e, data).tell_frac() == e.tell_frac(),
        mate(e, data).tell() == e.tell(),
{
    reveal(EncoderState::tell_frac);
    reveal(DecoderState::tell_frac);
}

/// Precision grows by three bytes at most.
proof fn lemma_norm_bits(e: EncoderState)
    ensures
        e.bits <= BIT_LIMIT ==> e.normalized().bits <= e.bits + 24,
{
    reveal_with_fuel(EncoderState::normalized, 5);
}

/// A symbol takes at most 24 bits besides its raw bits.
pub proof fn lemma_symbol_bits(e: EncoderState, s: Symbol)
    requires
        e.wf(),
        s.legal(),
        s matches Symbol::Raw { n, .. } ==> n <= 24,
        s matches Symbol::Uniform { ft, .. } ==> ft <= 257,
    ensures
        e.bits <= s.put(e).bits <= e.bits + 48,
{
    reveal(EncoderState::narrowed);
    reveal(EncoderState::after_bit);
    reveal(EncoderState::after_icdf);
    reveal(EncoderState::after_raw);
    reveal(EncoderState::after_uint);
    lemma_symbol_back(e, Seq::empty(), s, Seq::empty());
    match s {
        Symbol::Bit { bit, logp } => {
            let r = e.rng / pow2(logp as nat) as int;
            if bit {
                lemma_norm_bits(EncoderState { low: e.low + (e.rng - r), rng: r, ..e });
            } else {
                lemma_norm_bits(EncoderState { low: e.low + 0, rng: e.rng - r, ..e });
            }
        },
        Symbol::Entry { k, icdf, ftb } => {
            let r = e.rng / pow2(ftb as nat) as int;
            if k > 0 {
                lemma_norm_bits(
                    EncoderState {
                        low: e.low + (e.rng - r * icdf[k - 1]),
                        rng: r * (icdf[k - 1] - icdf[k]),
                        ..e
                    },
                );
            } else {
                lemma_norm_bits(EncoderState { low: e.low + 0, rng: e.rng - r * icdf[0], ..e });
            }
        },
        Symbol::Part { fl, fh, ft } => lemma_narrowed_bits(e, fl, fh, ft),
        Symbol::Raw { .. } => {},
        Symbol::Uniform { v, ft } => {
            let low = DecoderState::uint_low_bits(ft);
            let p = pow2(low as nat) as int;
            lemma_narrowed_bits(e, v / p, v / p + 1, DecoderState::uint_total(ft));
            lemma2_to64();
            math::lemma_ilog_le(ft - 1, 9nat);
        },
        Symbol::Resize { .. } => {},
    }
}

proof fn lemma_narrowed_bits(e: EncoderState, fl: int, fh: int, ft: int)
    requires
        e.wf(),
    ensures
        e.narrowed(fl, fh, ft).bits <= e.bits + 24,
{
    reveal(EncoderState::narrowed);
    let ext = e.rng / ft;
    if fl > 0 {
        lemma_norm_bits(EncoderState { low: e.low + (e.rng - ext * (ft - fl)), rng: ext * (fh - fl), ..e });
    } else {
        lemma_norm_bits(EncoderState { low: e.low + 0, rng: e.rng - ext * (ft - fh), ..e });
    }
}

proof fn lemma_norm_cap(e: EncoderState, m: nat)
    requires
        e.in_range(),
        e.rng <= pow2(m),
        e.normalized().bits < BIT_LIMIT,
    ensures
        e.normalized().bits >= e.bits,
        e.normalized().rng <= pow2((m + e.normalized().bits - e.bits) as nat),
    decreases 0x8000_0000 - e.rng,
{
    reveal(EncoderState::normalized);
    lemma_norm_wf(e);
    if e.rng <= 0x80_0000 {
        let next = e.shift_out();
        let p = encoder::pow256(e.count);
        assert(encoder::pow256(e.count + 1) == 256 * p);
        lemma_norm_wf(next);
        lemma_pow2_adds(m, 8);
        lemma2_to64();
        lemma_norm_cap(next, m + 8);
    }
}

/// The interval after a bit, before precision grows again.
proof fn lemma_bit_part(e: EncoderState, bit: bool, logp: int)
    requires
        e.wf(),
        0 < logp <= 16,
    ensures
        ({
            let s = e.rng / pow2(logp as nat) as int;
            let next = if bit {
                EncoderState { low: e.low + (e.rng - s), rng: s, ..e }
            } else {
                EncoderState { low: e.low + 0, rng: e.rng - s, ..e }
            };
            &&& e.after_bit(bit, logp) == next.normalized()
            &&& next.in_range()
            &&& next.rng < e.rng
            &&& logp == 1 ==> next.rng <= (e.rng + 1) / 2
        }),
{
    reveal(EncoderState::after_bit);
    lemma2_to64();
    if logp > 1 {
        lemma_pow2_strictly_increases(1, logp as nat);
    }
    if logp < 16 {
        lemma_pow2_strictly_increases(logp as nat, 16);
    }
    let p = pow2(logp as nat) as int;
    lemma_quotient(e.rng, p);
    let s = e.rng / p;
    assert(2 * s <= e.rng);
    if logp == 1 {
        assert(p == 2);
        assert(s == e.rng / 2);
    }
}

/// A bit of even odds and another bit take at least one bit together.
pub proof fn lemma_two_bits(e: EncoderState, a: bool, b: bool, logp: int)
    requires
        e.wf(),
        0 < logp <= 16,
    ensures
        ({
            let f = e.after_bit(a, 1).after_bit(b, logp);
            f.bits < BIT_LIMIT ==> f.tell() >= e.tell() + 1
        }),
{
    let e1 = e.after_bit(a, 1);
    let f = e1.after_bit(b, logp);
    lemma_bit_part(e, a, 1);
    lemma2_to64();
    let s1 = e.rng / 2;
    let x1 = if a {
        EncoderState { low: e.low + (e.rng - s1), rng: s1, ..e }
    } else {
        EncoderState { low: e.low + 0, rng: e.rng - s1, ..e }
    };
    assert(e1 == x1.normalized());
    lemma_norm_wf(x1);
    lemma_bit_part(e1, b, logp);
    let s2 = e1.rng / pow2(logp as nat) as int;
    let x2 = if b {
        EncoderState { low: e1.low + (e1.rng - s2), rng: s2, ..e1 }
    } else {
        EncoderState { low: e1.low + 0, rng: e1.rng - s2, ..e1 }
    };
    lemma_norm_wf(x2);
    if f.bits < BIT_LIMIT {
        math::lemma_ilog(e.rng);
        let k = math::ilog(e.rng);
        lemma_pow2_unfold(k as nat);
        lemma_norm_cap(x1, (k - 1) as nat);
        let grown = e1.bits - e.bits;
        math::lemma_ilog_le(x2.rng, (k - 1 + grown) as nat);
    }
}

/// What a list of symbols leaves of the encoder.
proof fn lemma_put_all(e: EncoderState, data: Seq<u8>, symbols: Seq<Symbol>)
    requires
        e.wf(),
        forall|i: int| 0 <= i < symbols.len() ==> (#[trigger] symbols[i]).legal(),
    ensures
        put_all(e, symbols).wf(),
        raw_prefix(e.raw, put_all(e, symbols).raw),
        contains(put_all(e, symbols), data) && raw_agrees(put_all(e, symbols).raw, data) ==> contains(e, data),
    decreases symbols.len(),
{
    let whole = put_all(e, symbols).raw;
    if symbols.len() == 0 {
        assert(e.raw =~= e.raw.take(e.raw.len() as int));
    } else {
        let s = symbols[0];
        let d = mate(e, data);
        lemma_symbol(e, d, s, whole);
        assert forall|i: int| 0 <= i < symbols.drop_first().len() implies (
        #[trigger] symbols.drop_first()[i]).legal() by {
            assert(symbols[i + 1].legal());
        }
        lemma_put_all(s.put(e), data, symbols.drop_first());
    }
}

proof fn lemma_reads(e: EncoderState, d: DecoderState, symbols: Seq<Symbol>)
    requires
        e.wf(),
        agrees(e, d),
        forall|i: int| 0 <= i < symbols.len() ==> (#[trigger] symbols[i]).legal(),
        contains(put_all(e, symbols), d.data),
        raw_agrees(put_all(e, symbols).raw, d.data),
    ensures
        reads(d, symbols),
        agrees(put_all(e, symbols), take_all(d, symbols)),
    decreases symbols.len(),
{
    if symbols.len() > 0 {
        let s = symbols[0];
        let whole = put_all(e, symbols).raw;
        let rest = symbols.drop_first();
        assert forall|i: int| 0 <= i < rest.len() implies (#[trigger] rest[i]).legal() by {
            assert(symbols[i + 1].legal());
        }
        lemma_symbol(e, d, s, whole);
        lemma_put_all(s.put(e), d.data, rest);
        lemma_reads(s.put(e), s.take(d), rest);
    }
}

proof fn lemma_first_step(x: int, rem: int, b: int, val: int, top: int)
    requires
        x >= 0,
        x % 256 == rem,
        0 <= b < 256,
        val == top - x / 2,
    ensures
        val * 256 + 255 - ((rem * 256 + b) / 2) % 256 == top * 256 + 255 - (x * 256 + b) / 2,
        (x * 256 + b) % 256 == b,
{
    let h = x / 256;
    let t = rem / 2;
    let half = b / 2;
    math::lemma_div(x, 256);
    math::lemma_div(rem, 2);
    math::lemma_div(b, 2);
    math::lemma_div_unique(x, 2, 128 * h + t);
    math::lemma_div_unique(x * 256 + b, 2, 128 * x + half);
    math::lemma_div_unique(rem * 256 + b, 2, 128 * rem + half);
    math::lemma_div_unique(128 * rem + half, 256, t);
    math::lemma_div(128 * rem + half, 256);
    math::lemma_div_unique(x * 256 + b, 256, x);
    math::lemma_div(x * 256 + b, 256);
}

proof fn lemma_first_shift(d: DecoderState)
    requires
        0 < d.rng <= 0x80_0000,
    ensures
        d.normalized() == d.shift_in().normalized(),
{
    reveal(DecoderState::normalized);
}

/// The decoder of a fresh buffer stands between two symbols.
pub proof fn lemma_start_wf(data: Seq<u8>)
    ensures
        DecoderState::start(data).wf(),
{
    lemma_start(0, data);
    let d = DecoderState::start(data);
    assert(prefix(data, 0) == 0);
    assert(prefix(data, 1) == prefix(data, 0) * 256 + byte_at(data, 0));
    assert(prefix(data, 2) == prefix(data, 1) * 256 + byte_at(data, 1));
    assert(prefix(data, 3) == prefix(data, 2) * 256 + byte_at(data, 2));
    assert(prefix(data, 4) == prefix(data, 3) * 256 + byte_at(data, 3));
    assert(0 <= prefix(data, 4) < 0x1_0000_0000);
}

/// Before the first symbol both ends stand at the same place.
pub proof fn lemma_start(size: int, data: Seq<u8>)
    ensures
        agrees(EncoderState::start(size), DecoderState::start(data)),
        DecoderState::start(data).data == data,
{
    let first = if data.len() > 0 {
        data[0] as int
    } else {
        0
    };
    let a = DecoderState {
        data,
        offs: if data.len() > 0 {
            1
        } else {
            0
        },
        rem: first,
        rng: 128,
        val: 127 - first / 2,
        raw: 0,
        bits: 9,
    };
    let b = a.shift_in();
    let c = b.shift_in();
    let d = c.shift_in();
    assert(DecoderState::start(data) == d) by {
        lemma_first_shift(a);
        lemma_first_shift(b);
        lemma_first_shift(c);
        reveal(DecoderState::normalized);
    }
    assert(prefix(data, 0) == 0);
    assert(prefix(data, 1) == first);
    lemma_prefix(data, 2);
    lemma_prefix(data, 3);
    assert(prefix(data, 2) == prefix(data, 1) * 256 + byte_at(data, 1));
    assert(prefix(data, 3) == prefix(data, 2) * 256 + byte_at(data, 2));
    assert(prefix(data, 4) == prefix(data, 3) * 256 + byte_at(data, 3));
    assert(b.val == 0x7FFF - prefix(data, 2) / 2) by {
        lemma_first_step(first, first, byte_at(data, 1), a.val, 0x7F);
    }
    assert(prefix(data, 2) % 256 == b.rem);
    assert(c.val == 0x7F_FFFF - prefix(data, 3) / 2) by {
        lemma_first_step(prefix(data, 2), b.rem, byte_at(data, 2), b.val, 0x7FFF);
    }
    assert(prefix(data, 3) % 256 == c.rem);
    assert(d.val == 0x7FFF_FFFF - prefix(data, 4) / 2) by {
        lemma_first_step(prefix(data, 3), c.rem, byte_at(data, 3), c.val, 0x7F_FFFF);
    }
}

proof fn lemma_prefix_split(data: Seq<u8>, front: Seq<u8>, n: nat, x: int)
    requires
        n <= front.len(),
        forall|i: int| 0 <= i < n ==> byte_at(data, i) == #[trigger] front[i],
        encoder::be_bytes(x, front.len()) == front,
        x >= 0,
    ensures
        prefix(data, n) == x / encoder::pow256((front.len() - n) as nat) % encoder::pow256(n),
    decreases n,
{
    lemma_be_bytes_at(x, front.len(), n as int);
    if n > 0 {
        lemma_prefix_split(data, front, (n - 1) as nat, x);
        lemma_be_bytes_at(x, front.len(), n - 1);
        let q = encoder::pow256((front.len() - n) as nat);
        lemma_pow256_pos((front.len() - n) as nat);
        lemma_pow256_pos((n - 1) as nat);
        assert(encoder::pow256((front.len() - n + 1) as nat) == 256 * q);
        let y = x / q;
        assert(x / (q * 256) == y / 256) by {
            vstd::arithmetic::div_mod::lemma_div_denominator(x, q, 256);
        }
        let m = encoder::pow256((n - 1) as nat);
        assert(encoder::pow256(n) == 256 * m);
        assert(q * 256 == 256 * q);
        vstd::arithmetic::div_mod::lemma_breakdown(y, 256, m);
    }
}

proof fn lemma_pow256_pos(n: nat)
    ensures
        encoder::pow256(n) > 0,
    decreases n,
{
    if n > 0 {
        lemma_pow256_pos((n - 1) as nat);
    }
}

proof fn lemma_be_bytes_at(x: int, n: nat, i: int)
    requires
        x >= 0,
    ensures
        encoder::be_bytes(x, n).len() == n,
        0 <= i < n ==> encoder::be_bytes(x, n)[i] == x / encoder::pow256((n - 1 - i) as nat) % 256,
    decreases n,
{
    if n > 0 {
        lemma_be_bytes_at(x / 256, (n - 1) as nat, i);
        if i == n - 1 {
            assert(x / 1 == x);
        } else if 0 <= i < n - 1 {
            let q = encoder::pow256((n - 2 - i) as nat);
            lemma_pow256_pos((n - 2 - i) as nat);
            assert(encoder::pow256((n - 1 - i) as nat) == 256 * q);
            vstd::arithmetic::div_mod::lemma_div_denominator(x, 256, q);
        }
    } else {
        assert(0 <= i < n ==> false);
    }
}

/// Later bytes add less than one to the number that earlier ones spell.
proof fn lemma_prefix_more(data: Seq<u8>, n: nat, j: nat)
    ensures
        prefix(data, n) * encoder::pow256(j) <= prefix(data, n + j) < (prefix(data, n) + 1) * encoder::pow256(j),
    decreases j,
{
    if j == 0 {
        assert(prefix(data, n) * 1 == prefix(data, n));
        assert((prefix(data, n) + 1) * 1 == prefix(data, n) + 1);
    } else {
        lemma_prefix_more(data, n, (j - 1) as nat);
        let q = encoder::pow256((j - 1) as nat);
        let x = prefix(data, n);
        assert(encoder::pow256(j) == 256 * q);
        assert(prefix(data, n + j) == prefix(data, (n + j - 1) as nat) * 256 + byte_at(data, n + j - 1));
        assert(x * (256 * q) == (x * q) * 256 && (x + 1) * (256 * q) == ((x + 1) * q) * 256) by (nonlinear_arith);
    }
}

proof fn lemma_bits_value_at(bits: Seq<bool>, p: int, n: nat, j: nat)
    requires
        0 <= p,
        j < n,
        p + j < bits.len(),
    ensures
        (encoder::bits_value(bits, p, n) / pow2(j) as int) % 2 == 1 <==> bits[p + j],
    decreases n,
{
    lemma2_to64();
    let rest = encoder::bits_value(bits, p + 1, (n - 1) as nat);
    let v = encoder::bits_value(bits, p, n);
    lemma_bits_value(bits, p + 1, (n - 1) as nat);
    if j == 0 {
        assert(v / 1 == v);
    } else {
        lemma_bits_value_at(bits, p + 1, (n - 1) as nat, (j - 1) as nat);
        lemma_pow2_unfold(j);
        lemma_pow2_pos((j - 1) as nat);
        let q = pow2((j - 1) as nat) as int;
        vstd::arithmetic::div_mod::lemma_div_denominator(v, 2, q);
        assert(v / 2 == rest);
    }
}

/// What the finished buffer is made of, byte by byte.
proof fn lemma_finished(st: EncoderState, i: int)
    requires
        st.wf(),
        st.fits(),
        0 <= i < st.size,
    ensures
        st.finished().len() == st.size,
        st.flush_bytes().len() == st.flush_len(),
        0 <= st.flush_spare() < 8,
        st.flush_len() == 0 ==> st.flush_spare() == 0,
        0 <= st.flush_value() * encoder::pow256(((st.flush_bits() + 7) / 8) as nat) / 0x8000_0000,
        ({
            let low = encoder::bits_value(st.raw, 8 * (st.size - 1 - i), 8);
            let front = st.flush_bytes();
            &&& i < st.flush_len() - 1 ==> low == 0 && st.finished()[i] == front[i]
            &&& i == st.flush_len() - 1 ==> {
                &&& 0 <= low < pow2(st.flush_spare() as nat)
                &&& front[i] as int % pow2(st.flush_spare() as nat) as int == 0
                &&& st.finished()[i] == front[i] + low
            }
            &&& i >= st.flush_len() ==> st.finished()[i] == low
        }),
{
    lemma_flush(st);
    lemma2_to64();
    let fb = st.flush_bits();
    let k = ((fb + 7) / 8) as nat;
    let spare = st.flush_spare();
    let n = st.flush_len();
    let m = pow2((31 - fb) as nat) as int;
    let q = (st.low + m - 1) / m;
    let fv = st.flush_value();
    assert(fv == m * q);
    reveal_with_fuel(encoder::pow256, 3);
    assert(encoder::pow256(0) == 1);
    assert(encoder::pow256(1) == 256);
    assert(encoder::pow256(2) == 65536);
    let x = fv * encoder::pow256(k) / 0x8000_0000;
    let u = pow2(spare as nat) as int;
    assert(fv >= 0);
    assert(x >= 0 && x % u == 0) by {
        assert(q >= 0) by (nonlinear_arith)
            requires
                m * q >= 0,
                m > 0,
        ;
        lemma_settled(fb, q);
    }
    let front = st.flush_bytes();
    lemma_be_bytes_at(x, n, i);
    lemma_bits_value(st.raw, 8 * (st.size - 1 - i), 8);
    if i == n - 1 {
        assert(x / 1 == x);
        assert(front[i] == x % 256);
        assert((x % 256) % u == 0) by {
            lemma_multiple(x, u);
        }
        let p = 8 * (st.size - 1 - i);
        if st.raw.len() >= p {
            let over = (st.raw.len() - p) as nat;
            if over < spare {
                lemma_pow2_strictly_increases(over, spare as nat);
            }
        } else {
            lemma_pow2_pos(spare as nat);
        }
        assert(front[i] + u <= 256) by {
            lemma_gap(front[i] as int, u);
        }
    }
}

proof fn lemma_multiple(x: int, u: int)
    requires
        u == 1 || u == 2 || u == 4 || u == 8 || u == 16 || u == 32 || u == 64 || u == 128,
        x % u == 0,
        x >= 0,
    ensures
        (x % 256) % u == 0,
{
    let v = if u == 1 {
        256int
    } else if u == 2 {
        128
    } else if u == 4 {
        64
    } else if u == 8 {
        32
    } else if u == 16 {
        16
    } else if u == 32 {
        8
    } else if u == 64 {
        4
    } else {
        2
    };
    assert(u * v == 256);
    vstd::arithmetic::div_mod::lemma_mod_mod(x, u, v);
}

proof fn lemma_gap(x: int, u: int)
    requires
        u == 1 || u == 2 || u == 4 || u == 8 || u == 16 || u == 32 || u == 64 || u == 128,
        x % u == 0,
        0 <= x < 256,
    ensures
        x + u <= 256,
{
}

/// A fraction with `fb` leading bits fills whole bytes but for the spare bits of
/// the last.
proof fn lemma_settled(fb: int, q: int)
    requires
        0 <= fb <= 9,
        q >= 0,
    ensures
        ({
            let k = ((fb + 7) / 8) as nat;
            let fv = pow2((31 - fb) as nat) as int * q;
            let x = fv * encoder::pow256(k) / 0x8000_0000;
            let u = pow2((8 * k - fb) as nat) as int;
            &&& x >= 0
            &&& x % u == 0
            &&& x * encoder::pow256((4 - k) as nat) == 2 * fv
            &&& u * encoder::pow256((4 - k) as nat) == pow2((32 - fb) as nat)
            &&& u == 1 || u == 2 || u == 4 || u == 8 || u == 16 || u == 32 || u == 64 || u == 128
        }),
{
    lemma2_to64();
    reveal_with_fuel(encoder::pow256, 5);
    assert(encoder::pow256(0) == 1);
    assert(encoder::pow256(1) == 256);
    assert(encoder::pow256(2) == 65536);
    assert(encoder::pow256(3) == 0x100_0000);
    assert(encoder::pow256(4) == 0x1_0000_0000);
    let k = ((fb + 7) / 8) as nat;
    let m = pow2((31 - fb) as nat) as int;
    let p = encoder::pow256(k);
    let w = encoder::pow256((4 - k) as nat);
    let u = pow2((8 * k - fb) as nat) as int;
    assert(m * p == u * 0x8000_0000 && u * w == 2 * m && (u == 1 || u == 2 || u == 4 || u == 8 || u == 16 || u == 32
        || u == 64 || u == 128)) by {
        assert(fb == 0 || fb == 1 || fb == 2 || fb == 3 || fb == 4 || fb == 5 || fb == 6 || fb == 7 || fb == 8 || fb
            == 9);
    }
    lemma_pow2_unfold((32 - fb) as nat);
    let fv = m * q;
    assert(fv * p == 0x8000_0000 * (u * q)) by (nonlinear_arith)
        requires
            fv == m * q,
            m * p == u * 0x8000_0000,
    ;
    math::lemma_div_unique(fv * p, 0x8000_0000, u * q);
    vstd::arithmetic::div_mod::lemma_mod_multiples_basic(q, u);
    assert(q * u == u * q && u * q >= 0 && (u * q) * w == 2 * fv) by (nonlinear_arith)
        requires
            u > 0,
            q >= 0,
            u * w == 2 * m,
            fv == m * q,
    ;
}

/// The finished buffer spells a fraction of the interval.
proof fn lemma_finished_contains(st: EncoderState)
    requires
        st.wf(),
        st.fits(),
    ensures
        contains(st, st.finished()),
{
    lemma_flush(st);
    let data = st.finished();
    let fb = st.flush_bits();
    let k = ((fb + 7) / 8) as nat;
    let n = st.flush_len();
    let m = pow2((31 - fb) as nat) as int;
    lemma_pow2_pos((31 - fb) as nat);
    let q = (st.low + m - 1) / m;
    let fv = st.flush_value();
    assert(fv == m * q);
    assert(q >= 0) by (nonlinear_arith)
        requires
            m * q >= 0,
            m > 0,
    ;
    lemma_settled(fb, q);
    let x = fv * encoder::pow256(k) / 0x8000_0000;
    let u = pow2(st.flush_spare() as nat) as int;
    let j = (4 - k) as nat;
    let w = encoder::pow256(j);
    lemma_pow256_pos(j);
    // The bytes of the fraction, and what else is in the last of them.
    assert(x <= prefix(data, n) < x + u) by {
        lemma_front(st, x);
    }
    lemma_prefix_more(data, n, j);
    assert(n + j == st.count + 4);
    let y = prefix(data, n);
    let z = prefix(data, st.count + 4);
    assert(x * w <= z && z < (x + u) * w) by (nonlinear_arith)
        requires
            y * w <= z,
            z < (y + 1) * w,
            x <= y,
            y + 1 <= x + u,
            w > 0,
    ;
    assert((x + u) * w == x * w + u * w) by (nonlinear_arith);
    lemma_pow2_unfold((32 - fb) as nat);
}

proof fn lemma_front(st: EncoderState, x: int)
    requires
        st.wf(),
        st.fits(),
        x == st.flush_value() * encoder::pow256(((st.flush_bits() + 7) / 8) as nat) / 0x8000_0000,
        x >= 0,
    ensures
        x <= prefix(st.finished(), st.flush_len()) < x + pow2(st.flush_spare() as nat),
{
    lemma_flush(st);
    lemma2_to64();
    let data = st.finished();
    let n = st.flush_len();
    let fb = st.flush_bits();
    let k = ((fb + 7) / 8) as nat;
    let fv = st.flush_value();
    let front = st.flush_bytes();
    lemma_pow2_pos((31 - fb) as nat);
    assert(x < encoder::pow256(n)) by {
        let a = encoder::pow256(st.count);
        let b = encoder::pow256(k);
        lemma_pow256_pos(k);
        lemma_pow256_pos(st.count);
        lemma_pow256_add(st.count, k);
        assert(fv < a * 0x8000_0000);
        assert(fv * b < (a * b) * 0x8000_0000) by (nonlinear_arith)
            requires
                fv < a * 0x8000_0000,
                b > 0,
        ;
    }
    if n == 0 {
        assert(st.flush_spare() == 0);
    } else {
        assert(n <= st.size);
        lemma_finished(st, n - 1);
        assert forall|i: int| 0 <= i < n - 1 implies byte_at(data, i) == #[trigger] front[i] by {
            lemma_finished(st, i);
        }
        lemma_prefix_split(data, front, (n - 1) as nat, x);
        lemma_be_bytes_at(x, n, n - 1);
        let h = encoder::pow256((n - 1) as nat);
        lemma_pow256_pos((n - 1) as nat);
        assert(encoder::pow256(n) == 256 * h);
        assert(encoder::pow256(1) == 256 * encoder::pow256(0));
        assert(x / 256 < h);
        assert((x / 256) % h == x / 256) by {
            vstd::arithmetic::div_mod::lemma_small_mod((x / 256) as nat, h as nat);
        }
        assert(x / 1 == x);
        assert(prefix(data, n) == prefix(data, (n - 1) as nat) * 256 + byte_at(data, n - 1));
    }
}

proof fn lemma_pow256_add(a: nat, b: nat)
    ensures
        encoder::pow256(a + b) == encoder::pow256(a) * encoder::pow256(b),
    decreases b,
{
    if b == 0 {
        assert(encoder::pow256(a) * 1 == encoder::pow256(a));
    } else {
        lemma_pow256_add(a, (b - 1) as nat);
        let p = encoder::pow256(a);
        let q = encoder::pow256((b - 1) as nat);
        assert(256 * (p * q) == p * (256 * q)) by (nonlinear_arith);
    }
}

/// The finished buffer holds the raw bits at its back.
proof fn lemma_finished_raw(st: EncoderState)
    requires
        st.wf(),
        st.fits(),
    ensures
        raw_agrees(st.raw, st.finished()),
{
    lemma_flush(st);
    let data = st.finished();
    assert(st.raw.len() <= 8 * st.size);
    assert forall|p: int| 0 <= p < st.raw.len() implies (#[trigger] st.raw[p] <==> decoder::raw_bit(data, p)
        == 1) by {
        let i = st.size - 1 - p / 8;
        let j = (p % 8) as nat;
        lemma_finished(st, i);
        lemma_bits_value_at(st.raw, 8 * (p / 8), 8, j);
        let low = encoder::bits_value(st.raw, 8 * (p / 8), 8);
        assert(8 * (st.size - 1 - i) == 8 * (p / 8));
        assert(i >= st.flush_len() - 1);
        if i == st.flush_len() - 1 {
            let front = st.flush_bytes()[i] as int;
            let spare = st.flush_spare() as nat;
            assert(j < spare);
            lemma_above(front, low, spare, j);
        }
    }
}

/// Bits above the spare ones do not disturb those.
proof fn lemma_above(front: int, low: int, spare: nat, j: nat)
    requires
        j < spare < 8,
        front >= 0,
        front % pow2(spare) as int == 0,
        low >= 0,
    ensures
        ((front + low) / pow2(j) as int) % 2 == (low / pow2(j) as int) % 2,
{
    let s = pow2(j) as int;
    lemma_pow2_pos(j);
    let t = pow2(spare) as int;
    lemma_pow2_pos(spare);
    let r = pow2((spare - j - 1) as nat) as int;
    lemma_pow2_adds((j + 1) as nat, (spare - j - 1) as nat);
    lemma_pow2_unfold((j + 1) as nat);
    let c = front / t;
    let w = c * r;
    vstd::arithmetic::div_mod::lemma_fundamental_div_mod(front, t);
    assert(front == s * (2 * w)) by (nonlinear_arith)
        requires
            front == t * c,
            t == (2 * s) * r,
            w == c * r,
    ;
    math::lemma_div(low, s);
    assert(s * (2 * w + low / s) == s * (2 * w) + s * (low / s)) by (nonlinear_arith);
    math::lemma_div_unique(front + low, s, 2 * w + low / s);
}

/// The buffer that the encoder finishes can come of its state.
pub proof fn lemma_finished_leads(st: EncoderState)
    requires
        st.wf(),
        st.fits(),
    ensures
        leads_to(st, st.finished(), st.raw),
{
    lemma_finished_contains(st);
    lemma_finished_raw(st);
    assert(st.raw =~= st.raw.take(st.raw.len() as int));
}

/// From the buffer that the encoder finishes, the decoder reads the symbols that
/// the encoder was given, whatever they are, and then stands in the same interval
/// at the same bit: the two agree symbol for symbol.
pub proof fn lemma_round_trip(size: int, symbols: Seq<Symbol>)
    requires
        size >= 0,
        forall|i: int| 0 <= i < symbols.len() ==> (#[trigger] symbols[i]).legal(),
        put_all(EncoderState::start(size), symbols).fits(),
    ensures
        ({
            let e = put_all(EncoderState::start(size), symbols);
            let d = DecoderState::start(e.finished());
            &&& reads(d, symbols)
            &&& take_all(d, symbols).rng == e.rng
            &&& take_all(d, symbols).tell() == e.tell()
            &&& take_all(d, symbols).tell_frac() == e.tell_frac()
        }),
{
    let s = EncoderState::start(size);
    assert(encoder::pow256(0) == 1);
    let e = put_all(s, symbols);
    lemma_put_all(s, e.finished(), symbols);
    lemma_finished_contains(e);
    lemma_finished_raw(e);
    lemma_start(size, e.finished());
    lemma_reads(s, DecoderState::start(e.finished()), symbols);
    reveal(EncoderState::tell_frac);
    reveal(DecoderState::tell_frac);
}

proof fn lemma_put_split(e: EncoderState, symbols: Seq<Symbol>, k: int)
    requires
        0 <= k <= symbols.len(),
    ensures
        put_all(put_all(e, symbols.take(k)), symbols.skip(k)) == put_all(e, symbols),
    decreases k,
{
    if k == 0 {
        assert(symbols.skip(0) =~= symbols);
    } else {
        let rest = symbols.drop_first();
        lemma_put_split(symbols[0].put(e), rest, k - 1);
        assert(symbols.take(k).drop_first() =~= rest.take(k - 1));
        assert(symbols.skip(k) =~= rest.skip(k - 1));
    }
}

/// Encoder and decoder go in step: behind any number of symbols the decoder of the
/// finished buffer has the range that the encoder had, and has used as many bits.
pub proof fn lemma_lockstep(size: int, symbols: Seq<Symbol>, k: int)
    requires
        size >= 0,
        0 <= k <= symbols.len(),
        forall|i: int| 0 <= i < symbols.len() ==> (#[trigger] symbols[i]).legal(),
        put_all(EncoderState::start(size), symbols).fits(),
    ensures
        ({
            let s = EncoderState::start(size);
            let d = DecoderState::start(put_all(s, symbols).finished());
            let e = put_all(s, symbols.take(k));
            &&& take_all(d, symbols.take(k)).rng == e.rng
            &&& take_all(d, symbols.take(k)).tell() == e.tell()
            &&& take_all(d, symbols.take(k)).tell_frac() == e.tell_frac()
        }),
{
    let s = EncoderState::start(size);
    assert(encoder::pow256(0) == 1);
    let end = put_all(s, symbols);
    let data = end.finished();
    let some = symbols.take(k);
    let rest = symbols.skip(k);
    assert forall|i: int| 0 <= i < some.len() implies (#[trigger] some[i]).legal() by {
        assert(symbols[i].legal());
    }
    assert forall|i: int| 0 <= i < rest.len() implies (#[trigger] rest[i]).legal() by {
        assert(symbols[k + i].legal());
    }
    lemma_put_all(s, data, symbols);
    lemma_finished_contains(end);
    lemma_finished_raw(end);
    lemma_start(size, data);
    let e = put_all(s, some);
    lemma_put_all(s, data, some);
    lemma_put_split(s, symbols, k);
    lemma_put_all(e, data, rest);
    assert(raw_agrees(e.raw, data)) by {
        assert forall|p: int| 0 <= p < e.raw.len() implies (#[trigger] e.raw[p] <==> decoder::raw_bit(data, p)
            == 1) by {
            assert(e.raw[p] == end.raw[p]);
        }
    }
    lemma_reads(s, DecoderState::start(data), some);
    reveal(EncoderState::tell_frac);
    reveal(DecoderState::tell_frac);
}

proof fn lemma_norm_counted(e: EncoderState)
    requires
        e.rng > 0,
        e.counted(),
        e.normalized().bits < BIT_LIMIT,
    ensures
        e.normalized().counted(),
    decreases 0x8000_0000 - e.rng,
{
    reveal(EncoderState::normalized);
    if e.rng <= 0x80_0000 {
        let next = e.shift_out();
        lemma_norm_limit(next);
        lemma_norm_counted(next);
    }
}

/// A count that has reached its limit stays there.
proof fn lemma_norm_limit(e: EncoderState)
    ensures
        e.bits == BIT_LIMIT ==> e.normalized().bits == BIT_LIMIT,
    decreases 0x8000_0000 - e.rng,
{
    reveal(EncoderState::normalized);
    if 0 < e.rng <= 0x80_0000 {
        lemma_norm_limit(e.shift_out());
    }
}

proof fn lemma_narrowed_counted(e: EncoderState, fl: int, fh: int, ft: int)
    requires
        e.wf(),
        e.counted(),
        0 <= fl < fh <= ft <= 0x1_0000,
        e.narrowed(fl, fh, ft).bits < BIT_LIMIT,
    ensures
        e.narrowed(fl, fh, ft).counted(),
{
    reveal(EncoderState::narrowed);
    let ext = e.rng / ft;
    math::lemma_div(e.rng, ft);
    assert(ext >= 1) by (nonlinear_arith)
        requires
            ft * ext <= e.rng < ft * ext + ft,
            e.rng > 0x80_0000,
            0 < ft <= 0x1_0000,
    ;
    if fl > 0 {
        assert(ext * (fh - fl) > 0) by (nonlinear_arith)
            requires
                ext >= 1,
                fh > fl,
        ;
        lemma_norm_counted(EncoderState { low: e.low + (e.rng - ext * (ft - fl)), rng: ext * (fh - fl), ..e });
    } else {
        assert(ext * (ft - fh) < e.rng) by (nonlinear_arith)
            requires
                ft * ext <= e.rng,
                ext >= 1,
                0 < fh <= ft,
        ;
        lemma_norm_counted(EncoderState { low: e.low + 0, rng: e.rng - ext * (ft - fh), ..e });
    }
}

/// Every symbol is counted, as long as the count does not reach its limit.
proof fn lemma_symbol_counted(e: EncoderState, s: Symbol)
    requires
        e.wf(),
        e.counted(),
        s.legal(),
        s.put(e).bits < BIT_LIMIT,
    ensures
        s.put(e).counted(),
{
    reveal(EncoderState::after_bit);
    reveal(EncoderState::after_icdf);
    reveal(EncoderState::after_raw);
    reveal(EncoderState::after_uint);
    match s {
        Symbol::Bit { bit, logp } => {
            let p = pow2(logp as nat) as int;
            let r = e.rng / p;
            lemma2_to64();
            lemma_pow2_pos(logp as nat);
            if logp < 16 {
                lemma_pow2_strictly_increases(logp as nat, 16);
            }
            lemma_pow2_strictly_increases(0, logp as nat);
            math::lemma_div(e.rng, p);
            assert(0 < r < e.rng) by (nonlinear_arith)
                requires
                    p * r <= e.rng < p * r + p,
                    e.rng > 0x80_0000,
                    2 <= p <= 0x1_0000,
            ;
            if bit {
                lemma_norm_counted(EncoderState { low: e.low + (e.rng - r), rng: r, ..e });
            } else {
                lemma_norm_counted(EncoderState { low: e.low + 0, rng: e.rng - r, ..e });
            }
        },
        Symbol::Entry { k, icdf, ftb } => {
            let p = pow2(ftb as nat) as int;
            let r = e.rng / p;
            lemma2_to64();
            lemma_pow2_pos(ftb as nat);
            if ftb < 8 {
                lemma_pow2_strictly_increases(ftb as nat, 8);
            }
            math::lemma_div(e.rng, p);
            assert(r >= 1) by (nonlinear_arith)
                requires
                    p * r <= e.rng < p * r + p,
                    e.rng > 0x80_0000,
                    0 < p <= 0x1_0000,
            ;
            if k > 0 {
                let w = icdf[k - 1] - icdf[k];
                assert(r * w > 0) by (nonlinear_arith)
                    requires
                        r >= 1,
                        w >= 1,
                ;
                lemma_norm_counted(EncoderState { low: e.low + (e.rng - r * icdf[k - 1]), rng: r * w, ..e });
            } else {
                let w = icdf[0] as int;
                assert(r * w < e.rng) by (nonlinear_arith)
                    requires
                        p * r <= e.rng,
                        r >= 1,
                        0 <= w < p,
                ;
                lemma_norm_counted(EncoderState { low: e.low + 0, rng: e.rng - r * w, ..e });
            }
        },
        Symbol::Part { fl, fh, ft } => lemma_narrowed_counted(e, fl, fh, ft),
        Symbol::Raw { .. } => {},
        Symbol::Uniform { v, ft } => {
            decoder::lemma_uint_split(ft);
            let low = DecoderState::uint_low_bits(ft);
            let p = pow2(low as nat) as int;
            lemma_pow2_pos(low as nat);
            vstd::arithmetic::div_mod::lemma_div_is_ordered(v, ft - 1, p);
            vstd::arithmetic::div_mod::lemma_div_pos_is_pos(v, p);
            lemma_narrowed_counted(e, v / p, v / p + 1, DecoderState::uint_total(ft));
        },
        Symbol::Resize { .. } => {},
    }
}

/// What the encoder has counted fits the buffer, where the count is not above the
/// buffer's bits.
pub proof fn lemma_counted_fits(e: EncoderState)
    requires
        e.wf(),
        e.counted(),
        e.tell() <= 8 * e.size,
    ensures
        e.fits(),
{
    lemma2_to64();
    math::lemma_ilog_gt(e.rng, 23);
    math::lemma_ilog_le(e.rng, 32);
    let fb = e.flush_bits();
    assert(0 <= fb <= 33 - math::ilog(e.rng));
    assert(8 * e.flush_len() - e.flush_spare() == 8 * e.count + fb);
}

proof fn lemma_all_counted(e: EncoderState, symbols: Seq<Symbol>)
    requires
        e.wf(),
        e.counted(),
        forall|i: int| 0 <= i < symbols.len() ==> (#[trigger] symbols[i]).legal(),
        put_all(e, symbols).bits < BIT_LIMIT,
    ensures
        put_all(e, symbols).wf(),
        put_all(e, symbols).counted(),
        e.bits <= put_all(e, symbols).bits,
    decreases symbols.len(),
{
    if symbols.len() > 0 {
        let next = symbols[0].put(e);
        let rest = symbols.drop_first();
        lemma_symbol_back(e, Seq::empty(), symbols[0], Seq::empty());
        assert forall|i: int| 0 <= i < rest.len() implies (#[trigger] rest[i]).legal() by {
            assert(symbols[i + 1].legal());
        }
        lemma_all_grow(next, rest);
        lemma_symbol_counted(e, symbols[0]);
        lemma_all_counted(next, rest);
    }
}

proof fn lemma_all_grow(e: EncoderState, symbols: Seq<Symbol>)
    requires
        e.wf(),
        forall|i: int| 0 <= i < symbols.len() ==> (#[trigger] symbols[i]).legal(),
    ensures
        e.bits <= put_all(e, symbols).bits,
    decreases symbols.len(),
{
    if symbols.len() > 0 {
        let rest = symbols.drop_first();
        lemma_symbol_back(e, Seq::empty(), symbols[0], Seq::empty());
        assert forall|i: int| 0 <= i < rest.len() implies (#[trigger] rest[i]).legal() by {
            assert(symbols[i + 1].legal());
        }
        lemma_all_grow(symbols[0].put(e), rest);
    }
}

/// Whatever symbols an encoder was given, they fit its buffer as long as the bits used,
/// rounded up, are not more than the buffer has.
pub proof fn lemma_tell_fits(size: int, symbols: Seq<Symbol>)
    requires
        size >= 0,
        forall|i: int| 0 <= i < symbols.len() ==> (#[trigger] symbols[i]).legal(),
        put_all(EncoderState::start(size), symbols).bits < BIT_LIMIT,
        put_all(EncoderState::start(size), symbols).tell() <= 8 * put_all(EncoderState::start(size), symbols).size,
    ensures
        put_all(EncoderState::start(size), symbols).fits(),
{
    assert(encoder::pow256(0) == 1);
    lemma_all_counted(EncoderState::start(size), symbols);
    lemma_counted_fits(put_all(EncoderState::start(size), symbols));
}

} // verus!
