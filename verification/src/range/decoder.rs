//! The range decoder.

use vstd::arithmetic::power2::{lemma2_to64, lemma_pow2_adds, lemma_pow2_pos, lemma_pow2_strictly_increases, lemma_pow2_unfold, pow2};
use vstd::prelude::*;

use crate::math::{self, ec_ilog, pow2_u32};

verus! {

/// The bit counter stops here, far above the size of any packet.
pub const BIT_LIMIT: u32 = 0x0400_0000;

/// The bit counter after `n` more bits.
pub open spec fn add_bits(bits: int, n: int) -> int {
    math::min(bits + n, BIT_LIMIT as int)
}

/// Bit `p` of the raw stream: byte by byte from the end of the buffer, lowest
/// bit first. Beyond the buffer every bit is zero.
pub open spec fn raw_bit(data: Seq<u8>, p: int) -> int {
    if 0 <= p / 8 < data.len() {
        (data[data.len() - 1 - p / 8] as int / pow2((p % 8) as nat) as int) % 2
    } else {
        0
    }
}

/// The `n`-bit value at bit `p` of the raw stream, lowest bit first.
pub open spec fn raw_value(data: Seq<u8>, p: int, n: nat) -> int
    decreases n,
{
    if n == 0 {
        0
    } else {
        raw_bit(data, p) + 2 * raw_value(data, p + 1, (n - 1) as nat)
    }
}

/// The position, at or after `k`, of the first entry of an inverse cumulative
/// table whose threshold does not exceed `val`; the last entry otherwise.
pub open spec fn icdf_symbol(icdf: Seq<u8>, r: int, val: int, k: int) -> int
    decreases icdf.len() - k,
{
    if 0 <= k && k + 1 < icdf.len() && val < r * icdf[k] {
        icdf_symbol(icdf, r, val, k + 1)
    } else {
        k
    }
}

/// A table `decode_icdf` and `encode_icdf` can use: it ends in zero and no
/// entry exceeds the total `2^ftb`.
pub open spec fn icdf_ok(icdf: Seq<u8>, ftb: int) -> bool {
    &&& 0 < ftb <= 8
    &&& icdf.len() > 0
    &&& icdf[icdf.len() - 1] == 0
    &&& forall|k: int| 0 <= k < icdf.len() ==> #[trigger] icdf[k] <= pow2(ftb as nat)
}

/// Eight times the base-two logarithm of `rng`, from the sixteen leading bits,
/// by `steps` further squarings of the mantissa `r`.
pub open spec fn log_steps(l: int, r: int, steps: nat) -> int
    decreases steps,
{
    if steps == 0 {
        l
    } else {
        let s = r * r / 32768;
        let b = s / 65536;
        log_steps(2 * l + b, if b > 0 { s / 2 } else { s }, (steps - 1) as nat)
    }
}

/// Eight times the base-two logarithm of `rng`, rounded down to the precision
/// of its sixteen leading bits.
pub open spec fn log_frac(rng: int) -> int {
    log_steps(math::ilog(rng), rng / pow2((math::ilog(rng) - 16) as nat) as int, 3)
}

/// What a range decoder is: the buffer, how much of it was consumed from
/// either end, and the current interval. `val` is the distance from the code
/// value to the top of an interval of size `rng`, less one.
#[verifier::ext_equal]
pub struct DecoderState {
    pub data: Seq<u8>,
    pub offs: int,
    pub rem: int,
    pub rng: int,
    pub val: int,
    pub raw: int,
    pub bits: int,
}

impl DecoderState {
    /// The interval is not empty and the code value lies in it.
    pub open spec fn in_range(self) -> bool {
        &&& 0 <= self.val < self.rng <= 0x8000_0000
        &&& 0 <= self.offs <= self.data.len()
        &&& 0 <= self.rem < 256
        &&& 0 <= self.raw <= 8 * self.data.len()
        &&& 9 <= self.bits <= BIT_LIMIT
    }

    /// A state between two symbols.
    pub open spec fn wf(self) -> bool {
        &&& self.in_range()
        &&& self.rng > 0x80_0000
        &&& self.bits >= 33
    }

    /// The byte that enters the window next; zero beyond the buffer.
    pub open spec fn next_byte(self) -> int {
        if 0 <= self.offs < self.data.len() {
            self.data[self.offs] as int
        } else {
            0
        }
    }

    /// One more byte of the buffer in the window.
    pub open spec fn shift_in(self) -> DecoderState {
        DecoderState {
            offs: if self.offs < self.data.len() { self.offs + 1 } else { self.offs },
            rem: self.next_byte(),
            rng: self.rng * 256,
            val: self.val * 256 + 255 - ((self.rem * 256 + self.next_byte()) / 2) % 256,
            bits: add_bits(self.bits, 8),
            ..self
        }
    }

    /// Bytes are shifted in until the interval is larger than `2^23`.
    #[verifier::opaque]
    pub open spec fn normalized(self) -> DecoderState
        decreases 0x8000_0000 - self.rng,
    {
        if 0 < self.rng <= 0x80_0000 {
            self.shift_in().normalized()
        } else {
            self
        }
    }

    /// The decoder on a fresh buffer.
    pub open spec fn start(data: Seq<u8>) -> DecoderState {
        let first = if data.len() > 0 { data[0] as int } else { 0 };
        DecoderState {
            data,
            offs: if data.len() > 0 { 1 } else { 0 },
            rem: first,
            rng: 128,
            val: 127 - first / 2,
            raw: 0,
            bits: 9,
        }.normalized()
    }

    /// The cumulative frequency, out of `ft`, that the code value names.
    pub open spec fn freq(self, ft: int) -> int {
        ft - math::min(self.val / (self.rng / ft) + 1, ft)
    }

    /// The interval narrowed to the symbol `[fl, fh)` out of `ft`.
    #[verifier::opaque]
    pub open spec fn narrowed(self, fl: int, fh: int, ft: int) -> DecoderState {
        let ext = self.rng / ft;
        let s = ext * (ft - fh);
        DecoderState {
            val: self.val - s,
            rng: if fl > 0 { ext * (fh - fl) } else { self.rng - s },
            ..self
        }.normalized()
    }

    /// The next bit, whose probability of being set is `2^-logp`.
    #[verifier::opaque]
    pub open spec fn bit(self, logp: int) -> bool {
        self.val < self.rng / pow2(logp as nat) as int
    }

    /// The state after that bit.
    #[verifier::opaque]
    pub open spec fn after_bit(self, logp: int) -> DecoderState {
        let s = self.rng / pow2(logp as nat) as int;
        if self.val < s {
            DecoderState { rng: s, ..self }.normalized()
        } else {
            DecoderState { val: self.val - s, rng: self.rng - s, ..self }.normalized()
        }
    }

    /// The next symbol of an inverse cumulative table of total `2^ftb`.
    #[verifier::opaque]
    pub open spec fn icdf(self, icdf: Seq<u8>, ftb: int) -> int {
        icdf_symbol(icdf, self.rng / pow2(ftb as nat) as int, self.val, 0)
    }

    /// The state after that symbol.
    #[verifier::opaque]
    pub open spec fn after_icdf(self, icdf: Seq<u8>, ftb: int) -> DecoderState {
        let r = self.rng / pow2(ftb as nat) as int;
        let k = self.icdf(icdf, ftb);
        let s = r * icdf[k];
        let t = if k > 0 { r * icdf[k - 1] } else { self.rng };
        DecoderState { val: self.val - s, rng: t - s, ..self }.normalized()
    }

    /// The next `n` raw bits.
    #[verifier::opaque]
    pub open spec fn raw_bits(self, n: int) -> int {
        raw_value(self.data, self.raw, n as nat)
    }

    /// The state after `n` raw bits.
    #[verifier::opaque]
    pub open spec fn after_raw(self, n: int) -> DecoderState {
        DecoderState {
            raw: math::min(self.raw + n, 8 * self.data.len() as int),
            bits: add_bits(self.bits, n),
            ..self
        }
    }

    /// The number of low bits of a uniform value below `ft` that are sent raw.
    pub open spec fn uint_low_bits(ft: int) -> int {
        math::max(math::ilog(ft - 1) - 8, 0)
    }

    /// The total that the leading bits of a uniform value are coded with.
    pub open spec fn uint_total(ft: int) -> int {
        (ft - 1) / pow2(Self::uint_low_bits(ft) as nat) as int + 1
    }

    /// The state after the leading bits of a uniform value below `ft`.
    pub open spec fn after_uint_high(self, ft: int) -> DecoderState {
        let total = Self::uint_total(ft);
        let s = self.freq(total);
        self.narrowed(s, s + 1, total)
    }

    /// The next uniform value for a range of `ft` values. A damaged stream can
    /// hold one that is not below `ft`.
    #[verifier::opaque]
    pub open spec fn uint(self, ft: int) -> int {
        let low = Self::uint_low_bits(ft);
        let high = self.freq(Self::uint_total(ft));
        if low > 0 {
            high * pow2(low as nat) + self.after_uint_high(ft).raw_bits(low)
        } else {
            high
        }
    }

    /// The state after that value.
    #[verifier::opaque]
    pub open spec fn after_uint(self, ft: int) -> DecoderState {
        let low = Self::uint_low_bits(ft);
        if low > 0 {
            self.after_uint_high(ft).after_raw(low)
        } else {
            self.after_uint_high(ft)
        }
    }

    /// The number of whole bits used so far, rounded up.
    pub open spec fn tell(self) -> int {
        self.bits - math::ilog(self.rng)
    }

    /// The number of eighth bits used so far, rounded up.
    #[verifier::opaque]
    pub open spec fn tell_frac(self) -> int {
        8 * self.bits - log_frac(self.rng)
    }

    /// The state that claims to have used `total` bits, where that is more.
    pub open spec fn forced(self, total: int) -> DecoderState {
        DecoderState {
            bits: if total > self.tell() { add_bits(self.bits, total - self.tell()) } else { self.bits },
            ..self
        }
    }

    /// The state on the first `len` bytes of the buffer only.
    pub open spec fn shrunk(self, len: int) -> DecoderState {
        DecoderState {
            data: self.data.take(len),
            offs: math::min(self.offs, len),
            ..self
        }
    }
}

/// Between two symbols the interval takes 24 to 32 bits.
pub proof fn lemma_tell(st: DecoderState)
    requires
        st.wf(),
    ensures
        24 <= math::ilog(st.rng) <= 32,
        1 <= st.tell() <= BIT_LIMIT,
{
    lemma2_to64();
    math::lemma_ilog_gt(st.rng, 23);
    math::lemma_ilog_le(st.rng, 32);
}

/// A mantissa of sixteen bits stays one through a squaring.
proof fn lemma_square(r: int)
    requires
        32768 <= r < 65536,
    ensures
        0 <= r * r / 32768 / 65536 <= 1,
        r * r / 32768 / 65536 == 1 ==> 32768 <= r * r / 32768 / 2 < 65536,
        r * r / 32768 / 65536 == 0 ==> 32768 <= r * r / 32768 < 65536,
{
    assert(32768 * 32768 <= r * r < 65536 * 65536) by (nonlinear_arith)
        requires
            32768 <= r < 65536,
    ;
}

/// Each squaring doubles the logarithm and may add one.
proof fn lemma_log_steps(l: int, r: int)
    requires
        32768 <= r < 65536,
    ensures
        8 * l <= log_steps(l, r, 3) < 8 * l + 8,
{
    reveal_with_fuel(log_steps, 4);
    lemma_square(r);
    let s = r * r / 32768;
    let b = s / 65536;
    let r1 = if b > 0 { s / 2 } else { s };
    lemma_square(r1);
    let s1 = r1 * r1 / 32768;
    let b1 = s1 / 65536;
    let r2 = if b1 > 0 { s1 / 2 } else { s1 };
    lemma_square(r2);
}

/// The mantissa that the logarithm starts from has sixteen bits.
proof fn lemma_mantissa(rng: int)
    requires
        0x80_0000 < rng <= 0x8000_0000,
    ensures
        24 <= math::ilog(rng) <= 32,
        32768 <= rng / pow2((math::ilog(rng) - 16) as nat) as int <= 65535,
{
    lemma2_to64();
    math::lemma_ilog_gt(rng, 23);
    math::lemma_ilog_le(rng, 32);
    math::lemma_ilog(rng);
    let l = math::ilog(rng);
    let p = pow2((l - 16) as nat) as int;
    lemma_pow2_adds(15, (l - 16) as nat);
    lemma_pow2_adds(16, (l - 16) as nat);
    assert(p > 0);
    math::lemma_div(rng, p);
    let q = rng / p;
    if q < 32768 {
        assert(p * (q + 1) <= p * 32768) by (nonlinear_arith)
            requires
                p > 0,
                q + 1 <= 32768,
        ;
        assert(p * (q + 1) == p * q + p) by (nonlinear_arith);
    }
    if q > 65535 {
        assert(p * 65536 <= p * q) by (nonlinear_arith)
            requires
                p > 0,
                65536 <= q,
        ;
    }
}

/// The eighth-bit count rounds the whole-bit count by less than one bit.
pub proof fn lemma_tell_frac(st: DecoderState)
    requires
        st.wf(),
    ensures
        8 * st.tell() - 7 <= st.tell_frac() <= 8 * st.tell(),
        1 <= st.tell_frac() <= 8 * BIT_LIMIT,
{
    reveal(DecoderState::tell_frac);
    lemma_tell(st);
    lemma_mantissa(st.rng);
    lemma2_to64();
    lemma_log_steps(math::ilog(st.rng), st.rng / pow2((math::ilog(st.rng) - 16) as nat) as int);
}

/// Narrowing to the symbol that holds the code value keeps the value inside.
proof fn lemma_narrow(st: DecoderState, fl: int, fh: int, ft: int)
    requires
        st.wf(),
        0 <= fl < fh <= ft <= 0x1_0000,
        fl <= st.freq(ft) < fh,
    ensures
        st.rng / ft >= 128,
        0 <= (st.rng / ft) * (ft - fh) <= st.val,
        fl > 0 ==> st.val - (st.rng / ft) * (ft - fh) < (st.rng / ft) * (fh - fl) <= 0x8000_0000,
{
    let ext = st.rng / ft;
    math::lemma_div(st.rng, ft);
    if ext < 128 {
        assert(ft * (ext + 1) <= 0x1_0000 * 128) by (nonlinear_arith)
            requires
                0 < ft <= 0x1_0000,
                0 <= ext + 1 <= 128,
        ;
        assert(ft * (ext + 1) == ft * ext + ft) by (nonlinear_arith);
    }
    math::lemma_div(st.val, ext);
    let s = st.val / ext;
    assert(s >= ft - fh);
    assert(ext * (ft - fh) <= ext * s) by (nonlinear_arith)
        requires
            ext > 0,
            ft - fh <= s,
    ;
    assert(0 <= ext * (ft - fh)) by (nonlinear_arith)
        requires
            ext > 0,
            ft - fh >= 0,
    ;
    if fl > 0 {
        assert(s + 1 <= ft - fl);
        assert(ext * (s + 1) <= ext * (ft - fl)) by (nonlinear_arith)
            requires
                ext > 0,
                s + 1 <= ft - fl,
        ;
        assert(ext * (s + 1) == ext * s + ext) by (nonlinear_arith);
        assert(ext * (ft - fl) - ext * (ft - fh) == ext * (fh - fl)) by (nonlinear_arith);
        assert(ext * (fh - fl) <= ft * ext) by (nonlinear_arith)
            requires
                ext > 0,
                fh - fl <= ft,
        ;
    }
}

/// Normalizing a state whose interval holds the code value ends between two
/// symbols.
pub proof fn lemma_normalized(st: DecoderState)
    requires
        st.in_range(),
        st.bits >= 33,
    ensures
        st.normalized().wf(),
        st.normalized().data == st.data,
        st.normalized().raw == st.raw,
    decreases 0x8000_0000 - st.rng,
{
    reveal(DecoderState::normalized);
    if st.rng <= 0x80_0000 {
        lemma_normalized(st.shift_in());
    }
}

/// At most three bytes enter the window at once.
pub proof fn lemma_normalized_bits(st: DecoderState)
    requires
        0 < st.rng <= 0x8000_0000,
        st.bits <= BIT_LIMIT,
    ensures
        st.bits <= st.normalized().bits <= st.bits + 24,
{
    reveal_with_fuel(DecoderState::normalized, 4);
    let a = st.shift_in();
    let b = a.shift_in();
    let c = b.shift_in();
    if st.rng <= 0x80_0000 {
        assert(st.normalized() == a.normalized());
        if a.rng <= 0x80_0000 {
            assert(a.normalized() == b.normalized());
            if b.rng <= 0x80_0000 {
                assert(b.normalized() == c.normalized());
                assert(c.normalized() == c);
            }
        }
    }
}

/// After a bit the decoder stands between two symbols again.
pub proof fn lemma_after_bit(st: DecoderState, logp: int)
    requires
        st.wf(),
        0 < logp <= 16,
    ensures
        st.after_bit(logp).wf(),
        st.after_bit(logp).data == st.data,
        st.after_bit(logp).raw == st.raw,
{
    reveal(DecoderState::after_bit);
    lemma2_to64();
    let p = pow2(logp as nat) as int;
    if logp > 1 {
        lemma_pow2_strictly_increases(1, logp as nat);
    }
    if logp < 16 {
        lemma_pow2_strictly_increases(logp as nat, 16);
    }
    math::lemma_div(st.rng, p);
    let s = st.rng / p;
    assert(p * s >= 2 * s) by (nonlinear_arith)
        requires
            p >= 2,
            s >= 0,
    ;
    if s == 0 {
        assert(p * s == 0) by (nonlinear_arith)
            requires
                s == 0,
        ;
    }
    if st.val < s {
        lemma_normalized(DecoderState { rng: s, ..st });
    } else {
        lemma_normalized(DecoderState { val: st.val - s, rng: st.rng - s, ..st });
    }
}

/// The parts that a uniform value is split into fit their coders.
pub proof fn lemma_uint_split(ft: int)
    requires
        1 < ft <= u32::MAX,
    ensures
        0 <= DecoderState::uint_low_bits(ft) <= 24,
        2 <= DecoderState::uint_total(ft) <= 256,
        DecoderState::uint_low_bits(ft) == 0 ==> DecoderState::uint_total(ft) == ft,
        DecoderState::uint_total(ft) * pow2(DecoderState::uint_low_bits(ft) as nat) <= 0x1_0000_0000,
{
    let f = ft - 1;
    lemma2_to64();
    vstd::arithmetic::power2::lemma2_to64_rest();
    math::lemma_ilog(f);
    math::lemma_ilog_le(f, 32);
    let low = DecoderState::uint_low_bits(ft);
    let p = pow2(low as nat) as int;
    math::lemma_div(f, p);
    let q = f / p;
    if math::ilog(f) > 8 {
        lemma_pow2_adds(8, low as nat);
        lemma_pow2_adds(7, low as nat);
        assert(pow2(8) == 256 && pow2(7) == 128);
        if q >= 256 {
            assert(p * 256 <= p * q) by (nonlinear_arith)
                requires
                    p > 0,
                    256 <= q,
            ;
        }
        if q < 1 {
            assert(p * q <= 0) by (nonlinear_arith)
                requires
                    p > 0,
                    q <= 0,
            ;
        }
        if low < 24 {
            lemma_pow2_strictly_increases(low as nat, 24);
        }
        assert((q + 1) * p <= 256 * p) by (nonlinear_arith)
            requires
                p > 0,
                q + 1 <= 256,
        ;
    } else {
        assert(p == 1);
        if math::ilog(f) < 8 {
            lemma_pow2_strictly_increases(math::ilog(f) as nat, 8);
        }
        assert(q == f) by (nonlinear_arith)
            requires
                p == 1,
                q == f / p,
        ;
        assert((q + 1) * p == ft) by (nonlinear_arith)
            requires
                p == 1,
                q + 1 == ft,
        ;
    }
}

/// A uniform value is never negative.
pub proof fn lemma_uint(st: DecoderState, ft: int)
    ensures
        st.uint(ft) >= 0,
{
    reveal(DecoderState::uint);
    let low = DecoderState::uint_low_bits(ft);
    let high = st.freq(DecoderState::uint_total(ft));
    assert(high >= 0);
    if low > 0 {
        reveal(DecoderState::raw_bits);
        let after = st.after_uint_high(ft);
        lemma_raw_value(after.data, after.raw, low as nat);
        let p = pow2(low as nat) as int;
        assert(high * p >= 0) by (nonlinear_arith)
            requires
                high >= 0,
                p >= 0,
        ;
    }
}

/// Shifting bytes in does not add to the bits used.
pub proof fn lemma_normalized_tell(st: DecoderState)
    requires
        st.in_range(),
        st.bits >= 33,
    ensures
        st.normalized().tell() <= st.tell(),
    decreases 0x8000_0000 - st.rng,
{
    reveal(DecoderState::normalized);
    if st.rng <= 0x80_0000 {
        lemma_normalized_tell(st.shift_in());
        math::lemma_ilog(st.rng);
        let k = math::ilog(st.rng);
        lemma_pow2_adds((k - 1) as nat, 8);
        lemma2_to64();
        let p = pow2((k - 1) as nat) as int;
        assert(pow2((k + 7) as nat) == p * 256);
        math::lemma_ilog_gt(st.rng * 256, (k + 7) as nat);
    }
}

/// An even bit takes one bit.
pub proof fn lemma_even_bit_tell(st: DecoderState)
    requires
        st.wf(),
    ensures
        st.after_bit(1).tell() <= st.tell() + 1,
{
    reveal(DecoderState::after_bit);
    lemma2_to64();
    let s = st.rng / 2;
    let next = if st.val < s {
        DecoderState { rng: s, ..st }
    } else {
        DecoderState { val: st.val - s, rng: st.rng - s, ..st }
    };
    assert(st.after_bit(1) == next.normalized());
    math::lemma_ilog(st.rng);
    let k = math::ilog(st.rng);
    lemma_pow2_unfold((k - 1) as nat);
    math::lemma_ilog_gt(next.rng, (k - 2) as nat);
    lemma_normalized_tell(next);
}

/// A bit that is not set takes at most one bit.
pub proof fn lemma_unset_bit_tell(st: DecoderState, logp: int)
    requires
        st.wf(),
        0 < logp <= 16,
        !st.bit(logp),
    ensures
        st.after_bit(logp).tell() <= st.tell() + 1,
{
    reveal(DecoderState::after_bit);
    reveal(DecoderState::bit);
    lemma2_to64();
    let p = pow2(logp as nat) as int;
    if logp > 1 {
        lemma_pow2_strictly_increases(1, logp as nat);
    }
    let s = st.rng / p;
    math::lemma_div(st.rng, p);
    assert(p * s >= 2 * s) by (nonlinear_arith)
        requires
            p >= 2,
            s >= 0,
    ;
    let next = DecoderState { val: st.val - s, rng: st.rng - s, ..st };
    assert(st.after_bit(logp) == next.normalized());
    math::lemma_ilog(st.rng);
    let k = math::ilog(st.rng);
    lemma_pow2_unfold((k - 1) as nat);
    math::lemma_ilog_gt(next.rng, (k - 2) as nat);
    lemma_normalized_tell(next);
}

/// An interval that keeps one part in `2^b` takes at most `b` bits.
proof fn lemma_cost(st: DecoderState, next: DecoderState, b: nat)
    requires
        st.wf(),
        next.in_range(),
        next.bits == st.bits,
        b <= 16,
        next.rng >= st.rng / pow2(b) as int,
    ensures
        next.normalized().tell() <= st.tell() + b,
{
    lemma_tell(st);
    math::lemma_ilog(st.rng);
    let k = math::ilog(st.rng) as nat;
    lemma2_to64();
    let m = (k - 1 - b) as nat;
    lemma_pow2_adds(m, b);
    let p = pow2(b) as int;
    let q = pow2(m) as int;
    lemma_pow2_pos(b);
    assert(st.rng / p >= q) by {
        math::lemma_div(st.rng, p);
        let r = st.rng / p;
        if r < q {
            assert(p * (r + 1) <= p * q) by (nonlinear_arith)
                requires
                    p > 0,
                    r + 1 <= q,
            ;
            assert(p * (r + 1) == p * r + p) by (nonlinear_arith);
            assert(p * q == q * p) by (nonlinear_arith);
        }
    }
    math::lemma_ilog_gt(next.rng, m);
    lemma_normalized_tell(next);
}

/// A symbol out of `2^b` takes at most `b` bits.
pub proof fn lemma_narrowed_cost(st: DecoderState, fl: int, fh: int, b: nat)
    requires
        st.wf(),
        b <= 16,
        0 <= fl < fh <= pow2(b),
        fl <= st.freq(pow2(b) as int) < fh,
    ensures
        st.narrowed(fl, fh, pow2(b) as int).tell() <= st.tell() + b,
{
    reveal(DecoderState::narrowed);
    lemma2_to64();
    if b < 16 {
        lemma_pow2_strictly_increases(b, 16);
    }
    let ft = pow2(b) as int;
    lemma_narrow(st, fl, fh, ft);
    let ext = st.rng / ft;
    let s = ext * (ft - fh);
    math::lemma_div(st.rng, ft);
    let next = DecoderState {
        val: st.val - s,
        rng: if fl > 0 {
            ext * (fh - fl)
        } else {
            st.rng - s
        },
        ..st
    };
    if fl > 0 {
        assert(ext * (fh - fl) >= ext) by (nonlinear_arith)
            requires
                ext >= 0,
                fh - fl >= 1,
        ;
    } else {
        assert(ext * (ft - fh) + ext <= ft * ext) by (nonlinear_arith)
            requires
                ext >= 0,
                fh >= 1,
        ;
    }
    lemma_cost(st, next, b);
}

/// One of three values out of four takes at most two bits.
pub proof fn lemma_three_cost(st: DecoderState, icdf: Seq<u8>)
    requires
        st.wf(),
        icdf == seq![2u8, 1u8, 0u8],
    ensures
        st.after_icdf(icdf, 2).tell() <= st.tell() + 2,
{
    reveal(DecoderState::after_icdf);
    reveal(DecoderState::icdf);
    reveal_with_fuel(icdf_symbol, 3);
    lemma2_to64();
    let r = st.rng / 4;
    let k = st.icdf(icdf, 2);
    assert(r * 2 == 2 * r && r * 1 == r && r * 0 == 0);
    let low = r * icdf[k];
    let high = if k > 0 {
        r * icdf[k - 1]
    } else {
        st.rng
    };
    lemma_cost(st, DecoderState { val: st.val - low, rng: high - low, ..st }, 2);
}

/// A uniform value for at most 256 values takes no raw bits.
pub proof fn lemma_small_uint(st: DecoderState, ft: int)
    requires
        st.wf(),
        2 <= ft <= 256,
    ensures
        st.after_uint(ft).wf(),
        st.after_uint(ft).data == st.data,
        st.after_uint(ft).raw == st.raw,
        0 <= st.uint(ft) < ft,
{
    reveal(DecoderState::uint);
    reveal(DecoderState::after_uint);
    reveal(DecoderState::narrowed);
    lemma2_to64();
    math::lemma_ilog_le(ft - 1, 8nat);
    assert(DecoderState::uint_low_bits(ft) == 0);
    assert((ft - 1) / 1 == ft - 1);
    assert(DecoderState::uint_total(ft) == ft);
    let k = st.freq(ft);
    math::lemma_div(st.rng, ft);
    math::lemma_div(st.val, st.rng / ft);
    lemma_narrow(st, k, k + 1, ft);
    let ext = st.rng / ft;
    let s = ext * (ft - k - 1);
    let next = DecoderState {
        val: st.val - s,
        rng: if k > 0 {
            ext * (k + 1 - k)
        } else {
            st.rng - s
        },
        ..st
    };
    lemma_normalized(next);
    assert(st.after_uint(ft) == st.narrowed(k, k + 1, ft));
    assert(st.narrowed(k, k + 1, ft) == next.normalized());
}

/// An `n`-bit raw value is below `2^n`.
pub proof fn lemma_raw_value(data: Seq<u8>, p: int, n: nat)
    ensures
        0 <= raw_value(data, p, n) < pow2(n),
    decreases n,
{
    lemma2_to64();
    if n > 0 {
        lemma_raw_value(data, p + 1, (n - 1) as nat);
        vstd::arithmetic::power2::lemma_pow2_unfold(n);
    }
}

/// Decodes symbols from the front of a buffer and raw bits from its back.
pub struct RangeDecoder<'a> {
    data: &'a [u8],
    offs: usize,
    rem: u8,
    rng: u32,
    val: u32,
    raw_byte: usize,
    raw_shift: u32,
    bits: u32,
}

impl<'a> View for RangeDecoder<'a> {
    type V = DecoderState;

    closed spec fn view(&self) -> DecoderState {
        DecoderState {
            data: self.data@,
            offs: self.offs as int,
            rem: self.rem as int,
            rng: self.rng as int,
            val: self.val as int,
            raw: 8 * self.raw_byte + self.raw_shift,
            bits: self.bits as int,
        }
    }
}

impl<'a> RangeDecoder<'a> {
    /// Whether the decoder stands between two symbols.
    pub closed spec fn wf(&self) -> bool {
        self@.wf() && self.raw_shift < 8
    }

    /// What `wf` says of the decoder's state.
    pub proof fn lemma_wf(&self)
        requires
            self.wf(),
        ensures
            self@.wf(),
    {
    }

    /// A decoder on the bytes of one frame.
    pub fn new(data: &'a [u8]) -> (r: RangeDecoder<'a>)
        ensures
            r.wf(),
            r@.wf(),
            r@ == DecoderState::start(data@),
    {
        let first: u8 = if data.len() > 0 {
            data[0]
        } else {
            0
        };
        let mut dec = RangeDecoder {
            data,
            offs: if data.len() > 0 {
                1
            } else {
                0
            },
            rem: first,
            rng: 128,
            val: 127 - (first / 2) as u32,
            raw_byte: 0,
            raw_shift: 0,
            bits: 9,
        };
        proof {
            reveal_with_fuel(DecoderState::normalized, 4);
        }
        dec.normalize();
        dec
    }

    fn normalize(&mut self)
        requires
            old(self)@.in_range(),
            old(self).raw_shift < 8,
            old(self)@.bits >= 33 || (old(self)@.bits == 9 && old(self)@.rng == 128),
        ensures
            final(self).wf(),
            final(self)@.wf(),
            final(self)@ == old(self)@.normalized(),
            old(self)@.bits <= final(self)@.bits <= old(self)@.bits + 24,
    {
        proof {
            lemma_normalized_bits(self@);
        }
        while self.rng <= 0x80_0000
            invariant
                self@.in_range(),
                self.raw_shift < 8,
                self@.normalized() == old(self)@.normalized(),
                self@.bits >= 33 || (self@.bits == 9 && self@.rng == 128) || (self@.bits == 17
                    && self@.rng == 128 * 256) || (self@.bits == 25 && self@.rng == 128 * 65536),
            decreases 0x8000_0000 - self.rng,
        {
            proof {
                reveal(DecoderState::normalized);
            }
            let ghost before = self@;
            let next: u8 = if self.offs < self.data.len() {
                self.data[self.offs]
            } else {
                0
            };
            let sym: u32 = ((self.rem as u32 * 256 + next as u32) / 2) % 256;
            self.rng = self.rng * 256;
            self.val = self.val * 256 + (255 - sym);
            self.rem = next;
            if self.offs < self.data.len() {
                self.offs = self.offs + 1;
            }
            self.bits = if self.bits + 8 < BIT_LIMIT {
                self.bits + 8
            } else {
                BIT_LIMIT
            };
            assert(self@ == before.shift_in());
        }
        proof {
            reveal(DecoderState::normalized);
        }
    }

    /// The cumulative frequency, out of `ft`, that the code value names.
    pub fn decode(&self, ft: u32) -> (r: u32)
        requires
            self.wf(),
            0 < ft <= 0x1_0000,
        ensures
            r == self@.freq(ft as int),
            r < ft,
    {
        let ext: u32 = self.rng / ft;
        proof {
            math::lemma_div(self.rng as int, ft as int);
            if ext == 0 {
                assert(ft * ext == 0) by (nonlinear_arith)
                    requires
                        ext == 0,
                ;
            }
            math::lemma_div(self.val as int, ext as int);
        }
        let s: u32 = self.val / ext;
        if s >= ft {
            0
        } else {
            ft - (s + 1)
        }
    }

    /// Consumes the symbol `[fl, fh)` out of `ft`, which must hold what
    /// `decode` returned.
    pub fn update(&mut self, fl: u32, fh: u32, ft: u32)
        requires
            old(self).wf(),
            fl < fh <= ft <= 0x1_0000,
            fl <= old(self)@.freq(ft as int) < fh,
        ensures
            final(self).wf(),
            final(self)@.wf(),
            final(self)@ == old(self)@.narrowed(fl as int, fh as int, ft as int),
            old(self)@.bits <= final(self)@.bits <= old(self)@.bits + 24,
    {
        proof {
            reveal(DecoderState::narrowed);
            lemma_narrow(self@, fl as int, fh as int, ft as int);
        }
        let ext: u32 = self.rng / ft;
        let s: u32 = ext * (ft - fh);
        self.val = self.val - s;
        if fl > 0 {
            self.rng = ext * (fh - fl);
        } else {
            self.rng = self.rng - s;
        }
        self.normalize();
    }

    /// Decodes a bit whose probability of being set is `2^-logp`.
    pub fn decode_bit_logp(&mut self, logp: u32) -> (r: bool)
        requires
            old(self).wf(),
            0 < logp <= 16,
        ensures
            final(self).wf(),
            final(self)@.wf(),
            r == old(self)@.bit(logp as int),
            final(self)@ == old(self)@.after_bit(logp as int),
            old(self)@.bits <= final(self)@.bits <= old(self)@.bits + 24,
    {
        let p: u32 = pow2_u32(logp);
        proof {
            reveal(DecoderState::bit);
            reveal(DecoderState::after_bit);
            lemma2_to64();
            if logp > 1 {
                lemma_pow2_strictly_increases(1, logp as nat);
            }
            if logp < 16 {
                lemma_pow2_strictly_increases(logp as nat, 16);
            }
            math::lemma_div(self.rng as int, p as int);
        }
        let s: u32 = self.rng / p;
        proof {
            assert(p * s >= 2 * s) by (nonlinear_arith)
                requires
                    p >= 2,
            ;
            if s == 0 {
                assert(p * s == 0) by (nonlinear_arith)
                    requires
                        s == 0,
                ;
            }
        }
        let r: bool = self.val < s;
        if r {
            self.rng = s;
        } else {
            self.val = self.val - s;
            self.rng = self.rng - s;
        }
        self.normalize();
        r
    }

    /// Decodes a symbol of an inverse cumulative table of total `2^ftb`.
    pub fn decode_icdf(&mut self, icdf: &[u8], ftb: u32) -> (r: usize)
        requires
            old(self).wf(),
            icdf_ok(icdf@, ftb as int),
        ensures
            final(self).wf(),
            final(self)@.wf(),
            r < icdf@.len(),
            r == old(self)@.icdf(icdf@, ftb as int),
            final(self)@ == old(self)@.after_icdf(icdf@, ftb as int),
            old(self)@.bits <= final(self)@.bits <= old(self)@.bits + 24,
    {
        let p: u32 = pow2_u32(ftb);
        let ghost st = self@;
        proof {
            reveal(DecoderState::icdf);
            reveal(DecoderState::after_icdf);
            math::lemma_div(self.rng as int, p as int);
        }
        let r: u32 = self.rng / p;
        proof {
            assert forall|k: int| 0 <= k < icdf@.len() implies 0 <= r * (#[trigger] icdf@[k]) <= st.rng by {
                let e = icdf@[k] as int;
                assert(0 <= r * e <= r * p) by (nonlinear_arith)
                    requires
                        0 <= e <= p,
                        r >= 0,
                ;
                assert(r * p == p * r) by (nonlinear_arith);
            }
        }
        let len: usize = icdf.len();
        let mut k: usize = 0;
        let mut t: u32 = self.rng;
        let mut s: u32 = r * icdf[0] as u32;
        while self.val < s
            invariant
                self@ == st,
                self.raw_shift < 8,
                st.wf(),
                len == icdf@.len(),
                k < len,
                icdf@[icdf@.len() - 1] == 0,
                forall|k: int| 0 <= k < icdf@.len() ==> 0 <= r * (#[trigger] icdf@[k]) <= st.rng,
                s == r * icdf@[k as int],
                st.val < t <= st.rng,
                t == if k > 0 {
                    r * icdf@[k - 1]
                } else {
                    st.rng
                },
                icdf_symbol(icdf@, r as int, st.val, 0) == icdf_symbol(icdf@, r as int, st.val, k as int),
            decreases icdf@.len() - k,
        {
            proof {
                if k == icdf@.len() - 1 {
                    assert(r * icdf@[k as int] == 0) by (nonlinear_arith)
                        requires
                            icdf@[k as int] == 0,
                    ;
                }
            }
            t = s;
            k = k + 1;
            s = r * icdf[k] as u32;
        }
        self.val = self.val - s;
        self.rng = t - s;
        self.normalize();
        k
    }

    /// Decodes `n` raw bits from the back of the buffer.
    pub fn decode_raw_bits(&mut self, n: u32) -> (r: u32)
        requires
            old(self).wf(),
            n <= 25,
        ensures
            final(self).wf(),
            final(self)@.wf(),
            r == old(self)@.raw_bits(n as int),
            r < pow2(n as nat),
            final(self)@ == old(self)@.after_raw(n as int),
            old(self)@.bits <= final(self)@.bits <= old(self)@.bits + n,
    {
        proof {
            reveal(DecoderState::raw_bits);
            reveal(DecoderState::after_raw);
        }
        let len: usize = self.data.len();
        let ghost st = self@;
        let mut v: u32 = 0;
        let mut i: u32 = n;
        proof {
            lemma2_to64();
        }
        while i > 0
            invariant
                i <= n <= 25,
                self@ == st,
                self.wf(),
                len == self.data@.len(),
                v == raw_value(st.data, st.raw + i, (n - i) as nat),
            decreases i,
        {
            i = i - 1;
            proof {
                lemma_raw_value(st.data, st.raw + i + 1, (n - i - 1) as nat);
                lemma_raw_value(st.data, st.raw + i, (n - i) as nat);
                lemma2_to64();
                if n - i < 25 {
                    lemma_pow2_strictly_increases((n - i) as nat, 25);
                }
                assert(raw_value(st.data, st.raw + i, (n - i) as nat) == raw_bit(st.data, st.raw + i) + 2
                    * raw_value(st.data, st.raw + i + 1, (n - i - 1) as nat));
            }
            let q: u32 = self.raw_shift + i;
            let step: usize = (q / 8) as usize;
            let bit: u32 = if self.raw_byte < len && step < len - self.raw_byte {
                let at: usize = len - 1 - self.raw_byte - step;
                (self.data[at] as u32 / pow2_u32(q % 8)) % 2
            } else {
                0
            };
            proof {
                assert((st.raw + i) / 8 == self.raw_byte + step);
                assert((st.raw + i) % 8 == q % 8);
                assert(bit == raw_bit(st.data, st.raw + i));
            }
            v = v * 2 + bit;
        }
        proof {
            lemma_raw_value(st.data, st.raw, n as nat);
        }
        let q: u32 = self.raw_shift + n;
        let step: usize = (q / 8) as usize;
        if self.raw_byte < len && step < len - self.raw_byte {
            self.raw_byte = self.raw_byte + step;
            self.raw_shift = q % 8;
        } else {
            self.raw_byte = len;
            self.raw_shift = 0;
        }
        self.bits = if self.bits + n < BIT_LIMIT {
            self.bits + n
        } else {
            BIT_LIMIT
        };
        v
    }

    /// Decodes a uniform value out of `ft` values; `None` where the stream
    /// holds one that is not below `ft`.
    pub fn decode_uint(&mut self, ft: u32) -> (r: Option<u32>)
        requires
            old(self).wf(),
            ft > 1,
        ensures
            final(self).wf(),
            final(self)@.wf(),
            final(self)@ == old(self)@.after_uint(ft as int),
            old(self)@.bits <= final(self)@.bits <= old(self)@.bits + 48,
            r is Some <==> old(self)@.uint(ft as int) < ft,
            r is Some ==> r->0 == old(self)@.uint(ft as int),
    {
        proof {
            reveal(DecoderState::uint);
            reveal(DecoderState::after_uint);
            lemma_uint_split(ft as int);
        }
        let l: u32 = ec_ilog(ft - 1);
        if l > 8 {
            let low: u32 = l - 8;
            let p: u32 = pow2_u32(low);
            let total: u32 = (ft - 1) / p + 1;
            let s: u32 = self.decode(total);
            self.update(s, s + 1, total);
            let v: u32 = self.decode_raw_bits(low);
            proof {
                let t = total as int;
                assert(s * p + p <= t * p) by (nonlinear_arith)
                    requires
                        s + 1 <= t,
                        p > 0,
                ;
            }
            let t: u32 = s * p + v;
            if t <= ft - 1 {
                Some(t)
            } else {
                None
            }
        } else {
            let s: u32 = self.decode(ft);
            self.update(s, s + 1, ft);
            Some(s)
        }
    }

    /// The number of whole bits used so far, rounded up.
    pub fn tell(&self) -> (r: u32)
        requires
            self.wf(),
        ensures
            r == self@.tell(),
            1 <= r <= BIT_LIMIT,
    {
        proof {
            lemma_tell(self@);
        }
        self.bits - ec_ilog(self.rng)
    }

    /// The number of eighth bits used so far, rounded up.
    pub fn tell_frac(&self) -> (r: u32)
        requires
            self.wf(),
        ensures
            r == self@.tell_frac(),
            1 <= r <= 8 * BIT_LIMIT,
            8 * self@.bits - 263 <= r <= 8 * self@.bits - 192,
    {
        proof {
            lemma_tell_frac(self@);
            reveal(DecoderState::tell_frac);
        }
        8 * self.bits - exec_log_frac(self.rng)
    }

    /// The size of the current interval, the fingerprint that both ends of a
    /// correct transmission share.
    pub fn range_size(&self) -> (r: u32)
        ensures
            r == self@.rng,
    {
        self.rng
    }

    /// Counts the whole frame as used, where less was.
    pub fn force_tell(&mut self, total_bits: u32)
        requires
            old(self).wf(),
        ensures
            final(self).wf(),
            final(self)@.wf(),
            final(self)@ == old(self)@.forced(total_bits as int),
    {
        let t: u32 = self.tell();
        if total_bits > t {
            let n: u32 = total_bits - t;
            self.bits = if n < BIT_LIMIT - self.bits {
                self.bits + n
            } else {
                BIT_LIMIT
            };
        }
    }

    /// Leaves only the first `len` bytes of the buffer to the decoder. No raw
    /// bits may have been read yet.
    pub fn shrink_storage(&mut self, len: usize)
        requires
            old(self).wf(),
            len <= old(self)@.data.len(),
            old(self)@.raw == 0,
        ensures
            final(self).wf(),
            final(self)@.wf(),
            final(self)@ == old(self)@.shrunk(len as int),
    {
        self.data = vstd::slice::slice_subrange(self.data, 0, len);
        if self.offs > len {
            self.offs = len;
        }
        assert(self@.data == old(self)@.data.take(len as int));
    }
}

/// Eight times the base-two logarithm of an interval size, from its sixteen
/// leading bits.
pub fn exec_log_frac(rng: u32) -> (r: u32)
    requires
        0x80_0000 < rng <= 0x8000_0000,
    ensures
        r == log_frac(rng as int),
        192 <= r < 264,
{
    proof {
        lemma_mantissa(rng as int);
        lemma2_to64();
        lemma_log_steps(math::ilog(rng as int), rng as int / pow2((math::ilog(rng as int) - 16) as nat) as int);
    }
    let mut l: u32 = ec_ilog(rng);
    let mut r: u32 = rng / pow2_u32(l - 16);
    let mut i: u32 = 0;
    let ghost whole = log_frac(rng as int);
    while i < 3
        invariant
            i <= 3,
            32768 <= r <= 65535,
            i == 0 ==> l <= 32,
            i == 1 ==> l <= 65,
            i == 2 ==> l <= 131,
            i == 3 ==> l <= 263,
            whole == log_steps(l as int, r as int, (3 - i) as nat),
        decreases 3 - i,
    {
        proof {
            lemma2_to64();
            assert(32768 * 32768 <= r * r <= 65535 * 65535) by (nonlinear_arith)
                requires
                    32768 <= r <= 65535,
            ;
        }
        let s: u32 = r * r / 32768;
        let b: u32 = s / 65536;
        l = 2 * l + b;
        r = if b > 0 {
            s / 2
        } else {
            s
        };
        i = i + 1;
    }
    l
}

} // verus!
