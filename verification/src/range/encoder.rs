//! The range encoder.

use vstd::arithmetic::power2::{lemma2_to64, lemma_pow2_adds, lemma_pow2_pos, lemma_pow2_strictly_increases, lemma_pow2_unfold, pow2};
use vstd::prelude::*;

use crate::math::{self, ec_ilog, pow2_u32};
use crate::range::decoder::{self, exec_log_frac, DecoderState, BIT_LIMIT};

verus! {

/// `256^n`.
pub open spec fn pow256(n: nat) -> int
    decreases n,
{
    if n == 0 {
        1
    } else {
        256 * pow256((n - 1) as nat)
    }
}

/// The number that a byte string spells, highest byte first.
pub open spec fn be_value(s: Seq<u8>) -> int
    decreases s.len(),
{
    if s.len() == 0 {
        0
    } else {
        be_value(s.drop_last()) * 256 + s.last()
    }
}

/// The lowest `n` bytes of `v`, highest byte first.
pub open spec fn be_bytes(v: int, n: nat) -> Seq<u8>
    decreases n,
{
    if n == 0 {
        Seq::empty()
    } else {
        be_bytes(v / 256, (n - 1) as nat).push((v % 256) as u8)
    }
}

/// Bit `i` of `v`.
pub open spec fn bit_of(v: int, i: nat) -> bool {
    (v / pow2(i) as int) % 2 == 1
}

/// The lowest `n` bits of `v`, lowest bit first.
pub open spec fn bits_of(v: int, n: nat) -> Seq<bool> {
    Seq::new(n, |i: int| bit_of(v, i as nat))
}

/// The value of the bits from `p` on, at most `n` of them, lowest bit first.
pub open spec fn bits_value(bits: Seq<bool>, p: int, n: nat) -> int
    decreases n,
{
    if n == 0 {
        0
    } else {
        (if 0 <= p < bits.len() && bits[p] { 1int } else { 0int }) + 2 * bits_value(bits, p + 1, (n - 1) as nat)
    }
}

/// The smallest multiple of `m` that is not below `x`.
pub open spec fn round_up(x: int, m: int) -> int {
    m * ((x + m - 1) / m)
}

/// What a range encoder is: an interval `[low, low + rng)` of fractions with
/// `31 + 8 * count` bits, the raw bits so far, and the size of the buffer.
#[verifier::ext_equal]
pub struct EncoderState {
    pub low: int,
    pub rng: int,
    pub count: nat,
    pub raw: Seq<bool>,
    pub bits: int,
    pub size: int,
}

impl EncoderState {
    /// The interval is not empty and lies within the unit interval.
    pub open spec fn in_range(self) -> bool {
        &&& 0 < self.rng <= 0x8000_0000
        &&& 0 <= self.low
        &&& self.low + self.rng <= pow256(self.count) * 0x8000_0000
        &&& 33 <= self.bits <= BIT_LIMIT
        &&& self.size >= 0
    }

    /// A state between two symbols.
    pub open spec fn wf(self) -> bool {
        self.in_range() && self.rng > 0x80_0000
    }

    /// The bits used are those of the window and the raw bits.
    pub open spec fn counted(self) -> bool {
        self.bits == 33 + 8 * self.count + self.raw.len()
    }

    /// The encoder of an empty buffer of `size` bytes.
    pub open spec fn start(size: int) -> EncoderState {
        EncoderState { low: 0, rng: 0x8000_0000, count: 0, raw: Seq::empty(), bits: 33, size }
    }

    /// Eight more bits of precision.
    pub open spec fn shift_out(self) -> EncoderState {
        EncoderState {
            low: self.low * 256,
            rng: self.rng * 256,
            count: self.count + 1,
            bits: decoder::add_bits(self.bits, 8),
            ..self
        }
    }

    /// Precision grows until the interval is larger than `2^23`.
    #[verifier::opaque]
    pub open spec fn normalized(self) -> EncoderState
        decreases 0x8000_0000 - self.rng,
    {
        if 0 < self.rng <= 0x80_0000 {
            self.shift_out().normalized()
        } else {
            self
        }
    }

    /// The part of the interval of size `rng` that starts `d` above its start.
    pub open spec fn part(self, d: int, rng: int) -> EncoderState {
        EncoderState { low: self.low + d, rng, ..self }.normalized()
    }

    /// The interval narrowed to the symbol `[fl, fh)` out of `ft`.
    #[verifier::opaque]
    pub open spec fn narrowed(self, fl: int, fh: int, ft: int) -> EncoderState {
        let ext = self.rng / ft;
        if fl > 0 {
            self.part(self.rng - ext * (ft - fl), ext * (fh - fl))
        } else {
            self.part(0, self.rng - ext * (ft - fh))
        }
    }

    /// The state after a bit whose probability of being set is `2^-logp`.
    #[verifier::opaque]
    pub open spec fn after_bit(self, bit: bool, logp: int) -> EncoderState {
        let s = self.rng / pow2(logp as nat) as int;
        if bit {
            self.part(self.rng - s, s)
        } else {
            self.part(0, self.rng - s)
        }
    }

    /// The state after symbol `k` of an inverse cumulative table of total
    /// `2^ftb`.
    #[verifier::opaque]
    pub open spec fn after_icdf(self, k: int, icdf: Seq<u8>, ftb: int) -> EncoderState {
        let r = self.rng / pow2(ftb as nat) as int;
        if k > 0 {
            self.part(self.rng - r * icdf[k - 1], r * (icdf[k - 1] - icdf[k]))
        } else {
            self.part(0, self.rng - r * icdf[0])
        }
    }

    /// The state after the `n` low bits of `v` as raw bits.
    #[verifier::opaque]
    pub open spec fn after_raw(self, v: int, n: int) -> EncoderState {
        EncoderState {
            raw: self.raw + bits_of(v, n as nat),
            bits: decoder::add_bits(self.bits, n),
            ..self
        }
    }

    /// The state after the uniform value `v` out of `ft` values.
    #[verifier::opaque]
    pub open spec fn after_uint(self, v: int, ft: int) -> EncoderState {
        let low = DecoderState::uint_low_bits(ft);
        let p = pow2(low as nat) as int;
        let coded = self.narrowed(v / p, v / p + 1, DecoderState::uint_total(ft));
        if low > 0 {
            coded.after_raw(v % p, low)
        } else {
            coded
        }
    }

    /// The number of whole bits used so far, rounded up.
    pub open spec fn tell(self) -> int {
        self.bits - math::ilog(self.rng)
    }

    /// The number of eighth bits used so far, rounded up.
    #[verifier::opaque]
    pub open spec fn tell_frac(self) -> int {
        8 * self.bits - decoder::log_frac(self.rng)
    }

    /// The number of leading bits of the window that must be sent to name a
    /// fraction inside the interval whatever follows.
    pub open spec fn flush_bits(self) -> int {
        let l = 32 - math::ilog(self.rng);
        let m = pow2((31 - l) as nat) as int;
        if round_up(self.low, m) + m > self.low + self.rng {
            l + 1
        } else {
            l
        }
    }

    /// The fraction that the encoder settles on.
    pub open spec fn flush_value(self) -> int {
        round_up(self.low, pow2((31 - self.flush_bits()) as nat) as int)
    }

    /// The number of bytes that spell it.
    pub open spec fn flush_len(self) -> nat {
        self.count + ((self.flush_bits() + 7) / 8) as nat
    }

    /// The number of low bits of the last of these bytes that are not needed.
    pub open spec fn flush_spare(self) -> int {
        8 * ((self.flush_bits() + 7) / 8) - self.flush_bits()
    }

    /// The bytes that spell it.
    pub open spec fn flush_bytes(self) -> Seq<u8> {
        be_bytes(
            self.flush_value() * pow256(((self.flush_bits() + 7) / 8) as nat) / 0x8000_0000,
            self.flush_len(),
        )
    }

    /// Whether the coded bits and the raw bits fit the buffer together.
    pub open spec fn fits(self) -> bool {
        8 * self.flush_len() + self.raw.len() <= 8 * self.size + self.flush_spare()
    }

    /// The finished buffer: the coded bytes from the front, the raw bits from
    /// the back, zeros between.
    pub open spec fn finished(self) -> Seq<u8> {
        let front = self.flush_bytes();
        Seq::new(
            self.size as nat,
            |i: int|
                ((if i < front.len() { front[i] as int } else { 0 }) + bits_value(
                    self.raw,
                    8 * (self.size - 1 - i),
                    8,
                )) as u8,
        )
    }
}

pub proof fn lemma_be_push(s: Seq<u8>, b: u8)
    ensures
        be_value(s.push(b)) == be_value(s) * 256 + b,
{
    assert(s.push(b).drop_last() =~= s);
}

pub proof fn lemma_be_bound(s: Seq<u8>)
    ensures
        0 <= be_value(s) < pow256(s.len()),
    decreases s.len(),
{
    if s.len() > 0 {
        lemma_be_bound(s.drop_last());
    }
}

/// A byte string is spelled by its own value.
pub proof fn lemma_be_unique(s: Seq<u8>)
    ensures
        be_bytes(be_value(s), s.len()) == s,
    decreases s.len(),
{
    if s.len() > 0 {
        lemma_be_unique(s.drop_last());
        let v = be_value(s);
        assert(v / 256 == be_value(s.drop_last()));
        assert(v % 256 == s.last());
        assert(s =~= s.drop_last().push(s.last()));
    } else {
        assert(s =~= Seq::<u8>::empty());
    }
}

pub proof fn lemma_bits_value(bits: Seq<bool>, p: int, n: nat)
    ensures
        0 <= bits_value(bits, p, n) < pow2(n),
        p >= bits.len() ==> bits_value(bits, p, n) == 0,
        p <= bits.len() <= p + n ==> bits_value(bits, p, n) < pow2((bits.len() - p) as nat),
    decreases n,
{
    lemma2_to64();
    if n > 0 {
        lemma_bits_value(bits, p + 1, (n - 1) as nat);
        lemma_pow2_unfold(n);
        if p < bits.len() <= p + n {
            lemma_pow2_unfold((bits.len() - p) as nat);
        }
    }
}

proof fn lemma_round_up(x: int, m: int)
    requires
        m > 0,
    ensures
        x <= round_up(x, m) < x + m,
{
    math::lemma_div(x + m - 1, m);
}

/// Whole multiples of `m` pass through rounding.
proof fn lemma_round_up_shift(x: int, m: int, q: int)
    requires
        m > 0,
    ensures
        round_up(m * q + x, m) == m * q + round_up(x, m),
{
    math::lemma_div(x + m - 1, m);
    let t = (x + m - 1) / m;
    assert(m * (q + t) == m * q + m * t) by (nonlinear_arith);
    math::lemma_div_unique(m * q + x + m - 1, m, q + t);
}

/// What the flush settles on lies in the interval, whatever bits follow it.
pub proof fn lemma_flush(st: EncoderState)
    requires
        st.wf(),
    ensures
        0 <= st.flush_bits() <= 9,
        st.low <= st.flush_value(),
        st.flush_value() + pow2((31 - st.flush_bits()) as nat) <= st.low + st.rng,
{
    lemma2_to64();
    math::lemma_ilog_gt(st.rng, 23);
    math::lemma_ilog_le(st.rng, 32);
    math::lemma_ilog(st.rng);
    let l = 32 - math::ilog(st.rng);
    let m = pow2((31 - l) as nat) as int;
    lemma_pow2_pos((31 - l) as nat);
    lemma_round_up(st.low, m);
    if round_up(st.low, m) + m > st.low + st.rng {
        lemma_pow2_unfold((31 - l) as nat);
        let m1 = pow2((30 - l) as nat) as int;
        lemma_pow2_pos((30 - l) as nat);
        lemma_round_up(st.low, m1);
    }
}

/// Why a buffer could not be finished.
#[derive(Clone, Copy, Debug, PartialEq, Eq, Structural)]
pub enum RangeEncoderError {
    /// The coded data does not fit the buffer.
    BufferFull,
}

/// Encodes symbols at the front of a buffer and raw bits at its back.
pub struct RangeEncoder {
    size: usize,
    front: Vec<u8>,
    val: u32,
    rng: u32,
    raw: Vec<bool>,
    bits: u32,
}

impl View for RangeEncoder {
    type V = EncoderState;

    closed spec fn view(&self) -> EncoderState {
        EncoderState {
            low: be_value(self.front@) * 0x8000_0000 + self.val,
            rng: self.rng as int,
            count: self.front@.len(),
            raw: self.raw@,
            bits: self.bits as int,
            size: self.size as int,
        }
    }
}

/// Adds one to the number that `front` spells.
fn propagate_carry(front: &mut Vec<u8>)
    requires
        be_value(old(front)@) + 1 < pow256(old(front)@.len()),
    ensures
        final(front)@.len() == old(front)@.len(),
        be_value(final(front)@) == be_value(old(front)@) + 1,
    decreases old(front)@.len(),
{
    let ghost before = front@;
    proof {
        if before.len() == 0 {
            assert(false);
        }
    }
    if let Some(b) = front.pop() {
        assert(front@ =~= before.drop_last());
        if b == 255 {
            propagate_carry(front);
            proof {
                lemma_be_push(front@, 0);
            }
            front.push(0);
        } else {
            proof {
                lemma_be_push(front@, (b + 1) as u8);
            }
            front.push(b + 1);
        }
    }
}

impl RangeEncoder {
    /// Whether the encoder stands between two symbols and has counted all of them, as far
    /// as its counter goes.
    pub closed spec fn wf(&self) -> bool {
        &&& self@.wf()
        &&& self.val < 0x8000_0000
        &&& self@.bits < BIT_LIMIT ==> self@.counted()
    }

    /// What `wf` says of the encoder's state.
    pub proof fn lemma_wf(&self)
        requires
            self.wf(),
        ensures
            self@.wf(),
            self@.bits < BIT_LIMIT ==> self@.counted(),
    {
    }

    /// What was written fits the buffer, as long as the bits used, rounded up, are not
    /// more than the buffer has.
    pub proof fn lemma_room(&self)
        requires
            self.wf(),
            8 * self@.size + 32 < BIT_LIMIT,
            self@.tell() <= 8 * self@.size,
        ensures
            self@.fits(),
    {
        lemma2_to64();
        math::lemma_ilog_le(self@.rng, 32);
        crate::range::symbols::lemma_counted_fits(self@);
    }

    /// An encoder that will fill a buffer of `size` bytes.
    pub fn new(size: usize) -> (r: RangeEncoder)
        ensures
            r.wf(),
            r@.wf(),
            r@ == EncoderState::start(size as int),
    {
        let r = RangeEncoder { size, front: Vec::new(), val: 0, rng: 0x8000_0000, raw: Vec::new(), bits: 33 };
        assert(r@ == EncoderState::start(size as int));
        r
    }

    /// Keeps the part of the interval of size `rng` that starts `d` above its
    /// start.
    fn take_part(&mut self, d: u32, rng: u32)
        requires
            old(self).wf(),
            rng > 0,
            d + rng <= old(self)@.rng,
        ensures
            final(self).wf(),
            final(self)@.wf(),
            final(self)@.size == old(self)@.size,
            final(self)@ == old(self)@.part(d as int, rng as int),
    {
        let ghost target = EncoderState { low: self@.low + d, rng: rng as int, ..self@ };
        self.val = self.val + d;
        self.rng = rng;
        if self.val >= 0x8000_0000 {
            self.val = self.val - 0x8000_0000;
            propagate_carry(&mut self.front);
        }
        assert(self@ == target);
        while self.rng <= 0x80_0000
            invariant
                self@.in_range(),
                self.val < 0x8000_0000,
                self@.bits < BIT_LIMIT ==> self@.counted(),
                self@.size == target.size,
                self@.normalized() == target.normalized(),
            decreases 0x8000_0000 - self.rng,
        {
            let ghost before = self@;
            let b: u8 = (self.val / 0x80_0000) as u8;
            proof {
                reveal(EncoderState::normalized);
                lemma_be_push(self.front@, b);
            }
            self.front.push(b);
            self.val = (self.val % 0x80_0000) * 256;
            self.rng = self.rng * 256;
            self.bits = if self.bits + 8 < BIT_LIMIT {
                self.bits + 8
            } else {
                BIT_LIMIT
            };
            assert(self@ == before.shift_out());
        }
        proof {
            reveal(EncoderState::normalized);
        }
    }

    /// Encodes the symbol `[fl, fh)` out of `ft`.
    pub fn encode(&mut self, fl: u32, fh: u32, ft: u32)
        requires
            old(self).wf(),
            fl < fh <= ft <= 0x1_0000,
        ensures
            final(self).wf(),
            final(self)@.wf(),
            final(self)@.size == old(self)@.size,
            final(self)@ == old(self)@.narrowed(fl as int, fh as int, ft as int),
    {
        let ext: u32 = self.rng / ft;
        proof {
            reveal(EncoderState::narrowed);
            let rng = self.rng as int;
            math::lemma_div(rng, ft as int);
            if ext == 0 {
                assert(ft * ext == 0) by (nonlinear_arith)
                    requires
                        ext == 0,
                ;
            }
            assert(ext * (ft - fl) <= ft * ext) by (nonlinear_arith)
                requires
                    ext >= 0,
                    fl >= 0,
            ;
            assert(0 <= ext * (ft - fh) <= ext * (ft - fl)) by (nonlinear_arith)
                requires
                    ext >= 0,
                    0 <= fl < fh <= ft,
            ;
            assert(ext * (ft - fl) == ext * (ft - fh) + ext * (fh - fl)) by (nonlinear_arith);
            assert(ext * (fh - fl) > 0) by (nonlinear_arith)
                requires
                    ext > 0,
                    fl < fh,
            ;
        }
        if fl > 0 {
            self.take_part(self.rng - ext * (ft - fl), ext * (fh - fl));
        } else {
            self.take_part(0, self.rng - ext * (ft - fh));
        }
    }

    /// Encodes a bit whose probability of being set is `2^-logp`.
    pub fn encode_bit_logp(&mut self, bit: bool, logp: u32)
        requires
            old(self).wf(),
            0 < logp <= 16,
        ensures
            final(self).wf(),
            final(self)@.wf(),
            final(self)@.size == old(self)@.size,
            final(self)@ == old(self)@.after_bit(bit, logp as int),
    {
        let p: u32 = pow2_u32(logp);
        proof {
            reveal(EncoderState::after_bit);
            lemma2_to64();
            if logp > 1 {
                lemma_pow2_strictly_increases(1, logp as nat);
            }
            if logp < 16 {
                lemma_pow2_strictly_increases(logp as nat, 16);
            }
            math::lemma_div(self.rng as int, p as int);
        }
        let s: u32 = self.rng / p;
        proof {
            assert(p * s >= 2 * s) by (nonlinear_arith)
                requires
                    p >= 2,
            ;
            if s == 0 {
                assert(p * s == 0) by (nonlinear_arith)
                    requires
                        s == 0,
                ;
            }
        }
        if bit {
            self.take_part(self.rng - s, s);
        } else {
            self.take_part(0, self.rng - s);
        }
    }

    /// Encodes symbol `k` of an inverse cumulative table of total `2^ftb`. The
    /// symbol's probability must not be zero.
    pub fn encode_icdf(&mut self, k: usize, icdf: &[u8], ftb: u32)
        requires
            old(self).wf(),
            decoder::icdf_ok(icdf@, ftb as int),
            k < icdf@.len(),
            k > 0 ==> icdf@[k - 1] > icdf@[k as int],
            k == 0 ==> icdf@[0] < pow2(ftb as nat),
        ensures
            final(self).wf(),
            final(self)@.wf(),
            final(self)@.size == old(self)@.size,
            final(self)@ == old(self)@.after_icdf(k as int, icdf@, ftb as int),
    {
        let p: u32 = pow2_u32(ftb);
        let r: u32 = self.rng / p;
        proof {
            reveal(EncoderState::after_icdf);
            lemma2_to64();
            if ftb < 8 {
                lemma_pow2_strictly_increases(ftb as nat, 8);
            }
            math::lemma_div(self.rng as int, p as int);
            if r == 0 {
                assert(p * r == 0) by (nonlinear_arith)
                    requires
                        r == 0,
                ;
            }
        }
        if k > 0 {
            let hi: u32 = icdf[k - 1] as u32;
            let lo: u32 = icdf[k] as u32;
            proof {
                assert(r * hi <= p * r) by (nonlinear_arith)
                    requires
                        hi <= p,
                        r >= 0,
                ;
                assert(0 < r * (hi - lo) <= r * hi) by (nonlinear_arith)
                    requires
                        0 <= lo < hi,
                        r > 0,
                ;
            }
            self.take_part(self.rng - r * hi, r * (hi - lo));
        } else {
            let lo: u32 = icdf[0] as u32;
            proof {
                assert(r * lo <= p * r - r) by (nonlinear_arith)
                    requires
                        lo + 1 <= p,
                        r > 0,
                ;
            }
            self.take_part(0, self.rng - r * lo);
        }
    }

    /// Encodes the `n` low bits of `v` at the back of the buffer.
    pub fn encode_raw_bits(&mut self, v: u32, n: u32)
        requires
            old(self).wf(),
            n <= 25,
        ensures
            final(self).wf(),
            final(self)@.wf(),
            final(self)@.size == old(self)@.size,
            final(self)@ == old(self)@.after_raw(v as int, n as int),
    {
        let ghost before = self@;
        let mut i: u32 = 0;
        while i < n
            invariant
                i <= n <= 25,
                self.raw@ == before.raw + bits_of(v as int, i as nat),
                self@ == (EncoderState { raw: self.raw@, ..before }),
                self@.wf(),
                self.val < 0x8000_0000,
            decreases n - i,
        {
            let b: bool = (v / pow2_u32(i)) % 2 == 1;
            self.raw.push(b);
            i = i + 1;
            assert(self.raw@ =~= before.raw + bits_of(v as int, i as nat));
        }
        self.bits = if self.bits + n < BIT_LIMIT {
            self.bits + n
        } else {
            BIT_LIMIT
        };
        proof {
            reveal(EncoderState::after_raw);
        }
    }

    /// Encodes the uniform value `v` out of `ft` values.
    pub fn encode_uint(&mut self, v: u32, ft: u32)
        requires
            old(self).wf(),
            v < ft,
            ft > 1,
        ensures
            final(self).wf(),
            final(self)@.wf(),
            final(self)@.size == old(self)@.size,
            final(self)@ == old(self)@.after_uint(v as int, ft as int),
    {
        proof {
            reveal(EncoderState::after_uint);
            decoder::lemma_uint_split(ft as int);
        }
        let l: u32 = ec_ilog(ft - 1);
        if l > 8 {
            let low: u32 = l - 8;
            let p: u32 = pow2_u32(low);
            let total: u32 = (ft - 1) / p + 1;
            let high: u32 = v / p;
            proof {
                vstd::arithmetic::div_mod::lemma_div_is_ordered(v as int, ft - 1, p as int);
            }
            self.encode(high, high + 1, total);
            self.encode_raw_bits(v % p, low);
        } else {
            proof {
                lemma2_to64();
                assert(v as int / 1int == v);
            }
            self.encode(v, v + 1, ft);
        }
    }

    /// The number of whole bits used so far, rounded up.
    pub fn tell(&self) -> (r: u32)
        requires
            self.wf(),
        ensures
            r == self@.tell(),
            1 <= r <= BIT_LIMIT,
    {
        proof {
            lemma2_to64();
            math::lemma_ilog_gt(self.rng as int, 23);
            math::lemma_ilog_le(self.rng as int, 32);
        }
        self.bits - ec_ilog(self.rng)
    }

    /// The number of eighth bits used so far, rounded up.
    pub fn tell_frac(&self) -> (r: u32)
        requires
            self.wf(),
        ensures
            r == self@.tell_frac(),
            1 <= r <= 8 * BIT_LIMIT,
            8 * self@.bits - 263 <= r <= 8 * self@.bits - 192,
    {
        proof {
            reveal(EncoderState::tell_frac);
        }
        8 * self.bits - exec_log_frac(self.rng)
    }

    /// The size of the current interval.
    pub fn range_size(&self) -> (r: u32)
        ensures
            r == self@.rng,
    {
        self.rng
    }

    /// Changes the size of the buffer to be filled.
    pub fn shrink(&mut self, size: usize)
        requires
            old(self).wf(),
        ensures
            final(self).wf(),
            final(self)@.wf(),
            final(self)@ == (EncoderState { size: size as int, ..old(self)@ }),
    {
        self.size = size;
    }

    /// The bytes that spell the fraction the encoder settles on, and the number
    /// of bits of the last byte that are free.
    fn flush(self) -> (r: (Vec<u8>, u32, usize, Vec<bool>))
        requires
            self.wf(),
        ensures
            r.0@ == self@.flush_bytes(),
            r.0@.len() == self@.flush_len(),
            r.1 == self@.flush_spare(),
            r.1 < 8,
            r.1 > 0 ==> r.0@.len() > 0 && r.0@.last() as int % pow2(r.1 as nat) as int == 0,
            r.2 == self@.size,
            r.3@ == self@.raw,
    {
        let ghost st = self@;
        proof {
            lemma2_to64();
            math::lemma_ilog_gt(st.rng, 23);
            math::lemma_ilog_le(st.rng, 32);
            lemma_flush(st);
        }
        let l0: u32 = 32 - ec_ilog(self.rng);
        let m0: u32 = pow2_u32(31 - l0);
        let ghost be = be_value(self.front@);
        proof {
            lemma_pow2_adds((31 - l0) as nat, l0 as nat);
            lemma_flush_window(be, self.val as int, l0 as nat);
            if l0 < 31 {
                lemma_flush_window(be, self.val as int, (l0 + 1) as nat);
            }
        }
        let mut l: u32 = l0;
        let mut m: u32 = m0;
        let mut end: u32 = m0 * ((self.val + (m0 - 1)) / m0);
        if end as u64 + m0 as u64 > self.val as u64 + self.rng as u64 {
            l = l0 + 1;
            proof {
                lemma_pow2_unfold((31 - l0) as nat);
            }
            m = pow2_u32(31 - l);
            end = m * ((self.val + (m - 1)) / m);
        }
        assert(l == st.flush_bits());
        assert(be * 0x8000_0000 + end == st.flush_value());
        let mut front: Vec<u8> = self.front;
        if end >= 0x8000_0000 {
            end = end - 0x8000_0000;
            propagate_carry(&mut front);
        }
        let j: u32 = (l + 7) / 8;
        let mut i: u32 = 0;
        proof {
            let x = st.flush_value();
            assert(pow256(0) == 1);
            assert(x * 1 == x) by (nonlinear_arith);
        }
        while i < j
            invariant
                i <= j <= 2,
                end < 0x8000_0000,
                front@.len() == st.count + i,
                be_value(front@) * 0x8000_0000 + end == st.flush_value() * pow256(i as nat),
            decreases j - i,
        {
            let b: u8 = (end / 0x80_0000) as u8;
            proof {
                lemma_be_push(front@, b);
                assert(pow256((i + 1) as nat) == 256 * pow256(i as nat));
                let x = st.flush_value();
                let q = pow256(i as nat);
                assert(x * (256 * q) == 256 * (x * q)) by (nonlinear_arith);
            }
            front.push(b);
            end = (end % 0x80_0000) * 256;
            i = i + 1;
        }
        let spare: u32 = 8 * j - l;
        proof {
            reveal_with_fuel(pow256, 3);
            lemma_pow2_adds((31 - l) as nat, (8 * j) as nat);
            lemma_pow2_adds(31, spare as nat);
            let t = (st.low + m - 1) / m as int;
            let ps = pow2(spare as nat) as int;
            let p8 = pow256(j as nat);
            assert(p8 == pow2((8 * j) as nat));
            assert(st.flush_value() == m * t);
            assert((m * t) * p8 == t * (m * p8)) by (nonlinear_arith);
            assert(m * p8 == 0x8000_0000 * ps);
            assert(t * (0x8000_0000 * ps) == 0x8000_0000 * (t * ps)) by (nonlinear_arith);
            assert(be_value(front@) * 0x8000_0000 + end == 0x8000_0000 * (t * ps));
            assert(end == 0);
            assert(be_value(front@) == t * ps);
            lemma_be_unique(front@);
            if spare > 0 {
                let last = front@.last() as int;
                lemma_pow2_adds(spare as nat, (8 - spare) as nat);
                let pr = pow2((8 - spare) as nat) as int;
                let h = be_value(front@.drop_last());
                assert(t * ps - h * 256 == last);
                assert(t * ps - h * (ps * pr) == (t - h * pr) * ps) by (nonlinear_arith);
                vstd::arithmetic::div_mod::lemma_mod_multiples_basic(t - h * pr, ps);
            }
        }
        (front, spare, self.size, self.raw)
    }

    /// Ends the stream and returns the filled buffer, or an error where the
    /// data does not fit it.
    pub fn finalize(self) -> (r: Result<Vec<u8>, RangeEncoderError>)
        requires
            self.wf(),
        ensures
            r is Ok <==> self@.fits(),
            8 * self@.size + 32 < BIT_LIMIT && self@.tell() <= 8 * self@.size ==> r is Ok,
            r is Ok ==> r->Ok_0@ == self@.finished(),
            r is Err ==> r->Err_0 == RangeEncoderError::BufferFull,
    {
        let ghost st = self@;
        proof {
            if 8 * st.size + 32 < BIT_LIMIT && st.tell() <= 8 * st.size {
                self.lemma_room();
            }
        }
        let (front, spare, size, raw) = self.flush();
        let full: usize = raw.len() / 8;
        let used: usize = raw.len() % 8;
        if front.len() > size || full > size - front.len() {
            return Err(RangeEncoderError::BufferFull);
        }
        if used > 0 && full == size - front.len() && used > spare as usize {
            return Err(RangeEncoderError::BufferFull);
        }
        let mut out: Vec<u8> = Vec::new();
        let mut i: usize = 0;
        while i < size
            invariant
                i <= size,
                size == st.size,
                raw@ == st.raw,
                front@ == st.flush_bytes(),
                front@.len() + full <= size,
                full == raw@.len() / 8,
                used == raw@.len() % 8,
                spare < 8,
                spare == st.flush_spare(),
                used > 0 && front@.len() + full == size ==> used <= spare,
                spare > 0 ==> front@.len() > 0 && front@.last() as int % pow2(spare as nat) as int == 0,
                out@.len() == i,
                forall|x: int| 0 <= x < i ==> out@[x] == st.finished()[x],
            decreases size - i,
        {
            let code: u8 = if i < front.len() {
                front[i]
            } else {
                0
            };
            let b: u8 = raw_byte(&raw, size - 1 - i);
            proof {
                lemma_shared_byte(st, front@, full as int, used as int, spare as int, size as int, i as int);
                assert(st.finished()[i as int] == (code + b) as u8);
            }
            out.push(code + b);
            i = i + 1;
        }
        assert(out@ =~= st.finished());
        Ok(out)
    }
}

/// Rounding within the window rounds the whole fraction.
proof fn lemma_flush_window(be: int, val: int, l: nat)
    requires
        l <= 31,
        0 <= val < 0x8000_0000,
    ensures
        round_up(be * 0x8000_0000 + val, pow2((31 - l) as nat) as int) == be * 0x8000_0000 + round_up(
            val,
            pow2((31 - l) as nat) as int,
        ),
        0 <= round_up(val, pow2((31 - l) as nat) as int) <= 0x8000_0000,
        pow2((31 - l) as nat) <= 0x8000_0000,
{
    lemma2_to64();
    lemma_pow2_adds((31 - l) as nat, l);
    lemma_pow2_pos((31 - l) as nat);
    lemma_pow2_pos(l);
    let m = pow2((31 - l) as nat) as int;
    let q = pow2(l) as int;
    assert(be * (m * q) == m * (be * q)) by (nonlinear_arith);
    lemma_round_up_shift(val, m, be * q);
    lemma_round_up(val, m);
    let t = (val + m - 1) / m;
    if m * t > m * q {
        assert(t >= q + 1) by (nonlinear_arith)
            requires
                m * t > m * q,
                m > 0,
        ;
        assert(m * t >= m * (q + 1)) by (nonlinear_arith)
            requires
                t >= q + 1,
                m > 0,
        ;
        assert(m * (q + 1) == m * q + m) by (nonlinear_arith);
    }
    assert(m <= m * q) by (nonlinear_arith)
        requires
            m > 0,
            q >= 1,
    ;
}

/// A coded byte and a raw byte never overlap: at most the last coded byte is
/// shared, and then only in its free low bits.
proof fn lemma_shared_byte(st: EncoderState, front: Seq<u8>, full: int, used: int, spare: int, size: int, i: int)
    requires
        0 <= i < size,
        full == st.raw.len() / 8,
        used == st.raw.len() % 8,
        front.len() + full <= size,
        0 <= spare < 8,
        used > 0 && front.len() + full == size ==> used <= spare,
        spare > 0 ==> front.len() > 0 && front.last() as int % pow2(spare as nat) as int == 0,
    ensures
        0 <= (if i < front.len() { front[i] as int } else { 0 }) + bits_value(st.raw, 8 * (size - 1 - i), 8) < 256,
{
    lemma2_to64();
    let p = 8 * (size - 1 - i);
    lemma_bits_value(st.raw, p, 8);
    if i < front.len() && p < st.raw.len() {
        assert(size - 1 - i == full);
        assert(i == front.len() - 1);
        let ps = pow2(spare as nat) as int;
        lemma_pow2_adds(spare as nat, (8 - spare) as nat);
        if used < spare {
            lemma_pow2_strictly_increases(used as nat, spare as nat);
        }
        let last = front.last() as int;
        let pr = pow2((8 - spare) as nat) as int;
        lemma_pow2_pos(spare as nat);
        vstd::arithmetic::div_mod::lemma_fundamental_div_mod(last, ps);
        let d = last / ps;
        if d >= pr {
            assert(ps * d >= ps * pr) by (nonlinear_arith)
                requires
                    d >= pr,
                    ps > 0,
            ;
        }
        assert(ps * d <= ps * (pr - 1)) by (nonlinear_arith)
            requires
                d <= pr - 1,
                ps > 0,
        ;
        assert(ps * (pr - 1) == ps * pr - ps) by (nonlinear_arith);
    }
}

/// Byte `q` of a raw bit string, lowest bit first.
fn raw_byte(raw: &Vec<bool>, q: usize) -> (r: u8)
    ensures
        r == bits_value(raw@, 8 * q, 8),
{
    let mut v: u8 = 0;
    let mut i: u8 = 8;
    proof {
        lemma2_to64();
    }
    while i > 0
        invariant
            i <= 8,
            v == bits_value(raw@, 8 * q + i, (8 - i) as nat),
        decreases i,
    {
        i = i - 1;
        proof {
            lemma_bits_value(raw@, 8 * q + i, (8 - i) as nat);
            lemma2_to64();
            if i > 0 {
                lemma_pow2_strictly_increases((8 - i) as nat, 8);
            }
        }
        let len: usize = raw.len();
        let bit: u8 = if q <= len / 8 && 8 * q < len && (i as usize) < len - 8 * q && raw[8 * q + i as usize] {
            1
        } else {
            0
        };
        v = v * 2 + bit;
    }
    v
}

} // verus!
