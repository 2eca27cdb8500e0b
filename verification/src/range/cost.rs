//! What symbols cost, in whole bits.

use vstd::arithmetic::power2::{
    lemma2_to64, lemma_pow2_adds, lemma_pow2_pos, lemma_pow2_strictly_increases, lemma_pow2_unfold, pow2,
};
use vstd::prelude::*;

use crate::math;
use crate::range::decoder::DecoderState;
use crate::range::encoder::EncoderState;

verus! {

/// More precision does not add to the bits used.
proof fn lemma_norm_tell(e: EncoderState)
    requires
        e.rng > 0,
    ensures
        e.normalized().tell() <= e.tell(),
    decreases 0x8000_0000 - e.rng,
{
    reveal(EncoderState::normalized);
    if e.rng <= 0x80_0000 {
        lemma_norm_tell(e.shift_out());
        math::lemma_ilog(e.rng);
        let k = math::ilog(e.rng);
        lemma_pow2_adds((k - 1) as nat, 8);
        lemma2_to64();
        math::lemma_ilog_gt(e.rng * 256, (k + 7) as nat);
    }
}

/// An interval of at least one part in `2^b` takes at most `b` bits.
proof fn lemma_part_tell(e: EncoderState, d: int, rng: int, b: nat)
    requires
        e.wf(),
        b <= 16,
        rng >= pow2((math::ilog(e.rng) - 1 - b) as nat),
    ensures
        e.part(d, rng).tell() <= e.tell() + b,
{
    lemma2_to64();
    math::lemma_ilog_gt(e.rng, 23);
    let m = (math::ilog(e.rng) - 1 - b) as nat;
    lemma_pow2_pos(m);
    math::lemma_ilog_gt(rng, m);
    lemma_norm_tell(EncoderState { low: e.low + d, rng, ..e });
}

/// One of at most `2^b` equal parts is as large as a shift by `b` bits leaves it.
proof fn lemma_share(e: EncoderState, ft: int, b: nat)
    requires
        e.wf(),
        b <= 16,
        0 < ft <= pow2(b),
    ensures
        e.rng / ft >= pow2((math::ilog(e.rng) - 1 - b) as nat),
        ft * (e.rng / ft) <= e.rng,
        e.rng / ft >= 1,
{
    lemma2_to64();
    math::lemma_ilog(e.rng);
    math::lemma_ilog_gt(e.rng, 23);
    let m = (math::ilog(e.rng) - 1 - b) as nat;
    lemma_pow2_adds(m, b);
    lemma_pow2_pos(m);
    math::lemma_div(e.rng, ft);
    let q = pow2(m) as int;
    let p = pow2(b) as int;
    let r = e.rng / ft;
    if r < q {
        assert(ft * r + ft <= ft * q) by (nonlinear_arith)
            requires
                r + 1 <= q,
                ft > 0,
        ;
        assert(ft * q <= p * q) by (nonlinear_arith)
            requires
                ft <= p,
                q >= 0,
        ;
        assert(p * q == q * p) by (nonlinear_arith);
    }
}

/// A set bit of probability `2^-logp` takes at most `logp` bits, an unset one at most one.
pub proof fn lemma_bit_cost(e: EncoderState, bit: bool, logp: int)
    requires
        e.wf(),
        0 < logp <= 16,
    ensures
        bit ==> e.after_bit(bit, logp).tell() <= e.tell() + logp,
        !bit ==> e.after_bit(bit, logp).tell() <= e.tell() + 1,
        e.after_bit(bit, logp).tell() <= e.tell() + logp,
{
    reveal(EncoderState::after_bit);
    lemma2_to64();
    let p = pow2(logp as nat) as int;
    lemma_pow2_pos(logp as nat);
    lemma_share(e, p, logp as nat);
    let s = e.rng / p;
    if bit {
        lemma_part_tell(e, e.rng - s, s, logp as nat);
    } else {
        if logp > 1 {
            lemma_pow2_strictly_increases(1, logp as nat);
        }
        assert(2 * s <= p * s) by (nonlinear_arith)
            requires
                p >= 2,
                s >= 0,
        ;
        math::lemma_ilog(e.rng);
        math::lemma_ilog_gt(e.rng, 23);
        let k = math::ilog(e.rng);
        lemma_pow2_unfold((k - 1) as nat);
        lemma_part_tell(e, 0, e.rng - s, 1);
    }
}

/// Raw bits take as many bits as they are.
pub proof fn lemma_raw_cost(e: EncoderState, v: int, n: int)
    requires
        n >= 0,
    ensures
        e.after_raw(v, n).tell() <= e.tell() + n,
{
    reveal(EncoderState::after_raw);
}

/// A symbol out of at most `2^b` takes at most `b` bits.
pub proof fn lemma_narrowed_cost(e: EncoderState, fl: int, fh: int, ft: int, b: nat)
    requires
        e.wf(),
        b <= 16,
        0 <= fl < fh <= ft <= pow2(b),
    ensures
        e.narrowed(fl, fh, ft).tell() <= e.tell() + b,
{
    reveal(EncoderState::narrowed);
    lemma_share(e, ft, b);
    let ext = e.rng / ft;
    if fl > 0 {
        assert(ext * (fh - fl) >= ext) by (nonlinear_arith)
            requires
                ext >= 0,
                fh - fl >= 1,
        ;
        lemma_part_tell(e, e.rng - ext * (ft - fl), ext * (fh - fl), b);
    } else {
        assert(ext * (ft - fh) + ext <= ft * ext) by (nonlinear_arith)
            requires
                ext >= 0,
                fh >= 1,
        ;
        lemma_part_tell(e, 0, e.rng - ext * (ft - fh), b);
    }
}

/// How much of a table of total `2^ftb` symbol `k` takes.
pub open spec fn entry_width(k: int, icdf: Seq<u8>, ftb: int) -> int {
    if k > 0 {
        icdf[k - 1] - icdf[k]
    } else {
        pow2(ftb as nat) - icdf[0]
    }
}

/// A symbol that takes at least `2^j` of a table of total `2^ftb` costs at most `ftb - j`
/// bits.
pub proof fn lemma_entry_cost(e: EncoderState, k: int, icdf: Seq<u8>, ftb: int, j: nat)
    requires
        e.wf(),
        0 <= j <= ftb <= 16,
        entry_width(k, icdf, ftb) >= pow2(j),
        k >= 0,
    ensures
        e.after_icdf(k, icdf, ftb).tell() <= e.tell() + ftb - j,
{
    reveal(EncoderState::after_icdf);
    lemma2_to64();
    let p = pow2(ftb as nat) as int;
    lemma_pow2_pos(ftb as nat);
    lemma_pow2_pos(j);
    lemma_share(e, p, ftb as nat);
    math::lemma_ilog_gt(e.rng, 23);
    let r = e.rng / p;
    let w = entry_width(k, icdf, ftb);
    let m = (math::ilog(e.rng) - 1 - ftb) as nat;
    lemma_pow2_adds(m, j);
    let q = pow2(m) as int;
    let t = pow2(j) as int;
    assert(r * w >= q * t) by (nonlinear_arith)
        requires
            r >= q,
            w >= t,
            q >= 0,
            t >= 0,
    ;
    if k > 0 {
        lemma_part_tell(e, e.rng - r * icdf[k - 1], r * w, (ftb - j) as nat);
    } else {
        let i = icdf[0] as int;
        assert(e.rng - r * i >= r * w) by (nonlinear_arith)
            requires
                p * r <= e.rng,
                w == p - i,
        ;
        lemma_part_tell(e, 0, e.rng - r * i, (ftb - j) as nat);
    }
}

/// A value out of at most `2^b`, and not more than 256, takes at most `b` bits.
pub proof fn lemma_uint_cost(e: EncoderState, v: int, ft: int, b: nat)
    requires
        e.wf(),
        0 <= v < ft,
        2 <= ft <= pow2(b),
        b <= 8,
    ensures
        e.after_uint(v, ft).tell() <= e.tell() + b,
{
    reveal(EncoderState::after_uint);
    lemma2_to64();
    if b < 8 {
        lemma_pow2_strictly_increases(b, 8);
    }
    math::lemma_ilog_le(ft - 1, 8);
    assert(DecoderState::uint_low_bits(ft) == 0);
    assert((ft - 1) / 1 == ft - 1);
    assert(v / 1 == v);
    assert(DecoderState::uint_total(ft) == ft);
    lemma_narrowed_cost(e, v, v + 1, ft, b);
}

} // verus!
