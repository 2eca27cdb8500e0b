//! Symbols with a two-sided exponential distribution.
//!
//! Zero has probability `fs / 32768`. Each further magnitude has the previous
//! one's probability times `decay / 16384`, but at least `1 / 32768` for each
//! sign.

pub mod laws;

use vstd::arithmetic::power2::lemma2_to64;
use vstd::prelude::*;

use crate::math;
use crate::range::decoder::{lemma_narrowed_cost, DecoderState};
use crate::range::{RangeDecoder, RangeEncoder};

verus! {

/// A symbol and the part `[fl, fh)` of 32768 that stands for it.
pub struct LaplaceSymbol {
    pub val: int,
    pub fl: int,
    pub fh: int,
}

/// The frequency of each sign of magnitude one, less one.
pub open spec fn first_freq(fs: int, decay: int) -> int {
    (32736 - fs) * (16384 - decay) / 32768
}

/// The frequency of each sign of the next magnitude, where the present one has
/// frequency `fs`.
pub open spec fn next_freq(fs: int, decay: int) -> int {
    (2 * fs - 2) * decay / 32768 + 1
}

/// The magnitude whose two signs, starting at `fl` with frequency `fs` each,
/// hold `fm`, from magnitude `val` on while magnitudes have more than the least
/// frequency.
pub open spec fn search(fm: int, fl: int, fs: int, val: int, decay: int) -> (int, int, int)
    decreases fs,
    via search_decreases
{
    if fs > 1 && 0 <= decay < 16384 && fm >= fl + 2 * fs {
        search(fm, fl + 2 * fs, next_freq(fs, decay), val + 1, decay)
    } else {
        (fl, fs, val)
    }
}

#[via_fn]
proof fn search_decreases(fm: int, fl: int, fs: int, val: int, decay: int) {
    if fs > 1 && 0 <= decay < 16384 {
        lemma_next_freq(fs, decay);
    }
}

proof fn lemma_next_freq(fs: int, decay: int)
    requires
        fs > 1,
        0 <= decay < 16384,
    ensures
        1 <= next_freq(fs, decay) < fs,
        0 <= (2 * fs - 2) * decay < 32768 * (fs - 1),
{
    assert(0 <= (2 * fs - 2) * decay < 32768 * (fs - 1)) by (nonlinear_arith)
        requires
            fs > 1,
            0 <= decay < 16384,
    ;
}

/// The symbol at frequency `fm`.
pub open spec fn symbol_at(fm: int, fs: int, decay: int) -> LaplaceSymbol {
    if fm < fs {
        LaplaceSymbol { val: 0, fl: 0, fh: math::min(fs, 32768) }
    } else {
        let (fl, f, val) = search(fm, fs, first_freq(fs, decay) + 1, 1, decay);
        let di = if f <= 1 {
            (fm - fl) / 2
        } else {
            0
        };
        let low = fl + 2 * di;
        if fm < low + f {
            LaplaceSymbol { val: -(val + di), fl: low, fh: math::min(low + f, 32768) }
        } else {
            LaplaceSymbol { val: val + di, fl: low + f, fh: math::min(low + 2 * f, 32768) }
        }
    }
}

/// The symbol that the stream holds.
#[verifier::opaque]
pub open spec fn symbol(dec: DecoderState, fs: int, decay: int) -> int {
    symbol_at(dec.freq(32768), fs, decay).val
}

/// The stream after it.
#[verifier::opaque]
pub open spec fn after_symbol(dec: DecoderState, fs: int, decay: int) -> DecoderState {
    let s = symbol_at(dec.freq(32768), fs, decay);
    dec.narrowed(s.fl, s.fh, 32768)
}

/// Decodes a symbol.
pub fn ec_laplace_decode(dec: &mut RangeDecoder, fs: u32, decay: u32) -> (r: i32)
    requires
        old(dec).wf(),
        fs <= 32704,
        decay < 16384,
    ensures
        final(dec).wf(),
        r == symbol(old(dec)@, fs as int, decay as int),
        final(dec)@ == after_symbol(old(dec)@, fs as int, decay as int),
        -40000 <= r <= 40000,
        old(dec)@.bits <= final(dec)@.bits <= old(dec)@.bits + 24,
        final(dec)@.tell() <= old(dec)@.tell() + 15,
{
    let ghost st = dec@;
    proof {
        reveal(symbol);
        reveal(after_symbol);
        lemma2_to64();
        dec.lemma_wf();
    }
    let fm: u32 = dec.decode(32768);
    if fm < fs {
        let fh: u32 = if fs < 32768 {
            fs
        } else {
            32768
        };
        proof {
            lemma_narrowed_cost(st, 0, fh as int, 15);
        }
        dec.update(0, fh, 32768);
        return 0;
    }
    let a: u32 = 32736 - fs;
    let d: u32 = 16384 - decay;
    proof {
        assert(0 <= a * d <= 32736 * 16384) by (nonlinear_arith)
            requires
                0 <= a <= 32736,
                0 <= d <= 16384,
        ;
    }
    let mut f: u32 = a * d / 32768 + 1;
    let mut fl: u32 = fs;
    let mut val: u32 = 1;
    let ghost whole = search(fm as int, fs as int, f as int, 1, decay as int);
    while f > 1 && fm >= fl + 2 * f
        invariant
            fm < 32768,
            fl <= fm,
            1 <= f <= 16385,
            decay < 16384,
            1 <= val,
            val <= fl + 1,
            whole == search(fm as int, fl as int, f as int, val as int, decay as int),
        decreases f,
    {
        proof {
            lemma_next_freq(f as int, decay as int);
        }
        fl = fl + 2 * f;
        f = (2 * f - 2) * decay / 32768 + 1;
        val = val + 1;
    }
    if f <= 1 {
        let di: u32 = (fm - fl) / 2;
        val = val + di;
        fl = fl + 2 * di;
    }
    if fm < fl + f {
        let fh: u32 = if fl + f < 32768 {
            fl + f
        } else {
            32768
        };
        proof {
            lemma_narrowed_cost(st, fl as int, fh as int, 15);
        }
        dec.update(fl, fh, 32768);
        -(val as i32)
    } else {
        let fh: u32 = if fl + 2 * f < 32768 {
            fl + 2 * f
        } else {
            32768
        };
        proof {
            lemma_narrowed_cost(st, fl + f, fh as int, 15);
        }
        dec.update(fl + f, fh, 32768);
        val as i32
    }
}

/// Where the magnitudes of the least frequency start.
pub open spec fn tail_start(fl: int, fs: int, decay: int) -> int
    decreases fs,
    via tail_start_decreases
{
    if fs > 1 && 0 <= decay < 16384 {
        tail_start(fl + 2 * fs, next_freq(fs, decay), decay)
    } else {
        fl
    }
}

#[via_fn]
proof fn tail_start_decreases(fl: int, fs: int, decay: int) {
    if fs > 1 && 0 <= decay < 16384 {
        lemma_next_freq(fs, decay);
    }
}

/// Whether both signs of some magnitude of the least frequency are left in the
/// total.
pub open spec fn layout_fits(fs: int, decay: int) -> bool {
    tail_start(fs, first_freq(fs, decay) + 1, decay) <= 32766
}

proof fn lemma_tail_start(fl: int, fs: int, decay: int)
    requires
        fs >= 1,
        0 <= decay < 16384,
    ensures
        tail_start(fl, fs, decay) >= fl,
        fs > 1 ==> tail_start(fl, fs, decay) >= fl + 2 * fs,
    decreases fs,
{
    if fs > 1 {
        lemma_next_freq(fs, decay);
        lemma_tail_start(fl + 2 * fs, next_freq(fs, decay), decay);
    }
}

/// The place of magnitude `mag`, from magnitude `val` on: where it starts and
/// the frequency of each sign; the first magnitude of the least frequency where
/// that comes before it.
pub open spec fn climb(mag: int, fl: int, fs: int, val: int, decay: int) -> (int, int, int)
    decreases fs,
    via climb_decreases
{
    if fs > 1 && 0 <= decay < 16384 && val < mag {
        climb(mag, fl + 2 * fs, next_freq(fs, decay), val + 1, decay)
    } else {
        (fl, fs, val)
    }
}

#[via_fn]
proof fn climb_decreases(mag: int, fl: int, fs: int, val: int, decay: int) {
    if fs > 1 && 0 <= decay < 16384 {
        lemma_next_freq(fs, decay);
    }
}

/// A magnitude with its sign.
pub open spec fn signed(negative: bool, mag: int) -> int {
    if negative {
        -mag
    } else {
        mag
    }
}

/// The symbol that stands for `value`: itself, or the one of the same sign that
/// is the last before the total is used up.
pub open spec fn coded(value: int, fs: int, decay: int) -> LaplaceSymbol {
    if value == 0 {
        LaplaceSymbol { val: 0, fl: 0, fh: fs }
    } else {
        let (fl, f, val) = climb(math::abs(value), fs, first_freq(fs, decay) + 1, 1, decay);
        if f > 1 {
            let low = if value < 0 {
                fl
            } else {
                fl + f
            };
            LaplaceSymbol { val: signed(value < 0, val), fl: low, fh: low + f }
        } else {
            let room = if value < 0 {
                (32768 - fl + 1) / 2
            } else {
                (32768 - fl) / 2
            };
            let di = math::min(math::abs(value) - val, room - 1);
            let low = fl + 2 * di + (if value < 0 {
                0int
            } else {
                1
            });
            LaplaceSymbol { val: signed(value < 0, val + di), fl: low, fh: low + 1 }
        }
    }
}

/// Encodes a symbol; gives the value that was coded.
pub fn ec_laplace_encode(enc: &mut RangeEncoder, value: i32, fs: u32, decay: u32) -> (r: i32)
    requires
        old(enc).wf(),
        0 < fs <= 32704,
        decay < 16384,
        layout_fits(fs as int, decay as int),
        value > i32::MIN,
    ensures
        final(enc).wf(),
        final(enc)@.wf(),
        final(enc)@.size == old(enc)@.size,
        ({
            let s = coded(value as int, fs as int, decay as int);
            &&& r == s.val
            &&& final(enc)@ == old(enc)@.narrowed(s.fl, s.fh, 32768)
        }),
{
    if value == 0 {
        enc.encode(0, fs, 32768);
        return 0;
    }
    let negative: bool = value < 0;
    let mag: u32 = if negative {
        (-value) as u32
    } else {
        value as u32
    };
    let a: u32 = 32736 - fs;
    let d: u32 = 16384 - decay;
    proof {
        assert(0 <= a * d <= 32736 * 16384) by (nonlinear_arith)
            requires
                0 <= a <= 32736,
                0 <= d <= 16384,
        ;
    }
    let mut f: u32 = a * d / 32768 + 1;
    let mut fl: u32 = fs;
    let mut val: u32 = 1;
    let ghost whole = climb(mag as int, fs as int, f as int, 1, decay as int);
    while f > 1 && val < mag
        invariant
            1 <= f <= 16385,
            decay < 16384,
            1 <= val <= mag,
            whole == climb(mag as int, fl as int, f as int, val as int, decay as int),
            tail_start(fl as int, f as int, decay as int) <= 32766,
        decreases f,
    {
        proof {
            lemma_next_freq(f as int, decay as int);
            lemma_tail_start(fl as int, f as int, decay as int);
        }
        fl = fl + 2 * f;
        f = (2 * f - 2) * decay / 32768 + 1;
        val = val + 1;
    }
    proof {
        lemma_tail_start(fl as int, f as int, decay as int);
    }
    if f > 1 {
        let low: u32 = if negative {
            fl
        } else {
            fl + f
        };
        enc.encode(low, low + f, 32768);
    } else {
        let room: u32 = if negative {
            (32768 - fl + 1) / 2
        } else {
            (32768 - fl) / 2
        };
        let di: u32 = if mag - val < room - 1 {
            mag - val
        } else {
            room - 1
        };
        let low: u32 = fl + 2 * di + (if negative {
            0
        } else {
            1
        });
        enc.encode(low, low + 1, 32768);
        val = val + di;
    }
    if negative {
        -(val as i32)
    } else {
        val as i32
    }
}

/// The search for what is in the place of a magnitude comes to that magnitude.
proof fn lemma_search_climb(mag: int, fl: int, fs: int, val: int, decay: int, fm: int)
    requires
        fs >= 1,
        0 <= decay < 16384,
        val <= mag,
        ({
            let (l, f, v) = climb(mag, fl, fs, val, decay);
            &&& l <= fm
            &&& f > 1 ==> fm < l + 2 * f
        }),
    ensures
        search(fm, fl, fs, val, decay) == climb(mag, fl, fs, val, decay),
    decreases fs,
{
    if fs > 1 && val < mag {
        lemma_next_freq(fs, decay);
        lemma_climb(mag, fl + 2 * fs, next_freq(fs, decay), val + 1, decay);
        lemma_search_climb(mag, fl + 2 * fs, next_freq(fs, decay), val + 1, decay, fm);
    }
}

proof fn lemma_climb(mag: int, fl: int, fs: int, val: int, decay: int)
    requires
        fs >= 1,
        0 <= decay < 16384,
        val <= mag,
    ensures
        climb(mag, fl, fs, val, decay).0 >= fl,
        climb(mag, fl, fs, val, decay).1 >= 1,
        val <= climb(mag, fl, fs, val, decay).2 <= mag,
        climb(mag, fl, fs, val, decay).1 > 1 ==> climb(mag, fl, fs, val, decay).2 == mag,
        tail_start(climb(mag, fl, fs, val, decay).0, climb(mag, fl, fs, val, decay).1, decay) == tail_start(
            fl,
            fs,
            decay,
        ),
    decreases fs,
{
    if fs > 1 && val < mag {
        lemma_next_freq(fs, decay);
        lemma_climb(mag, fl + 2 * fs, next_freq(fs, decay), val + 1, decay);
    }
}

/// The place of a symbol is within the total and not empty.
pub proof fn lemma_coded(value: int, fs: int, decay: int)
    requires
        0 < fs <= 32704,
        0 <= decay < 16384,
        layout_fits(fs, decay),
    ensures
        0 <= coded(value, fs, decay).fl < coded(value, fs, decay).fh <= 32768,
{
    if value != 0 {
        let mag = math::abs(value);
        let a = 32736 - fs;
        let d = 16384 - decay;
        assert(0 <= a * d) by (nonlinear_arith)
            requires
                0 <= a,
                0 <= d,
        ;
        let first = first_freq(fs, decay) + 1;
        lemma_climb(mag, fs, first, 1, decay);
        let (fl, f, val) = climb(mag, fs, first, 1, decay);
        lemma_tail_start(fl, f, decay);
    }
}

/// The decoder finds in a symbol's place the symbol that was coded there, and the
/// coded value keeps the sign of the given one and does not exceed it.
pub proof fn lemma_laplace_inverse(value: int, fs: int, decay: int, fm: int)
    requires
        0 < fs <= 32704,
        0 <= decay < 16384,
        layout_fits(fs, decay),
        coded(value, fs, decay).fl <= fm < coded(value, fs, decay).fh,
    ensures
        symbol_at(fm, fs, decay) == coded(value, fs, decay),
        value >= 0 ==> 0 <= coded(value, fs, decay).val <= value,
        value <= 0 ==> value <= coded(value, fs, decay).val <= 0,
{
    if value != 0 {
        let mag = math::abs(value);
        let a = 32736 - fs;
        let d = 16384 - decay;
        assert(0 <= a * d) by (nonlinear_arith)
            requires
                0 <= a,
                0 <= d,
        ;
        let first = first_freq(fs, decay) + 1;
        lemma_climb(mag, fs, first, 1, decay);
        let (fl, f, val) = climb(mag, fs, first, 1, decay);
        lemma_tail_start(fl, f, decay);
        lemma_search_climb(mag, fs, first, 1, decay, fm);
        let s = coded(value, fs, decay);
        let r = symbol_at(fm, fs, decay);
        assert(r.val == s.val && r.fl == s.fl && r.fh == s.fh);
    }
}

} // verus!
