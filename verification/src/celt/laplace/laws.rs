//! What the distribution of the coarse energy steps comes to.

use vstd::prelude::*;

use crate::celt::laplace;
use crate::math;

verus! {

/// None has the first places of the total, as many as its frequency says. The two signs of a
/// magnitude have as many places each, the negative one first; those of one follow none.
pub proof fn lemma_signs(v: int, fs: int, decay: int)
    requires
        v > 0,
        0 < fs <= 32704,
        0 <= decay < 16384,
    ensures
        laplace::coded(0, fs, decay).fl == 0,
        laplace::coded(0, fs, decay).fh == fs,
        laplace::coded(0, fs, decay).val == 0,
        ({
            let p = laplace::coded(v, fs, decay);
            let n = laplace::coded(-v, fs, decay);
            p.val == v && n.val == -v ==> n.fh == p.fl && n.fh - n.fl == p.fh - p.fl
        }),
        laplace::first_freq(fs, decay) > 0 ==> laplace::coded(-1, fs, decay).fl == fs && laplace::coded(
            -1,
            fs,
            decay,
        ).val == -1 && laplace::coded(1, fs, decay).val == 1,
{
    assert(math::abs(v) == v && math::abs(-v) == v);
}

/// The frequencies fall by the decay: magnitude one has a share of what none leaves of the
/// total, but for 32 places, and each magnitude beyond the share of the one before; none has
/// less than one place, and each has less than the one before as long as that has more.
pub proof fn lemma_frequencies(fs: int, decay: int, f: int)
    requires
        0 < fs <= 32704,
        0 <= decay < 16384,
        f > 1,
    ensures
        ({
            let one = laplace::first_freq(fs, decay);
            &&& 32768 * one <= (32736 - fs) * (16384 - decay)
            &&& (32736 - fs) * (16384 - decay) < 32768 * one + 32768
            &&& one >= 0
        }),
        ({
            let next = laplace::next_freq(f, decay);
            &&& 1 <= next < f
            &&& 32768 * (next - 1) <= 2 * (f - 1) * decay
            &&& 2 * (f - 1) * decay < 32768 * next
        }),
{
    laplace::lemma_next_freq(f, decay);
    let x = (32736 - fs) * (16384 - decay);
    assert(x >= 0) by (nonlinear_arith)
        requires
            x == (32736 - fs) * (16384 - decay),
            fs <= 32704,
            decay < 16384,
    ;
    assert((2 * f - 2) * decay == 2 * (f - 1) * decay) by (nonlinear_arith);
}

} // verus!
