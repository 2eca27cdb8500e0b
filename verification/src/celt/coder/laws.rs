//! What is coded of what a signal asks for.

use vstd::arithmetic::power2::pow2;
use vstd::prelude::*;

use crate::celt::coder;

verus! {

/// A fine value that fits its bits is coded as it is; any other, and one that is missing, as
/// none. What is coded always fits.
pub proof fn lemma_kept_value(values: Seq<u32>, fine_quant: Seq<i32>, channels: int, i: int, ch: int)
    requires
        1 <= channels <= 2,
        0 <= ch < channels,
        0 <= i,
        fine_quant[i] > 0,
    ensures
        ({
            let k = i * channels + ch;
            let v = coder::kept_value(values, fine_quant, channels, k);
            &&& v < pow2(fine_quant[i] as nat)
            &&& k < values.len() && values[k] < pow2(fine_quant[i] as nat) ==> v == values[k]
            &&& v != 0 ==> k < values.len() && v == values[k]
        }),
{
    vstd::arithmetic::power2::lemma_pow2_pos(fine_quant[i] as nat);
    let k = i * channels + ch;
    if channels == 1 {
        assert(k == i) by (nonlinear_arith)
            requires
                k == i * channels + ch,
                channels == 1,
                ch == 0,
        ;
        assert(k / 1 == i);
    } else {
        assert(k == 2 * i + ch) by (nonlinear_arith)
            requires
                k == i * channels + ch,
                channels == 2,
        ;
        assert(k / 2 == i);
    }
}

/// A wanted step keeps its sign and, but for the one that has no opposite, its size.
pub proof fn lemma_wanted_step(step: i32)
    ensures
        step > i32::MIN ==> coder::wanted_step(step) == step,
        coder::wanted_step(step) > i32::MIN,
        step < 0 ==> coder::wanted_step(step) < 0,
{
}

} // verus!
