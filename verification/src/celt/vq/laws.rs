//! What the rotation of a vector comes to.

use vstd::prelude::*;

use crate::celt::vq::{self, Spread};

verus! {

/// The coded value of a spread names it, and no other value below four does.
pub proof fn lemma_spread_values(s: Spread, v: int)
    requires
        0 <= v < 4,
    ensures
        Spread::of(v) == s <==> v == s.raw_spec(),
        Spread::of(v + 4) == Spread::of(v),
{
}

/// The more a vector is spread, the smaller the factor of its rotation: five less for each step.
pub proof fn lemma_factor(s: Spread)
    ensures
        s.factor_spec() is None <==> s.raw_spec() == 0,
        s.factor_spec() is Some ==> s.factor_spec()->0 == 20 - 5 * s.raw_spec(),
{
}

/// The step of the second rotation is the smallest that reaches across a block.
pub proof fn lemma_stride(len: int, b: int, s: int)
    requires
        0 < s <= len,
        b >= 1,
    ensures
        ({
            let r = vq::stride_from(len, b, s);
            &&& s <= r <= len
            &&& r < len ==> (r * r + r) * b + b / 4 >= len
            &&& forall|t: int| s <= t < r ==> #[trigger] reach(t, b) < len
        }),
    decreases len - s,
{
    if s < len && (s * s + s) * b + b / 4 < len {
        lemma_stride(len, b, s + 1);
        assert forall|t: int| s <= t < vq::stride_from(len, b, s) implies #[trigger] reach(t, b) < len by {
            if t > s {
                assert(s + 1 <= t < vq::stride_from(len, b, s + 1));
            }
        }
    }
}

/// How far a step reaches in `b` blocks.
pub open spec fn reach(s: int, b: int) -> int {
    (s * s + s) * b + b / 4
}

} // verus!
