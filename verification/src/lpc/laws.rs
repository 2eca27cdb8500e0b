//! What the histories and lags of linear prediction come to.

use vstd::prelude::*;

use crate::lpc;

verus! {

/// A history of the right length is kept as it is; of a longer one the last samples are kept,
/// and a shorter one is filled up in front.
pub proof fn lemma_kept<T>(older: Seq<T>, newer: Seq<T>, order: int, rest: T)
    requires
        order >= newer.len(),
    ensures
        lpc::kept(older + newer, newer.len() as int, rest) == newer,
        lpc::kept(newer, order, rest).len() == order,
        lpc::kept(newer, order, rest).skip(order - newer.len()) == newer,
        forall|i: int| 0 <= i < order - newer.len() ==> #[trigger] lpc::kept(newer, order, rest)[i] == rest,
        lpc::kept(lpc::kept(older, order, rest), order, rest) == lpc::kept(older, order, rest),
{
    assert(lpc::kept(older + newer, newer.len() as int, rest) =~= newer);
    assert(lpc::kept(newer, order, rest).skip(order - newer.len()) =~= newer);
    assert(lpc::kept(lpc::kept(older, order, rest), order, rest) =~= lpc::kept(older, order, rest));
}

/// The lags are those of pitches from 50 to 500 Hz that a frame holds twice, two samples at
/// least.
pub proof fn lemma_lags(n: int, rate: int)
    requires
        n >= 0,
        rate >= 0,
    ensures
        ({
            let r = lpc::lags(n, rate);
            &&& r is Some ==> {
                let (low, high) = r->0;
                &&& 2 <= low < high
                &&& 2 * high <= n && 50 * high <= rate
                &&& (2 * (high + 1) > n || 50 * (high + 1) > rate)
                &&& (low == 2 || 500 * low <= rate)
                &&& rate < 500 * (low + 1)
            }
            &&& rate >= 1000 && n >= 2 * (rate / 500) + 2 ==> r is Some
            &&& n < 6 ==> r is None
        }),
{
}

} // verus!
