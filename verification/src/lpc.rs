//! What the linear-prediction filters keep between frames, and the lags that
//! their pitch estimate looks at.

pub mod laws;

use vstd::prelude::*;

use crate::math;

verus! {

/// The last `order` of the samples so far; `rest` stands for those that are
/// missing.
pub open spec fn kept<T>(state: Seq<T>, order: int, rest: T) -> Seq<T> {
    Seq::new(
        order as nat,
        |i: int|
            if i < order - state.len() {
                rest
            } else {
                state[state.len() - order + i]
            },
    )
}

/// Brings a history to `order` samples: it keeps the last, and `rest` stands for
/// those that are missing.
pub fn normalise_state<T: Copy>(state: &mut Vec<T>, order: usize, rest: T)
    ensures
        final(state)@ == kept(old(state)@, order as int, rest),
{
    let n: usize = state.len();
    let mut out: Vec<T> = Vec::new();
    let mut i: usize = 0;
    while i < order
        invariant
            i <= order,
            n == state@.len(),
            out@.len() == i,
            forall|j: int| 0 <= j < i ==> #[trigger] out@[j] == kept(state@, order as int, rest)[j],
        decreases order - i,
    {
        let missing: bool = n < order && i < order - n;
        if missing {
            out.push(rest);
        } else if n < order {
            out.push(state[i - (order - n)]);
        } else {
            out.push(state[n - order + i]);
        }
        i = i + 1;
    }
    assert(out@ =~= kept(state@, order as int, rest));
    *state = out;
}

/// Moves a history of `order` samples past a frame.
pub fn update_state<T: Copy>(state: &mut Vec<T>, samples: &[T], order: usize)
    requires
        old(state)@.len() == order,
    ensures
        final(state)@ == (old(state)@ + samples@).skip(samples@.len() as int),
{
    let n: usize = samples.len();
    let ghost all = state@ + samples@;
    let mut out: Vec<T> = Vec::new();
    let mut i: usize = 0;
    while i < order
        invariant
            i <= order,
            n == samples@.len(),
            state@.len() == order,
            all == state@ + samples@,
            out@.len() == i,
            forall|j: int| 0 <= j < i ==> #[trigger] out@[j] == all[n + j],
        decreases order - i,
    {
        if n >= order {
            out.push(samples[n - order + i]);
        } else if i < order - n {
            out.push(state[n + i]);
        } else {
            out.push(samples[i - (order - n)]);
        }
        i = i + 1;
    }
    assert(out@ =~= all.skip(n as int));
    *state = out;
}

/// The lags of pitches from 50 to 500 Hz that a frame of `n` samples holds twice;
/// none where it is too short.
pub open spec fn lags(n: int, rate: int) -> Option<(int, int)> {
    let low = math::max(rate / 500, 2);
    let high = math::min(rate / 50, n / 2);
    if high <= low {
        None
    } else {
        Some((low, high))
    }
}

/// The lags that the pitch estimate looks at, from the first to the second.
pub fn pitch_lags(n: usize, sample_rate: u32) -> (r: Option<(usize, usize)>)
    ensures
        r is Some <==> lags(n as int, sample_rate as int) is Some,
        r is Some ==> {
            &&& (r->0).0 == (lags(n as int, sample_rate as int)->0).0
            &&& (r->0).1 == (lags(n as int, sample_rate as int)->0).1
            &&& 2 <= (r->0).0 < (r->0).1 < n
        },
{
    let rate: usize = sample_rate as usize;
    let low: usize = if rate / 500 < 2 {
        2
    } else {
        rate / 500
    };
    let high: usize = if rate / 50 < n / 2 {
        rate / 50
    } else {
        n / 2
    };
    if high <= low {
        None
    } else {
        Some((low, high))
    }
}

/// A history that moved past two frames one after the other is the one that moved
/// past both at once.
pub proof fn lemma_update_twice<T>(state: Seq<T>, a: Seq<T>, b: Seq<T>)
    ensures
        ((state + a).skip(a.len() as int) + b).skip(b.len() as int) == (state + (a + b)).skip((a + b).len() as int),
{
    assert(((state + a).skip(a.len() as int) + b).skip(b.len() as int) =~= (state + (a + b)).skip(
        (a + b).len() as int,
    ));
}

} // verus!
