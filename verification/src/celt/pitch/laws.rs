//! What the pitch decisions come to.

use vstd::prelude::*;

use crate::celt::pitch::{self, Continuity, Doubling};

verus! {

/// A rounded quotient is off by half at most.
pub proof fn lemma_rounded(x: int, k: int)
    requires
        k > 0,
    ensures
        2 * (k * pitch::nearest(x, k)) - k <= 2 * x,
        2 * x < 2 * (k * pitch::nearest(x, k)) + k,
{
    reveal(pitch::nearest);
    let d = 2 * k;
    let y = 2 * x + k;
    vstd::arithmetic::div_mod::lemma_fundamental_div_mod(y, d);
    vstd::arithmetic::div_mod::lemma_mod_division_less_than_divisor(y, d);
    let q = y / d;
    assert(d * q == 2 * (k * q)) by (nonlinear_arith)
        requires
            d == 2 * k,
    ;
}

/// The fine search looks at the five lags around twice each of the two best, in either order,
/// and at no others.
pub proof fn lemma_near_best(i: int, first: int, second: int)
    ensures
        pitch::near_best(i, first, second) == pitch::near_best(i, second, first),
        -2 <= i - 2 * first <= 2 ==> pitch::near_best(i, first, second),
        i < 2 * first - 2 && i < 2 * second - 2 ==> !pitch::near_best(i, first, second),
        i > 2 * first + 2 && i > 2 * second + 2 ==> !pitch::near_best(i, first, second),
        2 * first + 2 < i < 2 * second - 2 ==> !pitch::near_best(i, first, second),
{
}

/// A candidate is a whole part of the period, not shorter than the shortest; it is looked at
/// with a multiple of itself within the longest: half again the period for its half, unless
/// that is too long.
pub proof fn lemma_candidates(s: Doubling, k: int)
    requires
        s.wf(),
        2 <= k <= 15,
    ensures
        ({
            let c = s.candidate_spec(k);
            &&& c is Some <==> 2 * s.period + k >= 2 * (k * s.shortest)
            &&& c is Some ==> {
                &&& 2 * (k * c->0.period) - k <= 2 * s.period < 2 * (k * c->0.period) + k
                &&& c->0.period >= s.shortest
                &&& (c->0.short <==> c->0.period < 3 * s.shortest)
                &&& (c->0.period == s.previous ==> c->0.continuity == Continuity::Full)
                &&& (c->0.period > s.previous + 2 || c->0.period + 2 < s.previous ==> c->0.continuity
                    == Continuity::Nothing)
                &&& (c->0.continuity == Continuity::Half ==> 5 * (k * k) < s.period)
                &&& (k == 2 && s.period + c->0.period <= s.longest ==> c->0.multiple == s.period + c->0.period)
                &&& (k == 2 && s.period + c->0.period > s.longest ==> c->0.multiple == s.period)
            }
        }),
{
    lemma_rounded(s.period as int, k);
    let t = pitch::nearest(s.period as int, k);
    let sh = s.shortest as int;
    let p = s.period as int;
    assert(t >= 0) by (nonlinear_arith)
        requires
            2 * p < 2 * (k * t) + k,
            p >= 0,
            k >= 2,
    ;
    assert(t <= p) by (nonlinear_arith)
        requires
            2 * (k * t) - k <= 2 * p,
            p >= 0,
            k >= 2,
    ;
    assert(t >= sh <==> 2 * p + k >= 2 * (k * sh)) by (nonlinear_arith)
        requires
            2 * (k * t) - k <= 2 * p,
            2 * p < 2 * (k * t) + k,
            k >= 2,
    ;
}

} // verus!
