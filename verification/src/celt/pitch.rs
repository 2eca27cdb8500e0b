//! The lags of the pitch search: which of them are looked at, which stand for the
//! same pitch an octave or more apart, and what the search ends with.

pub mod laws;

use vstd::prelude::*;

use crate::math::{self, lemma_div, lemma_mul_range};

verus! {

/// For each divisor of a lag, the multiple of the quotient that is looked at with
/// it.
pub const SECOND_CHECK: [usize; 16] = [0, 0, 3, 2, 3, 2, 5, 2, 3, 2, 3, 2, 5, 2, 3, 2];

/// The quotient of two numbers, rounded to the nearest, halves up.
#[verifier::opaque]
pub open spec fn nearest(x: int, k: int) -> int {
    (2 * x + k) / (2 * k)
}

/// A part of a number, rounded, is no more than the number.
proof fn lemma_nearest(x: int, m: int, k: int)
    requires
        0 <= x,
        0 <= m < k,
    ensures
        0 <= nearest(m * x, k) <= x,
{
    assert(0 <= m * x) by (nonlinear_arith)
        requires
            0 <= x,
            0 <= m,
    ;
    reveal(nearest);
    lemma_div(2 * (m * x) + k, 2 * k);
    let q = nearest(m * x, k);
    assert(0 <= q <= x) by (nonlinear_arith)
        requires
            (2 * k) * q <= 2 * (m * x) + k < (2 * k) * q + 2 * k,
            0 <= m * x,
            0 <= m < k,
            0 <= x,
    ;
}

fn round_div(x: usize, k: usize) -> (r: usize)
    requires
        x <= 0x1000_0000,
        0 < k <= 15,
    ensures
        r == nearest(x as int, k as int),
{
    reveal(nearest);
    (2 * x + k) / (2 * k)
}

/// Whether the fine search looks at a lag: near twice one of the two best of the
/// coarse search.
pub open spec fn near_best(i: int, first: int, second: int) -> bool {
    math::abs(i - 2 * first) <= 2 || math::abs(i - 2 * second) <= 2
}

/// Whether the fine search looks at a lag.
pub fn is_near_best(i: usize, first: usize, second: usize) -> (r: bool)
    requires
        i <= 0x1000_0000,
        first <= 0x1000_0000,
        second <= 0x1000_0000,
    ensures
        r == near_best(i as int, first as int, second as int),
{
    let a: i64 = i as i64 - 2 * first as i64;
    let b: i64 = i as i64 - 2 * second as i64;
    (-2 <= a && a <= 2) || (-2 <= b && b <= 2)
}

/// Which way a peak leans.
#[derive(Clone, Copy, Debug, PartialEq, Eq, Structural)]
pub enum Lean {
    Up,
    Down,
    Neither,
}

impl Lean {
    /// The lag that a lean adds.
    pub open spec fn step(self) -> int {
        match self {
            Lean::Up => 1,
            Lean::Down => -1,
            Lean::Neither => 0,
        }
    }
}

/// The lag that the search ends with: twice the best, less the peak's lean.
pub fn search_lag(best: usize, lean: Lean) -> (r: usize)
    requires
        best <= 0x1000_0000,
        best == 0 ==> lean == Lean::Neither,
    ensures
        r == 2 * best - lean.step(),
{
    match lean {
        Lean::Up => 2 * best - 1,
        Lean::Down => 2 * best + 1,
        Lean::Neither => 2 * best,
    }
}

/// Whether the peak at `best` has two neighbours among `count` lags.
pub fn has_neighbours(best: usize, count: usize) -> (r: bool)
    ensures
        r == (0 < best < count - 1),
{
    best > 0 && count > 1 && best < count - 1
}

/// A search for a shorter period, at half the rate.
#[derive(Clone, Copy, Debug, PartialEq, Eq, Structural)]
pub struct Doubling {
    /// The longest period.
    pub longest: usize,
    /// The shortest period.
    pub shortest: usize,
    /// The period found so far.
    pub period: usize,
    /// The period of the frame before.
    pub previous: usize,
    /// The samples compared.
    pub span: usize,
}

/// How the period of the frame before speaks for a candidate.
#[derive(Clone, Copy, Debug, PartialEq, Eq, Structural)]
pub enum Continuity {
    Full,
    Half,
    Nothing,
}

/// A candidate: the divided period, the multiple looked at with it, and whether
/// the period is so short that it needs more evidence.
#[derive(Clone, Copy, Debug, PartialEq, Eq, Structural)]
pub struct Candidate {
    pub period: usize,
    pub multiple: usize,
    pub continuity: Continuity,
    pub short: bool,
}

impl Doubling {
    /// What holds of a search.
    pub open spec fn wf(self) -> bool {
        self.period < self.longest <= 0x100_0000
    }

    /// A search at the full rate, taken over to half the rate; the period stays
    /// below the longest.
    pub fn new(longest: usize, shortest: usize, span: usize, period: usize, previous: usize) -> (r: Doubling)
        requires
            2 <= longest <= 0x100_0000,
        ensures
            r.wf(),
            r == (Doubling {
                longest: longest / 2,
                shortest: shortest / 2,
                period: math::min(period as int / 2, longest as int / 2 - 1) as usize,
                previous: previous / 2,
                span: span / 2,
            }),
    {
        let most: usize = longest / 2;
        let half: usize = period / 2;
        Doubling {
            longest: most,
            shortest: shortest / 2,
            period: if half >= most {
                most - 1
            } else {
                half
            },
            previous: previous / 2,
            span: span / 2,
        }
    }

    /// The multiple that is looked at with a divided period.
    pub open spec fn multiple_spec(self, k: int) -> int {
        if k == 2 {
            let t = nearest(self.period as int, 2);
            if t + self.period > self.longest {
                self.period as int
            } else {
                self.period + t
            }
        } else {
            nearest(SECOND_CHECK[k] * self.period, k)
        }
    }

    /// How the period before speaks for a candidate.
    pub open spec fn continuity_spec(self, t: int, k: int) -> Continuity {
        let apart = math::abs(t - self.previous);
        if apart <= 1 {
            Continuity::Full
        } else if apart <= 2 && 5 * (k * k) < self.period {
            Continuity::Half
        } else {
            Continuity::Nothing
        }
    }

    /// The candidate for a divisor; none where the period gets too short.
    pub open spec fn candidate_spec(self, k: int) -> Option<Candidate> {
        let t = nearest(self.period as int, k);
        if t < self.shortest {
            None
        } else {
            Some(
                Candidate {
                    period: t as usize,
                    multiple: self.multiple_spec(k) as usize,
                    continuity: self.continuity_spec(t, k),
                    short: t < 3 * self.shortest,
                },
            )
        }
    }

    fn continuity(&self, t: usize, k: usize) -> (r: Continuity)
        requires
            2 <= k <= 15,
        ensures
            r == self.continuity_spec(t as int, k as int),
    {
        proof {
            lemma_mul_range(k as int, 15, k as int, 15);
        }
        let up: bool = t >= self.previous;
        let apart: usize = if up {
            t - self.previous
        } else {
            self.previous - t
        };
        if apart <= 1 {
            Continuity::Full
        } else if apart <= 2 && 5 * (k * k) < self.period {
            Continuity::Half
        } else {
            Continuity::Nothing
        }
    }

    /// The candidate for a divisor from 2 to 15; none where the period gets too
    /// short. Neither of its lags is beyond the longest.
    pub fn candidate(&self, k: usize) -> (r: Option<Candidate>)
        requires
            self.wf(),
            2 <= k <= 15,
        ensures
            r == self.candidate_spec(k as int),
            r is Some ==> r->0.period <= self.longest && r->0.multiple <= self.longest,
    {
        proof {
            assert(k == 2 || SECOND_CHECK[k as int] < k) by {
                assert(k == 2 || k == 3 || k == 4 || k == 5 || k == 6 || k == 7 || k == 8 || k == 9 || k == 10 || k
                    == 11 || k == 12 || k == 13 || k == 14 || k == 15);
            }
            lemma_nearest(self.period as int, 1, k as int);
            if k > 2 {
                lemma_nearest(self.period as int, SECOND_CHECK[k as int] as int, k as int);
                lemma_mul_range(SECOND_CHECK[k as int] as int, 15, self.period as int, 0x100_0000);
            }
        }
        let t0: usize = self.period;
        let t: usize = round_div(t0, k);
        if t < self.shortest {
            return None;
        }
        let multiple: usize = if k == 2 {
            if t + t0 > self.longest {
                t0
            } else {
                t0 + t
            }
        } else {
            round_div(SECOND_CHECK[k] * t0, k)
        };
        let continuity: Continuity = self.continuity(t, k);
        let short: bool = t / 3 < self.shortest;
        Some(Candidate { period: t, multiple, continuity, short })
    }
}

/// The lag at the full rate that the search for a shorter period ends with: twice
/// the period with the peak's lean, but no less than the shortest.
pub fn refined_lag(period: usize, lean: Lean, shortest: usize) -> (r: usize)
    requires
        period <= 0x1000_0000,
    ensures
        r == math::max(math::max(2 * period + lean.step(), 0), shortest as int),
{
    let twice: usize = 2 * period;
    let lag: usize = match lean {
        Lean::Up => twice + 1,
        Lean::Down => if twice == 0 {
            0
        } else {
            twice - 1
        },
        Lean::Neither => twice,
    };
    if lag < shortest {
        shortest
    } else {
        lag
    }
}

} // verus!
