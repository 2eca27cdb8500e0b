//! The search for the vector of pulses nearest to a direction.
//!
//! Where a pulse goes is decided by measuring; this keeps count of them.

use vstd::prelude::*;

use crate::celt::cwrs::{self, encode_pulses};
use crate::celt::vq::{self, extract_collapse_mask};
use crate::math;
use crate::range::RangeEncoder;

verus! {

/// A vector of pulses that is being built: the magnitudes so far, and the pulses
/// that are left to place.
#[derive(Debug)]
pub struct PulseSearch {
    pub magnitudes: Vec<i32>,
    pub left: usize,
    /// All pulses that there will be.
    pub total: usize,
}

proof fn lemma_pulses_at(y: Seq<i32>, j: int, x: i32)
    requires
        0 <= j < y.len(),
    ensures
        cwrs::pulses(y.update(j, x)) == cwrs::pulses(y) - math::abs(y[j] as int) + math::abs(x as int),
        math::abs(y[j] as int) <= cwrs::pulses(y),
    decreases y.len(),
{
    let z = y.update(j, x);
    if j == 0 {
        assert(z.drop_first() =~= y.drop_first());
    } else {
        lemma_pulses_at(y.drop_first(), j - 1, x);
        assert(z.drop_first() =~= y.drop_first().update(j - 1, x));
    }
}

proof fn lemma_no_pulses(n: nat)
    ensures
        cwrs::pulses(Seq::new(n, |j: int| 0i32)) == 0,
    decreases n,
{
    let y = Seq::new(n, |j: int| 0i32);
    if n > 0 {
        lemma_no_pulses((n - 1) as nat);
        assert(y.drop_first() =~= Seq::new((n - 1) as nat, |j: int| 0i32));
    }
}

proof fn lemma_pulses_split(y: Seq<i32>, j: int)
    requires
        0 <= j <= y.len(),
    ensures
        cwrs::pulses(y) == cwrs::pulses(y.take(j)) + cwrs::pulses(y.skip(j)),
    decreases j,
{
    if j == 0 {
        assert(y.skip(0) =~= y);
    } else {
        lemma_pulses_split(y.drop_first(), j - 1);
        assert(y.take(j).drop_first() =~= y.drop_first().take(j - 1));
        assert(y.skip(j) =~= y.drop_first().skip(j - 1));
    }
}

proof fn lemma_one_value(x: i32)
    ensures
        cwrs::pulses(seq![x]) == math::abs(x as int),
{
    reveal_with_fuel(cwrs::pulses, 2);
    assert(seq![x].drop_first() =~= Seq::<i32>::empty());
}

/// The magnitudes `y`, negative where `negative` says so.
pub open spec fn signed(y: Seq<i32>, negative: Seq<bool>) -> Seq<i32> {
    Seq::new(
        y.len(),
        |j: int|
            if negative[j] {
                (-y[j]) as i32
            } else {
                y[j]
            },
    )
}

proof fn lemma_signed(y: Seq<i32>, negative: Seq<bool>)
    requires
        y.len() == negative.len(),
        forall|j: int| 0 <= j < y.len() ==> 0 <= #[trigger] y[j],
    ensures
        cwrs::pulses(signed(y, negative)) == cwrs::pulses(y),
    decreases y.len(),
{
    if y.len() > 0 {
        let rest = y.drop_first();
        assert forall|j: int| 0 <= j < rest.len() implies 0 <= #[trigger] rest[j] by {
            assert(rest[j] == y[j + 1]);
        }
        lemma_signed(rest, negative.drop_first());
        assert(signed(y, negative).drop_first() =~= signed(rest, negative.drop_first()));
    }
}

impl PulseSearch {
    /// No magnitude is negative, and with the pulses that are left there are as many
    /// as there will be.
    pub open spec fn wf(self) -> bool {
        &&& self.magnitudes@.len() >= 1
        &&& self.total <= i32::MAX
        &&& forall|j: int| 0 <= j < self.magnitudes@.len() ==> 0 <= #[trigger] self.magnitudes@[j]
        &&& cwrs::pulses(self.magnitudes@) + self.left == self.total
    }

    /// A search for `k` pulses among `n` values.
    pub fn new(n: usize, k: usize) -> (r: PulseSearch)
        requires
            n >= 1,
            k <= i32::MAX,
        ensures
            r.wf(),
            r.magnitudes@ == Seq::new(n as nat, |j: int| 0i32),
            r.left == k,
            r.total == k,
    {
        let magnitudes: Vec<i32> = vec![0i32; n];
        proof {
            lemma_no_pulses(n as nat);
            assert(magnitudes@ =~= Seq::new(n as nat, |j: int| 0i32));
        }
        PulseSearch { magnitudes, left: k, total: k }
    }

    /// Whether there are so many pulses that the first ones are placed by scaling the
    /// direction.
    pub fn projects(&self) -> (r: bool)
        ensures
            r == (self.total > self.magnitudes@.len() / 2),
    {
        self.total > self.magnitudes.len() / 2
    }

    /// Places the pulses of the scaled direction, rounded down.
    pub fn project(&mut self, floors: Vec<i32>)
        requires
            old(self).wf(),
            old(self).left == old(self).total,
            floors@.len() == old(self).magnitudes@.len(),
            forall|j: int| 0 <= j < floors@.len() ==> 0 <= #[trigger] floors@[j],
            cwrs::pulses(floors@) <= old(self).left,
        ensures
            final(self).wf(),
            final(self).magnitudes@ == floors@,
            final(self).left == old(self).left - cwrs::pulses(floors@),
            final(self).total == old(self).total,
    {
        let n: usize = floors.len();
        let mut sum: usize = 0;
        let mut j: usize = 0;
        assert(floors@.take(0) =~= Seq::<i32>::empty());
        while j < n
            invariant
                j <= n,
                n == floors@.len(),
                forall|j: int| 0 <= j < floors@.len() ==> 0 <= #[trigger] floors@[j],
                sum == cwrs::pulses(floors@.take(j as int)),
                cwrs::pulses(floors@) <= self.left,
            decreases n - j,
        {
            proof {
                let next = floors@.take(j + 1);
                lemma_pulses_split(floors@, j + 1);
                lemma_pulses_split(next, j as int);
                assert(next.take(j as int) =~= floors@.take(j as int));
                assert(next.skip(j as int) =~= seq![floors@[j as int]]);
                lemma_one_value(floors@[j as int]);
            }
            sum = sum + floors[j] as usize;
            j = j + 1;
        }
        assert(floors@.take(n as int) =~= floors@);
        self.left = self.left - sum;
        self.magnitudes = floors;
    }

    /// Puts what is left on the first value where it is more than a few for each.
    pub fn spill(&mut self)
        requires
            old(self).wf(),
        ensures
            final(self).wf(),
            final(self).total == old(self).total,
            ({
                let n = old(self).magnitudes@.len();
                if old(self).left > n + 3 {
                    &&& final(self).magnitudes@ == old(self).magnitudes@.update(
                        0,
                        (old(self).magnitudes@[0] + old(self).left) as i32,
                    )
                    &&& final(self).left == 0
                } else {
                    *final(self) == *old(self)
                }
            }),
    {
        if self.left > 3 && self.left - 3 > self.magnitudes.len() {
            proof {
                lemma_pulses_at(
                    self.magnitudes@,
                    0,
                    (self.magnitudes@[0] + self.left) as i32,
                );
            }
            let first: i32 = self.magnitudes[0] + self.left as i32;
            self.magnitudes.set(0, first);
            self.left = 0;
        }
    }

    /// Places a pulse on the value that it serves best.
    pub fn place(&mut self, best: usize)
        requires
            old(self).wf(),
            old(self).left > 0,
            best < old(self).magnitudes@.len(),
        ensures
            final(self).wf(),
            final(self).magnitudes@ == old(self).magnitudes@.update(
                best as int,
                (old(self).magnitudes@[best as int] + 1) as i32,
            ),
            final(self).left == old(self).left - 1,
            final(self).total == old(self).total,
    {
        proof {
            lemma_pulses_at(self.magnitudes@, best as int, (self.magnitudes@[best as int] + 1) as i32);
        }
        let more: i32 = self.magnitudes[best] + 1;
        self.magnitudes.set(best, more);
        self.left = self.left - 1;
    }

    /// The vector, once every pulse is placed; `negative` are the direction's signs.
    pub fn finish(&self, negative: &[bool]) -> (r: Vec<i32>)
        requires
            self.wf(),
            self.left == 0,
            negative@.len() == self.magnitudes@.len(),
        ensures
            r@ == signed(self.magnitudes@, negative@),
            cwrs::pulses(r@) == self.total,
    {
        let n: usize = self.magnitudes.len();
        let mut r: Vec<i32> = Vec::new();
        let mut j: usize = 0;
        while j < n
            invariant
                j <= n,
                n == self.magnitudes@.len(),
                n == negative@.len(),
                self.wf(),
                r@ == signed(self.magnitudes@, negative@).take(j as int),
            decreases n - j,
        {
            let y: i32 = self.magnitudes[j];
            r.push(
                if negative[j] {
                    -y
                } else {
                    y
                },
            );
            j = j + 1;
            assert(r@ =~= signed(self.magnitudes@, negative@).take(j as int));
        }
        proof {
            assert(r@ =~= signed(self.magnitudes@, negative@));
            lemma_signed(self.magnitudes@, negative@);
        }
        r
    }
}

/// Encodes a vector of `k` pulses and gives the mask of its blocks that hold one.
pub fn alg_quant(enc: &mut RangeEncoder, y: &[i32], k: usize, b: usize) -> (r: u32)
    requires
        old(enc).wf(),
        cwrs::codable(y@.len() as int, k as int),
        cwrs::pulses(y@) == k,
        1 <= b <= 16,
        b <= y@.len(),
    ensures
        final(enc).wf(),
        final(enc)@.size == old(enc)@.size,
        final(enc)@ == old(enc)@.after_uint(cwrs::index_of(y@) as int, cwrs::v(y@.len(), k as nat) as int),
        r == vq::collapse_mask(y@, b as int),
{
    encode_pulses(enc, y, k);
    extract_collapse_mask(y, b)
}

} // verus!
