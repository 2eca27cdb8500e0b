//! The enumeration of pulse vectors.
//!
//! A band's shape is a vector of `n` signed integers whose magnitudes add up to
//! `k`. All of them are numbered, and a shape is sent as its number: a uniform
//! value below `v(n, k)`, the count of such vectors.

use vstd::prelude::*;

use crate::math;
use crate::range::decoder::DecoderState;
use crate::range::encoder::EncoderState;
use crate::range::symbols::{self, Symbol};
use crate::range::{RangeDecoder, RangeEncoder};

verus! {

/// The working function of the enumeration: symmetric, and each value is the
/// sum of its three neighbours toward the origin.
#[verifier::opaque]
pub open spec fn u(n: nat, k: nat) -> nat
    decreases n + k,
{
    if n == 0 && k == 0 {
        1
    } else if n == 0 || k == 0 {
        0
    } else {
        u((n - 1) as nat, k) + u(n, (k - 1) as nat) + u((n - 1) as nat, (k - 1) as nat)
    }
}

/// The number of vectors of `n` integers whose magnitudes add up to `k`.
pub open spec fn v(n: nat, k: nat) -> nat {
    u(n, k) + u(n, k + 1)
}

/// The sum of the magnitudes.
pub open spec fn pulses(y: Seq<i32>) -> nat
    decreases y.len(),
{
    if y.len() == 0 {
        0
    } else {
        (math::abs(y[0] as int) + pulses(y.drop_first())) as nat
    }
}

/// The number of a vector among those of its length and pulse count: first the
/// vectors whose first entry is not negative, by the pulses left for the rest.
pub open spec fn index_of(y: Seq<i32>) -> nat
    decreases y.len(),
{
    if y.len() == 0 {
        0
    } else {
        let rest = y.drop_first();
        index_of(rest) + u(y.len(), pulses(rest)) + if y[0] < 0 {
            u(y.len(), pulses(y) + 1)
        } else {
            0
        }
    }
}

/// Where each row of the table starts, less the row's number; the last entry is
/// the length of the table.
#[verifier::opaque]
const PVQ_U_ROW: [usize; 16] = [
    0, 176, 351, 525, 698, 870, 1041, 1131, 1178, 1207, 1226, 1240, 1248, 1254, 1257, 1272,
];

/// The last column of a row of the table.
pub open spec fn row_max(row: int) -> int {
    if row <= 5 {
        176
    } else if row == 6 {
        96
    } else if row == 7 {
        54
    } else if row == 8 {
        37
    } else if row == 9 {
        28
    } else if row == 10 {
        24
    } else if row == 11 {
        19
    } else if row == 12 {
        18
    } else if row == 13 {
        16
    } else {
        14
    }
}

/// Whether the table holds `u(n, k)`.
pub open spec fn in_table(n: int, k: int) -> bool {
    let lo = math::min(n, k);
    let hi = math::max(n, k);
    0 <= lo <= 14 && hi <= row_max(lo)
}

/// Whether vectors of length `n` with `k` pulses can be numbered: the table
/// reaches far enough and their count fits 32 bits.
pub open spec fn codable(n: int, k: int) -> bool {
    &&& n >= 2
    &&& k >= 1
    &&& in_table(n, k + 1)
    &&& in_table(n, k)
    &&& v(n as nat, k as nat) <= u32::MAX
}

/// A table entry: the value, or the largest 32-bit value where it does not fit.
pub open spec fn sat32(x: int) -> int {
    math::min(x, u32::MAX as int)
}

pub closed spec fn entry(data: Seq<u32>, row: int, col: int) -> u32 {
    data[PVQ_U_ROW[row] + col]
}

/// The flat table holds, for each row, the columns from the row's number on.
pub closed spec fn is_table(data: Seq<u32>) -> bool {
    &&& data.len() == 1272
    &&& forall|row: int, col: int|
        0 <= row <= 14 && row <= col <= row_max(row) ==> #[trigger] entry(data, row, col) == sat32(
            u(row as nat, col as nat) as int,
        )
}

proof fn lemma_rows(m: int)
    requires
        0 <= m <= 14,
    ensures
        PVQ_U_ROW[m] + row_max(m) + 1 == PVQ_U_ROW[m + 1] + if m < 14 { m + 1 } else { 0 },
        PVQ_U_ROW[m] + row_max(m) < 1272,
        PVQ_U_ROW[0] == 0,
        PVQ_U_ROW[15] == 1272,
        m <= row_max(m) <= 176,
{
    reveal(PVQ_U_ROW);
    assert(m == 0 || m == 1 || m == 2 || m == 3 || m == 4 || m == 5 || m == 6 || m == 7 || m == 8 || m == 9 || m == 10
        || m == 11 || m == 12 || m == 13 || m == 14);
}

proof fn lemma_rows_ordered(a: int, b: int)
    requires
        0 <= a < b <= 14,
    ensures
        PVQ_U_ROW[a] + row_max(a) + 1 <= PVQ_U_ROW[b] + b,
    decreases b - a,
{
    lemma_rows(a);
    lemma_rows(b);
    if a + 1 < b {
        lemma_rows_ordered(a + 1, b);
        lemma_rows(a + 1);
    }
}

pub proof fn lemma_u_symmetric(n: nat, k: nat)
    ensures
        u(n, k) == u(k, n),
    decreases n + k,
{
    reveal(u);
    if n > 0 && k > 0 {
        lemma_u_symmetric((n - 1) as nat, k);
        lemma_u_symmetric(n, (k - 1) as nat);
        lemma_u_symmetric((n - 1) as nat, (k - 1) as nat);
    }
}

/// More pulses never make the working function smaller.
pub proof fn lemma_u_grows(n: nat, k: nat, k2: nat)
    requires
        n >= 1,
        k <= k2,
    ensures
        u(n, k) <= u(n, k2),
    decreases k2,
{
    reveal(u);
    if k < k2 {
        lemma_u_grows(n, k, (k2 - 1) as nat);
    }
}

pub proof fn lemma_u_positive(n: nat, k: nat)
    requires
        n >= 1,
        k >= 1,
    ensures
        u(n, k) >= 1,
    decreases n + k,
{
    reveal(u);
    if k > 1 {
        lemma_u_positive(n, (k - 1) as nat);
    } else if n > 1 {
        lemma_u_positive((n - 1) as nat, k);
    } else {
        assert(u(0, 0) == 1);
        assert(u(1, 0) == 0 && u(0, 1) == 0);
    }
}

/// The vectors of one dimension less fill the step between two values.
pub proof fn lemma_v_is_step(n: nat, k: nat)
    requires
        n >= 1,
    ensures
        v((n - 1) as nat, k) == u(n, k + 1) - u(n, k),
{
    reveal(u);
}

/// Every vector's number is below the count of vectors of its kind, and the
/// vectors whose first entry is negative are numbered last.
pub proof fn lemma_index_bound(y: Seq<i32>)
    ensures
        index_of(y) < v(y.len(), pulses(y)),
        y.len() > 0 ==> {
            let rest = y.drop_first();
            &&& u(y.len(), pulses(rest)) <= index_of(rest) + u(y.len(), pulses(rest)) < u(y.len(), pulses(rest) + 1)
            &&& (y[0] < 0 <==> index_of(y) >= u(y.len(), pulses(y) + 1))
        },
    decreases y.len(),
{
    reveal(u);
    if y.len() == 0 {
        assert(u(0, 0) == 1);
        assert(u(0, 1) == 0);
    } else {
        let rest = y.drop_first();
        let d = y.len();
        lemma_index_bound(rest);
        lemma_v_is_step(d, pulses(rest));
        assert(pulses(y) == math::abs(y[0] as int) + pulses(rest));
        if y[0] < 0 {
            lemma_u_grows(d, pulses(rest) + 1, pulses(y));
        } else {
            lemma_u_grows(d, pulses(rest) + 1, pulses(y) + 1);
        }
    }
}

/// No two vectors of one length and pulse count share a number.
pub proof fn lemma_index_injective(y: Seq<i32>, z: Seq<i32>)
    requires
        y.len() == z.len(),
        pulses(y) == pulses(z),
        index_of(y) == index_of(z),
    ensures
        y == z,
    decreases y.len(),
{
    if y.len() == 0 {
        assert(y =~= z);
    } else {
        let d = y.len();
        let ry = y.drop_first();
        let rz = z.drop_first();
        lemma_index_bound(y);
        lemma_index_bound(z);
        if pulses(ry) < pulses(rz) {
            lemma_u_grows(d, pulses(ry) + 1, pulses(rz));
        }
        if pulses(rz) < pulses(ry) {
            lemma_u_grows(d, pulses(rz) + 1, pulses(ry));
        }
        assert(pulses(ry) == pulses(rz));
        lemma_index_injective(ry, rz);
        assert(y[0] == z[0]);
        assert(y =~= seq![y[0]] + ry);
        assert(z =~= seq![z[0]] + rz);
    }
}

/// The tail of a vector has no larger number and no more pulses.
proof fn lemma_tail(y: Seq<i32>, j: int)
    requires
        0 <= j <= y.len(),
    ensures
        index_of(y.skip(j)) <= index_of(y),
        pulses(y.skip(j)) <= pulses(y),
        j < y.len() ==> y.skip(j).drop_first() == y.skip(j + 1) && y.skip(j)[0] == y[j],
    decreases j,
{
    if j < y.len() {
        assert(y.skip(j).drop_first() =~= y.skip(j + 1));
    }
    if j == 0 {
        assert(y.skip(0) =~= y);
    } else {
        lemma_tail(y, j - 1);
        assert(y.skip(j - 1).drop_first() =~= y.skip(j));
    }
}

/// The table, built from the recurrence. Entries that do not fit 32 bits
/// saturate.
pub fn compute_pvq_u_data() -> (d: Vec<u32>)
    ensures
        is_table(d@),
{
    let mut uu: Vec<Vec<u32>> = Vec::new();
    let mut a: usize = 0;
    while a < 15
        invariant
            a <= 15,
            uu@.len() == a,
            forall|i: int| 0 <= i < a ==> (#[trigger] uu@[i])@.len() == 177,
            forall|i: int, j: int|
                0 <= i < a && 0 <= j < 177 ==> #[trigger] uu@[i]@[j] == sat32(u(i as nat, j as nat) as int),
        decreases 15 - a,
    {
        let mut row: Vec<u32> = Vec::new();
        let mut b: usize = 0;
        while b < 177
            invariant
                a < 15,
                b <= 177,
                uu@.len() == a,
                row@.len() == b,
                forall|i: int| 0 <= i < a ==> (#[trigger] uu@[i])@.len() == 177,
                forall|i: int, j: int|
                    0 <= i < a && 0 <= j < 177 ==> #[trigger] uu@[i]@[j] == sat32(u(i as nat, j as nat) as int),
                forall|j: int| 0 <= j < b ==> #[trigger] row@[j] == sat32(u(a as nat, j as nat) as int),
            decreases 177 - b,
        {
            let x: u32 = if a == 0 || b == 0 {
                if a == 0 && b == 0 {
                    1
                } else {
                    0
                }
            } else {
                uu[a - 1][b].saturating_add(row[b - 1]).saturating_add(uu[a - 1][b - 1])
            };
            proof {
                reveal(u);
            }
            row.push(x);
            b = b + 1;
        }
        uu.push(row);
        a = a + 1;
    }
    let mut d: Vec<u32> = Vec::new();
    let mut m: usize = 0;
    proof {
        lemma_rows(0);
    }
    while m < 15
        invariant
            m <= 15,
            uu@.len() == 15,
            forall|i: int| 0 <= i < 15 ==> (#[trigger] uu@[i])@.len() == 177,
            forall|i: int, j: int|
                0 <= i < 15 && 0 <= j < 177 ==> #[trigger] uu@[i]@[j] == sat32(u(i as nat, j as nat) as int),
            m < 15 ==> d@.len() == PVQ_U_ROW[m as int] + m,
            m == 15 ==> d@.len() == 1272,
            forall|row: int, col: int|
                0 <= row < m && row <= col <= row_max(row) ==> #[trigger] entry(d@, row, col) == sat32(
                    u(row as nat, col as nat) as int,
                ),
        decreases 15 - m,
    {
        proof {
            lemma_rows(m as int);
        }
        let end: usize = if m < 14 {
            PVQ_U_ROW[m + 1] + (m + 1)
        } else {
            PVQ_U_ROW[15]
        };
        let mut p: usize = PVQ_U_ROW[m] + m;
        while p < end
            invariant
                m < 15,
                uu@.len() == 15,
                forall|i: int| 0 <= i < 15 ==> (#[trigger] uu@[i])@.len() == 177,
                forall|i: int, j: int|
                    0 <= i < 15 && 0 <= j < 177 ==> #[trigger] uu@[i]@[j] == sat32(u(i as nat, j as nat) as int),
                PVQ_U_ROW[m as int] + m <= p <= end,
                end == PVQ_U_ROW[m as int] + row_max(m as int) + 1,
                row_max(m as int) <= 176,
                d@.len() == p,
                forall|row: int, col: int|
                    0 <= row < m && row <= col <= row_max(row) ==> #[trigger] entry(d@, row, col) == sat32(
                        u(row as nat, col as nat) as int,
                    ),
                forall|col: int|
                    m <= col < p - PVQ_U_ROW[m as int] ==> #[trigger] entry(d@, m as int, col) == sat32(
                        u(m as nat, col as nat) as int,
                    ),
            decreases end - p,
        {
            let ghost before = d@;
            d.push(uu[m][p - PVQ_U_ROW[m]]);
            p = p + 1;
            proof {
                assert forall|row: int, col: int|
                    0 <= row < m && row <= col <= row_max(row) implies #[trigger] entry(d@, row, col) == sat32(
                    u(row as nat, col as nat) as int,
                ) by {
                    lemma_rows_ordered(row, m as int);
                    assert(entry(before, row, col) == entry(d@, row, col));
                }
                assert forall|col: int| m <= col < p - PVQ_U_ROW[m as int] implies #[trigger] entry(
                    d@,
                    m as int,
                    col,
                ) == sat32(u(m as nat, col as nat) as int) by {
                    if col < p - 1 - PVQ_U_ROW[m as int] {
                        assert(entry(before, m as int, col) == entry(d@, m as int, col));
                    }
                }
            }
        }
        m = m + 1;
    }
    d
}

/// The table of the working function.
pub fn pvq_u_data() -> (d: Vec<u32>)
    ensures
        is_table(d@),
{
    compute_pvq_u_data()
}

/// `u(row, col)` from its place in the table.
pub fn urow(data: &[u32], row: usize, col: usize) -> (r: u32)
    requires
        is_table(data@),
        row <= col,
        row <= 14,
        col <= row_max(row as int),
    ensures
        r == sat32(u(row as nat, col as nat) as int),
{
    proof {
        lemma_rows(row as int);
        assert(entry(data@, row as int, col as int) == sat32(u(row as nat, col as nat) as int));
    }
    data[PVQ_U_ROW[row] + col]
}

/// `u(n, k)`, by symmetry from the row of the smaller argument.
pub fn celt_pvq_u(data: &[u32], n: usize, k: usize) -> (r: u32)
    requires
        is_table(data@),
        in_table(n as int, k as int),
    ensures
        r == sat32(u(n as nat, k as nat) as int),
{
    proof {
        lemma_u_symmetric(n as nat, k as nat);
    }
    if n < k {
        urow(data, n, k)
    } else {
        urow(data, k, n)
    }
}

/// Takes the first entry of a vector off its number: the entry, and the pulses
/// and the number that are left for the rest.
fn take_entry(data: &[u32], n: usize, k: usize, i: u32) -> (r: (i32, usize, u32))
    requires
        is_table(data@),
        n >= 1,
        in_table(n as int, k + 1),
        in_table(n as int, k as int),
        v(n as nat, k as nat) <= u32::MAX,
        i < v(n as nat, k as nat),
    ensures
        r.1 <= k,
        math::abs(r.0 as int) == k - r.1,
        r.2 < v((n - 1) as nat, r.1 as nat),
        i == r.2 + u(n as nat, r.1 as nat) + if r.0 < 0 {
            u(n as nat, (k + 1) as nat)
        } else {
            0
        },
{
    let p: u32 = celt_pvq_u(data, n, k + 1);
    let negative: bool = i >= p;
    let i1: u32 = if negative {
        i - p
    } else {
        i
    };
    proof {
        lemma_u_grows(n as nat, k as nat, (k + 1) as nat);
    }
    let mut left: usize = k;
    if k >= n {
        if celt_pvq_u(data, n, n) > i1 {
            proof {
                lemma_u_grows(n as nat, n as nat, k as nat);
                lemma_u_grows(n as nat, n as nat, (n + 1) as nat);
            }
            left = n;
        }
    }
    let mut q: u32 = celt_pvq_u(data, n, left);
    proof {
        lemma_u_grows(n as nat, left as nat, k as nat);
    }
    while q > i1
        invariant
            is_table(data@),
            n >= 1,
            left <= k,
            in_table(n as int, k as int),
            v(n as nat, k as nat) <= u32::MAX,
            q == u(n as nat, left as nat),
            i1 < u(n as nat, (left + 1) as nat),
            negative ==> i1 < u(n as nat, k as nat),
        decreases left,
    {
        proof {
            reveal(u);
        }
        assert(left > 0);
        left = left - 1;
        proof {
            lemma_u_grows(n as nat, left as nat, k as nat);
        }
        q = celt_pvq_u(data, n, left);
    }
    proof {
        lemma_v_is_step(n as nat, left as nat);
        if negative {
            assert(left < k);
        }
    }
    let mag: i32 = (k - left) as i32;
    (
        if negative {
            -mag
        } else {
            mag
        },
        left,
        i1 - q,
    )
}

/// The vector of length `y.len()` with `k` pulses whose number is `i`.
pub fn cwrsi(n: usize, k: usize, i: u32, y: &mut [i32])
    requires
        codable(n as int, k as int),
        old(y)@.len() == n,
        i < v(n as nat, k as nat),
    ensures
        final(y)@.len() == n,
        pulses(final(y)@) == k,
        index_of(final(y)@) == i,
{
    let data: Vec<u32> = pvq_u_data();
    let mut left: usize = k;
    let mut rest: u32 = i;
    let mut j: usize = 0;
    proof {
        assert(y@.take(0) =~= Seq::<i32>::empty());
        assert forall|t: Seq<i32>|
            t.len() == n && pulses(t) == k && index_of(t) == i implies pulses(#[trigger] (y@.take(0) + t)) == k
            && index_of(y@.take(0) + t) == i by {
            assert(y@.take(0) + t =~= t);
        }
    }
    while j < n
        invariant
            is_table(data@),
            codable(n as int, k as int),
            y@.len() == n,
            j <= n,
            left <= k,
            rest < v((n - j) as nat, left as nat),
            v((n - j) as nat, left as nat) <= u32::MAX,
            forall|t: Seq<i32>|
                t.len() == n - j && pulses(t) == left && index_of(t) == rest ==> pulses(
                    #[trigger] (y@.take(j as int) + t),
                ) == k && index_of(y@.take(j as int) + t) == i,
        decreases n - j,
    {
        let d: usize = n - j;
        let (e, left2, rest2) = take_entry(&data, d, left, rest);
        let ghost before = y@;
        y[j] = e;
        proof {
            assert forall|t: Seq<i32>|
                t.len() == d - 1 && pulses(t) == left2 && index_of(t) == rest2 implies pulses(
                #[trigger] (y@.take(j + 1) + t),
            ) == k && index_of(y@.take(j + 1) + t) == i by {
                let w = seq![e] + t;
                assert(w.drop_first() =~= t);
                assert(pulses(w) == left);
                assert(index_of(w) == rest);
                assert(y@.take(j + 1) + t =~= before.take(j as int) + w);
            }
            lemma_v_shrinks(d as nat, left as nat, left2 as nat);
        }
        left = left2;
        rest = rest2;
        j = j + 1;
    }
    proof {
        let t = Seq::<i32>::empty();
        reveal(u);
        if left > 0 {
            assert(u(0, left as nat) == 0 && u(0, (left + 1) as nat) == 0);
        }
        assert(u(0, 0) == 1 && u(0, 1) == 0);
        assert(pulses(t) == 0 && index_of(t) == 0);
        assert(y@.take(n as int) + t =~= y@);
    }
}

proof fn lemma_v_shrinks(n: nat, k: nat, k2: nat)
    requires
        n >= 1,
        k2 <= k,
    ensures
        v((n - 1) as nat, k2) <= v(n, k),
{
    lemma_v_is_step(n, k2);
    lemma_u_grows(n, k2 + 1, k + 1);
}

/// The number of a pulse vector.
pub fn icwrs(y: &[i32]) -> (i: u32)
    requires
        codable(y@.len() as int, pulses(y@) as int),
    ensures
        i == index_of(y@),
{
    let n: usize = y.len();
    let data: Vec<u32> = pvq_u_data();
    let mut j: usize = n;
    let mut i: u32 = 0;
    let mut k: usize = 0;
    proof {
        lemma_index_bound(y@);
        assert(y@.skip(n as int) =~= Seq::<i32>::empty());
    }
    while j > 0
        invariant
            is_table(data@),
            codable(y@.len() as int, pulses(y@) as int),
            index_of(y@) < v(y@.len(), pulses(y@)),
            n == y@.len(),
            j <= n,
            i == index_of(y@.skip(j as int)),
            k == pulses(y@.skip(j as int)),
            k <= pulses(y@),
        decreases j,
    {
        j = j - 1;
        proof {
            lemma_tail(y@, j as int);
            lemma_tail(y@, j + 1);
        }
        let d: usize = n - j;
        let e: i32 = y[j];
        let mag: usize = if e < 0 {
            (-(e as i64)) as usize
        } else {
            e as usize
        };
        i = i + celt_pvq_u(&data, d, k);
        k = k + mag;
        if e < 0 {
            i = i + celt_pvq_u(&data, d, k + 1);
        }
    }
    assert(y@.skip(0) =~= y@);
    i
}

/// The number of pulse vectors of length `n` with `k` pulses.
pub fn pvq_codebook_size(n: usize, k: usize) -> (r: u32)
    requires
        codable(n as int, k as int),
    ensures
        r == v(n as nat, k as nat),
        r >= 2,
{
    let data: Vec<u32> = pvq_u_data();
    proof {
        lemma_u_positive(n as nat, k as nat);
        lemma_u_positive(n as nat, (k + 1) as nat);
    }
    celt_pvq_u(&data, n, k) + celt_pvq_u(&data, n, k + 1)
}

/// Decodes a vector of `k` pulses into `y`. Where the stream holds a number
/// that no vector has, `y` stays as it was and the result is `None`.
pub fn decode_pulses(dec: &mut RangeDecoder, y: &mut [i32], k: usize) -> (r: Option<()>)
    requires
        old(dec).wf(),
        codable(old(y)@.len() as int, k as int),
    ensures
        final(dec).wf(),
        final(dec)@ == old(dec)@.after_uint(v(old(y)@.len(), k as nat) as int),
        r is Some <==> old(dec)@.uint(v(old(y)@.len(), k as nat) as int) < v(old(y)@.len(), k as nat),
        r is Some ==> {
            &&& final(y)@.len() == old(y)@.len()
            &&& pulses(final(y)@) == k
            &&& index_of(final(y)@) == old(dec)@.uint(v(old(y)@.len(), k as nat) as int)
        },
        r is None ==> final(y)@ == old(y)@,
{
    let n: usize = y.len();
    let size: u32 = pvq_codebook_size(n, k);
    match dec.decode_uint(size) {
        Some(i) => {
            cwrsi(n, k, i, y);
            Some(())
        },
        None => None,
    }
}

/// Encodes the pulse vector `y`, whose magnitudes add up to `k`.
pub fn encode_pulses(enc: &mut RangeEncoder, y: &[i32], k: usize)
    requires
        old(enc).wf(),
        codable(y@.len() as int, k as int),
        pulses(y@) == k,
    ensures
        final(enc).wf(),
        final(enc)@.size == old(enc)@.size,
        final(enc)@ == old(enc)@.after_uint(index_of(y@) as int, v(y@.len(), k as nat) as int),
{
    proof {
        lemma_index_bound(y@);
    }
    let i: u32 = icwrs(y);
    let size: u32 = pvq_codebook_size(y.len(), k);
    enc.encode_uint(i, size);
}

/// What was encoded of a pulse vector is decoded as the same vector: the decoder
/// reads its number, which no other vector has, and goes on as the encoder did.
pub proof fn lemma_pulses_round_trip(e: EncoderState, d: DecoderState, y: Seq<i32>, z: Seq<i32>, whole: Seq<bool>)
    requires
        symbols::agrees(e, d),
        e.wf(),
        codable(y.len() as int, pulses(y) as int),
        symbols::leads_to(
            e.after_uint(index_of(y) as int, v(y.len(), pulses(y)) as int),
            d.data,
            whole,
        ),
    ensures
        symbols::agrees(
            e.after_uint(index_of(y) as int, v(y.len(), pulses(y)) as int),
            d.after_uint(v(y.len(), pulses(y)) as int),
        ),
        d.uint(v(y.len(), pulses(y)) as int) < v(y.len(), pulses(y)),
        z.len() == y.len() && pulses(z) == pulses(y) && index_of(z) == d.uint(v(y.len(), pulses(y)) as int)
            ==> z == y,
{
    let n = y.len();
    let k = pulses(y);
    lemma_index_bound(y);
    lemma_u_positive(n, k);
    lemma_u_positive(n, k + 1);
    let s = Symbol::Uniform { v: index_of(y) as int, ft: v(n, k) as int };
    assert(s.legal());
    symbols::lemma_symbol(e, d, s, whole);
    if z.len() == n && pulses(z) == k && index_of(z) == d.uint(v(n, k) as int) {
        lemma_index_injective(y, z);
    }
}

} // verus!
