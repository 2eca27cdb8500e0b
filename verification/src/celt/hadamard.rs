//! The order of a band's coefficients: those of each short block together, or all
//! of one frequency together.

use vstd::prelude::*;

use crate::celt::angle::{self, lemma_order_injective, ordery};

verus! {

/// The place of entry `b` of row `a`, with `m` entries to a row.
pub open spec fn slot(a: int, m: int, b: int) -> int {
    a * m + b
}

/// The row of block `i` of `stride` blocks, in the order of their sequency where
/// `hadamard` is set.
pub open spec fn block_row(stride: int, i: int, hadamard: bool) -> int {
    if hadamard {
        angle::order_of(stride, i)
    } else {
        i
    }
}

/// Whether `y` holds the coefficients of `x`, which are ordered by frequency,
/// block by block.
pub open spec fn by_block<T>(x: Seq<T>, y: Seq<T>, n0: int, stride: int, hadamard: bool) -> bool {
    &&& y.len() == x.len()
    &&& forall|i: int, j: int|
        #![trigger slot(block_row(stride, i, hadamard), n0, j)]
        #![trigger slot(j, stride, i)]
        0 <= i < stride && 0 <= j < n0 ==> y[slot(block_row(stride, i, hadamard), n0, j)] == x[slot(j, stride, i)]
    &&& forall|p: int| n0 * stride <= p < x.len() ==> #[trigger] y[p] == x[p]
}

/// Whether a number of blocks has an order of sequency.
pub open spec fn ordered(stride: int, hadamard: bool) -> bool {
    &&& stride >= 1
    &&& hadamard ==> stride == 2 || stride == 4 || stride == 8 || stride == 16
}

proof fn lemma_slot(a: int, m: int, b: int, rows: int)
    requires
        0 <= a < rows,
        0 <= b < m,
    ensures
        0 <= slot(a, m, b) < rows * m,
{
    assert(0 <= a * m && a * m + m <= rows * m) by (nonlinear_arith)
        requires
            0 <= a < rows,
            0 < m,
    ;
}

proof fn lemma_slot_unique(a: int, b: int, c: int, d: int, m: int)
    requires
        0 <= b < m,
        0 <= d < m,
        slot(a, m, b) == slot(c, m, d),
    ensures
        a == c,
        b == d,
{
    assert(a == c) by (nonlinear_arith)
        requires
            0 <= b < m,
            0 <= d < m,
            a * m + b == c * m + d,
    ;
}

proof fn lemma_row_bound(stride: int, i: int, hadamard: bool)
    requires
        ordered(stride, hadamard),
        0 <= i < stride,
    ensures
        0 <= block_row(stride, i, hadamard) < stride,
{
    if hadamard {
        angle::lemma_order_bound(stride, i);
    }
}

proof fn lemma_row_unique(stride: int, a: int, b: int, hadamard: bool)
    requires
        ordered(stride, hadamard),
        0 <= a < stride,
        0 <= b < stride,
        block_row(stride, a, hadamard) == block_row(stride, b, hadamard),
    ensures
        a == b,
{
    if hadamard {
        if a < b {
            lemma_order_injective(stride, a, b);
        } else if b < a {
            lemma_order_injective(stride, b, a);
        }
    }
}

fn rows_of(stride: usize, hadamard: bool) -> (r: Vec<usize>)
    requires
        ordered(stride as int, hadamard),
    ensures
        r@.len() == stride,
        forall|i: int| 0 <= i < stride ==> #[trigger] r@[i] == block_row(stride as int, i, hadamard),
{
    if hadamard {
        ordery(stride)
    } else {
        let mut r: Vec<usize> = Vec::new();
        let mut i: usize = 0;
        while i < stride
            invariant
                i <= stride,
                r@.len() == i,
                forall|j: int| 0 <= j < i ==> #[trigger] r@[j] == j,
            decreases stride - i,
        {
            r.push(i);
            i = i + 1;
        }
        r
    }
}

/// Puts the coefficients of each of `stride` short blocks together; they stand
/// frequency by frequency, `n0` to a block.
pub fn deinterleave_hadamard<T: Copy>(x: &mut [T], n0: usize, stride: usize, hadamard: bool)
    requires
        ordered(stride as int, hadamard),
        n0 * stride <= old(x)@.len(),
    ensures
        by_block(old(x)@, final(x)@, n0 as int, stride as int, hadamard),
{
    let rows: Vec<usize> = rows_of(stride, hadamard);
    let copy: Vec<T> = vstd::slice::slice_to_vec(x);
    let ghost orig = x@;
    let len: usize = x.len();
    let mut i: usize = 0;
    while i < stride
        invariant
            i <= stride,
            ordered(stride as int, hadamard),
            n0 * stride <= orig.len(),
            len == orig.len(),
            copy@ == orig,
            x@.len() == orig.len(),
            rows@.len() == stride,
            forall|k: int| 0 <= k < stride ==> #[trigger] rows@[k] == block_row(stride as int, k, hadamard),
            forall|a: int, b: int|
                #![trigger slot(block_row(stride as int, a, hadamard), n0 as int, b)]
                0 <= a < i && 0 <= b < n0 ==> x@[slot(block_row(stride as int, a, hadamard), n0 as int, b)]
                    == orig[slot(b, stride as int, a)],
            forall|p: int| n0 * stride <= p < orig.len() ==> #[trigger] x@[p] == orig[p],
        decreases stride - i,
    {
        let row: usize = rows[i];
        proof {
            lemma_row_bound(stride as int, i as int, hadamard);
        }
        let mut j: usize = 0;
        while j < n0
            invariant
                i < stride,
                j <= n0,
                ordered(stride as int, hadamard),
                n0 * stride <= orig.len(),
                len == orig.len(),
                copy@ == orig,
                x@.len() == orig.len(),
                row == block_row(stride as int, i as int, hadamard),
                row < stride,
                forall|a: int, b: int|
                    #![trigger slot(block_row(stride as int, a, hadamard), n0 as int, b)]
                    0 <= a <= i && 0 <= b < n0 && (a < i || b < j) ==> x@[slot(
                        block_row(stride as int, a, hadamard),
                        n0 as int,
                        b,
                    )] == orig[slot(b, stride as int, a)],
                forall|p: int| n0 * stride <= p < orig.len() ==> #[trigger] x@[p] == orig[p],
            decreases n0 - j,
        {
            proof {
                lemma_slot(row as int, n0 as int, j as int, stride as int);
                lemma_slot(j as int, stride as int, i as int, n0 as int);
                assert(stride * n0 == n0 * stride) by (nonlinear_arith);
                assert(0 <= row * n0 && 0 <= j * stride) by (nonlinear_arith);
            }
            let ghost before = x@;
            x[row * n0 + j] = copy[j * stride + i];
            assert forall|a: int, b: int|
                #![trigger slot(block_row(stride as int, a, hadamard), n0 as int, b)]
                0 <= a <= i && 0 <= b < n0 && (a < i || b < j + 1) implies x@[slot(
                block_row(stride as int, a, hadamard),
                n0 as int,
                b,
            )] == orig[slot(b, stride as int, a)] by {
                let at = block_row(stride as int, a, hadamard);
                lemma_row_bound(stride as int, a, hadamard);
                lemma_slot(at, n0 as int, b, stride as int);
                if slot(at, n0 as int, b) == slot(row as int, n0 as int, j as int) {
                    lemma_slot_unique(at, b, row as int, j as int, n0 as int);
                    lemma_row_unique(stride as int, a, i as int, hadamard);
                }
            }
            j = j + 1;
        }
        i = i + 1;
    }
}

/// Puts the coefficients of each frequency together; they stand block by block.
pub fn interleave_hadamard<T: Copy>(x: &mut [T], n0: usize, stride: usize, hadamard: bool)
    requires
        ordered(stride as int, hadamard),
        n0 * stride <= old(x)@.len(),
    ensures
        by_block(final(x)@, old(x)@, n0 as int, stride as int, hadamard),
{
    let rows: Vec<usize> = rows_of(stride, hadamard);
    let copy: Vec<T> = vstd::slice::slice_to_vec(x);
    let ghost orig = x@;
    let len: usize = x.len();
    let mut i: usize = 0;
    while i < stride
        invariant
            i <= stride,
            ordered(stride as int, hadamard),
            n0 * stride <= orig.len(),
            len == orig.len(),
            copy@ == orig,
            x@.len() == orig.len(),
            rows@.len() == stride,
            forall|k: int| 0 <= k < stride ==> #[trigger] rows@[k] == block_row(stride as int, k, hadamard),
            forall|a: int, b: int|
                #![trigger slot(b, stride as int, a)]
                0 <= a < i && 0 <= b < n0 ==> x@[slot(b, stride as int, a)] == orig[slot(
                    block_row(stride as int, a, hadamard),
                    n0 as int,
                    b,
                )],
            forall|p: int| n0 * stride <= p < orig.len() ==> #[trigger] x@[p] == orig[p],
        decreases stride - i,
    {
        let row: usize = rows[i];
        proof {
            lemma_row_bound(stride as int, i as int, hadamard);
        }
        let mut j: usize = 0;
        while j < n0
            invariant
                i < stride,
                j <= n0,
                ordered(stride as int, hadamard),
                n0 * stride <= orig.len(),
                len == orig.len(),
                copy@ == orig,
                x@.len() == orig.len(),
                row == block_row(stride as int, i as int, hadamard),
                row < stride,
                forall|a: int, b: int|
                    #![trigger slot(b, stride as int, a)]
                    0 <= a <= i && 0 <= b < n0 && (a < i || b < j) ==> x@[slot(b, stride as int, a)] == orig[slot(
                        block_row(stride as int, a, hadamard),
                        n0 as int,
                        b,
                    )],
                forall|p: int| n0 * stride <= p < orig.len() ==> #[trigger] x@[p] == orig[p],
            decreases n0 - j,
        {
            proof {
                lemma_slot(row as int, n0 as int, j as int, stride as int);
                lemma_slot(j as int, stride as int, i as int, n0 as int);
                assert(stride * n0 == n0 * stride) by (nonlinear_arith);
                assert(0 <= row * n0 && 0 <= j * stride) by (nonlinear_arith);
            }
            x[j * stride + i] = copy[row * n0 + j];
            assert forall|a: int, b: int|
                #![trigger slot(b, stride as int, a)]
                0 <= a <= i && 0 <= b < n0 && (a < i || b < j + 1) implies x@[slot(b, stride as int, a)]
                == orig[slot(block_row(stride as int, a, hadamard), n0 as int, b)] by {
                lemma_slot(b, stride as int, a, n0 as int);
                if slot(b, stride as int, a) == slot(j as int, stride as int, i as int) {
                    lemma_slot_unique(b, a, j as int, i as int, stride as int);
                }
            }
            j = j + 1;
        }
        i = i + 1;
    }
    proof {
        assert forall|a: int, b: int|
            #![trigger slot(block_row(stride as int, a, hadamard), n0 as int, b)]
            #![trigger slot(b, stride as int, a)]
            0 <= a < stride && 0 <= b < n0 implies orig[slot(block_row(stride as int, a, hadamard), n0 as int, b)]
            == x@[slot(b, stride as int, a)] by {
            assert(x@[slot(b, stride as int, a)] == x@[slot(b, stride as int, a)]);
        }
    }
}

/// Each order undoes the other.
pub proof fn lemma_hadamard_inverse<T>(x: Seq<T>, y: Seq<T>, z: Seq<T>, n0: int, stride: int, hadamard: bool)
    requires
        ordered(stride, hadamard),
        0 <= n0,
        n0 * stride <= x.len(),
        by_block(x, y, n0, stride, hadamard),
        by_block(z, y, n0, stride, hadamard),
    ensures
        z == x,
{
    assert forall|p: int| 0 <= p < x.len() implies z[p] == x[p] by {
        if p < n0 * stride {
            let j = p / stride;
            let i = p % stride;
            assert(p == j * stride + i && 0 <= i < stride && 0 <= j < n0) by (nonlinear_arith)
                requires
                    stride > 0,
                    0 <= p < n0 * stride,
                    j == p / stride,
                    i == p % stride,
            ;
            assert(slot(j, stride, i) == p);
        } else {
            assert(y[p] == x[p]);
            assert(y[p] == z[p]);
        }
    }
    assert(z =~= x);
}

} // verus!
