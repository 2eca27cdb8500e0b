//! Pulse vectors of a band: how they are spread and which blocks they reach.

pub mod laws;

use vstd::arithmetic::power2::{lemma2_to64, lemma_pow2_strictly_increases, lemma_pow2_unfold, pow2};
use vstd::prelude::*;

verus! {

/// How strongly a band's pulses are spread by rotation.
#[derive(Clone, Copy, Debug, PartialEq, Eq, Structural)]
pub enum Spread {
    Off,
    Light,
    Normal,
    Aggressive,
}

impl Spread {
    /// The spread that the two low bits of a coded value name.
    pub open spec fn of(v: int) -> Spread {
        if v % 4 == 0 {
            Spread::Off
        } else if v % 4 == 1 {
            Spread::Light
        } else if v % 4 == 2 {
            Spread::Normal
        } else {
            Spread::Aggressive
        }
    }

    /// The spread that the two low bits of a coded value name.
    pub fn from_raw(v: u32) -> (r: Spread)
        ensures
            r == Spread::of(v as int),
    {
        match v % 4 {
            0 => Spread::Off,
            1 => Spread::Light,
            2 => Spread::Normal,
            _ => Spread::Aggressive,
        }
    }

    /// The value that codes a spread.
    pub open spec fn raw_spec(self) -> usize {
        match self {
            Spread::Off => 0,
            Spread::Light => 1,
            Spread::Normal => 2,
            Spread::Aggressive => 3,
        }
    }

    /// The value that codes a spread.
    pub fn raw(self) -> (r: usize)
        ensures
            r == self.raw_spec(),
            r <= 3,
            Spread::of(r as int) == self,
    {
        match self {
            Spread::Off => 0,
            Spread::Light => 1,
            Spread::Normal => 2,
            Spread::Aggressive => 3,
        }
    }

    /// The rotation factor.
    pub open spec fn factor_spec(self) -> Option<i32> {
        match self {
            Spread::Off => None,
            Spread::Light => Some(15),
            Spread::Normal => Some(10),
            Spread::Aggressive => Some(5),
        }
    }

    /// The rotation factor; without spreading there is none.
    pub fn factor(self) -> (r: Option<i32>)
        ensures
            r == self.factor_spec(),
    {
        match self {
            Spread::Off => None,
            Spread::Light => Some(15),
            Spread::Normal => Some(10),
            Spread::Aggressive => Some(5),
        }
    }
}

/// The smallest step, from `s` on, that reaches across a block.
pub open spec fn stride_from(len: int, b: int, s: int) -> int
    decreases len - s,
{
    if 0 < s && s < len && (s * s + s) * b + b / 4 < len {
        stride_from(len, b, s + 1)
    } else {
        s
    }
}

/// The step of the second rotation of a vector of `len` values in `b` blocks;
/// zero where the blocks are too short for one.
pub fn rotation_stride(len: usize, b: usize) -> (r: usize)
    requires
        1 <= b <= 16,
        len <= 0x1000,
    ensures
        r == if len >= 8 * b {
            stride_from(len as int, b as int, 1)
        } else {
            0
        },
{
    if len < 8 * b {
        return 0;
    }
    let mut s: usize = 1;
    proof {
        let y = b as int;
        assert((1 * 1 + 1) * y == 2 * y) by (nonlinear_arith);
    }
    while s < len && (s * s + s) * b + b / 4 < len
        invariant
            1 <= b <= 16,
            1 <= s <= len <= 0x1000,
            stride_from(len as int, b as int, 1) == stride_from(len as int, b as int, s as int),
            (s * s + s) * b <= 0x1001 * 0x1001 * 16,
            s * s <= 0x1000 * 0x1000,
        decreases len - s,
    {
        s = s + 1;
        proof {
            let x = s as int;
            let y = b as int;
            assert(x * x <= 0x1000 * 0x1000) by (nonlinear_arith)
                requires
                    0 <= x <= 0x1000,
            ;
            let z = x * x + x;
            assert(z * y <= 0x1001 * 0x1001 * 16) by (nonlinear_arith)
                requires
                    0 <= z <= 0x1001 * 0x1001,
                    0 <= y <= 16,
            ;
        }
    }
    s
}

/// Whether block `i` of `n0` values holds a pulse.
pub open spec fn block_hit(y: Seq<i32>, n0: int, i: int) -> bool {
    exists|j: int| i * n0 <= j < i * n0 + n0 && #[trigger] y[j] != 0
}

/// The blocks from `i` on that hold a pulse, as bits.
pub open spec fn mask_from(y: Seq<i32>, n0: int, b: int, i: int) -> int
    decreases b - i,
{
    if i >= b {
        0
    } else {
        (if block_hit(y, n0, i) {
            1int
        } else {
            0int
        }) + 2 * mask_from(y, n0, b, i + 1)
    }
}

/// Which of `b` blocks of a vector hold a pulse, as bits. A single block always
/// counts.
pub open spec fn collapse_mask(y: Seq<i32>, b: int) -> int {
    if b <= 1 {
        1
    } else {
        mask_from(y, y.len() as int / b, b, 0)
    }
}

proof fn lemma_mask_bound(y: Seq<i32>, n0: int, b: int, i: int)
    requires
        i <= b,
    ensures
        0 <= mask_from(y, n0, b, i) < pow2((b - i) as nat),
    decreases b - i,
{
    lemma2_to64();
    if i < b {
        lemma_mask_bound(y, n0, b, i + 1);
        lemma_pow2_unfold((b - i) as nat);
    }
}

/// A bit of the mask is set exactly where its block holds a pulse.
pub proof fn lemma_collapse_mask(y: Seq<i32>, b: int, i: int)
    requires
        2 <= b,
        0 <= i < b,
    ensures
        (collapse_mask(y, b) / pow2(i as nat) as int) % 2 == 1 <==> block_hit(y, y.len() as int / b, i),
        0 <= collapse_mask(y, b) < pow2(b as nat),
{
    lemma_mask_bound(y, y.len() as int / b, b, 0);
    lemma_mask_bit(y, y.len() as int / b, b, 0, i as nat);
}

proof fn lemma_mask_bit(y: Seq<i32>, n0: int, b: int, from: int, i: nat)
    requires
        0 <= from,
        from + i < b,
    ensures
        (mask_from(y, n0, b, from) / pow2(i) as int) % 2 == 1 <==> block_hit(y, n0, from + i),
    decreases i,
{
    lemma2_to64();
    let m = mask_from(y, n0, b, from);
    if i == 0 {
        assert(m / pow2(0) as int == m);
    } else {
        lemma_mask_bit(y, n0, b, from + 1, (i - 1) as nat);
        lemma_pow2_unfold(i);
        let p = pow2((i - 1) as nat) as int;
        vstd::arithmetic::power2::lemma_pow2_pos((i - 1) as nat);
        lemma_mask_bound(y, n0, b, from);
        vstd::arithmetic::div_mod::lemma_div_denominator(m, 2, p);
        assert(m / 2 == mask_from(y, n0, b, from + 1));
    }
}

/// Which of `b` blocks of a pulse vector hold a pulse.
pub fn extract_collapse_mask(iy: &[i32], b: usize) -> (r: u32)
    requires
        b <= 32,
        b <= iy@.len(),
    ensures
        r == collapse_mask(iy@, b as int),
{
    if b <= 1 {
        return 1;
    }
    let len: usize = iy.len();
    let n0: usize = len / b;
    let mut mask: u32 = 0;
    let mut i: usize = b;
    proof {
        lemma2_to64();
        crate::math::lemma_div(iy@.len() as int, b as int);
    }
    while i > 0
        invariant
            i <= b <= 32,
            len == iy@.len(),
            n0 == iy@.len() as int / b as int,
            b * n0 <= iy@.len(),
            mask == mask_from(iy@, n0 as int, b as int, i as int),
        decreases i,
    {
        i = i - 1;
        proof {
            assert(i * n0 + n0 <= b * n0) by (nonlinear_arith)
                requires
                    i + 1 <= b,
                    n0 >= 0,
            ;
            assert(0 <= i * n0) by (nonlinear_arith)
                requires
                    i >= 0,
                    n0 >= 0,
            ;
            lemma_mask_bound(iy@, n0 as int, b as int, i as int);
            lemma_mask_bound(iy@, n0 as int, b as int, i + 1);
            lemma2_to64();
            if b - i < 32 {
                lemma_pow2_strictly_increases((b - i) as nat, 32);
            }
        }
        let base: usize = i * n0;
        let mut hit: bool = false;
        let mut j: usize = base;
        while j < base + n0
            invariant
                base == i * n0,
                len == iy@.len(),
                base + n0 <= len,
                base <= j <= base + n0,
                hit <==> (exists|x: int| i * n0 <= x < j && #[trigger] iy@[x] != 0),
            decreases base + n0 - j,
        {
            if iy[j] != 0 {
                hit = true;
            }
            j = j + 1;
        }
        assert(hit <==> block_hit(iy@, n0 as int, i as int));
        mask = mask * 2 + if hit {
            1
        } else {
            0
        };
    }
    mask
}

} // verus!
