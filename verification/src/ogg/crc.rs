//! The checksum of a page.

pub mod laws;

use vstd::prelude::*;

verus! {

/// The generator.
pub const POLYNOMIAL: u32 = 0x04C1_1DB7;

/// One bit of the division.
pub open spec fn crc_bit(crc: u32) -> u32 {
    if crc >= 0x8000_0000u32 {
        (crc << 1u32) ^ POLYNOMIAL
    } else {
        crc << 1u32
    }
}

/// `n` bits of the division.
pub open spec fn crc_bits(crc: u32, n: nat) -> u32
    decreases n,
{
    if n == 0 {
        crc
    } else {
        crc_bits(crc_bit(crc), (n - 1) as nat)
    }
}

/// The checksum that goes on from `crc` with one byte.
pub open spec fn crc_byte(crc: u32, b: u8) -> u32 {
    crc_bits(crc ^ ((b as u32) << 24u32), 8)
}

/// The checksum of bytes: the remainder of their division by the generator,
/// highest bit first.
pub open spec fn crc_of(s: Seq<u8>) -> u32
    decreases s.len(),
{
    if s.len() == 0 {
        0
    } else {
        crc_byte(crc_of(s.drop_last()), s.last())
    }
}

/// The checksum that goes on from `crc` with one byte.
pub fn update(crc: u32, b: u8) -> (r: u32)
    ensures
        r == crc_byte(crc, b),
{
    let mut c: u32 = crc ^ ((b as u32) << 24u32);
    let ghost whole = crc_bits(c, 8);
    let mut k: u32 = 8;
    while k > 0
        invariant
            k <= 8,
            whole == crc_bits(c, k as nat),
        decreases k,
    {
        c = if c >= 0x8000_0000 {
            (c << 1u32) ^ POLYNOMIAL
        } else {
            c << 1u32
        };
        k = k - 1;
    }
    c
}

/// The checksum of bytes, where those at `hole` and the three behind it count as
/// zero.
pub fn crc_with_hole(data: &[u8], hole: usize) -> (r: u32)
    ensures
        r == crc_of(with_hole(data@, hole as int)),
{
    let mut c: u32 = 0;
    let mut i: usize = 0;
    let len: usize = data.len();
    let ghost s = with_hole(data@, hole as int);
    while i < len
        invariant
            i <= len,
            len == data@.len(),
            s == with_hole(data@, hole as int),
            c == crc_of(s.take(i as int)),
        decreases len - i,
    {
        let b: u8 = if i >= hole && i - hole < 4 {
            0
        } else {
            data[i]
        };
        assert(s.take(i + 1).drop_last() =~= s.take(i as int));
        assert(s.take(i + 1).last() == b);
        c = update(c, b);
        i = i + 1;
    }
    assert(s.take(len as int) =~= s);
    c
}

/// Bytes with zeros in place of the four from `hole` on.
pub open spec fn with_hole(s: Seq<u8>, hole: int) -> Seq<u8> {
    Seq::new(
        s.len(),
        |i: int|
            if hole <= i < hole + 4 {
                0u8
            } else {
                s[i]
            },
    )
}

} // verus!
