//! What the checksum of a page comes to.

use vstd::prelude::*;

use crate::ogg::crc;

verus! {

/// The checksum is the remainder of a division of polynomials: a step is linear in the bits, a
/// bit that is shifted out leaves the divisor, and one that is not is only shifted.
pub proof fn lemma_division(a: u32, b: u32)
    ensures
        crc::crc_bit(a ^ b) == crc::crc_bit(a) ^ crc::crc_bit(b),
        crc::crc_bit(0) == 0,
        crc::crc_bit(0x8000_0000) == 0x04C1_1DB7,
        a < 0x8000_0000 ==> crc::crc_bit(a) == 2 * a,
{
    let x = crc::crc_bit(a);
    let y = crc::crc_bit(b);
    let z = crc::crc_bit(a ^ b);
    assert(z == x ^ y) by (bit_vector)
        requires
            x == if a >= 0x8000_0000 {
                (a << 1u32) ^ 0x04C1_1DB7u32
            } else {
                a << 1u32
            },
            y == if b >= 0x8000_0000 {
                (b << 1u32) ^ 0x04C1_1DB7u32
            } else {
                b << 1u32
            },
            z == if (a ^ b) >= 0x8000_0000 {
                ((a ^ b) << 1u32) ^ 0x04C1_1DB7u32
            } else {
                (a ^ b) << 1u32
            },
    ;
    assert((0x8000_0000u32 << 1u32) ^ 0x04C1_1DB7u32 == 0x04C1_1DB7u32 && 0u32 << 1u32 == 0) by (bit_vector);
    assert(a < 0x8000_0000 ==> a << 1u32 == 2 * a) by (bit_vector);
}

} // verus!
