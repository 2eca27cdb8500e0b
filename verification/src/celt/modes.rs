//! Band layout of the CELT mode: 48 kHz, frames of 120, 240, 480 or 960
//! samples.

use vstd::prelude::*;

verus! {

/// The number of energy bands.
pub const NB_EBANDS: usize = 21;

/// Band boundaries in bins of the shortest frame. Band `i` of a frame of
/// `120 << lm` samples spans the bins `EBANDS[i] << lm` up to
/// `EBANDS[i + 1] << lm`.
#[verifier::opaque]
pub const EBANDS: [i16; 22] = [
    0, 1, 2, 3, 4, 5, 6, 7, 8, 10, 12, 14, 16, 20, 24, 28, 34, 40, 48, 60, 78, 100,
];

/// The base-two logarithm of each band's width, in 1/8 bits.
#[verifier::opaque]
pub const LOG_N: [i16; 21] = [0, 0, 0, 0, 0, 0, 0, 0, 8, 8, 8, 8, 16, 16, 16, 21, 21, 24, 29, 34, 36];

/// The largest number of fine energy bits per band.
pub const MAX_FINE_BITS: i32 = 8;

/// The probability model of coarse energy deltas, by frame size and intra flag:
/// per band the probability of zero and the decay, both in 1/256.
#[verifier::opaque]
pub const E_PROB_MODEL: [[[u8; 42]; 2]; 4] = [
    [
        [
            72, 127, 65, 129, 66, 128, 65, 128, 64, 128, 62, 128, 64, 128, 64, 128, 92, 78, 92, 79, 92, 78, 90, 79,
            116, 41, 115, 40, 114, 40, 132, 26, 132, 26, 145, 17, 161, 12, 176, 10, 177, 11,
        ],
        [
            24, 179, 48, 138, 54, 135, 54, 132, 53, 134, 56, 133, 55, 132, 55, 132, 61, 114, 70, 96, 74, 88, 75, 88,
            87, 74, 89, 66, 91, 67, 100, 59, 108, 50, 120, 40, 122, 37, 97, 43, 78, 50,
        ],
    ],
    [
        [
            83, 78, 84, 81, 88, 75, 86, 74, 87, 71, 90, 73, 93, 74, 93, 74, 109, 40, 114, 36, 117, 34, 117, 34, 143,
            17, 145, 18, 146, 19, 162, 12, 165, 10, 178, 7, 189, 6, 190, 8, 177, 9,
        ],
        [
            23, 178, 54, 115, 63, 102, 66, 98, 69, 99, 74, 89, 71, 91, 73, 91, 78, 89, 86, 80, 92, 66, 93, 64, 102, 59,
            103, 60, 104, 60, 117, 52, 123, 44, 138, 35, 133, 31, 97, 38, 77, 45,
        ],
    ],
    [
        [
            61, 90, 93, 60, 105, 42, 107, 41, 110, 45, 116, 38, 113, 38, 112, 38, 124, 26, 132, 27, 136, 19, 140, 20,
            155, 14, 159, 16, 158, 18, 170, 13, 177, 10, 187, 8, 192, 6, 175, 9, 159, 10,
        ],
        [
            21, 178, 59, 110, 71, 86, 75, 85, 84, 83, 91, 66, 88, 73, 87, 72, 92, 75, 98, 72, 105, 58, 107, 54, 115,
            52, 114, 55, 112, 56, 129, 51, 132, 40, 150, 33, 140, 29, 98, 35, 77, 42,
        ],
    ],
    [
        [
            42, 121, 96, 66, 108, 43, 111, 40, 117, 44, 123, 32, 120, 36, 119, 33, 127, 33, 134, 34, 139, 21, 147, 23,
            152, 20, 158, 25, 154, 26, 166, 21, 173, 16, 184, 13, 184, 10, 150, 13, 139, 15,
        ],
        [
            22, 178, 63, 114, 74, 82, 84, 83, 92, 82, 103, 62, 96, 72, 96, 67, 101, 73, 107, 72, 113, 55, 118, 52, 125,
            52, 118, 52, 117, 55, 135, 49, 137, 39, 157, 32, 145, 29, 97, 33, 77, 40,
        ],
    ],
];

/// The first bin of band `j`.
pub open spec fn edge(j: int) -> int {
    EBANDS[j] as int
}

/// The number of bins of band `j` in the shortest frame.
pub open spec fn width(j: int) -> int {
    edge(j + 1) - edge(j)
}

/// How many times the shortest frame a frame is.
pub open spec fn frame_mult(lm: int) -> int {
    if lm <= 0 {
        1
    } else if lm == 1 {
        2
    } else if lm == 2 {
        4
    } else {
        8
    }
}

/// Every band holds between 1 and 22 bins of the shortest frame.
pub proof fn lemma_width(j: int)
    requires
        0 <= j < 21,
    ensures
        1 <= width(j) <= 22,
        width(j) == 1 || width(j) % 2 == 0,
        0 <= edge(j) <= 100,
        0 <= edge(j + 1) <= 100,
        0 <= LOG_N[j] <= 36,
        edge(0) == 0,
        edge(21) == 100,
{
    reveal(EBANDS);
    reveal(LOG_N);
    assert(j == 0 || j == 1 || j == 2 || j == 3 || j == 4 || j == 5 || j == 6 || j == 7 || j == 8 || j == 9 || j == 10
        || j == 11 || j == 12 || j == 13 || j == 14 || j == 15 || j == 16 || j == 17 || j == 18 || j == 19 || j == 20);
}

/// Band boundaries increase.
pub proof fn lemma_edges(a: int, b: int)
    requires
        0 <= a <= b <= 21,
    ensures
        0 <= edge(a) <= edge(b) <= 100,
        edge(b) - edge(a) >= b - a,
    decreases b - a,
{
    if a < b {
        lemma_width(a);
        lemma_edges(a + 1, b);
    } else if a < 21 {
        lemma_width(a);
    } else {
        lemma_width(20);
    }
}

/// The first bin of band `j`.
pub fn band_edge(j: usize) -> (r: i32)
    requires
        j <= 21,
    ensures
        r == edge(j as int),
        0 <= r <= 100,
{
    proof {
        lemma_edges(j as int, j as int);
    }
    EBANDS[j] as i32
}

/// The number of bins of band `j` in the shortest frame.
pub fn band_width(j: usize) -> (r: i32)
    requires
        j < 21,
    ensures
        r == width(j as int),
        1 <= r <= 22,
{
    proof {
        lemma_width(j as int);
    }
    EBANDS[j + 1] as i32 - EBANDS[j] as i32
}

/// How many times the shortest frame a frame is.
pub fn frame_multiple(lm: usize) -> (r: i32)
    requires
        lm <= 3,
    ensures
        r == frame_mult(lm as int),
        1 <= r <= 8,
{
    if lm == 0 {
        1
    } else if lm == 1 {
        2
    } else if lm == 2 {
        4
    } else {
        8
    }
}

} // verus!
