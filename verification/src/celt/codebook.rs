//! Every vector of pulses that a band's bits can buy has a number of 32 bits.

use vstd::arithmetic::power2::{lemma2_to64, lemma_pow2_unfold, pow2};
use vstd::prelude::*;

use crate::celt::cwrs::{self, lemma_u_grows, lemma_u_symmetric};
use crate::celt::modes;
use crate::celt::rate;
use crate::celt::tables::{CACHE_BITS, CACHE_INDEX};

verus! {

/// The length of a partition of band `i` at level `lm`.
pub open spec fn part_len(i: int, lm: int) -> int {
    if lm < 0 {
        modes::width(i) / 2
    } else {
        modes::width(i) * modes::frame_mult(lm)
    }
}

proof fn lemma_step(n: nat, k: nat)
    requires
        n >= 1,
        k >= 1,
    ensures
        cwrs::u(n, k) == cwrs::u((n - 1) as nat, k) + cwrs::u(n, (k - 1) as nat) + cwrs::u(
            (n - 1) as nat,
            (k - 1) as nat,
        ),
        cwrs::u(0, 0) == 1,
        cwrs::u(0, k) == 0,
        cwrs::u(n, 0) == 0,
{
    reveal(cwrs::u);
}

proof fn lemma_powers(k: int)
    ensures
        k * k == (k - 1) * (k - 1) + 2 * (k - 1) + 1,
        k * k * k == (k - 1) * (k - 1) * (k - 1) + 3 * ((k - 1) * (k - 1)) + 3 * (k - 1) + 1,
        k * k * k * k == (k - 1) * (k - 1) * (k - 1) * (k - 1) + 4 * ((k - 1) * (k - 1) * (k - 1)) + 6 * ((k - 1) * (k
            - 1)) + 4 * (k - 1) + 1,
        k * k * k * k * k == (k - 1) * (k - 1) * (k - 1) * (k - 1) * (k - 1) + 5 * ((k - 1) * (k - 1) * (k - 1) * (k
            - 1)) + 10 * ((k - 1) * (k - 1) * (k - 1)) + 10 * ((k - 1) * (k - 1)) + 5 * (k - 1) + 1,
{
    let j = k - 1;
    let j2 = j * j;
    let j3 = j2 * j;
    let j4 = j3 * j;
    let k2 = k * k;
    let k3 = k2 * k;
    let k4 = k3 * k;
    assert(k2 == j2 + 2 * j + 1) by (nonlinear_arith)
        requires
            k == j + 1,
            k2 == k * k,
            j2 == j * j,
    ;
    assert(k3 == j3 + 3 * j2 + 3 * j + 1) by (nonlinear_arith)
        requires
            k == j + 1,
            k3 == k2 * k,
            k2 == j2 + 2 * j + 1,
            j3 == j2 * j,
            j2 == j * j,
    ;
    assert(k4 == j4 + 4 * j3 + 6 * j2 + 4 * j + 1) by (nonlinear_arith)
        requires
            k == j + 1,
            k4 == k3 * k,
            k3 == j3 + 3 * j2 + 3 * j + 1,
            j4 == j3 * j,
            j3 == j2 * j,
            j2 == j * j,
    ;
    assert(k4 * k == j4 * j + 5 * j4 + 10 * j3 + 10 * j2 + 5 * j + 1) by (nonlinear_arith)
        requires
            k == j + 1,
            k4 == j4 + 4 * j3 + 6 * j2 + 4 * j + 1,
            j4 == j3 * j,
            j3 == j2 * j,
            j2 == j * j,
    ;
}

/// The first rows of the working function.
proof fn lemma_first_rows(k: int)
    requires
        k >= 1,
    ensures
        cwrs::u(1, k as nat) == 1,
        cwrs::u(2, k as nat) == 2 * k - 1,
        cwrs::u(3, k as nat) == 2 * (k * k) - 2 * k + 1,
        3 * cwrs::u(4, k as nat) == 4 * (k * k * k) - 6 * (k * k) + 8 * k - 3,
        3 * cwrs::u(5, k as nat) == 2 * (k * k * k * k) - 4 * (k * k * k) + 10 * (k * k) - 8 * k + 3,
        15 * cwrs::u(6, k as nat) == 4 * (k * k * k * k * k) - 10 * (k * k * k * k) + 40 * (k * k * k) - 50 * (k * k)
            + 46 * k - 15,
    decreases k,
{
    let n = k as nat;
    lemma_step(1, n);
    lemma_step(2, n);
    lemma_step(3, n);
    lemma_step(4, n);
    lemma_step(5, n);
    lemma_step(6, n);
    if k > 1 {
        lemma_first_rows(k - 1);
        lemma_powers(k);
        lemma_step(1, (n - 1) as nat);
    } else {
        assert(k * k == 1 && k * k * k == 1 && k * k * k * k == 1 && k * k * k * k * k == 1) by (nonlinear_arith)
            requires
                k == 1,
        ;
    }
}

proof fn lemma_row_7()
    ensures
        cwrs::u(7, 7) == 8989,
        cwrs::u(7, 8) == 19825,
        cwrs::u(7, 9) == 40081,
        cwrs::u(7, 10) == 75517,
        cwrs::u(7, 11) == 134245,
        cwrs::u(7, 12) == 227305,
        cwrs::u(7, 13) == 369305,
        cwrs::u(7, 14) == 579125,
        cwrs::u(7, 15) == 880685,
        cwrs::u(7, 16) == 1303777,
        cwrs::u(7, 17) == 1884961,
        cwrs::u(7, 18) == 2668525,
        cwrs::u(7, 19) == 3707509,
        cwrs::u(7, 20) == 5064793,
        cwrs::u(7, 21) == 6814249,
        cwrs::u(7, 22) == 9041957,
        cwrs::u(7, 23) == 11847485,
        cwrs::u(7, 24) == 15345233,
        cwrs::u(7, 25) == 19665841,
        cwrs::u(7, 26) == 24957661,
        cwrs::u(7, 27) == 31388293,
        cwrs::u(7, 28) == 39146185,
        cwrs::u(7, 29) == 48442297,
        cwrs::u(7, 30) == 59511829,
        cwrs::u(7, 31) == 72616013,
        cwrs::u(7, 32) == 88043969,
        cwrs::u(7, 33) == 106114625,
        cwrs::u(7, 34) == 127178701,
        cwrs::u(7, 35) == 151620757,
        cwrs::u(7, 36) == 179861305,
        cwrs::u(7, 37) == 212358985,
        cwrs::u(7, 38) == 249612805,
        cwrs::u(7, 39) == 292164445,
        cwrs::u(7, 40) == 340600625,
        cwrs::u(7, 41) == 395555537,
        cwrs::u(7, 42) == 457713341,
        cwrs::u(7, 43) == 527810725,
        cwrs::u(7, 44) == 606639529,
        cwrs::u(7, 45) == 695049433,
        cwrs::u(7, 46) == 793950709,
        cwrs::u(7, 47) == 904317037,
        cwrs::u(7, 48) == 1027188385,
{
    assert(cwrs::u(6, 6) == 1683) by {
        lemma_first_rows(6);
    }
    assert(cwrs::u(6, 7) == 3653) by {
        lemma_first_rows(7);
    }
    assert(cwrs::u(6, 8) == 7183) by {
        lemma_first_rows(8);
    }
    assert(cwrs::u(6, 9) == 13073) by {
        lemma_first_rows(9);
    }
    assert(cwrs::u(6, 10) == 22363) by {
        lemma_first_rows(10);
    }
    assert(cwrs::u(6, 11) == 36365) by {
        lemma_first_rows(11);
    }
    assert(cwrs::u(6, 12) == 56695) by {
        lemma_first_rows(12);
    }
    assert(cwrs::u(6, 13) == 85305) by {
        lemma_first_rows(13);
    }
    assert(cwrs::u(6, 14) == 124515) by {
        lemma_first_rows(14);
    }
    assert(cwrs::u(6, 15) == 177045) by {
        lemma_first_rows(15);
    }
    assert(cwrs::u(6, 16) == 246047) by {
        lemma_first_rows(16);
    }
    assert(cwrs::u(6, 17) == 335137) by {
        lemma_first_rows(17);
    }
    assert(cwrs::u(6, 18) == 448427) by {
        lemma_first_rows(18);
    }
    assert(cwrs::u(6, 19) == 590557) by {
        lemma_first_rows(19);
    }
    assert(cwrs::u(6, 20) == 766727) by {
        lemma_first_rows(20);
    }
    assert(cwrs::u(6, 21) == 982729) by {
        lemma_first_rows(21);
    }
    assert(cwrs::u(6, 22) == 1244979) by {
        lemma_first_rows(22);
    }
    assert(cwrs::u(6, 23) == 1560549) by {
        lemma_first_rows(23);
    }
    assert(cwrs::u(6, 24) == 1937199) by {
        lemma_first_rows(24);
    }
    assert(cwrs::u(6, 25) == 2383409) by {
        lemma_first_rows(25);
    }
    assert(cwrs::u(6, 26) == 2908411) by {
        lemma_first_rows(26);
    }
    assert(cwrs::u(6, 27) == 3522221) by {
        lemma_first_rows(27);
    }
    assert(cwrs::u(6, 28) == 4235671) by {
        lemma_first_rows(28);
    }
    assert(cwrs::u(6, 29) == 5060441) by {
        lemma_first_rows(29);
    }
    assert(cwrs::u(6, 30) == 6009091) by {
        lemma_first_rows(30);
    }
    assert(cwrs::u(6, 31) == 7095093) by {
        lemma_first_rows(31);
    }
    assert(cwrs::u(6, 32) == 8332863) by {
        lemma_first_rows(32);
    }
    assert(cwrs::u(6, 33) == 9737793) by {
        lemma_first_rows(33);
    }
    assert(cwrs::u(6, 34) == 11326283) by {
        lemma_first_rows(34);
    }
    assert(cwrs::u(6, 35) == 13115773) by {
        lemma_first_rows(35);
    }
    assert(cwrs::u(6, 36) == 15124775) by {
        lemma_first_rows(36);
    }
    assert(cwrs::u(6, 37) == 17372905) by {
        lemma_first_rows(37);
    }
    assert(cwrs::u(6, 38) == 19880915) by {
        lemma_first_rows(38);
    }
    assert(cwrs::u(6, 39) == 22670725) by {
        lemma_first_rows(39);
    }
    assert(cwrs::u(6, 40) == 25765455) by {
        lemma_first_rows(40);
    }
    assert(cwrs::u(6, 41) == 29189457) by {
        lemma_first_rows(41);
    }
    assert(cwrs::u(6, 42) == 32968347) by {
        lemma_first_rows(42);
    }
    assert(cwrs::u(6, 43) == 37129037) by {
        lemma_first_rows(43);
    }
    assert(cwrs::u(6, 44) == 41699767) by {
        lemma_first_rows(44);
    }
    assert(cwrs::u(6, 45) == 46710137) by {
        lemma_first_rows(45);
    }
    assert(cwrs::u(6, 46) == 52191139) by {
        lemma_first_rows(46);
    }
    assert(cwrs::u(6, 47) == 58175189) by {
        lemma_first_rows(47);
    }
    assert(cwrs::u(6, 48) == 64696159) by {
        lemma_first_rows(48);
    }
    lemma_u_symmetric(7, 6);
    lemma_step(7, 7);
    lemma_step(7, 8);
    lemma_step(7, 9);
    lemma_step(7, 10);
    lemma_step(7, 11);
    lemma_step(7, 12);
    lemma_step(7, 13);
    lemma_step(7, 14);
    lemma_step(7, 15);
    lemma_step(7, 16);
    lemma_step(7, 17);
    lemma_step(7, 18);
    lemma_step(7, 19);
    lemma_step(7, 20);
    lemma_step(7, 21);
    lemma_step(7, 22);
    lemma_step(7, 23);
    lemma_step(7, 24);
    lemma_step(7, 25);
    lemma_step(7, 26);
    lemma_step(7, 27);
    lemma_step(7, 28);
    lemma_step(7, 29);
    lemma_step(7, 30);
    lemma_step(7, 31);
    lemma_step(7, 32);
    lemma_step(7, 33);
    lemma_step(7, 34);
    lemma_step(7, 35);
    lemma_step(7, 36);
    lemma_step(7, 37);
    lemma_step(7, 38);
    lemma_step(7, 39);
    lemma_step(7, 40);
    lemma_step(7, 41);
    lemma_step(7, 42);
    lemma_step(7, 43);
    lemma_step(7, 44);
    lemma_step(7, 45);
    lemma_step(7, 46);
    lemma_step(7, 47);
    lemma_step(7, 48);
}

proof fn lemma_row_8()
    ensures
        cwrs::u(8, 8) == 48639,
        cwrs::u(8, 9) == 108545,
        cwrs::u(8, 10) == 224143,
        cwrs::u(8, 11) == 433905,
        cwrs::u(8, 12) == 795455,
        cwrs::u(8, 13) == 1392065,
        cwrs::u(8, 14) == 2340495,
        cwrs::u(8, 15) == 3800305,
        cwrs::u(8, 16) == 5984767,
        cwrs::u(8, 17) == 9173505,
        cwrs::u(8, 18) == 13726991,
        cwrs::u(8, 19) == 20103025,
        cwrs::u(8, 20) == 28875327,
        cwrs::u(8, 21) == 40754369,
        cwrs::u(8, 22) == 56610575,
        cwrs::u(8, 23) == 77500017,
        cwrs::u(8, 24) == 104692735,
        cwrs::u(8, 25) == 139703809,
        cwrs::u(8, 26) == 184327311,
        cwrs::u(8, 27) == 240673265,
        cwrs::u(8, 28) == 311207743,
        cwrs::u(8, 29) == 398796225,
        cwrs::u(8, 30) == 506750351,
        cwrs::u(8, 31) == 638878193,
        cwrs::u(8, 32) == 799538175,
        cwrs::u(8, 33) == 993696769,
        cwrs::u(8, 34) == 1226990095,
        cwrs::u(8, 35) == 1505789553,
        cwrs::u(8, 36) == 1837271615,
        cwrs::u(8, 37) == 2229491905,
{
    lemma_row_7();
    lemma_u_symmetric(8, 7);
    lemma_step(8, 8);
    lemma_step(8, 9);
    lemma_step(8, 10);
    lemma_step(8, 11);
    lemma_step(8, 12);
    lemma_step(8, 13);
    lemma_step(8, 14);
    lemma_step(8, 15);
    lemma_step(8, 16);
    lemma_step(8, 17);
    lemma_step(8, 18);
    lemma_step(8, 19);
    lemma_step(8, 20);
    lemma_step(8, 21);
    lemma_step(8, 22);
    lemma_step(8, 23);
    lemma_step(8, 24);
    lemma_step(8, 25);
    lemma_step(8, 26);
    lemma_step(8, 27);
    lemma_step(8, 28);
    lemma_step(8, 29);
    lemma_step(8, 30);
    lemma_step(8, 31);
    lemma_step(8, 32);
    lemma_step(8, 33);
    lemma_step(8, 34);
    lemma_step(8, 35);
    lemma_step(8, 36);
    lemma_step(8, 37);
}

proof fn lemma_row_9()
    ensures
        cwrs::u(9, 9) == 265729,
        cwrs::u(9, 10) == 598417,
        cwrs::u(9, 11) == 1256465,
        cwrs::u(9, 12) == 2485825,
        cwrs::u(9, 13) == 4673345,
        cwrs::u(9, 14) == 8405905,
        cwrs::u(9, 15) == 14546705,
        cwrs::u(9, 16) == 24331777,
        cwrs::u(9, 17) == 39490049,
        cwrs::u(9, 18) == 62390545,
        cwrs::u(9, 19) == 96220561,
        cwrs::u(9, 20) == 145198913,
        cwrs::u(9, 21) == 214828609,
        cwrs::u(9, 22) == 312193553,
        cwrs::u(9, 23) == 446304145,
        cwrs::u(9, 24) == 628496897,
        cwrs::u(9, 25) == 872893441,
        cwrs::u(9, 26) == 1196924561,
        cwrs::u(9, 27) == 1621925137,
{
    lemma_row_8();
    lemma_u_symmetric(9, 8);
    lemma_step(9, 9);
    lemma_step(9, 10);
    lemma_step(9, 11);
    lemma_step(9, 12);
    lemma_step(9, 13);
    lemma_step(9, 14);
    lemma_step(9, 15);
    lemma_step(9, 16);
    lemma_step(9, 17);
    lemma_step(9, 18);
    lemma_step(9, 19);
    lemma_step(9, 20);
    lemma_step(9, 21);
    lemma_step(9, 22);
    lemma_step(9, 23);
    lemma_step(9, 24);
    lemma_step(9, 25);
    lemma_step(9, 26);
    lemma_step(9, 27);
}

proof fn lemma_row_10()
    ensures
        cwrs::u(10, 10) == 1462563,
        cwrs::u(10, 11) == 3317445,
        cwrs::u(10, 12) == 7059735,
        cwrs::u(10, 13) == 14218905,
        cwrs::u(10, 14) == 27298155,
        cwrs::u(10, 15) == 50250765,
        cwrs::u(10, 16) == 89129247,
        cwrs::u(10, 17) == 152951073,
        cwrs::u(10, 18) == 254831667,
        cwrs::u(10, 19) == 413442773,
        cwrs::u(10, 20) == 654862247,
        cwrs::u(10, 21) == 1014889769,
        cwrs::u(10, 22) == 1541911931,
        cwrs::u(10, 23) == 2300409629,
        cwrs::u(10, 24) == 3375210671,
{
    lemma_row_9();
    lemma_u_symmetric(10, 9);
    lemma_step(10, 10);
    lemma_step(10, 11);
    lemma_step(10, 12);
    lemma_step(10, 13);
    lemma_step(10, 14);
    lemma_step(10, 15);
    lemma_step(10, 16);
    lemma_step(10, 17);
    lemma_step(10, 18);
    lemma_step(10, 19);
    lemma_step(10, 20);
    lemma_step(10, 21);
    lemma_step(10, 22);
    lemma_step(10, 23);
    lemma_step(10, 24);
}

proof fn lemma_row_11()
    ensures
        cwrs::u(11, 11) == 8097453,
        cwrs::u(11, 12) == 18474633,
        cwrs::u(11, 13) == 39753273,
        cwrs::u(11, 14) == 81270333,
        cwrs::u(11, 15) == 158819253,
        cwrs::u(11, 16) == 298199265,
        cwrs::u(11, 17) == 540279585,
        cwrs::u(11, 18) == 948062325,
        cwrs::u(11, 19) == 1616336765,
{
    lemma_row_10();
    lemma_u_symmetric(11, 10);
    lemma_step(11, 11);
    lemma_step(11, 12);
    lemma_step(11, 13);
    lemma_step(11, 14);
    lemma_step(11, 15);
    lemma_step(11, 16);
    lemma_step(11, 17);
    lemma_step(11, 18);
    lemma_step(11, 19);
}

proof fn lemma_row_12()
    ensures
        cwrs::u(12, 12) == 45046719,
        cwrs::u(12, 13) == 103274625,
        cwrs::u(12, 14) == 224298231,
        cwrs::u(12, 15) == 464387817,
        cwrs::u(12, 16) == 921406335,
        cwrs::u(12, 17) == 1759885185,
        cwrs::u(12, 18) == 3248227095,
{
    lemma_row_11();
    lemma_u_symmetric(12, 11);
    lemma_step(12, 12);
    lemma_step(12, 13);
    lemma_step(12, 14);
    lemma_step(12, 15);
    lemma_step(12, 16);
    lemma_step(12, 17);
    lemma_step(12, 18);
}

proof fn lemma_row_13()
    ensures
        cwrs::u(13, 13) == 251595969,
        cwrs::u(13, 14) == 579168825,
        cwrs::u(13, 15) == 1267854873,
        cwrs::u(13, 16) == 2653649025,
{
    lemma_row_12();
    lemma_u_symmetric(13, 12);
    lemma_step(13, 13);
    lemma_step(13, 14);
    lemma_step(13, 15);
    lemma_step(13, 16);
}

/// The length of the partitions whose row of the pulse cache starts at `s`.
spec fn row_len(s: int) -> int {
    if s == 0 {
        1
    } else if s == 41 {
        2
    } else if s == 82 {
        3
    } else if s == 123 {
        4
    } else if s == 164 {
        6
    } else if s == 200 {
        9
    } else if s == 222 {
        11
    } else if s == 240 {
        8
    } else if s == 266 {
        12
    } else if s == 283 {
        18
    } else if s == 295 {
        22
    } else if s == 305 {
        16
    } else if s == 318 {
        24
    } else if s == 328 {
        36
    } else if s == 336 {
        44
    } else if s == 343 {
        32
    } else if s == 351 {
        48
    } else if s == 358 {
        72
    } else if s == 364 {
        88
    } else if s == 370 {
        64
    } else if s == 376 {
        96
    } else if s == 382 {
        144
    } else {
        176
    }
}

/// The highest level of that row.
spec fn row_levels(s: int) -> int {
    if s == 0 {
        40
    } else if s == 41 {
        40
    } else if s == 82 {
        40
    } else if s == 123 {
        40
    } else if s == 164 {
        35
    } else if s == 200 {
        21
    } else if s == 222 {
        17
    } else if s == 240 {
        25
    } else if s == 266 {
        16
    } else if s == 283 {
        11
    } else if s == 295 {
        9
    } else if s == 305 {
        12
    } else if s == 318 {
        9
    } else if s == 328 {
        7
    } else if s == 336 {
        6
    } else if s == 343 {
        7
    } else if s == 351 {
        6
    } else if s == 358 {
        5
    } else if s == 364 {
        5
    } else if s == 370 {
        5
    } else if s == 376 {
        5
    } else if s == 382 {
        4
    } else {
        4
    }
}

/// The pulses of that level.
spec fn row_pulses(s: int) -> int {
    if s == 0 {
        128
    } else if s == 41 {
        128
    } else if s == 82 {
        128
    } else if s == 123 {
        128
    } else if s == 164 {
        88
    } else if s == 200 {
        26
    } else if s == 222 {
        18
    } else if s == 240 {
        36
    } else if s == 266 {
        16
    } else if s == 283 {
        11
    } else if s == 295 {
        9
    } else if s == 305 {
        12
    } else if s == 318 {
        9
    } else if s == 328 {
        7
    } else if s == 336 {
        6
    } else if s == 343 {
        7
    } else if s == 351 {
        6
    } else if s == 358 {
        5
    } else if s == 364 {
        5
    } else if s == 370 {
        5
    } else if s == 376 {
        5
    } else if s == 382 {
        4
    } else {
        4
    }
}

spec fn is_row(s: int) -> bool {
    s == 0 || s == 41 || s == 82 || s == 123 || s == 164 || s == 200 || s == 222 || s == 240 || s == 266 || s == 283 || s == 295 || s == 305 || s == 318 || s == 328 || s == 336 || s == 343 || s == 351 || s == 358 || s == 364 || s == 370 || s == 376 || s == 382 || s == 387
}

proof fn lemma_row_levels(s: int)
    requires
        is_row(s),
    ensures
        CACHE_BITS[s] == row_levels(s),
{
    reveal(CACHE_BITS);
}

proof fn lemma_rows_half(band: int)
    requires
        0 <= band < 21,
        part_len(band, -1) >= 1,
    ensures
        CACHE_INDEX[0 + band] >= 0 ==> is_row(CACHE_INDEX[0 + band] as int) && part_len(band, -1) == row_len(
            CACHE_INDEX[0 + band] as int,
        ),
{
    reveal(CACHE_INDEX);
    reveal(modes::EBANDS);
    assert(band == 0 || band == 1 || band == 2 || band == 3 || band == 4 || band == 5 || band == 6 || band == 7 || band == 8 || band == 9 || band == 10 || band == 11 || band == 12 || band == 13 || band == 14 || band == 15 || band == 16 || band == 17 || band == 18 || band == 19 || band == 20);
}

proof fn lemma_rows_0(band: int)
    requires
        0 <= band < 21,
        part_len(band, 0) >= 1,
    ensures
        CACHE_INDEX[21 + band] >= 0 ==> is_row(CACHE_INDEX[21 + band] as int) && part_len(band, 0) == row_len(
            CACHE_INDEX[21 + band] as int,
        ),
{
    reveal(CACHE_INDEX);
    reveal(modes::EBANDS);
    assert(band == 0 || band == 1 || band == 2 || band == 3 || band == 4 || band == 5 || band == 6 || band == 7 || band == 8 || band == 9 || band == 10 || band == 11 || band == 12 || band == 13 || band == 14 || band == 15 || band == 16 || band == 17 || band == 18 || band == 19 || band == 20);
}

proof fn lemma_rows_1(band: int)
    requires
        0 <= band < 21,
        part_len(band, 1) >= 1,
    ensures
        CACHE_INDEX[42 + band] >= 0 ==> is_row(CACHE_INDEX[42 + band] as int) && part_len(band, 1) == row_len(
            CACHE_INDEX[42 + band] as int,
        ),
{
    reveal(CACHE_INDEX);
    reveal(modes::EBANDS);
    assert(band == 0 || band == 1 || band == 2 || band == 3 || band == 4 || band == 5 || band == 6 || band == 7 || band == 8 || band == 9 || band == 10 || band == 11 || band == 12 || band == 13 || band == 14 || band == 15 || band == 16 || band == 17 || band == 18 || band == 19 || band == 20);
}

proof fn lemma_rows_2(band: int)
    requires
        0 <= band < 21,
        part_len(band, 2) >= 1,
    ensures
        CACHE_INDEX[63 + band] >= 0 ==> is_row(CACHE_INDEX[63 + band] as int) && part_len(band, 2) == row_len(
            CACHE_INDEX[63 + band] as int,
        ),
{
    reveal(CACHE_INDEX);
    reveal(modes::EBANDS);
    assert(band == 0 || band == 1 || band == 2 || band == 3 || band == 4 || band == 5 || band == 6 || band == 7 || band == 8 || band == 9 || band == 10 || band == 11 || band == 12 || band == 13 || band == 14 || band == 15 || band == 16 || band == 17 || band == 18 || band == 19 || band == 20);
}

proof fn lemma_rows_3(band: int)
    requires
        0 <= band < 21,
        part_len(band, 3) >= 1,
    ensures
        CACHE_INDEX[84 + band] >= 0 ==> is_row(CACHE_INDEX[84 + band] as int) && part_len(band, 3) == row_len(
            CACHE_INDEX[84 + band] as int,
        ),
{
    reveal(CACHE_INDEX);
    reveal(modes::EBANDS);
    assert(band == 0 || band == 1 || band == 2 || band == 3 || band == 4 || band == 5 || band == 6 || band == 7 || band == 8 || band == 9 || band == 10 || band == 11 || band == 12 || band == 13 || band == 14 || band == 15 || band == 16 || band == 17 || band == 18 || band == 19 || band == 20);
}

/// A partition is as long as its row of the pulse cache is for.
proof fn lemma_row_of(band: int, lm: int)
    requires
        rate::has_cache(band, lm),
        part_len(band, lm) >= 1,
    ensures
        is_row(rate::row_start(band, lm)),
        part_len(band, lm) == row_len(rate::row_start(band, lm)),
        rate::levels(band, lm) == row_levels(rate::row_start(band, lm)),
{
    if lm == -1 {
        lemma_rows_half(band);
    } else if lm == 0 {
        lemma_rows_0(band);
    } else if lm == 1 {
        lemma_rows_1(band);
    } else if lm == 2 {
        lemma_rows_2(band);
    } else {
        lemma_rows_3(band);
    }
    lemma_row_levels(rate::row_start(band, lm));
}

/// The most pulses of each row can be numbered.
proof fn lemma_row_codable(s: int)
    requires
        is_row(s),
        row_len(s) >= 2,
    ensures
        cwrs::codable(row_len(s), row_pulses(s)),
{
    if s == 41 {
        lemma_first_rows(128);
        lemma_first_rows(129);
    } else if s == 82 {
        lemma_first_rows(128);
        lemma_first_rows(129);
    } else if s == 123 {
        lemma_first_rows(128);
        lemma_first_rows(129);
    } else if s == 164 {
        lemma_first_rows(88);
        lemma_first_rows(89);
    } else if s == 200 {
        lemma_row_9();
    } else if s == 222 {
        lemma_row_11();
    } else if s == 240 {
        lemma_row_8();
    } else if s == 266 {
        lemma_row_12();
    } else if s == 283 {
        lemma_row_11();
        lemma_row_12();
        lemma_u_symmetric(18, 11);
        lemma_u_symmetric(18, 12);
    } else if s == 295 {
        lemma_row_9();
        lemma_row_10();
        lemma_u_symmetric(22, 9);
        lemma_u_symmetric(22, 10);
    } else if s == 305 {
        lemma_row_12();
        lemma_row_13();
        lemma_u_symmetric(16, 12);
        lemma_u_symmetric(16, 13);
    } else if s == 318 {
        lemma_row_9();
        lemma_row_10();
        lemma_u_symmetric(24, 9);
        lemma_u_symmetric(24, 10);
    } else if s == 328 {
        lemma_row_7();
        lemma_row_8();
        lemma_u_symmetric(36, 7);
        lemma_u_symmetric(36, 8);
    } else if s == 336 {
        lemma_first_rows(44);
        lemma_row_7();
        lemma_u_symmetric(44, 6);
        lemma_u_symmetric(44, 7);
    } else if s == 343 {
        lemma_row_7();
        lemma_row_8();
        lemma_u_symmetric(32, 7);
        lemma_u_symmetric(32, 8);
    } else if s == 351 {
        lemma_first_rows(48);
        lemma_row_7();
        lemma_u_symmetric(48, 6);
        lemma_u_symmetric(48, 7);
    } else if s == 358 {
        lemma_first_rows(72);
        lemma_u_symmetric(72, 5);
        lemma_u_symmetric(72, 6);
    } else if s == 364 {
        lemma_first_rows(88);
        lemma_u_symmetric(88, 5);
        lemma_u_symmetric(88, 6);
    } else if s == 370 {
        lemma_first_rows(64);
        lemma_u_symmetric(64, 5);
        lemma_u_symmetric(64, 6);
    } else if s == 376 {
        lemma_first_rows(96);
        lemma_u_symmetric(96, 5);
        lemma_u_symmetric(96, 6);
    } else if s == 382 {
        lemma_first_rows(144);
        lemma_u_symmetric(144, 4);
        lemma_u_symmetric(144, 5);
    } else if s == 387 {
        lemma_first_rows(176);
        lemma_u_symmetric(176, 4);
        lemma_u_symmetric(176, 5);
    }
}

proof fn lemma_level_step(q: int)
    requires
        1 <= q,
    ensures
        rate::level_pulses(q) <= rate::level_pulses(q + 1),
{
    lemma2_to64();
    if q >= 8 {
        let e = (q / 8 - 1) as nat;
        let p = pow2(e) as int;
        let a = 8 + q % 8;
        assert(rate::level_pulses(q) == a * p);
        if q % 8 == 7 {
            lemma_pow2_unfold((e + 1) as nat);
            assert((q + 1) / 8 - 1 == e + 1 && (q + 1) % 8 == 0);
            assert(rate::level_pulses(q + 1) == 8 * pow2((e + 1) as nat));
            assert(a * p <= 8 * (2 * p)) by (nonlinear_arith)
                requires
                    a == 15,
                    p >= 0,
            ;
        } else {
            assert((q + 1) / 8 == q / 8 && (q + 1) % 8 == q % 8 + 1);
            assert(rate::level_pulses(q + 1) == (a + 1) * p);
            assert(a * p <= (a + 1) * p) by (nonlinear_arith)
                requires
                    p >= 0,
            ;
        }
    } else if q == 7 {
        assert(rate::level_pulses(8) == 8 * pow2(0));
    }
}

proof fn lemma_levels_grow(q: int, r: int)
    requires
        1 <= q <= r,
    ensures
        1 <= rate::level_pulses(q) <= rate::level_pulses(r),
    decreases r,
{
    if q < r {
        lemma_levels_grow(q, r - 1);
        lemma_level_step(r - 1);
    } else if q > 1 {
        lemma_levels_grow(1, q - 1);
        lemma_level_step(q - 1);
    }
}

proof fn lemma_row_pulses(s: int)
    requires
        is_row(s),
    ensures
        rate::level_pulses(row_levels(s)) == row_pulses(s),
{
    lemma2_to64();
    assert(rate::level_pulses(9) == 9 * pow2(0));
    assert(rate::level_pulses(11) == 11 * pow2(0));
    assert(rate::level_pulses(12) == 12 * pow2(0));
    assert(rate::level_pulses(16) == 8 * pow2(1));
    assert(rate::level_pulses(17) == 9 * pow2(1));
    assert(rate::level_pulses(21) == 13 * pow2(1));
    assert(rate::level_pulses(25) == 9 * pow2(2));
    assert(rate::level_pulses(35) == 11 * pow2(3));
    assert(rate::level_pulses(40) == 8 * pow2(4));
}

/// Whatever level of pulses a partition gets, all vectors of so many pulses can be
/// numbered, and their count takes no more than 32 bits.
pub proof fn lemma_levels_codable(band: int, lm: int, q: int)
    requires
        rate::has_cache(band, lm),
        part_len(band, lm) >= 2,
        1 <= q <= rate::levels(band, lm),
    ensures
        cwrs::codable(part_len(band, lm), rate::level_pulses(q)),
{
    lemma_row_of(band, lm);
    let s = rate::row_start(band, lm);
    lemma_row_codable(s);
    lemma_row_pulses(s);
    lemma_levels_grow(q, row_levels(s));
    let n = row_len(s) as nat;
    let k = rate::level_pulses(q) as nat;
    lemma_u_grows(n, k, row_pulses(s) as nat);
    lemma_u_grows(n, k + 1, (row_pulses(s) + 1) as nat);
}

} // verus!
