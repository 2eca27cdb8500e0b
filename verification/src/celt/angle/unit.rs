//! The weights of the two halves of a split: their squares add up to one.

use vstd::prelude::*;

use crate::celt::angle;

verus! {

/// Whether the squares of the cosines of `64 * k` and of the angle that is left of a
/// quarter-turn add up to one within a hundredth.
pub open spec fn unit_at(k: int) -> bool {
    let m = angle::cos_spec(64 * k);
    let s = angle::cos_spec(16384 - 64 * k);
    -10737418 <= m * m + s * s - 0x4000_0000 <= 10737418
}

/// The steps from an angle `x` to its cosine `m`: its square, and what the polynomial
/// multiplies that by.
proof fn lemma_steps(x: int, s: int, t: int, u: int, m: int)
    requires
        8192 * s <= 4096 + x * x < 8192 * s + 8192,
        0 <= s <= 32767,
        0 <= t <= 8277,
        0 <= u <= 7651,
        32768 * (t - 8277) <= 16384 - 626 * s < 32768 * (t - 8276),
        32768 * (7651 - u) <= 16384 + s * t < 32768 * (7652 - u),
        32768 * (m + s - 32768) <= 16384 - s * u < 32768 * (m + s - 32767),
    ensures
        angle::cos_spec(x) == m,
{
    assert((4096 + x * x) / 8192 == s);
    assert(angle::wrap16(s) == s);
    assert(angle::wrap16(-626) * angle::wrap16(s) == -626 * s);
    assert(angle::frac_mul(-626, s) == t - 8277);
    assert(angle::wrap16(t) == t);
    assert(angle::frac_mul(s, t) == 7651 - u);
    assert(angle::wrap16(-u) == -u);
    assert(s * (-u) == -(s * u)) by (nonlinear_arith);
    assert(angle::frac_mul(s, -u) == m + s - 32768);
    assert(-7651 + (7651 - u) == -u);
    assert(8277 + (t - 8277) == t);
}

/// An angle, the steps to its cosine `m`, the angle that is left of a quarter-turn, and
/// the steps to its cosine `n`.
proof fn lemma_row(
    x: int,
    s: int,
    t: int,
    u: int,
    m: int,
    y: int,
    a: int,
    b: int,
    c: int,
    n: int,
)
    requires
        x % 64 == 0,
        x + y == 16384,
        8192 * s <= 4096 + x * x < 8192 * s + 8192,
        0 <= s <= 32767,
        0 <= t <= 8277,
        0 <= u <= 7651,
        32768 * (t - 8277) <= 16384 - 626 * s < 32768 * (t - 8276),
        32768 * (7651 - u) <= 16384 + s * t < 32768 * (7652 - u),
        32768 * (m + s - 32768) <= 16384 - s * u < 32768 * (m + s - 32767),
        8192 * a <= 4096 + y * y < 8192 * a + 8192,
        0 <= a <= 32767,
        0 <= b <= 8277,
        0 <= c <= 7651,
        32768 * (b - 8277) <= 16384 - 626 * a < 32768 * (b - 8276),
        32768 * (7651 - c) <= 16384 + a * b < 32768 * (7652 - c),
        32768 * (n + a - 32768) <= 16384 - a * c < 32768 * (n + a - 32767),
        -10737418 <= m * m + n * n - 0x4000_0000 <= 10737418,
    ensures
        unit_at(x / 64),
{
    lemma_steps(x, s, t, u, m);
    lemma_steps(y, a, b, c, n);
    assert(64 * (x / 64) == x);
    assert(16384 - 64 * (x / 64) == y);
}

proof fn lemma_rows_from_1(k: int)
    requires
        1 <= k <= 16,
    ensures
        unit_at(k),
{
    if k == 1 {
        lemma_row(64, 1, 8277, 7651, 32767, 16320, 32513, 7656, 55, 200);
    } else if k == 2 {
        lemma_row(128, 2, 8277, 7650, 32766, 16256, 32258, 7661, 109, 403);
    } else if k == 3 {
        lemma_row(192, 5, 8277, 7650, 32762, 16192, 32005, 7666, 164, 603);
    } else if k == 4 {
        lemma_row(256, 8, 8277, 7649, 32758, 16128, 31752, 7670, 219, 804);
    } else if k == 5 {
        lemma_row(320, 13, 8277, 7648, 32752, 16064, 31501, 7675, 273, 1005);
    } else if k == 6 {
        lemma_row(384, 18, 8277, 7646, 32746, 16000, 31250, 7680, 327, 1206);
    } else if k == 7 {
        lemma_row(448, 25, 8277, 7645, 32737, 15936, 31001, 7685, 380, 1407);
    } else if k == 8 {
        lemma_row(512, 32, 8276, 7643, 32729, 15872, 30752, 7690, 434, 1609);
    } else if k == 9 {
        lemma_row(576, 41, 8276, 7641, 32717, 15808, 30505, 7694, 488, 1809);
    } else if k == 10 {
        lemma_row(640, 50, 8276, 7638, 32706, 15744, 30258, 7699, 542, 2010);
    } else if k == 11 {
        lemma_row(704, 61, 8276, 7636, 32693, 15680, 30013, 7704, 595, 2210);
    } else if k == 12 {
        lemma_row(768, 72, 8276, 7633, 32679, 15616, 29768, 7708, 649, 2410);
    } else if k == 13 {
        lemma_row(832, 85, 8275, 7630, 32663, 15552, 29525, 7713, 701, 2611);
    } else if k == 14 {
        lemma_row(896, 98, 8275, 7626, 32647, 15488, 29282, 7718, 754, 2812);
    } else if k == 15 {
        lemma_row(960, 113, 8275, 7622, 32629, 15424, 29041, 7722, 807, 3012);
    } else {
        lemma_row(1024, 128, 8275, 7619, 32610, 15360, 28800, 7727, 860, 3212);
    }
}

proof fn lemma_rows_from_17(k: int)
    requires
        17 <= k <= 32,
    ensures
        unit_at(k),
{
    if k == 17 {
        lemma_row(1088, 145, 8274, 7614, 32589, 15296, 28561, 7731, 913, 3411);
    } else if k == 18 {
        lemma_row(1152, 162, 8274, 7610, 32568, 15232, 28322, 7736, 965, 3612);
    } else if k == 19 {
        lemma_row(1216, 181, 8274, 7605, 32545, 15168, 28085, 7740, 1017, 3811);
    } else if k == 20 {
        lemma_row(1280, 200, 8273, 7601, 32522, 15104, 27848, 7745, 1069, 4012);
    } else if k == 21 {
        lemma_row(1344, 221, 8273, 7595, 32496, 15040, 27613, 7749, 1121, 4210);
    } else if k == 22 {
        lemma_row(1408, 242, 8272, 7590, 32470, 14976, 27378, 7754, 1172, 4411);
    } else if k == 23 {
        lemma_row(1472, 265, 8272, 7584, 32442, 14912, 27145, 7758, 1224, 4609);
    } else if k == 24 {
        lemma_row(1536, 288, 8271, 7578, 32413, 14848, 26912, 7763, 1275, 4809);
    } else if k == 25 {
        lemma_row(1600, 313, 8271, 7572, 32383, 14784, 26681, 7767, 1327, 5007);
    } else if k == 26 {
        lemma_row(1664, 338, 8271, 7566, 32352, 14720, 26450, 7772, 1378, 5206);
    } else if k == 27 {
        lemma_row(1728, 365, 8270, 7559, 32319, 14656, 26221, 7776, 1429, 5404);
    } else if k == 28 {
        lemma_row(1792, 392, 8270, 7552, 32286, 14592, 25992, 7780, 1480, 5602);
    } else if k == 29 {
        lemma_row(1856, 421, 8269, 7545, 32250, 14528, 25765, 7785, 1530, 5800);
    } else if k == 30 {
        lemma_row(1920, 450, 8268, 7537, 32214, 14464, 25538, 7789, 1581, 5998);
    } else if k == 31 {
        lemma_row(1984, 481, 8268, 7530, 32176, 14400, 25313, 7793, 1631, 6195);
    } else {
        lemma_row(2048, 512, 8267, 7522, 32138, 14336, 25088, 7798, 1681, 6393);
    }
}

proof fn lemma_rows_from_33(k: int)
    requires
        33 <= k <= 48,
    ensures
        unit_at(k),
{
    if k == 33 {
        lemma_row(2112, 545, 8267, 7514, 32098, 14272, 24865, 7802, 1731, 6589);
    } else if k == 34 {
        lemma_row(2176, 578, 8266, 7505, 32058, 14208, 24642, 7806, 1781, 6787);
    } else if k == 35 {
        lemma_row(2240, 613, 8265, 7496, 32015, 14144, 24421, 7810, 1830, 6983);
    } else if k == 36 {
        lemma_row(2304, 648, 8265, 7488, 31972, 14080, 24200, 7815, 1879, 7180);
    } else if k == 37 {
        lemma_row(2368, 685, 8264, 7478, 31927, 14016, 23981, 7819, 1929, 7375);
    } else if k == 38 {
        lemma_row(2432, 722, 8263, 7469, 31881, 13952, 23762, 7823, 1978, 7572);
    } else if k == 39 {
        lemma_row(2496, 761, 8262, 7459, 31834, 13888, 23545, 7827, 2027, 7767);
    } else if k == 40 {
        lemma_row(2560, 800, 8262, 7449, 31786, 13824, 23328, 7831, 2076, 7962);
    } else if k == 41 {
        lemma_row(2624, 841, 8261, 7439, 31736, 13760, 23113, 7835, 2125, 8156);
    } else if k == 42 {
        lemma_row(2688, 882, 8260, 7429, 31686, 13696, 22898, 7840, 2172, 8352);
    } else if k == 43 {
        lemma_row(2752, 925, 8259, 7418, 31634, 13632, 22685, 7844, 2221, 8545);
    } else if k == 44 {
        lemma_row(2816, 968, 8259, 7407, 31581, 13568, 22472, 7848, 2269, 8740);
    } else if k == 45 {
        lemma_row(2880, 1013, 8258, 7396, 31526, 13504, 22261, 7852, 2317, 8933);
    } else if k == 46 {
        lemma_row(2944, 1058, 8257, 7384, 31472, 13440, 22050, 7856, 2365, 9127);
    } else if k == 47 {
        lemma_row(3008, 1105, 8256, 7373, 31414, 13376, 21841, 7860, 2412, 9319);
    } else {
        lemma_row(3072, 1152, 8255, 7361, 31357, 13312, 21632, 7864, 2460, 9512);
    }
}

proof fn lemma_rows_from_49(k: int)
    requires
        49 <= k <= 64,
    ensures
        unit_at(k),
{
    if k == 49 {
        lemma_row(3136, 1201, 8254, 7348, 31298, 13248, 21425, 7868, 2507, 9704);
    } else if k == 50 {
        lemma_row(3200, 1250, 8253, 7336, 31238, 13184, 21218, 7872, 2554, 9896);
    } else if k == 51 {
        lemma_row(3264, 1301, 8252, 7323, 31176, 13120, 21013, 7876, 2600, 10088);
    } else if k == 52 {
        lemma_row(3328, 1352, 8251, 7311, 31114, 13056, 20808, 7879, 2648, 10278);
    } else if k == 53 {
        lemma_row(3392, 1405, 8250, 7297, 31050, 12992, 20605, 7883, 2694, 10469);
    } else if k == 54 {
        lemma_row(3456, 1458, 8249, 7284, 30986, 12928, 20402, 7887, 2740, 10660);
    } else if k == 55 {
        lemma_row(3520, 1513, 8248, 7270, 30919, 12864, 20201, 7891, 2786, 10849);
    } else if k == 56 {
        lemma_row(3584, 1568, 8247, 7256, 30853, 12800, 20000, 7895, 2832, 11039);
    } else if k == 57 {
        lemma_row(3648, 1625, 8246, 7242, 30784, 12736, 19801, 7899, 2878, 11228);
    } else if k == 58 {
        lemma_row(3712, 1682, 8245, 7228, 30715, 12672, 19602, 7903, 2923, 11417);
    } else if k == 59 {
        lemma_row(3776, 1741, 8244, 7213, 30644, 12608, 19405, 7906, 2969, 11605);
    } else if k == 60 {
        lemma_row(3840, 1800, 8243, 7198, 30573, 12544, 19208, 7910, 3014, 11793);
    } else if k == 61 {
        lemma_row(3904, 1861, 8241, 7183, 30499, 12480, 19013, 7914, 3059, 11980);
    } else if k == 62 {
        lemma_row(3968, 1922, 8240, 7168, 30426, 12416, 18818, 7918, 3104, 12167);
    } else if k == 63 {
        lemma_row(4032, 1985, 8239, 7152, 30350, 12352, 18625, 7921, 3149, 12353);
    } else {
        lemma_row(4096, 2048, 8238, 7136, 30274, 12288, 18432, 7925, 3193, 12540);
    }
}

proof fn lemma_rows_from_65(k: int)
    requires
        65 <= k <= 80,
    ensures
        unit_at(k),
{
    if k == 65 {
        lemma_row(4160, 2113, 8237, 7120, 30196, 12224, 18241, 7929, 3237, 12725);
    } else if k == 66 {
        lemma_row(4224, 2178, 8235, 7104, 30118, 12160, 18050, 7932, 3282, 12910);
    } else if k == 67 {
        lemma_row(4288, 2245, 8234, 7087, 30037, 12096, 17861, 7936, 3325, 13095);
    } else if k == 68 {
        lemma_row(4352, 2312, 8233, 7070, 29957, 12032, 17672, 7939, 3369, 13279);
    } else if k == 69 {
        lemma_row(4416, 2381, 8232, 7053, 29875, 11968, 17485, 7943, 3413, 13462);
    } else if k == 70 {
        lemma_row(4480, 2450, 8230, 7036, 29792, 11904, 17298, 7947, 3456, 13646);
    } else if k == 71 {
        lemma_row(4544, 2521, 8229, 7018, 29707, 11840, 17113, 7950, 3499, 13828);
    } else if k == 72 {
        lemma_row(4608, 2592, 8227, 7000, 29622, 11776, 16928, 7954, 3542, 14010);
    } else if k == 73 {
        lemma_row(4672, 2665, 8226, 6982, 29535, 11712, 16745, 7957, 3585, 14191);
    } else if k == 74 {
        lemma_row(4736, 2738, 8225, 6964, 29448, 11648, 16562, 7961, 3627, 14373);
    } else if k == 75 {
        lemma_row(4800, 2813, 8223, 6945, 29359, 11584, 16381, 7964, 3670, 14552);
    } else if k == 76 {
        lemma_row(4864, 2888, 8222, 6926, 29270, 11520, 16200, 7968, 3712, 14733);
    } else if k == 77 {
        lemma_row(4928, 2965, 8220, 6907, 29178, 11456, 16021, 7971, 3754, 14912);
    } else if k == 78 {
        lemma_row(4992, 3042, 8219, 6888, 29087, 11392, 15842, 7974, 3796, 15091);
    } else if k == 79 {
        lemma_row(5056, 3121, 8217, 6868, 28993, 11328, 15665, 7978, 3837, 15269);
    } else {
        lemma_row(5120, 3200, 8216, 6849, 28899, 11264, 15488, 7981, 3879, 15447);
    }
}

proof fn lemma_rows_from_81(k: int)
    requires
        81 <= k <= 96,
    ensures
        unit_at(k),
{
    if k == 81 {
        lemma_row(5184, 3281, 8214, 6829, 28803, 11200, 15313, 7984, 3920, 15623);
    } else if k == 82 {
        lemma_row(5248, 3362, 8213, 6808, 28707, 11136, 15138, 7988, 3961, 15800);
    } else if k == 83 {
        lemma_row(5312, 3445, 8211, 6788, 28609, 11072, 14965, 7991, 4002, 15975);
    } else if k == 84 {
        lemma_row(5376, 3528, 8210, 6767, 28511, 11008, 14792, 7994, 4042, 16151);
    } else if k == 85 {
        lemma_row(5440, 3613, 8208, 6746, 28411, 10944, 14621, 7998, 4082, 16326);
    } else if k == 86 {
        lemma_row(5504, 3698, 8206, 6725, 28311, 10880, 14450, 8001, 4123, 16500);
    } else if k == 87 {
        lemma_row(5568, 3785, 8205, 6703, 28209, 10816, 14281, 8004, 4163, 16673);
    } else if k == 88 {
        lemma_row(5632, 3872, 8203, 6682, 28106, 10752, 14112, 8007, 4203, 16846);
    } else if k == 89 {
        lemma_row(5696, 3961, 8201, 6660, 28002, 10688, 13945, 8011, 4242, 17018);
    } else if k == 90 {
        lemma_row(5760, 4050, 8200, 6638, 27898, 10624, 13778, 8014, 4281, 17190);
    } else if k == 91 {
        lemma_row(5824, 4141, 8198, 6615, 27791, 10560, 13613, 8017, 4320, 17360);
    } else if k == 92 {
        lemma_row(5888, 4232, 8196, 6592, 27685, 10496, 13448, 8020, 4360, 17531);
    } else if k == 93 {
        lemma_row(5952, 4325, 8194, 6569, 27576, 10432, 13285, 8023, 4398, 17700);
    } else if k == 94 {
        lemma_row(6016, 4418, 8193, 6546, 27467, 10368, 13122, 8026, 4437, 17869);
    } else if k == 95 {
        lemma_row(6080, 4513, 8191, 6523, 27357, 10304, 12961, 8029, 4475, 18037);
    } else {
        lemma_row(6144, 4608, 8189, 6499, 27246, 10240, 12800, 8032, 4513, 18205);
    }
}

proof fn lemma_rows_from_97(k: int)
    requires
        97 <= k <= 112,
    ensures
        unit_at(k),
{
    if k == 97 {
        lemma_row(6208, 4705, 8187, 6475, 27133, 10176, 12641, 8036, 4551, 18371);
    } else if k == 98 {
        lemma_row(6272, 4802, 8185, 6452, 27020, 10112, 12482, 8039, 4589, 18538);
    } else if k == 99 {
        lemma_row(6336, 4901, 8183, 6427, 26906, 10048, 12325, 8042, 4626, 18703);
    } else if k == 100 {
        lemma_row(6400, 5000, 8181, 6403, 26791, 9984, 12168, 8045, 4664, 18868);
    } else if k == 101 {
        lemma_row(6464, 5101, 8180, 6378, 26674, 9920, 12013, 8048, 4701, 19032);
    } else if k == 102 {
        lemma_row(6528, 5202, 8178, 6353, 26557, 9856, 11858, 8050, 4738, 19195);
    } else if k == 103 {
        lemma_row(6592, 5305, 8176, 6327, 26439, 9792, 11705, 8053, 4774, 19358);
    } else if k == 104 {
        lemma_row(6656, 5408, 8174, 6302, 26320, 9728, 11552, 8056, 4811, 19520);
    } else if k == 105 {
        lemma_row(6720, 5513, 8172, 6276, 26199, 9664, 11401, 8059, 4847, 19681);
    } else if k == 106 {
        lemma_row(6784, 5618, 8170, 6250, 26078, 9600, 11250, 8062, 4883, 19842);
    } else if k == 107 {
        lemma_row(6848, 5725, 8168, 6224, 25956, 9536, 11101, 8065, 4919, 20001);
    } else if k == 108 {
        lemma_row(6912, 5832, 8166, 6198, 25833, 9472, 10952, 8068, 4954, 20160);
    } else if k == 109 {
        lemma_row(6976, 5941, 8164, 6171, 25708, 9408, 10805, 8071, 4990, 20318);
    } else if k == 110 {
        lemma_row(7040, 6050, 8161, 6144, 25584, 9344, 10658, 8073, 5025, 20476);
    } else if k == 111 {
        lemma_row(7104, 6161, 8159, 6117, 25457, 9280, 10513, 8076, 5060, 20632);
    } else {
        lemma_row(7168, 6272, 8157, 6090, 25330, 9216, 10368, 8079, 5095, 20788);
    }
}

proof fn lemma_rows_from_113(k: int)
    requires
        113 <= k <= 128,
    ensures
        unit_at(k),
{
    if k == 113 {
        lemma_row(7232, 6385, 8155, 6062, 25202, 9152, 10225, 8082, 5129, 20943);
    } else if k == 114 {
        lemma_row(7296, 6498, 8153, 6034, 25073, 9088, 10082, 8084, 5164, 21097);
    } else if k == 115 {
        lemma_row(7360, 6613, 8151, 6006, 24943, 9024, 9941, 8087, 5198, 21250);
    } else if k == 116 {
        lemma_row(7424, 6728, 8148, 5978, 24813, 8960, 9800, 8090, 5232, 21403);
    } else if k == 117 {
        lemma_row(7488, 6845, 8146, 5949, 24680, 8896, 9661, 8092, 5265, 21555);
    } else if k == 118 {
        lemma_row(7552, 6962, 8144, 5921, 24548, 8832, 9522, 8095, 5299, 21706);
    } else if k == 119 {
        lemma_row(7616, 7081, 8142, 5892, 24414, 8768, 9385, 8098, 5332, 21856);
    } else if k == 120 {
        lemma_row(7680, 7200, 8139, 5863, 24280, 8704, 9248, 8100, 5365, 22006);
    } else if k == 121 {
        lemma_row(7744, 7321, 8137, 5833, 24144, 8640, 9113, 8103, 5398, 22154);
    } else if k == 122 {
        lemma_row(7808, 7442, 8135, 5803, 24008, 8576, 8978, 8105, 5430, 22302);
    } else if k == 123 {
        lemma_row(7872, 7565, 8132, 5774, 23870, 8512, 8845, 8108, 5462, 22449);
    } else if k == 124 {
        lemma_row(7936, 7688, 8130, 5744, 23732, 8448, 8712, 8111, 5495, 22595);
    } else if k == 125 {
        lemma_row(8000, 7813, 8128, 5713, 23593, 8384, 8581, 8113, 5526, 22740);
    } else if k == 126 {
        lemma_row(8064, 7938, 8125, 5683, 23453, 8320, 8450, 8116, 5558, 22885);
    } else if k == 127 {
        lemma_row(8128, 8065, 8123, 5652, 23312, 8256, 8321, 8118, 5590, 23027);
    } else {
        lemma_row(8192, 8192, 8121, 5621, 23171, 8192, 8192, 8121, 5621, 23171);
    }
}

/// The weights of the halves of a split at a multiple of 64 are those of a unit vector,
/// within a hundredth of its square.
pub proof fn lemma_unit(k: int)
    requires
        1 <= k <= 255,
    ensures
        unit_at(k),
{
    let j = if k <= 128 {
        k
    } else {
        256 - k
    };
    if j <= 16 {
        lemma_rows_from_1(j);
    } else if j <= 32 {
        lemma_rows_from_17(j);
    } else if j <= 48 {
        lemma_rows_from_33(j);
    } else if j <= 64 {
        lemma_rows_from_49(j);
    } else if j <= 80 {
        lemma_rows_from_65(j);
    } else if j <= 96 {
        lemma_rows_from_81(j);
    } else if j <= 112 {
        lemma_rows_from_97(j);
    } else {
        lemma_rows_from_113(j);
    }
    if k > 128 {
        assert(16384 - 64 * j == 64 * k);
        assert(16384 - 64 * k == 64 * j);
    }
}

/// The cosine of an angle is that of its negative.
pub proof fn lemma_even(x: int)
    ensures
        angle::cos_spec(-x) == angle::cos_spec(x),
{
    assert((-x) * (-x) == x * x) by (nonlinear_arith);
}

} // verus!
