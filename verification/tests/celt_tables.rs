use opus_rs::celt::angle::{bitexact_cos, bitexact_log2tan, celt_lcg_rand, isqrt32};
use opus_rs::celt::cwrs::{cwrsi, decode_pulses, encode_pulses, icwrs, pvq_codebook_size};
use opus_rs::celt::modes::{EBANDS, LOG_N, MAX_FINE_BITS, NB_EBANDS};
use opus_rs::celt::rate::{bits2pulses, cache_row, compute_allocation, get_pulses, init_caps, pulses2bits};
use opus_rs::celt::tables::{CACHE_BITS, CACHE_INDEX};
use opus_rs::celt::vq::extract_collapse_mask;
use opus_rs::range::{RangeDecoder, RangeEncoder};

#[test]
fn lcg_matches_reference_constants() {
    assert_eq!(celt_lcg_rand(0), 1_013_904_223);
    assert_eq!(celt_lcg_rand(1), 1_664_525 + 1_013_904_223);
    let mut s = 42u32;
    for _ in 0..3 {
        s = celt_lcg_rand(s);
    }
    assert_eq!(s, {
        let mut t: u64 = 42;
        for _ in 0..3 {
            t = (1_664_525 * t + 1_013_904_223) & 0xFFFF_FFFF;
        }
        t as u32
    });
}

#[test]
fn bitexact_cos_pinned_values_and_unit_relation() {
    for (x, expected) in [(64i16, 32767), (1024, 32610), (4096, 30274), (8192, 23171), (12288, 12540), (16320, 200)] {
        assert_eq!(bitexact_cos(x), expected, "bitexact_cos({x})");
    }
    for k in 1..=255i16 {
        let itheta = 64 * k;
        let imid = i32::from(bitexact_cos(itheta));
        let iside = i32::from(bitexact_cos(16384 - itheta));
        let unit = (imid * imid + iside * iside) as f64 / (32768.0 * 32768.0);
        assert!((unit - 1.0).abs() < 0.01, "itheta={itheta}: {unit}");
    }
}

#[test]
fn bitexact_log2tan_is_antisymmetric() {
    assert_eq!(bitexact_log2tan(16384, 16384), 0);
    for &(s, c) in &[(23171, 23171), (30000, 10000), (5000, 25000)] {
        assert_eq!(bitexact_log2tan(s, c), -bitexact_log2tan(c, s));
    }
    let v = bitexact_log2tan(30000, 10000);
    assert!((f64::from(v) / 2048.0 - 1.585).abs() < 0.01, "{v}");
}

#[test]
fn isqrt32_is_floor_sqrt() {
    for v in [0u32, 1, 2, 3, 4, 8, 9, 15, 16, 17, 1024, 99_980_001, u32::MAX] {
        let r = isqrt32(v);
        assert!(u64::from(r) * u64::from(r) <= u64::from(v));
        assert!((u64::from(r) + 1) * (u64::from(r) + 1) > u64::from(v));
    }
}

/// V(N, K) for N, K < 10.
const V_TABLE: [[u32; 10]; 10] = [
    [1, 0, 0, 0, 0, 0, 0, 0, 0, 0],
    [1, 2, 2, 2, 2, 2, 2, 2, 2, 2],
    [1, 4, 8, 12, 16, 20, 24, 28, 32, 36],
    [1, 6, 18, 38, 66, 102, 146, 198, 258, 326],
    [1, 8, 32, 88, 192, 360, 608, 952, 1408, 1992],
    [1, 10, 50, 170, 450, 1002, 1970, 3530, 5890, 9290],
    [1, 12, 72, 292, 912, 2364, 5336, 10836, 20256, 35436],
    [1, 14, 98, 462, 1666, 4942, 12642, 28814, 59906, 115598],
    [1, 16, 128, 688, 2816, 9424, 27008, 68464, 157184, 332688],
    [1, 18, 162, 978, 4482, 16722, 53154, 148626, 374274, 864146],
];

#[test]
fn codebook_sizes_match_reference_table() {
    for (n, row) in V_TABLE.iter().enumerate().skip(2) {
        for (k, &expected) in row.iter().enumerate().skip(1) {
            assert_eq!(pvq_codebook_size(n, k), expected, "V({n}, {k})");
        }
    }
}

#[test]
fn exhaustive_index_bijection_small_nk() {
    for n in 2..=6usize {
        for k in 1..=6usize {
            let v = pvq_codebook_size(n, k);
            for i in 0..v {
                let mut y = vec![0i32; n];
                cwrsi(n, k, i, &mut y);

                let pulses: u32 = y.iter().map(|x| x.unsigned_abs()).sum();
                assert_eq!(pulses, k as u32, "N={n} K={k} i={i}: pulse count");

                assert_eq!(icwrs(&y), i, "N={n} K={k}: index round-trip");
            }
        }
    }
}

#[test]
fn range_coder_round_trip() {
    let cases: [(usize, usize); 6] = [(2, 1), (4, 3), (8, 8), (16, 4), (24, 5), (96, 3)];

    let mut enc = RangeEncoder::new(1024);
    let mut vectors = Vec::new();
    for &(n, k) in &cases {
        let mut y = vec![0i32; n];
        for p in 0..k {
            let at = (p * 7) % n;
            y[at] += if p % 2 == 0 { 1 } else { -1 };
        }
        let total: u32 = y.iter().map(|x| x.unsigned_abs()).sum();
        if total != k as u32 {
            y = vec![0i32; n];
            for p in 0..k {
                y[p % n] += 1;
            }
        }
        encode_pulses(&mut enc, &y, k);
        vectors.push((n, k, y));
    }
    let enc_rng = enc.range_size();
    let buf = enc.finalize().expect("within budget");

    let mut dec = RangeDecoder::new(&buf);
    for (n, k, expected) in vectors {
        let mut y = vec![0i32; n];
        decode_pulses(&mut dec, &mut y, k).expect("in range");
        assert_eq!(y, expected, "N={n} K={k}");
    }
    assert_eq!(dec.range_size(), enc_rng);
}

#[test]
fn band_table_is_monotonic_and_complete() {
    for w in EBANDS.windows(2) {
        assert!(w[0] < w[1], "band boundaries strictly increase");
    }
    assert_eq!(EBANDS[NB_EBANDS], 100, "top coded bin at the shortest frame size");
}

#[test]
fn log_n_matches_band_widths() {
    for i in 0..NB_EBANDS {
        let width = f64::from(EBANDS[i + 1] - EBANDS[i]);
        let expected = (width.log2() * 8.0).round() as i64;
        assert!((i64::from(LOG_N[i]) - expected).abs() <= 1, "band {i}: logN {} vs computed {expected}", LOG_N[i]);
    }
}

#[test]
fn get_pulses_matches_pseudo_scale() {
    for i in 0..8 {
        assert_eq!(get_pulses(i), i);
    }
    assert_eq!(get_pulses(8), 8);
    assert_eq!(get_pulses(15), 15);
    assert_eq!(get_pulses(16), 16);
    assert_eq!(get_pulses(17), 18);
    assert_eq!(get_pulses(24), 32);
    assert_eq!(get_pulses(32), 64);
    assert_eq!(get_pulses(39), 120);
    assert_eq!(get_pulses(40), 128, "MAX_PSEUDO maps to MAX_PULSES");
}

#[test]
fn pulse_cache_round_trips() {
    for lm in 0..4i32 {
        for band in 0..NB_EBANDS {
            if CACHE_INDEX[(lm + 1) as usize * NB_EBANDS + band] < 0 {
                continue;
            }
            let levels = i32::from(CACHE_BITS[cache_row(band, lm)]);
            let mut prev_bits = 0;
            for pseudo in 1..=levels {
                let bits = pulses2bits(band, lm, pseudo);
                assert!(bits >= prev_bits, "cache must be non-decreasing");
                prev_bits = bits;
                let back = bits2pulses(band, lm, bits);
                assert!(back <= pseudo, "band {band} lm {lm} pseudo {pseudo}");
                assert_eq!(pulses2bits(band, lm, back), bits, "band {band} lm {lm} pseudo {pseudo}: same cost");
            }
        }
    }
}

#[test]
fn caps_are_positive_and_scale_with_size() {
    for lm in 0..4 {
        for channels in [1, 2] {
            let caps = init_caps(lm, channels);
            for (i, &cap) in caps.iter().enumerate() {
                assert!(cap > 0, "lm={lm} C={channels} band {i}");
            }
        }
    }
    assert!(init_caps(3, 2)[20] > init_caps(0, 1)[20]);
}

#[test]
fn allocation_invariants_across_rates_and_frames() {
    for lm in 0..4usize {
        for channels in [1usize, 2] {
            for &total_bits in &[80i32, 300, 1200, 4000, 12_000] {
                let mut enc = RangeEncoder::new(64);
                for _ in 0..NB_EBANDS {
                    enc.encode_bit_logp(false, 1);
                }
                let buf = enc.finalize().expect("fits");
                let mut dec = RangeDecoder::new(&buf);

                let cap = init_caps(lm, channels);
                let offsets = [0i32; NB_EBANDS];
                let total = total_bits << 3;
                let alloc = compute_allocation(&mut dec, 0, NB_EBANDS, &offsets, &cap, 5, total, channels, lm);

                assert!(alloc.coded_bands > 0 && alloc.coded_bands <= NB_EBANDS);
                let mut spent = alloc.balance;
                for (j, &cap_j) in cap.iter().enumerate() {
                    assert!(alloc.shape_bits[j] >= 0, "band {j}");
                    assert!((0..=MAX_FINE_BITS).contains(&alloc.fine_quant[j]), "band {j} fine {}", alloc.fine_quant[j]);
                    assert!(alloc.shape_bits[j] <= cap_j, "band {j}: {} over cap {}", alloc.shape_bits[j], cap_j);
                    spent += alloc.shape_bits[j] + ((channels as i32 * alloc.fine_quant[j]) << 3);
                }
                assert!(spent <= total, "lm={lm} C={channels} total={total}: spent {spent}");
            }
        }
    }
}

#[test]
fn skip_and_stereo_parameters_decode() {
    let lm = 3usize;
    let channels = 2usize;
    let cap = init_caps(lm, channels);
    let offsets = [0i32; NB_EBANDS];
    let total = 2000i32 << 3;

    let mut enc = RangeEncoder::new(64);
    enc.encode_bit_logp(true, 1);
    enc.encode_uint(7, (NB_EBANDS - 1 + 1) as u32);
    enc.encode_bit_logp(true, 1);
    let buf = enc.finalize().expect("fits");
    let mut dec = RangeDecoder::new(&buf);

    let alloc = compute_allocation(&mut dec, 0, NB_EBANDS, &offsets, &cap, 5, total, channels, lm);
    assert_eq!(alloc.coded_bands, NB_EBANDS - 1, "one band skipped");
    assert_eq!(alloc.intensity, 7);
    assert!(alloc.dual_stereo);
}

#[test]
fn collapse_mask_tracks_blocks_with_pulses() {
    let n = 8usize;
    let k = 2usize;
    let mut enc = RangeEncoder::new(64);
    let mut y = vec![0i32; n];
    y[5] = 1;
    y[6] = -1;
    encode_pulses(&mut enc, &y, k);
    let buf = enc.finalize().expect("fits");

    let mut dec = RangeDecoder::new(&buf);
    let mut x = vec![0i32; n];
    decode_pulses(&mut dec, &mut x, k).expect("in range");
    let mask = extract_collapse_mask(&x, 2);
    assert_eq!(mask, 0b10, "only block 1 has pulses");
}

#[test]
fn every_budget_has_a_nearest_level() {
    for bits in [i32::MIN + 1, i32::MIN + 256, -0x4000_0001, -1, 0] {
        assert_eq!(bits2pulses(12, 2, bits), 0);
    }
    let most = i32::from(opus_rs::celt::tables::CACHE_BITS[cache_row(12, 2)]);
    for bits in [0x4000_0001, i32::MAX] {
        assert_eq!(bits2pulses(12, 2, bits), most);
    }
}

#[test]
fn as_many_as_32_blocks_have_a_bit() {
    let mut y = vec![0i32; 64];
    y[1] = 1;
    y[62] = -2;
    assert_eq!(extract_collapse_mask(&y, 32), 0x8000_0001);
    y[33] = 1;
    assert_eq!(extract_collapse_mask(&y, 32), 0x8001_0001);
}
