use opus_rs::celt::bands::{anti_collapse, band_depth, quant_all_bands};
use opus_rs::celt::cwrs::{decode_pulses, encode_pulses, pvq_codebook_size};
use opus_rs::celt::decoder::{tf_decode, CeltDecoder, Concealed, Postfilter};
use opus_rs::celt::encoder::{
    encode_boosts, encode_header, encode_spread, encode_trim, quant_coarse_step, quant_energy_finalise,
    quant_fine_energy, tf_encode, CeltEncoder, FrontInput, HeaderPlan,
};
use opus_rs::celt::analysis::SmallCounts;
use opus_rs::celt::energy::{decode_coarse_energy, decode_energy_finalise, decode_fine_energy};
use opus_rs::celt::hadamard::{deinterleave_hadamard, interleave_hadamard};
use opus_rs::celt::laplace::{ec_laplace_decode, ec_laplace_encode};
use opus_rs::celt::modes::{E_PROB_MODEL, NB_EBANDS};
use opus_rs::celt::rate::encode::{encode_allocation, AllocChoice};
use opus_rs::celt::rate::{compute_allocation, init_caps};
use opus_rs::celt::search::{alg_quant, PulseSearch};
use opus_rs::celt::vq::Spread;
use opus_rs::range::{RangeDecoder, RangeEncoder};

#[test]
fn haar_and_hadamard_round_trip() {
    let original: Vec<f32> = (0..32).map(|i| (i as f32 * 0.31).sin()).collect();
    for stride in [2usize, 4, 8, 16] {
        for hadamard in [false, true] {
            let n0 = 32 / stride;
            let mut x = original.clone();
            deinterleave_hadamard(&mut x, n0, stride, hadamard);
            interleave_hadamard(&mut x, n0, stride, hadamard);
            for (a, b) in original.iter().zip(&x) {
                assert!((a - b).abs() < 1e-6, "stride {stride} hadamard {hadamard}");
            }
        }
    }
}

#[test]
fn blocks_come_together_in_their_order() {
    let mut x = vec![0u32, 1, 2, 3, 4, 5, 6, 7, 99];
    deinterleave_hadamard(&mut x, 4, 2, false);
    assert_eq!(x, vec![0, 2, 4, 6, 1, 3, 5, 7, 99]);
    let mut x = vec![0u32, 1, 2, 3, 4, 5, 6, 7];
    deinterleave_hadamard(&mut x, 2, 4, true);
    // Blocks 0 to 3 go to rows 3, 0, 2 and 1.
    assert_eq!(x, vec![1, 5, 3, 7, 2, 6, 0, 4]);
}

#[test]
fn coarse_energy_round_trip() {
    for lm in 0..4usize {
        for intra in [false, true] {
            for channels in [1usize, 2] {
                let prob = &E_PROB_MODEL[lm][usize::from(intra)];
                let deltas: Vec<i32> = (0..NB_EBANDS * channels).map(|i| ((i as i32 * 5) % 7) - 3).collect();
                let mut enc = RangeEncoder::new(256);
                let mut coded = Vec::new();
                let mut it = deltas.iter();
                for i in 0..NB_EBANDS {
                    for _ in 0..channels {
                        let pi = 2 * i.min(20);
                        coded.push(ec_laplace_encode(
                            &mut enc,
                            *it.next().expect("delta"),
                            u32::from(prob[pi]) << 7,
                            u32::from(prob[pi + 1]) << 6,
                        ));
                    }
                }
                assert_eq!(coded, deltas, "small deltas never saturate");
                let enc_rng = enc.range_size();
                let buf = enc.finalize().expect("within budget");
                let mut dec = RangeDecoder::new(&buf);
                let got = decode_coarse_energy(&mut dec, 0, NB_EBANDS, intra, channels, lm, buf.len() as u32 * 8);
                assert_eq!(dec.range_size(), enc_rng, "lm={lm} intra={intra} C={channels}");
                assert_eq!(got, deltas, "lm={lm} intra={intra} C={channels}");
            }
        }
    }
}

#[test]
fn coarse_energy_respects_starved_budget() {
    let buf = [0xA5u8, 0x3C];
    let mut dec = RangeDecoder::new(&buf);
    let got = decode_coarse_energy(&mut dec, 0, NB_EBANDS, false, 2, 3, 16);
    assert_eq!(got.len(), 42);
    // Without a bit left nothing is read and the step is -1.
    assert_eq!(got[41], -1);
    assert!(dec.tell() <= 16 + 15);
    assert!(dec.tell() <= 16);
}

#[test]
fn fine_energy_refines_toward_centre() {
    let mut enc = RangeEncoder::new(16);
    enc.encode_raw_bits(5, 3);
    let buf = enc.finalize().expect("fits");
    let mut dec = RangeDecoder::new(&buf);
    let mut fine_quant = [0i32; NB_EBANDS];
    fine_quant[0] = 3;
    let q = decode_fine_energy(&mut dec, 0, 1, &fine_quant, 1);
    assert_eq!(q[0], 5);
    let offset = (q[0] as f32 + 0.5) / 8.0 - 0.5;
    assert!((offset - 0.1875).abs() < 1e-6);
}

#[test]
fn finalise_spends_priority_zero_first() {
    let mut enc = RangeEncoder::new(16);
    enc.encode_raw_bits(1, 1);
    let buf = enc.finalize().expect("fits");
    let mut dec = RangeDecoder::new(&buf);
    let fine_quant = [0i32; NB_EBANDS];
    let mut fine_priority = [true; NB_EBANDS];
    fine_priority[1] = false;
    let out = decode_energy_finalise(&mut dec, 0, 2, &fine_quant, &fine_priority, 1, 1);
    assert_eq!(out[0], None, "the band that comes second gets nothing");
    assert_eq!(out[1], Some(true));
}

#[test]
fn fine_and_last_energy_come_back() {
    let mut fine_quant = [0i32; NB_EBANDS];
    let mut priority = [false; NB_EBANDS];
    for j in 0..NB_EBANDS {
        fine_quant[j] = (j % 4) as i32;
        priority[j] = j % 3 == 0;
    }
    let values: Vec<u32> = (0..42).map(|k| if fine_quant[k / 2] > 0 { (k as u32 * 7) % (1 << fine_quant[k / 2]) } else { 0 }).collect();
    let last: Vec<bool> = (0..42).map(|k| k % 5 < 2).collect();
    let mut enc = RangeEncoder::new(64);
    quant_fine_energy(&mut enc, 0, 21, &fine_quant, 2, &values);
    quant_energy_finalise(&mut enc, 0, 21, &fine_quant, &priority, 30, 2, &last);
    let range = enc.range_size();
    let buf = enc.finalize().expect("fits");
    let mut dec = RangeDecoder::new(&buf);
    let got = decode_fine_energy(&mut dec, 0, 21, &fine_quant, 2);
    for k in 0..42 {
        if fine_quant[k / 2] > 0 {
            assert_eq!(got[k], values[k], "value {k}");
        }
    }
    let ends = decode_energy_finalise(&mut dec, 0, 21, &fine_quant, &priority, 30, 2);
    let mut spent = 0;
    for k in 0..42 {
        if let Some(bit) = ends[k] {
            assert_eq!(bit, last[k], "bit {k}");
            spent += 1;
        }
    }
    assert_eq!(spent, 30);
    assert_eq!(dec.range_size(), range);
}

#[test]
fn quant_all_bands_decodes_arbitrary_streams() {
    for lm in 0..4usize {
        for channels in [1usize, 2] {
            for seed_byte in [0x00u8, 0x5A, 0xFF, 0x37] {
                let frame_bytes = 80usize;
                let data = vec![seed_byte; frame_bytes];
                let mut dec = RangeDecoder::new(&data);
                let caps = init_caps(lm, channels);
                let offsets = [0i32; NB_EBANDS];
                let total = (frame_bytes as i32 * 8) << 3;
                let alloc = compute_allocation(&mut dec, 0, NB_EBANDS, &offsets, &caps, 5, total, channels, lm);
                let tf_res = [0i32; NB_EBANDS];
                let shapes = quant_all_bands(
                    &mut dec,
                    0,
                    NB_EBANDS,
                    channels == 2,
                    &alloc.shape_bits,
                    false,
                    Spread::Normal,
                    alloc.dual_stereo,
                    alloc.intensity,
                    &tf_res,
                    total - 1,
                    alloc.balance,
                    lm,
                    alloc.coded_bands,
                    0,
                );
                assert_eq!(shapes.plans.len(), NB_EBANDS, "lm={lm} C={channels}");
                assert_eq!(shapes.collapse_masks.len(), NB_EBANDS * channels);
            }
        }
    }
}

#[test]
fn decodes_arbitrary_bytes_to_finite_pcm() {
    for lm in 0..4usize {
        for (cc, c) in [(1usize, 1usize), (2, 2), (2, 1)] {
            for fill in [0x00u8, 0xA5, 0xFF] {
                let mut decoder = CeltDecoder::new(cc);
                let frame_size = 120 << lm;
                let data = vec![fill; 60];
                for _ in 0..3 {
                    let mut dec = RangeDecoder::new(&data);
                    let (params, history) = decoder.decode_frame(&mut dec, data.len(), frame_size, c, 0, 21);
                    assert_eq!(params.coarse.len(), 21 * c, "lm={lm} cc={cc} c={c} fill={fill:#x}");
                    assert_eq!(decoder.final_range(), dec.range_size());
                    assert_eq!(history.missing, None);
                }
            }
        }
    }
}

#[test]
fn silence_frame_is_quiet() {
    let mut decoder = CeltDecoder::new(1);
    let data = [0x00u8, 0x00];
    let mut dec = RangeDecoder::new(&data);
    let (params, _) = decoder.decode_frame(&mut dec, data.len(), 960, 1, 0, 21);
    assert!(!params.silence);
    // A first bit that is set says that the frame is silent.
    let mut enc = RangeEncoder::new(2);
    enc.encode_bit_logp(true, 15);
    let buf = enc.finalize().expect("fits");
    let mut dec = RangeDecoder::new(&buf);
    let (params, _) = decoder.decode_frame(&mut dec, buf.len(), 960, 1, 0, 21);
    assert!(params.silence);
    assert_eq!(params.postfilter.gain, 0);
}

#[test]
fn laplace_values_come_back_and_saturate() {
    let (fs, decay) = (72 << 7, 127 << 6);
    let values = [0, 1, -1, 2, -2, 9, -9, 30, -30, 40_000, -40_000];
    let mut enc = RangeEncoder::new(64);
    let coded: Vec<i32> = values.iter().map(|&v| ec_laplace_encode(&mut enc, v, fs, decay)).collect();
    assert_eq!(&coded[..9], &values[..9]);
    assert_eq!(&coded[9..], &[30, -30]);
    let range = enc.range_size();
    let buf = enc.finalize().expect("fits");
    let mut dec = RangeDecoder::new(&buf);
    for &v in &coded {
        assert_eq!(ec_laplace_decode(&mut dec, fs, decay), v);
    }
    assert_eq!(dec.range_size(), range);
}

#[test]
fn pulses_come_back() {
    let vectors: [&[i32]; 4] = [&[1, -2, 0, 3], &[0, 0, 0, -1, 0], &[-4, 4], &[1, 1, 1, 1, -1, -1, 0, 2]];
    let mut enc = RangeEncoder::new(64);
    for y in vectors {
        let k: i32 = y.iter().map(|v| v.abs()).sum();
        encode_pulses(&mut enc, y, k as usize);
    }
    let buf = enc.finalize().expect("fits");
    let mut dec = RangeDecoder::new(&buf);
    for y in vectors {
        let k: i32 = y.iter().map(|v| v.abs()).sum();
        let mut out = vec![0; y.len()];
        assert_eq!(decode_pulses(&mut dec, &mut out, k as usize), Some(()));
        assert_eq!(out, y);
    }
}

#[test]
fn what_the_encoder_puts_before_the_bands_comes_back() {
    for lm in 0..4usize {
        for channels in [1usize, 2] {
            let bytes = 60usize;
            let mut celt = CeltEncoder::with_channels(channels);
            let mut enc = RangeEncoder::new(bytes);
            let postfilter = Postfilter { period: 300, gain: 3, tapset: 1 };
            let plan = celt.header_plan(postfilter, lm > 1);
            assert!(plan.intra, "the first frame stands on its own");
            encode_header(&mut enc, 0, lm, bytes, plan);
            let steps: Vec<i32> = (0..21 * channels).map(|k| (k as i32 * 3) % 5 - 2).collect();
            for i in 0..21 {
                for c in 0..channels {
                    let got = quant_coarse_step(
                        &mut enc, 0, 21, i, channels, lm, plan.intra, 8 * bytes as u32, steps[i * channels + c],
                    );
                    assert_eq!(got, steps[i * channels + c]);
                }
            }
            let mut want = [false; 21];
            let mut boosts = [0i32; 21];
            for i in 0..21 {
                want[i] = i % 4 == 1;
            }
            boosts[3] = 1;
            boosts[7] = 2;
            let input = FrontInput {
                transient: plan.transient,
                tf_want: want,
                tf_select: true,
                counts: vec![SmallCounts { quarter: 1, sixteenth: 1, sixty_fourth: 0 }; 21 * channels],
                spread_weight: [32; 21],
                boost_steps: boosts,
                trim: 7,
                dual_stereo: true,
            };
            let front = celt.encode_front(&mut enc, 0, 21, lm, bytes, &input);
            assert_eq!(front.dual_stereo, channels == 2 && lm != 0);
            let (alloc, _) = celt.allocate(&mut enc, 0, 21, lm, bytes, plan.transient, &front);
            assert_eq!(celt.last_coded_bands, alloc.coded_bands);
            let mut fine = vec![0u32; 21 * channels];
            for i in 0..21 {
                for c in 0..channels {
                    fine[i * channels + c] = (5 * i as u32 + 3 * c as u32) % (1 << alloc.fine_quant[i]);
                }
            }
            quant_fine_energy(&mut enc, 0, 21, &alloc.fine_quant, channels, &fine);
            let used = enc.tell();
            let buf = enc.finalize().expect("fits");
            let mut dec = RangeDecoder::new(&buf);
            let (params, _) = CeltDecoder::new(channels).decode_frame(&mut dec, bytes, 120 << lm, channels, 0, 21);
            assert!(dec.tell() >= used);
            assert!(!params.silence);
            assert_eq!(params.postfilter, postfilter);
            assert_eq!(params.transient, plan.transient);
            assert!(params.intra);
            assert_eq!(params.coarse, steps);
            assert_eq!(params.tf_res, front.tf_res);
            assert_eq!(params.spread, front.spread);
            assert_eq!(params.alloc.coded_bands, alloc.coded_bands);
            assert_eq!(params.alloc.shape_bits, alloc.shape_bits);
            assert_eq!(params.alloc.fine_quant, alloc.fine_quant);
            assert_eq!(params.alloc.fine_priority, alloc.fine_priority);
            assert_eq!(params.alloc.balance, alloc.balance);
            assert_eq!(params.alloc.intensity, alloc.intensity);
            assert_eq!(params.alloc.dual_stereo, alloc.dual_stereo);
            assert_eq!(params.fine, fine);
        }
    }
}

#[test]
fn resolutions_stop_where_the_bits_do() {
    for total in [8u32, 20, 40, 200] {
        let mut enc = RangeEncoder::new(32);
        let want = [true; 21];
        let put = tf_encode(&mut enc, 0, 21, true, 3, total, &want, true);
        let buf = enc.finalize().expect("fits");
        let mut dec = RangeDecoder::new(&buf);
        assert_eq!(tf_decode(&mut dec, 0, 21, true, 3, total), put, "total {total}");
    }
}

#[test]
fn boosts_spread_and_trim_need_bits() {
    let mut enc = RangeEncoder::new(2);
    let (offsets, total) = encode_boosts(&mut enc, 0, 21, 1, 3, 2, &[5; 21]);
    assert_eq!(total, 8 * 16 - offsets.iter().map(|&x| i64::from(x)).sum::<i64>());
    assert_eq!(encode_trim(&mut enc, 0, 9), 5, "no bits: the tilt is flat");
    let mut small = RangeEncoder::new(0);
    assert_eq!(encode_spread(&mut small, 0, Spread::Aggressive), Spread::Normal);
    let mut roomy = RangeEncoder::new(10);
    assert_eq!(encode_spread(&mut roomy, 10, Spread::Aggressive), Spread::Aggressive);
}

#[test]
fn header_without_a_filter() {
    let mut enc = RangeEncoder::new(20);
    let plan = HeaderPlan {
        postfilter: Postfilter { period: 0, gain: 0, tapset: 0 },
        transient: true,
        intra: false,
    };
    encode_header(&mut enc, 0, 3, 20, plan);
    assert!(enc.tell() <= 8, "silence, filter, transient and intra flags");
    let buf = enc.finalize().expect("fits");
    let mut dec = RangeDecoder::new(&buf);
    let (params, _) = CeltDecoder::new(1).decode_frame(&mut dec, 20, 960, 1, 0, 21);
    assert!(params.transient && !params.intra && !params.silence);
    assert_eq!(params.postfilter.gain, 0);
}

#[test]
fn losses_turn_from_pitch_to_noise() {
    let mut d = CeltDecoder::new(1);
    let data = vec![0xA5u8; 60];
    for _ in 0..2 {
        let mut dec = RangeDecoder::new(&data);
        d.decode_frame(&mut dec, 60, 960, 1, 0, 21);
    }
    assert!(!d.lost_plan(0).noise);
    match d.decode_lost(960, 0, 21, 300) {
        Concealed::Pitch { period, excitation } => {
            assert_eq!(period, 720 - 300);
            assert_eq!(excitation, 840);
        },
        Concealed::Noise(_) => panic!("the first loss repeats the pitch"),
    }
    assert_eq!(d.loss_duration, 8);
    for _ in 0..4 {
        assert!(matches!(d.decode_lost(960, 0, 21, 0), Concealed::Pitch { period: 420, excitation: 840 }));
    }
    assert_eq!(d.loss_duration, 40);
    match d.decode_lost(960, 0, 21, 0) {
        Concealed::Noise(v) => assert_eq!(v.len(), 800),
        Concealed::Pitch { .. } => panic!("after 100 ms noise takes over"),
    }
    assert!(d.skip_plc);
    // Above the first band only noise conceals.
    assert!(CeltDecoder::new(2).lost_plan(17).noise);
}

#[test]
fn prefilter_settings() {
    let mut e = CeltEncoder::new();
    assert_eq!(e.prefilter_threshold(15, 100), 2);
    assert_eq!(e.prefilter_threshold(300, 100), 4);
    assert_eq!(e.prefilter_threshold(300, 30), 5);
    assert_eq!(e.prefilter_threshold(300, 20), 6);
    let p = e.set_prefilter(300, Some(6));
    assert_eq!(p, Postfilter { period: 300, gain: 6, tapset: 0 });
    assert_eq!(e.prefilter_threshold(300, 20), 2);
    assert_eq!(e.set_prefilter(3, Some(99)), Postfilter { period: 15, gain: 8, tapset: 0 });
    assert_eq!(e.set_prefilter(40, None), Postfilter { period: 40, gain: 0, tapset: 0 });
}

#[test]
fn frames_shrink_to_their_target() {
    let e = CeltEncoder::with_channels(1);
    let mut enc = RangeEncoder::new(1275);
    let r = e.shrink_to_target(&mut enc, 64 * 100, 0, 1275, 3);
    assert_eq!(r, 100);
    let mut enc = RangeEncoder::new(1275);
    assert_eq!(e.shrink_to_target(&mut enc, 64 * 1000, 0, 1275, 0), 1275 >> 3);
    let mut enc = RangeEncoder::new(1275);
    assert_eq!(e.shrink_to_target(&mut enc, -64, 0, 1275, 3), 3);
}

#[test]
fn empty_blocks_get_noise() {
    let mut masks = vec![0xffu8; 21];
    masks[0] = 0b01;
    masks[1] = 0b10;
    let found = anti_collapse(&masks, 0, 3, 1, 1, 0);
    assert_eq!(found.len(), 2);
    assert_eq!((found[0].band, found[0].channel, found[0].block), (0, 0, 1));
    assert_eq!(found[0].signs, vec![true]);
    assert_eq!((found[1].band, found[1].channel, found[1].block), (1, 0, 0));
    assert_eq!(found[1].signs, vec![false]);
    assert!(anti_collapse(&vec![0xffu8; 42], 0, 21, 2, 3, 7).is_empty());
    let stereo = anti_collapse(&vec![0u8; 42], 20, 21, 2, 0, 0);
    assert_eq!(stereo.len(), 2);
    assert_eq!(stereo[0].signs.len(), 22);
    assert_eq!(stereo[1].channel, 1);
}

#[test]
fn depth_of_a_band() {
    assert_eq!(band_depth(-1, 22, 3), 0);
    assert_eq!(band_depth(63, 1, 3), 8);
    assert_eq!(band_depth(62, 1, 3), 7);
    assert_eq!(band_depth(95, 4, 2), 6);
}

#[test]
fn the_longest_codebooks_fit_32_bits() {
    assert_eq!(pvq_codebook_size(2, 128), 512);
    assert_eq!(pvq_codebook_size(6, 88), 2_818_205_280);
    assert_eq!(pvq_codebook_size(8, 36), 4_066_763_520);
    assert_eq!(pvq_codebook_size(18, 11), 4_196_289_420);
    assert_eq!(pvq_codebook_size(24, 9), 4_003_707_568);
    assert_eq!(pvq_codebook_size(96, 5), 2_175_506_880);
    assert_eq!(pvq_codebook_size(176, 4), 639_716_352);
}

#[test]
fn the_least_complexity_keeps_the_spread() {
    let input = FrontInput {
        transient: false,
        tf_want: [false; 21],
        tf_select: false,
        counts: vec![SmallCounts { quarter: 200, sixteenth: 200, sixty_fourth: 200 }; 21],
        spread_weight: [32; 21],
        boost_steps: [0; 21],
        trim: 5,
        dual_stereo: false,
    };
    let mut celt = CeltEncoder::new();
    assert!(celt.analyses_deeply());
    celt.set_complexity(0);
    assert!(!celt.analyses_deeply());
    let mut enc = RangeEncoder::new(60);
    let front = celt.encode_front(&mut enc, 0, 21, 3, 60, &input);
    assert_eq!(front.spread, Spread::Normal);
    assert_eq!(celt.tonal_average, 256);
    celt.set_complexity(1);
    let mut enc = RangeEncoder::new(60);
    let front = celt.encode_front(&mut enc, 0, 21, 3, 60, &input);
    assert_ne!(front.spread, Spread::Normal);
    assert_ne!(celt.tonal_average, 256);
}

#[test]
fn a_search_places_every_pulse() {
    let mut search = PulseSearch::new(4, 7);
    assert!(search.projects());
    search.project(vec![2, 0, 1, 1]);
    assert_eq!(search.left, 3);
    search.spill();
    assert_eq!(search.left, 3, "three are not more than a few for each of four");
    search.place(1);
    search.place(0);
    search.place(1);
    let y = search.finish(&[false, true, false, true]);
    assert_eq!(y, [3, -2, 1, -1]);
    let mut enc = RangeEncoder::new(16);
    assert_eq!(alg_quant(&mut enc, &y, 7, 2), 0b11);
    let buf = enc.finalize().expect("fits");
    let mut dec = RangeDecoder::new(&buf);
    let mut back = vec![0; 4];
    assert_eq!(decode_pulses(&mut dec, &mut back, 7), Some(()));
    assert_eq!(back, y);
}

#[test]
fn a_search_spills_onto_the_first_value() {
    let mut search = PulseSearch::new(4, 20);
    search.project(vec![5, 1, 0, 0]);
    search.spill();
    assert_eq!(search.left, 0);
    assert_eq!(search.finish(&[true, false, false, false]), [-19, 1, 0, 0]);
    assert!(!PulseSearch::new(16, 8).projects());
}

#[test]
fn both_ends_derive_the_same_allocation() {
    for lm in 0..4usize {
        for channels in [1usize, 2] {
            for total in [-5i32, 60, 700, 5000, 40_000] {
                for reach in [0usize, 9, 17, 20] {
                    let caps = init_caps(lm, channels);
                    let mut offsets = [0i32; NB_EBANDS];
                    offsets[5] = 32;
                    let choice = AllocChoice { signal_bandwidth: reach, intensity: 12, dual_stereo: true };
                    let mut enc = RangeEncoder::new(64);
                    let put = encode_allocation(
                        &mut enc, 0, NB_EBANDS, &offsets, &caps, 6, total, channels, lm, choice,
                    );
                    let buf = enc.finalize().expect("fits");
                    let mut dec = RangeDecoder::new(&buf);
                    let got = compute_allocation(&mut dec, 0, NB_EBANDS, &offsets, &caps, 6, total, channels, lm);
                    assert_eq!(got.coded_bands, put.coded_bands);
                    assert_eq!(got.shape_bits, put.shape_bits);
                    assert_eq!(got.fine_quant, put.fine_quant);
                    assert_eq!(got.fine_priority, put.fine_priority);
                    assert_eq!(got.balance, put.balance);
                    assert_eq!(got.intensity, put.intensity);
                    assert_eq!(got.dual_stereo, put.dual_stereo);
                    assert!(put.coded_bands > 5, "a boosted band stays");
                }
            }
        }
    }
}

#[test]
fn bands_beyond_the_signal_are_dropped() {
    let caps = init_caps(3, 2);
    let choice = AllocChoice { signal_bandwidth: 10, intensity: 30, dual_stereo: true };
    let mut enc = RangeEncoder::new(64);
    let alloc = encode_allocation(&mut enc, 0, NB_EBANDS, &[0; NB_EBANDS], &caps, 5, 16_000, 2, 3, choice);
    assert_eq!(alloc.coded_bands, 11);
    assert_eq!(alloc.intensity, 11, "no band beyond the coded ones");
    assert!(alloc.dual_stereo);
    assert_eq!(&alloc.shape_bits[11..], &[0; 10]);
    let all = AllocChoice { signal_bandwidth: 20, ..choice };
    let mut enc = RangeEncoder::new(64);
    let alloc = encode_allocation(&mut enc, 0, NB_EBANDS, &[0; NB_EBANDS], &caps, 5, 16_000, 2, 3, all);
    assert!(alloc.coded_bands > 18);
}

#[test]
fn a_shrunk_frame_reads_the_same() {
    for (target, boosts) in [(0i64, 0i32), (900, 0), (900, 3), (6400, 1), (60_000, 2)] {
        let bytes = 400usize;
        let mut celt = CeltEncoder::with_channels(2);
        let mut enc = RangeEncoder::new(bytes);
        let plan = celt.header_plan(Postfilter { period: 15, gain: 0, tapset: 0 }, true);
        encode_header(&mut enc, 0, 3, bytes, plan);
        let steps: Vec<i32> = (0..42).map(|k| k % 3 - 1).collect();
        for (k, want) in steps.iter().enumerate() {
            quant_coarse_step(&mut enc, 0, 21, k / 2, 2, 3, plan.intra, 8 * bytes as u32, *want);
        }
        let input = FrontInput {
            transient: true,
            tf_want: [true; 21],
            tf_select: false,
            counts: vec![SmallCounts { quarter: 1, sixteenth: 1, sixty_fourth: 0 }; 42],
            spread_weight: [32; 21],
            boost_steps: [boosts; 21],
            trim: 4,
            dual_stereo: false,
        };
        let front = celt.encode_front(&mut enc, 0, 21, 3, bytes, &input);
        let boost = 64 * bytes as i64 - front.total;
        let size = celt.shrink_to_target(&mut enc, target, boost, bytes, 3);
        assert!(size <= bytes);
        assert!(i64::from(enc.tell_frac()) + boost + 128 <= 64 * size as i64);
        let (alloc, _) = celt.allocate(&mut enc, 0, 21, 3, size, true, &front);
        let buf = enc.finalize().expect("fits");
        assert_eq!(buf.len(), size);
        let mut dec = RangeDecoder::new(&buf);
        let (params, _) = CeltDecoder::new(2).decode_frame(&mut dec, size, 960, 2, 0, 21);
        assert!(params.transient && params.intra && !params.silence);
        assert_eq!(params.coarse, steps);
        assert_eq!(params.tf_res, front.tf_res);
        assert_eq!(params.spread, front.spread);
        assert_eq!(params.alloc.coded_bands, alloc.coded_bands);
        assert_eq!(params.alloc.shape_bits, alloc.shape_bits);
        assert_eq!(params.alloc.fine_quant, alloc.fine_quant);
        assert_eq!(params.alloc.intensity, alloc.intensity);
    }
}

#[test]
fn the_default_encoder_is_mono() {
    assert_eq!(CeltEncoder::default(), CeltEncoder::new());
    assert_eq!(CeltEncoder::default().channels, 1);
}

#[test]
fn what_is_searched_for_in_a_frame() {
    let mut celt = CeltEncoder::with_channels(2);
    assert!(celt.seeks_transient(1, 13, 16) && !celt.seeks_transient(1, 14, 16) && !celt.seeks_transient(0, 1, 900));
    assert_eq!(celt.resolution_cost(29, 3), None);
    assert_eq!(celt.resolution_cost(30, 0), None);
    assert_eq!(celt.resolution_cost(30, 3), Some(684));
    assert_eq!(celt.resolution_cost(1275, 3), Some(80));
    assert!(celt.seeks_pitch(25) && !celt.seeks_pitch(24));
    celt.set_complexity(0);
    assert_eq!(celt.resolution_cost(1275, 3), None);
    assert!(!celt.seeks_pitch(1275));
    assert_eq!(celt.shrink_wanted(true), None);
    celt.set_target_bitrate(Some(64_000));
    assert_eq!((celt.shrink_wanted(true), celt.shrink_wanted(false)), (Some(64_000), None));
    let enc = RangeEncoder::new(1275);
    assert!(celt.can_shrink(&enc, 0, 3, 3) && !celt.can_shrink(&enc, 0, 2, 3));
    assert!(celt.can_shrink(&enc, 64 * 1272, 1275, 3) && !celt.can_shrink(&enc, 64 * 1273, 1275, 3));
    assert!(!celt.can_shrink(&enc, 64 * 200, 1275, 0));
    let mut small = RangeEncoder::new(2);
    assert_eq!(celt.shrink_to_target(&mut small, 4000, 0, 2, 3), 2, "there is no room to shrink");
    assert_eq!(small.finalize().expect("fits").len(), 2);
}
