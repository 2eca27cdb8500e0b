use opus_rs::encoder::{
    compute_silk_rate_for_hybrid, detected_bandwidth, encode_no_redundancy, encode_ogg_opus, frame_packet, Application, AutoPlan,
    CeltPlan, ChosenMode, EncodeError, HybridPlan, OpusEncoder, Signal, SilkPlan,
};
use opus_rs::ogg::opus::OggOpusReader;
use opus_rs::packet::{Bandwidth, Mode, Toc};
use opus_rs::range::{RangeDecoder, RangeEncoder};

#[test]
fn config_getters_mirror_setters() {
    let mut enc = OpusEncoder::new(2);
    enc.set_complexity(7);
    enc.set_bitrate(Some(48_000));
    enc.set_bandwidth(Bandwidth::WideBand);
    enc.set_dtx(true);
    assert_eq!(enc.channels(), 2);
    assert_eq!(enc.complexity(), 7);
    assert_eq!(enc.bitrate(), Some(48_000));
    assert_eq!(enc.bandwidth(), Bandwidth::WideBand);
    assert!(enc.dtx());
}

#[test]
fn defaults_and_clamps() {
    let mut enc = OpusEncoder::new(1);
    assert_eq!(enc.complexity(), 5);
    assert!(enc.vbr());
    assert_eq!(enc.bandwidth(), Bandwidth::FullBand);
    assert_eq!(enc.lookahead(), 120);
    assert_eq!(enc.final_range(), 0);
    enc.set_complexity(200);
    assert_eq!(enc.complexity(), 10);
    enc.set_packet_loss_perc(101);
    assert_eq!(enc.packet_loss_perc(), 100);
    enc.set_inband_fec(true);
    assert!(enc.inband_fec());
    enc.set_final_range(7);
    enc.finish_auto(&[0x40, 1]);
    enc.reset();
    assert_eq!((enc.final_range(), enc.last_toc), (0, 0));
    assert_eq!((enc.complexity(), enc.packet_loss_perc(), enc.inband_fec()), (10, 100, true));
}

#[test]
fn signal_application_bandwidth_controls_round_trip() {
    let mut enc = OpusEncoder::new(1);
    assert_eq!(enc.signal(), Signal::Auto);
    assert_eq!(enc.application(), Application::Audio);
    assert!(!enc.bandwidth_forced());
    enc.set_signal(Signal::Voice);
    enc.set_application(Application::RestrictedLowDelay);
    enc.set_max_bandwidth(Bandwidth::MediumBand);
    enc.set_bandwidth(Bandwidth::WideBand);
    assert_eq!(enc.signal(), Signal::Voice);
    assert_eq!(enc.application(), Application::RestrictedLowDelay);
    assert_eq!(enc.max_bandwidth(), Bandwidth::MediumBand);
    assert!(enc.bandwidth_forced());
    enc.set_auto_bandwidth();
    assert!(!enc.bandwidth_forced());
}

#[test]
fn force_channels_getter_setter() {
    let mut stereo = OpusEncoder::new(2);
    assert_eq!(stereo.force_channels(), None);
    stereo.set_force_channels(Some(1));
    assert_eq!(stereo.force_channels(), Some(1));
    assert_eq!(stereo.coded_channels(), 1);
    assert_eq!(stereo.celt.channels, 1);
    stereo.set_force_channels(None);
    assert_eq!(stereo.force_channels(), None);
    assert_eq!(stereo.coded_channels(), 2);
    let mut mono = OpusEncoder::new(1);
    mono.set_force_channels(Some(2));
    assert_eq!(mono.force_channels(), Some(2));
    assert_eq!(mono.coded_channels(), 1);
}

#[test]
fn rejects_bad_inputs() {
    let enc = OpusEncoder::new(1);
    assert_eq!(enc.encode(100, 64), Err(EncodeError::InvalidFrameSize));
    assert_eq!(enc.encode(960, 2), Err(EncodeError::InvalidBudget));
    assert_eq!(enc.encode(960, 2000), Err(EncodeError::InvalidBudget));
    let mut stereo = OpusEncoder::new(2);
    assert_eq!(stereo.encode(961, 64), Err(EncodeError::InvalidFrameSize));
    assert_eq!(stereo.encode_silk(960, 1276), Err(EncodeError::InvalidBudget));
    assert_eq!(stereo.encode_silk(480, 100), Err(EncodeError::InvalidFrameSize));
    assert_eq!(stereo.encode_hybrid(3840, 100), Err(EncodeError::InvalidFrameSize));
    assert_eq!(stereo.encode_hybrid(1920, 2), Err(EncodeError::InvalidBudget));
    stereo.set_bandwidth(Bandwidth::WideBand);
    assert_eq!(stereo.encode_hybrid(1920, 100), Err(EncodeError::InvalidFrameSize));
    assert_eq!(stereo.start_auto(961, true), Err(EncodeError::InvalidFrameSize));
    assert_eq!(stereo.encode_auto(700, Bandwidth::FullBand, false, false), Err(EncodeError::InvalidFrameSize));
}

#[test]
fn vbr_off_codes_constant_bitrate() {
    let mut cbr = OpusEncoder::new(1);
    cbr.set_bitrate(Some(64_000));
    cbr.set_vbr(false);
    assert!(!cbr.vbr());
    let plan = cbr.encode(960, 1275).expect("a plan");
    assert_eq!(plan.nb_bytes, 64_000 * 960 / 384_000);
    assert_eq!(plan.target_bitrate, None);
    cbr.set_vbr(true);
    let plan = cbr.encode(960, 1275).expect("a plan");
    assert_eq!((plan.nb_bytes, plan.target_bitrate), (1274, Some(64_000)));
    cbr.set_vbr(false);
    cbr.set_bitrate(Some(100));
    assert_eq!(cbr.encode(120, 1275).map(|p| p.nb_bytes), Ok(2));
    cbr.set_bitrate(Some(u32::MAX));
    assert_eq!(cbr.encode(960, 300).map(|p| p.nb_bytes), Ok(299));
}

#[test]
fn transform_heads_name_the_frame() {
    let bands = [
        (Bandwidth::NarrowBand, Bandwidth::NarrowBand, 13),
        (Bandwidth::MediumBand, Bandwidth::WideBand, 17),
        (Bandwidth::WideBand, Bandwidth::WideBand, 17),
        (Bandwidth::SuperWideBand, Bandwidth::SuperWideBand, 19),
        (Bandwidth::FullBand, Bandwidth::FullBand, 21),
    ];
    for (bw, coded, end) in bands {
        for (lm, n) in [120usize, 240, 480, 960].iter().enumerate() {
            let mut enc = OpusEncoder::new(2);
            enc.set_bandwidth(bw);
            let plan: CeltPlan = enc.encode(2 * n, 100).expect("a plan");
            let toc = Toc::new(plan.toc);
            assert_eq!(toc.mode(), Mode::CeltOnly);
            assert_eq!(toc.bandwidth(), coded);
            assert_eq!(toc.frame_size().samples_per_channel_48k(), *n);
            assert!(toc.stereo());
            assert_eq!(toc.frame_count_code(), 0);
            assert_eq!((plan.lm, plan.end, plan.nb_bytes), (lm, end, 99));
            enc.set_force_channels(Some(1));
            assert!(!Toc::new(enc.encode(2 * n, 100).expect("a plan").toc).stereo());
        }
    }
}

#[test]
fn low_band_plans() {
    let mut enc = OpusEncoder::new(1);
    enc.set_bandwidth(Bandwidth::MediumBand);
    let plan: SilkPlan = enc.encode_silk(480, 50).expect("a plan");
    assert_eq!((plan.internal_khz, plan.nb_subfr, plan.bitrate, plan.cap), (12, 2, 20_000, 49));
    assert!(plan.fresh);
    let toc = Toc::new(plan.toc);
    assert_eq!((toc.mode(), toc.bandwidth()), (Mode::SilkOnly, Bandwidth::MediumBand));
    assert!(!enc.encode_silk(480, 50).expect("a plan").fresh, "the coder is set up");
    assert!(enc.encode_silk(960, 50).expect("a plan").fresh, "other parts");
    enc.set_bandwidth(Bandwidth::FullBand);
    enc.set_bitrate(Some(500_000));
    let plan = enc.encode_silk(2880, 50).expect("a plan");
    assert_eq!((plan.internal_khz, plan.nb_subfr, plan.bitrate), (16, 4, 80_000));
    assert_eq!(Toc::new(plan.toc).bandwidth(), Bandwidth::WideBand);
    enc.set_bitrate(Some(100));
    assert_eq!(enc.encode_silk(2880, 50).map(|p| p.bitrate), Ok(5_000));
    assert_eq!(plan.finish(&[0; 50]), Err(EncodeError::InvalidBudget));
    assert_eq!(plan.finish(&[7; 49]).map(|p| (p.len(), p[0])), Ok((50, plan.toc)));
}

#[test]
fn hybrid_plans() {
    let mut enc = OpusEncoder::new(1);
    enc.set_bandwidth(Bandwidth::SuperWideBand);
    let plan: HybridPlan = enc.encode_hybrid(960, 1275).expect("a plan");
    // 32 kb/s for 20 ms are 80 bytes; 9 of them are kept for two high bands.
    assert_eq!((plan.nb_bytes, plan.end, plan.nb_subfr), (80, 19, 4));
    assert_eq!(plan.silk_bits, 8 * (80 - 9));
    assert_eq!(plan.silk_bps, 22_000 + 300);
    assert_eq!(Toc::new(plan.toc).mode(), Mode::Hybrid);
    enc.set_bandwidth(Bandwidth::FullBand);
    enc.set_bitrate(Some(8_000));
    let plan = enc.encode_hybrid(480, 1275).expect("a plan");
    assert_eq!((plan.nb_bytes, plan.end, plan.silk_bits), (20, 21, 64));
    enc.set_bitrate(Some(600_000));
    assert_eq!(enc.encode_hybrid(960, 500).map(|p| p.nb_bytes), Ok(499), "the head is counted");
}

#[test]
fn hybrid_packets_fit_their_budget() {
    for rate in [None, Some(8_000u32), Some(32_000), Some(600_000), Some(3_000_000_000)] {
        let mut enc = OpusEncoder::new(2);
        enc.set_bandwidth(Bandwidth::FullBand);
        enc.set_bitrate(rate);
        for len in [960usize, 1920] {
            for max_bytes in 3..=20 {
                assert_eq!(enc.encode_hybrid(len, max_bytes).err(), Some(EncodeError::InvalidBudget));
            }
            for max_bytes in 21..=1275 {
                let plan = enc.encode_hybrid(len, max_bytes).expect("a plan");
                assert!(20 <= plan.nb_bytes && 1 + plan.nb_bytes <= max_bytes);
                assert_eq!(Toc::new(plan.toc).mode(), Mode::Hybrid);
            }
            assert_eq!(enc.encode_hybrid(len, 2).err(), Some(EncodeError::InvalidBudget));
            assert_eq!(enc.encode_hybrid(len, 1276).err(), Some(EncodeError::InvalidBudget));
        }
    }
}

#[test]
fn low_band_rates() {
    let want = [
        (0, 0),
        (6_000, 5_000),
        (12_000, 10_000),
        (14_000, 11_750),
        (16_000, 13_500),
        (20_000, 16_000),
        (24_000, 18_000),
        (28_000, 20_000),
        (32_000, 22_000),
        (48_000, 30_000),
        (64_000, 38_000),
        (74_000, 43_000),
    ];
    for (rate, low) in want {
        assert_eq!(compute_silk_rate_for_hybrid(rate, false, 1), low, "{rate}");
        assert_eq!(compute_silk_rate_for_hybrid(rate, true, 1), low + 300, "{rate}");
        assert_eq!(compute_silk_rate_for_hybrid(2 * rate, false, 2), 2 * low, "{rate}");
    }
}

#[test]
fn encode_auto_dispatches_and_round_trips() {
    let cases = [
        (240usize, Bandwidth::FullBand, None, 'c'),
        (1920, Bandwidth::WideBand, Some(20_000u32), 's'),
        (960, Bandwidth::WideBand, Some(16_000), 's'),
        (960, Bandwidth::SuperWideBand, Some(32_000), 'h'),
        (960, Bandwidth::FullBand, Some(64_000), 'c'),
        (480, Bandwidth::WideBand, None, 'c'),
    ];
    for (spf, bw, br, want_mode) in cases {
        let mut enc = OpusEncoder::new(1);
        enc.set_bandwidth(bw);
        enc.set_bitrate(br);
        assert_eq!(enc.start_auto(spf, true), Ok(None));
        let mode = match enc.encode_auto(spf, bw, false, false) {
            Ok(AutoPlan::Silk) => 's',
            Ok(AutoPlan::HybridOrCelt) => 'h',
            Ok(AutoPlan::Celt) => 'c',
            Err(_) => 'e',
        };
        assert_eq!(mode, want_mode, "mode for spf={spf} bw={bw:?} br={br:?}");
    }
}

#[test]
fn analysis_routes_speech_to_silk_family() {
    let mut enc = OpusEncoder::new(1);
    enc.set_application(Application::Voip);
    enc.set_bitrate(Some(20_000));
    assert!(!enc.bandwidth_forced());
    assert!(enc.needs_analysis(960));
    assert_eq!(enc.encode_auto(960, Bandwidth::MediumBand, false, true), Ok(AutoPlan::Silk));
    enc.set_bitrate(Some(64_000));
    assert_eq!(enc.encode_auto(960, Bandwidth::FullBand, false, true), Ok(AutoPlan::HybridOrCelt));
    assert_eq!(enc.encode_auto(960, Bandwidth::FullBand, false, false), Ok(AutoPlan::Celt));
}

#[test]
fn analysis_routes_music_to_celt() {
    let mut enc = OpusEncoder::new(1);
    enc.set_signal(Signal::Music);
    enc.set_bitrate(Some(24_000));
    assert_eq!(enc.encode_auto(960, Bandwidth::FullBand, true, false), Ok(AutoPlan::Celt));
    assert_eq!(enc.bandwidth(), Bandwidth::SuperWideBand);
    assert_eq!(enc.decide_mode(Bandwidth::WideBand, true, false), ChosenMode::Celt);
    assert_eq!(enc.decide_mode(Bandwidth::WideBand, false, false), ChosenMode::Silk);
}

#[test]
fn restricted_low_delay_is_always_celt() {
    for &(spf, bw, br) in &[
        (480usize, Bandwidth::WideBand, Some(16_000u32)),
        (960, Bandwidth::SuperWideBand, Some(32_000)),
        (960, Bandwidth::FullBand, Some(64_000)),
    ] {
        let mut enc = OpusEncoder::new(1);
        enc.set_application(Application::RestrictedLowDelay);
        enc.set_signal(Signal::Voice);
        enc.set_bandwidth(bw);
        enc.set_bitrate(br);
        assert!(!enc.mode_decision_uses_analysis());
        assert!(!enc.needs_analysis(spf));
        assert_eq!(enc.encode_auto(spf, bw, false, true), Ok(AutoPlan::Celt));
        assert!(enc.encode(spf, 1275).expect("a plan").toc >> 3 >= 16);
    }
}

#[test]
fn restricted_low_delay_refuses_long_frames() {
    for channels in [1usize, 2] {
        let mut enc = OpusEncoder::new(channels);
        for n in [1920usize, 2880] {
            assert_eq!(enc.encode_auto(n, Bandwidth::FullBand, false, true), Ok(AutoPlan::Silk));
        }
        enc.set_application(Application::RestrictedLowDelay);
        for (musical, spoken) in [(false, false), (true, false), (false, true)] {
            for n in [1920usize, 2880] {
                let r = enc.encode_auto(n, Bandwidth::WideBand, musical, spoken);
                assert_eq!(r, Err(EncodeError::InvalidFrameSize));
            }
            for n in [120usize, 240, 480, 960] {
                assert_eq!(enc.encode_auto(n, Bandwidth::WideBand, musical, spoken), Ok(AutoPlan::Celt));
            }
        }
    }
}

#[test]
fn restricted_low_delay_repeats_no_head_of_another_mode() {
    let mut enc = OpusEncoder::new(1);
    enc.set_dtx(true);
    enc.finish_auto(&[0x48, 1, 2]);
    enc.set_application(Application::RestrictedLowDelay);
    for _ in 0..30 {
        assert_eq!(enc.start_auto(960, false), Ok(None));
    }
    enc.finish_auto(&[0xF8, 1, 2]);
    assert!((0..30).any(|_| enc.start_auto(960, false) == Ok(Some(0xF8))));
}

#[test]
fn auto_bandwidth_respects_max_bandwidth() {
    for &cap in &[Bandwidth::NarrowBand, Bandwidth::WideBand, Bandwidth::SuperWideBand] {
        let mut enc = OpusEncoder::new(1);
        enc.set_auto_bandwidth();
        enc.set_max_bandwidth(cap);
        enc.set_bitrate(Some(48_000));
        assert_eq!(enc.max_bandwidth(), cap);
        assert!(enc.encode_auto(960, Bandwidth::FullBand, false, false).is_ok());
        let plan = enc.encode(960, 1275).expect("a plan");
        assert!(Toc::new(plan.toc).bandwidth().rank() <= cap.rank());
    }
}

#[test]
fn rates_narrow_the_bandwidth() {
    let mut enc = OpusEncoder::new(1);
    for (rate, want) in [
        (Some(10_999), Bandwidth::NarrowBand),
        (Some(13_999), Bandwidth::MediumBand),
        (Some(23_999), Bandwidth::WideBand),
        (Some(41_999), Bandwidth::SuperWideBand),
        (Some(42_000), Bandwidth::FullBand),
        (None, Bandwidth::FullBand),
    ] {
        enc.set_bitrate(rate);
        assert_eq!(enc.auto_bandwidth(Bandwidth::FullBand), want);
        assert_eq!(enc.auto_bandwidth(Bandwidth::NarrowBand), Bandwidth::NarrowBand);
    }
    assert_eq!(detected_bandwidth([false; 4]), Bandwidth::NarrowBand);
    assert_eq!(detected_bandwidth([true, false, false, false]), Bandwidth::MediumBand);
    assert_eq!(detected_bandwidth([true, true, false, false]), Bandwidth::WideBand);
    assert_eq!(detected_bandwidth([false, false, true, false]), Bandwidth::SuperWideBand);
    assert_eq!(detected_bandwidth([false, false, false, true]), Bandwidth::FullBand);
}

#[test]
fn dtx_collapses_the_silence_bitrate() {
    let mut enc = OpusEncoder::new(1);
    enc.set_dtx(true);
    assert!(enc.wants_activity(960));
    assert!(!enc.wants_activity(240));
    assert_eq!(enc.start_auto(960, true), Ok(None));
    enc.finish_auto(&[0xF8, 1, 2]);
    // 200 ms go on as before, then nothing is sent for 400 ms, then one frame is.
    for k in 0..10 {
        assert_eq!(enc.start_auto(960, false), Ok(None), "frame {k}");
    }
    for k in 0..20 {
        assert_eq!(enc.start_auto(960, false), Ok(Some(0xF8)), "frame {k}");
        assert_eq!(enc.final_range(), 0);
    }
    assert_eq!(enc.start_auto(960, false), Ok(None));
    assert_eq!(enc.start_auto(960, false), Ok(Some(0xF8)));
    assert_eq!(enc.start_auto(960, true), Ok(None));
    assert_eq!(enc.start_auto(960, false), Ok(None));
    // A short frame ends the run.
    for _ in 0..9 {
        assert_eq!(enc.start_auto(960, false), Ok(None));
    }
    assert_eq!(enc.start_auto(240, false), Ok(None));
    assert_eq!(enc.start_auto(960, false), Ok(None));
}

#[test]
fn hybrid_frames_say_that_they_have_no_redundant_frame() {
    let mut enc = RangeEncoder::new(20);
    encode_no_redundancy(&mut enc, 20);
    let range = enc.range_size();
    assert_ne!(range, 0x8000_0000);
    let buf = enc.finalize().expect("fits");
    let mut dec = RangeDecoder::new(&buf);
    assert!(!dec.decode_bit_logp(12));
    assert_eq!(dec.range_size(), range);
    let mut full = RangeEncoder::new(4);
    encode_no_redundancy(&mut full, 4);
    assert_eq!(full.range_size(), 0x8000_0000, "no room for the flag");
    assert_eq!(frame_packet(9, &[1, 2]), [9, 1, 2]);
}

#[test]
fn heads_of_the_low_band_modes() {
    let mut enc = OpusEncoder::new(2);
    enc.set_bandwidth(Bandwidth::MediumBand);
    let plan = enc.encode_silk(2 * 1920, 200).expect("40 ms");
    let toc = Toc::new(plan.toc);
    assert_eq!(toc.mode(), Mode::SilkOnly);
    assert_eq!(toc.bandwidth(), Bandwidth::MediumBand);
    assert_eq!(toc.frame_size().samples_per_channel_48k(), 1920);
    assert!(toc.stereo());
    assert_eq!(toc.frame_count_code(), 0);
    assert_eq!(plan.internal_khz, 12);
    enc.set_bandwidth(Bandwidth::SuperWideBand);
    let plan = enc.encode_hybrid(2 * 480, 200).expect("10 ms");
    let toc = Toc::new(plan.toc);
    assert_eq!(toc.mode(), Mode::Hybrid);
    assert_eq!(toc.bandwidth(), Bandwidth::SuperWideBand);
    assert_eq!(toc.frame_size().samples_per_channel_48k(), 480);
    assert!(toc.stereo());
}

#[test]
fn a_files_delay_is_that_of_its_mode() {
    for (bitrate, pre_skip, mode) in
        [(64_000, 120, ChosenMode::Celt), (40_001, 120, ChosenMode::Celt), (40_000, 69, ChosenMode::Hybrid)]
    {
        let file = encode_ogg_opus(&[vec![0xFC, 1, 2]], 2, bitrate);
        let reader = OggOpusReader::new(&file).expect("a file");
        assert_eq!(reader.head().pre_skip, pre_skip);
        assert_eq!(reader.pcm_duration_48k(), Some(960));
        let mut enc = OpusEncoder::new(2);
        enc.set_bitrate(Some(bitrate));
        assert_eq!(enc.decide_mode(Bandwidth::FullBand, false, false), mode);
    }
}

#[test]
fn the_frame_size_can_decide_the_mode() {
    let mut enc = OpusEncoder::new(1);
    enc.set_signal(Signal::Voice);
    enc.set_bitrate(Some(12_000));
    for (n, plan) in [(120, AutoPlan::Celt), (240, AutoPlan::Celt), (1920, AutoPlan::Silk), (2880, AutoPlan::Silk)] {
        assert_eq!(enc.encode_auto(n, Bandwidth::NarrowBand, false, true), Ok(plan));
        assert_eq!(enc.encode_auto(n, Bandwidth::NarrowBand, true, false), Ok(plan));
    }
    assert_eq!(enc.encode_auto(360, Bandwidth::NarrowBand, false, true), Err(EncodeError::InvalidFrameSize));
}

#[test]
fn packets_keep_within_their_bytes() {
    for max_bytes in [3usize, 4, 20, 700, 1275] {
        for (vbr, rate) in [(true, None), (true, Some(64_000)), (false, Some(64_000)), (false, Some(4_000_000_000))] {
            let mut enc = OpusEncoder::new(1);
            enc.set_vbr(vbr);
            enc.set_bitrate(rate);
            let plan = enc.encode(960, max_bytes).expect("a plan");
            assert!(plan.nb_bytes >= 2 && plan.nb_bytes < max_bytes);
            assert_eq!(enc.encode_silk(960, max_bytes).map(|p| p.cap), Ok(max_bytes - 1));
        }
    }
}

#[test]
fn every_automatic_choice_can_be_encoded() {
    for channels in [1usize, 2] {
        for n in [120usize, 240, 480, 960, 1920, 2880] {
            for rate in [None, Some(8_000), Some(30_000), Some(128_000)] {
                for bw in [Bandwidth::NarrowBand, Bandwidth::WideBand, Bandwidth::FullBand] {
                    let mut enc = OpusEncoder::new(channels);
                    enc.set_signal(Signal::Voice);
                    enc.set_bitrate(rate);
                    enc.set_bandwidth(bw);
                    let len = n * channels;
                    match enc.encode_auto(n, bw, false, true).expect("a choice") {
                        AutoPlan::Celt => assert!(enc.encode(len, 1275).is_ok()),
                        AutoPlan::Silk => assert!(enc.encode_silk(len, 1275).is_ok()),
                        AutoPlan::HybridOrCelt => {
                            assert!(enc.encode_hybrid(len, 1275).is_ok());
                            assert!(enc.encode(len, 1275).is_ok());
                        },
                    }
                }
            }
        }
    }
}

#[test]
fn a_very_long_frame_is_refused() {
    let mut enc = OpusEncoder::new(1);
    assert_eq!(enc.start_auto(3_000_000_000, true), Ok(None));
    assert_eq!(enc.encode_auto(3_000_000_000, Bandwidth::FullBand, false, false).err(), Some(EncodeError::InvalidFrameSize));
    let mut stereo = OpusEncoder::new(2);
    stereo.set_dtx(true);
    assert_eq!(stereo.start_auto(3_000_000_001, true), Err(EncodeError::InvalidFrameSize));
}
