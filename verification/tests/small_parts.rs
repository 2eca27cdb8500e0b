use opus_rs::celt::analysis::{
    boosts_wanted, cap_bytes, choose_intensity, equiv_rate, held_trim, hysteresis_decision, limit_boosts,
    spread_weight, spreading_decision, tf_choose, tf_metric, transient_decision, unmask, vbr_base, vbr_bytes,
    SmallCounts, VbrBase,
};
use opus_rs::celt::pitch::{
    has_neighbours, is_near_best, refined_lag, search_lag, Candidate, Continuity, Doubling, Lean,
};
use opus_rs::celt::vq::{rotation_stride, Spread};
use opus_rs::config::{
    check_input, check_multistream, check_silk_config, check_stereo_input, frame_length, ConfigError,
};
use opus_rs::experimental::{check_frame, detect_mode, sub_band, wants_flatness, EmptyFrameError, Flatness};
use opus_rs::lpc::{normalise_state, pitch_lags, update_state};
use opus_rs::packet::{Bandwidth, Mode};

#[test]
fn empty_frame_is_rejected() {
    assert_eq!(check_frame(0), Err(EmptyFrameError));
    assert_eq!(check_frame(1), Ok(()));
}

#[test]
fn mode_detection_respects_bandwidth_constraints() {
    assert_eq!(detect_mode(960, Bandwidth::NarrowBand, Flatness::Flat), Mode::SilkOnly);
    assert_eq!(detect_mode(960, Bandwidth::MediumBand, Flatness::Flat), Mode::SilkOnly);
    assert_eq!(detect_mode(960, Bandwidth::FullBand, Flatness::Flat), Mode::CeltOnly);
    assert_eq!(detect_mode(960, Bandwidth::WideBand, Flatness::Middling), Mode::Hybrid);
    assert_eq!(detect_mode(7, Bandwidth::WideBand, Flatness::Peaked), Mode::CeltOnly);
    assert!(wants_flatness(8, Bandwidth::WideBand));
    assert!(!wants_flatness(7, Bandwidth::WideBand));
    assert!(!wants_flatness(960, Bandwidth::MediumBand));
}

#[test]
fn mode_detection_peaked_energy_prefers_silk() {
    assert_eq!(detect_mode(960, Bandwidth::FullBand, Flatness::Peaked), Mode::SilkOnly);
    assert_eq!(sub_band(960, 0), (0, 120));
    assert_eq!(sub_band(965, 7), (840, 960));
}

#[test]
fn histories_keep_the_last_samples() {
    let mut h = vec![1, 2, 3, 4, 5];
    normalise_state(&mut h, 3, 0);
    assert_eq!(h, [3, 4, 5]);
    normalise_state(&mut h, 5, 0);
    assert_eq!(h, [0, 0, 3, 4, 5]);
    update_state(&mut h, &[6, 7], 5);
    assert_eq!(h, [3, 4, 5, 6, 7]);
    update_state(&mut h, &[10, 11, 12, 13, 14, 15], 5);
    assert_eq!(h, [11, 12, 13, 14, 15]);
}

#[test]
fn pitch_lags_of_a_rate() {
    assert_eq!(pitch_lags(640, 16_000), Some((32, 320)));
    assert_eq!(pitch_lags(100, 16_000), Some((32, 50)));
    assert_eq!(pitch_lags(60, 16_000), None);
    assert_eq!(pitch_lags(1000, 500), Some((2, 10)));
}

#[test]
fn set_ups_are_checked() {
    assert_eq!(check_silk_config(16, 4), Ok(()));
    assert_eq!(check_silk_config(24, 4), Err(ConfigError::InternalRate));
    assert_eq!(check_silk_config(8, 3), Err(ConfigError::Subframes));
    assert_eq!(frame_length(16, 4), 320);
    assert_eq!(frame_length(8, 2), 80);
    assert_eq!(check_input(8, 2, 160), Ok(()));
    assert_eq!(check_input(8, 2, 0), Err(ConfigError::InputLength));
    assert_eq!(check_input(8, 2, 100), Err(ConfigError::InputLength));
    assert_eq!(check_stereo_input(12, 4, 240, 240), Ok(()));
    assert_eq!(check_stereo_input(12, 4, 240, 480), Err(ConfigError::ChannelLengths));
    assert_eq!(check_stereo_input(12, 4, 241, 241), Err(ConfigError::InputLength));
    assert_eq!(check_multistream(2, 1, &[0, 1, 2, 255], 48_000), Ok(()));
    assert_eq!(check_multistream(0, 0, &[0], 48_000), Err(ConfigError::Streams));
    assert_eq!(check_multistream(2, 3, &[0], 48_000), Err(ConfigError::Streams));
    assert_eq!(check_multistream(200, 100, &[0], 48_000), Err(ConfigError::Streams));
    assert_eq!(check_multistream(1, 1, &[0], 44_100), Err(ConfigError::OutputRate));
    assert_eq!(check_multistream(1, 1, &[2], 48_000), Err(ConfigError::Mapping));
    assert_eq!(check_multistream(1, 1, &[], 48_000), Err(ConfigError::NoChannel));
}

#[test]
fn shorter_periods_are_candidates() {
    let d = Doubling::new(1024, 30, 960, 600, 302);
    assert_eq!((d.longest, d.shortest, d.period, d.previous, d.span), (512, 15, 300, 151, 480));
    assert_eq!(
        d.candidate(2),
        Some(Candidate { period: 150, multiple: 450, continuity: Continuity::Full, short: false }),
    );
    assert_eq!(
        d.candidate(3),
        Some(Candidate { period: 100, multiple: 200, continuity: Continuity::Nothing, short: false }),
    );
    assert_eq!(d.candidate(7).map(|c| (c.period, c.short)), Some((43, true)));
    let short = Doubling::new(1024, 30, 960, 60, 0);
    assert_eq!(short.candidate(3), None);
    let near = Doubling::new(1024, 30, 960, 600, 304);
    assert_eq!(near.candidate(2).map(|c| c.continuity), Some(Continuity::Half));
    assert_eq!(Doubling::new(1024, 30, 960, 5000, 0).period, 511);
    assert_eq!(Doubling::new(700, 30, 960, 600, 0).candidate(2).map(|c| c.multiple), Some(300));
}

#[test]
fn lags_lean() {
    assert_eq!(search_lag(50, Lean::Up), 99);
    assert_eq!(search_lag(50, Lean::Down), 101);
    assert_eq!(search_lag(0, Lean::Neither), 0);
    assert_eq!(refined_lag(50, Lean::Up, 30), 101);
    assert_eq!(refined_lag(50, Lean::Down, 30), 99);
    assert_eq!(refined_lag(10, Lean::Neither, 30), 30);
    assert!(is_near_best(12, 5, 100));
    assert!(!is_near_best(13, 5, 100));
    assert!(has_neighbours(1, 3));
    assert!(!has_neighbours(2, 3));
    assert!(!has_neighbours(0, 3));
}

#[test]
fn decisions_have_slack() {
    let t = [10, 20, 30];
    let h = [2, 2, 2];
    assert_eq!(hysteresis_decision(21, &t, &h, 1), 1);
    assert_eq!(hysteresis_decision(22, &t, &h, 1), 2);
    assert_eq!(hysteresis_decision(19, &t, &h, 2), 2);
    assert_eq!(hysteresis_decision(5, &t, &h, 3), 0);
    assert_eq!(hysteresis_decision(99, &t, &h, 0), 3);
    assert!(choose_intensity(1_000_000, 0, 0, 21) == 21);
    assert!(choose_intensity(0, 0, 0, 21) < 21);
}

#[test]
fn rates_of_frames() {
    // 100 bytes in 20 ms are 40 kb/s.
    assert_eq!(equiv_rate(100, 3, 1), 40_000);
    assert_eq!(cap_bytes(2000, 3), 1275);
    assert_eq!(cap_bytes(2000, 0), 159);
    assert_eq!(cap_bytes(100, 3), 100);
    assert_eq!(vbr_bytes(6400, 0, 0, 1275), 100);
    assert_eq!(vbr_bytes(0, 640, 640, 1275), 22);
    assert_eq!(vbr_bytes(640_000, 0, 0, 50), 50);
    assert_eq!(
        vbr_base(64_000, 1, 3, 0, 21),
        VbrBase { target: 10_240 - 480, bins: 800, stereo_shapes: 0 },
    );
    assert_eq!(
        vbr_base(64_000, 2, 3, 21, 8),
        VbrBase { target: 10_240 - 800, bins: 800 + 64, stereo_shapes: 64 - 8 },
    );
}

#[test]
fn boosts_are_limited() {
    assert!(boosts_wanted(45, 3));
    assert!(!boosts_wanted(44, 3));
    let (offsets, spent) = limit_boosts(&[0; 21], 0, 21, 1, 3, 100);
    assert_eq!((offsets, spent), ([0; 21], 0));
    let mut want = [0; 21];
    want[0] = 2;
    let (offsets, spent) = limit_boosts(&want, 0, 21, 1, 3, 100);
    assert_eq!(offsets[0], 2);
    assert!(spent > 0);
    let (_, all) = limit_boosts(&[32; 21], 0, 21, 2, 3, 60);
    assert!(all <= 64 * 2 * 60 / 3);
    assert_eq!(held_trim(-3), 0);
    assert_eq!(held_trim(11), 10);
    assert_eq!(held_trim(5), 5);
    assert_eq!(
        [1, 0, -1, -2, -3, -4, -5, -9].map(spread_weight),
        [32, 32, 16, 8, 4, 2, 1, 1],
    );
}

#[test]
fn spread_follows_the_small_values() {
    let flat = vec![SmallCounts { quarter: 0, sixteenth: 0, sixty_fourth: 0 }; 21];
    let mut average = 256;
    let b = spreading_decision(&flat, &[32; 21], &mut average, Spread::Normal, 21, 1, 3);
    assert_eq!((b, average), (Spread::Normal, 128));
    let mut average = 0;
    let a = spreading_decision(&flat, &[32; 21], &mut average, Spread::Normal, 21, 1, 3);
    assert_eq!(a, Spread::Aggressive);
    assert_eq!(spreading_decision(&flat[..1], &[32; 21], &mut average, Spread::Normal, 1, 1, 0), Spread::Off);
    assert_eq!(Spread::from_raw(0), Spread::Off);
    assert_eq!(Spread::from_raw(3), Spread::Aggressive);
    assert_eq!(Spread::Light.raw(), 1);
    assert_eq!(Spread::Light.factor(), Some(15));
    assert_eq!(Spread::Off.factor(), None);
    assert_eq!(rotation_stride(7, 1), 0);
    assert!(rotation_stride(64, 1) > 1);
}

#[test]
fn transients_stand_out() {
    assert_eq!(transient_decision(201, None), (true, 201, 0));
    assert_eq!(transient_decision(200, None), (false, 200, 0));
    assert_eq!(transient_decision(100, Some(300)), (true, 300, 1));
    assert_eq!(transient_decision(300, Some(100)), (true, 300, 0));
    assert!(unmask(&[0; 60], 60) > unmask(&[127; 60], 60));
}

#[test]
fn resolutions_follow_their_metric() {
    let metric = [0; 21];
    let (flags, _) = tf_choose(&metric, &[13; 21], 21, false, 3, 80);
    assert!(flags.iter().all(|f| *f == flags[0]), "no reason to change");
    // A level of two in a long frame is a metric of minus four.
    assert_eq!(tf_metric(2, false, false, 3), -4);
}
