use opus_rs::celt::decoder::CeltDecoder;
use opus_rs::decoder::{
    conceal_chunks, end_band, read_redundancy, FecPlan, MainPart, OpusDecoder, PacketAction, Redundancy,
    TransitionFade,
};
use opus_rs::packet::{Bandwidth, Mode, PacketError};
use opus_rs::range::{RangeDecoder, RangeEncoder};

const NONE: Redundancy = Redundancy { present: false, celt_to_silk: false, bytes: 0, len: 60 };

fn decode(d: &mut OpusDecoder, celt: &mut CeltDecoder, mode: Mode, bw: Bandwidth, data: &[u8]) {
    let mut dec = RangeDecoder::new(data);
    let red = Redundancy { len: data.len(), ..NONE };
    d.decode_frame(celt, &mut dec, data, mode, bw, 960, red);
}

#[test]
fn bands_of_the_bandwidths() {
    assert_eq!(end_band(Bandwidth::NarrowBand), 13);
    assert_eq!(end_band(Bandwidth::MediumBand), 17);
    assert_eq!(end_band(Bandwidth::WideBand), 17);
    assert_eq!(end_band(Bandwidth::SuperWideBand), 19);
    assert_eq!(end_band(Bandwidth::FullBand), 21);
}

#[test]
fn packets_are_told_apart() {
    let mut d = OpusDecoder::new(1);
    match d.decode_packet(&[0xF8]).expect("no audio") {
        PacketAction::Conceal(n) => assert_eq!(n, 120),
        PacketAction::Frames(_) => panic!("a lone head holds no audio"),
    }
    match d.decode_packet(&[0xFC, 1, 2, 3]).expect("audio") {
        PacketAction::Frames(p) => assert_eq!(p.frame(0), &[1, 2, 3]),
        PacketAction::Conceal(_) => panic!("it holds audio"),
    }
    assert_eq!(d.stream_channels, 2);
    assert!(matches!(d.decode_packet(&[]), Ok(PacketAction::Conceal(120))));
    assert_eq!(d.decode_packet(&[0xF9, 1, 2, 3, 4, 5]).err(), Some(PacketError::OddLength));
}

#[test]
fn gaps_are_cut_into_frames() {
    assert_eq!(conceal_chunks(960, 960), [960]);
    assert_eq!(conceal_chunks(2880, 960), [960, 960, 960]);
    assert_eq!(conceal_chunks(0, 960), [0usize; 0]);
    let odd = conceal_chunks(1080, 960);
    assert_eq!(odd.iter().sum::<usize>(), 1080);
    assert!(odd.iter().all(|c| [120, 240, 480, 960].contains(c)));
}

#[test]
fn transform_frames_follow_each_other() {
    let mut d = OpusDecoder::new(2);
    let mut celt = CeltDecoder::new(2);
    let data = vec![0xA5u8; 60];
    let start = d.start_frame(Mode::CeltOnly, Bandwidth::FullBand, 960);
    assert!(!start.transition);
    assert_eq!((start.conceal, start.silk, start.silk_calls), (None, None, 0));
    let plan = d.plan_frame(Mode::CeltOnly, Bandwidth::FullBand, 960, NONE);
    assert_eq!(plan.main, MainPart::Frame { size: 960, start: 0, end: 21 });
    assert_eq!(plan.fade, TransitionFade::Off);
    decode(&mut d, &mut celt, Mode::CeltOnly, Bandwidth::FullBand, &data);
    assert_eq!(d.prev_mode, Some(Mode::CeltOnly));
    assert_eq!(d.final_range(), celt.final_range());
    let lost = d.decode_lost(960);
    assert!(lost.silk.is_empty());
    assert_eq!((lost.celt, lost.start, lost.end), (vec![960], 0, 21));
    assert_eq!(d.final_range(), 0);
}

#[test]
fn a_change_of_mode_is_faded() {
    let mut d = OpusDecoder::new(1);
    let mut celt = CeltDecoder::new(1);
    decode(&mut d, &mut celt, Mode::CeltOnly, Bandwidth::FullBand, &[0x5A; 60]);
    let start = d.start_frame(Mode::SilkOnly, Bandwidth::WideBand, 960);
    assert!(start.transition);
    assert!(start.reset_silk);
    let ctl = start.silk.expect("a low band");
    assert_eq!((ctl.internal_sample_rate, ctl.api_sample_rate, ctl.payload_size_ms), (16_000, 48_000, 20));
    let plan = d.plan_frame(Mode::SilkOnly, Bandwidth::WideBand, 960, NONE);
    assert_eq!(plan.fade, TransitionFade::Long);
    // Between the two modes with a low band there is nothing to fade.
    decode(&mut d, &mut celt, Mode::SilkOnly, Bandwidth::WideBand, &[0x5A; 60]);
    assert!(!d.start_frame(Mode::Hybrid, Bandwidth::FullBand, 960).transition);
    assert_eq!(
        d.plan_frame(Mode::Hybrid, Bandwidth::FullBand, 960, NONE).main,
        MainPart::Frame { size: 960, start: 17, end: 21 },
    );
}

#[test]
fn redundant_frames_are_found() {
    // A low-band frame whose last bytes are a redundant frame.
    let mut enc = RangeEncoder::new(30);
    enc.encode_bit_logp(true, 1);
    let buf = enc.finalize().expect("fits");
    let mut dec = RangeDecoder::new(&buf);
    let red = read_redundancy(&mut dec, Mode::SilkOnly, 30);
    assert!(red.present && red.celt_to_silk);
    assert_eq!(red.bytes + red.len, 30);
    // A hybrid frame says whether, and how long.
    let mut enc = RangeEncoder::new(60);
    enc.encode_bit_logp(true, 12);
    enc.encode_bit_logp(false, 1);
    enc.encode_uint(8, 256);
    let buf = enc.finalize().expect("fits");
    let mut dec = RangeDecoder::new(&buf);
    let red = read_redundancy(&mut dec, Mode::Hybrid, 60);
    assert_eq!(red, Redundancy { present: true, celt_to_silk: false, bytes: 10, len: 50 });
    let mut enc = RangeEncoder::new(60);
    enc.encode_bit_logp(false, 12);
    let buf = enc.finalize().expect("fits");
    let mut dec = RangeDecoder::new(&buf);
    assert!(!read_redundancy(&mut dec, Mode::Hybrid, 60).present);
    let data = [0xFFu8; 60];
    let mut dec = RangeDecoder::new(&data);
    assert!(!read_redundancy(&mut dec, Mode::CeltOnly, 60).present);
}

#[test]
fn a_lost_packet_is_restored_from_the_next() {
    let mut d = OpusDecoder::new(1);
    let mut celt = CeltDecoder::new(1);
    decode(&mut d, &mut celt, Mode::SilkOnly, Bandwidth::WideBand, &[0x5A; 30]);
    // Wideband linear prediction, 20 ms.
    let packet = [9 << 3, 1, 2, 3];
    match d.decode_fec(&packet, 960).expect("a packet") {
        FecPlan::Restore { before, ctl, high, mode, bandwidth, size } => {
            assert_eq!((before, high, size), (0, None, 960));
            assert_eq!(ctl.internal_sample_rate, 16_000);
            assert_eq!((mode, bandwidth), (Mode::SilkOnly, Bandwidth::WideBand));
        },
        FecPlan::Conceal(_) => panic!("there is a low band"),
    }
    match d.decode_fec(&packet, 1920).expect("a packet") {
        FecPlan::Restore { before, .. } => assert_eq!(before, 960),
        FecPlan::Conceal(_) => panic!("there is a low band"),
    }
    // A transform packet has nothing to restore from.
    assert_eq!(d.decode_fec(&[0xF8, 1], 960), Ok(FecPlan::Conceal(960)));
    assert_eq!(d.decode_fec(&[], 960), Err(PacketError::Empty));
    let plan = d.decode_fec(&packet, 960).expect("a packet");
    d.finish_fec(plan, 1234);
    assert_eq!((d.final_range(), d.prev_mode), (1234, Some(Mode::SilkOnly)));
}

#[test]
fn lower_output_rates() {
    let mut d = OpusDecoder::with_rate(16_000, 1);
    assert_eq!(d.ds, 3);
    match d.decode_packet(&[0xF8]).expect("no audio") {
        PacketAction::Conceal(n) => assert_eq!(n, 40),
        PacketAction::Frames(_) => panic!("a lone head holds no audio"),
    }
    let mut celt = CeltDecoder::with_rate(1, 16_000);
    assert_eq!(celt.downsample, 3);
    decode(&mut d, &mut celt, Mode::CeltOnly, Bandwidth::WideBand, &[0x11; 40]);
    assert_eq!(d.decode_lost(320).celt, [960]);
}

#[test]
fn only_losses_of_a_packet_are_concealed() {
    let fresh = OpusDecoder::new(1);
    for n in [0usize, 120, 240, 360, 480, 960, 1920, 2880] {
        assert!(fresh.conceals(n), "{n}");
    }
    for n in [1usize, 7, 119, 2881, 5760, usize::MAX] {
        assert!(!fresh.conceals(n), "{n}");
    }
    let mut d = OpusDecoder::new(1);
    let mut celt = CeltDecoder::new(1);
    decode(&mut d, &mut celt, Mode::CeltOnly, Bandwidth::FullBand, &[0x5A; 60]);
    assert!(d.conceals(360) && !d.conceals(130));
    let slow = OpusDecoder::with_rate(8_000, 1);
    assert!(slow.conceals(20) && slow.conceals(480) && !slow.conceals(19) && !slow.conceals(481));
}

#[test]
fn low_band_chunks_have_their_sizes() {
    let mut d = OpusDecoder::new(1);
    let mut celt = CeltDecoder::new(1);
    decode(&mut d, &mut celt, Mode::SilkOnly, Bandwidth::WideBand, &[0x5A; 60]);
    let lost = d.decode_lost(360);
    assert_eq!(lost.silk_sizes, [240, 120]);
    assert_eq!(lost.silk.len(), 2);
    assert!(lost.silk.iter().all(|ctl| ctl.payload_size_ms == 10));
    assert!(lost.celt.is_empty());
    assert_eq!(d.decode_lost(2880).silk_sizes, [960, 960, 960]);
}
