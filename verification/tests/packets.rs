use opus_rs::packet::{packet_samples_48k, Bandwidth, FrameSize, Mode, Packet, PacketError, Toc};

#[test]
fn configurations() {
    let want = [
        (0, Mode::SilkOnly, Bandwidth::NarrowBand, FrameSize::Ms10, 480),
        (3, Mode::SilkOnly, Bandwidth::NarrowBand, FrameSize::Ms60, 2880),
        (5, Mode::SilkOnly, Bandwidth::MediumBand, FrameSize::Ms20, 960),
        (10, Mode::SilkOnly, Bandwidth::WideBand, FrameSize::Ms40, 1920),
        (12, Mode::Hybrid, Bandwidth::SuperWideBand, FrameSize::Ms10, 480),
        (15, Mode::Hybrid, Bandwidth::FullBand, FrameSize::Ms20, 960),
        (16, Mode::CeltOnly, Bandwidth::NarrowBand, FrameSize::Ms2_5, 120),
        (21, Mode::CeltOnly, Bandwidth::WideBand, FrameSize::Ms5, 240),
        (26, Mode::CeltOnly, Bandwidth::SuperWideBand, FrameSize::Ms10, 480),
        (31, Mode::CeltOnly, Bandwidth::FullBand, FrameSize::Ms20, 960),
    ];
    for (config, mode, bandwidth, size, samples) in want {
        let toc = Toc::from_parts(config, true, 2);
        assert_eq!(toc.byte(), config << 3 | 4 | 2);
        assert_eq!(toc.config(), config);
        assert_eq!(toc.mode(), mode);
        assert_eq!(toc.bandwidth(), bandwidth);
        assert_eq!(toc.frame_size(), size);
        assert_eq!(size.samples_per_channel_48k(), samples);
        assert!(toc.stereo());
        assert_eq!(toc.channels(), 2);
        assert_eq!(toc.frame_count_code(), 2);
    }
    assert_eq!(Toc::new(0).channels(), 1);
    assert!(Toc::checked_from_parts(32, false, 0).is_none());
    assert!(Toc::checked_from_parts(31, false, 4).is_none());
    assert_eq!(Toc::checked_from_parts(31, false, 3).map(|t| t.byte()), Some(0xFB));
}

#[test]
fn bandwidths_are_ordered() {
    let all = [
        Bandwidth::NarrowBand,
        Bandwidth::MediumBand,
        Bandwidth::WideBand,
        Bandwidth::SuperWideBand,
        Bandwidth::FullBand,
    ];
    for (i, a) in all.iter().enumerate() {
        assert_eq!(a.rank() as usize, i);
        for (j, b) in all.iter().enumerate() {
            assert_eq!(a.narrower(*b), all[i.min(j)]);
        }
    }
}

#[test]
fn one_and_two_frames() {
    let p = Packet::parse(&[0x78, 1, 2, 3]).expect("one frame");
    assert_eq!(p.frame_count(), 1);
    assert_eq!(p.frame(0), &[1, 2, 3]);
    let p = Packet::parse(&[0x79, 1, 2, 3, 4]).expect("two frames of one size");
    assert_eq!((p.frame(0), p.frame(1)), (&[1u8, 2][..], &[3u8, 4][..]));
    let p = Packet::parse(&[0x7A, 1, 9, 3, 4]).expect("two frames of two sizes");
    assert_eq!((p.frame(0), p.frame(1)), (&[9u8][..], &[3u8, 4][..]));
    assert_eq!(p.toc().byte(), 0x7A);
    assert_eq!(p.padding(), 0);
    assert_eq!(p.frame_index(-1), Some(1));
    assert_eq!(p.frame_index(-3), None);
    assert_eq!(p.frame_index(2), None);
    assert_eq!(p.frame_index(0), Some(0));
}

#[test]
fn counted_frames_and_padding() {
    // Three frames of one size, with two bytes of padding.
    let p = Packet::parse(&[0x7B, 0x43, 2, 1, 2, 3, 4, 5, 6, 0, 0]).expect("padded");
    assert_eq!(p.frame_count(), 3);
    assert_eq!(p.frame(2), &[5, 6]);
    assert_eq!(p.padding(), 2);
    // Three frames of their own sizes.
    let p = Packet::parse(&[0x7B, 0x83, 1, 2, 10, 20, 21, 30]).expect("own sizes");
    assert_eq!((p.frame(0), p.frame(1), p.frame(2)), (&[10u8][..], &[20u8, 21][..], &[30u8][..]));
    // A size from 252 on takes two bytes.
    let mut data = vec![0x7A, 252, 1];
    data.extend(vec![7u8; 256 + 4]);
    let p = Packet::parse(&data).expect("long size");
    assert_eq!(p.frame(0).len(), 256);
    assert_eq!(p.frame(1).len(), 4);
    // 255 bytes of padding count as 254 and say that more follows.
    let mut data = vec![0x7B, 0x41, 255, 1];
    data.extend(vec![0u8; 255 + 5]);
    let p = Packet::parse(&data).expect("long padding");
    assert_eq!(p.padding(), 255);
    assert_eq!(p.frame(0).len(), 5);
}

#[test]
fn malformed_packets() {
    let err = |d: &[u8]| Packet::parse(d).err();
    assert_eq!(err(&[]), Some(PacketError::Empty));
    assert_eq!(err(&vec![0x78; 1277]), Some(PacketError::FrameTooLarge));
    assert_eq!(err(&[0x79, 1, 2, 3]), Some(PacketError::OddLength));
    assert_eq!(err(&[0x7A, 9, 1, 2]), Some(PacketError::BadLength));
    assert_eq!(err(&[0x7A]), Some(PacketError::BadLength));
    assert_eq!(err(&[0x7B, 0x00]), Some(PacketError::BadFrameCount));
    assert_eq!(err(&[0x7B]), Some(PacketError::BadFrameCount));
    // 7 frames of 20 ms are more than 120 ms.
    assert_eq!(err(&[0x7B, 0x07, 1, 2, 3, 4, 5, 6, 7]), Some(PacketError::BadFrameCount));
    assert_eq!(err(&[0x7B, 0x41, 9, 1]), Some(PacketError::BadPadding));
    assert_eq!(err(&[0x7B, 0x02, 1, 2, 3]), Some(PacketError::UnevenFrames));
}

#[test]
fn durations() {
    assert_eq!(packet_samples_48k(&[0x78, 1, 2]), Some(960));
    assert_eq!(packet_samples_48k(&[0x79, 1, 2]), Some(1920));
    assert_eq!(packet_samples_48k(&[0x7B, 0x03]), Some(2880));
    assert_eq!(packet_samples_48k(&[0x7B]), None);
    assert_eq!(packet_samples_48k(&[]), None);
}

#[test]
fn a_head_and_a_frame_are_a_packet_of_that_frame() {
    for len in [0usize, 1, 200, 1275] {
        let frame = vec![0xA5u8; len];
        let mut data = vec![0x7Cu8];
        data.extend_from_slice(&frame);
        let p = Packet::parse(&data).expect("one frame");
        assert_eq!(p.frame_count(), 1);
        assert_eq!(p.frame(0), &frame[..]);
        assert_eq!(p.padding(), 0);
        assert_eq!(packet_samples_48k(&data), Some(960));
    }
}

#[test]
fn forty_eight_of_the_shortest_frames_are_the_most() {
    let full = [0xE3u8, 48];
    assert_eq!(Packet::parse(&full).expect("120 ms").frame_count(), 48);
    assert_eq!(packet_samples_48k(&full), Some(5760));
    assert_eq!(Packet::parse(&[0xE3u8, 49]).err(), Some(PacketError::BadFrameCount));
}
