use opus_rs::encoder::{encode_ogg_opus, ogg_frame_bounds, ogg_frame_count};
use opus_rs::decoder::{file_channels, trimmed, OggDecodeError};
use opus_rs::ogg::bytes::{push_le, read_le};
use opus_rs::ogg::crc::{crc_with_hole, update};
use opus_rs::ogg::opus::{ChannelMapping, OggOpusError, OggOpusReader, OggOpusWriter, OpusHead, OpusTags};
use opus_rs::ogg::page::{OggError, PacketReader, Page, PageReader, NO_GRANULE};
use opus_rs::ogg::writer::PageWriter;

fn tags() -> OpusTags {
    OpusTags { vendor: b"maker".to_vec(), comments: vec![b"TITLE=A song".to_vec(), b"Artist=Somebody".to_vec()] }
}

fn head() -> OpusHead {
    OpusHead {
        version: 1,
        channel_count: 2,
        pre_skip: 312,
        input_sample_rate: 44_100,
        output_gain_q8: -256,
        channel_mapping: ChannelMapping::Family0,
    }
}

#[test]
fn checksum_of_the_nine_digits() {
    let mut crc = 0;
    for b in b"123456789" {
        crc = update(crc, *b);
    }
    assert_eq!(crc, 0x89A1_897F);
    assert_eq!(crc_with_hole(b"123456789", 1000), 0x89A1_897F);
    // The four bytes of the hole count as zeros.
    assert_eq!(crc_with_hole(b"ab1234cd", 2), crc_with_hole(b"ab9876cd", 2));
}

#[test]
fn little_endian_numbers() {
    let mut out = Vec::new();
    push_le(&mut out, 0x1234_5678, 4);
    push_le(&mut out, 0xAB, 2);
    assert_eq!(out, [0x78, 0x56, 0x34, 0x12, 0xAB, 0x00]);
    assert_eq!(read_le(&out, 0, 4), 0x1234_5678);
    assert_eq!(read_le(&out, 4, 2), 0xAB);
}

#[test]
fn pages_come_back() {
    let mut out = Vec::new();
    let mut w = PageWriter::new(77);
    w.push(&mut out, &[1, 2, 3], 100, false);
    w.push(&mut out, &vec![9u8; 255], 200, false);
    w.flush(&mut out);
    w.push(&mut out, &[4], 300, true);
    let (page, len) = Page::parse(&out).expect("a page");
    assert!(page.bos && !page.eos && !page.continued);
    assert_eq!((page.serial, page.sequence, page.granule_position), (77, 0, 200));
    assert_eq!(page.lacing, [3, 255, 0]);
    assert_eq!(page.body.len(), 258);
    let (second, _) = Page::parse(&out[len..]).expect("another page");
    assert!(second.eos && !second.bos);
    assert_eq!((second.sequence, second.granule_position), (1, 300));
    let mut pages = PageReader::new(&out);
    assert_eq!(pages.next().map(|p| p.sequence), Some(0));
    assert_eq!(pages.next().map(|p| p.sequence), Some(1));
    assert!(pages.next().is_none());
}

#[test]
fn malformed_pages() {
    let mut out = Vec::new();
    let mut w = PageWriter::new(1);
    w.push(&mut out, &[1, 2, 3], 5, true);
    assert_eq!(Page::parse(&out[..20]).err(), Some(OggError::Truncated));
    assert_eq!(Page::parse(&out[..out.len() - 1]).err(), Some(OggError::Truncated));
    let mut bad = out.clone();
    bad[0] = b'o';
    assert_eq!(Page::parse(&bad).err(), Some(OggError::BadCapture));
    let mut bad = out.clone();
    bad[4] = 1;
    assert_eq!(Page::parse(&bad).err(), Some(OggError::BadVersion));
    let mut bad = out.clone();
    *bad.last_mut().expect("bytes") ^= 1;
    assert_eq!(Page::parse(&bad).err(), Some(OggError::BadChecksum));
    // A reader finds the next sound page behind damage.
    let mut both = bad.clone();
    both.extend_from_slice(&out);
    let mut pages = PageReader::new(&both);
    assert_eq!(pages.next().map(|p| p.body), Some(vec![1, 2, 3]));
    assert!(pages.next().is_none());
}

#[test]
fn long_packets_span_pages() {
    let big: Vec<u8> = (0..70_000u32).map(|i| (i % 251) as u8).collect();
    let mut out = Vec::new();
    let mut w = PageWriter::new(3);
    w.push(&mut out, &big, 1000, false);
    w.push(&mut out, &[5], 2000, true);
    let mut pages = PageReader::new(&out);
    let first = pages.next().expect("a page");
    assert_eq!(first.lacing.len(), 255);
    assert_eq!(first.granule_position, NO_GRANULE);
    assert!(pages.next().expect("a second page").continued);
    let mut packets = PacketReader::new(&out, 3);
    let p = packets.next().expect("the long packet");
    assert_eq!(p.data, big);
    let p = packets.next().expect("the short packet");
    assert_eq!((p.data, p.granule_position, p.eos), (vec![5], 2000, true));
    assert!(packets.next().is_none());
    assert!(PacketReader::new(&out, 4).next().is_none(), "no such stream");
}

#[test]
fn headers_come_back() {
    let h = head();
    let bytes = h.to_bytes();
    assert_eq!(bytes.len(), 19);
    assert_eq!(&bytes[..8], b"OpusHead");
    assert_eq!(bytes[16..18], [0x00, 0xFF]);
    assert_eq!(OpusHead::parse(&bytes), Ok(h));
    let table = OpusHead {
        channel_count: 3,
        channel_mapping: ChannelMapping::Table {
            family: 1,
            stream_count: 2,
            coupled_count: 1,
            mapping: vec![0, 2, 255],
        },
        ..head()
    };
    assert_eq!(table.channel_mapping.stream_count(), 2);
    assert_eq!(ChannelMapping::Family0.stream_count(), 1);
    assert_eq!(OpusHead::parse(&table.to_bytes()), Ok(table));
}

#[test]
fn malformed_headers() {
    let good = head().to_bytes();
    assert_eq!(OpusHead::parse(&good[..18]), Err(OggOpusError::InvalidIdHeader));
    assert_eq!(OpusHead::parse(b"OpusTags01234567890"), Err(OggOpusError::InvalidIdHeader));
    let mut bad = good.clone();
    bad[8] = 0x10;
    assert_eq!(OpusHead::parse(&bad), Err(OggOpusError::UnsupportedVersion(0x10)));
    let mut later = good.clone();
    later[8] = 0x0F;
    assert!(OpusHead::parse(&later).is_ok());
    let mut bad = good.clone();
    bad[9] = 0;
    assert_eq!(OpusHead::parse(&bad), Err(OggOpusError::InvalidIdHeader));
    let mut bad = good;
    bad[9] = 3;
    assert_eq!(OpusHead::parse(&bad), Err(OggOpusError::InvalidIdHeader));
}

#[test]
fn tags_come_back_and_are_found() {
    let mut t = tags();
    assert_eq!(t.get("title").as_deref(), Some("A song"));
    assert_eq!(t.get("ARTIST").as_deref(), Some("Somebody"));
    assert_eq!(t.get("album"), None);
    t.push("ALBUM", "Gr\u{fc}n=blau");
    assert_eq!(t.get("album").as_deref(), Some("Gr\u{fc}n=blau"));
    let bytes = t.to_bytes();
    assert_eq!(&bytes[..8], b"OpusTags");
    assert_eq!(OpusTags::parse(&bytes), Ok(t));
    assert_eq!(OpusTags::parse(&bytes[..bytes.len() - 1]), Err(OggOpusError::InvalidCommentHeader));
    assert_eq!(OpusTags::parse(b"OpusHead"), Err(OggOpusError::InvalidCommentHeader));
}

#[test]
fn damaged_text_is_replaced() {
    let t = OpusTags { vendor: Vec::new(), comments: vec![b"A=x\xFFy".to_vec(), b"plain".to_vec()] };
    assert_eq!(t.comments_lossy(), ["A=x\u{FFFD}y", "plain"]);
    assert_eq!(t.get("a").as_deref(), Some("x\u{FFFD}y"));
}

#[test]
fn files_come_back() {
    let mut w = OggOpusWriter::new(&head(), &tags(), 99);
    let packets: Vec<Vec<u8>> = (0..60u8).map(|k| {
        let mut p = vec![0x78];
        p.extend(vec![k; 1 + 20 * k as usize]);
        p
    }).collect();
    for (i, p) in packets.iter().enumerate() {
        w.push(p, i + 1 == packets.len());
    }
    let file = w.finish();
    let mut r = OggOpusReader::new(&file).expect("a file");
    assert_eq!(*r.head(), head());
    assert_eq!(*r.tags(), tags());
    assert_eq!(r.serial(), 99);
    assert_eq!(r.pcm_duration_48k(), Some(60 * 960));
    for (i, p) in packets.iter().enumerate() {
        let got = r.next().expect("a packet");
        assert_eq!(got.data, *p);
        assert_eq!(got.granule_position, 312 + 960 * (i as u64 + 1));
    }
    assert!(r.next().is_none());
}

#[test]
fn a_file_without_packets_is_closed() {
    let file = OggOpusWriter::new(&head(), &tags(), 5).finish();
    let mut r = OggOpusReader::new(&file).expect("a file");
    assert!(r.next().is_none());
    assert_eq!(r.pcm_duration_48k(), Some(0));
    let mut pages = PageReader::new(&file);
    assert!(!pages.next().expect("the header").eos);
    assert!(!pages.next().expect("the comments").eos);
    let end = pages.next().expect("the end");
    assert!(end.eos && end.body.is_empty() && end.granule_position == 312);
    assert!(pages.next().is_none());
}

#[test]
fn an_empty_page_closes_a_file() {
    let mut w = OggOpusWriter::new(&head(), &tags(), 5);
    w.push(&[0x78, 1, 2], false);
    w.push(&[0x78, 3], false);
    let file = w.finish();
    let mut r = OggOpusReader::new(&file).expect("a file");
    assert_eq!(r.pcm_duration_48k(), Some(1920));
    assert_eq!(r.next().map(|p| (p.data, p.granule_position)), Some((vec![0x78, 1, 2], 312 + 960)));
    assert_eq!(r.next().map(|p| (p.data, p.granule_position)), Some((vec![0x78, 3], 312 + 1920)));
    assert!(r.next().is_none(), "no packet was added");
    let mut pages = PageReader::new(&file);
    let mut all = Vec::new();
    while let Some(p) = pages.next() {
        all.push((p.eos, p.body.len(), p.granule_position));
    }
    assert_eq!(all.len(), 4);
    assert_eq!(all[2], (false, 5, 312 + 1920));
    assert_eq!(all[3], (true, 0, 312 + 1920));
}

#[test]
fn headers_alone_have_no_duration() {
    let mut out = Vec::new();
    let mut w = PageWriter::new(7);
    w.push(&mut out, &head().to_bytes(), 0, false);
    w.flush(&mut out);
    w.push(&mut out, &tags().to_bytes(), 0, false);
    w.flush(&mut out);
    assert_eq!(OggOpusReader::new(&out).expect("a file").pcm_duration_48k(), None);
    w.push(&mut out, &[0x78, 1], 1272, true);
    assert_eq!(OggOpusReader::new(&out).expect("a file").pcm_duration_48k(), Some(960));
    // Audio on the page on which the comments end.
    let mut out = Vec::new();
    let mut w = PageWriter::new(7);
    w.push(&mut out, &head().to_bytes(), 0, false);
    w.flush(&mut out);
    w.push(&mut out, &tags().to_bytes(), 0, false);
    w.push(&mut out, &[0x78, 1], 1272, true);
    assert_eq!(OggOpusReader::new(&out).expect("a file").pcm_duration_48k(), Some(960));
}

#[test]
fn not_an_opus_file() {
    assert_eq!(OggOpusReader::new(&[]).err(), Some(OggOpusError::NoOpusStream));
    let mut out = Vec::new();
    let mut w = PageWriter::new(1);
    w.push(&mut out, b"OpusHead", 0, false);
    w.flush(&mut out);
    assert_eq!(OggOpusReader::new(&out).err(), Some(OggOpusError::InvalidIdHeader));
    let mut out = Vec::new();
    let mut w = PageWriter::new(1);
    w.push(&mut out, &head().to_bytes(), 0, true);
    assert_eq!(OggOpusReader::new(&out).err(), Some(OggOpusError::InvalidCommentHeader));
}

#[test]
fn ogg_opus_file_round_trips() {
    let packets: Vec<Vec<u8>> = vec![vec![0xF8, 1, 2, 3], vec![0xF8, 4], vec![0xF8]];
    for (bitrate, skip) in [(64_000, 120), (40_001, 120), (40_000, 69), (24_000, 69)] {
        let file = encode_ogg_opus(&packets, 2, bitrate);
        let mut r = OggOpusReader::new(&file).expect("a file");
        assert_eq!(r.head().pre_skip, skip);
        assert_eq!(r.head().channel_count, 2);
        assert_eq!(r.head().input_sample_rate, 48_000);
        assert_eq!(r.tags().vendor, b"opus_rs");
        assert_eq!(file_channels(r.head()), Ok(2));
        let mut end = 0;
        for p in &packets {
            let got = r.next().expect("a packet");
            assert_eq!(got.data, *p);
            end = got.granule_position;
        }
        assert_eq!(end, u64::from(skip) + 3 * 960);
    }
}

#[test]
fn frames_of_a_file() {
    assert_eq!(ogg_frame_count(0, 1), 0);
    assert_eq!(ogg_frame_count(960, 1), 1);
    assert_eq!(ogg_frame_count(961, 1), 2);
    assert_eq!(ogg_frame_count(3840, 2), 2);
    assert_eq!(ogg_frame_bounds(2000, 1, 1), (960, 1920));
    assert_eq!(ogg_frame_bounds(2000, 1, 2), (1920, 2000));
    assert_eq!(ogg_frame_bounds(3840, 2, 1), (1920, 3840));
}

#[test]
fn samples_are_trimmed() {
    // 100 samples are dropped at the start, and none kept past the end.
    assert_eq!(trimmed(4000, 2, 100, 1100), (200, 2000));
    assert_eq!(trimmed(1000, 1, 100, 5000), (100, 900));
    assert_eq!(trimmed(50, 1, 100, 5000), (50, 0));
    assert_eq!(trimmed(50, 1, 100, 20), (50, 0));
    let table = OpusHead {
        channel_count: 3,
        channel_mapping: ChannelMapping::Table {
            family: 1,
            stream_count: 2,
            coupled_count: 1,
            mapping: vec![0, 1, 2],
        },
        ..head()
    };
    assert_eq!(file_channels(&table), Err(OggDecodeError::UnsupportedMapping));
}

#[test]
fn mapping_of_a_header() {
    let plain = OpusHead::family0(2, 312, 44_100);
    assert_eq!(plain.mapping_family(), 0);
    assert_eq!(plain.stream_count(), None);
    assert_eq!(plain.coupled_count(), None);
    assert_eq!(plain.channel_mapping(), None);
    let surround = OpusHead {
        channel_count: 3,
        channel_mapping: ChannelMapping::Table {
            family: 1,
            stream_count: 2,
            coupled_count: 1,
            mapping: vec![0, 2, 1],
        },
        ..plain
    };
    assert_eq!(surround.mapping_family(), 1);
    assert_eq!(surround.stream_count(), Some(2));
    assert_eq!(surround.coupled_count(), Some(1));
    assert_eq!(surround.channel_mapping(), Some(vec![0, 2, 1]));
}

#[test]
fn a_file_gives_back_all_but_its_delay() {
    for (bitrate, skip) in [(32_000u32, 69usize), (40_000, 69), (40_001, 120), (96_000, 120)] {
        for ch in [1usize, 2] {
            for per_ch in [1usize, 959, 960, 961, 48_000] {
                let len = per_ch * ch;
                let frames = ogg_frame_count(len, ch);
                let head = if ch == 1 { 0xF8u8 } else { 0xFC };
                let packets: Vec<Vec<u8>> = (0..frames).map(|i| vec![head, i as u8, 7]).collect();
                let file = encode_ogg_opus(&packets, ch, bitrate);
                let mut reader = OggOpusReader::new(&file).expect("a file");
                assert_eq!(usize::from(reader.head().channel_count), ch);
                assert_eq!(usize::from(reader.head().pre_skip), skip);
                let mut granule = 0;
                while let Some(packet) = reader.next() {
                    granule = packet.granule_position;
                }
                let kept = trimmed(960 * frames * ch, ch, skip as u16, granule);
                assert_eq!(kept, (skip * ch, (960 * per_ch.div_ceil(960) - skip) * ch));
            }
        }
    }
}

#[test]
fn headers_end_where_they_say() {
    let mut heads = vec![OpusHead::family0(2, 312, 48_000)];
    heads.push(OpusHead {
        channel_count: 3,
        channel_mapping: ChannelMapping::Table { family: 1, stream_count: 2, coupled_count: 1, mapping: vec![0, 2, 1] },
        ..OpusHead::family0(1, 120, 44_100)
    });
    for head in &heads {
        let bytes = head.to_bytes();
        for k in 0..bytes.len() {
            assert_eq!(OpusHead::parse(&bytes[..k]).err(), Some(OggOpusError::InvalidIdHeader), "{k}");
        }
        let mut more = bytes.clone();
        more.extend([9u8, 8, 7]);
        assert_eq!(OpusHead::parse(&more).as_ref(), Ok(head));
    }
    let tags = OpusTags { vendor: b"someone".to_vec(), comments: vec![b"A=1".to_vec(), Vec::new(), b"B=two".to_vec()] };
    let bytes = tags.to_bytes();
    for k in 0..bytes.len() {
        assert!(OpusTags::parse(&bytes[..k]).is_err(), "{k}");
    }
    let mut more = bytes.clone();
    more.extend([0u8; 5]);
    assert_eq!(OpusTags::parse(&more).as_ref(), Ok(&tags));
}
