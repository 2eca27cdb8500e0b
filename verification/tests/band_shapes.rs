use opus_rs::celt::analysis::SmallCounts;
use opus_rs::celt::angle::{compute_theta, BandCtx};
use opus_rs::celt::bands::encode::{
    encode_band, encode_band_n1, encode_theta, nearest_step, quant_all_bands_enc, Channel, Image, Place, ShapeSource,
    Talk,
};
use opus_rs::celt::bands::{quant_all_bands, quant_band, BandPlan, BandShape, LeafKind};
use opus_rs::celt::coder::{Answers, FrameSignal};
use opus_rs::celt::decoder::{CeltDecoder, Postfilter};
use opus_rs::celt::encoder::{
    encode_header, quant_coarse_step, quant_energy_finalise, quant_fine_energy, CeltEncoder, FrontInput,
};
use opus_rs::celt::modes::NB_EBANDS;
use opus_rs::celt::vq::Spread;
use opus_rs::decoder::{read_redundancy, OpusDecoder, PacketAction};
use opus_rs::encoder::{frame_packet, OpusEncoder};
use opus_rs::range::{RangeDecoder, RangeEncoder};

/// A signal that decides by chance, and what it was asked.
struct Whim {
    state: u32,
    asked: Vec<String>,
    images: Vec<Image>,
}

impl Whim {
    fn new(seed: u32) -> Self {
        Whim { state: seed, asked: Vec::new(), images: Vec::new() }
    }

    fn next(&mut self, limit: u32) -> u32 {
        self.state = self.state.wrapping_mul(1_664_525).wrapping_add(1_013_904_223);
        (self.state >> 8) % limit
    }
}

impl ShapeSource for Whim {
    fn talk(&self) -> Talk {
        unreachable!("no program asks for the history")
    }

    fn angle(&mut self, at: Place, offset: usize, half: usize) -> i32 {
        self.asked.push(format!("angle {} {offset} {half}", at.band));
        self.next(16_385) as i32
    }

    fn pulses(&mut self, at: Place, offset: usize, len: usize, blocks: usize, count: usize) -> Vec<i32> {
        assert!(blocks >= 1 && blocks <= len);
        self.asked.push(format!("pulses {} {offset} {len} {count}", at.band));
        let mut y = vec![0i32; len];
        let mut signs = vec![0i32; len];
        for s in signs.iter_mut() {
            *s = if self.next(2) == 0 { 1 } else { -1 };
        }
        for _ in 0..count {
            let j = self.next(len as u32) as usize;
            y[j] += signs[j];
        }
        y
    }

    fn sign(&mut self, band: usize, _channel: Channel) -> bool {
        self.asked.push(format!("sign {band}"));
        self.next(2) == 1
    }

    fn stereo_angle(&mut self, band: usize) -> i32 {
        self.asked.push(format!("stereo {band}"));
        self.next(16_385) as i32
    }

    fn combine(&mut self, _band: usize, image: Image) {
        self.images.push(image);
    }

    fn negated(&mut self, _band: usize, _swapped: bool) -> bool {
        self.next(2) == 1
    }
}

impl FrameSignal for Whim {
    fn coarse_step(&mut self, _band: usize, _channel: usize) -> i32 {
        self.next(5) as i32 - 2
    }

    fn coarse_coded(&mut self, band: usize, channel: usize, step: i32) {
        self.asked.push(format!("coarse {band} {channel} {step}"));
    }

    fn fine_values(&mut self, fine_quant: &[i32; NB_EBANDS]) -> Vec<u32> {
        let mut values = Vec::new();
        for bits in fine_quant {
            for _ in 0..2 {
                values.push(self.next(1 << bits));
            }
        }
        values
    }

    fn last_bits(&mut self) -> Vec<bool> {
        (0..30).map(|_| self.next(2) == 1).collect()
    }
}

/// A signal whose answers cannot be coded.
struct Nonsense;

impl ShapeSource for Nonsense {
    fn talk(&self) -> Talk {
        unreachable!("no program asks for the history")
    }

    fn angle(&mut self, _at: Place, _offset: usize, _half: usize) -> i32 {
        -70_000
    }

    fn pulses(&mut self, _at: Place, _offset: usize, _len: usize, _blocks: usize, _count: usize) -> Vec<i32> {
        vec![i32::MIN, i32::MAX]
    }

    fn sign(&mut self, _band: usize, _channel: Channel) -> bool {
        true
    }

    fn stereo_angle(&mut self, _band: usize) -> i32 {
        i32::MAX
    }

    fn combine(&mut self, _band: usize, _image: Image) {}

    fn negated(&mut self, _band: usize, _swapped: bool) -> bool {
        false
    }
}

fn ctx(i: usize, intensity: usize, remaining_bits: i32) -> BandCtx {
    BandCtx { i, intensity, tf_change: 0, remaining_bits, seed: 1 }
}

#[test]
fn an_angle_comes_back() {
    for (n, b0, stereo) in [(8usize, 1usize, false), (8, 4, false), (8, 1, true), (2, 1, true)] {
        let c = ctx(12, 21, 4000);
        let mut angles = 0;
        for x in 0..=256i32 {
            let mut enc = RangeEncoder::new(40);
            let (mut b, mut fill) = (300i32, 0xFFu32);
            let qn = opus_rs::celt::angle::split_levels(&c, n, b, 2, stereo);
            if x > qn {
                continue;
            }
            let put = encode_theta(&c, &mut enc, n, &mut b, 2, b0, 2, stereo, &mut fill, qn, x, false);
            let range = enc.range_size();
            let buf = enc.finalize().expect("fits");
            let mut dec = RangeDecoder::new(&buf);
            let (mut b2, mut fill2) = (300i32, 0xFFu32);
            let got = compute_theta(&c, &mut dec, n, &mut b2, 2, b0, 2, stereo, &mut fill2);
            assert_eq!(got.itheta, put.itheta, "step {x} of {qn}");
            assert_eq!(got.itheta, x * 16384 / qn);
            assert_eq!((got.imid, got.iside, got.delta, got.qalloc), (put.imid, put.iside, put.delta, put.qalloc));
            assert_eq!((b2, fill2, dec.range_size()), (b, fill, range));
            angles += 1;
        }
        assert!(angles > 2, "there is more than one step");
    }
}

#[test]
fn an_inversion_is_coded_where_there_are_bits() {
    for (remaining, coded) in [(4000i32, true), (16, false)] {
        let c = ctx(12, 0, remaining);
        let mut enc = RangeEncoder::new(10);
        let (mut b, mut fill) = (100i32, 3u32);
        let put = encode_theta(&c, &mut enc, 8, &mut b, 1, 1, 2, true, &mut fill, 1, 0, true);
        assert_eq!(put.inv, coded);
        let buf = enc.finalize().expect("fits");
        let mut dec = RangeDecoder::new(&buf);
        let (mut b2, mut fill2) = (100i32, 3u32);
        let got = compute_theta(&c, &mut dec, 8, &mut b2, 1, 1, 2, true, &mut fill2);
        assert_eq!(got.inv, coded);
        assert_eq!(b2, b);
    }
}

#[test]
fn the_nearest_step_of_an_angle() {
    assert_eq!(nearest_step(0, 8), 0);
    assert_eq!(nearest_step(1023, 8), 0);
    assert_eq!(nearest_step(1024, 8), 1);
    assert_eq!(nearest_step(8192, 8), 4);
    assert_eq!(nearest_step(16384, 8), 8);
    assert_eq!(nearest_step(20_000, 8), 8);
    assert_eq!(nearest_step(-5, 256), 0);
    assert_eq!(nearest_step(8192, 1), 1);
}

#[test]
fn a_sign_needs_a_bit() {
    let mut enc = RangeEncoder::new(4);
    let mut c = ctx(0, 21, 15);
    assert!(encode_band_n1(&mut c, &mut enc, true));
    assert_eq!(c.remaining_bits, 7);
    assert!(!encode_band_n1(&mut c, &mut enc, true), "no bit is left");
    assert_eq!(c.remaining_bits, 7);
}

#[test]
fn a_band_comes_back() {
    for b in [0i32, 40, 200, 900, 3000] {
        let mut enc = RangeEncoder::new(500);
        let mut c = ctx(18, 21, 20_000);
        let mut src = Whim::new(b as u32 + 3);
        let (put, cm) = encode_band(&mut c, &mut enc, &mut src, Channel::Mono, 96, b, 8, false, 3, &vec![], 0xFF);
        let left = c.remaining_bits;
        let range = enc.range_size();
        let buf = enc.finalize().expect("fits");
        let mut dec = RangeDecoder::new(&buf);
        let mut c2 = ctx(18, 21, 20_000);
        let (got, cm2) = quant_band(&mut c2, &mut dec, 96, b, 8, false, 3, &vec![], 0xFF);
        assert_eq!(format!("{got:?}"), format!("{put:?}"));
        assert_eq!((cm2, c2.remaining_bits, dec.range_size()), (cm, left, range));
        assert_eq!(src.asked.iter().any(|a| a.starts_with("angle")), b >= 900, "{b} eighth bits");
    }
}

#[test]
fn answers_that_cannot_be_coded_are_replaced() {
    let mut enc = RangeEncoder::new(500);
    let mut c = ctx(18, 21, 20_000);
    let (put, _) = encode_band(&mut c, &mut enc, &mut Nonsense, Channel::Mono, 96, 900, 1, false, 3, &vec![], 1);
    match &put {
        BandShape::Leaves(_, leaves) => {
            let mut coded = 0;
            for leaf in leaves {
                if let LeafKind::Pulses(y) = &leaf.kind {
                    assert!(y[0] > 0 && y[1..].iter().all(|&v| v == 0), "all pulses on the first value");
                    coded += 1;
                }
            }
            assert!(coded > 0);
        },
        BandShape::Sign(_) => panic!("the band has many values"),
    }
    let buf = enc.finalize().expect("fits");
    let mut dec = RangeDecoder::new(&buf);
    let (got, _) = quant_band(&mut ctx(18, 21, 20_000), &mut dec, 96, 900, 1, false, 3, &vec![], 1);
    assert_eq!(format!("{got:?}"), format!("{put:?}"));
}

#[test]
fn the_shapes_of_a_frame_come_back() {
    let mut plans = [0usize; 5];
    for (stereo, dual, intensity) in [(false, false, 0usize), (true, false, 21), (true, true, 12), (true, false, 5)] {
        for lm in 0..4usize {
            for short in [false, true] {
                for bytes in [20usize, 120, 700] {
                    let total = 64 * bytes as i32;
                    let channels = if stereo { 2 } else { 1 };
                    let mut bits = [0i32; 21];
                    for (i, x) in bits.iter_mut().enumerate() {
                        *x = (total / 24).min(2000) + 3 * i as i32;
                    }
                    let tf = [if short && lm > 0 { 1 } else { 0 }; 21];
                    let mut enc = RangeEncoder::new(bytes + 10);
                    let mut src = Whim::new(7 * bytes as u32 + lm as u32);
                    let put = quant_all_bands_enc(
                        &mut enc, &mut src, 0, 21, stereo, &bits, short, Spread::Normal, dual, intensity, &tf, total, 0, lm,
                        19, 99,
                    );
                    let range = enc.range_size();
                    let tell = enc.tell_frac();
                    let buf = enc.finalize().expect("fits");
                    let mut dec = RangeDecoder::new(&buf);
                    let got = quant_all_bands(
                        &mut dec, 0, 21, stereo, &bits, short, Spread::Normal, dual, intensity, &tf, total, 0, lm, 19, 99,
                    );
                    assert_eq!(format!("{got:?}"), format!("{put:?}"), "{stereo} {dual} {lm} {short} {bytes}");
                    assert_eq!((dec.range_size(), dec.tell_frac()), (range, tell));
                    assert_eq!(put.collapse_masks.len(), 21 * channels);
                    for band in &put.plans {
                        plans[match band.plan {
                            BandPlan::Mono(_) => 0,
                            BandPlan::Dual(..) => 1,
                            BandPlan::Signs(..) => 2,
                            BandPlan::Pair { .. } => 3,
                            BandPlan::MidSide { .. } => 4,
                        }] += 1;
                    }
                    assert_eq!(src.images.is_empty(), !stereo);
                }
            }
        }
    }
    assert!(plans.iter().all(|&n| n > 0), "every kind of band was coded: {plans:?}");
}

#[test]
fn a_whole_frame_comes_back() {
    for lm in 0..4usize {
        for channels in [1usize, 2] {
            for (bytes, shrinks) in [(40usize, false), (160, false), (400, true)] {
                let mut celt = CeltEncoder::with_channels(channels);
                let mut enc = RangeEncoder::new(bytes);
                let postfilter = Postfilter { period: 77, gain: 2, tapset: 0 };
                let plan = celt.header_plan(postfilter, lm > 1);
                encode_header(&mut enc, 0, lm, bytes, plan);
                let steps: Vec<i32> = (0..21 * channels).map(|k| (k as i32 * 7) % 3 - 1).collect();
                for (k, want) in steps.iter().enumerate() {
                    quant_coarse_step(
                        &mut enc, 0, 21, k / channels, channels, lm, plan.intra, 8 * bytes as u32, *want,
                    );
                }
                let input = FrontInput {
                    transient: plan.transient,
                    tf_want: [lm % 2 == 0; 21],
                    tf_select: false,
                    counts: vec![SmallCounts { quarter: 1, sixteenth: 1, sixty_fourth: 0 }; 21 * channels],
                    spread_weight: [32; 21],
                    boost_steps: [0; 21],
                    trim: 6,
                    dual_stereo: bytes > 100,
                };
                let front = celt.encode_front(&mut enc, 0, 21, lm, bytes, &input);
                let mut size = bytes;
                if shrinks {
                    size = celt.shrink_to_target(&mut enc, 6400, 64 * bytes as i64 - front.total, bytes, lm);
                    assert!(size < bytes);
                }
                let (alloc, kept) = celt.allocate(&mut enc, 0, 21, lm, size, plan.transient, &front);
                let fine = vec![0u32; 21 * channels];
                quant_fine_energy(&mut enc, 0, 21, &alloc.fine_quant, channels, &fine);
                let mut src = Whim::new(bytes as u32);
                let put =
                    celt.encode_shapes(&mut enc, &mut src, 0, 21, lm, size, plan.transient, &front, &alloc, kept, 0);
                celt.encode_anti_collapse(&mut enc, kept);
                let left = 8 * size as i32 - enc.tell() as i32;
                let bits: Vec<bool> = (0..21 * channels).map(|k| k % 3 == 0).collect();
                quant_energy_finalise(
                    &mut enc, 0, 21, &alloc.fine_quant, &alloc.fine_priority, left, channels, &bits,
                );
                let range = enc.range_size();
                let buf = enc.finalize().expect("fits");
                assert_eq!(buf.len(), size);
                let mut dec = RangeDecoder::new(&buf);
                let mut celt_dec = CeltDecoder::new(channels);
                let (params, _) = celt_dec.decode_frame(&mut dec, size, 120 << lm, channels, 0, 21);
                assert_eq!(params.coarse, steps);
                assert_eq!(params.tf_res, front.tf_res);
                assert_eq!(params.alloc.shape_bits, alloc.shape_bits);
                assert_eq!(format!("{:?}", params.shapes), format!("{put:?}"), "{lm} {channels} {bytes}");
                assert_eq!(params.anti_collapse, kept > 0);
                for (got, want) in params.last.iter().zip(&bits) {
                    if let Some(bit) = got {
                        assert_eq!(bit, want);
                    }
                }
                assert_eq!(celt_dec.final_range(), range, "both ends finish with the same range");
            }
        }
    }
}

#[test]
fn what_is_written_of_a_frame_is_read() {
    for lm in 0..4usize {
        for channels in [1usize, 2] {
            for (bytes, target) in [(12usize, None), (90, None), (300, Some(4000i64)), (600, Some(20_000))] {
                let mut celt = CeltEncoder::with_channels(channels);
                let mut celt_dec = CeltDecoder::new(channels);
                for frame in 0..3u64 {
                    let mut enc = RangeEncoder::new(bytes);
                    let mut src = Whim::new(bytes as u32 + frame as u32);
                    let postfilter = Postfilter { period: 100, gain: if frame == 1 { 4 } else { 0 }, tapset: 2 };
                    let input = FrontInput {
                        transient: lm > 0 && frame > 0,
                        tf_want: [frame == 2; 21],
                        tf_select: true,
                        counts: vec![SmallCounts { quarter: 1, sixteenth: 1, sixty_fourth: 0 }; 21 * channels],
                        spread_weight: [20; 21],
                        boost_steps: [if bytes > 100 { 1 } else { 0 }; 21],
                        trim: 3,
                        dual_stereo: frame == 1,
                    };
                    let head = celt.encode_head(&mut enc, &mut src, 0, 21, lm, bytes, postfilter, &input);
                    assert_eq!(head.plan.intra, frame == 0);
                    assert!(enc.tell() as usize <= 8 * bytes, "the head is within the frame");
                    let mut size = bytes;
                    if let Some(target) = target {
                        size = celt.shrink_to_target(&mut enc, target, 64 * bytes as i64 - head.front.total, bytes, lm);
                    }
                    let tail =
                        celt.encode_tail(&mut enc, &mut src, 0, 21, lm, size, input.transient, &head.front);
                    assert_eq!(celt.frames, frame + 1);
                    assert_eq!(celt.final_range(), enc.range_size());
                    assert!(tail.bits_left < 0 || enc.tell() as usize <= 8 * size);
                    let buf = enc.finalize().expect("fits");
                    assert_eq!(buf.len(), size);
                    let mut dec = RangeDecoder::new(&buf);
                    let (params, _) = celt_dec.decode_frame(&mut dec, size, 120 << lm, channels, 0, 21);
                    assert_eq!(params.transient, input.transient);
                    assert_eq!(params.tf_res, head.front.tf_res);
                    assert_eq!(params.spread, head.front.spread);
                    assert_eq!(params.alloc.shape_bits, tail.alloc.shape_bits);
                    assert_eq!(params.alloc.coded_bands, tail.alloc.coded_bands);
                    for i in 0..21 {
                        for c in 0..channels {
                            let k = i * channels + c;
                            if tail.alloc.fine_quant[i] > 0 {
                                assert_eq!(params.fine[k], tail.fine[k]);
                            }
                            if let Some(bit) = params.last[k] {
                                assert_eq!(bit, tail.last[k]);
                            }
                        }
                    }
                    if frame == 0 {
                        assert_eq!(format!("{:?}", params.shapes), format!("{:?}", tail.shapes));
                    }
                    assert_eq!(params.shapes.collapse_masks, tail.shapes.collapse_masks);
                    assert_eq!(params.anti_collapse, tail.kept > 0 && frame < 3);
                    assert_eq!(celt_dec.final_range(), celt.final_range());
                }
            }
        }
    }
}

#[test]
fn the_answers_of_the_signal_are_coded() {
    let (lm, bytes) = (3usize, 300usize);
    let mut celt = CeltEncoder::with_channels(1);
    let mut celt_dec = CeltDecoder::new(1);
    let mut enc = RangeEncoder::new(bytes);
    let mut asked: Vec<i32> = (0..21).map(|i| (i * 7) % 5 - 2).collect();
    asked[20] = i32::MIN;
    let steps: Vec<i32> = asked.iter().rev().copied().collect();
    let mut src = Answers::new(vec![8192; 40], Vec::new(), Vec::new(), steps, vec![1; 21], vec![true; 10]);
    let postfilter = Postfilter { period: 0, gain: 0, tapset: 0 };
    let input = FrontInput {
        transient: false,
        tf_want: [false; 21],
        tf_select: false,
        counts: vec![SmallCounts { quarter: 1, sixteenth: 1, sixty_fourth: 0 }; 21],
        spread_weight: [20; 21],
        boost_steps: [0; 21],
        trim: 5,
        dual_stereo: false,
    };
    let head = celt.encode_head(&mut enc, &mut src, 0, 21, lm, bytes, postfilter, &input);
    asked[20] = i32::MIN + 1;
    assert_eq!(head.coarse, asked, "the steps asked for, band by band");
    let tail = celt.encode_tail(&mut enc, &mut src, 0, 21, lm, bytes, false, &head.front);
    for i in 0..21 {
        assert_eq!(tail.fine[i], if tail.alloc.fine_quant[i] > 0 { 1 } else { 0 });
        assert_eq!(tail.last[i], i < 10);
    }
    assert!(src.fine.is_empty() && src.last.is_empty() && src.steps.is_empty());
    let buf = enc.finalize().expect("fits");
    let mut dec = RangeDecoder::new(&buf);
    let (params, _) = celt_dec.decode_frame(&mut dec, bytes, 960, 1, 0, 21);
    assert_eq!(params.coarse[..20], asked[..20]);
    assert_eq!(params.fine, tail.fine);
    let mut vectors = 0;
    for planned in &params.shapes.plans {
        if let BandPlan::Mono(BandShape::Leaves(_, leaves)) = &planned.plan {
            for leaf in leaves {
                if let LeafKind::Pulses(y) = &leaf.kind {
                    vectors += 1;
                    assert!(y[0] > 0 && y[1..].iter().all(|&v| v == 0), "no pulses were given");
                }
            }
        }
    }
    assert!(vectors > 21);
}

#[test]
fn a_transform_packet_ends_both_coders_alike() {
    for channels in [1usize, 2] {
        let mut enc = OpusEncoder::new(channels);
        let mut dec = OpusDecoder::new(channels);
        let mut celt_dec = CeltDecoder::new(channels);
        for (frame, n) in [960usize, 120, 480, 240].into_iter().enumerate() {
            let plan = enc.encode(n * channels, 200).expect("a plan");
            let mut range = RangeEncoder::new(plan.nb_bytes);
            let mut src = Whim::new(frame as u32 + 5);
            let postfilter = Postfilter { period: 0, gain: 0, tapset: 0 };
            let input = FrontInput {
                transient: false,
                tf_want: [false; 21],
                tf_select: false,
                counts: vec![SmallCounts { quarter: 1, sixteenth: 1, sixty_fourth: 0 }; 21 * channels],
                spread_weight: [20; 21],
                boost_steps: [0; 21],
                trim: 5,
                dual_stereo: false,
            };
            let end = plan.end;
            let head = enc.celt.encode_head(&mut range, &mut src, 0, end, plan.lm, plan.nb_bytes, postfilter, &input);
            enc.celt.encode_tail(&mut range, &mut src, 0, end, plan.lm, plan.nb_bytes, false, &head.front);
            let packet = frame_packet(plan.toc, &range.finalize().expect("fits"));
            let PacketAction::Frames(parsed) = dec.decode_packet(&packet).expect("a packet") else {
                panic!("it holds audio");
            };
            let toc = parsed.toc();
            assert_eq!((parsed.frame_count(), toc.frame_size().samples_per_channel_48k()), (1, n));
            let data = parsed.frame(0);
            let mut reader = RangeDecoder::new(data);
            let red = read_redundancy(&mut reader, toc.mode(), data.len());
            dec.decode_frame(&mut celt_dec, &mut reader, data, toc.mode(), toc.bandwidth(), n, red);
            assert_eq!(dec.final_range(), enc.celt.final_range(), "{channels} {n}");
        }
    }
}
