use opus_rs::range::encoder::RangeEncoderError;
use opus_rs::range::{RangeDecoder, RangeEncoder};

const ICDF: [u8; 4] = [192, 100, 40, 0];

#[test]
fn every_kind_of_symbol_comes_back() {
    let mut enc = RangeEncoder::new(200);
    let mut seed = 1u32;
    let mut tells = Vec::new();
    for _ in 0..40 {
        seed = seed.wrapping_mul(1_664_525).wrapping_add(1_013_904_223);
        enc.encode_bit_logp(seed >> 31 == 1, 3);
        enc.encode_icdf((seed >> 20) as usize % 4, &ICDF, 8);
        enc.encode((seed >> 8) % 100, (seed >> 8) % 100 + 1, 101);
        enc.encode_raw_bits(seed % 32, 5);
        enc.encode_uint((seed >> 4) % 1000, 1000);
        tells.push((enc.tell(), enc.tell_frac()));
    }
    let range = enc.range_size();
    let buf = enc.finalize().expect("fits");
    assert_eq!(buf.len(), 200);
    let mut dec = RangeDecoder::new(&buf);
    let mut seed = 1u32;
    for tell in tells {
        seed = seed.wrapping_mul(1_664_525).wrapping_add(1_013_904_223);
        assert_eq!(dec.decode_bit_logp(3), seed >> 31 == 1);
        assert_eq!(dec.decode_icdf(&ICDF, 8), (seed >> 20) as usize % 4);
        let v = dec.decode(101);
        assert_eq!(v, (seed >> 8) % 100);
        dec.update(v, v + 1, 101);
        assert_eq!(dec.decode_raw_bits(5), seed % 32);
        assert_eq!(dec.decode_uint(1000), Some((seed >> 4) % 1000));
        assert_eq!((dec.tell(), dec.tell_frac()), tell);
    }
    assert_eq!(dec.range_size(), range);
}

#[test]
fn a_fresh_coder_has_used_one_bit() {
    assert_eq!(RangeEncoder::new(10).tell(), 1);
    assert_eq!(RangeEncoder::new(10).tell_frac(), 8);
    let data = [0u8; 10];
    assert_eq!(RangeDecoder::new(&data).tell(), 1);
    assert_eq!(RangeDecoder::new(&data).tell_frac(), 8);
    assert_eq!(RangeEncoder::new(10).range_size(), 0x8000_0000);
}

#[test]
fn too_much_for_the_buffer_is_refused() {
    let mut enc = RangeEncoder::new(2);
    for _ in 0..40 {
        enc.encode_bit_logp(true, 8);
    }
    assert_eq!(enc.finalize(), Err(RangeEncoderError::BufferFull));
    let mut enc = RangeEncoder::new(1);
    enc.encode_raw_bits(0x1FFFF, 17);
    assert_eq!(enc.finalize(), Err(RangeEncoderError::BufferFull));
}

#[test]
fn raw_bits_fill_the_end() {
    let mut enc = RangeEncoder::new(4);
    enc.encode_raw_bits(0xAB, 8);
    enc.encode_raw_bits(0x5, 4);
    let buf = enc.finalize().expect("fits");
    assert_eq!(buf[3], 0xAB);
    assert_eq!(buf[2] & 0x0F, 0x5);
    let mut dec = RangeDecoder::new(&buf);
    assert_eq!(dec.decode_raw_bits(8), 0xAB);
    assert_eq!(dec.decode_raw_bits(4), 0x5);
    // Past the data there are only zeros.
    assert_eq!(RangeDecoder::new(&[]).decode_raw_bits(9), 0);
}

#[test]
fn a_shrunk_buffer_still_reads_back() {
    let mut enc = RangeEncoder::new(100);
    for k in 0..10 {
        enc.encode_uint(k, 11);
    }
    enc.shrink(12);
    enc.encode_raw_bits(77, 7);
    let buf = enc.finalize().expect("fits");
    assert_eq!(buf.len(), 12);
    let mut dec = RangeDecoder::new(&buf);
    for k in 0..10 {
        assert_eq!(dec.decode_uint(11), Some(k));
    }
    assert_eq!(dec.decode_raw_bits(7), 77);
}

#[test]
fn damaged_uniform_values_are_noticed() {
    // A value whose upper part is the largest can leave the range by its raw bits.
    let mut enc = RangeEncoder::new(8);
    enc.encode_uint(999_999, 1_000_000);
    let mut buf = enc.finalize().expect("fits");
    buf[7] = 0xFF;
    buf[6] = 0xFF;
    let mut dec = RangeDecoder::new(&buf);
    assert_eq!(dec.decode_uint(1_000_000), None);
}

#[test]
fn forced_and_shrunk_decoders() {
    let data = [0x80u8, 1, 2, 3, 4, 5];
    let mut dec = RangeDecoder::new(&data);
    dec.force_tell(40);
    assert_eq!(dec.tell(), 40);
    let mut dec = RangeDecoder::new(&data);
    dec.shrink_storage(4);
    assert_eq!(dec.decode_raw_bits(8), 3);
}

#[test]
fn what_is_counted_fits() {
    for size in [1usize, 2, 7, 40] {
        let mut state = size as u32;
        let mut enc = RangeEncoder::new(size);
        loop {
            state = state.wrapping_mul(1_664_525).wrapping_add(1_013_904_223);
            if enc.tell() + 12 > 8 * size as u32 {
                break;
            }
            match state % 3 {
                0 => enc.encode_bit_logp((state >> 9) % 2 == 1, 1 + (state >> 10) % 8),
                1 => enc.encode_uint((state >> 8) % 1000, 1000),
                _ => enc.encode_raw_bits((state >> 8) % 32, 5),
            }
        }
        assert!(enc.tell() <= 8 * size as u32);
        assert_eq!(enc.finalize().expect("fits").len(), size);
    }
}

#[test]
fn bits_within_the_buffer_fit_it() {
    for size in 1usize..12 {
        let mut enc = RangeEncoder::new(size);
        let mut k = 0u32;
        loop {
            let mut next = RangeEncoder::new(size);
            for j in 0..=k {
                match j % 4 {
                    0 => next.encode_bit_logp(j % 3 == 0, 3),
                    1 => next.encode_raw_bits(j % 8, 3),
                    2 => next.encode_uint(j % 6, 6),
                    _ => next.encode(j % 30, j % 30 + 1, 32),
                }
            }
            if next.tell() as usize > 8 * size {
                break;
            }
            enc = next;
            k += 1;
        }
        assert!(k > 0);
        assert_eq!(enc.finalize().expect("it fits").len(), size);
    }
}

#[test]
fn no_symbol_costs_more_than_its_share() {
    for seed in 0..50u32 {
        let mut enc = RangeEncoder::new(200);
        for j in 0..40u32 {
            let x = seed.wrapping_mul(2_654_435_761).wrapping_add(j.wrapping_mul(40_503));
            let before = enc.tell();
            let (most, b) = match x % 5 {
                0 => (1, x % 16 + 1),
                1 => (x % 16 + 1, x % 16 + 1),
                2 => (x % 20, x % 20),
                3 => (15, 15),
                _ => (3, 3),
            };
            match x % 5 {
                0 => enc.encode_bit_logp(false, b),
                1 => enc.encode_bit_logp(true, b),
                2 => enc.encode_raw_bits(0, b),
                3 => enc.encode(x % 32_768, x % 32_768 + 1, 32_768),
                _ => enc.encode_uint(x % 6, 6),
            }
            assert!(enc.tell() <= before + most);
        }
    }
}
