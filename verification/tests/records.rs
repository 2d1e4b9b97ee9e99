use bitvec_codec::compact::{decode_compact_u32, encode_compact_u32, peek_compact_u32};
use bitvec_codec::endian::normalize;
use bitvec_codec::host::{endian_of_probe, host_endian};
use bitvec_codec::length::required_words;
use bitvec_codec::bits::{with_bit, word_bit};
use bitvec_codec::sequence::length_prefix;
use bitvec_codec::storage::{
    byte_of, native_bytes, place, significance, word_from, word_max, words_from_native,
};
use bitvec_codec::{
    required_bytes, reverse_endian, BitBox, BitSequence, BitSlice, Endian, Error, Input, Order,
    WordWidth,
};

const WIDTHS: [WordWidth; 4] = [WordWidth::W8, WordWidth::W16, WordWidth::W32, WordWidth::W64];
const ORDERS: [Order; 2] = [Order::Msb0, Order::Lsb0];
const HOSTS: [Endian; 2] = [Endian::Little, Endian::Big];

fn pattern(len: usize) -> Vec<bool> {
    (0..len).map(|i| (i * 7 + i / 3) % 5 < 2).collect()
}

fn compact(v: u32) -> Vec<u8> {
    let mut out = Vec::new();
    encode_compact_u32(v, &mut out);
    out
}

#[test]
fn scenario_eight_bits_msb0() {
    let bits = [true, false, true, false, true, true, false, false];
    let seq = BitSequence::from_bits(Order::Msb0, WordWidth::W8, &bits);
    for host in HOSTS {
        let encoded = seq.encode_on(host).unwrap();
        assert_eq!(encoded, vec![0x20, 0xAC]);
    }
    assert_eq!(seq.encode().unwrap(), vec![0x20, 0xAC]);
    assert_eq!(compact(8), vec![0x20]);

    let stream = [0x20u8, 0xAC];
    for host in HOSTS {
        let mut input = Input::new(&stream);
        let decoded =
            BitSequence::decode_on(&mut input, Order::Msb0, WordWidth::W8, host).unwrap();
        assert_eq!(decoded.len(), 8);
        assert_eq!(decoded.to_bits(), bits.to_vec());
        assert_eq!(decoded, seq);
        assert_eq!(input.remaining_len(), 0);
    }
}

#[test]
fn round_trip_every_order_width_and_host() {
    let lengths = [0usize, 1, 7, 8, 9, 15, 16, 17, 31, 32, 33, 63, 64, 65, 127, 128, 129, 1000];
    for order in ORDERS {
        for width in WIDTHS {
            for len in lengths {
                let bits = pattern(len);
                let seq = BitSequence::from_bits(order, width, &bits);
                for writer in HOSTS {
                    let encoded = seq.encode_on(writer).unwrap();
                    for reader in HOSTS {
                        let mut input = Input::new(&encoded);
                        let decoded =
                            BitSequence::decode_on(&mut input, order, width, reader).unwrap();
                        assert_eq!(decoded.len(), len);
                        assert_eq!(decoded.to_bits(), bits);
                        assert_eq!(decoded.as_words(), seq.as_words());
                        assert_eq!(decoded, seq);
                        assert_eq!(input.remaining_len(), 0);
                    }
                }
            }
        }
    }
}

#[test]
fn record_is_the_same_on_both_hosts() {
    for width in WIDTHS {
        let bits = pattern(203);
        let seq = BitSequence::from_bits(Order::Lsb0, width, &bits);
        let little = seq.encode_on(Endian::Little).unwrap();
        let big = seq.encode_on(Endian::Big).unwrap();
        assert_eq!(little, big);
        assert_eq!(seq.encode().unwrap(), little);
    }
}

#[test]
fn words_travel_least_significant_byte_first() {
    let seq = BitSequence::from_words(Order::Msb0, WordWidth::W16, &[0x1234, 0xABCD]).unwrap();
    for host in HOSTS {
        assert_eq!(seq.encode_on(host).unwrap(), vec![0x80, 0x34, 0x12, 0xCD, 0xAB]);
    }
    let seq = BitSequence::from_words(Order::Lsb0, WordWidth::W32, &[0x0102_0304]).unwrap();
    for host in HOSTS {
        assert_eq!(seq.encode_on(host).unwrap(), vec![0x80, 0x04, 0x03, 0x02, 0x01]);
    }
    let seq =
        BitSequence::from_words(Order::Lsb0, WordWidth::W64, &[0x0102_0304_0506_0708]).unwrap();
    for host in HOSTS {
        assert_eq!(
            seq.encode_on(host).unwrap(),
            vec![0x01, 0x01, 0x08, 0x07, 0x06, 0x05, 0x04, 0x03, 0x02, 0x01]
        );
    }
}

#[test]
fn decode_leaves_what_follows_the_record() {
    let seq = BitSequence::from_bits(Order::Msb0, WordWidth::W16, &pattern(20));
    let mut stream = seq.encode().unwrap();
    let record_len = stream.len();
    stream.extend_from_slice(&[0xEE, 0xFF, 0x11]);
    let mut input = Input::new(&stream);
    let decoded = BitSequence::decode(&mut input, Order::Msb0, WordWidth::W16).unwrap();
    assert_eq!(decoded, seq);
    assert_eq!(input.remaining_len(), 3);
    assert_eq!(input.peek(0), Some(0xEE));
    assert_eq!(record_len, 1 + 4);
}

#[test]
fn encode_to_appends() {
    let seq = BitSequence::from_bits(Order::Msb0, WordWidth::W8, &[true]);
    let mut dest = vec![9u8, 9];
    seq.encode_to(&mut dest).unwrap();
    assert_eq!(dest, vec![9, 9, 0x04, 0x80]);
    seq.encode_to_on(Endian::Big, &mut dest).unwrap();
    assert_eq!(dest, vec![9, 9, 0x04, 0x80, 0x04, 0x80]);
}

#[test]
fn required_bytes_rounds_up_to_whole_words() {
    assert_eq!(required_bytes(0, WordWidth::W32), 0);
    assert_eq!(required_bytes(100, WordWidth::W8), 13);
    assert_eq!(required_bytes(100, WordWidth::W16), 14);
    assert_eq!(required_bytes(100, WordWidth::W32), 16);
    assert_eq!(required_bytes(100, WordWidth::W64), 16);
    assert_eq!(required_words(100, WordWidth::W64), 2);
    assert_eq!(required_words(128, WordWidth::W64), 2);
    assert_eq!(required_words(129, WordWidth::W64), 3);
    assert_eq!(required_bytes(u32::MAX as usize, WordWidth::W8), 0x2000_0000);
    assert_eq!(required_bytes(usize::MAX, WordWidth::W64), (usize::MAX / 64 + 1) * 8);
}

#[test]
fn reverse_endian_twice_restores() {
    let start: Vec<u8> = (0u8..23).collect();
    for size in [1usize, 2, 3, 4, 8, 23, 40] {
        let mut buffer = start.clone();
        reverse_endian(&mut buffer, size);
        if size == 1 || size > start.len() {
            assert_eq!(buffer, start);
        } else {
            assert_ne!(buffer, start);
        }
        reverse_endian(&mut buffer, size);
        assert_eq!(buffer, start);
    }
}

#[test]
fn normalize_turns_words_on_a_big_endian_host_only() {
    let start = vec![1u8, 2, 3, 4, 5, 6, 7, 8];
    for width in WIDTHS {
        let mut buffer = start.clone();
        normalize(&mut buffer, width, Endian::Little);
        assert_eq!(buffer, start);
        normalize(&mut buffer, width, Endian::Big);
        let mut turned = start.clone();
        reverse_endian(&mut turned, width.bytes());
        assert_eq!(buffer, turned);
        normalize(&mut buffer, width, Endian::Big);
        assert_eq!(buffer, start);
    }
    let mut buffer = start.clone();
    normalize(&mut buffer, WordWidth::W32, Endian::Big);
    assert_eq!(buffer, vec![4, 3, 2, 1, 8, 7, 6, 5]);
}

#[test]
fn reverse_endian_leaves_a_trailing_part_alone() {
    let mut buffer = vec![1u8, 2, 3, 4, 5, 6, 7];
    reverse_endian(&mut buffer, 4);
    assert_eq!(buffer, vec![4, 3, 2, 1, 5, 6, 7]);
    let mut buffer = vec![1u8, 2, 3, 4, 5, 6, 7];
    reverse_endian(&mut buffer, 3);
    assert_eq!(buffer, vec![3, 2, 1, 6, 5, 4, 7]);
    let mut empty: Vec<u8> = Vec::new();
    reverse_endian(&mut empty, 8);
    assert!(empty.is_empty());
}

#[test]
fn empty_sequence_is_one_zero_byte() {
    for order in ORDERS {
        for width in WIDTHS {
            let seq = BitSequence::new(order, width);
            assert_eq!(seq.len(), 0);
            assert_eq!(seq.encode().unwrap(), vec![0u8]);
            let from_nothing = BitSequence::from_bits(order, width, &[]);
            assert_eq!(from_nothing.encode().unwrap(), vec![0u8]);
            let stream = [0u8];
            let mut input = Input::new(&stream);
            let decoded = BitSequence::decode(&mut input, order, width).unwrap();
            assert_eq!(decoded.len(), 0);
            assert!(decoded.as_words().is_empty());
            assert_eq!(decoded, seq);
        }
    }
}

#[test]
fn whole_words_have_no_slack_word() {
    for width in WIDTHS {
        for count in [1usize, 2, 5] {
            let len = count * width.bits();
            let seq = BitSequence::from_bits(Order::Msb0, width, &pattern(len));
            let encoded = seq.encode().unwrap();
            let prefix = compact(len as u32).len();
            assert_eq!(encoded.len(), prefix + count * width.bytes());
            assert_eq!(seq.as_words().len(), count);
            let one_more = BitSequence::from_bits(Order::Msb0, width, &pattern(len + 1));
            assert_eq!(one_more.encode().unwrap().len(), prefix + (count + 1) * width.bytes());
        }
    }
}

#[test]
fn truncated_record_is_an_error() {
    for width in WIDTHS {
        for len in [1usize, 9, 70, 20000] {
            let seq = BitSequence::from_bits(Order::Msb0, width, &pattern(len));
            let encoded = seq.encode().unwrap();
            for cut in 0..encoded.len() {
                if cut > 8 && cut + 8 < encoded.len() {
                    continue;
                }
                for host in HOSTS {
                    let mut input = Input::new(&encoded[..cut]);
                    let r = BitSequence::decode_on(&mut input, Order::Msb0, width, host);
                    assert_eq!(r.err(), Some(Error::TruncatedInput));
                    assert_eq!(input.remaining_len(), cut);
                }
            }
        }
    }
}

#[test]
fn hostile_length_is_truncated_input() {
    let mut stream = compact(u32::MAX);
    stream.extend_from_slice(&[0xAA; 16]);
    for width in WIDTHS {
        let mut input = Input::new(&stream);
        let r = BitSequence::decode(&mut input, Order::Lsb0, width);
        assert_eq!(r.err(), Some(Error::TruncatedInput));
        assert_eq!(input.remaining_len(), stream.len());
        let mut input = Input::new(&stream);
        assert_eq!(BitBox::decode(&mut input, Order::Lsb0, width).err(), Some(Error::TruncatedInput));
    }
    let stream = [0x24u8, 0xFF];
    let mut input = Input::new(&stream);
    let r = BitSequence::decode(&mut input, Order::Msb0, WordWidth::W8);
    assert_eq!(r.err(), Some(Error::TruncatedInput));
    let mut input = Input::new(&stream);
    let r = BitSequence::decode(&mut input, Order::Msb0, WordWidth::W16);
    assert_eq!(r.err(), Some(Error::TruncatedInput));
}

#[test]
fn compact_encodings() {
    assert_eq!(compact(0), vec![0x00]);
    assert_eq!(compact(1), vec![0x04]);
    assert_eq!(compact(63), vec![0xFC]);
    assert_eq!(compact(64), vec![0x01, 0x01]);
    assert_eq!(compact(0x3FFF), vec![0xFD, 0xFF]);
    assert_eq!(compact(0x4000), vec![0x02, 0x00, 0x01, 0x00]);
    assert_eq!(compact(0x3FFF_FFFF), vec![0xFE, 0xFF, 0xFF, 0xFF]);
    assert_eq!(compact(0x4000_0000), vec![0x03, 0x00, 0x00, 0x00, 0x40]);
    assert_eq!(compact(u32::MAX), vec![0x03, 0xFF, 0xFF, 0xFF, 0xFF]);
}

#[test]
fn compact_round_trip() {
    let values = [
        0u32, 1, 62, 63, 64, 65, 255, 256, 0x3FFF, 0x4000, 0x4001, 0xFFFF, 0x1_0000, 0x3FFF_FFFF,
        0x4000_0000, 0x4000_0001, 0x8000_0000, u32::MAX - 1, u32::MAX,
    ];
    for v in values {
        let mut stream = compact(v);
        let n = stream.len();
        stream.push(0x55);
        let input = Input::new(&stream);
        assert_eq!(peek_compact_u32(&input), Some((v, n)));
        let mut input = Input::new(&stream);
        assert_eq!(decode_compact_u32(&mut input), Ok(v));
        assert_eq!(input.remaining_len(), 1);
        for cut in 0..n {
            let mut input = Input::new(&stream[..cut]);
            assert_eq!(decode_compact_u32(&mut input), Err(Error::TruncatedInput));
            assert_eq!(input.remaining_len(), cut);
        }
    }
}

#[test]
fn compact_refuses_overlong_forms() {
    let overlong: [&[u8]; 7] = [
        &[0x01, 0x00],
        &[0xFD, 0x00],
        &[0x02, 0x00, 0x00, 0x00],
        &[0xFE, 0xFF, 0x00, 0x00],
        &[0x03, 0x00, 0x00, 0x00, 0x00],
        &[0x03, 0xFF, 0xFF, 0xFF, 0x3F],
        &[0x07, 0x00, 0x00, 0x00, 0x00, 0x01],
    ];
    for stream in overlong {
        let mut input = Input::new(stream);
        assert_eq!(decode_compact_u32(&mut input), Err(Error::TruncatedInput));
        assert_eq!(input.remaining_len(), stream.len());
        let mut input = Input::new(stream);
        let r = BitSequence::decode(&mut input, Order::Msb0, WordWidth::W8);
        assert_eq!(r.err(), Some(Error::TruncatedInput));
    }
}

#[test]
fn length_overflow() {
    assert_eq!(length_prefix(0), Ok(0));
    assert_eq!(length_prefix(u32::MAX as usize), Ok(u32::MAX));
    if usize::BITS > 32 {
        let too_long = (u32::MAX as usize).wrapping_add(1);
        assert_eq!(length_prefix(too_long), Err(Error::LengthOverflow));
        assert_eq!(length_prefix(usize::MAX), Err(Error::LengthOverflow));
    }
}

#[test]
fn capacity_violation() {
    let image = [0xFFu8; 4];
    for host in HOSTS {
        let r = BitSequence::materialize(Order::Msb0, WordWidth::W16, host, &image, 33);
        assert_eq!(r.err(), Some(Error::CapacityViolation));
        let r = BitSequence::materialize(Order::Msb0, WordWidth::W32, host, &image, 33);
        assert_eq!(r.err(), Some(Error::CapacityViolation));
        let r = BitSequence::materialize(Order::Msb0, WordWidth::W64, host, &image, 1);
        assert_eq!(r.err(), Some(Error::CapacityViolation));
        let full = BitSequence::materialize(Order::Msb0, WordWidth::W16, host, &image, 32).unwrap();
        assert_eq!(full.len(), 32);
        assert_eq!(full.as_words(), &[0xFFFF, 0xFFFF]);
        let short = BitSequence::materialize(Order::Msb0, WordWidth::W16, host, &image, 3).unwrap();
        assert_eq!(short.len(), 3);
        assert_eq!(short.as_words(), &[0xFFFF]);
        assert_eq!(short.to_bits(), vec![true, true, true]);
        let none = BitSequence::materialize(Order::Msb0, WordWidth::W16, host, &image, 0).unwrap();
        assert!(none.as_words().is_empty());
    }
}

#[test]
fn materialize_reads_the_host_image() {
    let image = [0x12u8, 0x34, 0x56, 0x78, 0x9A];
    let little =
        BitSequence::materialize(Order::Lsb0, WordWidth::W16, Endian::Little, &image, 32).unwrap();
    assert_eq!(little.as_words(), &[0x3412, 0x7856]);
    let big =
        BitSequence::materialize(Order::Lsb0, WordWidth::W16, Endian::Big, &image, 32).unwrap();
    assert_eq!(big.as_words(), &[0x1234, 0x5678]);
}

#[test]
fn unsupported_word_width() {
    assert_eq!(WordWidth::from_bits(8), Ok(WordWidth::W8));
    assert_eq!(WordWidth::from_bits(16), Ok(WordWidth::W16));
    assert_eq!(WordWidth::from_bits(32), Ok(WordWidth::W32));
    assert_eq!(WordWidth::from_bits(64), Ok(WordWidth::W64));
    for bits in [0usize, 1, 7, 24, 48, 128] {
        assert_eq!(WordWidth::from_bits(bits), Err(Error::UnsupportedWordWidth));
    }
    assert_eq!(WordWidth::W32.bytes(), 4);
    assert_eq!(WordWidth::W32.bits(), 32);
}

#[test]
fn error_messages_differ() {
    let all = [
        Error::LengthOverflow,
        Error::TruncatedInput,
        Error::CapacityViolation,
        Error::UnsupportedWordWidth,
    ];
    for (i, a) in all.iter().enumerate() {
        assert!(!a.message().is_empty());
        for b in &all[i + 1..] {
            assert_ne!(a.message(), b.message());
        }
    }
    assert_eq!(Error::TruncatedInput.message(), "input ended before the record was complete");
}

#[test]
fn bit_numbering() {
    let one = [true, false, false, false, false, false, false, false, false];
    let msb = BitSequence::from_bits(Order::Msb0, WordWidth::W8, &one);
    assert_eq!(msb.as_words(), &[0x80, 0x00]);
    let lsb = BitSequence::from_bits(Order::Lsb0, WordWidth::W8, &one);
    assert_eq!(lsb.as_words(), &[0x01, 0x00]);
    let msb = BitSequence::from_bits(Order::Msb0, WordWidth::W32, &one);
    assert_eq!(msb.as_words(), &[0x8000_0000]);
    let last = {
        let mut bits = vec![false; 64];
        bits[63] = true;
        bits
    };
    assert_eq!(BitSequence::from_bits(Order::Msb0, WordWidth::W64, &last).as_words(), &[1]);
    assert_eq!(
        BitSequence::from_bits(Order::Lsb0, WordWidth::W64, &last).as_words(),
        &[0x8000_0000_0000_0000]
    );
    assert_eq!(Order::Msb0.position(WordWidth::W16, 0), 15);
    assert_eq!(Order::Msb0.position(WordWidth::W16, 15), 0);
    assert_eq!(Order::Lsb0.position(WordWidth::W16, 5), 5);
    assert_eq!(msb.order(), Order::Msb0);
    assert_eq!(msb.width(), WordWidth::W32);
}

#[test]
fn get_and_to_bits() {
    let bits = pattern(77);
    for order in ORDERS {
        for width in WIDTHS {
            let seq = BitSequence::from_bits(order, width, &bits);
            let slice = BitSlice::of(&seq);
            assert_eq!(slice.len(), 77);
            for (i, bit) in bits.iter().enumerate() {
                assert_eq!(seq.get(i), Some(*bit));
                assert_eq!(slice.get(i), Some(*bit));
            }
            assert_eq!(seq.get(77), None);
            assert_eq!(slice.get(77), None);
            assert_eq!(seq.get(usize::MAX), None);
            assert_eq!(seq.to_bits(), bits);
        }
    }
}

#[test]
fn from_words_checks_the_width() {
    assert!(BitSequence::from_words(Order::Msb0, WordWidth::W8, &[0xFF, 0x00]).is_some());
    assert!(BitSequence::from_words(Order::Msb0, WordWidth::W8, &[0x100]).is_none());
    assert!(BitSequence::from_words(Order::Msb0, WordWidth::W16, &[1, 0x1_0000]).is_none());
    assert!(BitSequence::from_words(Order::Msb0, WordWidth::W32, &[0x1_0000_0000]).is_none());
    assert!(BitSequence::from_words(Order::Msb0, WordWidth::W64, &[u64::MAX]).is_some());
    assert!(BitBox::from_words(Order::Msb0, WordWidth::W8, &[0x100]).is_none());
    let seq = BitSequence::from_words(Order::Msb0, WordWidth::W8, &[0x69]).unwrap();
    assert_eq!(seq.len(), 8);
    assert_eq!(
        seq.to_bits(),
        vec![false, true, true, false, true, false, false, true]
    );
}

#[test]
fn equality_ignores_slack_and_packing() {
    let image = [0b1010_0000u8];
    let clean =
        BitSequence::materialize(Order::Msb0, WordWidth::W8, Endian::Little, &image, 3).unwrap();
    let image = [0b1011_1111u8];
    let dirty =
        BitSequence::materialize(Order::Msb0, WordWidth::W8, Endian::Little, &image, 3).unwrap();
    assert_ne!(clean.as_words(), dirty.as_words());
    assert_eq!(clean, dirty);
    let other = BitSequence::from_bits(Order::Lsb0, WordWidth::W64, &[true, false, true]);
    assert_eq!(clean, other);
    let longer = BitSequence::from_bits(Order::Msb0, WordWidth::W8, &[true, false, true, false]);
    assert_ne!(clean, longer);
    let different = BitSequence::from_bits(Order::Msb0, WordWidth::W8, &[true, true, true]);
    assert_ne!(clean, different);
}

#[test]
fn slack_bits_travel_unmasked() {
    let image = [0b1011_1111u8];
    let dirty =
        BitSequence::materialize(Order::Msb0, WordWidth::W8, Endian::Little, &image, 3).unwrap();
    assert_eq!(dirty.encode().unwrap(), vec![0x0C, 0b1011_1111]);
    let stream = [0x0Cu8, 0b1011_1111];
    let mut input = Input::new(&stream);
    let decoded = BitSequence::decode(&mut input, Order::Msb0, WordWidth::W8).unwrap();
    assert_eq!(decoded.to_bits(), vec![true, false, true]);
}

#[test]
fn views_encode_as_the_sequence_does() {
    let seq = BitSequence::from_bits(Order::Lsb0, WordWidth::W32, &pattern(45));
    let slice = BitSlice::of(&seq);
    assert_eq!(slice.encode().unwrap(), seq.encode().unwrap());
    let copy = slice.to_bit_sequence();
    assert_eq!(copy, seq);
    assert_eq!(copy.as_words(), seq.as_words());
    let boxed = BitBox::from_bit_slice(&slice);
    assert_eq!(boxed.encode().unwrap(), seq.encode().unwrap());
    assert_eq!(boxed.as_bit_slice(), slice);
    let mut dest = vec![7u8];
    boxed.encode_to(&mut dest).unwrap();
    let mut expected = vec![7u8];
    slice.encode_to(&mut expected).unwrap();
    assert_eq!(dest, expected);
}

#[test]
fn input_reads_in_order() {
    let data = [1u8, 2, 3, 4, 5];
    let mut input = Input::new(&data);
    assert_eq!(input.remaining_len(), 5);
    assert_eq!(input.peek(0), Some(1));
    assert_eq!(input.peek(4), Some(5));
    assert_eq!(input.peek(5), None);
    assert_eq!(input.read_exact(2), Ok(vec![1, 2]));
    assert_eq!(input.read_exact(4), Err(Error::TruncatedInput));
    assert_eq!(input.remaining_len(), 3);
    input.advance(1);
    assert_eq!(input.read_exact(2), Ok(vec![4, 5]));
    assert_eq!(input.read_exact(0), Ok(vec![]));
    assert_eq!(input.read_exact(1), Err(Error::TruncatedInput));
}

#[test]
fn word_bytes() {
    assert_eq!(byte_of(0x0102_0304_0506_0708, 0), 0x08);
    assert_eq!(byte_of(0x0102_0304_0506_0708, 3), 0x05);
    assert_eq!(byte_of(0x0102_0304_0506_0708, 7), 0x01);
    assert_eq!(place(0xAB, 0), 0xAB);
    assert_eq!(place(0xAB, 2), 0xAB_0000);
    assert_eq!(place(0xFF, 7), 0xFF00_0000_0000_0000);
    assert_eq!(significance(4, Endian::Little, 1), 1);
    assert_eq!(significance(4, Endian::Big, 1), 2);
    assert_eq!(
        native_bytes(&[0x1234, 0x5678], WordWidth::W16, Endian::Little),
        vec![0x34, 0x12, 0x78, 0x56]
    );
    assert_eq!(
        native_bytes(&[0x1234, 0x5678], WordWidth::W16, Endian::Big),
        vec![0x12, 0x34, 0x56, 0x78]
    );
    assert_eq!(word_from(&[9, 0x12, 0x34, 0x56, 0x78], 1, WordWidth::W32, Endian::Big), 0x1234_5678);
    assert_eq!(
        word_from(&[9, 0x12, 0x34, 0x56, 0x78], 1, WordWidth::W32, Endian::Little),
        0x7856_3412
    );
    assert_eq!(
        words_from_native(&[1, 2, 3, 4, 5, 6, 7, 8, 9], WordWidth::W64, Endian::Big),
        vec![0x0102_0304_0506_0708]
    );
    assert_eq!(
        words_from_native(&[1, 2, 3, 4, 5, 6, 7, 8, 9], WordWidth::W64, Endian::Little),
        vec![0x0807_0605_0403_0201]
    );
    assert_eq!(word_max(WordWidth::W16), 0xFFFF);
    assert!(word_bit(0b100, 2));
    assert!(!word_bit(0b100, 1));
    assert_eq!(with_bit(0b100, 0, true, WordWidth::W8), 0b101);
    assert_eq!(with_bit(0b101, 2, false, WordWidth::W8), 0b001);
    assert_eq!(with_bit(0, 63, true, WordWidth::W64), 0x8000_0000_0000_0000);
}

#[test]
fn host_order_is_this_machine() {
    let expected = if u16::from_ne_bytes([1, 0]) == 1 { Endian::Little } else { Endian::Big };
    assert_eq!(host_endian(), expected);
    assert_eq!(endian_of_probe(&[1, 0, 0, 0, 0, 0, 0, 0]), Endian::Little);
    assert_eq!(endian_of_probe(&[0, 0, 0, 0, 0, 0, 0, 1]), Endian::Big);
}

const MAX_PREALLOCATION: usize = 4 * 1024;

#[test]
fn long_sequences_round_trip() {
    let lengths = [
        MAX_PREALLOCATION * 8 + 1,
        MAX_PREALLOCATION * 9,
        MAX_PREALLOCATION * 32 + 1,
        MAX_PREALLOCATION * 33,
    ];
    for width in WIDTHS {
        for len in lengths {
            for fill in [false, true] {
                let bits = vec![fill; len];
                let seq = BitSequence::from_bits(Order::Msb0, width, &bits);
                let encoded = seq.encode().unwrap();
                let mut input = Input::new(&encoded);
                let decoded = BitSequence::decode(&mut input, Order::Msb0, width).unwrap();
                assert_eq!(decoded, seq);
                assert_eq!(decoded.len(), len);
            }
        }
    }
}

#[test]
fn slice_round_trip() {
    let owner = BitSequence::from_words(Order::Msb0, WordWidth::W8, &[0x69]).unwrap();
    let slice = owner.as_bit_slice();
    let encoded = slice.encode().unwrap();
    assert_eq!(encoded, vec![0x20, 0x69]);
    let mut input = Input::new(&encoded[..]);
    let decoded = BitSequence::decode(&mut input, Order::Msb0, WordWidth::W8).unwrap();
    assert_eq!(slice, decoded.as_bit_slice());
}

#[test]
fn fixed_round_trip() {
    let fixed = BitBox::from_words(Order::Msb0, WordWidth::W8, &[5, 10]).unwrap();
    let encoded = fixed.encode().unwrap();
    assert_eq!(encoded, vec![0x40, 5, 10]);
    let mut input = Input::new(&encoded[..]);
    let decoded = BitBox::decode(&mut input, Order::Msb0, WordWidth::W8).unwrap();
    assert_eq!(fixed, decoded);
    assert_eq!(input.remaining_len(), 0);
}
