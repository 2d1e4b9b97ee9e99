use bitvec::order::{Lsb0, Msb0};
use bitvec::slice::BitSlice;
use bitvec::vec::BitVec;
use bitvec_codec::{BitSequence, Endian, Input, Order, WordWidth};
use byte_slice_cast::AsByteSlice;

fn pattern(len: usize) -> Vec<bool> {
    (0..len).map(|i| (i * 11 + i / 5) % 7 < 3).collect()
}

fn host() -> Endian {
    if u16::from_ne_bytes([1, 0]) == 1 {
        Endian::Little
    } else {
        Endian::Big
    }
}

const LENGTHS: [usize; 12] = [0, 1, 7, 8, 9, 16, 17, 33, 64, 65, 130, 1001];

#[test]
fn packing_matches_bitvec_msb0_u8() {
    for len in LENGTHS {
        let bits = pattern(len);
        let mut theirs: BitVec<Msb0, u8> = BitVec::new();
        for bit in &bits {
            theirs.push(*bit);
        }
        let ours = BitSequence::from_bits(Order::Msb0, WordWidth::W8, &bits);
        let words: Vec<u64> = theirs.as_slice().iter().map(|w| u64::from(*w)).collect();
        assert_eq!(ours.as_words(), &words[..]);
        assert_eq!(ours.len(), theirs.len());
        for i in 0..len {
            assert_eq!(ours.get(i), Some(theirs[i]));
        }
    }
}

#[test]
fn packing_matches_bitvec_msb0_u16() {
    for len in LENGTHS {
        let bits = pattern(len);
        let mut theirs: BitVec<Msb0, u16> = BitVec::new();
        for bit in &bits {
            theirs.push(*bit);
        }
        let ours = BitSequence::from_bits(Order::Msb0, WordWidth::W16, &bits);
        let words: Vec<u64> = theirs.as_slice().iter().map(|w| u64::from(*w)).collect();
        assert_eq!(ours.as_words(), &words[..]);
    }
}

#[test]
fn packing_matches_bitvec_lsb0_u32() {
    for len in LENGTHS {
        let bits = pattern(len);
        let mut theirs: BitVec<Lsb0, u32> = BitVec::new();
        for bit in &bits {
            theirs.push(*bit);
        }
        let ours = BitSequence::from_bits(Order::Lsb0, WordWidth::W32, &bits);
        let words: Vec<u64> = theirs.as_slice().iter().map(|w| u64::from(*w)).collect();
        assert_eq!(ours.as_words(), &words[..]);
    }
}

#[test]
fn packing_matches_bitvec_lsb0_u64() {
    for len in LENGTHS {
        let bits = pattern(len);
        let mut theirs: BitVec<Lsb0, u64> = BitVec::new();
        for bit in &bits {
            theirs.push(*bit);
        }
        let ours = BitSequence::from_bits(Order::Lsb0, WordWidth::W64, &bits);
        assert_eq!(ours.as_words(), theirs.as_slice());
    }
}

#[test]
fn record_of_a_bitvec_image() {
    for len in LENGTHS {
        let bits = pattern(len);
        let mut theirs: BitVec<Msb0, u32> = BitVec::new();
        for bit in &bits {
            theirs.push(*bit);
        }
        let image: &[u8] = theirs.as_slice().as_byte_slice();
        let ours =
            BitSequence::materialize(Order::Msb0, WordWidth::W32, host(), image, theirs.len())
                .unwrap();
        assert_eq!(ours.to_bits(), bits);

        let encoded = ours.encode().unwrap();
        let mut expected = Vec::new();
        bitvec_codec::compact::encode_compact_u32(len as u32, &mut expected);
        for word in theirs.as_slice() {
            expected.extend_from_slice(&word.to_le_bytes());
        }
        assert_eq!(encoded, expected);

        let mut input = Input::new(&encoded);
        let decoded = BitSequence::decode(&mut input, Order::Msb0, WordWidth::W32).unwrap();
        let words: Vec<u32> = decoded.as_words().iter().map(|w| *w as u32).collect();
        let mut back: BitVec<Msb0, u32> = BitVec::from_vec(words);
        back.truncate(decoded.len());
        assert_eq!(back, theirs);
    }
}

#[test]
fn native_image_matches_byte_slice_cast() {
    let words16: [u16; 3] = [0x0102, 0x0304, 0xFFFE];
    let wide: Vec<u64> = words16.iter().map(|w| u64::from(*w)).collect();
    assert_eq!(
        bitvec_codec::storage::native_bytes(&wide, WordWidth::W16, host()),
        words16.as_byte_slice().to_vec()
    );
    let words64: [u64; 2] = [0x0102_0304_0506_0708, 0x1122_3344_5566_7788];
    assert_eq!(
        bitvec_codec::storage::native_bytes(&words64, WordWidth::W64, host()),
        words64.as_byte_slice().to_vec()
    );
    assert_eq!(
        bitvec_codec::storage::words_from_native(
            words64.as_byte_slice(),
            WordWidth::W64,
            host()
        ),
        words64.to_vec()
    );
}

#[test]
fn a_vector_that_starts_inside_a_word() {
    let data = [0xB6u8, 0x5A];
    let whole = BitSlice::<Msb0, u8>::from_slice(&data);
    let part = &whole[3..13];
    let expected: Vec<bool> = part.iter().copied().collect();
    assert_eq!(expected.len(), 10);

    let mut aligned = part.to_vec();
    aligned.force_align();
    let image: &[u8] = aligned.as_slice().as_byte_slice();
    let ours =
        BitSequence::materialize(Order::Msb0, WordWidth::W8, host(), image, aligned.len()).unwrap();
    assert_eq!(ours.to_bits(), expected);
    assert_eq!(ours, BitSequence::from_bits(Order::Msb0, WordWidth::W8, &expected));

    let encoded = ours.encode().unwrap();
    assert_eq!(encoded.len(), 1 + 2);
    let mut input = Input::new(&encoded);
    let decoded = BitSequence::decode(&mut input, Order::Msb0, WordWidth::W8).unwrap();
    assert_eq!(decoded.to_bits(), expected);
}
