//! Bit sequences and their records.
//!
//! A bit sequence is a run of bits packed into backing words of one width.
//! Its record is the bit count as a compact integer, followed by the words,
//! each written least significant byte first.

use vstd::prelude::*;
use vstd::slice::slice_to_vec;
use crate::compact::{
    encode_compact_u32,
    lemma_compact_round_trip,
    lemma_compact_truncated,
    peek_compact_u32,
    spec_compact_parse,
    spec_compact_u32,
};
use crate::bits::{
    lemma_pack_step,
    lemma_pack_unique,
    lemma_packed_view,
    spec_pack,
    lemma_zero_word,
    spec_bits,
    spec_packed,
    spec_word_bit,
    with_bit,
    word_bit,
};
use crate::endian::normalize;
use crate::error::Error;
use crate::host::host_endian;
use crate::input::Input;
use crate::length::{
    lemma_bit_location,
    lemma_required_bytes_aligned,
    lemma_required_formula,
    lemma_required_words_minimal,
    lemma_required_words_step,
    lemma_words_hold,
    required_bytes,
    required_words,
    spec_required_bytes,
    spec_required_words,
};
use crate::storage::{
    lemma_normalized_image,
    lemma_words_from_normalized,
    lemma_words_round_trip,
    native_bytes,
    spec_wire_bytes,
    spec_word_max,
    spec_words_fit,
    word_max,
    spec_words_from_native,
    spec_words_from_wire,
    words_from_native,
};
use crate::word::{Endian, Order, WordWidth};

verus! {

/// The record of a sequence of `len` bits in `words`.
pub open spec fn spec_record(len: nat, words: Seq<u64>, width: WordWidth) -> Seq<u8> {
    spec_compact_u32(len as u32) + spec_wire_bytes(words, width)
}

/// Number of bits that the whole words in `len` bytes can carry.
pub open spec fn spec_capacity(len: nat, width: WordWidth) -> nat {
    (len / width.spec_bytes()) * width.spec_bits()
}

/// What one record holds, and how many bytes it takes.
pub ghost struct Record {
    /// Number of bits in the sequence.
    pub bit_count: nat,
    /// The backing words, slack bits of the last one included.
    pub words: Seq<u64>,
    /// Length of the record in bytes, prefix and payload.
    pub consumed: nat,
}

/// The record at the start of `s`, for words of `width`; `None` where the
/// length prefix does not parse or fewer payload bytes follow than the bit
/// count asks for.
pub open spec fn spec_parse_record(s: Seq<u8>, width: WordWidth) -> Option<Record> {
    match spec_compact_parse(s) {
        None => None,
        Some((bits, n)) => {
            let need = spec_required_bytes(bits as nat, width);
            if s.len() < n + need {
                None
            } else {
                Some(
                    Record {
                        bit_count: bits as nat,
                        words: spec_words_from_wire(s.subrange(n as int, (n + need) as int), width),
                        consumed: n + need,
                    },
                )
            }
        },
    }
}

/// The length prefix value for a sequence of `bit_length` bits, or
/// `LengthOverflow` where 32 bits cannot count them.
pub fn length_prefix(bit_length: usize) -> (r: Result<u32, Error>)
    ensures
        match r {
            Ok(v) => v == bit_length,
            Err(e) => e == Error::LengthOverflow && bit_length > u32::MAX,
        },
{
    if bit_length > 0xffff_ffff {
        Err(Error::LengthOverflow)
    } else {
        Ok(bit_length as u32)
    }
}

/// An owned sequence of bits, packed into backing words.
///
/// The words are exactly as many as the bits need. Bits of the last word
/// behind the last bit of the sequence are slack: they travel with the word
/// but are no part of the value.
#[derive(Debug)]
pub struct BitSequence {
    order: Order,
    width: WordWidth,
    bit_length: usize,
    words: Vec<u64>,
}

impl View for BitSequence {
    type V = Seq<bool>;

    /// The bits of the sequence, in order.
    open spec fn view(&self) -> Seq<bool> {
        spec_bits(self.spec_order(), self.spec_width(), self.spec_words(), self.spec_len())
    }
}

impl BitSequence {
    /// Direction in which bits are numbered inside a word.
    pub closed spec fn spec_order(&self) -> Order {
        self.order
    }

    /// Width of the backing words.
    pub closed spec fn spec_width(&self) -> WordWidth {
        self.width
    }

    /// Number of bits.
    pub closed spec fn spec_len(&self) -> nat {
        self.bit_length as nat
    }

    /// The backing words.
    pub closed spec fn spec_words(&self) -> Seq<u64> {
        self.words@
    }

    /// The words are as many as the bits need, and each fits the width.
    pub open spec fn wf(&self) -> bool {
        &&& self.spec_words().len() == spec_required_words(self.spec_len(), self.spec_width())
        &&& spec_words_fit(self.spec_words(), self.spec_width())
        &&& self.spec_len() <= usize::MAX
    }

    #[verifier::type_invariant]
    spec fn valid(&self) -> bool {
        self.wf()
    }

    /// The record of this sequence.
    pub open spec fn spec_encoding(&self) -> Seq<u8> {
        spec_record(self.spec_len(), self.spec_words(), self.spec_width())
    }

    /// The empty sequence.
    pub fn new(order: Order, width: WordWidth) -> (seq: Self)
        ensures
            seq.wf(),
            seq.spec_order() == order,
            seq.spec_width() == width,
            seq.spec_len() == 0,
            seq.spec_words() == Seq::<u64>::empty(),
    {
        proof {
            lemma_required_words_minimal(0, width);
        }
        BitSequence { order, width, bit_length: 0, words: Vec::new() }
    }

    /// The sequence of `bit_length` bits in `words`, which are as many as
    /// the bits need.
    pub(crate) fn from_parts(
        order: Order,
        width: WordWidth,
        bit_length: usize,
        words: Vec<u64>,
    ) -> (seq: Self)
        requires
            words@.len() == spec_required_words(bit_length as nat, width),
            spec_words_fit(words@, width),
        ensures
            seq.wf(),
            seq.spec_order() == order,
            seq.spec_width() == width,
            seq.spec_len() == bit_length,
            seq.spec_words() == words@,
    {
        BitSequence { order, width, bit_length, words }
    }

    /// Direction in which bits are numbered inside a word.
    pub fn order(&self) -> (order: Order)
        ensures
            order == self.spec_order(),
    {
        self.order
    }

    /// Width of the backing words.
    pub fn width(&self) -> (width: WordWidth)
        ensures
            width == self.spec_width(),
    {
        self.width
    }

    /// Number of bits.
    pub fn len(&self) -> (n: usize)
        ensures
            n == self.spec_len(),
            n == self@.len(),
            self.wf(),
    {
        proof {
            use_type_invariant(self);
        }
        self.bit_length
    }

    /// The backing words, slack bits included.
    pub fn as_words(&self) -> (words: &[u64])
        ensures
            words@ == self.spec_words(),
            self.wf(),
    {
        proof {
            use_type_invariant(self);
        }
        self.words.as_slice()
    }

    /// The bit at `index`, or `None` behind the end.
    pub fn get(&self, index: usize) -> (r: Option<bool>)
        ensures
            r == (if index < self@.len() {
                Some(self@[index as int])
            } else {
                None
            }),
    {
        proof {
            use_type_invariant(self);
        }
        if index >= self.bit_length {
            return None;
        }
        let element_bits: usize = self.width.bits();
        proof {
            lemma_bit_location(index as nat, self.bit_length as nat, self.width);
        }
        let w: u64 = self.words[index / element_bits];
        let p: usize = self.order.position(self.width, index % element_bits);
        Some(word_bit(w, p))
    }

    /// The bits of the sequence, one `bool` each.
    pub fn to_bits(&self) -> (bits: Vec<bool>)
        ensures
            bits@ == self@,
    {
        let mut bits: Vec<bool> = Vec::new();
        let n: usize = self.len();
        let mut i: usize = 0;
        while i < n
            invariant
                n == self@.len(),
                0 <= i <= n,
                bits@ == self@.take(i as int),
            decreases n - i,
        {
            let bit: bool = match self.get(i) {
                Some(b) => b,
                None => false,
            };
            bits.push(bit);
            assert(bits@ =~= self@.take(i + 1));
            i = i + 1;
        }
        assert(bits@ =~= self@);
        bits
    }

    /// Packs `bits` into words of `width`, numbering them as `order` says.
    /// Slack bits of the last word are clear.
    pub fn from_bits(order: Order, width: WordWidth, bits: &[bool]) -> (seq: Self)
        ensures
            seq.wf(),
            seq.spec_order() == order,
            seq.spec_width() == width,
            seq.spec_len() == bits@.len(),
            seq@ == bits@,
            seq.spec_words() == spec_pack(order, width, bits@),
    {
        let element_bits: usize = width.bits();
        let n: usize = bits.len();
        let mut words: Vec<u64> = Vec::new();
        let mut i: usize = 0;
        proof {
            lemma_required_words_minimal(0, width);
        }
        while i < n
            invariant
                element_bits == width.spec_bits(),
                n == bits@.len(),
                0 <= i <= n,
                spec_words_fit(words@, width),
                spec_packed(order, width, bits@.take(i as int), words@),
            decreases n - i,
        {
            let ghost before = words@;
            let offset: usize = i % element_bits;
            if offset == 0 {
                words.push(0);
            }
            proof {
                lemma_required_words_step(i as nat, width);
            }
            let last: usize = words.len() - 1;
            let p: usize = order.position(width, offset);
            let w: u64 = words[last];
            let updated: u64 = with_bit(w, p, bits[i], width);
            words.set(last, updated);
            proof {
                assert(last == i / element_bits);
                assert forall|q: nat| q < 64 implies #[trigger] spec_word_bit(updated, q) == (if q
                    == p {
                    bits@[i as int]
                } else if offset == 0 {
                    false
                } else {
                    spec_word_bit(before[last as int], q)
                }) by {
                    if offset == 0 {
                        lemma_zero_word(q);
                    }
                }
                lemma_pack_step(order, width, bits@, i as nat, before, words@);
            }
            i = i + 1;
        }
        proof {
            assert(bits@.take(n as int) =~= bits@);
            lemma_packed_view(order, width, bits@, words@);
            lemma_pack_unique(order, width, bits@, words@);
        }
        BitSequence { order, width, bit_length: n, words }
    }

    /// The sequence that fills `words` to the last bit. Gives `None` where a
    /// word does not fit `width`, or where the bits are too many to count.
    pub fn from_words(order: Order, width: WordWidth, words: &[u64]) -> (r: Option<Self>)
        ensures
            match r {
                Some(seq) => {
                    &&& seq.wf()
                    &&& seq.spec_order() == order
                    &&& seq.spec_width() == width
                    &&& seq.spec_words() == words@
                    &&& seq.spec_len() == words@.len() * width.spec_bits()
                    &&& spec_words_fit(words@, width)
                },
                None => !spec_words_fit(words@, width) || words@.len() * width.spec_bits()
                    > usize::MAX,
            },
    {
        let element_bits: usize = width.bits();
        let count: usize = words.len();
        if count > usize::MAX / element_bits {
            assert(count * element_bits > usize::MAX) by (nonlinear_arith)
                requires
                    count > usize::MAX / element_bits,
                    element_bits > 0,
            ;
            return None;
        }
        assert(count * element_bits <= usize::MAX) by (nonlinear_arith)
            requires
                count <= usize::MAX / element_bits,
                element_bits > 0,
        ;
        let max: u64 = word_max(width);
        let mut i: usize = 0;
        while i < count
            invariant
                count == words@.len(),
                max == spec_word_max(width),
                0 <= i <= count,
                forall|k: int| 0 <= k < i ==> #[trigger] words@[k] <= max,
            decreases count - i,
        {
            if words[i] > max {
                return None;
            }
            i = i + 1;
        }
        proof {
            lemma_required_bytes_aligned(count as nat, width);
        }
        Some(
            BitSequence {
                order,
                width,
                bit_length: count * element_bits,
                words: slice_to_vec(words),
            },
        )
    }

    /// Appends the record of this sequence to `dest`: the bit count as a
    /// compact integer, then the memory image of the words, turned into
    /// little-endian order where `host` holds them big-endian.
    ///
    /// Fails, writing nothing, where the bit count does not fit 32 bits. The
    /// bytes written do not depend on `host`.
    pub fn encode_to_on(&self, host: Endian, dest: &mut Vec<u8>) -> (r: Result<(), Error>)
        ensures
            match r {
                Ok(_) => self.spec_len() <= u32::MAX && final(dest)@ == old(dest)@
                    + self.spec_encoding(),
                Err(e) => e == Error::LengthOverflow && self.spec_len() > u32::MAX && final(dest)@
                    == old(dest)@,
            },
    {
        let prefix: u32 = match length_prefix(self.bit_length) {
            Ok(v) => v,
            Err(e) => { return Err(e); },
        };
        encode_compact_u32(prefix, dest);
        let mut bytes: Vec<u8> = native_bytes(self.words.as_slice(), self.width, host);
        normalize(bytes.as_mut_slice(), self.width, host);
        proof {
            lemma_normalized_image(self.words@, self.width, host);
        }
        dest.append(&mut bytes);
        assert(dest@ =~= old(dest)@ + self.spec_encoding());
        Ok(())
    }

    /// The record of this sequence in a buffer of its own, written as on
    /// `host`.
    pub fn encode_on(&self, host: Endian) -> (r: Result<Vec<u8>, Error>)
        ensures
            match r {
                Ok(bytes) => self.spec_len() <= u32::MAX && bytes@ == self.spec_encoding(),
                Err(e) => e == Error::LengthOverflow && self.spec_len() > u32::MAX,
            },
    {
        let mut dest: Vec<u8> = Vec::new();
        match self.encode_to_on(host, &mut dest) {
            Ok(_) => {
                assert(dest@ =~= self.spec_encoding());
                Ok(dest)
            },
            Err(e) => Err(e),
        }
    }

    /// Builds the sequence of `bit_count` bits whose words have `image` as
    /// their memory image on `host`.
    ///
    /// The words are read out of `image` one by one into storage of their
    /// own. The bit count is then held against the bits that these words can
    /// carry: a count beyond them is refused. Words that the count does not
    /// reach are dropped.
    pub fn materialize(
        order: Order,
        width: WordWidth,
        host: Endian,
        image: &[u8],
        bit_count: usize,
    ) -> (r: Result<Self, Error>)
        ensures
            match r {
                Ok(seq) => {
                    &&& bit_count <= spec_capacity(image@.len(), width)
                    &&& seq.wf()
                    &&& seq.spec_order() == order
                    &&& seq.spec_width() == width
                    &&& seq.spec_len() == bit_count
                    &&& seq.spec_words() == spec_words_from_native(image@, width, host).take(
                        spec_required_words(bit_count as nat, width) as int,
                    )
                },
                Err(e) => e == Error::CapacityViolation && bit_count
                    > spec_capacity(image@.len(), width),
            },
    {
        let mut words: Vec<u64> = words_from_native(image, width, host);
        let needed: usize = required_words(bit_count, width);
        proof {
            lemma_words_hold(bit_count as nat, words@.len(), width);
        }
        if needed > words.len() {
            return Err(Error::CapacityViolation);
        }
        words.truncate(needed);
        Ok(BitSequence { order, width, bit_length: bit_count, words })
    }

    /// Reads one record from the front of `input` and builds its sequence,
    /// with bits numbered as `order` says in words of `width`.
    ///
    /// The payload length is computed from the bit count and tested against
    /// what is left of the input before any byte of it is read. A failed
    /// call consumes nothing and builds nothing. The result does not depend on
    /// `host`.
    pub fn decode_on(input: &mut Input, order: Order, width: WordWidth, host: Endian) -> (r:
        Result<Self, Error>)
        ensures
            match r {
                Ok(seq) => {
                    &&& spec_parse_record(old(input)@, width) matches Some(record)
                    &&& seq.wf()
                    &&& seq.spec_order() == order
                    &&& seq.spec_width() == width
                    &&& seq.spec_len() == record.bit_count
                    &&& seq.spec_words() == record.words
                    &&& final(input)@ == old(input)@.skip(record.consumed as int)
                },
                Err(e) => e == Error::TruncatedInput && spec_parse_record(old(input)@, width)
                    is None && final(input)@ == old(input)@,
            },
    {
        let ghost source = input@;
        let (bits, prefix_len): (u32, usize) = match peek_compact_u32(input) {
            Some(found) => found,
            None => { return Err(Error::TruncatedInput); },
        };
        let bit_count: usize = bits as usize;
        let need: usize = required_bytes(bit_count, width);
        if input.remaining_len() - prefix_len < need {
            return Err(Error::TruncatedInput);
        }
        input.advance(prefix_len);
        let mut payload: Vec<u8> = match input.read_exact(need) {
            Ok(bytes) => bytes,
            Err(e) => { return Err(e); },
        };
        let ghost wire = payload@;
        assert(wire =~= source.subrange(prefix_len as int, prefix_len + need));
        assert(input@ =~= source.skip(prefix_len + need));
        normalize(payload.as_mut_slice(), width, host);
        proof {
            lemma_required_words_minimal(bit_count as nat, width);
            lemma_words_from_normalized(wire, width, host);
            assert(payload@.len() == need);
        }
        match Self::materialize(order, width, host, payload.as_slice(), bit_count) {
            Ok(seq) => {
                assert(seq.spec_words() =~= spec_words_from_wire(wire, width));
                Ok(seq)
            },
            Err(e) => Err(e),
        }
    }

    /// Appends the record of this sequence to `dest`, on this machine. Fails,
    /// writing nothing, where the bit count does not fit 32 bits.
    pub fn encode_to(&self, dest: &mut Vec<u8>) -> (r: Result<(), Error>)
        ensures
            match r {
                Ok(_) => self.spec_len() <= u32::MAX && final(dest)@ == old(dest)@
                    + self.spec_encoding(),
                Err(e) => e == Error::LengthOverflow && self.spec_len() > u32::MAX && final(dest)@
                    == old(dest)@,
            },
    {
        self.encode_to_on(host_endian(), dest)
    }

    /// The record of this sequence in a buffer of its own, written on this
    /// machine.
    pub fn encode(&self) -> (r: Result<Vec<u8>, Error>)
        ensures
            match r {
                Ok(bytes) => self.spec_len() <= u32::MAX && bytes@ == self.spec_encoding(),
                Err(e) => e == Error::LengthOverflow && self.spec_len() > u32::MAX,
            },
    {
        self.encode_on(host_endian())
    }

    /// Reads one record from the front of `input` on this machine and builds
    /// its sequence, with bits numbered as `order` says in words of `width`.
    /// A failed call consumes nothing and builds nothing.
    pub fn decode(input: &mut Input, order: Order, width: WordWidth) -> (r: Result<Self, Error>)
        ensures
            match r {
                Ok(seq) => {
                    &&& spec_parse_record(old(input)@, width) matches Some(record)
                    &&& seq.wf()
                    &&& seq.spec_order() == order
                    &&& seq.spec_width() == width
                    &&& seq.spec_len() == record.bit_count
                    &&& seq.spec_words() == record.words
                    &&& final(input)@ == old(input)@.skip(record.consumed as int)
                },
                Err(e) => e == Error::TruncatedInput && spec_parse_record(old(input)@, width)
                    is None && final(input)@ == old(input)@,
            },
    {
        Self::decode_on(input, order, width, host_endian())
    }

    /// Decoding the record of a sequence gives the sequence back: the same
    /// bit count and the same words, hence the same bits, for every bit
    /// numbering and word width. The bytes that follow the record are not
    /// touched.
    pub proof fn lemma_round_trip(&self, rest: Seq<u8>)
        requires
            self.wf(),
            self.spec_len() <= u32::MAX,
        ensures
            spec_parse_record(self.spec_encoding() + rest, self.spec_width()) == Some(
                Record {
                    bit_count: self.spec_len(),
                    words: self.spec_words(),
                    consumed: self.spec_encoding().len(),
                },
            ),
            spec_parse_record(self.spec_encoding() + rest, self.spec_width()) matches Some(record)
                && spec_bits(self.spec_order(), self.spec_width(), record.words, record.bit_count)
                == self@,
    {
        let width = self.spec_width();
        let words = self.spec_words();
        let prefix = spec_compact_u32(self.spec_len() as u32);
        let wire = spec_wire_bytes(words, width);
        let s = self.spec_encoding() + rest;
        assert(s =~= prefix + (wire + rest));
        lemma_compact_round_trip(self.spec_len() as u32, wire + rest);
        let n = prefix.len();
        let need = spec_required_bytes(self.spec_len(), width);
        assert(need == wire.len());
        assert(s.subrange(n as int, (n + need) as int) =~= wire);
        lemma_words_round_trip(words, width, Endian::Little);
    }

    /// A record that is cut off anywhere before its end, inside the length
    /// prefix or inside the payload, does not parse.
    pub proof fn lemma_truncated_record(&self, cut: nat)
        requires
            self.wf(),
            self.spec_len() <= u32::MAX,
            cut < self.spec_encoding().len(),
        ensures
            spec_parse_record(self.spec_encoding().take(cut as int), self.spec_width()) is None,
    {
        let width = self.spec_width();
        let bits = self.spec_len() as u32;
        let prefix = spec_compact_u32(bits);
        let wire = spec_wire_bytes(self.spec_words(), width);
        let s = self.spec_encoding().take(cut as int);
        if cut < prefix.len() {
            assert(s =~= prefix.take(cut as int));
            lemma_compact_truncated(bits, cut);
        } else {
            let tail = wire.take(cut - prefix.len());
            assert(s =~= prefix + tail);
            lemma_compact_round_trip(bits, tail);
        }
    }

    /// The payload of a record is as long as the bit count asks for, which
    /// is a whole number of words even where the bits do not fill the last.
    pub proof fn lemma_payload_length(&self)
        requires
            self.wf(),
        ensures
            spec_wire_bytes(self.spec_words(), self.spec_width()).len() == spec_required_bytes(
                self.spec_len(),
                self.spec_width(),
            ),
            spec_wire_bytes(self.spec_words(), self.spec_width()).len()
                % self.spec_width().spec_bytes() == 0,
    {
        lemma_required_words_minimal(self.spec_len(), self.spec_width());
        lemma_required_formula(self.spec_len(), self.spec_width());
    }

    /// The empty sequence has a one-byte record: the length prefix zero and
    /// no payload.
    pub proof fn lemma_empty_record(&self)
        requires
            self.wf(),
            self.spec_len() == 0,
        ensures
            self.spec_encoding() == seq![0u8],
    {
        lemma_required_words_minimal(0, self.spec_width());
        assert(self.spec_encoding() =~= seq![0u8]);
    }

    /// A sequence that fills `count` words to the last bit has a payload of
    /// exactly those words: no word of slack follows.
    pub proof fn lemma_aligned_payload(&self, count: nat)
        requires
            self.wf(),
            self.spec_len() == count * self.spec_width().spec_bits(),
        ensures
            self.spec_words().len() == count,
            spec_wire_bytes(self.spec_words(), self.spec_width()).len() == count
                * self.spec_width().spec_bytes(),
    {
        lemma_required_bytes_aligned(count, self.spec_width());
    }
}

/// A length prefix that claims more payload than the input still holds makes
/// the record unreadable, however the payload bytes that are there look.
pub proof fn lemma_hostile_length(s: Seq<u8>, width: WordWidth, bits: u32, n: nat)
    requires
        spec_compact_parse(s) == Some((bits, n)),
        n + spec_required_bytes(bits as nat, width) > s.len(),
    ensures
        spec_parse_record(s, width) is None,
{
}

} // verus!
