//! Other shapes of a bit sequence: a borrowed view, and an owned one of fixed
//! length. Both are written and read as the sequence is.

use vstd::prelude::*;
use vstd::slice::slice_to_vec;
use crate::error::Error;
use crate::input::Input;
use crate::length::{lemma_bit_location, spec_required_words};
use crate::bits::{spec_bits, word_bit};
use crate::sequence::{spec_parse_record, spec_record, BitSequence};
use crate::storage::spec_words_fit;
use crate::word::{Order, WordWidth};

verus! {

/// A borrowed view of a bit sequence.
#[derive(Clone, Copy, Debug)]
pub struct BitSlice<'a> {
    order: Order,
    width: WordWidth,
    bit_length: usize,
    words: &'a [u64],
}

impl<'a> View for BitSlice<'a> {
    type V = Seq<bool>;

    /// The bits of the view, in order.
    open spec fn view(&self) -> Seq<bool> {
        spec_bits(self.spec_order(), self.spec_width(), self.spec_words(), self.spec_len())
    }
}

impl<'a> BitSlice<'a> {
    /// Direction in which bits are numbered inside a word.
    pub closed spec fn spec_order(&self) -> Order {
        self.order
    }

    /// Width of the backing words.
    pub closed spec fn spec_width(&self) -> WordWidth {
        self.width
    }

    /// Number of bits.
    pub closed spec fn spec_len(&self) -> nat {
        self.bit_length as nat
    }

    /// The backing words.
    pub closed spec fn spec_words(&self) -> Seq<u64> {
        self.words@
    }

    /// The words are as many as the bits need, and each fits the width.
    pub open spec fn wf(&self) -> bool {
        &&& self.spec_words().len() == spec_required_words(self.spec_len(), self.spec_width())
        &&& spec_words_fit(self.spec_words(), self.spec_width())
        &&& self.spec_len() <= usize::MAX
    }

    #[verifier::type_invariant]
    spec fn valid(&self) -> bool {
        self.wf()
    }

    /// The record of the viewed sequence.
    pub open spec fn spec_encoding(&self) -> Seq<u8> {
        spec_record(self.spec_len(), self.spec_words(), self.spec_width())
    }

    /// A view of all of `seq`.
    pub fn of(seq: &'a BitSequence) -> (slice: Self)
        ensures
            slice.wf(),
            slice.spec_order() == seq.spec_order(),
            slice.spec_width() == seq.spec_width(),
            slice.spec_len() == seq.spec_len(),
            slice.spec_words() == seq.spec_words(),
            slice@ == seq@,
    {
        let words: &'a [u64] = seq.as_words();
        BitSlice { order: seq.order(), width: seq.width(), bit_length: seq.len(), words }
    }

    /// Number of bits.
    pub fn len(&self) -> (n: usize)
        ensures
            n == self.spec_len(),
            n == self@.len(),
    {
        self.bit_length
    }

    /// The bit at `index`, or `None` behind the end.
    pub fn get(&self, index: usize) -> (r: Option<bool>)
        ensures
            r == (if index < self@.len() {
                Some(self@[index as int])
            } else {
                None
            }),
    {
        proof {
            use_type_invariant(self);
        }
        if index >= self.bit_length {
            return None;
        }
        let element_bits: usize = self.width.bits();
        proof {
            lemma_bit_location(index as nat, self.bit_length as nat, self.width);
        }
        let w: u64 = self.words[index / element_bits];
        let p: usize = self.order.position(self.width, index % element_bits);
        Some(word_bit(w, p))
    }

    /// An owned copy of the viewed sequence.
    pub fn to_bit_sequence(&self) -> (seq: BitSequence)
        ensures
            seq.wf(),
            seq.spec_order() == self.spec_order(),
            seq.spec_width() == self.spec_width(),
            seq.spec_len() == self.spec_len(),
            seq.spec_words() == self.spec_words(),
            seq@ == self@,
    {
        proof {
            use_type_invariant(self);
        }
        BitSequence::from_parts(self.order, self.width, self.bit_length, slice_to_vec(self.words))
    }

    /// Appends the record of the viewed sequence to `dest`, by way of an
    /// owned copy. Fails, writing nothing, where the bit count does not fit
    /// 32 bits.
    pub fn encode_to(&self, dest: &mut Vec<u8>) -> (r: Result<(), Error>)
        ensures
            match r {
                Ok(_) => self.spec_len() <= u32::MAX && final(dest)@ == old(dest)@
                    + self.spec_encoding(),
                Err(e) => e == Error::LengthOverflow && self.spec_len() > u32::MAX && final(dest)@
                    == old(dest)@,
            },
    {
        self.to_bit_sequence().encode_to(dest)
    }

    /// The record of the viewed sequence in a buffer of its own.
    pub fn encode(&self) -> (r: Result<Vec<u8>, Error>)
        ensures
            match r {
                Ok(bytes) => self.spec_len() <= u32::MAX && bytes@ == self.spec_encoding(),
                Err(e) => e == Error::LengthOverflow && self.spec_len() > u32::MAX,
            },
    {
        self.to_bit_sequence().encode()
    }
}

impl BitSequence {
    /// A view of the whole sequence.
    pub fn as_bit_slice(&self) -> (slice: BitSlice<'_>)
        ensures
            slice.wf(),
            slice.spec_order() == self.spec_order(),
            slice.spec_width() == self.spec_width(),
            slice.spec_len() == self.spec_len(),
            slice.spec_words() == self.spec_words(),
            slice@ == self@,
    {
        BitSlice::of(self)
    }
}

/// An owned bit sequence of fixed length. It holds what a sequence holds and
/// nothing more.
#[derive(Debug)]
pub struct BitBox {
    inner: BitSequence,
}

impl View for BitBox {
    type V = Seq<bool>;

    /// The bits of the owned sequence, in order.
    open spec fn view(&self) -> Seq<bool> {
        self.spec_sequence()@
    }
}

impl BitBox {
    /// The sequence that this value owns.
    pub closed spec fn spec_sequence(&self) -> BitSequence {
        self.inner
    }

    /// An owned copy of the bits that `slice` views.
    pub fn from_bit_slice(slice: &BitSlice) -> (boxed: Self)
        ensures
            boxed.spec_sequence().wf(),
            boxed.spec_sequence().spec_order() == slice.spec_order(),
            boxed.spec_sequence().spec_width() == slice.spec_width(),
            boxed.spec_sequence().spec_len() == slice.spec_len(),
            boxed.spec_sequence().spec_words() == slice.spec_words(),
            boxed@ == slice@,
    {
        BitBox { inner: slice.to_bit_sequence() }
    }

    /// The sequence that fills `words` to the last bit. Gives `None` where a
    /// word does not fit `width`, or where the bits are too many to count.
    pub fn from_words(order: Order, width: WordWidth, words: &[u64]) -> (r: Option<Self>)
        ensures
            match r {
                Some(boxed) => {
                    &&& boxed.spec_sequence().wf()
                    &&& boxed.spec_sequence().spec_order() == order
                    &&& boxed.spec_sequence().spec_width() == width
                    &&& boxed.spec_sequence().spec_words() == words@
                    &&& boxed.spec_sequence().spec_len() == words@.len() * width.spec_bits()
                },
                None => !spec_words_fit(words@, width) || words@.len() * width.spec_bits()
                    > usize::MAX,
            },
    {
        match BitSequence::from_words(order, width, words) {
            Some(inner) => Some(BitBox { inner }),
            None => None,
        }
    }

    /// A view of the owned sequence.
    pub fn as_bit_slice(&self) -> (slice: BitSlice<'_>)
        ensures
            slice.wf(),
            slice.spec_order() == self.spec_sequence().spec_order(),
            slice.spec_width() == self.spec_sequence().spec_width(),
            slice.spec_len() == self.spec_sequence().spec_len(),
            slice.spec_words() == self.spec_sequence().spec_words(),
            slice@ == self@,
    {
        BitSlice::of(&self.inner)
    }

    /// Appends the record of the owned sequence to `dest`, by way of a view
    /// of it. Fails, writing nothing, where the bit count does not fit 32
    /// bits.
    pub fn encode_to(&self, dest: &mut Vec<u8>) -> (r: Result<(), Error>)
        ensures
            match r {
                Ok(_) => self.spec_sequence().spec_len() <= u32::MAX && final(dest)@ == old(dest)@
                    + self.spec_sequence().spec_encoding(),
                Err(e) => e == Error::LengthOverflow && self.spec_sequence().spec_len() > u32::MAX
                    && final(dest)@ == old(dest)@,
            },
    {
        self.as_bit_slice().encode_to(dest)
    }

    /// The record of the owned sequence in a buffer of its own.
    pub fn encode(&self) -> (r: Result<Vec<u8>, Error>)
        ensures
            match r {
                Ok(bytes) => self.spec_sequence().spec_len() <= u32::MAX && bytes@
                    == self.spec_sequence().spec_encoding(),
                Err(e) => e == Error::LengthOverflow && self.spec_sequence().spec_len() > u32::MAX,
            },
    {
        self.as_bit_slice().encode()
    }

    /// Reads one record from the front of `input` as a sequence, and takes
    /// a copy of it. A failed call consumes nothing.
    pub fn decode(input: &mut Input, order: Order, width: WordWidth) -> (r: Result<Self, Error>)
        ensures
            match r {
                Ok(boxed) => {
                    &&& spec_parse_record(old(input)@, width) matches Some(record)
                    &&& boxed.spec_sequence().wf()
                    &&& boxed.spec_sequence().spec_order() == order
                    &&& boxed.spec_sequence().spec_width() == width
                    &&& boxed.spec_sequence().spec_len() == record.bit_count
                    &&& boxed.spec_sequence().spec_words() == record.words
                    &&& final(input)@ == old(input)@.skip(record.consumed as int)
                },
                Err(e) => e == Error::TruncatedInput && spec_parse_record(old(input)@, width)
                    is None && final(input)@ == old(input)@,
            },
    {
        match BitSequence::decode(input, order, width) {
            Ok(seq) => Ok(BitBox::from_bit_slice(&BitSlice::of(&seq))),
            Err(e) => Err(e),
        }
    }
}

} // verus!
