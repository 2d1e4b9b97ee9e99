//! The closed sets that parameterize a bit sequence: the width of its backing
//! words, the direction in which bits are numbered inside a word, and the byte
//! order of the host that holds the words.

use vstd::prelude::*;
use crate::error::Error;

verus! {

/// Byte order of a host's multi-byte words.
#[derive(Clone, Copy, Debug, PartialEq, Eq, Structural)]
pub enum Endian {
    /// Least significant byte first. This is also the order on the wire.
    Little,
    /// Most significant byte first.
    Big,
}

/// Direction in which bit indices run inside one backing word.
#[derive(Clone, Copy, Debug, PartialEq, Eq, Structural)]
pub enum Order {
    /// Index 0 is the most significant bit of the word.
    Msb0,
    /// Index 0 is the least significant bit of the word.
    Lsb0,
}

/// Width of a backing word. Only fixed widths exist: a word whose size depends
/// on the host has no portable wire form and cannot be named here.
#[derive(Clone, Copy, Debug, PartialEq, Eq, Structural)]
pub enum WordWidth {
    W8,
    W16,
    W32,
    W64,
}

impl WordWidth {
    /// Number of bytes in one word.
    pub open spec fn spec_bytes(self) -> nat {
        match self {
            WordWidth::W8 => 1,
            WordWidth::W16 => 2,
            WordWidth::W32 => 4,
            WordWidth::W64 => 8,
        }
    }

    /// Number of bits in one word: eight to the byte.
    pub open spec fn spec_bits(self) -> nat {
        match self {
            WordWidth::W8 => 8,
            WordWidth::W16 => 16,
            WordWidth::W32 => 32,
            WordWidth::W64 => 64,
        }
    }

    /// One more than the largest value a word can hold.
    pub open spec fn limit(self) -> nat {
        match self {
            WordWidth::W8 => 0x100,
            WordWidth::W16 => 0x1_0000,
            WordWidth::W32 => 0x1_0000_0000,
            WordWidth::W64 => 0x1_0000_0000_0000_0000,
        }
    }

    /// Number of bytes in one word.
    pub fn bytes(self) -> (n: usize)
        ensures
            n == self.spec_bytes(),
    {
        match self {
            WordWidth::W8 => 1,
            WordWidth::W16 => 2,
            WordWidth::W32 => 4,
            WordWidth::W64 => 8,
        }
    }

    /// Number of bits in one word.
    pub fn bits(self) -> (n: usize)
        ensures
            n == self.spec_bits(),
    {
        match self {
            WordWidth::W8 => 8,
            WordWidth::W16 => 16,
            WordWidth::W32 => 32,
            WordWidth::W64 => 64,
        }
    }

    /// The width that is `bits` bits wide, if there is one.
    pub fn from_bits(bits: usize) -> (r: Result<WordWidth, Error>)
        ensures
            match r {
                Ok(w) => w.spec_bits() == bits,
                Err(e) => e == Error::UnsupportedWordWidth && bits != 8 && bits != 16 && bits != 32
                    && bits != 64,
            },
    {
        if bits == 8 {
            Ok(WordWidth::W8)
        } else if bits == 16 {
            Ok(WordWidth::W16)
        } else if bits == 32 {
            Ok(WordWidth::W32)
        } else if bits == 64 {
            Ok(WordWidth::W64)
        } else {
            Err(Error::UnsupportedWordWidth)
        }
    }
}

impl Order {
    /// Significance (0 is the least significant bit) of the bit that has index
    /// `index` inside a word of `width`.
    pub open spec fn spec_position(self, width: WordWidth, index: nat) -> nat
        recommends
            index < width.spec_bits(),
    {
        match self {
            Order::Msb0 => (width.spec_bits() - 1 - index) as nat,
            Order::Lsb0 => index,
        }
    }

    /// Significance of the bit that has index `index` inside a word of `width`.
    pub fn position(self, width: WordWidth, index: usize) -> (p: usize)
        requires
            index < width.spec_bits(),
        ensures
            p == self.spec_position(width, index as nat),
            p < width.spec_bits(),
    {
        match self {
            Order::Msb0 => width.bits() - 1 - index,
            Order::Lsb0 => index,
        }
    }
}

} // verus!
