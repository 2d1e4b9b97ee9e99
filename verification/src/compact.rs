//! The compact integer form of a 32-bit length: one, two, four or five bytes,
//! the shortest that holds the value.
//!
//! The two low bits of the first byte select the form. In the first three the
//! remaining bits, continued in the following bytes least significant byte
//! first, are the value; in the fourth the first byte is 3 and the value
//! follows in four bytes.

use vstd::prelude::*;
use crate::error::Error;
use crate::input::Input;

verus! {

/// The compact encoding of `v`.
pub open spec fn spec_compact_u32(v: u32) -> Seq<u8> {
    if v < 0x40 {
        seq![(v * 4) as u8]
    } else if v < 0x4000 {
        let x = v * 4 + 1;
        seq![(x % 256) as u8, (x / 256) as u8]
    } else if v < 0x4000_0000 {
        let x = v * 4 + 2;
        seq![
            (x % 256) as u8,
            (x / 0x100 % 256) as u8,
            (x / 0x1_0000 % 256) as u8,
            (x / 0x100_0000) as u8,
        ]
    } else {
        seq![
            3u8,
            (v % 256) as u8,
            (v / 0x100 % 256) as u8,
            (v / 0x1_0000 % 256) as u8,
            (v / 0x100_0000) as u8,
        ]
    }
}

/// The value that the bytes at the start of `s` encode, with the number of
/// bytes it takes; `None` where `s` ends too early or does not start with the
/// shortest encoding of a 32-bit value.
pub open spec fn spec_compact_parse(s: Seq<u8>) -> Option<(u32, nat)> {
    if s.len() == 0 {
        None
    } else if s[0] % 4 == 0 {
        Some(((s[0] / 4) as u32, 1))
    } else if s[0] % 4 == 1 {
        if s.len() < 2 {
            None
        } else {
            let v = (s[0] + 0x100 * s[1]) / 4;
            if v >= 0x40 {
                Some((v as u32, 2))
            } else {
                None
            }
        }
    } else if s[0] % 4 == 2 {
        if s.len() < 4 {
            None
        } else {
            let v = (s[0] + 0x100 * s[1] + 0x1_0000 * s[2] + 0x100_0000 * s[3]) / 4;
            if v >= 0x4000 {
                Some((v as u32, 4))
            } else {
                None
            }
        }
    } else {
        if s[0] != 3 || s.len() < 5 {
            None
        } else {
            let v = s[1] + 0x100 * s[2] + 0x1_0000 * s[3] + 0x100_0000 * s[4];
            if v >= 0x4000_0000 {
                Some((v as u32, 5))
            } else {
                None
            }
        }
    }
}

/// Appends the compact encoding of `v` to `dest`.
pub fn encode_compact_u32(v: u32, dest: &mut Vec<u8>)
    ensures
        final(dest)@ == old(dest)@ + spec_compact_u32(v),
{
    if v < 0x40 {
        dest.push((v * 4) as u8);
    } else if v < 0x4000 {
        let x: u32 = v * 4 + 1;
        dest.push((x % 256) as u8);
        dest.push((x / 256) as u8);
    } else if v < 0x4000_0000 {
        let x: u32 = v * 4 + 2;
        dest.push((x % 256) as u8);
        dest.push((x / 0x100 % 256) as u8);
        dest.push((x / 0x1_0000 % 256) as u8);
        dest.push((x / 0x100_0000) as u8);
    } else {
        dest.push(3u8);
        dest.push((v % 256) as u8);
        dest.push((v / 0x100 % 256) as u8);
        dest.push((v / 0x1_0000 % 256) as u8);
        dest.push((v / 0x100_0000) as u8);
    }
    assert(dest@ =~= old(dest)@ + spec_compact_u32(v));
}

/// Looks at the front of `input` for one compact 32-bit value, and returns it
/// with the number of bytes it takes. Nothing is consumed.
///
/// Gives `None` where the input ends inside the value or holds an encoding
/// that is longer than the value needs.
pub fn peek_compact_u32(input: &Input) -> (r: Option<(u32, usize)>)
    ensures
        match r {
            Some((v, n)) => spec_compact_parse(input@) == Some((v, n as nat)) && n
                == spec_compact_u32(v).len() && n <= input@.len(),
            None => spec_compact_parse(input@).is_none(),
        },
{
    let b0: u8 = match input.peek(0) {
        Some(b) => b,
        None => { return None; },
    };
    let mode: u8 = b0 % 4;
    if mode == 0 {
        Some(((b0 / 4) as u32, 1))
    } else if mode == 1 {
        let b1: u8 = match input.peek(1) {
            Some(b) => b,
            None => { return None; },
        };
        let v: u32 = (b0 as u32 + 0x100 * (b1 as u32)) / 4;
        if v >= 0x40 {
            Some((v, 2))
        } else {
            None
        }
    } else if mode == 2 {
        let b3: u8 = match input.peek(3) {
            Some(b) => b,
            None => { return None; },
        };
        let b1: u8 = match input.peek(1) {
            Some(b) => b,
            None => { return None; },
        };
        let b2: u8 = match input.peek(2) {
            Some(b) => b,
            None => { return None; },
        };
        let v: u32 = (b0 as u32 + 0x100 * (b1 as u32) + 0x1_0000 * (b2 as u32) + 0x100_0000 * (
        b3 as u32)) / 4;
        if v >= 0x4000 {
            Some((v, 4))
        } else {
            None
        }
    } else {
        if b0 != 3 {
            return None;
        }
        let b4: u8 = match input.peek(4) {
            Some(b) => b,
            None => { return None; },
        };
        let b1: u8 = match input.peek(1) {
            Some(b) => b,
            None => { return None; },
        };
        let b2: u8 = match input.peek(2) {
            Some(b) => b,
            None => { return None; },
        };
        let b3: u8 = match input.peek(3) {
            Some(b) => b,
            None => { return None; },
        };
        let v: u32 = b1 as u32 + 0x100 * (b2 as u32) + 0x1_0000 * (b3 as u32) + 0x100_0000 * (
        b4 as u32);
        if v >= 0x4000_0000 {
            Some((v, 5))
        } else {
            None
        }
    }
}

/// Reads one compact 32-bit value from the front of `input`.
///
/// Fails, consuming nothing, where the input ends inside the value or holds
/// an encoding that is longer than the value needs.
pub fn decode_compact_u32(input: &mut Input) -> (r: Result<u32, Error>)
    ensures
        match r {
            Ok(v) => spec_compact_parse(old(input)@) == Some((v, spec_compact_u32(v).len()))
                && final(input)@ == old(input)@.skip(spec_compact_u32(v).len() as int),
            Err(e) => e == Error::TruncatedInput && spec_compact_parse(old(input)@).is_none()
                && final(input)@ == old(input)@,
        },
{
    match peek_compact_u32(input) {
        Some((v, n)) => {
            input.advance(n);
            Ok(v)
        },
        None => Err(Error::TruncatedInput),
    }
}

/// Parsing the encoding of `v`, whatever follows it, gives `v` back and stops
/// where the encoding ends.
pub proof fn lemma_compact_round_trip(v: u32, rest: Seq<u8>)
    ensures
        spec_compact_parse(spec_compact_u32(v) + rest) == Some((v, spec_compact_u32(v).len())),
{
    let s = spec_compact_u32(v) + rest;
    if v < 0x40 {
        assert(s[0] == spec_compact_u32(v)[0]);
    } else if v < 0x4000 {
        assert(s[0] == spec_compact_u32(v)[0]);
        assert(s[1] == spec_compact_u32(v)[1]);
    } else if v < 0x4000_0000 {
        assert(s[0] == spec_compact_u32(v)[0]);
        assert(s[1] == spec_compact_u32(v)[1]);
        assert(s[2] == spec_compact_u32(v)[2]);
        assert(s[3] == spec_compact_u32(v)[3]);
    } else {
        assert(s[0] == spec_compact_u32(v)[0]);
        assert(s[1] == spec_compact_u32(v)[1]);
        assert(s[2] == spec_compact_u32(v)[2]);
        assert(s[3] == spec_compact_u32(v)[3]);
        assert(s[4] == spec_compact_u32(v)[4]);
    }
}

/// An encoding that is cut off before its end does not parse.
pub proof fn lemma_compact_truncated(v: u32, cut: nat)
    requires
        cut < spec_compact_u32(v).len(),
    ensures
        spec_compact_parse(spec_compact_u32(v).take(cut as int)) is None,
{
    let whole = spec_compact_u32(v);
    let s = whole.take(cut as int);
    if cut > 0 {
        assert(s[0] == whole[0]);
    }
}

/// Whatever parses is the encoding of the value it parses to: every value has
/// one encoding, and no other bytes are accepted for it.
pub proof fn lemma_compact_canonical(s: Seq<u8>)
    ensures
        match spec_compact_parse(s) {
            Some((v, n)) => n <= s.len() && s.take(n as int) == spec_compact_u32(v),
            None => true,
        },
{
    if s.len() == 0 {
    } else if s[0] % 4 == 0 {
        let v = (s[0] / 4) as u32;
        assert(v < 0x40 && v * 4 == s[0]);
        assert(s.take(1) =~= spec_compact_u32(v));
    } else if s[0] % 4 == 1 {
        if s.len() >= 2 {
            let x = s[0] + 0x100 * s[1];
            if x / 4 >= 0x40 {
                let v = (x / 4) as u32;
                assert(v < 0x4000 && v * 4 + 1 == x);
                assert(x % 256 == s[0] && x / 256 == s[1]);
                assert(s.take(2) =~= spec_compact_u32(v));
            }
        }
    } else if s[0] % 4 == 2 {
        if s.len() >= 4 {
            let x = s[0] + 0x100 * s[1] + 0x1_0000 * s[2] + 0x100_0000 * s[3];
            if x / 4 >= 0x4000 {
                let v = (x / 4) as u32;
                assert(v < 0x4000_0000 && v * 4 + 2 == x);
                lemma_four_bytes(s[0], s[1], s[2], s[3]);
                assert(s.take(4) =~= spec_compact_u32(v));
            }
        }
    } else {
        if s[0] == 3 && s.len() >= 5 {
            let x = s[1] + 0x100 * s[2] + 0x1_0000 * s[3] + 0x100_0000 * s[4];
            if x >= 0x4000_0000 {
                let v = x as u32;
                lemma_four_bytes(s[1], s[2], s[3], s[4]);
                assert(s.take(5) =~= spec_compact_u32(v));
            }
        }
    }
}

/// Four bytes, read least significant first, are the four base-256 digits of
/// the number they spell.
proof fn lemma_four_bytes(b0: u8, b1: u8, b2: u8, b3: u8)
    ensures
        ({
            let x = b0 + 0x100 * b1 + 0x1_0000 * b2 + 0x100_0000 * b3;
            &&& 0 <= x < 0x1_0000_0000
            &&& x % 256 == b0
            &&& x / 0x100 % 256 == b1
            &&& x / 0x1_0000 % 256 == b2
            &&& x / 0x100_0000 == b3
        }),
{
}

} // verus!
