//! Backing words and their bytes.
//!
//! A word of any width is held as a `u64` whose value fits the width. In a
//! host's memory a word takes as many bytes as its width says, the least
//! significant first on a little-endian host and last on a big-endian one.

use vstd::prelude::*;
use vstd::arithmetic::div_mod::lemma_div_denominator;
use crate::endian::{
    lemma_chunk_index,
    lemma_index_chunk,
    lemma_mirror_index,
    lemma_reverse_endian_single,
    spec_normalize,
    spec_reverse_endian,
};
use crate::word::{Endian, WordWidth};

verus! {

/// 256 to the power `p`, up to the eight bytes of a 64-bit word.
pub open spec fn spec_pow256(p: nat) -> nat {
    if p == 0 {
        0x1
    } else if p == 1 {
        0x100
    } else if p == 2 {
        0x1_0000
    } else if p == 3 {
        0x100_0000
    } else if p == 4 {
        0x1_0000_0000
    } else if p == 5 {
        0x100_0000_0000
    } else if p == 6 {
        0x1_0000_0000_0000
    } else if p == 7 {
        0x100_0000_0000_0000
    } else {
        0x1_0000_0000_0000_0000
    }
}

/// The byte of `w` with significance `p`: 0 is the least significant byte.
pub open spec fn spec_byte_of(w: u64, p: nat) -> u8
    recommends
        p < 8,
{
    (if p == 0 {
        w as nat % 256
    } else if p == 1 {
        w as nat / 0x100 % 256
    } else if p == 2 {
        w as nat / 0x1_0000 % 256
    } else if p == 3 {
        w as nat / 0x100_0000 % 256
    } else if p == 4 {
        w as nat / 0x1_0000_0000 % 256
    } else if p == 5 {
        w as nat / 0x100_0000_0000 % 256
    } else if p == 6 {
        w as nat / 0x1_0000_0000_0000 % 256
    } else {
        w as nat / 0x100_0000_0000_0000 % 256
    }) as u8
}

/// What the byte `b` is worth at significance `p`: `b` times 256 to the
/// power `p`.
pub open spec fn spec_place(b: u8, p: nat) -> nat
    recommends
        p < 8,
{
    if p == 0 {
        b as nat
    } else if p == 1 {
        b as nat * 0x100
    } else if p == 2 {
        b as nat * 0x1_0000
    } else if p == 3 {
        b as nat * 0x100_0000
    } else if p == 4 {
        b as nat * 0x1_0000_0000
    } else if p == 5 {
        b as nat * 0x100_0000_0000
    } else if p == 6 {
        b as nat * 0x1_0000_0000_0000
    } else {
        b as nat * 0x100_0000_0000_0000
    }
}

/// Significance of the byte that a host keeps at offset `offset` of a word of
/// `size` bytes.
pub open spec fn spec_significance(size: nat, host: Endian, offset: nat) -> nat
    recommends
        offset < size,
{
    match host {
        Endian::Little => offset,
        Endian::Big => (size - 1 - offset) as nat,
    }
}

/// The largest value of a word of `width`.
pub open spec fn spec_word_max(width: WordWidth) -> u64 {
    match width {
        WordWidth::W8 => 0xff,
        WordWidth::W16 => 0xffff,
        WordWidth::W32 => 0xffff_ffff,
        WordWidth::W64 => 0xffff_ffff_ffff_ffff,
    }
}

/// Every word of `words` fits `width`.
pub open spec fn spec_words_fit(words: Seq<u64>, width: WordWidth) -> bool {
    forall|i: int| 0 <= i < words.len() ==> #[trigger] words[i] <= spec_word_max(width)
}

/// The memory image of `words` on a host: the bytes of each word in the
/// host's order, word after word.
pub open spec fn spec_native_bytes(words: Seq<u64>, width: WordWidth, host: Endian) -> Seq<u8> {
    Seq::new(
        words.len() * width.spec_bytes(),
        |k: int|
            spec_byte_of(
                words[k / (width.spec_bytes() as int)],
                spec_significance(
                    width.spec_bytes(),
                    host,
                    (k % (width.spec_bytes() as int)) as nat,
                ),
            ),
    )
}

/// The bytes of `words` as a record carries them: every word least
/// significant byte first, whatever the host.
pub open spec fn spec_wire_bytes(words: Seq<u64>, width: WordWidth) -> Seq<u8> {
    spec_native_bytes(words, width, Endian::Little)
}

/// The word whose memory image on `host` is the first `width` bytes of
/// `chunk`.
pub open spec fn spec_word_from(chunk: Seq<u8>, width: WordWidth, host: Endian) -> u64
    recommends
        chunk.len() >= width.spec_bytes(),
{
    let size = width.spec_bytes();
    let at = |p: nat| spec_place(chunk[spec_significance(size, host, p) as int], p);
    (match width {
        WordWidth::W8 => at(0),
        WordWidth::W16 => at(0) + at(1),
        WordWidth::W32 => at(0) + at(1) + at(2) + at(3),
        WordWidth::W64 => at(0) + at(1) + at(2) + at(3) + at(4) + at(5) + at(6) + at(7),
    }) as u64
}

/// The words whose memory image on `host` is `bytes`. Bytes behind the last
/// whole word belong to no word.
pub open spec fn spec_words_from_native(bytes: Seq<u8>, width: WordWidth, host: Endian) -> Seq<
    u64,
> {
    Seq::new(
        bytes.len() / width.spec_bytes(),
        |i: int|
            spec_word_from(
                bytes.subrange(i * width.spec_bytes(), i * width.spec_bytes() + width.spec_bytes()),
                width,
                host,
            ),
    )
}

/// The words that a record's payload carries.
pub open spec fn spec_words_from_wire(bytes: Seq<u8>, width: WordWidth) -> Seq<u64> {
    spec_words_from_native(bytes, width, Endian::Little)
}

/// The byte of `w` with significance `p`.
pub fn byte_of(w: u64, p: usize) -> (b: u8)
    requires
        p < 8,
    ensures
        b == spec_byte_of(w, p as nat),
{
    if p == 0 {
        (w % 256) as u8
    } else if p == 1 {
        (w / 0x100 % 256) as u8
    } else if p == 2 {
        (w / 0x1_0000 % 256) as u8
    } else if p == 3 {
        (w / 0x100_0000 % 256) as u8
    } else if p == 4 {
        (w / 0x1_0000_0000 % 256) as u8
    } else if p == 5 {
        (w / 0x100_0000_0000 % 256) as u8
    } else if p == 6 {
        (w / 0x1_0000_0000_0000 % 256) as u8
    } else {
        (w / 0x100_0000_0000_0000 % 256) as u8
    }
}

/// The largest value of a word of `width`.
pub fn word_max(width: WordWidth) -> (max: u64)
    ensures
        max == spec_word_max(width),
{
    match width {
        WordWidth::W8 => 0xff,
        WordWidth::W16 => 0xffff,
        WordWidth::W32 => 0xffff_ffff,
        WordWidth::W64 => 0xffff_ffff_ffff_ffff,
    }
}

/// What the byte `b` is worth at significance `p`.
pub fn place(b: u8, p: usize) -> (v: u64)
    requires
        p < 8,
    ensures
        v == spec_place(b, p as nat),
        v as nat + spec_pow256(p as nat) <= spec_pow256((p + 1) as nat),
{
    let wide: u64 = b as u64;
    if p == 0 {
        wide
    } else if p == 1 {
        wide * 0x100
    } else if p == 2 {
        wide * 0x1_0000
    } else if p == 3 {
        wide * 0x100_0000
    } else if p == 4 {
        wide * 0x1_0000_0000
    } else if p == 5 {
        wide * 0x100_0000_0000
    } else if p == 6 {
        wide * 0x1_0000_0000_0000
    } else {
        wide * 0x100_0000_0000_0000
    }
}

/// Significance of the byte that `host` keeps at offset `offset` of a word of
/// `size` bytes.
pub fn significance(size: usize, host: Endian, offset: usize) -> (p: usize)
    requires
        offset < size,
    ensures
        p == spec_significance(size as nat, host, offset as nat),
        p < size,
{
    match host {
        Endian::Little => offset,
        Endian::Big => size - 1 - offset,
    }
}

/// Lays `words` out as `host` holds them in memory.
pub fn native_bytes(words: &[u64], width: WordWidth, host: Endian) -> (bytes: Vec<u8>)
    ensures
        bytes@ == spec_native_bytes(words@, width, host),
{
    let size: usize = width.bytes();
    let mut bytes: Vec<u8> = Vec::new();
    let mut i: usize = 0;
    while i < words.len()
        invariant
            size == width.spec_bytes(),
            0 <= i <= words@.len(),
            bytes@.len() == i * size,
            forall|k: int|
                0 <= k < bytes@.len() ==> #[trigger] bytes@[k] == spec_native_bytes(
                    words@,
                    width,
                    host,
                )[k],
        decreases words@.len() - i,
    {
        let w: u64 = words[i];
        let mut j: usize = 0;
        while j < size
            invariant
                size == width.spec_bytes(),
                0 <= i < words@.len(),
                w == words@[i as int],
                0 <= j <= size,
                bytes@.len() == i * size + j,
                forall|k: int|
                    0 <= k < bytes@.len() ==> #[trigger] bytes@[k] == spec_native_bytes(
                        words@,
                        width,
                        host,
                    )[k],
            decreases size - j,
        {
            let b: u8 = byte_of(w, significance(size, host, j));
            proof {
                let k = bytes@.len() as int;
                lemma_chunk_index(k, size as int, i as int);
                assert(k < words@.len() * size) by (nonlinear_arith)
                    requires
                        k == i * size + j,
                        j < size,
                        i < words@.len(),
                ;
            }
            bytes.push(b);
            j = j + 1;
        }
        assert((i + 1) * size == i * size + size) by (nonlinear_arith);
        i = i + 1;
    }
    assert(bytes@ =~= spec_native_bytes(words@, width, host));
    bytes
}

/// Reads the word whose memory image on `host` starts at `at` in `bytes`.
pub fn word_from(bytes: &[u8], at: usize, width: WordWidth, host: Endian) -> (w: u64)
    requires
        at + width.spec_bytes() <= bytes@.len(),
    ensures
        w == spec_word_from(
            bytes@.subrange(at as int, at + width.spec_bytes()),
            width,
            host,
        ),
        w <= spec_word_max(width),
{
    let size: usize = width.bytes();
    let ghost chunk = bytes@.subrange(at as int, at + width.spec_bytes());
    assert(bytes@.len() == bytes.len());
    let mut w: u64 = 0;
    let mut p: usize = 0;
    while p < size
        invariant
            size == width.spec_bytes(),
            at + size <= bytes@.len() <= usize::MAX,
            chunk == bytes@.subrange(at as int, at + size),
            0 <= p <= size,
            w as nat == spec_partial_word(chunk, size as nat, host, p as nat),
            (w as nat) < spec_pow256(p as nat),
        decreases size - p,
    {
        let offset: usize = significance(size, host, p);
        let b: u8 = bytes[at + offset];
        assert(b == chunk[offset as int]);
        w = w + place(b, p);
        p = p + 1;
    }
    proof {
        lemma_partial_word_whole(chunk, width, host);
    }
    w
}

/// The sum of the `count` least significant bytes of the word whose memory
/// image on `host` is `chunk`, each at its place.
pub open spec fn spec_partial_word(chunk: Seq<u8>, size: nat, host: Endian, count: nat) -> nat
    decreases count,
{
    if count == 0 {
        0
    } else {
        spec_partial_word(chunk, size, host, (count - 1) as nat) + spec_place(
            chunk[spec_significance(size, host, (count - 1) as nat) as int],
            (count - 1) as nat,
        )
    }
}

/// Summing all the bytes of a word gives the word.
proof fn lemma_partial_word_whole(chunk: Seq<u8>, width: WordWidth, host: Endian)
    requires
        chunk.len() >= width.spec_bytes(),
    ensures
        spec_partial_word(chunk, width.spec_bytes(), host, width.spec_bytes()) == spec_word_from(
            chunk,
            width,
            host,
        ),
        spec_word_from(chunk, width, host) <= spec_word_max(width),
{
    let size = width.spec_bytes();
    let part = |count: nat| spec_partial_word(chunk, size, host, count);
    let term = |p: nat| spec_place(chunk[spec_significance(size, host, p) as int], p);
    assert(part(0) == 0);
    assert(part(1) == part(0) + term(0));
    assert(part(2) == part(1) + term(1));
    assert(part(3) == part(2) + term(2));
    assert(part(4) == part(3) + term(3));
    assert(part(5) == part(4) + term(4));
    assert(part(6) == part(5) + term(5));
    assert(part(7) == part(6) + term(6));
    assert(part(8) == part(7) + term(7));
    assert(term(0) <= 0xff);
    assert(size >= 2 ==> term(1) <= 0xff00);
    assert(size >= 4 ==> term(2) <= 0xff_0000 && term(3) <= 0xff00_0000);
    assert(size >= 8 ==> term(4) <= 0xff_0000_0000 && term(5) <= 0xff00_0000_0000 && term(6)
        <= 0xff_0000_0000_0000 && term(7) <= 0xff00_0000_0000_0000);
    match width {
        WordWidth::W8 => {
            assert(part(1) <= 0xff);
        },
        WordWidth::W16 => {
            assert(part(2) <= 0xffff);
        },
        WordWidth::W32 => {
            assert(part(4) <= 0xffff_ffff);
        },
        WordWidth::W64 => {
            assert(part(8) <= 0xffff_ffff_ffff_ffff);
        },
    }
}

/// Reads the words whose memory image on `host` is `bytes`. Bytes behind the
/// last whole word are not read.
pub fn words_from_native(bytes: &[u8], width: WordWidth, host: Endian) -> (words: Vec<u64>)
    ensures
        words@ == spec_words_from_native(bytes@, width, host),
        spec_words_fit(words@, width),
{
    let size: usize = width.bytes();
    let count: usize = bytes.len() / size;
    proof {
        lemma_index_chunk(bytes@.len() as int, size as int);
    }
    let mut words: Vec<u64> = Vec::with_capacity(count);
    let mut i: usize = 0;
    while i < count
        invariant
            size == width.spec_bytes(),
            count == bytes@.len() / (size as nat),
            count * size <= bytes@.len() <= usize::MAX,
            0 <= i <= count,
            words@.len() == i,
            spec_words_fit(words@, width),
            forall|k: int|
                0 <= k < i ==> #[trigger] words@[k] == spec_words_from_native(
                    bytes@,
                    width,
                    host,
                )[k],
        decreases count - i,
    {
        assert((i + 1) * size <= count * size && (i + 1) * size == i * size + size && i * size
            >= 0) by (nonlinear_arith)
            requires
                0 <= i < count,
                size > 0,
        ;
        let w: u64 = word_from(bytes, i * size, width, host);
        words.push(w);
        i = i + 1;
    }
    assert(words@ =~= spec_words_from_native(bytes@, width, host));
    words
}

/// A word that fits its width is the sum of its bytes, each at its place.
proof fn lemma_word_of_bytes(w: u64, width: WordWidth)
    requires
        w <= spec_word_max(width),
    ensures
        ({
            let at = |p: nat| spec_place(spec_byte_of(w, p), p);
            w as nat == match width {
                WordWidth::W8 => at(0),
                WordWidth::W16 => at(0) + at(1),
                WordWidth::W32 => at(0) + at(1) + at(2) + at(3),
                WordWidth::W64 => at(0) + at(1) + at(2) + at(3) + at(4) + at(5) + at(6) + at(7),
            }
        }),
{
    let n = w as int;
    let q1 = n / 0x100;
    let q2 = n / 0x1_0000;
    let q3 = n / 0x100_0000;
    let q4 = n / 0x1_0000_0000;
    let q5 = n / 0x100_0000_0000;
    let q6 = n / 0x1_0000_0000_0000;
    let q7 = n / 0x100_0000_0000_0000;
    lemma_div_denominator(n, 0x100, 0x100);
    lemma_div_denominator(n, 0x1_0000, 0x100);
    lemma_div_denominator(n, 0x100_0000, 0x100);
    lemma_div_denominator(n, 0x1_0000_0000, 0x100);
    lemma_div_denominator(n, 0x100_0000_0000, 0x100);
    lemma_div_denominator(n, 0x1_0000_0000_0000, 0x100);
    assert(q2 == q1 / 0x100);
    assert(q3 == q2 / 0x100);
    assert(q4 == q3 / 0x100);
    assert(q5 == q4 / 0x100);
    assert(q6 == q5 / 0x100);
    assert(q7 == q6 / 0x100);
    assert(n == n % 256 + 256 * q1);
    assert(q1 == q1 % 256 + 256 * q2);
    assert(q2 == q2 % 256 + 256 * q3);
    assert(q3 == q3 % 256 + 256 * q4);
    assert(q4 == q4 % 256 + 256 * q5);
    assert(q5 == q5 % 256 + 256 * q6);
    assert(q6 == q6 % 256 + 256 * q7);
    assert(q7 == q7 % 256);
    assert(spec_byte_of(w, 0) == n % 256);
    assert(spec_byte_of(w, 1) == q1 % 256);
    assert(spec_byte_of(w, 2) == q2 % 256);
    assert(spec_byte_of(w, 3) == q3 % 256);
    assert(spec_byte_of(w, 4) == q4 % 256);
    assert(spec_byte_of(w, 5) == q5 % 256);
    assert(spec_byte_of(w, 6) == q6 % 256);
    assert(spec_byte_of(w, 7) == q7 % 256);
    match width {
        WordWidth::W8 => {},
        WordWidth::W16 => {},
        WordWidth::W32 => {},
        WordWidth::W64 => {},
    }
}

/// Reading back the memory image of words that fit their width gives the
/// words, on either host.
pub proof fn lemma_words_round_trip(words: Seq<u64>, width: WordWidth, host: Endian)
    requires
        spec_words_fit(words, width),
    ensures
        spec_words_from_native(spec_native_bytes(words, width, host), width, host) == words,
{
    let size = width.spec_bytes() as int;
    let image = spec_native_bytes(words, width, host);
    let back = spec_words_from_native(image, width, host);
    assert(image.len() / (size as nat) == words.len() && image.len() == words.len() * size)
        by (nonlinear_arith)
        requires
            image.len() == words.len() * size,
            size > 0,
    ;
    assert forall|i: int| 0 <= i < words.len() implies back[i] == words[i] by {
        let chunk = image.subrange(i * size, i * size + size);
        assert(i * size + size <= words.len() * size && i * size >= 0) by (nonlinear_arith)
            requires
                0 <= i < words.len(),
                size > 0,
        ;
        assert forall|j: int| 0 <= j < size implies chunk[j] == spec_byte_of(
            words[i],
            spec_significance(size as nat, host, j as nat),
        ) by {
            lemma_chunk_index(i * size + j, size, i);
        }
        lemma_word_of_bytes(words[i], width);
        assert(spec_word_from(chunk, width, host) == words[i]);
    }
    assert(back =~= words);
}

/// Turning a big-endian memory image around word by word gives the
/// little-endian image of the same words, and the other way round.
pub proof fn lemma_reverse_native_bytes(words: Seq<u64>, width: WordWidth, host: Endian)
    ensures
        spec_reverse_endian(spec_native_bytes(words, width, host), width.spec_bytes())
            == spec_native_bytes(
            words,
            width,
            match host {
                Endian::Little => Endian::Big,
                Endian::Big => Endian::Little,
            },
        ),
{
    let size = width.spec_bytes() as int;
    let other = match host {
        Endian::Little => Endian::Big,
        Endian::Big => Endian::Little,
    };
    let image = spec_native_bytes(words, width, host);
    let turned = spec_reverse_endian(image, size as nat);
    let len = image.len() as int;
    assert(len / size == words.len() && (len / size) * size == len) by (nonlinear_arith)
        requires
            len == words.len() * size,
            size > 0,
    ;
    assert forall|k: int| 0 <= k < len implies turned[k] == spec_native_bytes(
        words,
        width,
        other,
    )[k] by {
        lemma_mirror_index(k, size, len);
        lemma_index_chunk(k, size);
    }
    assert(turned =~= spec_native_bytes(words, width, other));
}

/// Words read from a big-endian image of turned-around bytes are the words
/// that the bytes spell least significant byte first, and the other way round.
pub proof fn lemma_words_from_reversed(bytes: Seq<u8>, width: WordWidth, host: Endian)
    ensures
        spec_words_from_native(spec_reverse_endian(bytes, width.spec_bytes()), width, host)
            == spec_words_from_native(
            bytes,
            width,
            match host {
                Endian::Little => Endian::Big,
                Endian::Big => Endian::Little,
            },
        ),
{
    let size = width.spec_bytes() as int;
    let other = match host {
        Endian::Little => Endian::Big,
        Endian::Big => Endian::Little,
    };
    let turned = spec_reverse_endian(bytes, size as nat);
    let len = bytes.len() as int;
    let left = spec_words_from_native(turned, width, host);
    let right = spec_words_from_native(bytes, width, other);
    lemma_index_chunk(len, size);
    assert forall|i: int| 0 <= i < len / size implies left[i] == right[i] by {
        assert(i * size + size <= (len / size) * size && i * size >= 0) by (nonlinear_arith)
            requires
                0 <= i < len / size,
                size > 0,
        ;
        let mine = turned.subrange(i * size, i * size + size);
        let theirs = bytes.subrange(i * size, i * size + size);
        assert forall|j: int| 0 <= j < size implies mine[j] == theirs[size - 1 - j] by {
            lemma_chunk_index(i * size + j, size, i);
        }
        assert(spec_word_from(mine, width, host) == spec_word_from(theirs, width, other));
    }
    assert(left =~= right);
}

/// The memory image of words on any host, normalized for that host, is what
/// the wire carries: the same bytes whatever the host.
pub proof fn lemma_normalized_image(words: Seq<u64>, width: WordWidth, host: Endian)
    ensures
        spec_normalize(spec_native_bytes(words, width, host), width, host) == spec_wire_bytes(
            words,
            width,
        ),
{
    let image = spec_native_bytes(words, width, host);
    if host == Endian::Big {
        lemma_reverse_native_bytes(words, width, Endian::Big);
        if width.spec_bytes() == 1 {
            lemma_reverse_endian_single(image);
        }
    }
}

/// The words read on any host from a payload normalized for that host are
/// the words that the payload carries.
pub proof fn lemma_words_from_normalized(wire: Seq<u8>, width: WordWidth, host: Endian)
    ensures
        spec_words_from_native(spec_normalize(wire, width, host), width, host)
            == spec_words_from_wire(wire, width),
{
    if host == Endian::Big {
        lemma_words_from_reversed(wire, width, Endian::Big);
        if width.spec_bytes() == 1 {
            lemma_reverse_endian_single(wire);
        }
    }
}

} // verus!
