//! Bits inside words: where a bit of a sequence lies in its backing words,
//! and what the words are when bits are packed.

use vstd::prelude::*;
use crate::endian::lemma_index_chunk;
use crate::length::{lemma_bit_location, lemma_required_words_step, spec_required_words};
use crate::storage::spec_word_max;
use crate::word::{Order, WordWidth};

verus! {

/// Whether the bit of `w` with significance `p` is set.
pub open spec fn spec_word_bit(w: u64, p: nat) -> bool {
    (w >> (p as u64)) & 1 == 1
}

/// The first `len` bits that `words` hold, numbered inside each word as
/// `order` says.
pub open spec fn spec_bits(order: Order, width: WordWidth, words: Seq<u64>, len: nat) -> Seq<
    bool,
> {
    Seq::new(
        len,
        |i: int|
            spec_word_bit(
                words[i / (width.spec_bits() as int)],
                order.spec_position(width, (i % (width.spec_bits() as int)) as nat),
            ),
    )
}

/// Whether the bit with significance `p` of word `j` is set when `bits` are
/// packed: it is where it carries a bit of the sequence and that bit is set.
/// Places wider than the word, and slack places behind the last bit, are
/// clear.
pub open spec fn spec_packed_bit(order: Order, width: WordWidth, bits: Seq<bool>, j: int, p: nat)
    -> bool {
    let index = j * width.spec_bits() + order.spec_position(width, p);
    p < width.spec_bits() && index < bits.len() && bits[index]
}

/// `words` are `bits` packed into words of `width`: every bit of every word
/// is what `spec_packed_bit` says.
pub open spec fn spec_packed(order: Order, width: WordWidth, bits: Seq<bool>, words: Seq<u64>)
    -> bool {
    &&& words.len() == spec_required_words(bits.len(), width)
    &&& forall|j: int, p: nat|
        0 <= j < words.len() && p < 64 ==> #[trigger] spec_word_bit(words[j], p)
            == spec_packed_bit(order, width, bits, j, p)
}

/// Word `j` of `bits` packed, with only the first `count` places of the word
/// filled in: each place whose bit is set adds that bit to the word.
pub open spec fn spec_pack_word(
    order: Order,
    width: WordWidth,
    bits: Seq<bool>,
    j: int,
    count: nat,
) -> u64
    decreases count,
{
    if count == 0 {
        0
    } else {
        let rest = spec_pack_word(order, width, bits, j, (count - 1) as nat);
        let index = j * width.spec_bits() + (count - 1);
        if index < bits.len() && bits[index] {
            rest | (1u64 << (order.spec_position(width, (count - 1) as nat) as u64))
        } else {
            rest
        }
    }
}

/// The words of `bits` packed into words of `width`, numbered as `order`
/// says, with the slack bits of the last word clear.
pub open spec fn spec_pack(order: Order, width: WordWidth, bits: Seq<bool>) -> Seq<u64> {
    Seq::new(
        spec_required_words(bits.len(), width),
        |j: int| spec_pack_word(order, width, bits, j, width.spec_bits()),
    )
}

/// Whether the bit of `w` with significance `p` is set.
pub fn word_bit(w: u64, p: usize) -> (b: bool)
    requires
        p < 64,
    ensures
        b == spec_word_bit(w, p as nat),
{
    (w >> (p as u64)) & 1 == 1
}

/// The word `w` with the bit of significance `p` set to `bit` and every
/// other bit as it was.
pub fn with_bit(w: u64, p: usize, bit: bool, width: WordWidth) -> (r: u64)
    requires
        p < width.spec_bits(),
        w <= spec_word_max(width),
    ensures
        r <= spec_word_max(width),
        forall|q: nat|
            q < 64 ==> #[trigger] spec_word_bit(r, q) == (if q == p {
                bit
            } else {
                spec_word_bit(w, q)
            }),
{
    let mask: u64 = 1u64 << (p as u64);
    let r: u64 = if bit {
        w | mask
    } else {
        w & !mask
    };
    proof {
        let pp = p as u64;
        let max = spec_word_max(width);
        assert(r <= max) by (bit_vector)
            requires
                w <= max,
                r == w | (1u64 << pp) || r == w & !(1u64 << pp),
                (max == 0xffu64 && pp < 8) || (max == 0xffffu64 && pp < 16) || (max
                    == 0xffff_ffffu64 && pp < 32) || max == 0xffff_ffff_ffff_ffffu64,
        ;
        assert forall|q: nat| q < 64 implies #[trigger] spec_word_bit(r, q) == (if q == p {
            bit
        } else {
            spec_word_bit(w, q)
        }) by {
            let qq = q as u64;
            if bit {
                assert(((w | (1u64 << pp)) >> qq) & 1 == (if qq == pp {
                    1u64
                } else {
                    (w >> qq) & 1
                })) by (bit_vector)
                    requires
                        pp < 64,
                        qq < 64,
                ;
            } else {
                assert(((w & !(1u64 << pp)) >> qq) & 1 == (if qq == pp {
                    0u64
                } else {
                    (w >> qq) & 1
                })) by (bit_vector)
                    requires
                        pp < 64,
                        qq < 64,
                ;
            }
        }
    }
    r
}

/// No bit of the word 0 is set.
pub(crate) proof fn lemma_zero_word(q: nat)
    requires
        q < 64,
    ensures
        !spec_word_bit(0, q),
{
    let qq = q as u64;
    assert((0u64 >> qq) & 1 == 0) by (bit_vector);
}

/// Packing one more bit: with the first `i` bits packed in `before`, the
/// words `after` pack the first `i + 1` where they keep every word but the
/// last, open a new last word where bit `i` starts one, and hold bit `i` at
/// its place in the last word with the other places as they were.
pub(crate) proof fn lemma_pack_step(
    order: Order,
    width: WordWidth,
    bits: Seq<bool>,
    i: nat,
    before: Seq<u64>,
    after: Seq<u64>,
)
    requires
        i < bits.len(),
        spec_packed(order, width, bits.take(i as int), before),
        after.len() == i / width.spec_bits() + 1,
        forall|j: int| 0 <= j < i / width.spec_bits() ==> after[j] == before[j],
        forall|q: nat|
            q < 64 ==> #[trigger] spec_word_bit(after[(i / width.spec_bits()) as int], q) == (if q
                == order.spec_position(width, i % width.spec_bits()) {
                bits[i as int]
            } else if i % width.spec_bits() == 0 {
                false
            } else {
                spec_word_bit(before[(i / width.spec_bits()) as int], q)
            }),
    ensures
        spec_packed(order, width, bits.take(i as int + 1), after),
{
    let d = width.spec_bits() as int;
    let last = i as int / d;
    let offset = i as int % d;
    let p = order.spec_position(width, offset as nat);
    let shorter = bits.take(i as int);
    let longer = bits.take(i as int + 1);
    lemma_required_words_step(i, width);
    lemma_index_chunk(i as int, d);
    assert forall|j: int, q: nat| 0 <= j < after.len() && q < 64 implies #[trigger] spec_word_bit(
        after[j],
        q,
    ) == spec_packed_bit(order, width, longer, j, q) by {
        let index = j * d + order.spec_position(width, q);
        if j < last {
            assert(j * d + d <= last * d) by (nonlinear_arith)
                requires
                    j < last,
                    d > 0,
            ;
            assert(spec_word_bit(before[j], q) == spec_packed_bit(order, width, shorter, j, q));
        } else if q != p {
            if offset != 0 {
                assert(spec_word_bit(before[j], q) == spec_packed_bit(
                    order,
                    width,
                    shorter,
                    j,
                    q,
                ));
            }
        }
    }
}

/// Packed words show the bits that were packed.
pub proof fn lemma_packed_view(order: Order, width: WordWidth, bits: Seq<bool>, words: Seq<u64>)
    requires
        spec_packed(order, width, bits, words),
    ensures
        spec_bits(order, width, words, bits.len()) == bits,
{
    let d = width.spec_bits() as int;
    let shown = spec_bits(order, width, words, bits.len());
    assert forall|k: int| 0 <= k < bits.len() implies shown[k] == bits[k] by {
        lemma_bit_location(k as nat, bits.len(), width);
        lemma_index_chunk(k, d);
        let j = k / d;
        let p = order.spec_position(width, (k % d) as nat);
        assert(spec_word_bit(words[j], p) == spec_packed_bit(order, width, bits, j, p));
    }
    assert(shown =~= bits);
}

/// Two words with the same 64 bits are the same word.
proof fn lemma_same_bits_same_word(a: u64, b: u64)
    requires
        forall|q: nat| q < 64 ==> spec_word_bit(a, q) == spec_word_bit(b, q),
    ensures
        a == b,
{
    assert(spec_word_bit(a, 0) == spec_word_bit(b, 0));
    assert(spec_word_bit(a, 1) == spec_word_bit(b, 1));
    assert(spec_word_bit(a, 2) == spec_word_bit(b, 2));
    assert(spec_word_bit(a, 3) == spec_word_bit(b, 3));
    assert(spec_word_bit(a, 4) == spec_word_bit(b, 4));
    assert(spec_word_bit(a, 5) == spec_word_bit(b, 5));
    assert(spec_word_bit(a, 6) == spec_word_bit(b, 6));
    assert(spec_word_bit(a, 7) == spec_word_bit(b, 7));
    assert(spec_word_bit(a, 8) == spec_word_bit(b, 8));
    assert(spec_word_bit(a, 9) == spec_word_bit(b, 9));
    assert(spec_word_bit(a, 10) == spec_word_bit(b, 10));
    assert(spec_word_bit(a, 11) == spec_word_bit(b, 11));
    assert(spec_word_bit(a, 12) == spec_word_bit(b, 12));
    assert(spec_word_bit(a, 13) == spec_word_bit(b, 13));
    assert(spec_word_bit(a, 14) == spec_word_bit(b, 14));
    assert(spec_word_bit(a, 15) == spec_word_bit(b, 15));
    assert(spec_word_bit(a, 16) == spec_word_bit(b, 16));
    assert(spec_word_bit(a, 17) == spec_word_bit(b, 17));
    assert(spec_word_bit(a, 18) == spec_word_bit(b, 18));
    assert(spec_word_bit(a, 19) == spec_word_bit(b, 19));
    assert(spec_word_bit(a, 20) == spec_word_bit(b, 20));
    assert(spec_word_bit(a, 21) == spec_word_bit(b, 21));
    assert(spec_word_bit(a, 22) == spec_word_bit(b, 22));
    assert(spec_word_bit(a, 23) == spec_word_bit(b, 23));
    assert(spec_word_bit(a, 24) == spec_word_bit(b, 24));
    assert(spec_word_bit(a, 25) == spec_word_bit(b, 25));
    assert(spec_word_bit(a, 26) == spec_word_bit(b, 26));
    assert(spec_word_bit(a, 27) == spec_word_bit(b, 27));
    assert(spec_word_bit(a, 28) == spec_word_bit(b, 28));
    assert(spec_word_bit(a, 29) == spec_word_bit(b, 29));
    assert(spec_word_bit(a, 30) == spec_word_bit(b, 30));
    assert(spec_word_bit(a, 31) == spec_word_bit(b, 31));
    assert(spec_word_bit(a, 32) == spec_word_bit(b, 32));
    assert(spec_word_bit(a, 33) == spec_word_bit(b, 33));
    assert(spec_word_bit(a, 34) == spec_word_bit(b, 34));
    assert(spec_word_bit(a, 35) == spec_word_bit(b, 35));
    assert(spec_word_bit(a, 36) == spec_word_bit(b, 36));
    assert(spec_word_bit(a, 37) == spec_word_bit(b, 37));
    assert(spec_word_bit(a, 38) == spec_word_bit(b, 38));
    assert(spec_word_bit(a, 39) == spec_word_bit(b, 39));
    assert(spec_word_bit(a, 40) == spec_word_bit(b, 40));
    assert(spec_word_bit(a, 41) == spec_word_bit(b, 41));
    assert(spec_word_bit(a, 42) == spec_word_bit(b, 42));
    assert(spec_word_bit(a, 43) == spec_word_bit(b, 43));
    assert(spec_word_bit(a, 44) == spec_word_bit(b, 44));
    assert(spec_word_bit(a, 45) == spec_word_bit(b, 45));
    assert(spec_word_bit(a, 46) == spec_word_bit(b, 46));
    assert(spec_word_bit(a, 47) == spec_word_bit(b, 47));
    assert(spec_word_bit(a, 48) == spec_word_bit(b, 48));
    assert(spec_word_bit(a, 49) == spec_word_bit(b, 49));
    assert(spec_word_bit(a, 50) == spec_word_bit(b, 50));
    assert(spec_word_bit(a, 51) == spec_word_bit(b, 51));
    assert(spec_word_bit(a, 52) == spec_word_bit(b, 52));
    assert(spec_word_bit(a, 53) == spec_word_bit(b, 53));
    assert(spec_word_bit(a, 54) == spec_word_bit(b, 54));
    assert(spec_word_bit(a, 55) == spec_word_bit(b, 55));
    assert(spec_word_bit(a, 56) == spec_word_bit(b, 56));
    assert(spec_word_bit(a, 57) == spec_word_bit(b, 57));
    assert(spec_word_bit(a, 58) == spec_word_bit(b, 58));
    assert(spec_word_bit(a, 59) == spec_word_bit(b, 59));
    assert(spec_word_bit(a, 60) == spec_word_bit(b, 60));
    assert(spec_word_bit(a, 61) == spec_word_bit(b, 61));
    assert(spec_word_bit(a, 62) == spec_word_bit(b, 62));
    assert(spec_word_bit(a, 63) == spec_word_bit(b, 63));
    assert(a == b) by (bit_vector)
        requires
            ((a >> 0u64) & 1 == 1) == ((b >> 0u64) & 1 == 1),
            ((a >> 1u64) & 1 == 1) == ((b >> 1u64) & 1 == 1),
            ((a >> 2u64) & 1 == 1) == ((b >> 2u64) & 1 == 1),
            ((a >> 3u64) & 1 == 1) == ((b >> 3u64) & 1 == 1),
            ((a >> 4u64) & 1 == 1) == ((b >> 4u64) & 1 == 1),
            ((a >> 5u64) & 1 == 1) == ((b >> 5u64) & 1 == 1),
            ((a >> 6u64) & 1 == 1) == ((b >> 6u64) & 1 == 1),
            ((a >> 7u64) & 1 == 1) == ((b >> 7u64) & 1 == 1),
            ((a >> 8u64) & 1 == 1) == ((b >> 8u64) & 1 == 1),
            ((a >> 9u64) & 1 == 1) == ((b >> 9u64) & 1 == 1),
            ((a >> 10u64) & 1 == 1) == ((b >> 10u64) & 1 == 1),
            ((a >> 11u64) & 1 == 1) == ((b >> 11u64) & 1 == 1),
            ((a >> 12u64) & 1 == 1) == ((b >> 12u64) & 1 == 1),
            ((a >> 13u64) & 1 == 1) == ((b >> 13u64) & 1 == 1),
            ((a >> 14u64) & 1 == 1) == ((b >> 14u64) & 1 == 1),
            ((a >> 15u64) & 1 == 1) == ((b >> 15u64) & 1 == 1),
            ((a >> 16u64) & 1 == 1) == ((b >> 16u64) & 1 == 1),
            ((a >> 17u64) & 1 == 1) == ((b >> 17u64) & 1 == 1),
            ((a >> 18u64) & 1 == 1) == ((b >> 18u64) & 1 == 1),
            ((a >> 19u64) & 1 == 1) == ((b >> 19u64) & 1 == 1),
            ((a >> 20u64) & 1 == 1) == ((b >> 20u64) & 1 == 1),
            ((a >> 21u64) & 1 == 1) == ((b >> 21u64) & 1 == 1),
            ((a >> 22u64) & 1 == 1) == ((b >> 22u64) & 1 == 1),
            ((a >> 23u64) & 1 == 1) == ((b >> 23u64) & 1 == 1),
            ((a >> 24u64) & 1 == 1) == ((b >> 24u64) & 1 == 1),
            ((a >> 25u64) & 1 == 1) == ((b >> 25u64) & 1 == 1),
            ((a >> 26u64) & 1 == 1) == ((b >> 26u64) & 1 == 1),
            ((a >> 27u64) & 1 == 1) == ((b >> 27u64) & 1 == 1),
            ((a >> 28u64) & 1 == 1) == ((b >> 28u64) & 1 == 1),
            ((a >> 29u64) & 1 == 1) == ((b >> 29u64) & 1 == 1),
            ((a >> 30u64) & 1 == 1) == ((b >> 30u64) & 1 == 1),
            ((a >> 31u64) & 1 == 1) == ((b >> 31u64) & 1 == 1),
            ((a >> 32u64) & 1 == 1) == ((b >> 32u64) & 1 == 1),
            ((a >> 33u64) & 1 == 1) == ((b >> 33u64) & 1 == 1),
            ((a >> 34u64) & 1 == 1) == ((b >> 34u64) & 1 == 1),
            ((a >> 35u64) & 1 == 1) == ((b >> 35u64) & 1 == 1),
            ((a >> 36u64) & 1 == 1) == ((b >> 36u64) & 1 == 1),
            ((a >> 37u64) & 1 == 1) == ((b >> 37u64) & 1 == 1),
            ((a >> 38u64) & 1 == 1) == ((b >> 38u64) & 1 == 1),
            ((a >> 39u64) & 1 == 1) == ((b >> 39u64) & 1 == 1),
            ((a >> 40u64) & 1 == 1) == ((b >> 40u64) & 1 == 1),
            ((a >> 41u64) & 1 == 1) == ((b >> 41u64) & 1 == 1),
            ((a >> 42u64) & 1 == 1) == ((b >> 42u64) & 1 == 1),
            ((a >> 43u64) & 1 == 1) == ((b >> 43u64) & 1 == 1),
            ((a >> 44u64) & 1 == 1) == ((b >> 44u64) & 1 == 1),
            ((a >> 45u64) & 1 == 1) == ((b >> 45u64) & 1 == 1),
            ((a >> 46u64) & 1 == 1) == ((b >> 46u64) & 1 == 1),
            ((a >> 47u64) & 1 == 1) == ((b >> 47u64) & 1 == 1),
            ((a >> 48u64) & 1 == 1) == ((b >> 48u64) & 1 == 1),
            ((a >> 49u64) & 1 == 1) == ((b >> 49u64) & 1 == 1),
            ((a >> 50u64) & 1 == 1) == ((b >> 50u64) & 1 == 1),
            ((a >> 51u64) & 1 == 1) == ((b >> 51u64) & 1 == 1),
            ((a >> 52u64) & 1 == 1) == ((b >> 52u64) & 1 == 1),
            ((a >> 53u64) & 1 == 1) == ((b >> 53u64) & 1 == 1),
            ((a >> 54u64) & 1 == 1) == ((b >> 54u64) & 1 == 1),
            ((a >> 55u64) & 1 == 1) == ((b >> 55u64) & 1 == 1),
            ((a >> 56u64) & 1 == 1) == ((b >> 56u64) & 1 == 1),
            ((a >> 57u64) & 1 == 1) == ((b >> 57u64) & 1 == 1),
            ((a >> 58u64) & 1 == 1) == ((b >> 58u64) & 1 == 1),
            ((a >> 59u64) & 1 == 1) == ((b >> 59u64) & 1 == 1),
            ((a >> 60u64) & 1 == 1) == ((b >> 60u64) & 1 == 1),
            ((a >> 61u64) & 1 == 1) == ((b >> 61u64) & 1 == 1),
            ((a >> 62u64) & 1 == 1) == ((b >> 62u64) & 1 == 1),
            ((a >> 63u64) & 1 == 1) == ((b >> 63u64) & 1 == 1),
    ;
}

/// The bits of a packed word: a place is set where it is among the places
/// filled in, carries a bit of the sequence, and that bit is set.
proof fn lemma_pack_word_bit(
    order: Order,
    width: WordWidth,
    bits: Seq<bool>,
    j: int,
    count: nat,
    q: nat,
)
    requires
        count <= width.spec_bits(),
        q < 64,
    ensures
        spec_word_bit(spec_pack_word(order, width, bits, j, count), q) == (spec_packed_bit(
            order,
            width,
            bits,
            j,
            q,
        ) && order.spec_position(width, q) < count),
    decreases count,
{
    if count == 0 {
        lemma_zero_word(q);
    } else {
        let c = (count - 1) as nat;
        lemma_pack_word_bit(order, width, bits, j, c, q);
        let rest = spec_pack_word(order, width, bits, j, c);
        let index = j * width.spec_bits() + c;
        let p = order.spec_position(width, c);
        assert(order.spec_position(width, p) == c);
        assert(q < width.spec_bits() ==> order.spec_position(width, order.spec_position(width, q))
            == q);
        if index < bits.len() && bits[index] {
            let pp = p as u64;
            let qq = q as u64;
            assert(((rest | (1u64 << pp)) >> qq) & 1 == (if qq == pp {
                1u64
            } else {
                (rest >> qq) & 1
            })) by (bit_vector)
                requires
                    pp < 64,
                    qq < 64,
            ;
        }
    }
}

/// Packed words are what their bits say, and no other words are.
pub proof fn lemma_pack_unique(order: Order, width: WordWidth, bits: Seq<bool>, words: Seq<u64>)
    ensures
        spec_packed(order, width, bits, words) <==> words == spec_pack(order, width, bits),
{
    let packed = spec_pack(order, width, bits);
    assert forall|j: int, q: nat| 0 <= j < packed.len() && q < 64 implies #[trigger] spec_word_bit(
        packed[j],
        q,
    ) == spec_packed_bit(order, width, bits, j, q) by {
        lemma_pack_word_bit(order, width, bits, j, width.spec_bits(), q);
    }
    assert(spec_packed(order, width, bits, packed));
    if spec_packed(order, width, bits, words) {
        assert forall|j: int| 0 <= j < words.len() implies words[j] == packed[j] by {
            assert forall|q: nat| q < 64 implies spec_word_bit(words[j], q) == spec_word_bit(
                packed[j],
                q,
            ) by {
                assert(spec_word_bit(words[j], q) == spec_packed_bit(order, width, bits, j, q));
                assert(spec_word_bit(packed[j], q) == spec_packed_bit(order, width, bits, j, q));
            }
            lemma_same_bits_same_word(words[j], packed[j]);
        }
        assert(words =~= packed);
    }
}

} // verus!
