//! How many bytes a run of bits occupies once it is packed into whole words.

use vstd::prelude::*;
use vstd::arithmetic::div_mod::lemma_fundamental_div_mod_converse;
use crate::word::WordWidth;

verus! {

/// Number of words of `width` needed to hold `bits` bits: the bits divided by
/// the bits of a word, rounded up.
pub open spec fn spec_required_words(bits: nat, width: WordWidth) -> nat {
    match width {
        WordWidth::W8 => (bits + 7) / 8,
        WordWidth::W16 => (bits + 15) / 16,
        WordWidth::W32 => (bits + 31) / 32,
        WordWidth::W64 => (bits + 63) / 64,
    }
}

/// Number of bytes in the words of `width` needed to hold `bits` bits.
pub open spec fn spec_required_bytes(bits: nat, width: WordWidth) -> nat {
    match width {
        WordWidth::W8 => spec_required_words(bits, width),
        WordWidth::W16 => 2 * spec_required_words(bits, width),
        WordWidth::W32 => 4 * spec_required_words(bits, width),
        WordWidth::W64 => 8 * spec_required_words(bits, width),
    }
}

/// The words needed are the bits plus one word less one bit, divided by the
/// bits of a word; the bytes needed are as many words.
pub proof fn lemma_required_formula(bits: nat, width: WordWidth)
    ensures
        spec_required_words(bits, width) == (bits + width.spec_bits() - 1) / (
        width.spec_bits() as int),
        spec_required_bytes(bits, width) == spec_required_words(bits, width) * width.spec_bytes(),
        width.spec_bits() == 8 * width.spec_bytes(),
{
}

/// Calculates the words of `width` required to store `bits` bits.
pub fn required_words(bits: usize, width: WordWidth) -> (n: usize)
    ensures
        n == spec_required_words(bits as nat, width),
        n * width.spec_bytes() <= usize::MAX,
{
    let element_bits: usize = width.bits();
    let full: usize = bits / element_bits;
    assert(full <= (bits as int) / 8 && full * element_bits <= bits) by (nonlinear_arith)
        requires
            full == (bits as int) / (element_bits as int),
            element_bits >= 8,
            bits >= 0,
    ;
    let words: usize = if bits % element_bits == 0 {
        full
    } else {
        full + 1
    };
    proof {
        lemma_required_formula(bits as nat, width);
        lemma_round_up(bits as nat, element_bits as nat);
        assert(words * width.spec_bytes() <= (bits as int) / 8 + 8) by (nonlinear_arith)
            requires
                words <= full + 1,
                full * (8 * width.spec_bytes()) <= bits,
                1 <= width.spec_bytes() <= 8,
                full >= 0,
        ;
    }
    words
}

/// Calculates the bytes required to store `bits` bits in an array of words of
/// `width`: the count is rounded up to whole words.
pub fn required_bytes(bits: usize, width: WordWidth) -> (n: usize)
    ensures
        n == spec_required_bytes(bits as nat, width),
{
    proof {
        lemma_required_formula(bits as nat, width);
    }
    required_words(bits, width) * width.bytes()
}

/// Rounding a quotient up: the least `q` with `q * d >= n`.
proof fn lemma_round_up(n: nat, d: nat)
    requires
        d > 0,
    ensures
        ((n + d - 1) / (d as int)) * d >= n,
        n > 0 ==> ((n + d - 1) / (d as int) - 1) * d < n,
        n == 0 ==> (n + d - 1) / (d as int) == 0,
        (n + d - 1) / (d as int) >= 0,
        n % d == 0 ==> (n + d - 1) / (d as int) == n / d,
        n % d != 0 ==> (n + d - 1) / (d as int) == n / d + 1,
{
    let q = (n + d - 1) / (d as int);
    let r = (n + d - 1) % (d as int);
    assert(n + d - 1 == q * d + r && 0 <= r < d) by (nonlinear_arith)
        requires
            d > 0,
            q == (n + d - 1) / (d as int),
            r == (n + d - 1) % (d as int),
    ;
    assert(q * d >= n && (n > 0 ==> (q - 1) * d < n) && (n == 0 ==> q == 0) && q >= 0)
        by (nonlinear_arith)
        requires
            d > 0,
            n >= 0,
            n + d - 1 == q * d + r,
            0 <= r < d,
    ;
    let q0 = n / d;
    let r0 = n % d;
    assert(n == q0 * d + r0 && 0 <= r0 < d) by (nonlinear_arith)
        requires
            d > 0,
            q0 == n / d,
            r0 == n % d,
    ;
    assert((r0 == 0 ==> q == q0) && (r0 != 0 ==> q == q0 + 1)) by (nonlinear_arith)
        requires
            d > 0,
            n + d - 1 == q * d + r,
            0 <= r < d,
            n == q0 * d + r0,
            0 <= r0 < d,
    ;
}

/// The words that `required_bytes` accounts for are enough for the bits and
/// hold no spare word: taking one word away leaves too few bits.
pub proof fn lemma_required_words_minimal(bits: nat, width: WordWidth)
    ensures
        spec_required_words(bits, width) * width.spec_bits() >= bits,
        bits > 0 ==> (spec_required_words(bits, width) - 1) * width.spec_bits() < bits,
        bits == 0 ==> spec_required_words(bits, width) == 0,
        spec_required_bytes(bits, width) % width.spec_bytes() == 0,
        spec_required_bytes(bits, width) / width.spec_bytes() == spec_required_words(bits, width),
{
    lemma_required_formula(bits, width);
    lemma_round_up(bits, width.spec_bits());
    let words = spec_required_words(bits, width);
    let size = width.spec_bytes();
    assert((words * size) % size == 0 && (words * size) / size == words) by (nonlinear_arith)
        requires
            size > 0,
            words >= 0,
    ;
}

/// `count` words hold `bits` bits exactly when the words that the bits need
/// are no more than `count`.
pub proof fn lemma_words_hold(bits: nat, count: nat, width: WordWidth)
    ensures
        (spec_required_words(bits, width) <= count) == (bits <= count * width.spec_bits()),
{
    lemma_required_formula(bits, width);
    lemma_round_up(bits, width.spec_bits());
    let d = width.spec_bits() as int;
    let q = spec_required_words(bits, width) as int;
    if q <= count {
        assert(bits <= count * d) by (nonlinear_arith)
            requires
                q * d >= bits,
                q <= count,
                d > 0,
        ;
    } else {
        assert(bits > count * d) by (nonlinear_arith)
            requires
                (q - 1) * d < bits,
                q > count,
                d > 0,
        ;
    }
}

/// A bit count that is a whole number of words needs exactly those words.
pub proof fn lemma_required_bytes_aligned(words: nat, width: WordWidth)
    ensures
        spec_required_words(words * width.spec_bits(), width) == words,
        spec_required_bytes(words * width.spec_bits(), width) == words * width.spec_bytes(),
{
    let d = width.spec_bits();
    let n = words * d;
    lemma_required_formula(n, width);
    lemma_round_up(n, d);
    assert(n % d == 0 && n / d == words) by (nonlinear_arith)
        requires
            d > 0,
            n == words * d,
    ;
}

/// Bit `index` of a sequence of `bits` bits lies in one of its words, at an
/// offset inside the word.
pub proof fn lemma_bit_location(index: nat, bits: nat, width: WordWidth)
    requires
        index < bits,
    ensures
        index / width.spec_bits() < spec_required_words(bits, width),
        index % width.spec_bits() < width.spec_bits(),
{
    lemma_required_formula(bits, width);
    lemma_round_up(bits, width.spec_bits());
    let d = width.spec_bits() as int;
    let q = spec_required_words(bits, width) as int;
    assert(index as int / d < q) by (nonlinear_arith)
        requires
            d > 0,
            q * d >= bits,
            0 <= index < bits,
    ;
}

/// One more bit either fits the last word or opens a new one: with `index`
/// bits in place, bit `index` lands in word `index / width`, which is the last
/// word of `index + 1` bits.
pub proof fn lemma_required_words_step(index: nat, width: WordWidth)
    ensures
        spec_required_words(index + 1, width) == index / width.spec_bits() + 1,
        spec_required_words(index, width) == (if index % width.spec_bits() == 0 {
            index / width.spec_bits()
        } else {
            index / width.spec_bits() + 1
        }),
{
    let d = width.spec_bits() as int;
    let q = index as int / d;
    let r = index as int % d;
    lemma_required_formula(index, width);
    lemma_required_formula(index + 1, width);
    lemma_round_up(index, width.spec_bits());
    lemma_round_up(index + 1, width.spec_bits());
    assert(index == q * d + r && 0 <= r < d) by (nonlinear_arith)
        requires
            d > 0,
            index >= 0,
            q == index as int / d,
            r == index as int % d,
    ;
    if r + 1 == d {
        assert(index + 1 == (q + 1) * d + 0) by (nonlinear_arith)
            requires
                index == q * d + r,
                r + 1 == d,
        ;
        lemma_fundamental_div_mod_converse(index as int + 1, d, q + 1, 0);
    } else {
        lemma_fundamental_div_mod_converse(index as int + 1, d, q, r + 1);
    }
}

} // verus!
