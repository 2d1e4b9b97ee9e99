//! Byte order normalization: turning the bytes of whole words around, word by
//! word, so that a big-endian host reads and writes little-endian records.

use vstd::prelude::*;
use vstd::arithmetic::div_mod::lemma_fundamental_div_mod_converse;
use crate::word::{Endian, WordWidth};

verus! {

/// The buffer `s` with the bytes of every complete `size`-byte chunk in
/// reverse order. Bytes behind the last complete chunk stay where they are.
pub open spec fn spec_reverse_endian(s: Seq<u8>, size: nat) -> Seq<u8>
    recommends
        size > 0,
{
    Seq::new(
        s.len(),
        |k: int|
            if k < (s.len() / size) * size {
                s[(k / (size as int)) * size + (size - 1 - k % (size as int))]
            } else {
                s[k]
            },
    )
}

/// An index inside chunk `chunk` has that chunk as its quotient and its
/// offset in the chunk as its remainder.
pub(crate) proof fn lemma_chunk_index(k: int, size: int, chunk: int)
    requires
        size > 0,
        chunk * size <= k < chunk * size + size,
    ensures
        k / size == chunk,
        k % size == k - chunk * size,
{
    lemma_fundamental_div_mod_converse(k, size, chunk, k - chunk * size);
}

/// An index lies in chunk `k / size`, at offset `k % size`.
pub(crate) proof fn lemma_index_chunk(k: int, size: int)
    requires
        size > 0,
        k >= 0,
    ensures
        0 <= k % size < size,
        0 <= k / size,
        k == (k / size) * size + k % size,
        (k / size) * size <= k < (k / size) * size + size,
{
    assert(0 <= k % size < size && 0 <= k / size && k == (k / size) * size + k % size)
        by (nonlinear_arith)
        requires
            size > 0,
            k >= 0,
    ;
}

/// The mirror image of an index inside its chunk lies in the same chunk, and
/// its own mirror image is the index again.
pub(crate) proof fn lemma_mirror_index(k: int, size: int, len: int)
    requires
        size > 0,
        0 <= k < (len / size) * size,
        len >= 0,
    ensures
        ({
            let m = (k / size) * size + (size - 1 - k % size);
            &&& 0 <= m < (len / size) * size
            &&& (len / size) * size <= len
            &&& m / size == k / size
            &&& m % size == size - 1 - k % size
            &&& (m / size) * size + (size - 1 - m % size) == k
        }),
{
    lemma_index_chunk(k, size);
    lemma_index_chunk(len, size);
    let c = k / size;
    let m = c * size + (size - 1 - k % size);
    lemma_chunk_index(m, size, c);
    assert(c < len / size) by (nonlinear_arith)
        requires
            size > 0,
            c * size <= k,
            k < (len / size) * size,
    ;
    assert(c * size + size <= (len / size) * size) by (nonlinear_arith)
        requires
            size > 0,
            c < len / size,
    ;
}

/// Reverses the bytes of each element of size `size_of_t` in place.
///
/// With size 2, `[1, 2, 3, 4]` becomes `[2, 1, 4, 3]`. Bytes behind the last
/// whole element are left alone, and with size 1 nothing changes.
pub fn reverse_endian(vec_u8: &mut [u8], size_of_t: usize)
    requires
        size_of_t > 0,
    ensures
        final(vec_u8)@ == spec_reverse_endian(old(vec_u8)@, size_of_t as nat),
{
    let ghost orig = vec_u8@;
    let ghost size = size_of_t as int;
    let len: usize = vec_u8.len();
    let chunks: usize = len / size_of_t;
    let half: usize = size_of_t / 2;
    proof {
        lemma_index_chunk(len as int, size);
    }
    let mut i: usize = 0;
    while i < chunks
        invariant
            size == size_of_t as int,
            size > 0,
            half == size_of_t / 2,
            len == orig.len(),
            chunks == len / size_of_t,
            chunks * size <= len,
            vec_u8@.len() == orig.len(),
            0 <= i <= chunks,
            forall|k: int|
                0 <= k < i * size ==> #[trigger] vec_u8@[k] == spec_reverse_endian(
                    orig,
                    size as nat,
                )[k],
            forall|k: int| i * size <= k < len ==> #[trigger] vec_u8@[k] == orig[k],
        decreases chunks - i,
    {
        let ghost before = vec_u8@;
        assert((i + 1) * size <= chunks * size && i * size >= 0 && (i + 1) * size == i * size
            + size) by (nonlinear_arith)
            requires
                0 <= i < chunks,
                size > 0,
        ;
        let base: usize = i * size_of_t;
        let mut j: usize = 0;
        while j < half
            invariant
                size == size_of_t as int,
                size > 0,
                half == size_of_t / 2,
                len == orig.len(),
                vec_u8@.len() == orig.len(),
                before.len() == orig.len(),
                base == i * size,
                base + size <= len,
                0 <= j <= half,
                forall|k: int|
                    0 <= k < len && (k < base || k >= base + size) ==> #[trigger] vec_u8@[k]
                        == before[k],
                forall|k: int|
                    base <= k < base + size ==> #[trigger] vec_u8@[k] == (if k - base < j || k
                        - base >= size - j {
                        before[base + (size - 1 - (k - base))]
                    } else {
                        before[k]
                    }),
            decreases half - j,
        {
            let lo: usize = base + j;
            let hi: usize = base + (size_of_t - 1) - j;
            let a: u8 = vec_u8[lo];
            let b: u8 = vec_u8[hi];
            vec_u8[lo] = b;
            vec_u8[hi] = a;
            j = j + 1;
        }
        proof {
            assert forall|k: int| 0 <= k < (i + 1) * size implies #[trigger] vec_u8@[k]
                == spec_reverse_endian(orig, size as nat)[k] by {
                if k >= base {
                    lemma_chunk_index(k, size, i as int);
                    let m = base + (size - 1 - (k - base));
                    assert(vec_u8@[k] == before[m]);
                    assert(before[m] == orig[m]);
                } else {
                    assert(vec_u8@[k] == before[k]);
                }
            }
        }
        i = i + 1;
    }
    assert(vec_u8@ =~= spec_reverse_endian(orig, size as nat));
}

/// The buffer `s` of words of `width`, taken from the order of `host` to the
/// order of the wire or back: turned around word by word where the host is
/// big-endian and a word has more than one byte, and left alone otherwise.
pub open spec fn spec_normalize(s: Seq<u8>, width: WordWidth, host: Endian) -> Seq<u8> {
    if host == Endian::Big && width.spec_bytes() > 1 {
        spec_reverse_endian(s, width.spec_bytes())
    } else {
        s
    }
}

/// Takes a buffer of words of `width` from the byte order of `host` to the
/// little-endian order of the wire, or from the wire to the host: the two
/// are the same step.
pub fn normalize(bytes: &mut [u8], width: WordWidth, host: Endian)
    ensures
        final(bytes)@ == spec_normalize(old(bytes)@, width, host),
{
    let size: usize = width.bytes();
    match host {
        Endian::Big => {
            if size > 1 {
                reverse_endian(bytes, size);
            }
        },
        Endian::Little => {},
    }
}

/// Normalizing twice for the same host gives the buffer back.
pub proof fn lemma_normalize_involution(s: Seq<u8>, width: WordWidth, host: Endian)
    ensures
        spec_normalize(spec_normalize(s, width, host), width, host) == s,
{
    lemma_reverse_endian_involution(s, width.spec_bytes());
}

/// Reversing twice with the same element size gives the buffer back.
pub proof fn lemma_reverse_endian_involution(s: Seq<u8>, size: nat)
    requires
        size > 0,
    ensures
        spec_reverse_endian(spec_reverse_endian(s, size), size) == s,
{
    let once = spec_reverse_endian(s, size);
    let twice = spec_reverse_endian(once, size);
    assert forall|k: int| 0 <= k < s.len() implies twice[k] == s[k] by {
        if k < (s.len() / size) * size {
            lemma_mirror_index(k, size as int, s.len() as int);
        }
    }
    assert(twice =~= s);
}

/// With one-byte elements there is nothing to reverse.
pub proof fn lemma_reverse_endian_single(s: Seq<u8>)
    ensures
        spec_reverse_endian(s, 1) == s,
{
    assert(spec_reverse_endian(s, 1) =~= s);
}

} // verus!
