//! The byte order of the machine that runs the codec.
//!
//! The codec itself is written for either order; this module finds out which
//! one the machine has, by looking at how it lays out a known word.

use vstd::prelude::*;
use byte_slice_cast::AsByteSlice;
use crate::storage::spec_native_bytes;
use crate::word::{Endian, WordWidth};

verus! {

/// The memory image of `words` on this machine, copied out.
///
/// Calls `AsByteSlice::as_byte_slice` of `byte_slice_cast` on the slice. That
/// function views the memory of the slice as bytes, so what comes back is
/// the image in the machine's own byte order: the contract says no more than
/// that it is one of the two images, eight bytes to the word.
#[verifier::external_body]
fn native_image(words: &[u64]) -> (image: Vec<u8>)
    ensures
        image@ == spec_native_bytes(words@, WordWidth::W64, Endian::Little) || image@
            == spec_native_bytes(words@, WordWidth::W64, Endian::Big),
{
    words.as_byte_slice().to_vec()
}

/// Which of the two images `image` is, for the one word 1: its first byte is
/// 1 where the least significant byte comes first, and 0 where it comes last.
pub fn endian_of_probe(image: &[u8]) -> (host: Endian)
    ensures
        host == (if image@.len() > 0 && image@[0] == 1 {
            Endian::Little
        } else {
            Endian::Big
        }),
        image@ == spec_native_bytes(seq![1u64], WordWidth::W64, Endian::Little) ==> host
            == Endian::Little,
        image@ == spec_native_bytes(seq![1u64], WordWidth::W64, Endian::Big) ==> host
            == Endian::Big,
{
    if image.len() > 0 && image[0] == 1 {
        Endian::Little
    } else {
        Endian::Big
    }
}

/// The byte order of this machine. The answer differs from machine to
/// machine, so nothing is promised of it; the codec gives the same records
/// for either.
pub fn host_endian() -> (host: Endian) {
    let mut probe: Vec<u64> = Vec::new();
    probe.push(1u64);
    let image: Vec<u8> = native_image(probe.as_slice());
    endian_of_probe(image.as_slice())
}

} // verus!
