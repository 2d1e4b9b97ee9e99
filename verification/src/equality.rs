//! When two bit sequences are equal: when they hold the same bits. Slack
//! bits, and the way the bits are packed into words, do not count.

use vstd::prelude::*;
use vstd::std_specs::cmp::PartialEqSpecImpl;
use crate::sequence::BitSequence;
use crate::views::{BitBox, BitSlice};

verus! {

/// Whether the two views show the same bits.
pub fn same_bits(a: &BitSlice, b: &BitSlice) -> (same: bool)
    ensures
        same == (a@ == b@),
{
    let n: usize = a.len();
    if n != b.len() {
        return false;
    }
    let mut i: usize = 0;
    while i < n
        invariant
            n == a@.len(),
            n == b@.len(),
            0 <= i <= n,
            forall|k: int| 0 <= k < i ==> a@[k] == b@[k],
        decreases n - i,
    {
        if a.get(i) != b.get(i) {
            return false;
        }
        i = i + 1;
    }
    assert(a@ =~= b@);
    true
}

impl<'a> PartialEq for BitSlice<'a> {
    fn eq(&self, other: &Self) -> (r: bool) {
        same_bits(self, other)
    }
}

impl<'a> PartialEqSpecImpl for BitSlice<'a> {
    open spec fn obeys_eq_spec() -> bool {
        true
    }

    open spec fn eq_spec(&self, other: &Self) -> bool {
        self@ == other@
    }
}

impl PartialEq for BitSequence {
    fn eq(&self, other: &Self) -> (r: bool) {
        same_bits(&BitSlice::of(self), &BitSlice::of(other))
    }
}

impl PartialEqSpecImpl for BitSequence {
    open spec fn obeys_eq_spec() -> bool {
        true
    }

    open spec fn eq_spec(&self, other: &Self) -> bool {
        self@ == other@
    }
}

impl PartialEq for BitBox {
    fn eq(&self, other: &Self) -> (r: bool) {
        same_bits(&self.as_bit_slice(), &other.as_bit_slice())
    }
}

impl PartialEqSpecImpl for BitBox {
    open spec fn obeys_eq_spec() -> bool {
        true
    }

    open spec fn eq_spec(&self, other: &Self) -> bool {
        self@ == other@
    }
}

} // verus!
