//! A cursor over the bytes that a decoder consumes.

use vstd::prelude::*;
use vstd::slice::{slice_subrange, slice_to_vec};
use crate::error::Error;

verus! {

/// A byte source: a borrowed buffer and the position up to which it was read.
/// Its view is the run of bytes that is still unread.
pub struct Input<'a> {
    data: &'a [u8],
    pos: usize,
}

impl<'a> View for Input<'a> {
    type V = Seq<u8>;

    closed spec fn view(&self) -> Seq<u8> {
        self.data@.subrange(self.pos as int, self.data@.len() as int)
    }
}

impl<'a> Input<'a> {
    #[verifier::type_invariant]
    spec fn in_bounds(&self) -> bool {
        self.pos <= self.data@.len()
    }

    /// A cursor at the start of `data`.
    pub fn new(data: &'a [u8]) -> (input: Self)
        ensures
            input@ == data@,
    {
        let input = Input { data, pos: 0 };
        assert(input@ =~= data@);
        input
    }

    /// Number of bytes that are still unread.
    pub fn remaining_len(&self) -> (n: usize)
        ensures
            n == self@.len(),
    {
        proof {
            use_type_invariant(self);
        }
        self.data.len() - self.pos
    }

    /// The unread byte at `offset`, if that many bytes are left. Nothing is
    /// consumed.
    pub fn peek(&self, offset: usize) -> (r: Option<u8>)
        ensures
            r == (if offset < self@.len() {
                Some(self@[offset as int])
            } else {
                None
            }),
    {
        proof {
            use_type_invariant(self);
        }
        if offset < self.data.len() - self.pos {
            Some(self.data[self.pos + offset])
        } else {
            None
        }
    }

    /// Consumes `n` bytes without looking at them.
    pub fn advance(&mut self, n: usize)
        requires
            n <= old(self)@.len(),
        ensures
            final(self)@ == old(self)@.skip(n as int),
    {
        proof {
            use_type_invariant(&*self);
            assert(self@.len() == self.data@.len() - self.pos);
            assert(self.data@.len() == self.data.len());
        }
        self.pos = self.pos + n;
        assert(self@ =~= old(self)@.skip(n as int));
    }

    /// Reads exactly `n` bytes into a buffer of their own, or reports that
    /// fewer are left. The length is tested before anything is allocated, and
    /// a failed read consumes nothing.
    pub fn read_exact(&mut self, n: usize) -> (r: Result<Vec<u8>, Error>)
        ensures
            match r {
                Ok(bytes) => n <= old(self)@.len() && bytes@ == old(self)@.take(n as int)
                    && final(self)@ == old(self)@.skip(n as int),
                Err(e) => e == Error::TruncatedInput && n > old(self)@.len() && final(self)@
                    == old(self)@,
            },
    {
        proof {
            use_type_invariant(&*self);
        }
        if n <= self.data.len() - self.pos {
            let run = slice_subrange(self.data, self.pos, self.pos + n);
            let bytes = slice_to_vec(run);
            self.pos = self.pos + n;
            assert(bytes@ =~= old(self)@.take(n as int));
            assert(self@ =~= old(self)@.skip(n as int));
            Ok(bytes)
        } else {
            Err(Error::TruncatedInput)
        }
    }
}

} // verus!
