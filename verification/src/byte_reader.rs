//! A cursor over a byte slice.
use vstd::prelude::*;
use vstd::slice::slice_subrange;

use crate::util::{round_up, spec_round_up};

verus! {

/// Reads bytes from a slice at a moving position. The position may pass the
/// end of the data; reading requires it to be inside.
#[derive(Clone, Copy)]
pub struct ByteReader<'a> {
    data: &'a [u8],
    cursor: usize,
}

impl<'a> ByteReader<'a> {
    /// The bytes being read.
    pub closed spec fn bytes(&self) -> Seq<u8> {
        self.data@
    }

    /// The current position.
    pub closed spec fn position(&self) -> int {
        self.cursor as int
    }

    /// The position is never negative.
    pub proof fn lemma_position(&self)
        ensures
            0 <= self.position(),
    {
    }

    pub fn new(data: &'a [u8]) -> (r: Self)
        ensures
            r.bytes() == data@,
            r.position() == 0,
    {
        Self { data, cursor: 0 }
    }

    /// The byte at the position; the position moves past it.
    pub fn read(&mut self) -> (r: u8)
        requires
            old(self).position() < old(self).bytes().len(),
        ensures
            r == old(self).bytes()[old(self).position()],
            final(self).bytes() == old(self).bytes(),
            final(self).position() == old(self).position() + 1,
    {
        let result = self.data[self.cursor];
        self.cursor += 1;
        result
    }

    /// The `size` bytes at the position; the position moves past them.
    pub fn read_bytes(&mut self, size: usize) -> (r: &'a [u8])
        requires
            old(self).position() + size <= old(self).bytes().len(),
        ensures
            r@ == old(self).bytes().subrange(old(self).position(), old(self).position() + size),
            final(self).bytes() == old(self).bytes(),
            final(self).position() == old(self).position() + size,
    {
        assert(self.data@.len() == self.data.len());
        let result = slice_subrange(self.data, self.cursor, self.cursor + size);
        self.cursor += size;
        result
    }

    /// Moves the position up to the next multiple of `align`.
    pub fn align(&mut self, align: usize)
        requires
            spec_round_up(old(self).position(), align as int) <= usize::MAX,
        ensures
            final(self).bytes() == old(self).bytes(),
            final(self).position() == spec_round_up(old(self).position(), align as int),
    {
        self.cursor = round_up(self.cursor, align);
    }

    /// The bytes from the position to the end.
    pub fn raw(&self) -> (r: &'a [u8])
        requires
            self.position() <= self.bytes().len(),
        ensures
            r@ == self.bytes().subrange(self.position(), self.bytes().len() as int),
    {
        slice_subrange(self.data, self.cursor, self.data.len())
    }

    /// The current position.
    pub fn cursor_position(&self) -> (r: usize)
        ensures
            r == self.position(),
    {
        self.cursor
    }

    /// All the bytes being read.
    pub fn all(&self) -> (r: &'a [u8])
        ensures
            r@ == self.bytes(),
    {
        self.data
    }

    /// The number of bytes being read.
    pub fn len(&self) -> (r: usize)
        ensures
            r == self.bytes().len(),
    {
        self.data.len()
    }

    /// Moves the position `offset` bytes forward.
    pub fn seek(&mut self, offset: usize)
        requires
            old(self).position() + offset <= usize::MAX,
        ensures
            final(self).bytes() == old(self).bytes(),
            final(self).position() == old(self).position() + offset,
    {
        self.cursor += offset;
    }
}

} // verus!
