//! A read position over a byte slice, with the reading operations that the
//! frame codec needs.
use vstd::prelude::*;

verus! {

/// A byte slice and a position in it. The position may lie past the end, as
/// with `std::io::Cursor`; nothing then remains to be read.
pub struct Cursor<'a> {
    inner: &'a [u8],
    pos: u64,
}

impl<'a> View for Cursor<'a> {
    /// The bytes and the position.
    type V = (Seq<u8>, nat);

    closed spec fn view(&self) -> (Seq<u8>, nat) {
        (self.inner@, self.pos as nat)
    }
}

/// How many bytes remain after position `pos` of `data`.
pub open spec fn remaining_after(data: Seq<u8>, pos: int) -> int {
    if pos < data.len() {
        data.len() - pos
    } else {
        0
    }
}

impl<'a> Cursor<'a> {
    /// A cursor at the start of `inner`.
    pub fn new(inner: &'a [u8]) -> (c: Self)
        ensures
            c@ == (inner@, 0nat),
    {
        Cursor { inner, pos: 0 }
    }

    /// The current position.
    pub fn position(&self) -> (p: u64)
        ensures
            p as int == self@.1,
    {
        self.pos
    }

    /// Moves to position `pos`; the bytes stay the same.
    pub fn set_position(&mut self, pos: u64)
        ensures
            final(self)@ == (old(self)@.0, pos as nat),
    {
        self.pos = pos;
    }

    /// The whole underlying slice.
    pub fn get_ref(&self) -> (r: &'a [u8])
        ensures
            r@ == self@.0,
    {
        self.inner
    }

    /// The number of bytes after the position.
    pub fn remaining(&self) -> (n: usize)
        ensures
            n as int == remaining_after(self@.0, self@.1 as int),
    {
        if self.pos < self.inner.len() as u64 {
            self.inner.len() - self.pos as usize
        } else {
            0
        }
    }

    /// Whether any byte is left after the position.
    pub fn has_remaining(&self) -> (b: bool)
        ensures
            b == (remaining_after(self@.0, self@.1 as int) > 0),
    {
        self.remaining() > 0
    }

    /// The bytes after the position.
    pub fn chunk(&self) -> (r: &'a [u8])
        ensures
            r@ == self@.0.skip(self@.0.len() - remaining_after(self@.0, self@.1 as int)),
    {
        let start = self.inner.len() - self.remaining();
        vstd::slice::slice_subrange(self.inner, start, self.inner.len())
    }

    /// Reads the byte at the position and moves past it.
    pub fn get_u8(&mut self) -> (b: u8)
        requires
            remaining_after(old(self)@.0, old(self)@.1 as int) > 0,
        ensures
            b == old(self)@.0[old(self)@.1 as int],
            final(self)@ == (old(self)@.0, old(self)@.1 + 1nat),
    {
        let b = self.inner[self.pos as usize];
        self.pos = self.pos + 1;
        b
    }

    /// Moves the position forward by `n` bytes.
    pub fn advance(&mut self, n: usize)
        requires
            n <= remaining_after(old(self)@.0, old(self)@.1 as int),
        ensures
            final(self)@ == (old(self)@.0, (old(self)@.1 + n) as nat),
    {
        let len = self.inner.len();
        if n > 0 {
            assert(old(self)@.1 + n <= len);
            self.pos = self.pos + n as u64;
        }
    }
}

} // verus!
