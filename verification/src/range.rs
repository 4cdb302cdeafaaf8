//! A half-open byte range used as a cursor into the index's byte blob.

use vstd::prelude::*;

verus! {

/// A half-open range `[start, stop)` of byte positions.
#[derive(Clone, Copy, Debug, PartialEq, Eq, Structural)]
pub struct Byte {
    pub start: usize,
    pub stop: usize,
}

impl Byte {
    pub open spec fn spec_start(self) -> int {
        self.start as int
    }

    pub open spec fn spec_stop(self) -> int {
        self.stop as int
    }

    /// True when the range lies inside a blob of `len` bytes.
    pub open spec fn inside(self, len: int) -> bool {
        self.start <= self.stop <= len
    }

    pub fn new(start: usize, stop: usize) -> (r: Self)
        ensures
            r.spec_start() == start,
            r.spec_stop() == stop,
    {
        Self { start, stop }
    }

    /// The range covering all of `data`.
    pub fn from_slice(data: &[u8]) -> (r: Self)
        ensures
            r.spec_start() == 0,
            r.spec_stop() == data@.len(),
    {
        Self { start: 0, stop: data.len() }
    }

    /// Moves the start of the range forward by `bytes`.
    pub fn advance(&mut self, bytes: usize)
        requires
            old(self).spec_start() + bytes <= usize::MAX,
        ensures
            final(self).spec_start() == old(self).spec_start() + bytes,
            final(self).spec_stop() == old(self).spec_stop(),
    {
        self.start = self.start + bytes;
    }

    /// The bytes of `data` that the range selects.
    pub fn slice_of<'a>(&self, data: &'a [u8]) -> (r: &'a [u8])
        requires
            self.inside(data@.len() as int),
        ensures
            r@ == data@.subrange(self.spec_start(), self.spec_stop()),
    {
        vstd::slice::slice_subrange(data, self.start, self.stop)
    }
}

} // verus!
