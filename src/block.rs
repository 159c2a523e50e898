use vstd::prelude::*;

verus! {

/// One contiguous free region of the managed memory: `size` bytes from `start`.
#[derive(Debug, Clone, Copy, PartialEq, Eq, Structural)]
pub struct Block {
    pub start: usize,
    pub size: usize,
}

impl Block {
    /// The empty block, `{ start: 0, size: 0 }`.
    pub fn empty() -> (r: Block)
        ensures
            r.start == 0,
            r.size == 0,
    {
        Block { start: 0, size: 0 }
    }

    /// The block of `size` bytes from `start`.
    pub fn new(start: usize, size: usize) -> (r: Block)
        ensures
            r.start == start,
            r.size == size,
    {
        Block { start, size }
    }

    /// A block is empty when it covers no bytes.
    pub fn is_empty(&self) -> (r: bool)
        ensures
            r == (self.size == 0),
    {
        self.size == 0
    }

    /// Makes this the block of `size` bytes from `start`.
    pub fn renew(&mut self, start: usize, size: usize)
        ensures
            final(self).start == start,
            final(self).size == size,
    {
        self.start = start;
        self.size = size;
    }
}

} // verus!
