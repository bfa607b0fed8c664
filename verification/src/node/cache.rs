//! The block a node computed last, kept so that a node read by several
//! others in one block of the graph computes that block once.
use vstd::prelude::*;

verus! {

/// The last block computed and the clock it was computed for (0 before any).
pub struct BlockCache {
    pub clock: usize,
    pub block: Vec<u32>,
}

impl BlockCache {
    /// A cache that holds no block yet.
    pub fn new() -> (c: BlockCache)
        ensures
            c.clock == 0,
            c.block@ == Seq::<u32>::empty(),
    {
        BlockCache { clock: 0, block: Vec::new() }
    }

    /// The block stored for `clock`, when that is the clock last stored; a
    /// clock of 0 never counts as stored.
    pub fn cached(&self, clock: usize) -> (r: Option<&Vec<u32>>)
        ensures
            match r {
                Some(b) => self.clock != 0 && self.clock == clock && b@ == self.block@,
                None => !(self.clock != 0 && self.clock == clock),
            },
    {
        if self.clock != 0 && self.clock == clock {
            Some(&self.block)
        } else {
            None
        }
    }

    /// Keeps `block` as the block computed for `clock`.
    pub fn store(&mut self, clock: usize, block: Vec<u32>)
        ensures
            final(self).clock == clock,
            final(self).block@ == block@,
    {
        self.clock = clock;
        self.block = block;
    }
}

} // verus!
