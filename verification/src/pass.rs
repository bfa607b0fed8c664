//! The pass node of the list-of-inputs graph interface.
use vstd::prelude::*;
use crate::inputs::{Input, buffers_view, copy_samples};

verus! {

/// A node that copies the first buffer of its first input to its output.
pub struct Pass;

impl Pass {
    /// A pass node.
    pub fn new() -> (p: Pass) {
        Pass
    }

    /// Copies the first buffer of the first input into the first output
    /// channel.
    pub fn process(&mut self, inputs: &[Input], output: &mut Vec<Vec<u32>>)
        requires
            inputs@.len() >= 1,
            inputs@[0]@.1.len() >= 1,
            old(output)@.len() >= 1,
        ensures
            buffers_view(final(output)@) == buffers_view(old(output)@).update(0, inputs@[0]@.1[0]),
    {
        let c = copy_samples(&inputs[0].buffers()[0]);
        output.set(0, c);
        assert(buffers_view(output@) =~= buffers_view(old(output)@).update(0, inputs@[0]@.1[0]));
    }
}

} // verus!
