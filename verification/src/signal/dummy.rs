//! Nodes whose output the graph writes directly.
use vstd::prelude::*;
use crate::inputs::Input;

verus! {

/// The graph's sample clock; the graph writes its output buffer itself.
pub struct Clock;

impl Clock {
    /// Leaves the output as the graph set it.
    pub fn process(&mut self, _inputs: &[Input], output: &mut Vec<Vec<u32>>)
        ensures
            final(output)@ == old(output)@,
    {
    }
}

/// The audio input of the graph; the graph writes its output buffer itself.
pub struct AudioIn;

impl AudioIn {
    /// Leaves the output as the graph set it.
    pub fn process(&mut self, _inputs: &[Input], output: &mut Vec<Vec<u32>>)
        ensures
            final(output)@ == old(output)@,
    {
    }
}

} // verus!
