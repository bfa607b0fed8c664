//! A node that makes a stereo pair out of two mono inputs.
use vstd::prelude::*;
use crate::inputs::{InputMap, buffers_view, copy_samples};
use crate::message::{Message, apply_order, order_after, order_msg_ok};

verus! {

/// Takes the first buffer of two inputs, in the order that the node was told,
/// as the left and right channel.
pub struct Balance {
    pub input_order: Vec<usize>,
}

/// `process` can run without panicking: with two inputs, the order names
/// two of them, each with a buffer, and the output has two channels.
pub open spec fn balance_ready(order: Seq<usize>, entries: Map<usize, (usize, Seq<Seq<u32>>)>, out_len: int) -> bool {
    entries.dom().len() == 2 ==> {
        &&& order.len() >= 2
        &&& entries.dom().contains(order[0])
        &&& entries.dom().contains(order[1])
        &&& entries[order[0]].1.len() >= 1
        &&& entries[order[1]].1.len() >= 1
        &&& out_len >= 2
    }
}

/// The output of `process`: with two inputs, the first buffer of the input
/// named first in the order goes left and that of the one named second goes
/// right; otherwise the output is left as it is.
pub open spec fn balanced(order: Seq<usize>, entries: Map<usize, (usize, Seq<Seq<u32>>)>, out: Seq<Seq<u32>>) -> Seq<Seq<u32>> {
    if entries.dom().len() == 2 {
        out.update(0, entries[order[0]].1[0]).update(1, entries[order[1]].1[0])
    } else {
        out
    }
}

impl Balance {
    /// A balance node with no input order yet.
    pub fn new() -> (b: Balance)
        ensures
            b.input_order@ == Seq::<usize>::empty(),
    {
        Balance { input_order: Vec::new() }
    }

    /// Routes the two inputs to the two output channels.
    pub fn process<const N: usize>(&mut self, inputs: &InputMap, output: &mut Vec<Vec<u32>>)
        requires
            balance_ready(old(self).input_order@, inputs.entries(), old(output)@.len() as int),
        ensures
            final(self).input_order@ == old(self).input_order@,
            buffers_view(final(output)@) == balanced(
                old(self).input_order@,
                inputs.entries(),
                buffers_view(old(output)@),
            ),
    {
        if inputs.len() == 2 {
            let left = inputs.get(self.input_order[0]).unwrap();
            let right = inputs.get(self.input_order[1]).unwrap();
            let l = copy_samples(&left.buffers()[0]);
            let r = copy_samples(&right.buffers()[0]);
            output.set(0, l);
            output.set(1, r);
            assert(buffers_view(output@) =~= balanced(
                self.input_order@,
                inputs.entries(),
                buffers_view(old(output)@),
            ));
        }
    }

    /// Takes a routing message; `ResetOrder` empties the order.
    pub fn send_msg(&mut self, info: Message)
        requires
            order_msg_ok(old(self).input_order@, info),
        ensures
            final(self).input_order@ == order_after(old(self).input_order@, info, true),
    {
        apply_order(&mut self.input_order, info, true);
    }
}

impl Default for Balance {
    fn default() -> (b: Balance)
        ensures
            b.input_order@ == Seq::<usize>::empty(),
    {
        Balance::new()
    }
}

} // verus!
