//! A node that passes its input straight to its output.
use vstd::prelude::*;
use crate::inputs::{Input, InputMap, buffers_view, copy_samples};
use crate::message::Message;

verus! {

/// Every buffer of `b` holds `n` samples.
pub open spec fn all_len(b: Seq<Seq<u32>>, n: int) -> bool {
    forall|i: int| 0 <= i < b.len() ==> #[trigger] b[i].len() == n
}

/// The output buffers after passing input buffers `inp` through: a mono
/// input feeds both channels of a stereo output; otherwise input buffer `i`
/// replaces output buffer `i` as far as both go.
pub open spec fn passed(out: Seq<Seq<u32>>, inp: Seq<Seq<u32>>) -> Seq<Seq<u32>> {
    if inp.len() == 1 && out.len() == 2 {
        seq![inp[0], inp[0]]
    } else {
        Seq::new(out.len(), |i: int| if i < inp.len() { inp[i] } else { out[i] })
    }
}

/// Copies input buffers into output buffers as `passed` says.
pub fn pass_buffers(inp: &[Vec<u32>], output: &mut Vec<Vec<u32>>)
    ensures
        buffers_view(final(output)@) == passed(buffers_view(old(output)@), buffers_view(inp@)),
{
    if inp.len() == 1 && output.len() == 2 {
        let a = copy_samples(&inp[0]);
        let b = copy_samples(&inp[0]);
        output.set(0, a);
        output.set(1, b);
        assert(buffers_view(output@) =~= passed(buffers_view(old(output)@), buffers_view(inp@)));
    } else {
        let mut i: usize = 0;
        while i < output.len() && i < inp.len()
            invariant
                i <= output@.len(),
                i <= inp@.len(),
                output@.len() == old(output)@.len(),
                forall|j: int| 0 <= j < i ==> #[trigger] output@[j]@ == inp@[j]@,
                forall|j: int| i <= j < output@.len() ==> #[trigger] output@[j] == old(output)@[j],
            decreases output@.len() - i,
        {
            let c = copy_samples(&inp[i]);
            output.set(i, c);
            i = i + 1;
        }
        let ghost p = passed(buffers_view(old(output)@), buffers_view(inp@));
        assert forall|j: int| 0 <= j < output@.len() implies #[trigger] buffers_view(output@)[j] == p[j] by {
            if j < i {
                assert(output@[j]@ == inp@[j]@);
            } else {
                assert(output@[j] == old(output)@[j]);
            }
        }
        assert(buffers_view(output@) =~= p);
    }
}

/// A node that passes the buffers of its (first) input to its output.
pub struct Pass;

impl Pass {
    /// Passes the buffers of one input to the output. With several inputs the
    /// one taken is whichever the input map yields first, which is left open;
    /// with none the output is left as it is.
    pub fn process<const N: usize>(&mut self, inputs: &InputMap, output: &mut Vec<Vec<u32>>)
        ensures
            inputs.entries().dom().len() == 0 ==> final(output)@ == old(output)@,
            inputs.entries().dom().len() != 0 ==> exists|k: usize|
                #![trigger inputs.entries()[k]]
                inputs.entries().dom().contains(k) && buffers_view(final(output)@) == passed(
                    buffers_view(old(output)@),
                    inputs.entries()[k].1,
                ),
    {
        match inputs.first_value() {
            None => {},
            Some(input) => {
                pass_buffers(input.buffers(), output);
            },
        }
    }

    /// A pass node takes no messages.
    pub fn send_msg(&mut self, _info: Message) {
    }
}

} // verus!
