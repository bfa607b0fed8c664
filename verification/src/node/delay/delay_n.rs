//! A delay line of a whole number of samples whose read position can be
//! moved.
use vstd::prelude::*;
use crate::inputs::{InputMap, buffers_view};
use crate::message::{Message, apply_order, order_after, order_msg_ok};
use crate::node::delay::delayn::{delay_out, delay_rest, feed_ring, zeros};
use crate::node::pass::all_len;
use crate::ring::{
    Ring, lemma_from_view, ring_from, ring_set_first, ring_start, ring_storage, ring_view, ring_wf,
    rotated, pushed,
};

verus! {

/// A delay of `n` samples whose front can be moved within its storage.
pub struct DelayN {
    buf: Ring,
    input_order: Vec<usize>,
}

impl DelayN {
    /// The ring buffer is well formed.
    pub closed spec fn wf(self) -> bool {
        ring_wf(self.buf)
    }

    /// The samples held in the line, from the front on.
    pub closed spec fn line(self) -> Seq<u32> {
        ring_view(self.buf)
    }

    /// The samples held, in storage order.
    pub closed spec fn storage(self) -> Seq<u32> {
        ring_storage(self.buf)
    }

    /// The storage index of the front of the line.
    pub closed spec fn front(self) -> int {
        ring_start(self.buf) as int
    }

    /// The order in which the node was told about its inputs.
    pub closed spec fn order(self) -> Seq<usize> {
        self.input_order@
    }

    /// A silent delay of `n` samples. The outside ring buffer cannot be
    /// empty, so `n` is at least one.
    pub fn new(n: usize) -> (d: DelayN)
        requires
            n > 0,
        ensures
            d.wf(),
            d.line() == Seq::new(n as nat, |i: int| 0u32),
            d.storage() == d.line(),
            d.front() == 0,
            d.order() == Seq::<usize>::empty(),
    {
        let buf = ring_from(zeros(n));
        proof {
            lemma_from_view(buf);
        }
        DelayN { buf, input_order: Vec::new() }
    }

    /// With exactly one input, delays its first buffer into the first output
    /// channel; otherwise leaves everything as it is.
    pub fn process<const N: usize>(&mut self, inputs: &InputMap, output: &mut Vec<Vec<u32>>)
        requires
            old(self).wf(),
            all_len(buffers_view(old(output)@), N as int),
            forall|k: usize| #[trigger] inputs.entries().dom().contains(k) ==> all_len(inputs.entries()[k].1, N as int)
                && (inputs.entries().dom().len() == 1 ==> inputs.entries()[k].1.len() >= 1),
            inputs.entries().dom().len() == 1 ==> old(output)@.len() >= 1,
        ensures
            final(self).wf(),
            final(self).order() == old(self).order(),
            inputs.entries().dom().len() != 1 ==> final(output)@ == old(output)@ && final(self).line() == old(self).line()
                && final(self).storage() == old(self).storage() && final(self).front() == old(self).front(),
            inputs.entries().dom().len() == 1 ==> exists|k: usize|
                #![trigger inputs.entries()[k]]
                inputs.entries().dom().contains(k) && ({
                    let x = inputs.entries()[k].1[0];
                    &&& final(self).line() == delay_rest(old(self).line(), x)
                    &&& (final(self).storage(), final(self).front()) == pushed(
                        old(self).storage(),
                        old(self).front(),
                        x,
                    )
                    &&& buffers_view(final(output)@) == buffers_view(old(output)@).update(
                        0,
                        delay_out(old(self).line(), x),
                    )
                }),
    {
        if inputs.len() == 1 {
            let main = inputs.first_value().unwrap();
            let b = main.buffers();
            let y = feed_ring(&mut self.buf, &b[0]);
            output.set(0, y);
            assert(buffers_view(output@) =~= buffers_view(old(output)@).update(
                0,
                delay_out(old(self).line(), buffers_view(b@)[0]),
            ));
        }
    }

    /// Moves the front of the line to storage index `index`, modulo the
    /// length; the stored samples stay where they are.
    pub fn set_first(&mut self, index: usize)
        requires
            old(self).wf(),
        ensures
            final(self).wf(),
            final(self).storage() == old(self).storage(),
            final(self).front() == index as int % (old(self).storage().len() as int),
            final(self).line() == rotated(old(self).storage(), index as int % (old(self).storage().len() as int)),
            final(self).order() == old(self).order(),
    {
        ring_set_first(&mut self.buf, index);
    }

    /// The ids of the inputs, in the order the node was told about them.
    pub fn input_order(&self) -> (o: &[usize])
        ensures
            o@ == self.order(),
    {
        self.input_order.as_slice()
    }

    /// Takes a routing message; this node ignores `ResetOrder`.
    pub fn send_msg(&mut self, info: Message)
        requires
            order_msg_ok(old(self).order(), info),
        ensures
            final(self).order() == order_after(old(self).order(), info, false),
            old(self).wf() ==> final(self).wf(),
            final(self).line() == old(self).line(),
            final(self).storage() == old(self).storage(),
            final(self).front() == old(self).front(),
    {
        apply_order(&mut self.input_order, info, false);
    }
}

} // verus!
