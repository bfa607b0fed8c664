//! A delay line of a whole number of samples.
use vstd::prelude::*;
use crate::inputs::{InputMap, buffers_view, copy_samples};
use crate::message::{Message, apply_order, order_after, order_msg_ok};
use crate::node::pass::{all_len, pass_buffers, passed};
use crate::ring::{
    Ring, lemma_from_view, lemma_push_view, ring_from, ring_push, ring_start, ring_storage,
    ring_view, ring_wf, pushed,
};

verus! {

/// `n` silent samples (the bit pattern of `0.0` is zero).
pub fn zeros(n: usize) -> (v: Vec<u32>)
    ensures
        v@ == Seq::new(n as nat, |i: int| 0u32),
{
    let mut v: Vec<u32> = Vec::new();
    while v.len() < n
        invariant
            v@.len() <= n,
            forall|j: int| 0 <= j < v@.len() ==> v@[j] == 0u32,
        decreases n - v@.len(),
    {
        v.push(0);
    }
    assert(v@ =~= Seq::new(n as nat, |i: int| 0u32));
    v
}

/// What a delay line holding `line` puts out while it takes in `x`: the
/// held samples first, then the input.
pub open spec fn delay_out(line: Seq<u32>, x: Seq<u32>) -> Seq<u32> {
    (line + x).take(x.len() as int)
}

/// What a delay line holding `line` holds after taking in `x`.
pub open spec fn delay_rest(line: Seq<u32>, x: Seq<u32>) -> Seq<u32> {
    (line + x).skip(x.len() as int)
}

/// Feeds `x` through the ring buffer, sample by sample, and returns what
/// comes out.
pub fn feed_ring(buf: &mut Ring, x: &Vec<u32>) -> (y: Vec<u32>)
    requires
        ring_wf(*old(buf)),
    ensures
        ring_wf(*final(buf)),
        ring_storage(*final(buf)).len() == ring_storage(*old(buf)).len(),
        y@ == delay_out(ring_view(*old(buf)), x@),
        ring_view(*final(buf)) == delay_rest(ring_view(*old(buf)), x@),
        (ring_storage(*final(buf)), ring_start(*final(buf)) as int) == pushed(
            ring_storage(*old(buf)),
            ring_start(*old(buf)) as int,
            x@,
        ),
{
    let ghost c = ring_view(*buf);
    let ghost s0 = ring_storage(*buf);
    let ghost f0 = ring_start(*buf) as int;
    let ghost l = c.len() as int;
    let mut y: Vec<u32> = Vec::new();
    let mut i: usize = 0;
    assert(c =~= (c + x@).subrange(0, l));
    while i < x.len()
        invariant
            i <= x@.len(),
            ring_wf(*buf),
            l == ring_storage(*buf).len(),
            c.len() == l,
            ring_view(*buf) == (c + x@).subrange(i as int, i + l),
            y@ == (c + x@).take(i as int),
            s0.len() == l,
            (ring_storage(*buf), ring_start(*buf) as int) == pushed(s0, f0, x@.take(i as int)),
        decreases x@.len() - i,
    {
        let ghost before = *buf;
        let out = ring_push(buf, x[i]);
        proof {
            lemma_push_view(before, *buf, x@[i as int], out);
            let s = c + x@;
            assert(s[i + l] == x@[i as int]);
            assert(ring_view(*buf) =~= s.subrange(i + 1, i + 1 + l));
            assert(out == s[i as int]);
        }
        y.push(out);
        proof {
            assert(y@ =~= (c + x@).take(i + 1));
            assert(x@.take(i + 1).drop_last() =~= x@.take(i as int));
        }
        i = i + 1;
    }
    assert(ring_view(*buf) =~= delay_rest(c, x@));
    assert(x@.take(i as int) =~= x@);
    y
}

/// A node that delays its input by `delay_n` samples (a delay of 0 passes
/// the input through).
pub struct DelayN {
    buf: Ring,
    delay_n: usize,
    input_order: Vec<usize>,
}

impl DelayN {
    /// The ring buffer is well formed and as long as the delay (one sample
    /// when there is no delay).
    pub closed spec fn wf(self) -> bool {
        &&& ring_wf(self.buf)
        &&& ring_storage(self.buf).len() == (if self.delay_n == 0 { 1 } else { self.delay_n as int })
    }

    /// The number of samples of delay.
    pub closed spec fn delay(self) -> nat {
        self.delay_n as nat
    }

    /// The samples held in the delay line, oldest first.
    pub closed spec fn line(self) -> Seq<u32> {
        ring_view(self.buf)
    }

    /// The order in which the node was told about its inputs.
    pub closed spec fn order(self) -> Seq<usize> {
        self.input_order@
    }

    /// A delay of `n` samples, its line silent; a delay of 0 keeps a line of
    /// one sample that it never uses.
    pub fn new(n: usize) -> (d: DelayN)
        ensures
            d.wf(),
            d.delay() == n,
            d.line() == Seq::new(if n == 0 { 1 } else { n as nat }, |i: int| 0u32),
            d.order() == Seq::<usize>::empty(),
    {
        let init_n = if n == 0 { 1 } else { n };
        let buf = ring_from(zeros(init_n));
        proof {
            lemma_from_view(buf);
        }
        DelayN { buf, delay_n: n, input_order: Vec::new() }
    }

    /// With exactly one input: delays its first buffer into the first output
    /// channel (copied to the second when a mono input feeds a stereo output),
    /// or with no delay passes the input through. With any other number of
    /// inputs the output is left as it is.
    pub fn process<const N: usize>(&mut self, inputs: &InputMap, output: &mut Vec<Vec<u32>>)
        requires
            old(self).wf(),
            all_len(buffers_view(old(output)@), N as int),
            forall|k: usize| #[trigger] inputs.entries().dom().contains(k) ==> all_len(inputs.entries()[k].1, N as int),
            inputs.entries().dom().len() == 1 && old(self).delay() != 0 ==> old(output)@.len() >= 1,
            inputs.entries().dom().len() == 1 && old(self).delay() != 0 ==> forall|k: usize|
                #[trigger] inputs.entries().dom().contains(k) ==> inputs.entries()[k].1.len() >= 1,
        ensures
            final(self).wf(),
            final(self).delay() == old(self).delay(),
            final(self).order() == old(self).order(),
            inputs.entries().dom().len() != 1 ==> final(output)@ == old(output)@ && final(self).line() == old(self).line(),
            inputs.entries().dom().len() == 1 ==> exists|k: usize|
                #![trigger inputs.entries()[k]]
                inputs.entries().dom().contains(k) && ({
                    let inp = inputs.entries()[k].1;
                    let out = buffers_view(old(output)@);
                    if old(self).delay() != 0 {
                        let y = delay_out(old(self).line(), inp[0]);
                        &&& final(self).line() == delay_rest(old(self).line(), inp[0])
                        &&& buffers_view(final(output)@) == (if inp.len() == 1 && out.len() == 2 {
                            out.update(0, y).update(1, y)
                        } else {
                            out.update(0, y)
                        })
                    } else {
                        &&& final(self).line() == old(self).line()
                        &&& buffers_view(final(output)@) == passed(out, inp)
                    }
                }),
    {
        if inputs.len() == 1 {
            let main = inputs.first_value().unwrap();
            let b = main.buffers();
            if self.delay_n != 0 {
                let y = feed_ring(&mut self.buf, &b[0]);
                if b.len() == 1 && output.len() == 2 {
                    let y2 = copy_samples(&y);
                    output.set(0, y);
                    output.set(1, y2);
                } else {
                    output.set(0, y);
                }
                proof {
                    let ghost out = buffers_view(old(output)@);
                    assert(buffers_view(output@) =~= (if buffers_view(b@).len() == 1 && out.len() == 2 {
                        out.update(0, delay_out(old(self).line(), buffers_view(b@)[0])).update(1, delay_out(old(self).line(), buffers_view(b@)[0]))
                    } else {
                        out.update(0, delay_out(old(self).line(), buffers_view(b@)[0]))
                    }));
                }
            } else {
                pass_buffers(b, output);
            }
        }
    }

    /// The ids of the inputs, in the order the node was told about them.
    pub fn input_order(&self) -> (o: &[usize])
        ensures
            o@ == self.order(),
    {
        self.input_order.as_slice()
    }

    /// The delay in samples.
    pub fn delay_samples(&self) -> (n: usize)
        ensures
            n == self.delay(),
    {
        self.delay_n
    }

    /// Sets a delay of `n` samples and silences the line. The outside ring
    /// buffer cannot be empty, so `n` is at least one.
    pub fn set_delay(&mut self, n: usize)
        requires
            n > 0,
        ensures
            final(self).wf(),
            final(self).delay() == n,
            final(self).line() == Seq::new(n as nat, |i: int| 0u32),
            final(self).order() == old(self).order(),
    {
        let buf = ring_from(zeros(n));
        proof {
            lemma_from_view(buf);
        }
        self.buf = buf;
        self.delay_n = n;
    }

    /// Takes a routing message; `ResetOrder` empties the order.
    pub fn send_msg(&mut self, info: Message)
        requires
            order_msg_ok(old(self).order(), info),
        ensures
            final(self).wf() == old(self).wf(),
            final(self).order() == order_after(old(self).order(), info, true),
            final(self).delay() == old(self).delay(),
            final(self).line() == old(self).line(),
    {
        apply_order(&mut self.input_order, info, true);
    }
}

/// A delay line puts out its input delayed by its length: the first samples
/// out are the ones it held, then come the input samples in order.
pub proof fn lemma_delay_shifts(line: Seq<u32>, x: Seq<u32>, t: int)
    requires
        0 <= t < x.len(),
    ensures
        delay_out(line, x)[t] == (if t < line.len() { line[t] } else { x[t - line.len()] }),
        delay_rest(line, x).len() == line.len(),
{
}

/// Feeding a delay line two blocks one after the other gives the same
/// output and the same held samples as feeding it both as one block.
pub proof fn lemma_delay_blocks_compose(line: Seq<u32>, x1: Seq<u32>, x2: Seq<u32>)
    ensures
        delay_out(line, x1) + delay_out(delay_rest(line, x1), x2) == delay_out(line, x1 + x2),
        delay_rest(delay_rest(line, x1), x2) == delay_rest(line, x1 + x2),
{
    let l1 = delay_rest(line, x1);
    assert(line + (x1 + x2) =~= (line + x1) + x2);
    assert(l1 + x2 =~= (line + x1 + x2).skip(x1.len() as int));
    assert(delay_out(line, x1) + delay_out(l1, x2) =~= delay_out(line, x1 + x2));
    assert(delay_rest(l1, x2) =~= delay_rest(line, x1 + x2));
}

} // verus!
