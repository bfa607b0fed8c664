//! A multi-channel delay line measured in milliseconds.
use vstd::prelude::*;
use crate::inputs::{InputMap, buffers_view, copy_samples};
use crate::message::{Message, apply_order, order_after, order_msg_ok};
use crate::node::delay::delayn::{delay_out, delay_rest, feed_ring, zeros};
use crate::node::pass::all_len;
use crate::ring::{
    Ring, lemma_from_view, lemma_get_view, lemma_push_view, ring_from, ring_get, ring_push,
    ring_start, ring_storage, ring_view, ring_wf,
};

verus! {

/// The contents of each channel's delay line.
pub open spec fn ring_views(b: Seq<Ring>) -> Seq<Seq<u32>> {
    b.map_values(|r: Ring| ring_view(r))
}

/// `chan` silent delay lines of `n` samples each.
fn silent_lines(n: usize, chan: usize) -> (b: Vec<Ring>)
    requires
        n > 0,
    ensures
        b@.len() == chan,
        forall|c: int| 0 <= c < chan ==> ring_wf(#[trigger] b@[c]) && ring_storage(b@[c]).len() == n,
        ring_views(b@) == Seq::new(chan as nat, |c: int| Seq::new(n as nat, |i: int| 0u32)),
{
    let mut b: Vec<Ring> = Vec::new();
    while b.len() < chan
        invariant
            n > 0,
            b@.len() <= chan,
            forall|c: int| 0 <= c < b@.len() ==> ring_wf(#[trigger] b@[c]) && ring_storage(b@[c]).len() == n
                && ring_view(b@[c]) == Seq::new(n as nat, |i: int| 0u32),
        decreases chan - b@.len(),
    {
        let r = ring_from(zeros(n));
        proof {
            lemma_from_view(r);
        }
        b.push(r);
    }
    assert(ring_views(b@) =~= Seq::new(chan as nat, |c: int| Seq::new(n as nat, |i: int| 0u32)));
    b
}

/// The lines after feeding the first `m` of them with the matching input
/// buffers.
pub open spec fn fed_lines(lines: Seq<Seq<u32>>, inp: Seq<Seq<u32>>, m: int) -> Seq<Seq<u32>> {
    Seq::new(lines.len(), |c: int| if c < m { delay_rest(lines[c], inp[c]) } else { lines[c] })
}

/// The output after the first `m` channels have been fed through their lines.
pub open spec fn fed_out(out: Seq<Seq<u32>>, lines: Seq<Seq<u32>>, inp: Seq<Seq<u32>>, m: int) -> Seq<Seq<u32>> {
    Seq::new(out.len(), |c: int| if c < m { delay_out(lines[c], inp[c]) } else { out[c] })
}

/// The smallest of three counts.
pub open spec fn min3(a: int, b: int, c: int) -> int {
    if a <= b && a <= c {
        a
    } else if b <= c {
        b
    } else {
        c
    }
}

/// A delay line per channel, all of the same length.
pub struct DelayMs {
    buf: Vec<Ring>,
    sr: usize,
    input_order: Vec<usize>,
    delay_n: usize,
}

impl DelayMs {
    /// Every channel's ring buffer is well formed and `delay_n` samples long.
    pub closed spec fn wf(self) -> bool {
        forall|c: int|
            0 <= c < self.buf@.len() ==> ring_wf(#[trigger] self.buf@[c]) && ring_storage(self.buf@[c]).len()
                == self.delay_n
    }

    /// The contents of each channel's delay line, oldest sample first.
    pub closed spec fn lines(self) -> Seq<Seq<u32>> {
        ring_views(self.buf@)
    }

    /// The delay in samples.
    pub closed spec fn delay_len(self) -> nat {
        self.delay_n as nat
    }

    /// The sample rate.
    pub closed spec fn rate(self) -> usize {
        self.sr
    }

    /// The order in which the node was told about its inputs.
    pub closed spec fn order(self) -> Seq<usize> {
        self.input_order@
    }

    /// A delay with no channels yet, a delay of one sample, at 44100 Hz.
    pub fn new() -> (d: DelayMs)
        ensures
            d.wf(),
            d.lines() == Seq::<Seq<u32>>::empty(),
            d.delay_len() == 1,
            d.rate() == 44100,
            d.order() == Seq::<usize>::empty(),
    {
        let d = DelayMs { buf: Vec::new(), delay_n: 1, sr: 44100, input_order: Vec::new() };
        assert(d.lines() =~= Seq::<Seq<u32>>::empty());
        d
    }

    /// `chan` silent channels delaying by `samples` samples, at least one
    /// (the caller converts milliseconds to samples at the sample rate).
    pub fn delay(self, samples: usize, chan: u8) -> (d: DelayMs)
        ensures
            d.wf(),
            d.delay_len() == (if samples == 0 { 1 } else { samples }),
            d.lines() == Seq::new(chan as nat, |c: int| Seq::new(d.delay_len(), |i: int| 0u32)),
            d.rate() == self.rate(),
            d.order() == self.order(),
    {
        let n = if samples == 0 { 1 } else { samples };
        let buf = silent_lines(n, chan as usize);
        DelayMs { buf, delay_n: n, ..self }
    }

    /// The same delay at sample rate `sr`.
    pub fn sr(self, sr: usize) -> (d: DelayMs)
        ensures
            self.wf() ==> d.wf(),
            d.lines() == self.lines(),
            d.delay_len() == self.delay_len(),
            d.rate() == sr,
            d.order() == self.order(),
    {
        DelayMs { sr, ..self }
    }

    /// Runs the node on one block. Some input decides the channel count
    /// (which one is left open when there are several); unless it has one or
    /// two buffers nothing happens. With one input each channel is fed
    /// through its line, or with no delay the first buffer is copied. With
    /// two inputs (and that input holding one or two buffers) the result is
    /// `true` and nothing is changed: the caller reads the lines at modulated
    /// positions with `tap` and feeds them with `feed`. Otherwise the result
    /// is `false`.
    pub fn process<const N: usize>(&mut self, inputs: &InputMap, output: &mut Vec<Vec<u32>>) -> (modulated: bool)
        requires
            old(self).wf(),
            inputs.entries().dom().len() > 0,
            all_len(buffers_view(old(output)@), N as int),
            forall|k: usize| #[trigger] inputs.entries().dom().contains(k) ==> all_len(inputs.entries()[k].1, N as int),
            old(self).delay_len() == 0 && inputs.entries().dom().len() == 1 ==> forall|k: usize|
                #[trigger] inputs.entries().dom().contains(k) && 1 <= inputs.entries()[k].1.len() <= 2
                    ==> old(output)@.len() >= 1,
        ensures
            final(self).wf(),
            final(self).delay_len() == old(self).delay_len(),
            final(self).rate() == old(self).rate(),
            final(self).order() == old(self).order(),
            exists|k: usize|
                #![trigger inputs.entries()[k]]
                inputs.entries().dom().contains(k) && ({
                    let inp = inputs.entries()[k].1;
                    let out = buffers_view(old(output)@);
                    let lines = old(self).lines();
                    &&& modulated == (inputs.entries().dom().len() == 2 && 1 <= inp.len() <= 2)
                    &&& if modulated || inp.len() < 1 || inp.len() > 2 || inputs.entries().dom().len() != 1 {
                        final(self).lines() == lines && final(output)@ == old(output)@
                    } else if old(self).delay_len() == 0 {
                        final(self).lines() == lines && buffers_view(final(output)@) == out.update(0, inp[0])
                    } else {
                        let m = min3(lines.len() as int, out.len() as int, inp.len() as int);
                        &&& final(self).lines() == fed_lines(lines, inp, m)
                        &&& buffers_view(final(output)@) == fed_out(out, lines, inp, m)
                    }
                }),
    {
        let main = inputs.first_value().unwrap();
        let b = main.buffers();
        if b.len() < 1 || b.len() > 2 {
            return false;
        }
        let count = inputs.len();
        if count == 1 {
            if self.delay_n == 0 {
                let c = copy_samples(&b[0]);
                output.set(0, c);
                assert(buffers_view(output@) =~= buffers_view(old(output)@).update(0, buffers_view(b@)[0]));
            } else {
                let ghost lines = self.lines();
                let ghost inp = buffers_view(b@);
                let ghost out0 = buffers_view(output@);
                let mut old_buf: Vec<Ring> = Vec::new();
                std::mem::swap(&mut old_buf, &mut self.buf);
                let ghost all = old_buf@;
                let total = old_buf.len();
                let mut done: Vec<Ring> = Vec::new();
                let mut c: usize = 0;
                while c < total
                    invariant
                        total == all.len(),
                        c <= total,
                        lines == ring_views(all),
                        done@.len() == c,
                        old_buf@ == all.skip(c as int),
                        forall|j: int| 0 <= j < total ==> ring_wf(#[trigger] all[j]) && ring_storage(all[j]).len() == self.delay_n,
                        forall|j: int| 0 <= j < c ==> ring_wf(#[trigger] done@[j]) && ring_storage(done@[j]).len() == self.delay_n,
                        forall|j: int| 0 <= j < c ==> #[trigger] ring_view(done@[j]) == (if j < min3(lines.len() as int, out0.len() as int, inp.len() as int) {
                            delay_rest(lines[j], inp[j])
                        } else {
                            lines[j]
                        }),
                        output@.len() == out0.len(),
                        forall|j: int| 0 <= j < output@.len() ==> #[trigger] buffers_view(output@)[j] == (if j < c && j < min3(lines.len() as int, out0.len() as int, inp.len() as int) {
                            delay_out(lines[j], inp[j])
                        } else {
                            out0[j]
                        }),
                        b@.len() == inp.len(),
                        inp == buffers_view(b@),
                    decreases total - c,
                {
                    let mut r = old_buf.remove(0);
                    proof {
                        assert(r == all[c as int]);
                        assert(old_buf@ =~= all.skip(c + 1));
                    }
                    proof {
                        assert(lines[c as int] == ring_view(r));
                    }
                    let ghost prev = output@;
                    let ghost m = min3(lines.len() as int, out0.len() as int, inp.len() as int);
                    if c < output.len() && c < b.len() {
                        proof {
                            assert(inp[c as int] == b@[c as int]@);
                        }
                        let y = feed_ring(&mut r, &b[c]);
                        output.set(c, y);
                    }
                    proof {
                        assert forall|j: int| 0 <= j < output@.len() implies #[trigger] buffers_view(output@)[j] == (if j < c + 1 && j < m {
                            delay_out(lines[j], inp[j])
                        } else {
                            out0[j]
                        }) by {
                            if j != c {
                                assert(output@[j] == prev[j]);
                                assert(buffers_view(prev)[j] == prev[j]@);
                            }
                        }
                    }
                    done.push(r);
                    c = c + 1;
                }
                self.buf = done;
                proof {
                    let m = min3(lines.len() as int, out0.len() as int, inp.len() as int);
                    assert(self.lines() =~= fed_lines(lines, inp, m));
                    assert(buffers_view(output@) =~= fed_out(out0, lines, inp, m));
                }
            }
            false
        } else if count == 2 {
            true
        } else {
            false
        }
    }

    /// The ids of the inputs, in the order the node was told about them.
    pub fn input_order(&self) -> (o: &[usize])
        ensures
            o@ == self.order(),
    {
        self.input_order.as_slice()
    }

    /// The delay in samples.
    pub fn delay_samples(&self) -> (n: usize)
        ensures
            n == self.delay_len(),
    {
        self.delay_n
    }

    /// The number of channels.
    pub fn channels(&self) -> (n: usize)
        ensures
            n == self.lines().len(),
    {
        self.buf.len()
    }

    /// The sample rate.
    pub fn sample_rate(&self) -> (r: usize)
        ensures
            r == self.rate(),
    {
        self.sr
    }

    /// The sample `index` places behind the front of channel `chan`'s line,
    /// wrapping around its length.
    pub fn tap(&self, chan: usize, index: usize) -> (s: u32)
        requires
            self.wf(),
            chan < self.lines().len(),
            index + self.delay_len() <= usize::MAX,
        ensures
            s == self.lines()[chan as int][index as int % (self.delay_len() as int)],
    {
        proof {
            lemma_get_view(self.buf@[chan as int], index as int);
        }
        ring_get(&self.buf[chan], index)
    }

    /// Pushes one sample into channel `chan`'s line and returns the oldest
    /// sample, which leaves the line.
    pub fn feed(&mut self, chan: usize, sample: u32) -> (s: u32)
        requires
            old(self).wf(),
            chan < old(self).lines().len(),
        ensures
            final(self).wf(),
            s == old(self).lines()[chan as int][0],
            final(self).lines() == old(self).lines().update(
                chan as int,
                old(self).lines()[chan as int].drop_first().push(sample),
            ),
            final(self).delay_len() == old(self).delay_len(),
            final(self).rate() == old(self).rate(),
            final(self).order() == old(self).order(),
    {
        let mut r = self.buf.remove(chan);
        let ghost before = r;
        let s = ring_push(&mut r, sample);
        proof {
            lemma_push_view(before, r, sample, s);
        }
        self.buf.insert(chan, r);
        proof {
            assert(self.lines() =~= old(self).lines().update(
                chan as int,
                old(self).lines()[chan as int].drop_first().push(sample),
            ));
        }
        s
    }

    /// Sets a delay of `samples` samples (the caller converts milliseconds):
    /// no delay drops every channel's line, otherwise each channel gets a
    /// silent line of that length.
    pub fn set_delay(&mut self, samples: usize)
        requires
            old(self).wf(),
        ensures
            final(self).wf(),
            final(self).delay_len() == samples,
            final(self).lines() == (if samples == 0 {
                Seq::<Seq<u32>>::empty()
            } else {
                Seq::new(old(self).lines().len(), |c: int| Seq::new(samples as nat, |i: int| 0u32))
            }),
            final(self).rate() == old(self).rate(),
            final(self).order() == old(self).order(),
    {
        self.delay_n = samples;
        if samples == 0 {
            self.buf.clear();
            assert(self.lines() =~= Seq::<Seq<u32>>::empty());
        } else {
            let chan = self.buf.len();
            self.buf = silent_lines(samples, chan);
        }
    }

    /// Takes a routing message; `ResetOrder` empties the order.
    pub fn send_msg(&mut self, info: Message)
        requires
            order_msg_ok(old(self).order(), info),
        ensures
            final(self).order() == order_after(old(self).order(), info, true),
            old(self).wf() ==> final(self).wf(),
            final(self).lines() == old(self).lines(),
            final(self).delay_len() == old(self).delay_len(),
            final(self).rate() == old(self).rate(),
    {
        apply_order(&mut self.input_order, info, true);
    }
}

} // verus!
