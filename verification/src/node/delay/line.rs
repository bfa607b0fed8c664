//! A single delay line of samples that callers read at any position.
use vstd::prelude::*;
use crate::node::delay::delayn::zeros;
use crate::ring::{
    Ring, lemma_from_view, lemma_get_view, lemma_push_view, ring_from, ring_get, ring_len,
    ring_push, ring_set_first, ring_start, ring_storage, ring_view, ring_wf, rotated, next_front,
};

verus! {

/// A fixed-length line of samples: pushing a sample in at the back moves the
/// oldest one out at the front.
pub struct DelayLine {
    buf: Ring,
}

impl DelayLine {
    /// The ring buffer is well formed.
    pub closed spec fn wf(self) -> bool {
        ring_wf(self.buf)
    }

    /// The samples held, oldest first.
    pub closed spec fn line(self) -> Seq<u32> {
        ring_view(self.buf)
    }

    /// The samples held, in storage order.
    pub closed spec fn storage(self) -> Seq<u32> {
        ring_storage(self.buf)
    }

    /// The storage index of the front of the line.
    pub closed spec fn front(self) -> int {
        ring_start(self.buf) as int
    }

    /// A silent line of `n` samples. The outside ring buffer cannot be
    /// empty, so `n` is at least one.
    pub fn new(n: usize) -> (d: DelayLine)
        requires
            n > 0,
        ensures
            d.wf(),
            d.line() == Seq::new(n as nat, |i: int| 0u32),
            d.storage() == d.line(),
            d.front() == 0,
    {
        let buf = ring_from(zeros(n));
        proof {
            lemma_from_view(buf);
        }
        DelayLine { buf }
    }

    /// The number of samples held.
    pub fn len(&self) -> (n: usize)
        requires
            self.wf(),
        ensures
            n == self.line().len(),
    {
        ring_len(&self.buf)
    }

    /// The sample `index` places behind the oldest one, wrapping around the
    /// length of the line.
    pub fn tap(&self, index: usize) -> (s: u32)
        requires
            self.wf(),
            index + self.line().len() <= usize::MAX,
        ensures
            s == self.line()[index as int % (self.line().len() as int)],
    {
        proof {
            lemma_get_view(self.buf, index as int);
        }
        ring_get(&self.buf, index)
    }

    /// Pushes `sample` in at the back and returns the oldest sample, which
    /// leaves the line.
    pub fn feed(&mut self, sample: u32) -> (s: u32)
        requires
            old(self).wf(),
        ensures
            final(self).wf(),
            s == old(self).line()[0],
            final(self).line() == old(self).line().drop_first().push(sample),
            final(self).storage() == old(self).storage().update(old(self).front(), sample),
            final(self).front() == next_front(old(self).front(), old(self).storage().len() as int),
    {
        let ghost before = self.buf;
        let s = ring_push(&mut self.buf, sample);
        proof {
            lemma_push_view(before, self.buf, sample, s);
        }
        s
    }

    /// Moves the front of the line to storage index `index`, modulo the
    /// length; the stored samples stay where they are.
    pub fn set_first(&mut self, index: usize)
        requires
            old(self).wf(),
        ensures
            final(self).wf(),
            final(self).storage() == old(self).storage(),
            final(self).front() == index as int % (old(self).storage().len() as int),
            final(self).line() == rotated(old(self).storage(), index as int % (old(self).storage().len() as int)),
    {
        ring_set_first(&mut self.buf, index);
    }
}

} // verus!
