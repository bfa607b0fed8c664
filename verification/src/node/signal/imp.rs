//! A clock that emits a single-sample impulse once every period.
use vstd::prelude::*;
use crate::inputs::buffers_view;

verus! {

/// The bit pattern of the sample value `1.0`.
pub const SAMPLE_ONE: u32 = 0x3F80_0000;

/// The bit pattern of the sample value `0.0`.
pub const SAMPLE_ZERO: u32 = 0;

/// The sample an impulse train puts out at clock `t`: one at every multiple
/// of `period`, zero elsewhere.
pub open spec fn impulse_at(t: int, period: int) -> u32 {
    if t % period == 0 {
        SAMPLE_ONE
    } else {
        SAMPLE_ZERO
    }
}

/// The `n` samples of an impulse train from clock `clock` on.
pub open spec fn impulse_block(clock: int, period: int, n: int) -> Seq<u32> {
    Seq::new(n as nat, |i: int| impulse_at(clock + i, period))
}

/// An impulse train: counts samples and fires whenever the count is a
/// multiple of the period.
#[derive(Clone, Copy)]
pub struct Impulse {
    pub clock: usize,
    pub period: usize,
    pub sr: usize,
}

impl Impulse {
    /// An impulse train at one impulse per second at 44100 Hz.
    pub fn new() -> (r: Impulse)
        ensures
            r.clock == 0,
            r.period == 44100,
            r.sr == 44100,
    {
        Impulse { clock: 0, period: 44100, sr: 44100 }
    }

    /// The same impulse train at sample rate `sr`.
    pub fn sr(self, sr: usize) -> (r: Impulse)
        ensures
            r == (Impulse { sr, ..self }),
    {
        Impulse { sr, ..self }
    }

    /// The same impulse train with `period` samples between impulses (the
    /// caller derives it from a frequency and the sample rate).
    pub fn period(self, period: usize) -> (r: Impulse)
        ensures
            r == (Impulse { period, ..self }),
    {
        Impulse { period, ..self }
    }

    /// Fills the first output channel with `N` samples of the train. A clock
    /// read from an input replaces the count first; the count then advances
    /// by `N`.
    pub fn process<const N: usize>(&mut self, clock_in: Option<usize>, output: &mut Vec<Vec<u32>>)
        requires
            old(self).period > 0,
            old(output)@.len() >= 1,
            old(output)@[0]@.len() == N,
            (match clock_in {
                Some(c) => c,
                None => old(self).clock,
            }) + N <= usize::MAX,
        ensures
            ({
                let start = match clock_in {
                    Some(c) => c,
                    None => old(self).clock,
                };
                &&& final(self).clock == start + N
                &&& final(self).period == old(self).period
                &&& final(self).sr == old(self).sr
                &&& buffers_view(final(output)@) == buffers_view(old(output)@).update(
                    0,
                    impulse_block(start as int, old(self).period as int, N as int),
                )
            }),
    {
        if let Some(c) = clock_in {
            self.clock = c;
        }
        let ghost start = self.clock;
        let mut out: Vec<u32> = Vec::new();
        let mut i: usize = 0;
        while i < N
            invariant
                i <= N,
                self.clock == start + i,
                start + N <= usize::MAX,
                self.period == old(self).period,
                self.sr == old(self).sr,
                start == (match clock_in { Some(c) => c, None => old(self).clock }),
                self.period > 0,
                out@ == impulse_block(start as int, self.period as int, i as int),
            decreases N - i,
        {
            let fire = self.clock % self.period == 0;
            out.push(if fire { SAMPLE_ONE } else { SAMPLE_ZERO });
            proof {
                assert(out@ =~= impulse_block(start as int, self.period as int, i + 1));
            }
            self.clock = self.clock + 1;
            i = i + 1;
        }
        output.set(0, out);
        assert(buffers_view(output@) =~= buffers_view(old(output)@).update(
            0,
            impulse_block(start as int, old(self).period as int, N as int),
        ));
    }
}

/// Two blocks of an impulse train, one after the other, are one block of
/// their joint length.
pub proof fn lemma_impulse_blocks_compose(clock: int, period: int, n1: int, n2: int)
    requires
        n1 >= 0,
        n2 >= 0,
    ensures
        impulse_block(clock, period, n1) + impulse_block(clock + n1, period, n2)
            == impulse_block(clock, period, n1 + n2),
{
    assert(impulse_block(clock, period, n1) + impulse_block(clock + n1, period, n2)
        =~= impulse_block(clock, period, n1 + n2));
}

/// Sample `j` after clock `clock` of an impulse train fires.
pub open spec fn fires_at(clock: int, period: int, j: int) -> bool {
    impulse_at(clock + j, period) == SAMPLE_ONE
}

/// Within any `period` consecutive samples of an impulse train exactly one
/// sample fires.
pub proof fn lemma_one_impulse_per_period(clock: int, period: int)
    requires
        period > 0,
        clock >= 0,
    ensures
        exists|j: int| 0 <= j < period && #[trigger] fires_at(clock, period, j),
        forall|j: int, k: int|
            0 <= j < period && 0 <= k < period && #[trigger] fires_at(clock, period, j)
                && #[trigger] fires_at(clock, period, k) ==> j == k,
{
    let r = clock % period;
    let j0 = if r == 0 { 0 } else { period - r };
    assert((clock + j0) % period == 0) by (nonlinear_arith)
        requires
            period > 0,
            clock >= 0,
            r == clock % period,
            j0 == (if r == 0 { 0 } else { period - r }),
    ;
    assert(fires_at(clock, period, j0));
    assert forall|j: int, k: int|
        0 <= j < period && 0 <= k < period && #[trigger] fires_at(clock, period, j)
            && #[trigger] fires_at(clock, period, k) implies j == k by {
        assert((clock + j) % period == 0 && (clock + k) % period == 0);
        assert(j == k) by (nonlinear_arith)
            requires
                period > 0,
                0 <= j < period,
                0 <= k < period,
                (clock + j) % period == 0,
                (clock + k) % period == 0,
        ;
    }
}

} // verus!
