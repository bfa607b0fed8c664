//! The state machine of an attack-decay-sustain-release envelope: gate edges,
//! the phase and the count of samples since the last edge.
use vstd::prelude::*;

verus! {

/// How an input sample compares with zero: exactly zero, above zero, or
/// anything else (below zero or not a number).
#[derive(PartialEq, Eq, Structural, Clone, Copy)]
pub enum Level {
    Zero,
    Positive,
    Other,
}

/// The part of the envelope a sample falls in, with what the caller needs
/// to compute its value.
#[derive(PartialEq, Eq, Structural, Clone, Copy)]
pub enum Segment {
    /// Zero output.
    Silent,
    /// Rising: `pos` samples into an attack of `len` samples.
    Attack { pos: usize, len: usize },
    /// Falling to the sustain level, `left` samples before its end.
    Decay { left: usize, len: usize },
    /// At the sustain level.
    Sustain,
    /// Releasing: `left` samples before the end of a release of `len`.
    Release { left: usize, len: usize },
}

/// The phase an envelope enters on a gate edge.
#[derive(PartialEq, Eq, Structural, Clone, Copy)]
pub enum Edge {
    /// Rising edge: attack, decay, then sustain.
    Open,
    /// Falling edge: release.
    Close,
}

/// The phase number that stands for attack, decay and sustain.
pub const PHASE_HELD: u8 = 1;

/// The phase number that stands for release.
pub const PHASE_RELEASE: u8 = 2;

/// The edge that input `x` makes after input `last`.
pub open spec fn edge_of(last: Level, x: Level) -> Option<Edge> {
    if x == Level::Positive && last == Level::Zero {
        Some(Edge::Open)
    } else if x == Level::Zero && last == Level::Positive {
        Some(Edge::Close)
    } else {
        None
    }
}

/// The segment of phase `phase`, `pos` samples after the last edge.
pub open spec fn segment_of(phase: u8, pos: int, attack_len: int, decay_len: int, release_len: int) -> Segment {
    if phase == PHASE_HELD {
        if pos <= attack_len {
            if attack_len == 0 {
                Segment::Silent
            } else {
                Segment::Attack { pos: pos as usize, len: attack_len as usize }
            }
        } else if pos <= attack_len + decay_len {
            if decay_len == 0 {
                Segment::Sustain
            } else {
                Segment::Decay { left: (attack_len + decay_len - pos) as usize, len: decay_len as usize }
            }
        } else {
            Segment::Sustain
        }
    } else if phase == PHASE_RELEASE {
        if pos >= release_len {
            Segment::Silent
        } else {
            Segment::Release { left: (release_len - pos) as usize, len: release_len as usize }
        }
    } else {
        Segment::Silent
    }
}

/// The phase after input `x` in phase `phase` with previous input `last`.
pub open spec fn phase_after(phase: u8, last: Level, x: Level) -> u8 {
    match edge_of(last, x) {
        Some(Edge::Open) => PHASE_HELD,
        Some(Edge::Close) => PHASE_RELEASE,
        None => phase,
    }
}

/// The count of samples since the last edge, after input `x`, before it
/// advances.
pub open spec fn pos_after(pos: int, last: Level, x: Level) -> int {
    if edge_of(last, x) is Some {
        0
    } else {
        pos
    }
}

/// A tick on input `x` stays within the machine's counts: the step and the
/// count since the last edge can advance, and where the held phase is past
/// its attack the end of the decay, `attack_len + decay_len`, is a count.
pub open spec fn tick_ready(s: AdsrState, x: Level, attack_len: int, decay_len: int) -> bool {
    let phase = phase_after(s.phase, s.last, x);
    let pos = pos_after(s.pos as int, s.last, x);
    &&& s.step < usize::MAX
    &&& pos < usize::MAX
    &&& (phase == PHASE_HELD && pos > attack_len ==> attack_len + decay_len <= usize::MAX)
}

/// The integer state of an envelope.
#[derive(Clone, Copy)]
pub struct AdsrState {
    /// Samples since the last gate edge.
    pub pos: usize,
    /// Samples since the envelope was made.
    pub step: usize,
    /// 0 before any edge, then `PHASE_HELD` or `PHASE_RELEASE`.
    pub phase: u8,
    /// How the previous input sample compared with zero.
    pub last: Level,
}

impl AdsrState {
    /// The state of a new envelope: no edge yet, the last input taken as zero.
    pub fn new() -> (s: AdsrState)
        ensures
            s.pos == 0 && s.step == 0 && s.phase == 0 && s.last == Level::Zero,
    {
        AdsrState { pos: 0, step: 0, phase: 0, last: Level::Zero }
    }

    /// Whether a tick on input `x` stays within the machine's counts.
    pub fn tick_fits(&self, x: Level, attack_len: usize, decay_len: usize) -> (ok: bool)
        ensures
            ok == tick_ready(*self, x, attack_len as int, decay_len as int),
    {
        let edge = (x == Level::Positive && self.last == Level::Zero) || (x == Level::Zero
            && self.last == Level::Positive);
        let phase = if x == Level::Positive && self.last == Level::Zero {
            PHASE_HELD
        } else if x == Level::Zero && self.last == Level::Positive {
            PHASE_RELEASE
        } else {
            self.phase
        };
        let pos = if edge { 0 } else { self.pos };
        self.step < usize::MAX && pos < usize::MAX && (phase != PHASE_HELD || pos <= attack_len
            || attack_len <= usize::MAX - decay_len)
    }

    /// Takes one input sample: an edge restarts the count in the phase it
    /// opens; the segment of the sample follows from the phase and the count,
    /// and the count then advances. Returns the edge, if any, and the segment.
    pub fn tick(&mut self, x: Level, attack_len: usize, decay_len: usize, release_len: usize) -> (r: (
        Option<Edge>,
        Segment,
    ))
        requires
            tick_ready(*old(self), x, attack_len as int, decay_len as int),
        ensures
            ({
                let e = edge_of(old(self).last, x);
                let phase = match e {
                    Some(Edge::Open) => PHASE_HELD,
                    Some(Edge::Close) => PHASE_RELEASE,
                    None => old(self).phase,
                };
                let pos = if e is Some { 0 } else { old(self).pos as int };
                &&& r.0 == e
                &&& r.1 == segment_of(phase, pos, attack_len as int, decay_len as int, release_len as int)
                &&& final(self).phase == phase
                &&& final(self).pos == pos + 1
                &&& final(self).step == old(self).step + 1
                &&& final(self).last == x
            }),
    {
        let mut edge: Option<Edge> = None;
        if x == Level::Positive && self.last == Level::Zero {
            self.phase = PHASE_HELD;
            self.pos = 0;
            edge = Some(Edge::Open);
        } else if x == Level::Zero && self.last == Level::Positive {
            self.phase = PHASE_RELEASE;
            self.pos = 0;
            edge = Some(Edge::Close);
        }
        let seg = if self.phase == PHASE_HELD {
            if self.pos <= attack_len {
                if attack_len == 0 {
                    Segment::Silent
                } else {
                    Segment::Attack { pos: self.pos, len: attack_len }
                }
            } else if self.pos <= attack_len + decay_len {
                if decay_len == 0 {
                    Segment::Sustain
                } else {
                    Segment::Decay { left: attack_len + decay_len - self.pos, len: decay_len }
                }
            } else {
                Segment::Sustain
            }
        } else if self.phase == PHASE_RELEASE {
            if self.pos >= release_len {
                Segment::Silent
            } else {
                Segment::Release { left: release_len - self.pos, len: release_len }
            }
        } else {
            Segment::Silent
        };
        self.last = x;
        self.step = self.step + 1;
        self.pos = self.pos + 1;
        (edge, seg)
    }
}

/// A gate that opens starts the attack from its first sample (or stays
/// silent when the attack is empty), and a gate that closes starts the
/// release from its full length (silent when the release is empty).
pub proof fn lemma_edges_restart(attack_len: int, decay_len: int, release_len: int)
    requires
        0 <= attack_len,
        0 <= decay_len,
        0 <= release_len <= usize::MAX,
        attack_len <= usize::MAX,
    ensures
        segment_of(PHASE_HELD, 0, attack_len, decay_len, release_len) == (if attack_len == 0 {
            Segment::Silent
        } else {
            Segment::Attack { pos: 0, len: attack_len as usize }
        }),
        segment_of(PHASE_RELEASE, 0, attack_len, decay_len, release_len) == (if release_len == 0 {
            Segment::Silent
        } else {
            Segment::Release { left: release_len as usize, len: release_len as usize }
        }),
        edge_of(Level::Zero, Level::Positive) == Some(Edge::Open),
        edge_of(Level::Positive, Level::Zero) == Some(Edge::Close),
{
}

/// Once attack and decay are over, a held envelope stays at the sustain
/// level; once the release is over, it stays silent.
pub proof fn lemma_envelope_settles(pos: int, attack_len: int, decay_len: int, release_len: int)
    requires
        0 <= attack_len,
        0 <= decay_len,
        0 <= release_len,
    ensures
        pos > attack_len + decay_len ==> segment_of(PHASE_HELD, pos, attack_len, decay_len, release_len)
            == Segment::Sustain,
        pos >= release_len ==> segment_of(PHASE_RELEASE, pos, attack_len, decay_len, release_len)
            == Segment::Silent,
{
}

/// How the count since the last edge drives the envelope. Held: for the
/// first `attack_len` samples after the rising edge (and at the edge itself)
/// the attack has run `pos` of its `attack_len` samples, so the level rises
/// in equal steps; over the next `decay_len` samples the decay, of length
/// `decay_len`, has `attack_len + decay_len - pos` samples left, fewer than
/// its length, so the level falls in equal steps from 1 towards the sustain
/// level and never leaves that range. Releasing: `pos` samples after the
/// falling edge, a release of length `release_len` has `release_len - pos`
/// samples left, one fewer each sample, so the level falls in equal steps
/// from the level held at the edge to 0.
pub proof fn lemma_segments_follow_the_count(pos: int, attack_len: int, decay_len: int, release_len: int)
    requires
        0 <= pos,
        0 <= attack_len,
        0 <= decay_len,
        0 <= release_len <= usize::MAX,
        attack_len + decay_len <= usize::MAX,
    ensures
        0 < attack_len && pos <= attack_len ==> (segment_of(PHASE_HELD, pos, attack_len, decay_len, release_len) matches Segment::Attack {
            pos: p,
            len,
        } && p == pos && len == attack_len),
        0 < decay_len && attack_len < pos <= attack_len + decay_len ==> ({
            let seg = segment_of(PHASE_HELD, pos, attack_len, decay_len, release_len);
            &&& (seg matches Segment::Decay { left, len } && left + pos == attack_len + decay_len && len == decay_len)
            &&& (seg matches Segment::Decay { left, len } && left < len)
        }),
        pos < release_len ==> ({
            let seg = segment_of(PHASE_RELEASE, pos, attack_len, decay_len, release_len);
            &&& (seg matches Segment::Release { left, len } && left + pos == release_len && len == release_len)
            &&& (seg matches Segment::Release { left, len } && 0 < left <= len)
        }),
        pos + 1 < release_len ==> (segment_of(PHASE_RELEASE, pos, attack_len, decay_len, release_len) matches Segment::Release {
            left: l0,
            ..
        } && segment_of(PHASE_RELEASE, pos + 1, attack_len, decay_len, release_len) matches Segment::Release {
            left: l1,
            ..
        } && l1 + 1 == l0),
{
}

} // verus!
