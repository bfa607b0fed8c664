//! Bookkeeping of the voices of the pattern and message synths: when a voice
//! has run its course, and dropping spent voices from parallel lists.
use vstd::prelude::*;

verus! {

/// The items of `s` whose positions are not in `gone`, in order.
pub open spec fn kept<T>(s: Seq<T>, gone: Set<usize>) -> Seq<T>
    decreases s.len(),
{
    if s.len() == 0 {
        Seq::empty()
    } else {
        let rest = kept(s.drop_last(), gone);
        if gone.contains((s.len() - 1) as usize) {
            rest
        } else {
            rest.push(s.last())
        }
    }
}

/// With no removed position inside `s`, nothing is dropped.
proof fn lemma_kept_none<T>(s: Seq<T>, gone: Set<usize>)
    requires
        s.len() <= usize::MAX,
        forall|g: usize| gone.contains(g) ==> g >= s.len(),
    ensures
        kept(s, gone) == s,
    decreases s.len(),
{
    if s.len() > 0 {
        lemma_kept_none(s.drop_last(), gone);
        assert(s.drop_last().push(s.last()) =~= s);
    }
}

/// When every removed position lies above `c`, the first `c + 1` items
/// are all kept.
proof fn lemma_kept_long<T>(s: Seq<T>, gone: Set<usize>, c: int)
    requires
        s.len() <= usize::MAX,
        0 <= c < s.len(),
        forall|g: usize| gone.contains(g) ==> g > c,
    ensures
        kept(s, gone).len() > c,
    decreases s.len(),
{
    let l = s.len() - 1;
    if l == c {
        lemma_kept_none(s.drop_last(), gone);
    } else {
        lemma_kept_long(s.drop_last(), gone, c);
    }
}

/// Removing the kept item at position `c`, below every other removed
/// position, is removing position `c` as well.
proof fn lemma_kept_remove<T>(s: Seq<T>, gone: Set<usize>, c: usize)
    requires
        s.len() <= usize::MAX,
        c < s.len(),
        !gone.contains(c),
        forall|g: usize| gone.contains(g) ==> g > c,
    ensures
        kept(s, gone).len() > c,
        kept(s, gone).remove(c as int) == kept(s, gone.insert(c)),
    decreases s.len(),
{
    lemma_kept_long(s, gone, c as int);
    let l = s.len() - 1;
    let s2 = s.drop_last();
    if l == c {
        lemma_kept_none(s2, gone);
        lemma_kept_none(s2, gone.insert(c));
        assert(kept(s, gone) == s2.push(s.last()));
        assert(s2.push(s.last()).remove(c as int) =~= s2);
    } else {
        lemma_kept_remove(s2, gone, c);
        if gone.contains(l as usize) {
            assert(gone.insert(c).contains(l as usize));
        } else {
            assert(!gone.insert(c).contains(l as usize));
            let w = kept(s2, gone);
            assert(w.push(s.last()).remove(c as int) =~= w.remove(c as int).push(s.last()));
        }
    }
}

/// Lists kept in step stay in step: dropping the same positions from two
/// lists of one length leaves two lists of one length (the start list and
/// the phase list of a synth's voices).
pub proof fn lemma_removal_keeps_lengths_equal<A, B>(a: Seq<A>, b: Seq<B>, gone: Set<usize>)
    requires
        a.len() == b.len(),
    ensures
        kept(a, gone).len() == kept(b, gone).len(),
    decreases a.len(),
{
    if a.len() > 0 {
        lemma_removal_keeps_lengths_equal(a.drop_last(), b.drop_last(), gone);
    }
}

/// The indices are listed in strictly increasing order and lie below `n`.
pub open spec fn increasing_below(idx: Seq<usize>, n: int) -> bool {
    &&& forall|a: int, b: int| 0 <= a < b < idx.len() ==> idx[a] < idx[b]
    &&& forall|a: int| 0 <= a < idx.len() ==> idx[a] < n
}

/// Drops the items at the listed positions, working from the last position
/// to the first so that the positions still to go keep their places.
pub fn remove_at_indices<T>(v: &mut Vec<T>, idx: &Vec<usize>)
    requires
        increasing_below(idx@, old(v)@.len() as int),
    ensures
        final(v)@ == kept(old(v)@, idx@.to_set()),
{
    let ghost s0 = v@;
    let mut k = idx.len();
    let n = v.len();
    proof {
        assert(s0.len() == n);
        assert(idx@.skip(k as int).to_set() =~= Set::<usize>::empty());
        lemma_kept_none(s0, Set::<usize>::empty());
    }
    while k > 0
        invariant
            k <= idx@.len(),
            s0 == old(v)@,
            s0.len() <= usize::MAX,
            increasing_below(idx@, s0.len() as int),
            v@ == kept(s0, idx@.skip(k as int).to_set()),
        decreases k,
    {
        let c = idx[k - 1];
        proof {
            let t1 = idx@.skip(k as int);
            let t0 = idx@.skip(k - 1);
            let gone = t1.to_set();
            assert forall|g: usize| gone.contains(g) implies g > c by {
                let w = choose|w: int| 0 <= w < t1.len() && t1[w] == g;
                assert(idx@[k + w] == g);
            }
            lemma_kept_remove(s0, gone, c);
            assert forall|g: usize| t0.to_set().contains(g) implies #[trigger] gone.insert(c).contains(g) by {
                let w = choose|w: int| 0 <= w < t0.len() && t0[w] == g;
                if w > 0 {
                    assert(t1[w - 1] == g);
                }
            }
            assert forall|g: usize| gone.insert(c).contains(g) implies #[trigger] t0.to_set().contains(g) by {
                if g == c {
                    assert(t0[0] == c);
                } else {
                    let w = choose|w: int| 0 <= w < t1.len() && t1[w] == g;
                    assert(t0[w + 1] == g);
                }
            }
            assert(t0.to_set() =~= gone.insert(c));
        }
        v.remove(c);
        k = k - 1;
    }
    proof {
        assert(idx@.skip(0) =~= idx@);
    }
}

/// The indices, ascending, of the voices started at `starts` that have run
/// longer than `dur` samples at sample `step`.
pub open spec fn expired(starts: Seq<usize>, step: int, dur: int) -> Seq<usize>
    decreases starts.len(),
{
    if starts.len() == 0 {
        Seq::empty()
    } else {
        let rest = expired(starts.drop_last(), step, dur);
        if step - starts.last() > dur {
            rest.push((starts.len() - 1) as usize)
        } else {
            rest
        }
    }
}

/// The expired voices are listed in ascending order and are voices.
proof fn lemma_expired_increasing(starts: Seq<usize>, step: int, dur: int)
    requires
        starts.len() <= usize::MAX,
    ensures
        increasing_below(expired(starts, step, dur), starts.len() as int),
    decreases starts.len(),
{
    if starts.len() > 0 {
        lemma_expired_increasing(starts.drop_last(), step, dur);
    }
}

/// The voices, among those started at `starts`, that have run longer than
/// `dur` samples at sample `step`, in ascending order.
pub fn expired_voices(starts: &Vec<usize>, step: usize, dur: usize) -> (gone: Vec<usize>)
    requires
        forall|i: int| 0 <= i < starts@.len() ==> #[trigger] starts@[i] <= step,
    ensures
        gone@ == expired(starts@, step as int, dur as int),
        increasing_below(gone@, starts@.len() as int),
{
    let mut gone: Vec<usize> = Vec::new();
    let mut j: usize = 0;
    while j < starts.len()
        invariant
            j <= starts@.len(),
            forall|i: int| 0 <= i < starts@.len() ==> #[trigger] starts@[i] <= step,
            gone@ == expired(starts@.take(j as int), step as int, dur as int),
        decreases starts@.len() - j,
    {
        proof {
            assert(starts@.take(j + 1).drop_last() =~= starts@.take(j as int));
        }
        if step - starts[j] > dur {
            gone.push(j);
        }
        j = j + 1;
    }
    proof {
        assert(starts@.take(j as int) =~= starts@);
        lemma_expired_increasing(starts@, step as int, dur as int);
    }
    gone
}

/// Removed positions at or past the end of a list drop nothing from it.
proof fn lemma_kept_ignores_past_end<T>(s: Seq<T>, g: Set<usize>, h: Set<usize>)
    requires
        s.len() <= usize::MAX,
        forall|x: usize| h.contains(x) ==> x >= s.len(),
    ensures
        kept(s, g.union(h)) == kept(s, g),
    decreases s.len(),
{
    if s.len() > 0 {
        lemma_kept_ignores_past_end(s.drop_last(), g, h);
    }
}

/// Dropping the expired voices keeps exactly the voices that have not run
/// longer than `dur` samples, in their order.
pub proof fn lemma_expiry_keeps_live(starts: Seq<usize>, step: int, dur: int)
    requires
        starts.len() <= usize::MAX,
    ensures
        kept(starts, expired(starts, step, dur).to_set()) == starts.filter(|x: usize| step - x <= dur),
    decreases starts.len(),
{
    reveal(Seq::filter);
    if starts.len() > 0 {
        let p = starts.drop_last();
        let l = (starts.len() - 1) as usize;
        lemma_expiry_keeps_live(p, step, dur);
        lemma_expired_increasing(p, step, dur);
        let e = expired(starts, step, dur).to_set();
        let e0 = expired(p, step, dur).to_set();
        if step - starts.last() > dur {
            expired(p, step, dur).lemma_push_to_set_commute(l);
            assert(e =~= e0.union(set![l]));
            assert(e.contains(l));
        } else {
            assert(e =~= e0.union(Set::<usize>::empty()));
            assert(!e0.contains(l)) by {
                if e0.contains(l) {
                    let w = choose|w: int| 0 <= w < expired(p, step, dur).len() && expired(p, step, dur)[w] == l;
                }
            }
        }
        lemma_kept_ignores_past_end(p, e0, if step - starts.last() > dur { set![l] } else { Set::empty() });
    }
}

/// Where a voice stands in its envelope.
pub enum VoiceStage {
    /// No sound (an empty attack or decay).
    Silent,
    /// Rising: the number of samples since the voice started.
    Rise(usize),
    /// Falling: the number of samples left until the voice ends.
    Fall(usize),
}

/// The envelope stage of a voice `pos` samples in, with an attack of
/// `attack_n` samples and a decay of `decay_n` samples, ending after
/// `dur_n` samples.
pub open spec fn stage_of(pos: int, attack_n: int, decay_n: int, dur_n: int) -> VoiceStage {
    if pos <= attack_n {
        if attack_n == 0 {
            VoiceStage::Silent
        } else {
            VoiceStage::Rise(pos as usize)
        }
    } else if decay_n == 0 {
        VoiceStage::Silent
    } else {
        VoiceStage::Fall((dur_n - pos) as usize)
    }
}

/// The envelope stage of a voice that has not yet run its course.
pub fn voice_stage(pos: usize, attack_n: usize, decay_n: usize, dur_n: usize) -> (st: VoiceStage)
    requires
        pos <= dur_n,
    ensures
        st == stage_of(pos as int, attack_n as int, decay_n as int, dur_n as int),
{
    if pos <= attack_n {
        if attack_n == 0 {
            VoiceStage::Silent
        } else {
            VoiceStage::Rise(pos)
        }
    } else {
        if decay_n == 0 {
            VoiceStage::Silent
        } else {
            VoiceStage::Fall(dur_n - pos)
        }
    }
}

/// How a voice's envelope follows its age. During the attack (the voice
/// `pos` samples old, `pos` at most `attack_n`) the rise count is the age
/// itself, so the amplitude grows from 0 at the note's start to full at the
/// end of the attack; after it, the fall count is the samples left until the
/// voice ends, so the amplitude falls to 0 at `dur_n`. An empty attack or
/// decay is silent.
pub proof fn lemma_voice_envelope_follows_age(pos: int, attack_n: int, decay_n: int, dur_n: int)
    requires
        0 <= pos <= dur_n <= usize::MAX,
        0 <= attack_n,
        0 <= decay_n,
    ensures
        pos <= attack_n && 0 < attack_n ==> (stage_of(pos, attack_n, decay_n, dur_n) matches VoiceStage::Rise(
            r,
        ) && r == pos),
        pos <= attack_n && attack_n == 0 ==> stage_of(pos, attack_n, decay_n, dur_n) is Silent,
        attack_n < pos && 0 < decay_n ==> (stage_of(pos, attack_n, decay_n, dur_n) matches VoiceStage::Fall(
            f,
        ) && f + pos == dur_n),
        attack_n < pos && decay_n == 0 ==> stage_of(pos, attack_n, decay_n, dur_n) is Silent,
{
}

} // verus!
