//! Deciding which events of a looping pattern fall on a given sample.
use vstd::prelude::*;
use vstd::arithmetic::div_mod::{lemma_add_mod_noop, lemma_mod_self_0, lemma_small_mod};

verus! {

/// The indices, in ascending order, of the events whose position within
/// the bar is `phase`.
pub open spec fn due_indices(positions: Seq<usize>, phase: int) -> Seq<usize>
    decreases positions.len(),
{
    if positions.len() == 0 {
        Seq::empty()
    } else {
        let rest = due_indices(positions.drop_last(), phase);
        if positions.last() == phase {
            rest.push((positions.len() - 1) as usize)
        } else {
            rest
        }
    }
}

/// The events due at a sample are exactly those whose position is its
/// place in the bar, each listed once, in ascending order.
pub proof fn lemma_due_indices(positions: Seq<usize>, phase: int)
    requires
        positions.len() <= usize::MAX,
    ensures
        forall|j: int|
            0 <= j < positions.len() ==> (positions[j] == phase <==> due_indices(positions, phase).contains(j as usize)),
        forall|a: int, b: int|
            0 <= a < b < due_indices(positions, phase).len() ==> due_indices(positions, phase)[a]
                < due_indices(positions, phase)[b],
        forall|a: int|
            0 <= a < due_indices(positions, phase).len() ==> due_indices(positions, phase)[a] < positions.len(),
    decreases positions.len(),
{
    if positions.len() > 0 {
        let p = positions.drop_last();
        lemma_due_indices(p, phase);
        let rest = due_indices(p, phase);
        let n = positions.len() - 1;
        assert forall|j: int| 0 <= j < positions.len() implies (positions[j] == phase
            <==> due_indices(positions, phase).contains(j as usize)) by {
            if j < n {
                assert(positions[j] == p[j]);
                if positions.last() == phase {
                    assert(due_indices(positions, phase) == rest.push(n as usize));
                    if rest.contains(j as usize) {
                        let w = choose|w: int| 0 <= w < rest.len() && rest[w] == j as usize;
                        assert(rest.push(n as usize)[w] == j as usize);
                    }
                    let rp = rest.push(n as usize);
                    if rp.contains(j as usize) {
                        let w = choose|w: int| 0 <= w < rp.len() && rp[w] == j as usize;
                        assert(w < rest.len());
                        assert(rest[w] == j as usize);
                    }
                }
            } else {
                if positions.last() == phase {
                    assert(due_indices(positions, phase)[rest.len() as int] == n as usize);
                } else {
                    if rest.contains(j as usize) {
                        let w = choose|w: int| 0 <= w < rest.len() && rest[w] == j as usize;
                        assert(rest[w] < p.len());
                    }
                }
            }
        }
    }
}

/// The events whose position is exactly `step`.
pub fn due_at(step: usize, positions: &Vec<usize>) -> (due: Vec<usize>)
    ensures
        due@ == due_indices(positions@, step as int),
{
    let mut due: Vec<usize> = Vec::new();
    let mut j: usize = 0;
    while j < positions.len()
        invariant
            j <= positions@.len(),
            due@ == due_indices(positions@.take(j as int), step as int),
        decreases positions@.len() - j,
    {
        proof {
            assert(positions@.take(j + 1).drop_last() =~= positions@.take(j as int));
        }
        if positions[j] == step {
            due.push(j);
        }
        j = j + 1;
    }
    proof {
        assert(positions@.take(j as int) =~= positions@);
    }
    due
}

/// The events due at sample `step` of a loop `bar` samples long, given the
/// position of each event within the bar. With no events the bar is never
/// divided by, and may be empty.
pub fn due_events(step: usize, bar: usize, positions: &Vec<usize>) -> (due: Vec<usize>)
    requires
        bar > 0 || positions@.len() == 0,
    ensures
        due@ == due_indices(positions@, (step % bar) as int),
{
    if positions.len() == 0 {
        return Vec::new();
    }
    due_at(step % bar, positions)
}

/// The number of event positions `p` with `lo <= p < hi`.
pub open spec fn count_in(positions: Seq<usize>, lo: int, hi: int) -> nat
    decreases positions.len(),
{
    if positions.len() == 0 {
        0
    } else {
        count_in(positions.drop_last(), lo, hi) + (if lo <= positions.last() < hi {
            1nat
        } else {
            0nat
        })
    }
}

/// The number of events due over the `n` samples from `step` on, one
/// started voice per due event.
pub open spec fn due_over(positions: Seq<usize>, step: int, n: nat) -> nat
    decreases n,
{
    if n == 0 {
        0
    } else {
        due_over(positions, step, (n - 1) as nat) + due_indices(positions, step + n - 1).len()
    }
}

/// The number of events due over the `n` samples from `step` on of a loop
/// `bar` samples long.
pub open spec fn due_over_bar(positions: Seq<usize>, bar: int, step: int, n: nat) -> nat
    decreases n,
{
    if n == 0 {
        0
    } else {
        due_over_bar(positions, bar, step, (n - 1) as nat) + due_indices(positions, (step + n - 1) % bar).len()
    }
}

/// As many events are due at `t` as there are positions equal to `t`.
proof fn lemma_due_count(positions: Seq<usize>, t: int)
    ensures
        due_indices(positions, t).len() == count_in(positions, t, t + 1),
    decreases positions.len(),
{
    if positions.len() > 0 {
        lemma_due_count(positions.drop_last(), t);
    }
}

/// Nothing lies in an empty stretch.
proof fn lemma_count_empty(positions: Seq<usize>, lo: int)
    ensures
        count_in(positions, lo, lo) == 0,
    decreases positions.len(),
{
    if positions.len() > 0 {
        lemma_count_empty(positions.drop_last(), lo);
    }
}

/// Counting over `[lo, hi)` is counting over `[lo, mid)` and `[mid, hi)`.
proof fn lemma_count_split(positions: Seq<usize>, lo: int, mid: int, hi: int)
    requires
        lo <= mid <= hi,
    ensures
        count_in(positions, lo, hi) == count_in(positions, lo, mid) + count_in(positions, mid, hi),
    decreases positions.len(),
{
    if positions.len() > 0 {
        lemma_count_split(positions.drop_last(), lo, mid, hi);
    }
}

/// Over a block of `n` samples from `step` on, exactly one voice starts for
/// each event whose sample lies in the block.
pub proof fn lemma_voices_started_over_block(positions: Seq<usize>, step: int, n: nat)
    ensures
        due_over(positions, step, n) == count_in(positions, step, step + n),
    decreases n,
{
    if n > 0 {
        let m = (n - 1) as nat;
        let t = step + m;
        lemma_voices_started_over_block(positions, step, m);
        lemma_due_count(positions, t);
        lemma_count_split(positions, step, t, t + 1);
        assert(t + 1 == step + n);
        assert(due_over(positions, step, n) == due_over(positions, step, m) + due_indices(positions, t).len());
    } else {
        lemma_count_empty(positions, step);
    }
}

/// Within one turn of the loop the place in the bar advances with the step.
proof fn lemma_phase_advances(step: int, k: int, bar: int)
    requires
        bar > 0,
        0 <= k,
        step % bar + k < bar,
    ensures
        (step + k) % bar == step % bar + k,
{
    lemma_small_mod(k as nat, bar as nat);
    lemma_add_mod_noop(step, k, bar);
    lemma_small_mod((step % bar + k) as nat, bar as nat);
}

/// Counting due events over `n1 + n2` samples is counting over the first
/// `n1` and then over the next `n2`.
proof fn lemma_due_over_bar_split(positions: Seq<usize>, bar: int, step: int, n1: nat, n2: nat)
    ensures
        due_over_bar(positions, bar, step, n1 + n2) == due_over_bar(positions, bar, step, n1)
            + due_over_bar(positions, bar, step + n1, n2),
    decreases n2,
{
    if n2 > 0 {
        lemma_due_over_bar_split(positions, bar, step, n1, (n2 - 1) as nat);
        assert(step + n1 + n2 - 1 == step + (n1 + n2) - 1);
    }
}

/// Before the loop wraps round, the events due are those whose places lie
/// in the stretch of the bar that the samples cover.
proof fn lemma_due_over_bar_run(positions: Seq<usize>, bar: int, step: int, n: nat)
    requires
        bar > 0,
        step % bar + n <= bar,
    ensures
        due_over_bar(positions, bar, step, n) == count_in(positions, step % bar, step % bar + n),
    decreases n,
{
    if n > 0 {
        let m = (n - 1) as nat;
        let r = step % bar;
        let t = r + m;
        lemma_due_over_bar_run(positions, bar, step, m);
        lemma_phase_advances(step, m as int, bar);
        assert((step + m) % bar == t);
        lemma_due_count(positions, t);
        lemma_count_split(positions, r, t, t + 1);
        assert(t + 1 == r + n);
        assert(due_over_bar(positions, bar, step, n) == due_over_bar(positions, bar, step, m)
            + due_indices(positions, (step + m) % bar).len());
    } else {
        lemma_count_empty(positions, step % bar);
    }
}

/// Over any whole turn of a loop `bar` samples long, each event placed
/// inside the bar is due exactly once, and no other event is due: the
/// voices started number the events in the bar.
pub proof fn lemma_each_event_once_per_bar(positions: Seq<usize>, bar: int, step: int)
    requires
        bar > 0,
    ensures
        due_over_bar(positions, bar, step, bar as nat) == count_in(positions, 0, bar),
{
    let r = step % bar;
    let n1 = (bar - r) as nat;
    let n2 = r as nat;
    lemma_due_over_bar_split(positions, bar, step, n1, n2);
    lemma_due_over_bar_run(positions, bar, step, n1);
    lemma_count_split(positions, 0, r, bar);
    if r > 0 {
        lemma_small_mod(n1, bar as nat);
        lemma_add_mod_noop(step, n1 as int, bar);
        lemma_mod_self_0(bar);
        assert((step + n1) % bar == 0);
        lemma_due_over_bar_run(positions, bar, step + n1, n2);
    }
}

/// Sets entry `index` of an arrangement's list to `val`, first filling the
/// places from the list's end up to `index` with clones of `pad`. The list
/// must not already reach past `index` (the place count is `index - len`).
pub fn pad_then_push<T: Clone>(v: &mut Vec<T>, index: usize, pad: T, val: T)
    requires
        old(v)@.len() <= index,
    ensures
        final(v)@.len() == index + 1,
        final(v)@.take(old(v)@.len() as int) == old(v)@,
        forall|j: int| old(v)@.len() <= j < index ==> cloned(pad, #[trigger] final(v)@[j]),
        final(v)@[index as int] == val,
{
    let to_push = index - v.len();
    let ghost start = v@;
    let mut k: usize = 0;
    while k < to_push
        invariant
            k <= to_push,
            to_push == index - start.len(),
            start.len() <= index,
            v@.len() == start.len() + k,
            v@.take(start.len() as int) == start,
            forall|j: int| start.len() <= j < v@.len() ==> cloned(pad, #[trigger] v@[j]),
        decreases to_push - k,
    {
        let c = pad.clone();
        v.push(c);
        proof {
            assert(v@.take(start.len() as int) =~= start);
        }
        k = k + 1;
    }
    v.push(val);
    proof {
        assert(v@.take(start.len() as int) =~= start);
    }
}

/// The value held after the triggers due at one sample: the value of the
/// last trigger whose position is `phase`, or `v` when none is.
pub open spec fn last_due_value(triggers: Seq<(usize, u32)>, phase: int, v: u32) -> u32
    decreases triggers.len(),
{
    if triggers.len() == 0 {
        v
    } else if triggers.last().0 == phase {
        triggers.last().1
    } else {
        last_due_value(triggers.drop_last(), phase, v)
    }
}

/// The value held after `k` samples from `step` on, starting from `v`.
pub open spec fn held_after(triggers: Seq<(usize, u32)>, bar: int, step: int, v: u32, k: nat) -> u32
    decreases k,
{
    if k == 0 {
        v
    } else {
        let prev = held_after(triggers, bar, step, v, (k - 1) as nat);
        last_due_value(triggers, (step + k - 1) % bar, prev)
    }
}

/// The `n` samples put out from `step` on, starting from value `v`: each
/// sample is the value held once that sample's triggers have fired.
pub open spec fn held_block(triggers: Seq<(usize, u32)>, bar: int, step: int, v: u32, n: nat) -> Seq<u32> {
    Seq::new(n, |i: int| held_after(triggers, bar, step, v, (i + 1) as nat))
}

/// Runs a block of a held-value sequence: at each sample every trigger whose
/// position is the sample's place in the bar sets the value, a later trigger
/// winning over an earlier one; the sample put out is the value then held.
/// Returns the samples and the value held at the end; the caller advances
/// its step by `N`. With no triggers (or no samples) the bar is never
/// divided by, and may be empty.
pub fn hold_schedule<const N: usize>(step: usize, bar: usize, triggers: &Vec<(usize, u32)>, val: u32) -> (r: (Vec<u32>, u32))
    requires
        bar > 0 || triggers@.len() == 0 || N == 0,
        step + N <= usize::MAX,
    ensures
        r.0@ == held_block(triggers@, bar as int, step as int, val, N as nat),
        r.1 == held_after(triggers@, bar as int, step as int, val, N as nat),
{
    let mut out: Vec<u32> = Vec::new();
    let mut v = val;
    let mut i: usize = 0;
    while i < N
        invariant
            i <= N,
            step + N <= usize::MAX,
            bar > 0 || triggers@.len() == 0 || N == 0,
            v == held_after(triggers@, bar as int, step as int, val, i as nat),
            out@ == held_block(triggers@, bar as int, step as int, val, i as nat),
        decreases N - i,
    {
        let phase = if bar > 0 { (step + i) % bar } else { 0 };
        let ghost prev = v;
        let mut w = v;
        // scan backwards: the last matching trigger decides
        let mut found = false;
        let mut j: usize = triggers.len();
        proof {
            assert(triggers@.take(j as int) =~= triggers@);
        }
        while j > 0 && !found
            invariant
                j <= triggers@.len(),
                bar > 0 ==> phase == ((step + i) as int) % (bar as int),
                bar > 0 || triggers@.len() == 0,
                !found ==> last_due_value(triggers@, phase as int, prev) == last_due_value(triggers@.take(j as int), phase as int, prev),
                found ==> w == last_due_value(triggers@, phase as int, prev),
                !found ==> w == prev,
            decreases j + (if found { 0int } else { 1int }),
        {
            proof {
                assert(triggers@.take(j as int).drop_last() =~= triggers@.take(j - 1));
            }
            if triggers[j - 1].0 == phase {
                w = triggers[j - 1].1;
                found = true;
            } else {
                j = j - 1;
            }
        }
        proof {
            if !found {
                assert(triggers@.take(0) =~= Seq::<(usize, u32)>::empty());
            }
            assert(w == last_due_value(triggers@, ((step + i) as int) % (bar as int), prev));
        }
        v = w;
        out.push(v);
        proof {
            assert(out@ =~= held_block(triggers@, bar as int, step as int, val, (i + 1) as nat));
        }
        i = i + 1;
    }
    (out, v)
}

/// Running a held-value sequence for `n1` and then `n2` samples ends on the
/// value it ends on after `n1 + n2` samples in one go.
pub proof fn lemma_held_after_compose(triggers: Seq<(usize, u32)>, bar: int, step: int, v: u32, n1: nat, n2: nat)
    ensures
        held_after(triggers, bar, step + n1, held_after(triggers, bar, step, v, n1), n2)
            == held_after(triggers, bar, step, v, n1 + n2),
    decreases n2,
{
    if n2 > 0 {
        lemma_held_after_compose(triggers, bar, step, v, n1, (n2 - 1) as nat);
        assert(step + n1 + n2 - 1 == step + (n1 + n2) - 1);
    }
}

/// Two blocks of a held-value sequence, the second starting where the first
/// ended, are the one block of their joint length.
pub proof fn lemma_hold_blocks_compose(triggers: Seq<(usize, u32)>, bar: int, step: int, v: u32, n1: nat, n2: nat)
    ensures
        held_block(triggers, bar, step, v, n1) + held_block(
            triggers,
            bar,
            step + n1,
            held_after(triggers, bar, step, v, n1),
            n2,
        ) == held_block(triggers, bar, step, v, n1 + n2),
{
    let mid = held_after(triggers, bar, step, v, n1);
    assert forall|i: int| 0 <= i < n2 implies #[trigger] held_after(triggers, bar, step + n1, mid, (i + 1) as nat)
        == held_after(triggers, bar, step, v, (n1 + i + 1) as nat) by {
        lemma_held_after_compose(triggers, bar, step, v, n1, (i + 1) as nat);
    }
    assert(held_block(triggers, bar, step, v, n1) + held_block(triggers, bar, step + n1, mid, n2)
        =~= held_block(triggers, bar, step, v, n1 + n2));
}

} // verus!
