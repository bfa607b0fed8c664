//! Finding the segment of a breakpoint curve that a sample falls in.
use vstd::prelude::*;

verus! {

/// The first breakpoint at or after sample `pos`, if there is one.
pub open spec fn first_at_or_after(times: Seq<usize>, pos: int) -> Option<int>
    decreases times.len(),
{
    if times.len() == 0 {
        None
    } else {
        match first_at_or_after(times.drop_last(), pos) {
            Some(j) => Some(j),
            None => if pos <= times.last() {
                Some(times.len() - 1)
            } else {
                None
            },
        }
    }
}

/// What `first_at_or_after` finds: the least breakpoint index whose time is
/// at or after `pos`.
pub proof fn lemma_first_at_or_after(times: Seq<usize>, pos: int)
    ensures
        match first_at_or_after(times, pos) {
            Some(j) => 0 <= j < times.len() && pos <= times[j] && forall|i: int| 0 <= i < j ==> times[i] < pos,
            None => forall|i: int| 0 <= i < times.len() ==> times[i] < pos,
        },
    decreases times.len(),
{
    if times.len() > 0 {
        let p = times.drop_last();
        lemma_first_at_or_after(p, pos);
        assert forall|i: int| 0 <= i < p.len() implies #[trigger] p[i] == times[i] by {}
        match first_at_or_after(p, pos) {
            Some(j) => {
                assert(first_at_or_after(times, pos) == Some(j));
                assert forall|i: int| 0 <= i < j implies times[i] < pos by {
                    assert(p[i] == times[i]);
                }
            },
            None => {
                assert forall|i: int| 0 <= i < times.len() - 1 implies times[i] < pos by {
                    assert(p[i] == times[i]);
                }
            },
        }
    }
}

/// Finds the first breakpoint at or after `pos`.
fn find_first_at_or_after(times: &Vec<(usize, u32)>, pos: usize) -> (r: Option<usize>)
    ensures
        match r {
            Some(j) => first_at_or_after(point_times(times@), pos as int) == Some(j as int),
            None => first_at_or_after(point_times(times@), pos as int) is None,
        },
{
    let ghost t = point_times(times@);
    let mut j: usize = 0;
    while j < times.len()
        invariant
            j <= times@.len(),
            t == point_times(times@),
            first_at_or_after(t.take(j as int), pos as int) is None,
        decreases times@.len() - j,
    {
        proof {
            assert(t.take(j + 1).drop_last() =~= t.take(j as int));
        }
        if pos <= times[j].0 {
            proof {
                lemma_first_prefix(t, pos as int, j as int + 1);
            }
            return Some(j);
        }
        j = j + 1;
    }
    proof {
        assert(t.take(j as int) =~= t);
    }
    None
}

/// A breakpoint found in a prefix is the one found in the whole list.
proof fn lemma_first_prefix(t: Seq<usize>, pos: int, k: int)
    requires
        0 <= k <= t.len(),
        first_at_or_after(t.take(k), pos) is Some,
    ensures
        first_at_or_after(t, pos) == first_at_or_after(t.take(k), pos),
    decreases t.len() - k,
{
    if k < t.len() {
        assert(t.take(k + 1).drop_last() =~= t.take(k));
        lemma_first_prefix(t, pos, k + 1);
    } else {
        assert(t.take(k) =~= t);
    }
}

/// The times of a list of breakpoints.
pub open spec fn point_times(points: Seq<(usize, u32)>) -> Seq<usize> {
    points.map_values(|p: (usize, u32)| p.0)
}

/// The segment a one-shot curve reads at sample `pos`: the one that ends at
/// the first breakpoint at or after `pos` (the first segment when that is
/// the very first breakpoint, where the curve starts at its first value);
/// past the last breakpoint, the last breakpoint's index, so that the curve
/// stays at its last value.
pub open spec fn segment_index(times: Seq<usize>, pos: int) -> usize {
    match first_at_or_after(times, pos) {
        Some(p) => if p == 0 {
            0
        } else {
            (p - 1) as usize
        },
        None => (times.len() - 1) as usize,
    }
}

/// The segment a one-shot curve reads at sample `pos`: an index below the
/// last one names the segment to the next breakpoint; the last index means
/// the curve stays at its last value.
pub fn locate(points: &Vec<(usize, u32)>, pos: usize) -> (index: usize)
    requires
        points@.len() > 0,
    ensures
        index == segment_index(point_times(points@), pos as int),
        index < points@.len(),
{
    proof {
        lemma_first_at_or_after(point_times(points@), pos as int);
    }
    match find_first_at_or_after(points, pos) {
        Some(p) => if p == 0 {
            0
        } else {
            p - 1
        },
        None => points.len() - 1,
    }
}

/// The segment a looping curve reads at place `pos` in the loop: it runs
/// from the first breakpoint at or after `pos` (or, past the last one, from
/// the last one) to the breakpoint after it, wrapping round to the first.
/// The flag says whether the segment wraps round the end of the loop.
pub open spec fn loop_segment(times: Seq<usize>, pos: int) -> (usize, usize, bool) {
    let (index, is_last) = match first_at_or_after(times, pos) {
        Some(j) => (j, false),
        None => (times.len() - 1, true),
    };
    (index as usize, ((index + 1) % (times.len() as int)) as usize, is_last)
}

/// The segment a looping curve reads at place `pos` in the loop.
pub fn locate_looping(points: &Vec<(usize, u32)>, pos: usize) -> (r: (usize, usize, bool))
    requires
        points@.len() > 0,
    ensures
        r == loop_segment(point_times(points@), pos as int),
        r.0 < points@.len() && r.1 < points@.len(),
{
    proof {
        lemma_first_at_or_after(point_times(points@), pos as int);
        assert(point_times(points@).len() == points@.len());
    }
    let found = find_first_at_or_after(points, pos);
    let index: usize;
    let is_last: bool;
    match found {
        Some(j) => {
            index = j;
            is_last = false;
        },
        None => {
            index = points.len() - 1;
            is_last = true;
        },
    }
    let n = points.len();
    assert(index < n);
    let next = (index + 1) % n;
    (index, next, is_last)
}

/// Makes a curve start at sample 0: when the first breakpoint is later, a
/// silent breakpoint at 0 goes in front.
pub fn ensure_origin(points: &mut Vec<(usize, u32)>)
    requires
        old(points)@.len() > 0,
    ensures
        final(points)@ == (if old(points)@[0].0 != 0 {
            seq![(0usize, 0u32)] + old(points)@
        } else {
            old(points)@
        }),
{
    if points[0].0 != 0 {
        points.insert(0, (0, 0));
        assert(points@ =~= seq![(0usize, 0u32)] + old(points)@);
    }
}

} // verus!
