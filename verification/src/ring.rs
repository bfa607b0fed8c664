//! Fixed-length ring buffers of samples, backed by `dasp_ring_buffer::Fixed`.
use vstd::prelude::*;
use vstd::arithmetic::div_mod::{lemma_small_mod, lemma_mod_sub_multiples_vanish};

verus! {

/// The outside ring buffer type, carried opaquely.
#[verifier::external_type_specification]
#[verifier::external_body]
#[verifier::reject_recursive_types(S)]
pub struct ExFixed<S>(dasp_ring_buffer::Fixed<S>);

/// A ring buffer of samples (each sample held by its bit pattern).
pub type Ring = dasp_ring_buffer::Fixed<Vec<u32>>;

/// The storage slice of a ring buffer, in storage order.
pub uninterp spec fn ring_storage(r: dasp_ring_buffer::Fixed<Vec<u32>>) -> Seq<u32>;

/// The storage index of the front of a ring buffer.
pub uninterp spec fn ring_start(r: dasp_ring_buffer::Fixed<Vec<u32>>) -> nat;

/// A ring buffer is well formed when its storage is non-empty and its front
/// lies inside the storage.
pub open spec fn ring_wf(r: Ring) -> bool {
    &&& ring_storage(r).len() > 0
    &&& ring_start(r) < ring_storage(r).len()
}

/// The items of storage `s` read from index `f` on, wrapping around.
pub open spec fn rotated(s: Seq<u32>, f: int) -> Seq<u32> {
    Seq::new(s.len(), |i: int| s[(f + i) % (s.len() as int)])
}

/// The contents of a ring buffer from front to back.
pub open spec fn ring_view(r: Ring) -> Seq<u32> {
    rotated(ring_storage(r), ring_start(r) as int)
}

/// The front index after one push onto storage of length `l` whose front is
/// `f`: one further on, wrapping to 0 at the end of the storage.
pub open spec fn next_front(f: int, l: int) -> int {
    if f + 1 == l {
        0
    } else {
        f + 1
    }
}

/// The storage and the front index after pushing the samples `x`, one by
/// one, onto storage `s` whose front is `f`: each push overwrites the slot at
/// the front and moves the front on.
pub open spec fn pushed(s: Seq<u32>, f: int, x: Seq<u32>) -> (Seq<u32>, int)
    decreases x.len(),
{
    if x.len() == 0 {
        (s, f)
    } else {
        let before = pushed(s, f, x.drop_last());
        (before.0.update(before.1, x.last()), next_front(before.1, s.len() as int))
    }
}

/// `Fixed::from`: builds a ring buffer around `data`, front at storage index 0.
/// The outside function panics on empty data, which `requires` leaves out.
#[verifier::external_body]
pub(crate) fn ring_from(data: Vec<u32>) -> (r: Ring)
    requires
        data.len() > 0,
    ensures
        ring_storage(r) == data@,
        ring_start(r) == 0,
{
    dasp_ring_buffer::Fixed::from(data)
}

/// `Fixed::len`: the length of the storage.
#[verifier::external_body]
pub(crate) fn ring_len(r: &Ring) -> (n: usize)
    ensures
        n == ring_storage(*r).len(),
{
    r.len()
}

/// `Fixed::push`: overwrites the storage slot at the front with `item`,
/// advances the front by one (wrapping to 0 at the end of the storage) and
/// returns the item that was overwritten.
#[verifier::external_body]
pub(crate) fn ring_push(r: &mut Ring, item: u32) -> (old_item: u32)
    requires
        ring_wf(*old(r)),
    ensures
        old_item == ring_storage(*old(r))[ring_start(*old(r)) as int],
        ring_storage(*final(r)) == ring_storage(*old(r)).update(ring_start(*old(r)) as int, item),
        ring_start(*final(r)) == (if ring_start(*old(r)) + 1 == ring_storage(*old(r)).len() {
            0
        } else {
            ring_start(*old(r)) + 1
        }),
{
    r.push(item)
}

/// `Fixed::get`: the item `index` places behind the front, wrapping around
/// the storage. `requires` keeps `index` small enough that the outside
/// index arithmetic cannot overflow.
#[verifier::external_body]
pub(crate) fn ring_get(r: &Ring, index: usize) -> (item: u32)
    requires
        ring_wf(*r),
        index + ring_storage(*r).len() <= usize::MAX,
    ensures
        item == ring_storage(*r)[(ring_start(*r) + index) as int % (ring_storage(*r).len() as int)],
{
    *r.get(index)
}

/// `Fixed::set_first`: moves the front to storage index `index` modulo the
/// storage length; the storage is unchanged.
#[verifier::external_body]
pub(crate) fn ring_set_first(r: &mut Ring, index: usize)
    requires
        ring_wf(*old(r)),
    ensures
        ring_storage(*final(r)) == ring_storage(*old(r)),
        ring_start(*final(r)) == (index as int % (ring_storage(*old(r)).len() as int)) as nat,
{
    r.set_first(index)
}

/// Reduces an index that lies in `[0, 2l)` modulo `l`.
pub proof fn lemma_mod_wrap(a: int, l: int)
    requires
        0 < l,
        0 <= a < 2 * l,
    ensures
        a % l == (if a < l { a } else { a - l }),
{
    if a < l {
        lemma_small_mod(a as nat, l as nat);
    } else {
        lemma_mod_sub_multiples_vanish(a, l);
        lemma_small_mod((a - l) as nat, l as nat);
    }
}

/// Pushing onto a ring buffer drops its front item and appends the new one at
/// the back; the item handed back is the old front.
pub proof fn lemma_push_view(r: Ring, r2: Ring, item: u32, out: u32)
    requires
        ring_wf(r),
        out == ring_storage(r)[ring_start(r) as int],
        ring_storage(r2) == ring_storage(r).update(ring_start(r) as int, item),
        ring_start(r2) == (if ring_start(r) + 1 == ring_storage(r).len() {
            0
        } else {
            ring_start(r) + 1
        }),
    ensures
        ring_wf(r2),
        out == ring_view(r)[0],
        ring_view(r2) == ring_view(r).drop_first().push(item),
{
    let s = ring_storage(r);
    let l = s.len() as int;
    let f = ring_start(r) as int;
    lemma_mod_wrap(f, l);
    let v = ring_view(r);
    let v2 = ring_view(r2);
    let w = v.drop_first().push(item);
    assert forall|i: int| 0 <= i < l implies #[trigger] v2[i] == w[i] by {
        let f2 = ring_start(r2) as int;
        lemma_mod_wrap(f2 + i, l);
        lemma_mod_wrap(f + i + 1, l);
        if i < l - 1 {
            assert(v[i + 1] == s[(f + i + 1) % l]);
        }
    }
    assert(v2 =~= w);
}

/// Reading index `i` of a ring buffer reads item `i` of its contents,
/// counted modulo its length.
pub proof fn lemma_get_view(r: Ring, i: int)
    requires
        ring_wf(r),
        0 <= i,
    ensures
        ring_storage(r)[(ring_start(r) + i) % (ring_storage(r).len() as int)]
            == ring_view(r)[i % (ring_storage(r).len() as int)],
{
    let l = ring_storage(r).len() as int;
    let f = ring_start(r) as int;
    let m = i % l;
    assert((f + i) % l == (f + m) % l) by (nonlinear_arith)
        requires
            l > 0,
            0 <= f,
            0 <= i,
            m == i % l,
    {
        vstd::arithmetic::div_mod::lemma_add_mod_noop_right(f, i, l);
    }
}

/// A ring buffer built around `data` holds `data` front to back.
pub proof fn lemma_from_view(r: Ring)
    requires
        ring_storage(r).len() > 0,
        ring_start(r) == 0,
    ensures
        ring_wf(r),
        ring_view(r) == ring_storage(r),
{
    let s = ring_storage(r);
    let l = s.len() as int;
    assert forall|i: int| 0 <= i < l implies #[trigger] ring_view(r)[i] == s[i] by {
        lemma_small_mod(i as nat, l as nat);
    }
    assert(ring_view(r) =~= s);
}

} // verus!
