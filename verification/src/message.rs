//! Messages that rewire a node: the order in which a node reads its inputs.
use vstd::prelude::*;

verus! {

/// A message to a node about the order of its inputs.
pub enum Message {
    /// Append the id of an upstream node to the input order.
    Index(usize),
    /// Insert the id `.1` at position `.0` of the input order.
    IndexOrder(usize, usize),
    /// Forget the input order.
    ResetOrder,
}

/// A node can take `msg` without panicking: an insertion position lies
/// within the current order.
pub open spec fn order_msg_ok(order: Seq<usize>, msg: Message) -> bool {
    match msg {
        Message::IndexOrder(pos, _) => pos <= order.len(),
        _ => true,
    }
}

/// The input order after `msg`; `resets` says whether the node honours
/// `ResetOrder` (some nodes ignore it).
pub open spec fn order_after(order: Seq<usize>, msg: Message, resets: bool) -> Seq<usize> {
    match msg {
        Message::Index(i) => order.push(i),
        Message::IndexOrder(pos, i) => order.insert(pos as int, i),
        Message::ResetOrder => if resets {
            Seq::empty()
        } else {
            order
        },
    }
}

/// Applies a routing message to an input order.
pub fn apply_order(order: &mut Vec<usize>, msg: Message, resets: bool)
    requires
        order_msg_ok(old(order)@, msg),
    ensures
        final(order)@ == order_after(old(order)@, msg, resets),
{
    match msg {
        Message::Index(i) => order.push(i),
        Message::IndexOrder(pos, i) => order.insert(pos, i),
        Message::ResetOrder => {
            if resets {
                order.clear();
            }
        },
    }
}

/// What routing messages do to an input order: `Index` appends, `IndexOrder`
/// puts the id at the given position and shifts the later ones back by one,
/// `ResetOrder` empties the order of a node that honours it.
pub proof fn lemma_order_messages(order: Seq<usize>, msg: Message, resets: bool)
    requires
        order_msg_ok(order, msg),
    ensures
        msg matches Message::Index(i) ==> {
            let o = order_after(order, msg, resets);
            &&& o.len() == order.len() + 1
            &&& o.last() == i
            &&& o.drop_last() == order
        },
        msg matches Message::IndexOrder(pos, i) ==> {
            let o = order_after(order, msg, resets);
            &&& o.len() == order.len() + 1
            &&& o[pos as int] == i
            &&& forall|j: int| 0 <= j < pos ==> o[j] == order[j]
            &&& forall|j: int| pos <= j < order.len() ==> o[j + 1] == order[j]
        },
        msg is ResetOrder ==> order_after(order, msg, resets) == (if resets {
            Seq::<usize>::empty()
        } else {
            order
        }),
{
    if let Message::Index(i) = msg {
        assert(order.push(i).drop_last() =~= order);
    }
}

} // verus!
