//! Storage slots of the arena and their views.

use vstd::prelude::*;

use crate::model::{NodeId, NodeV};

verus! {

/// One stored node: payload, optional parent handle, child handles in
/// insertion order.
#[derive(Debug)]
pub struct Node<T> {
    pub data: T,
    pub parent: Option<NodeId>,
    pub children: Vec<NodeId>,
}

impl<T> View for Node<T> {
    type V = NodeV<T>;

    open spec fn view(&self) -> NodeV<T> {
        NodeV { data: self.data, parent: self.parent, children: self.children@ }
    }
}

/// The view of one slot.
pub(crate) open spec fn slot_view<T>(slot: Option<Node<T>>) -> Option<NodeV<T>> {
    match slot {
        Some(n) => Some(n@),
        None => None,
    }
}

/// The view of the whole slot vector.
pub(crate) open spec fn slots_view<T>(s: Seq<Option<Node<T>>>) -> Seq<Option<NodeV<T>>> {
    s.map_values(|slot: Option<Node<T>>| slot_view(slot))
}

/// Appending a slot appends its view.
pub(crate) broadcast proof fn lemma_slots_view_push<T>(
    s: Seq<Option<Node<T>>>,
    x: Option<Node<T>>,
)
    ensures
        #[trigger] slots_view(s.push(x)) == slots_view(s).push(slot_view(x)),
{
    assert(slots_view(s.push(x)) =~= slots_view(s).push(slot_view(x)));
}

/// Replacing a slot replaces its view.
pub(crate) broadcast proof fn lemma_slots_view_update<T>(
    s: Seq<Option<Node<T>>>,
    i: int,
    x: Option<Node<T>>,
)
    requires
        0 <= i < s.len(),
    ensures
        #[trigger] slots_view(s.update(i, x)) == slots_view(s).update(i, slot_view(x)),
{
    assert(slots_view(s.update(i, x)) =~= slots_view(s).update(i, slot_view(x)));
}

} // verus!
