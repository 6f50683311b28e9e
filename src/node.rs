//! A node of the graph: its id and the value it carries.
use vstd::prelude::*;

verus! {

/// Nodes are numbered densely from 0, in the order in which they were added.
pub type NodeId = usize;

pub struct Node<T> {
    id: NodeId,
    value: T,
}

impl<T> View for Node<T> {
    type V = (NodeId, T);

    closed spec fn view(&self) -> (NodeId, T) {
        (self.id, self.value)
    }
}

impl<T> Node<T> {
    pub fn new(i: NodeId, v: T) -> (r: Node<T>)
        ensures
            r@ == (i, v),
    {
        Node { id: i, value: v }
    }

    pub fn get_id(&self) -> (r: NodeId)
        ensures
            r == self@.0,
    {
        self.id
    }

    pub fn get_value(&self) -> (r: &T)
        ensures
            *r == self@.1,
    {
        &self.value
    }

    pub fn get_mut_value(&mut self) -> (r: &mut T)
        ensures
            *r == old(self)@.1,
            final(self)@ == (old(self)@.0, *final(r)),
    {
        &mut self.value
    }
}

} // verus!
