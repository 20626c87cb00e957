//! A cell of the graph: its position, its current variant, whether it has
//! been collapsed, and the positions of its neighbours.
use vstd::prelude::*;
use crate::variant::NodeVariants;

verus! {

/// A copy of a list of positions.
pub fn copy_positions(v: &Vec<usize>) -> (r: Vec<usize>)
    ensures
        r@ == v@,
{
    let mut r: Vec<usize> = Vec::new();
    let mut i: usize = 0;
    while i < v.len()
        invariant
            i <= v@.len(),
            r@ == v@.take(i as int),
        decreases v@.len() - i,
    {
        r.push(v[i]);
        i = i + 1;
        assert(r@ =~= v@.take(i as int));
    }
    assert(v@.take(i as int) =~= v@);
    r
}

/// A cell at `position` whose neighbours are `connecting_nodes`; positions
/// there need not hold cells.
#[derive(Debug)]
pub struct Node<V> {
    pub position: usize,
    pub node_type: V,
    pub connecting_nodes: Vec<usize>,
    pub collapsed: bool,
}

impl<V> Node<V> {
    /// Same position, variant, neighbours and state.
    pub open spec fn same(self, other: Node<V>) -> bool {
        &&& self.position == other.position
        &&& self.node_type == other.node_type
        &&& self.connecting_nodes@ == other.connecting_nodes@
        &&& self.collapsed == other.collapsed
    }
}

impl<V: NodeVariants> Node<V> {
    /// A fresh cell: unset and not collapsed.
    pub fn new(position: usize, connecting_nodes: Vec<usize>) -> (r: Node<V>)
        ensures
            r.position == position,
            r.node_type == V::spec_unset(),
            r.connecting_nodes@ == connecting_nodes@,
            !r.collapsed,
    {
        Node { position, node_type: V::get_default_type(), connecting_nodes, collapsed: false }
    }

    pub fn copied(&self) -> (r: Node<V>)
        ensures
            r.same(*self),
    {
        Node {
            position: self.position,
            node_type: self.node_type,
            connecting_nodes: copy_positions(&self.connecting_nodes),
            collapsed: self.collapsed,
        }
    }

    pub fn get_atlas_position(&self) -> (r: usize)
        ensures
            r == self.position,
    {
        self.position
    }

    pub fn get_connecting_nodes(&self) -> (r: Vec<usize>)
        ensures
            r@ == self.connecting_nodes@,
    {
        copy_positions(&self.connecting_nodes)
    }

    pub fn get_node_type(&self) -> (r: V)
        ensures
            r == self.node_type,
    {
        self.node_type
    }

    pub fn set_node_type(&mut self, node_type: V)
        ensures
            final(self).node_type == node_type,
            final(self).position == old(self).position,
            final(self).connecting_nodes@ == old(self).connecting_nodes@,
            final(self).collapsed == old(self).collapsed,
    {
        self.node_type = node_type;
    }

    pub fn has_collapsed(&self) -> (r: bool)
        ensures
            r == self.collapsed,
    {
        self.collapsed
    }

    pub fn set_collapsed(&mut self, state: bool)
        ensures
            final(self).collapsed == state,
            final(self).position == old(self).position,
            final(self).connecting_nodes@ == old(self).connecting_nodes@,
            final(self).node_type == old(self).node_type,
    {
        self.collapsed = state;
    }
}

} // verus!
