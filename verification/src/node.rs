//! Names of nodes.
use vstd::prelude::*;
use vstd::slice::slice_to_vec;

verus! {

/// What identifies a node: its name.
#[derive(Debug)]
pub struct NodeIdentifer {
    node_name: Vec<u8>,
}

impl View for NodeIdentifer {
    type V = Seq<u8>;

    closed spec fn view(&self) -> Seq<u8> {
        self.node_name@
    }
}

impl NodeIdentifer {
    /// The node of the name.
    pub fn new(node_name: &[u8]) -> (r: Self)
        ensures
            r@ == node_name@,
    {
        NodeIdentifer { node_name: slice_to_vec(node_name) }
    }

    /// The name.
    pub fn name(&self) -> (r: &[u8])
        ensures
            r@ == self@,
    {
        self.node_name.as_slice()
    }
}

} // verus!
