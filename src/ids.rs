use vstd::prelude::*;

verus! {

/// Deterministic identity of one draw call: the index of the node instance in
/// its graph and the number of the slot inside that node.
#[derive(Clone, Copy, Debug, PartialEq, Eq, Hash, Structural)]
pub struct EguiId {
    pub node: u64,
    pub idx: u8,
}

impl EguiId {
    /// The identity of sub-slot `idx` of the node with graph index `node`.
    pub fn new(node: usize, idx: u8) -> (r: EguiId)
        ensures
            r.node == node as u64,
            r.idx == idx,
    {
        EguiId { node: node as u64, idx }
    }
}

} // verus!
