//! One vertex of the trie, held in an arena and addressed by its index.

use vstd::prelude::*;

verus! {

/// A trie vertex.  Edges and failure links are indices into the arena that
/// owns the node.
pub struct Node {
    /// The child reached by each byte value, where there is one.
    pub children: [Option<usize>; 256],
    /// Where a scan falls back to when no edge fits; set by finalization.
    pub fail: Option<usize>,
    /// The label of the pattern that ends here, where one does.
    pub label: Option<String>,
}

impl Node {
    /// The child reached from this node by byte `b`.
    pub open spec fn child(&self, b: u8) -> Option<usize> {
        self.children@[b as int]
    }

    /// A node without edges, failure link or label.
    pub open spec fn is_blank(&self) -> bool {
        &&& forall|b: u8| self.child(b) is None
        &&& self.fail is None
        &&& self.label is None
    }

    /// A fresh node: no edges, no failure link, no label.
    pub fn new() -> (node: Node)
        ensures
            node.is_blank(),
    {
        Node { children: [None; 256], fail: None, label: None }
    }
}

} // verus!
