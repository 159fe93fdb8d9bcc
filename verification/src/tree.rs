use vstd::prelude::*;
use crate::NodeValue;

verus! {

/// Tree-like data structures.
pub trait Tree: Sized {
    /// The data payload of leaf nodes.
    type Leaf;
    /// The data payload of branch nodes.
    type Branch;
    /// The key used to address the tree's contents.
    ///
    /// Keys are not guaranteed to be stable: the only case in which those keys should actually be
    /// stored for extended periods of time is when a visitor needs to remember node locations.
    type Key;

    /// The tree is well-formed.
    spec fn tree_wf(&self) -> bool;

    /// The payload of the root node.
    spec fn root_payload(&self) -> NodeValue<Self::Branch, Self::Leaf>;

    /// The number of nodes in the tree.
    spec fn num_nodes(&self) -> nat;

    /// Creates a tree with the specified root node.
    fn new(root: Self::Leaf) -> (tree: Self)
        ensures
            tree.tree_wf(),
            tree.num_nodes() == 1,
            tree.root_payload() == NodeValue::<Self::Branch, Self::Leaf>::Leaf(root),
    ;
}

} // verus!
