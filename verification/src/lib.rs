//! Arena-allocated tree data structures and interfaces to work with them.
//!
//! The trees keep their nodes in a `Vec` and link them by index instead of by pointer. Every tree
//! has a root node at index 0; a node is either a *branch*, with children, or a *leaf*, without
//! them, and carries a payload of the matching type.
//!
//! A key is a node's index in the storage. Removing nodes moves the later nodes down to close
//! the gap, so keys after the removed ones are renumbered, and a key taken before a removal may
//! name another node afterwards.
use vstd::prelude::*;
use vstd::string::*;

pub mod shape;
pub mod storage;
pub mod binary_tree;
pub mod full_tree;
pub mod octree;
pub mod quadtree;
pub mod freeform_tree;
pub mod traversal;
mod tree;
mod message;
pub mod util;

pub use tree::Tree;

pub use binary_tree::BinaryTree;
pub use octree::Octree;
pub use quadtree::Quadtree;
pub use freeform_tree::FreeformTree;
pub use traversal::{Visitor, VisitorMut, Traversable, TraversableMut};
pub use storage::{Storage, ListStorage};

verus! {

/// The payload of a node of a tree.
#[derive(Copy, Clone, Debug, PartialEq, Eq, Hash)]
pub enum NodeValue<B, L = B> {
    /// The payload of a branch node, i.e. a node with children.
    Branch(B),
    /// The payload of a leaf node, i.e. a node without any children.
    Leaf(L),
}

impl<B, L> NodeValue<B, L> {
    /// Converts from `&NodeValue<B, L>` to `NodeValue<&B, &L>`.
    pub fn as_ref(&self) -> (r: NodeValue<&B, &L>)
        ensures
            match (*self, r) {
                (NodeValue::Branch(x), NodeValue::Branch(y)) => *y == x,
                (NodeValue::Leaf(x), NodeValue::Leaf(y)) => *y == x,
                _ => false,
            },
    {
        match self {
            NodeValue::Branch(x) => NodeValue::Branch(x),
            NodeValue::Leaf(x) => NodeValue::Leaf(x),
        }
    }

    /// Converts from `&mut NodeValue<B, L>` to `NodeValue<&mut B, &mut L>`.
    pub fn as_mut(&mut self) -> (r: NodeValue<&mut B, &mut L>)
        ensures
            match r {
                NodeValue::Branch(x) => {
                    &&& *old(self) is Branch
                    &&& *x == (*old(self))->Branch_0
                    &&& *final(self) == NodeValue::<B, L>::Branch(*final(x))
                },
                NodeValue::Leaf(x) => {
                    &&& *old(self) is Leaf
                    &&& *x == (*old(self))->Leaf_0
                    &&& *final(self) == NodeValue::<B, L>::Leaf(*final(x))
                },
            },
    {
        match self {
            NodeValue::Branch(x) => NodeValue::Branch(x),
            NodeValue::Leaf(x) => NodeValue::Leaf(x),
        }
    }
}

/// The payload of a node, whatever kind of node it is.
pub open spec fn node_value_inner<T>(value: NodeValue<T, T>) -> T {
    match value {
        NodeValue::Branch(x) => x,
        NodeValue::Leaf(x) => x,
    }
}

impl<T> NodeValue<T, T> {
    /// Extracts the value, discarding information about whether the node was a leaf or branch.
    /// *Available only if the leaf and branch payloads are the same type.*
    pub fn into_inner(self) -> (r: T)
        ensures
            r == node_value_inner(self),
    {
        match self {
            NodeValue::Branch(x) => x,
            NodeValue::Leaf(x) => x,
        }
    }
}

/// The error type returned by methods on trees which remove leaf nodes.
#[derive(Copy, Clone, Debug, Hash, PartialEq, Eq, Structural)]
pub enum TryRemoveLeafError {
    /// The node was the root node, which cannot be removed.
    WasRootNode,
    /// The node was a branch node and thus would require recursion to remove.
    WasBranchNode,
    /// The tree does not support removing individual children or such support was manually
    /// disabled.
    CannotRemoveIndividualChildren,
}

/// The error type returned by methods on trees which remove branch nodes.
#[derive(Copy, Clone, Debug, Hash, PartialEq, Eq, Structural)]
pub enum TryRemoveBranchError {
    /// The node was the root node, which cannot be removed.
    WasRootNode,
    /// The node a leaf node and thus should be removed with `try_remove_leaf_with` or a similar
    /// method.
    WasLeafNode,
    /// One of the node's children was a branch node, which would require recursion to remove.
    /// Contains the index of the offending node; if there were multiple, the smallest index is
    /// specified.
    HadBranchChild(u32),
    /// The tree does not support removing individual children or such support was manually
    /// disabled.
    CannotRemoveIndividualChildren,
}

/// The error type returned by methods on trees which remove children branch nodes.
#[derive(Copy, Clone, Debug, Hash, PartialEq, Eq, Structural)]
pub enum TryRemoveChildrenError {
    /// The node a leaf node and thus cannot have children by definition.
    WasLeafNode,
    /// One of the node's children was a branch node, which would require recursion to remove.
    /// Contains the index of the offending node; if there were multiple, the smallest index is
    /// specified.
    HadBranchChild(u32),
}

impl TryRemoveLeafError {
    /// The description of the error.
    pub open spec fn message(self) -> Seq<char> {
        match self {
            TryRemoveLeafError::WasRootNode => "cannot remove the root node of a tree"@,
            TryRemoveLeafError::WasBranchNode => "cannot remove branch nodes without recursion"@,
            TryRemoveLeafError::CannotRemoveIndividualChildren => "removing individual children is not available for the tree"@,
        }
    }

    /// Describes the error.
    pub fn to_string(&self) -> (r: String)
        ensures
            r@ == self.message(),
    {
        match self {
            TryRemoveLeafError::WasRootNode => String::from_str("cannot remove the root node of a tree"),
            TryRemoveLeafError::WasBranchNode => String::from_str("cannot remove branch nodes without recursion"),
            TryRemoveLeafError::CannotRemoveIndividualChildren => String::from_str(
                "removing individual children is not available for the tree",
            ),
        }
    }
}

/// The description of an error caused by the branch child at the specified index.
pub open spec fn branch_child_message(index: u32) -> Seq<char> {
    "node had a branch child (index "@ + message::decimal(index as nat) + "), which cannot be removed without recursion"@
}

/// Describes an error caused by the branch child at the specified index.
fn branch_child_string(index: u32) -> (r: String)
    ensures
        r@ == branch_child_message(index),
{
    let mut s = String::from_str("node had a branch child (index ");
    message::push_decimal(&mut s, index);
    s.append("), which cannot be removed without recursion");
    s
}

impl TryRemoveBranchError {
    /// The description of the error.
    pub open spec fn message(self) -> Seq<char> {
        match self {
            TryRemoveBranchError::WasRootNode => "cannot remove the root node of a tree"@,
            TryRemoveBranchError::WasLeafNode => "expected a branch node, found leaf"@,
            TryRemoveBranchError::HadBranchChild(index) => branch_child_message(index),
            TryRemoveBranchError::CannotRemoveIndividualChildren => "removing individual children is not available for the tree"@,
        }
    }

    /// Describes the error.
    pub fn to_string(&self) -> (r: String)
        ensures
            r@ == self.message(),
    {
        match self {
            TryRemoveBranchError::WasRootNode => String::from_str("cannot remove the root node of a tree"),
            TryRemoveBranchError::WasLeafNode => String::from_str("expected a branch node, found leaf"),
            TryRemoveBranchError::HadBranchChild(index) => branch_child_string(*index),
            TryRemoveBranchError::CannotRemoveIndividualChildren => String::from_str(
                "removing individual children is not available for the tree",
            ),
        }
    }
}

impl TryRemoveChildrenError {
    /// The description of the error.
    pub open spec fn message(self) -> Seq<char> {
        match self {
            TryRemoveChildrenError::WasLeafNode => "expected a branch node, found leaf"@,
            TryRemoveChildrenError::HadBranchChild(index) => branch_child_message(index),
        }
    }

    /// Describes the error.
    pub fn to_string(&self) -> (r: String)
        ensures
            r@ == self.message(),
    {
        match self {
            TryRemoveChildrenError::WasLeafNode => String::from_str("expected a branch node, found leaf"),
            TryRemoveChildrenError::HadBranchChild(index) => branch_child_string(*index),
        }
    }
}

/// The error type returned by methods on trees which convert leaf nodes into branch nodes, which
/// occurs when the node which was attempted to be converted already is a branch node.
///
/// `P` is the container of the packed children, whose items are of type `L`.
#[derive(Debug)]
pub struct MakeBranchError<L, P> {
    /// The packed children which were passed to the function and were deemed useless because the
    /// call failed, provided here so that they don't get dropped if they could instead be reused
    /// in the event of a failure.
    pub packed_children: P,
    /// Marks the type of the packed items.
    pub item: core::marker::PhantomData<L>,
}

impl<L, P> MakeBranchError<L, P> {
    /// Creates the error, holding the specified packed children.
    pub fn new(packed_children: P) -> (e: Self)
        ensures
            e.packed_children == packed_children,
    {
        MakeBranchError { packed_children, item: core::marker::PhantomData }
    }

    /// Describes the error.
    pub fn to_string(&self) -> (r: String)
        ensures
            r@ == "the node already was a branch"@,
    {
        String::from_str("the node already was a branch")
    }
}

} // verus!
