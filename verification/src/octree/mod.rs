//! Trees which allow nodes to have either zero children or exactly 8, most often used to
//! partition a 3D space by recursively subdividing it into eight octants.
//!
//! The implementation is shared with quadtrees: see the [`full_tree`](crate::full_tree) module.
use vstd::prelude::*;
use crate::full_tree;

verus! {

/// An octree.
pub type Octree<B, L = B> = full_tree::FullTree<B, L, 8>;

/// A node of an octree.
pub type Node<B, L> = full_tree::Node<B, L, 8>;

/// A reference to a node in an octree.
pub type NodeRef<'a, B, L = B> = full_tree::NodeRef<'a, B, L, 8>;

/// A *mutable* reference to a node in an octree.
pub type NodeRefMut<'a, B, L = B> = full_tree::NodeRefMut<'a, B, L, 8>;

/// The eight children of an octree branch, packed together.
pub type PackedChildren<T> = full_tree::PackedChildren<T, 8>;

/// An owned iterator over the elements of `PackedChildren`.
pub type PackedChildrenIter<T> = full_tree::PackedChildrenIter<T>;

} // verus!
