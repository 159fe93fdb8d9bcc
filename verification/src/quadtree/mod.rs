//! Trees which allow nodes to have either zero children or exactly 4, most often used to
//! partition a 2D space by recursively subdividing it into four quadrants.
//!
//! The implementation is shared with octrees: see the [`full_tree`](crate::full_tree) module.
use vstd::prelude::*;
use crate::full_tree;

verus! {

/// A quadtree.
pub type Quadtree<B, L = B> = full_tree::FullTree<B, L, 4>;

/// A node of a quadtree.
pub type Node<B, L> = full_tree::Node<B, L, 4>;

/// A reference to a node in a quadtree.
pub type NodeRef<'a, B, L = B> = full_tree::NodeRef<'a, B, L, 4>;

/// A *mutable* reference to a node in a quadtree.
pub type NodeRefMut<'a, B, L = B> = full_tree::NodeRefMut<'a, B, L, 4>;

/// The four children of a quadtree branch, packed together.
pub type PackedChildren<T> = full_tree::PackedChildren<T, 4>;

/// An owned iterator over the elements of `PackedChildren`.
pub type PackedChildrenIter<T> = full_tree::PackedChildrenIter<T>;

} // verus!
