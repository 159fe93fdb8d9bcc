//! Freeform trees, ones which don't impose any restrictions on the number of child nodes that a
//! branch node can have.
//!
//! The children of a branch are kept as a doubly linked list of siblings: the branch knows its
//! first and last children, and every node knows the siblings right before and after it.
mod node;

pub use node::{
    Node, NodeData, parents_of, values_of, removed_and_fixed, prev_in, next_in, links_ok,
    freeform_partial, freeform_wf,
};

mod base;
mod unlink;
mod removal;
mod node_ref;
mod impl_traversable;
pub mod laws;

pub use base::{
    FreeformTree, TryPushError, key_range, new_children, leaf_payload, branch_payload, parent_key,
    removal_converts_parent, without_child, below_all, leaf_removal_outcome, children_removal_outcome,
    push_outcome, branch_made_outcome, pushed_kids, parents_before, kept_at,
};
pub use removal::{branch_removal_outcome, exempt_parent};
pub use node_ref::{NodeRef, NodeRefMut, NodeSiblingKeysIter, NodeSiblingsIter, node_value, value_refs_match};
