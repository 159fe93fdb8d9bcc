//! Trees whose branch nodes have exactly `N` children, such as octrees and quadtrees.

mod node;
mod base;
mod node_ref;
mod impl_traversable;

pub use base::{FullTree, PackedChildren, PackedChildrenIter, keys_at_most, law_make_branch_then_remove_children, key_range, leaf_payload, branch_payload, as_leaf, new_leaves, branch_made, make_branch_outcome, removed_times,
    children_removal_outcome, lemma_children_removed, block,
};

pub use node_ref::{NodeRef, NodeRefMut, node_value, value_refs_match};

pub use node::{
    Node, NodeData, parents_of, kids_of, values_of, removed_and_fixed, full_wf, full_partial,
    full_order, consecutive, array_of, lemma_array_of,
};
