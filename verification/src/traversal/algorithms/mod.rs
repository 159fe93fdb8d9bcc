//! Ubiquitous algorithms for trees.
//!
//! For now, this only includes recursive removal.
mod recursive_removal;
pub mod survivors;

pub use recursive_removal::{
    RecursiveRemovalWith, recursively_remove_with, recursively_remove, descends, removal_state,
    removal_step, leaf_rank, lemma_descends_after, lemma_descends_kept, lemma_kids_after_siblings,
    removal_result, removal_visit, unchanged, leaf_removed, branch_removed, children_removed, keep_payload,
};
