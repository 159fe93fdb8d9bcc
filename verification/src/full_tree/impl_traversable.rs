use vstd::prelude::*;
use crate::{NodeValue, TryRemoveLeafError, TryRemoveBranchError, TryRemoveChildrenError};
use crate::shape::{parent_ok, kid_ok};
use crate::traversal::{
    Traversable, TraversableMut, VisitorDirection, CursorResult, CursorDirectionError, advance_spec,
    next_sibling_spec, position_of, refs_match, parents_kept_below, parents_kept_below_all,
    values_kept_below, values_kept_below_all, kept_or_converted, children_after_siblings,
    leaf_payloads, all_leaves, is_first_branch_kid, children_removed_exactly, key_block,
    values_removed_at, parents_removed_at, kids_removed_at, lemma_without_block, lemma_values_removed_at_update,
};
use crate::util::array_into_vec;
use super::base::{FullTree, children_removal_outcome, lemma_children_removed, leaf_payload, branch_payload, removed_times, as_leaf};
use super::node::{Node, NodeData, parents_of, kids_of, values_of, lemma_removed_and_fixed_shape};

verus! {

impl<B, L, const N: usize> Traversable for FullTree<B, L, N> {
    type Leaf = L;
    type Branch = B;

    open spec fn parents(&self) -> Seq<Option<usize>> {
        parents_of(self.nodes())
    }

    open spec fn kids(&self) -> Seq<Seq<usize>> {
        kids_of(self.nodes())
    }

    open spec fn values(&self) -> Seq<NodeValue<B, L>> {
        values_of(self.nodes())
    }

    open spec fn traversable_wf(&self) -> bool {
        self.wf()
    }

    proof fn lemma_traversable_wf(&self) {
        self.lemma_wf();
        assert forall|i: int| 0 <= i < self.values().len() implies (#[trigger] self.values()[i] is Branch
            <==> self.kids()[i].len() > 0) by {
            assert(self.kids()[i] == self.nodes()[i].children());
            self.lemma_links(i as usize);
            assert(self.values()[i] == self.nodes()[i].value.value_spec());
        }
    }

    fn advance_cursor<V>(&self, cursor: usize, direction: VisitorDirection<usize, V>) -> (r: CursorResult<usize>) {
        let error = CursorDirectionError { previous_state: cursor };
        match direction {
            VisitorDirection::Parent => {
                match self.node_at(cursor).parent {
                    Some(p) => Ok(p),
                    None => Err(error),
                }
            },
            VisitorDirection::NextSibling => {
                let ghost nodes = self.nodes();
                match self.node_at(cursor).parent {
                    Some(p) => {
                        proof {
                            self.lemma_links(cursor);
                            self.lemma_links(p);
                        }
                        match &self.node_at(p).value {
                            NodeData::Branch { children, .. } => {
                                let ghost ks = nodes[p as int].children();
                                proof {
                                    assert(self.kids()[p as int] == ks);
                                    let j = choose|j: int| 0 <= j < ks.len() && ks[j] == cursor;
                                    assert(ks[j] == ks[0] + j);
                                    let i = position_of(ks, cursor);
                                    assert(ks.contains(cursor));
                                    assert(ks[i] == ks[0] + i);
                                    assert(i == cursor - ks[0]);
                                }
                                let index = cursor - children[0];
                                if index + 1 < N {
                                    proof {
                                        assert(ks[index + 1] == ks[0] + index + 1);
                                    }
                                    Ok(children[index + 1])
                                } else {
                                    Err(error)
                                }
                            },
                            NodeData::Leaf(_) => vstd::pervasive::unreached(),
                        }
                    },
                    None => Err(error),
                }
            },
            VisitorDirection::Child(n) => {
                match &self.node_at(cursor).value {
                    NodeData::Branch { children, .. } => {
                        if (n as usize) < N {
                            Ok(children[n as usize])
                        } else {
                            Err(error)
                        }
                    },
                    NodeData::Leaf(_) => Err(error),
                }
            },
            VisitorDirection::SetTo(new_cursor) => {
                if new_cursor < self.len() {
                    Ok(new_cursor)
                } else {
                    Err(error)
                }
            },
            VisitorDirection::Stop(_) => Err(error),
        }
    }

    fn cursor_to_root(&self) -> (r: usize) {
        0
    }

    fn value_of(&self, cursor: &usize) -> (r: NodeValue<&B, &L>) {
        match &self.node_at(*cursor).value {
            NodeData::Branch { payload, .. } => NodeValue::Branch(payload),
            NodeData::Leaf(x) => NodeValue::Leaf(x),
        }
    }

    fn parent_of(&self, cursor: &usize) -> (r: Option<usize>) {
        self.node_at(*cursor).parent
    }

    fn num_children_of(&self, cursor: &usize) -> (r: usize) {
        proof {
            self.lemma_links(*cursor);
        }
        match &self.node_at(*cursor).value {
            NodeData::Branch { .. } => N,
            NodeData::Leaf(_) => 0,
        }
    }

    fn nth_child_of(&self, cursor: &usize, child_num: usize) -> (r: Option<usize>) {
        proof {
            self.lemma_links(*cursor);
        }
        match &self.node_at(*cursor).value {
            NodeData::Branch { children, .. } => {
                if child_num < N {
                    Some(children[child_num])
                } else {
                    None
                }
            },
            NodeData::Leaf(_) => None,
        }
    }
}

impl<B, L, const N: usize> TraversableMut for FullTree<B, L, N> {
    open spec fn can_remove_individual_children() -> bool {
        false
    }

    fn can_remove_individual_children_exec() -> (r: bool) {
        false
    }

    proof fn lemma_children_after_siblings(&self) {
        self.lemma_wf();
    }

    fn value_mut_of(&mut self, cursor: &usize) -> (r: NodeValue<&mut B, &mut L>) {
        self.value_mut_at(*cursor)
    }

    fn try_remove_leaf<BtL: FnOnce(B) -> L>(&mut self, cursor: &usize, branch_to_leaf: BtL) -> (result: Result<
        L,
        TryRemoveLeafError,
    >) {
        Err(TryRemoveLeafError::CannotRemoveIndividualChildren)
    }

    fn try_remove_branch<BtL: FnOnce(B) -> L>(&mut self, cursor: &usize, branch_to_leaf: BtL) -> (result: Result<
        (B, Vec<L>),
        TryRemoveBranchError,
    >) {
        Err(TryRemoveBranchError::CannotRemoveIndividualChildren)
    }

    fn try_remove_children<BtL: FnOnce(B) -> L>(&mut self, cursor: &usize, branch_to_leaf: BtL) -> (result: Result<
        Vec<L>,
        TryRemoveChildrenError,
    >) {
        let ghost old_nodes = self.nodes();
        proof {
            self.lemma_wf();
            self.lemma_links(*cursor);
            assert(self.kids()[*cursor as int] == old_nodes[*cursor as int].children());
        }
        match self.try_remove_children_at(*cursor, branch_to_leaf) {
            Ok(children) => {
                let v = array_into_vec(children);
                proof {
                    let c = *cursor;
                    let kids = old_nodes[c as int].children();
                    let converted = leaf_payload(self.nodes()[c as int]);
                    lemma_children_removed(old_nodes, c, converted);
                    lemma_children_exactly(old_nodes, c, converted);
                    let new_nodes = self.nodes();
                    assert forall|k: int|
                        0 <= k < old_nodes.len() && (forall|j: int| 0 <= j < kids.len() ==> k < #[trigger] kids[j])
                            implies k < parents_of(new_nodes).len() && #[trigger] parents_of(new_nodes)[k] == parents_of(old_nodes)[k] by {
                        assert(k < kids[0]);
                        assert(k < new_nodes.len());
                    }
                    assert forall|k: int|
                        0 <= k < values_of(old_nodes).len() && (forall|j: int| 0 <= j < kids.len() ==> k < #[trigger] kids[j])
                            implies k < values_of(new_nodes).len() && kept_or_converted(
                            values_of(old_nodes)[k],
                            #[trigger] values_of(new_nodes)[k],
                            k == c,
                            branch_to_leaf,
                        ) by {
                        assert(k < kids[0]);
                        if k == c {
                            assert(values_of(old_nodes)[k] == NodeValue::<B, L>::Branch(branch_payload(old_nodes[k])));
                        }
                    }
                }
                Ok(v)
            },
            Err(e) => Err(e),
        }
    }
}

/// Removing the element at `at` `n` times renumbers the shape and drops the payloads the way the
/// generic removal does.
proof fn lemma_removed_times_exact<B, L, const N: usize>(nodes: Seq<Node<B, L, N>>, at: usize, n: nat)
    requires
        at + n <= nodes.len(),
    ensures
        values_of(removed_times(nodes, at, n)) == values_removed_at(values_of(nodes), at, n),
        parents_of(removed_times(nodes, at, n)) == parents_removed_at(parents_of(nodes), at, n),
        kids_of(removed_times(nodes, at, n)) == kids_removed_at(kids_of(nodes), at, n),
        removed_times(nodes, at, n).len() == nodes.len() - n,
    decreases n,
{
    if n > 0 {
        let m = (n - 1) as nat;
        lemma_removed_times_exact(nodes, at, m);
        lemma_removed_and_fixed_shape(removed_times(nodes, at, m), at);
    }
}

/// Removing the leaf children of `c` is removing them one after the other, keys renumbered, with
/// `c` turned into a leaf.
proof fn lemma_children_exactly<B, L, const N: usize>(nodes: Seq<Node<B, L, N>>, c: usize, converted: L)
    requires
        super::node::full_wf(nodes),
        c < nodes.len(),
        nodes[c as int].value is Branch,
        all_leaves(values_of(nodes), nodes[c as int].children()),
        nodes.len() <= usize::MAX,
    ensures
        ({
            let ks = nodes[c as int].children();
            let new_nodes = removed_times(nodes.update(c as int, as_leaf(nodes[c as int], converted)), ks[0], N as nat);
            &&& values_of(new_nodes) == crate::traversal::values_without(values_of(nodes), ks).update(c as int, values_of(new_nodes)[c as int])
            &&& parents_of(new_nodes) == crate::traversal::parents_without(parents_of(nodes), ks)
            &&& kids_of(new_nodes) == crate::traversal::kids_without(kids_of(nodes), c, ks)
        }),
{
    let ks = nodes[c as int].children();
    lemma_children_removed(nodes, c, converted);
    let at = ks[0];
    assert(kids_of(nodes)[c as int] == ks);
    assert(super::node::consecutive(ks));
    assert(ks.len() == N);
    assert(ks =~= key_block(at, N as nat));
    let d = nodes.update(c as int, as_leaf(nodes[c as int], converted));
    lemma_removed_times_exact(d, at, N as nat);
    lemma_without_block(values_of(nodes), parents_of(nodes), kids_of(nodes), c, at, N as nat);
    assert(values_of(d) =~= values_of(nodes).update(c as int, NodeValue::Leaf(converted)));
    assert(parents_of(d) =~= parents_of(nodes));
    assert(kids_of(d) =~= kids_of(nodes).update(c as int, Seq::empty()));
    lemma_values_removed_at_update(values_of(nodes), at, N as nat, c, NodeValue::Leaf(converted));
}

} // verus!
