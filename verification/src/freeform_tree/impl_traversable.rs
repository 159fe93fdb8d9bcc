use vstd::prelude::*;
use crate::{NodeValue, TryRemoveLeafError, TryRemoveBranchError, TryRemoveChildrenError};
use crate::shape::parents_after_removal;
use crate::traversal::{
    Traversable, TraversableMut, VisitorDirection, CursorResult, CursorDirectionError, next_sibling_spec,
    position_of, parents_kept_below, parents_kept_below_all, values_kept_below, values_kept_below_all,
    kept_or_converted, branch_removed_exactly, children_removed_exactly, values_without,
    parents_without, kids_without, without_kid, lemma_values_without_len,
};
use crate::shape::kids_after_removal;
use super::removal::{exempt_parent, branch_removal_outcome, lemma_distinct_keys_bound};
use super::base::{
    FreeformTree, leaf_payload, branch_payload, parent_key, below_all, parents_before, kept_at,
    leaf_removal_outcome, children_removal_outcome,
};
use super::node::{Node, NodeData, parents_of, values_of, prev_in, next_in};

verus! {

impl<B, L> FreeformTree<B, L> {
    /// The tree is well-formed and the positions of the children of every node fit in a `u32`.
    pub open spec fn traversable_ok(&self) -> bool {
        &&& self.wf()
        &&& self.nodes().len() <= u32::MAX
    }
}

impl<B, L> Traversable for FreeformTree<B, L> {
    type Leaf = L;
    type Branch = B;

    open spec fn parents(&self) -> Seq<Option<usize>> {
        parents_of(self.nodes())
    }

    open spec fn kids(&self) -> Seq<Seq<usize>> {
        self.children_lists()
    }

    open spec fn values(&self) -> Seq<NodeValue<B, L>> {
        values_of(self.nodes())
    }

    open spec fn traversable_wf(&self) -> bool {
        self.traversable_ok()
    }

    proof fn lemma_traversable_wf(&self) {
        self.lemma_wf();
        assert forall|i: int| 0 <= i < self.values().len() implies (#[trigger] self.values()[i] is Branch
            <==> self.kids()[i].len() > 0) by {
            self.lemma_children(i as usize);
            assert(self.values()[i] == self.nodes()[i].value.value_spec());
        }
    }

    fn advance_cursor<V>(&self, cursor: usize, direction: VisitorDirection<usize, V>) -> (r: CursorResult<usize>) {
        let error = CursorDirectionError { previous_state: cursor };
        match direction {
            VisitorDirection::Parent => match self.node_at(cursor).parent {
                Some(p) => Ok(p),
                None => Err(error),
            },
            VisitorDirection::NextSibling => {
                proof {
                    self.lemma_siblings(cursor);
                    match self.nodes()[cursor as int].parent {
                        Some(p) => {
                            let ks = self.kids()[p as int];
                            assert(ks.contains(cursor));
                        },
                        None => {},
                    }
                }
                match self.node_at(cursor).next_sibling {
                    Some(s) => Ok(s),
                    None => Err(error),
                }
            },
            VisitorDirection::Child(n) => {
                let keys = self.children_keys_at(cursor);
                if (n as usize) < keys.len() {
                    Ok(keys[n as usize])
                } else {
                    Err(error)
                }
            },
            VisitorDirection::SetTo(new_cursor) => {
                if new_cursor < self.len() {
                    Ok(new_cursor)
                } else {
                    Err(error)
                }
            },
            VisitorDirection::Stop(_) => Err(error),
        }
    }

    fn cursor_to_root(&self) -> (r: usize) {
        0
    }

    fn value_of(&self, cursor: &usize) -> (r: NodeValue<&B, &L>) {
        match &self.node_at(*cursor).value {
            NodeData::Branch { payload, .. } => NodeValue::Branch(payload),
            NodeData::Leaf(x) => NodeValue::Leaf(x),
        }
    }

    fn parent_of(&self, cursor: &usize) -> (r: Option<usize>) {
        self.node_at(*cursor).parent
    }

    fn num_children_of(&self, cursor: &usize) -> (r: usize) {
        self.children_keys_at(*cursor).len()
    }

    fn nth_child_of(&self, cursor: &usize, child_num: usize) -> (r: Option<usize>) {
        let keys = self.children_keys_at(*cursor);
        if child_num < keys.len() {
            Some(keys[child_num])
        } else {
            None
        }
    }
}

impl<B, L> TraversableMut for FreeformTree<B, L> {
    open spec fn can_remove_individual_children() -> bool {
        true
    }

    fn can_remove_individual_children_exec() -> (r: bool) {
        true
    }

    proof fn lemma_children_after_siblings(&self) {
    }

    fn value_mut_of(&mut self, cursor: &usize) -> (r: NodeValue<&mut B, &mut L>) {
        self.value_mut_at(*cursor)
    }

    fn try_remove_leaf<BtL: FnOnce(B) -> L>(&mut self, cursor: &usize, branch_to_leaf: BtL) -> (result: Result<
        L,
        TryRemoveLeafError,
    >) {
        let ghost old_nodes = self.nodes();
        let ghost old_kids = self.children_lists();
        proof {
            self.lemma_children(*cursor);
            if old_nodes[*cursor as int].parent is Some {
                self.lemma_children(parent_key(old_nodes, *cursor));
            }
        }
        let result = self.try_remove_leaf_at(*cursor, branch_to_leaf);
        proof {
            if result is Ok {
                lemma_leaf_kept(old_nodes, old_kids, *cursor, branch_to_leaf, result->Ok_0, self.nodes(), self.children_lists());
            }
        }
        result
    }

    fn try_remove_branch<BtL: FnOnce(B) -> L>(&mut self, cursor: &usize, branch_to_leaf: BtL) -> (result: Result<
        (B, Vec<L>),
        TryRemoveBranchError,
    >) {
        let ghost old_nodes = self.nodes();
        let ghost old_kids = self.children_lists();
        proof {
            self.lemma_children(*cursor);
            if old_nodes[*cursor as int].parent is Some {
                self.lemma_children(parent_key(old_nodes, *cursor));
            }
        }
        proof {
            lemma_distinct_keys_bound(old_kids[*cursor as int], *cursor as int + 1, old_nodes.len() as int);
        }
        let result = self.try_remove_branch_at(*cursor, branch_to_leaf);
        proof {
            if result is Ok {
                lemma_branch_kept(old_nodes, old_kids, *cursor, branch_to_leaf, result, self.nodes(), self.children_lists());
                lemma_branch_exactly(old_nodes, old_kids, *cursor, |x: B, y: L| branch_to_leaf.ensures((x,), y), result, self.nodes(), self.children_lists());
            }
        }
        result
    }

    fn try_remove_children<BtL: FnOnce(B) -> L>(&mut self, cursor: &usize, branch_to_leaf: BtL) -> (result: Result<
        Vec<L>,
        TryRemoveChildrenError,
    >) {
        let ghost old_nodes = self.nodes();
        let ghost old_kids = self.children_lists();
        proof {
            self.lemma_children(*cursor);
        }
        proof {
            lemma_distinct_keys_bound(old_kids[*cursor as int], *cursor as int + 1, old_nodes.len() as int);
        }
        let result = self.try_remove_children_at(*cursor, branch_to_leaf);
        proof {
            if result is Ok {
                let key = *cursor;
                let new_nodes = self.nodes();
                let kids = old_kids[key as int];
                lemma_children_kept(old_nodes, old_kids, key, branch_to_leaf, result, new_nodes, self.children_lists());
                assert forall|k: int|
                    0 <= k < old_nodes.len() && (forall|j: int| 0 <= j < kids.len() ==> k < #[trigger] kids[j])
                        implies k < parents_of(new_nodes).len() && #[trigger] parents_of(new_nodes)[k] == parents_of(
                    old_nodes,
                )[k] by {
                    assert(kept_at(old_nodes, new_nodes, k, key as int));
                }
                assert forall|k: int|
                    0 <= k < values_of(old_nodes).len() && (forall|j: int| 0 <= j < kids.len() ==> k < #[trigger] kids[j])
                        implies k < values_of(new_nodes).len() && kept_or_converted(
                        values_of(old_nodes)[k],
                        #[trigger] values_of(new_nodes)[k],
                        k == key,
                        branch_to_leaf,
                    ) by {
                    assert(kept_at(old_nodes, new_nodes, k, key as int));
                    assert(values_of(old_nodes)[key as int] == NodeValue::<B, L>::Branch(
                        branch_payload(old_nodes[key as int]),
                    ));
                }
            }
        }
        result
    }
}

/// Removing a leaf keeps the parents and the payloads of the nodes before it, but for a parent
/// turned into a leaf.
/// A branch removal removes the leaf children one after the other, then the branch, and gives
/// the parent the payload it holds afterwards.
proof fn lemma_branch_exactly<B, L>(
    nodes: Seq<Node<B, L>>,
    kids: Seq<Seq<usize>>,
    key: usize,
    conv: spec_fn(B, L) -> bool,
    result: Result<(B, Vec<L>), TryRemoveBranchError>,
    new_nodes: Seq<Node<B, L>>,
    new_kids: Seq<Seq<usize>>,
)
    requires
        result is Ok,
        key < nodes.len(),
        kids[key as int].no_duplicates(),
        forall|i: int| 0 <= i < kids[key as int].len() ==> key < #[trigger] kids[key as int][i] < nodes.len(),
        branch_removal_outcome(nodes, kids, key, conv, result, new_nodes, new_kids),
    ensures
        ({
            let ks = kids[key as int];
            let p = parents_of(nodes)[key as int]->Some_0;
            &&& values_of(new_nodes) == values_without(values_of(nodes), ks).update(p as int, values_of(new_nodes)[p as int]).remove(key as int)
            &&& parents_of(new_nodes) == parents_after_removal(parents_without(parents_of(nodes), ks), key)
            &&& new_kids == kids_after_removal(without_kid(kids_without(kids, key, ks), p, key), key)
        }),
{
    let ks = kids[key as int];
    let p = parent_key(nodes, key);
    assert(parents_of(nodes)[key as int] == nodes[key as int].parent);
    let w = values_without(values_of(nodes), ks);
    assert(p < key);
    lemma_values_without_len(values_of(nodes), ks);
    lemma_distinct_keys_bound(ks, key as int + 1, nodes.len() as int);
    assert(values_of(nodes).len() == nodes.len());
    assert(w.len() == nodes.len() - ks.len());
    assert(new_nodes.len() == nodes.len() - ks.len() - 1);
    assert(values_of(new_nodes).len() == new_nodes.len());
    if kids[p as int].len() == 1 {
        let x = NodeValue::<B, L>::Leaf(leaf_payload(new_nodes[p as int]));
        assert(values_of(new_nodes) == w.update(p as int, x).remove(key as int));
        assert(w.update(p as int, x).len() == new_nodes.len() + 1);
        assert(values_of(new_nodes)[p as int] == w.update(p as int, x)[p as int]);
    } else {
        assert(values_of(new_nodes) == w.remove(key as int));
        assert(w.len() == new_nodes.len() + 1);
        assert(values_of(new_nodes)[p as int] == w[p as int]);
        assert(w.update(p as int, w[p as int]) =~= w);
    }
}

proof fn lemma_leaf_kept<B, L, F: FnOnce(B) -> L>(
    nodes: Seq<Node<B, L>>,
    kids: Seq<Seq<usize>>,
    key: usize,
    f: F,
    x: L,
    new_nodes: Seq<Node<B, L>>,
    new_kids: Seq<Seq<usize>>,
)
    requires
        parents_before(parents_of(nodes)),
        key < nodes.len(),
        nodes[key as int].parent is Some ==> nodes[parent_key(nodes, key) as int].value is Branch,
        leaf_removal_outcome(nodes, kids, key, |a: B, b: L| f.ensures((a,), b), Ok(x), new_nodes, new_kids),
    ensures
        parents_kept_below(parents_of(nodes), parents_of(new_nodes), key as int),
        values_kept_below(values_of(nodes), values_of(new_nodes), key as int, parent_key(nodes, key) as int, f),
{
    let p = parent_key(nodes, key);
    let values = values_of(nodes);
    let new_values = values_of(new_nodes);
    assert(values[p as int] == NodeValue::<B, L>::Branch(branch_payload(nodes[p as int])));
    assert forall|k: int| 0 <= k < key && k < nodes.len() implies #[trigger] parents_of(new_nodes)[k] == parents_of(
        nodes,
    )[k] by {
        assert(parents_of(nodes)[k] matches Some(q) ==> q < k);
    }
    assert forall|k: int| 0 <= k < key && k < values.len() implies kept_or_converted(
        values[k],
        #[trigger] new_values[k],
        k == p,
        f,
    ) by {}
}

/// Removing a branch with its leaf children keeps the parents and the payloads of the nodes
/// before it, but for a parent turned into a leaf.
proof fn lemma_branch_kept<B, L, F: FnOnce(B) -> L>(
    nodes: Seq<Node<B, L>>,
    kids: Seq<Seq<usize>>,
    key: usize,
    f: F,
    result: Result<(B, Vec<L>), TryRemoveBranchError>,
    new_nodes: Seq<Node<B, L>>,
    new_kids: Seq<Seq<usize>>,
)
    requires
        key < nodes.len(),
        nodes[key as int].parent is Some ==> nodes[parent_key(nodes, key) as int].value is Branch,
        result is Ok,
        branch_removal_outcome(nodes, kids, key, |a: B, b: L| f.ensures((a,), b), result, new_nodes, new_kids),
    ensures
        parents_kept_below(parents_of(nodes), parents_of(new_nodes), key as int),
        values_kept_below(values_of(nodes), values_of(new_nodes), key as int, parent_key(nodes, key) as int, f),
{
    let p = parent_key(nodes, key);
    let values = values_of(nodes);
    let new_values = values_of(new_nodes);
    let exempt = exempt_parent(kids, p);
    assert(values[p as int] == NodeValue::<B, L>::Branch(branch_payload(nodes[p as int])));
    assert(kept_at(nodes, new_nodes, p as int, exempt));
    assert(kept_at(nodes, new_nodes, key - 1, exempt));
    assert(new_values[p as int] == new_nodes[p as int].value.value_spec());
    assert forall|k: int| 0 <= k < key && k < nodes.len() implies #[trigger] parents_of(new_nodes)[k] == parents_of(
        nodes,
    )[k] by {
        assert(kept_at(nodes, new_nodes, k, exempt));
    }
    assert forall|k: int| 0 <= k < key && k < values.len() implies kept_or_converted(
        values[k],
        #[trigger] new_values[k],
        k == p,
        f,
    ) by {
        assert(kept_at(nodes, new_nodes, k, exempt));
    }
}

/// Removing the leaf children of a branch keeps the parents and the payloads of the nodes before
/// all of them, but for the branch itself, turned into a leaf.
proof fn lemma_children_kept<B, L, F: FnOnce(B) -> L>(
    nodes: Seq<Node<B, L>>,
    kids: Seq<Seq<usize>>,
    key: usize,
    f: F,
    result: Result<Vec<L>, TryRemoveChildrenError>,
    new_nodes: Seq<Node<B, L>>,
    new_kids: Seq<Seq<usize>>,
)
    requires
        key < nodes.len(),
        forall|t: int| 0 <= t < kids[key as int].len() ==> key < #[trigger] kids[key as int][t],
        result is Ok,
        children_removal_outcome(nodes, kids, key, |a: B, b: L| f.ensures((a,), b), result, new_nodes, new_kids),
    ensures
        forall|k: int| 0 <= k < nodes.len() && below_all(k, kids[key as int]) ==> #[trigger] kept_at(nodes, new_nodes, k, key as int),
        values_of(new_nodes)[key as int] is Leaf,
        kept_at(nodes, new_nodes, key as int, key as int),
{
    let ks = kids[key as int];
    let values = values_of(nodes);
    let new_values = values_of(new_nodes);
    assert(values[key as int] == NodeValue::<B, L>::Branch(branch_payload(nodes[key as int])));
    assert(below_all(key as int, ks));
    assert(kept_at(nodes, new_nodes, key as int, key as int));
    assert(new_values[key as int] == new_nodes[key as int].value.value_spec());
}

} // verus!
