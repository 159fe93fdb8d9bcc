//! Removing leaf children of a node, and a node together with its leaf children.
use vstd::prelude::*;
use crate::{NodeValue, TryRemoveChildrenError, TryRemoveBranchError};
use crate::shape::{parents_after_removal, kids_after_removal, keys_after_removal};
use crate::traversal::{position_of, is_first_branch_kid, all_leaves, leaf_payloads, values_without, parents_without, kids_without};
use super::node::{Node, NodeData, parents_of, values_of};
use super::base::{
    FreeformTree, branch_payload, leaf_payload, below_all, children_removal_outcome, parents_before, parent_key,
    sibling_removed, only_child_removed, branch_removed, kept_at, without_child,
};

verus! {

/// The payloads `removed`, followed by those of the leaves `rest`, are the payloads of the leaves
/// `ks` of an earlier version of the tree.
pub open spec fn payloads_split<B, L>(
    removed: Seq<L>,
    values: Seq<NodeValue<B, L>>,
    rest: Seq<usize>,
    old_values: Seq<NodeValue<B, L>>,
    ks: Seq<usize>,
) -> bool {
    removed + leaf_payloads(values, rest) == leaf_payloads(old_values, ks)
}

/// The nodes before every key of `ks` kept their parents, and their payloads but for the node
/// `exempt`.
#[verifier::opaque]
pub open spec fn region_kept<B, L>(
    old_nodes: Seq<Node<B, L>>,
    new_nodes: Seq<Node<B, L>>,
    ks: Seq<usize>,
    exempt: int,
) -> bool {
    forall|k: int| 0 <= k < old_nodes.len() && below_all(k, ks) ==> #[trigger] kept_at(old_nodes, new_nodes, k, exempt)
}


/// Every key before all keys of `ks` also comes before all keys of `rest`.
#[verifier::opaque]
pub open spec fn still_above(ks: Seq<usize>, rest: Seq<usize>) -> bool {
    forall|k: int| #[trigger] below_all(k, ks) ==> below_all(k, rest)
}

/// The parent `p` when it is left without children, which may change its payload, or no node.
pub open spec fn exempt_parent(kids: Seq<Seq<usize>>, p: usize) -> int {
    if kids[p as int].len() == 1 {
        p as int
    } else {
        -1
    }
}

/// The outcome of removing the branch `key` together with its leaf children; a parent left
/// without children becomes a leaf holding a payload which `conv` relates to its branch payload.
pub open spec fn branch_removal_outcome<B, L>(
    nodes: Seq<Node<B, L>>,
    kids: Seq<Seq<usize>>,
    key: usize,
    conv: spec_fn(B, L) -> bool,
    result: Result<(B, Vec<L>), TryRemoveBranchError>,
    new_nodes: Seq<Node<B, L>>,
    new_kids: Seq<Seq<usize>>,
) -> bool {
    let values = values_of(nodes);
    let ks = kids[key as int];
    let node = nodes[key as int];
    &&& (result == Err::<(B, Vec<L>), _>(TryRemoveBranchError::WasLeafNode) <==> node.value is Leaf)
    &&& (result == Err::<(B, Vec<L>), _>(TryRemoveBranchError::WasRootNode) <==> node.value is Branch
        && node.parent is None)
    &&& (result matches Err(TryRemoveBranchError::HadBranchChild(i)) ==> node.value is Branch && node.parent is Some
        && is_first_branch_kid(values, ks, i as int))
    &&& (result is Ok <==> node.value is Branch && node.parent is Some && all_leaves(values, ks))
    &&& result != Err::<(B, Vec<L>), _>(TryRemoveBranchError::CannotRemoveIndividualChildren)
    &&& (result is Err ==> new_nodes == nodes && new_kids == kids)
    &&& (result matches Ok((b, v)) ==> {
        let p = parent_key(nodes, key);
        let converts = kids[p as int].len() == 1;
        &&& b == branch_payload(node)
        &&& v@ == leaf_payloads(values, ks)
        &&& new_nodes.len() == nodes.len() - ks.len() - 1
        &&& p < key
        &&& converts ==> new_nodes[p as int].value is Leaf && conv(
            branch_payload(nodes[p as int]),
            leaf_payload(new_nodes[p as int]),
        )
        &&& forall|k: int| 0 <= k < key ==> #[trigger] kept_at(nodes, new_nodes, k, exempt_parent(kids, p))
        &&& converts ==> values_of(new_nodes) == values_without(values, ks).update(
            p as int,
            NodeValue::Leaf(leaf_payload(new_nodes[p as int])),
        ).remove(key as int)
        &&& !converts ==> values_of(new_nodes) == values_without(values, ks).remove(key as int)
        &&& parents_of(new_nodes) == parents_after_removal(parents_without(parents_of(nodes), ks), key)
        &&& new_kids == kids_after_removal(without_child(kids_without(kids, key, ks), p, key), key)
    })
}

impl<B, L> FreeformTree<B, L> {
    /// The position of the first branch among the nodes `cks`, if any.
    fn first_branch_among(&self, cks: &Vec<usize>) -> (r: Option<u32>)
        requires
            self.wf(),
            cks@.len() <= u32::MAX,
            forall|t: int| 0 <= t < cks@.len() ==> #[trigger] cks@[t] < self.nodes().len(),
        ensures
            match r {
                Some(i) => is_first_branch_kid(values_of(self.nodes()), cks@, i as int),
                None => all_leaves(values_of(self.nodes()), cks@),
            },
    {
        let mut i: usize = 0;
        while i < cks.len()
            invariant
                i <= cks@.len(),
                cks@.len() <= u32::MAX,
                forall|t: int| 0 <= t < cks@.len() ==> #[trigger] cks@[t] < self.nodes().len(),
                forall|t: int| 0 <= t < i ==> values_of(self.nodes())[#[trigger] cks@[t] as int] is Leaf,
            decreases cks@.len() - i,
        {
            if matches!(&self.node_at(cks[i]).value, NodeData::Branch { .. }) {
                return Some(i as u32);
            }
            i = i + 1;
        }
        None
    }

    /// Removes all but the last of the children of the branch `key`, which are all leaves,
    /// returning their payloads in order.
    #[verifier::rlimit(100)]
    fn remove_children_but_last(&mut self, key: usize, count: usize) -> (removed: Vec<L>)
        requires
            old(self).wf(),
            key < old(self).nodes().len(),
            old(self).nodes()[key as int].value is Branch,
            count == old(self).children_lists()[key as int].len(),
            all_leaves(values_of(old(self).nodes()), old(self).children_lists()[key as int]),
        ensures
            final(self).wf(),
            ({
                let nodes = old(self).nodes();
                let ks = old(self).children_lists()[key as int];
                let rest = final(self).children_lists()[key as int];
                &&& key < final(self).nodes().len()
                &&& final(self).nodes()[key as int].value is Branch
                &&& branch_payload(final(self).nodes()[key as int]) == branch_payload(nodes[key as int])
                &&& final(self).nodes()[key as int].parent == nodes[key as int].parent
                &&& rest.len() == 1
                &&& all_leaves(values_of(final(self).nodes()), rest)
                &&& payloads_split(removed@, values_of(final(self).nodes()), rest, values_of(nodes), ks)
                &&& final(self).nodes().len() == nodes.len() - (ks.len() - 1)
                &&& still_above(ks, rest)
                &&& region_kept(nodes, final(self).nodes(), ks, -1)
                &&& forall|x: int| 0 <= x < key ==> #[trigger] final(self).children_lists()[x].len()
                    == old(self).children_lists()[x].len()
                &&& values_without(values_of(nodes), ks) == values_without(values_of(final(self).nodes()), rest)
                &&& parents_without(parents_of(nodes), ks) == parents_without(parents_of(final(self).nodes()), rest)
                &&& kids_without(old(self).children_lists(), key, ks) == kids_without(
                    final(self).children_lists(),
                    key,
                    rest,
                )
            }),
    {
        let ghost nodes0 = self.nodes();
        let ghost kids0 = self.children_lists();
        let ghost ks0 = kids0[key as int];
        let ghost n0 = nodes0.len();
        proof {
            self.lemma_children(key);
        }
        let mut removed: Vec<L> = Vec::new();
        proof {
            assert(removed@ + leaf_payloads(values_of(nodes0), ks0) =~= leaf_payloads(values_of(nodes0), ks0));
            assert(payloads_split(removed@, values_of(nodes0), ks0, values_of(nodes0), ks0));
            reveal(region_kept);
            reveal(still_above);
            assert forall|t: int| 0 <= t < ks0.len() implies key < #[trigger] ks0[t] by {}
        }
        while removed.len() + 1 < count
            invariant
                self.wf(),
                key < self.nodes().len(),
                self.nodes()[key as int].value is Branch,
                branch_payload(self.nodes()[key as int]) == branch_payload(nodes0[key as int]),
                self.nodes()[key as int].parent == nodes0[key as int].parent,
                count == ks0.len(),
                count >= 1,
                removed@.len() < count,
                removed@.len() + self.children_lists()[key as int].len() == count,
                all_leaves(values_of(self.nodes()), self.children_lists()[key as int]),
                payloads_split(removed@, values_of(self.nodes()), self.children_lists()[key as int], values_of(nodes0), ks0),
                self.nodes().len() == n0 - removed@.len(),
                still_above(ks0, self.children_lists()[key as int]),
                region_kept(nodes0, self.nodes(), ks0, -1),
                forall|t: int| 0 <= t < ks0.len() ==> key < #[trigger] ks0[t],
                forall|x: int| 0 <= x < key ==> #[trigger] self.children_lists()[x].len() == kids0[x].len(),
                self.children_lists().len() == self.nodes().len(),
                values_without(values_of(nodes0), ks0) == values_without(
                    values_of(self.nodes()),
                    self.children_lists()[key as int],
                ),
                parents_without(parents_of(nodes0), ks0) == parents_without(
                    parents_of(self.nodes()),
                    self.children_lists()[key as int],
                ),
                kids_without(kids0, key, ks0) == kids_without(
                    self.children_lists(),
                    key,
                    self.children_lists()[key as int],
                ),
            decreases count - removed@.len(),
        {
            let ghost nodes = self.nodes();
            let ghost kids = self.children_lists();
            let ghost ks = kids[key as int];
            proof {
                self.lemma_children(key);
            }
            let first = match &self.node_at(key).value {
                NodeData::Branch { first_child, .. } => *first_child,
                NodeData::Leaf(_) => vstd::pervasive::unreached(),
            };
            proof {
                assert(values_of(nodes)[ks[0] as int] is Leaf);
                assert(nodes[ks[0] as int].parent == Some(key));
                assert(parent_key(nodes, first) == key);
            }
            let x = self.remove_leaf_among_siblings(first);
            proof {
                lemma_child_step(nodes0, ks0, nodes, kids, key, self.nodes(), self.children_lists(), removed@, x);
                assert(values_of(self.nodes())[key as int] == self.nodes()[key as int].value.value_spec());
                assert(values_of(nodes)[key as int] == nodes[key as int].value.value_spec());
                assert(parents_of(self.nodes())[key as int] == self.nodes()[key as int].parent);
            }
            removed.push(x);
        }
        proof {
            let rest = self.children_lists()[key as int];
            assert(rest.len() == 1);
            assert(self.nodes().len() == n0 - (ks0.len() - 1));
        }
        removed
    }

    /// Removes the leaf children of the branch `key` and turns it into a leaf holding the
    /// payload that `f` makes out of its branch payload. Returns the payloads of the children, in
    /// order.
    #[verifier::rlimit(100)]
    pub(crate) fn try_remove_children_at<F: FnOnce(B) -> L>(&mut self, key: usize, f: F) -> (result: Result<
        Vec<L>,
        TryRemoveChildrenError,
    >)
        requires
            old(self).wf(),
            key < old(self).nodes().len(),
            old(self).children_lists()[key as int].len() <= u32::MAX,
            old(self).nodes()[key as int].value is Branch ==> f.requires((branch_payload(old(self).nodes()[key as int]),)),
        ensures
            final(self).wf(),
            children_removal_outcome(
                old(self).nodes(),
                old(self).children_lists(),
                key,
                |x: B, y: L| f.ensures((x,), y),
                result,
                final(self).nodes(),
                final(self).children_lists(),
            ),
    {
        if matches!(&self.node_at(key).value, NodeData::Leaf(_)) {
            return Err(TryRemoveChildrenError::WasLeafNode);
        }
        let ghost nodes0 = self.nodes();
        let ghost kids0 = self.children_lists();
        let ghost ks0 = kids0[key as int];
        let cks = self.children_keys_at(key);
        proof {
            self.lemma_children(key);
            lemma_distinct_keys_bound(ks0, key as int + 1, nodes0.len() as int);
        }
        match self.first_branch_among(&cks) {
            Some(i) => {
                return Err(TryRemoveChildrenError::HadBranchChild(i));
            },
            None => {},
        }
        let count = cks.len();
        let mut removed = self.remove_children_but_last(key, count);
        let ghost nodes1 = self.nodes();
        let ghost kids1 = self.children_lists();
        proof {
            self.lemma_children(key);
        }
        let last = match &self.node_at(key).value {
            NodeData::Branch { first_child, .. } => *first_child,
            NodeData::Leaf(_) => vstd::pervasive::unreached(),
        };
        proof {
            assert(values_of(nodes1)[kids1[key as int][0] as int] is Leaf);
            assert(kids1[key as int] =~= seq![last]);
            assert(values_of(nodes1)[last as int] == nodes1[last as int].value.value_spec());
        }
        let ghost before = removed@;
        proof {
            assert(nodes1[last as int].parent == Some(key));
            assert(parent_key(nodes1, last) == key);
        }
        let x = self.remove_only_leaf(last, f);
        proof {
            assert(key < last) by {
                assert(kids1[key as int][0] == last);
            }
            lemma_last_child(nodes0, ks0, kids0, nodes1, kids1, key, last, self.nodes(), self.children_lists(), before, x);
            reveal(region_kept);
        }
        removed.push(x);
        Ok(removed)
    }

    /// Removes the branch `key` together with its leaf children, returning its payload and
    /// theirs, in order. If it was the only child of its parent, the parent becomes a leaf holding
    /// the payload that `f` makes out of its branch payload.
    pub(crate) fn try_remove_branch_at<F: FnOnce(B) -> L>(&mut self, key: usize, f: F) -> (result: Result<
        (B, Vec<L>),
        TryRemoveBranchError,
    >)
        requires
            old(self).wf(),
            key < old(self).nodes().len(),
            old(self).children_lists()[key as int].len() <= u32::MAX,
            old(self).nodes()[key as int].parent is Some ==> f.requires(
                (branch_payload(old(self).nodes()[parent_key(old(self).nodes(), key) as int]),),
            ),
        ensures
            final(self).wf(),
            branch_removal_outcome(
                old(self).nodes(),
                old(self).children_lists(),
                key,
                |x: B, y: L| f.ensures((x,), y),
                result,
                final(self).nodes(),
                final(self).children_lists(),
            ),
    {
        if matches!(&self.node_at(key).value, NodeData::Leaf(_)) {
            return Err(TryRemoveBranchError::WasLeafNode);
        }
        let p = match self.node_at(key).parent {
            Some(p) => p,
            None => return Err(TryRemoveBranchError::WasRootNode),
        };
        let ghost nodes0 = self.nodes();
        let ghost kids0 = self.children_lists();
        let ghost ks0 = kids0[key as int];
        let cks = self.children_keys_at(key);
        proof {
            self.lemma_children(key);
            lemma_distinct_keys_bound(ks0, key as int + 1, nodes0.len() as int);
        }
        match self.first_branch_among(&cks) {
            Some(i) => {
                return Err(TryRemoveBranchError::HadBranchChild(i));
            },
            None => {},
        }
        let count = cks.len();
        let mut removed = self.remove_children_but_last(key, count);
        let ghost nodes1 = self.nodes();
        let ghost kids1 = self.children_lists();
        proof {
            self.lemma_children(key);
            self.lemma_children(p);
            reveal(region_kept);
            assert(below_all(p as int, ks0));
            let c = kids1[key as int][0];
            assert forall|t: int| 0 <= t < kids1[p as int].len() implies #[trigger] kids1[p as int][t] != c by {
                assert(nodes1[kids1[p as int][t] as int].parent == Some(p));
            }
            assert(kept_at(nodes0, nodes1, p as int, -1));
            assert(values_of(nodes1)[p as int] == nodes1[p as int].value.value_spec());
            assert(values_of(nodes0)[p as int] == nodes0[p as int].value.value_spec());
            assert(kids1[key as int] =~= seq![kids1[key as int][0]]);
            assert(values_of(nodes1)[kids1[key as int][0] as int] == nodes1[kids1[key as int][0] as int].value.value_spec());
        }
        let ghost before = removed@;
        let (b, x) = self.remove_branch_with_one_leaf(key, f);
        removed.push(x);
        proof {
            lemma_branch_step(nodes0, kids0, nodes1, kids1, key, self.nodes(), self.children_lists(), before, x);
            lemma_branch_exact(nodes0, kids0, nodes1, kids1, key, self.nodes(), self.children_lists());
        }
        Ok((b, removed))
    }
}

/// What removing the branch `key`, whose only remaining child is a leaf, together with that child
/// changes: the payloads of all the children have been collected, and the nodes before the branch
/// are kept, but for a parent turned into a leaf.
proof fn lemma_branch_step<B, L>(
    nodes0: Seq<Node<B, L>>,
    kids0: Seq<Seq<usize>>,
    nodes1: Seq<Node<B, L>>,
    kids1: Seq<Seq<usize>>,
    key: usize,
    nodes2: Seq<Node<B, L>>,
    kids2: Seq<Seq<usize>>,
    before: Seq<L>,
    x: L,
)
    requires
        parents_before(parents_of(nodes1)),
        kids1.len() == nodes1.len(),
        key < nodes1.len(),
        kids1[key as int].len() == 1,
        kids1[key as int][0] < nodes1.len(),
        nodes1[kids1[key as int][0] as int].value is Leaf,
        x == leaf_payload(nodes1[kids1[key as int][0] as int]),
        branch_removed(nodes1, kids1, key, nodes2, kids2),
        payloads_split(before, values_of(nodes1), kids1[key as int], values_of(nodes0), kids0[key as int]),
        region_kept(nodes0, nodes1, kids0[key as int], -1),
        forall|t: int| 0 <= t < kids0[key as int].len() ==> key < #[trigger] kids0[key as int][t],
        nodes1.len() == nodes0.len() - (kids0[key as int].len() - 1),
        kids1[parent_key(nodes1, key) as int].len() == kids0[parent_key(nodes1, key) as int].len(),
    ensures
        before.push(x) == leaf_payloads(values_of(nodes0), kids0[key as int]),
        nodes2.len() == nodes0.len() - kids0[key as int].len() - 1,
        forall|k: int|
            0 <= k < key ==> #[trigger] kept_at(nodes0, nodes2, k, exempt_parent(kids0, parent_key(nodes1, key))),
{
    reveal(region_kept);
    let c = kids1[key as int][0];
    let p = parent_key(nodes1, key);
    let v1 = values_of(nodes1);
    assert(v1[c as int] == NodeValue::<B, L>::Leaf(x));
    assert(leaf_payloads(v1, kids1[key as int]) =~= seq![x]);
    assert(before.push(x) =~= leaf_payloads(values_of(nodes0), kids0[key as int]));
    assert(parents_of(nodes2).len() == nodes2.len());
    let conv_values = if kids1[p as int].len() == 1 {
        v1.update(p as int, nodes2[p as int].value.value_spec())
    } else {
        v1
    };
    lemma_prefix_kept(parents_of(nodes1), conv_values, c);
    let mid_parents = parents_after_removal(parents_of(nodes1), c);
    assert forall|k: int| 0 <= k < key implies (#[trigger] mid_parents[k] matches Some(q) ==> q < k) by {
        assert(parents_of(nodes1)[k] matches Some(q) ==> q < k);
    }
    lemma_prefix_kept(mid_parents, conv_values.remove(c as int), key);
    let exempt = exempt_parent(kids0, p);
    assert forall|k: int| 0 <= k < key implies #[trigger] kept_at(nodes0, nodes2, k, exempt) by {
        assert(below_all(k, kids0[key as int]));
        assert(kept_at(nodes0, nodes1, k, -1));
        assert(k < c);
    }
}

/// The tree after the branch `key`, whose only remaining child `c` is a leaf, has been removed
/// together with that child is the tree with all the children the branch had at first removed,
/// and then the branch itself.
proof fn lemma_branch_exact<B, L>(
    nodes0: Seq<Node<B, L>>,
    kids0: Seq<Seq<usize>>,
    nodes1: Seq<Node<B, L>>,
    kids1: Seq<Seq<usize>>,
    key: usize,
    nodes2: Seq<Node<B, L>>,
    kids2: Seq<Seq<usize>>,
)
    requires
        kids1.len() == nodes1.len(),
        key < nodes1.len(),
        kids1[key as int].len() == 1,
        key < kids1[key as int][0] < nodes1.len(),
        branch_removed(nodes1, kids1, key, nodes2, kids2),
        kids1[parent_key(nodes1, key) as int].no_duplicates(),
        forall|t: int|
            0 <= t < kids1[parent_key(nodes1, key) as int].len() ==> #[trigger] kids1[parent_key(nodes1, key) as int][t]
                != kids1[key as int][0],
        kids1[parent_key(nodes1, key) as int].len() == kids0[parent_key(nodes1, key) as int].len(),
        values_without(values_of(nodes0), kids0[key as int]) == values_without(values_of(nodes1), kids1[key as int]),
        parents_without(parents_of(nodes0), kids0[key as int]) == parents_without(parents_of(nodes1), kids1[key as int]),
        kids_without(kids0, key, kids0[key as int]) == kids_without(kids1, key, kids1[key as int]),
    ensures
        ({
            let p = parent_key(nodes1, key);
            let ks0 = kids0[key as int];
            &&& kids0[p as int].len() == 1 ==> values_of(nodes2) == values_without(values_of(nodes0), ks0).update(
                p as int,
                NodeValue::Leaf(leaf_payload(nodes2[p as int])),
            ).remove(key as int)
            &&& kids0[p as int].len() != 1 ==> values_of(nodes2) == values_without(values_of(nodes0), ks0).remove(
                key as int,
            )
            &&& parents_of(nodes2) == parents_after_removal(parents_without(parents_of(nodes0), ks0), key)
            &&& kids2 == kids_after_removal(without_child(kids_without(kids0, key, ks0), p, key), key)
        }),
{
    let c = kids1[key as int][0];
    let p = parent_key(nodes1, key);
    let ksp = kids1[p as int];
    let j = position_of(ksp, key);
    let single = kids1[key as int];
    let v1 = values_of(nodes1);
    assert(single =~= seq![c]);
    assert(single.drop_first() =~= Seq::<usize>::empty());
    assert(keys_after_removal(single.drop_first(), c) =~= Seq::<usize>::empty());
    assert(values_without(v1, single) == v1.remove(c as int)) by {
        reveal_with_fuel(values_without, 2);
    }
    assert(parents_without(parents_of(nodes1), single) == parents_after_removal(parents_of(nodes1), c)) by {
        reveal_with_fuel(parents_without, 2);
    }
    let big_k = kids_after_removal(kids1.update(key as int, Seq::<usize>::empty()), c).update(
        key as int,
        Seq::<usize>::empty(),
    );
    assert(kids_without(kids1, key, single) == big_k) by {
        reveal_with_fuel(kids_without, 2);
    }
    if ksp.len() == 1 {
        let v = nodes2[p as int].value.value_spec();
        assert(v == NodeValue::<B, L>::Leaf(leaf_payload(nodes2[p as int])));
        assert(v1.update(p as int, v).remove(c as int) =~= v1.remove(c as int).update(p as int, v));
    }
    // The parent's list of children after the removal of `c` still has the branch at position `j`.
    let kp = big_k[p as int];
    assert(kp == keys_after_removal(ksp, c));
    assert(kp[j] == key);
    let j2 = position_of(kp, key);
    assert(kp.contains(key));
    assert(j2 == j) by {
        assert(kp[j2] == key);
        assert(ksp[j2] != c);
        assert(ksp[j2] == key);
    }
    assert(kp.remove(j) =~= keys_after_removal(ksp.remove(j), c));
    let w = without_child(big_k, p, key);
    let a = kids1.update(p as int, ksp.remove(j));
    let m = kids_after_removal(a, c);
    assert forall|x: int| 0 <= x < m.len() && x != key implies #[trigger] w[x] == m[x] by {
        let o = crate::shape::key_before_removal(x, c as int);
        if x != p {
            assert(o != key);
            assert(o != p);
        }
    }
    assert(w.len() == m.len());
    assert(kids_after_removal(w, key) =~= kids_after_removal(m, key)) by {
        assert forall|y: int| 0 <= y < kids_after_removal(m, key).len() implies kids_after_removal(w, key)[y]
            == kids_after_removal(m, key)[y] by {
            let o = crate::shape::key_before_removal(y, key as int);
            assert(o != key);
            assert(w[o] == m[o]);
        }
    }
}

/// What removing the last of the leaf children of the branch `key` changes: the payloads of
/// all the children have been collected, and the nodes before them are kept, the branch itself
/// turned into a leaf.
proof fn lemma_last_child<B, L>(
    nodes0: Seq<Node<B, L>>,
    ks0: Seq<usize>,
    kids0: Seq<Seq<usize>>,
    nodes1: Seq<Node<B, L>>,
    kids1: Seq<Seq<usize>>,
    key: usize,
    last: usize,
    nodes2: Seq<Node<B, L>>,
    kids2: Seq<Seq<usize>>,
    before: Seq<L>,
    x: L,
)
    requires
        parents_before(parents_of(nodes1)),
        kids1.len() == nodes1.len(),
        key < last < nodes1.len(),
        kids1[key as int] == seq![last],
        parent_key(nodes1, last) == key,
        only_child_removed(nodes1, kids1, last, nodes2, kids2),
        x == leaf_payload(nodes1[last as int]),
        nodes1[last as int].value is Leaf,
        payloads_split(before, values_of(nodes1), kids1[key as int], values_of(nodes0), ks0),
        region_kept(nodes0, nodes1, ks0, -1),
        still_above(ks0, kids1[key as int]),
        nodes1.len() == nodes0.len() - (ks0.len() - 1),
        values_without(values_of(nodes0), ks0) == values_without(values_of(nodes1), kids1[key as int]),
        parents_without(parents_of(nodes0), ks0) == parents_without(parents_of(nodes1), kids1[key as int]),
        kids_without(kids0, key, ks0) == kids_without(kids1, key, kids1[key as int]),
        kids1[key as int] == seq![last],
    ensures
        values_of(nodes2) == values_without(values_of(nodes0), ks0).update(
            key as int,
            NodeValue::Leaf(leaf_payload(nodes2[key as int])),
        ),
        parents_of(nodes2) == parents_without(parents_of(nodes0), ks0),
        kids2 == kids_without(kids0, key, ks0),
        before.push(x) == leaf_payloads(values_of(nodes0), ks0),
        kids2[key as int] == Seq::<usize>::empty(),
        nodes2.len() == nodes0.len() - ks0.len(),
        region_kept(nodes0, nodes2, ks0, key as int),
{
    let single = seq![last];
    assert(single.drop_first() =~= Seq::<usize>::empty());
    assert(keys_after_removal(single.drop_first(), last) =~= Seq::<usize>::empty());
    assert(values_without(values_of(nodes1), single) == values_of(nodes1).remove(last as int)) by {
        reveal_with_fuel(values_without, 2);
    }
    assert(parents_without(parents_of(nodes1), single) == parents_after_removal(parents_of(nodes1), last)) by {
        reveal_with_fuel(parents_without, 2);
    }
    assert(kids_without(kids1, key, single) == kids_after_removal(kids1.update(key as int, Seq::<usize>::empty()), last).update(
        key as int,
        Seq::<usize>::empty(),
    )) by {
        reveal_with_fuel(kids_without, 2);
    }
    assert(nodes2[key as int].value.value_spec() == NodeValue::<B, L>::Leaf(leaf_payload(nodes2[key as int])));
    assert(values_of(nodes2) =~= values_of(nodes1).remove(last as int).update(
        key as int,
        NodeValue::Leaf(leaf_payload(nodes2[key as int])),
    ));
    assert(kids2[key as int] =~= Seq::<usize>::empty());
    assert(kids2.update(key as int, Seq::<usize>::empty()) =~= kids2);
    reveal(region_kept);
    reveal(still_above);
    let v1 = values_of(nodes1);
    assert(v1[last as int] == NodeValue::<B, L>::Leaf(x));
    assert(leaf_payloads(v1, kids1[key as int]) =~= seq![x]);
    assert(before.push(x) =~= leaf_payloads(values_of(nodes0), ks0));
    assert(kids2[key as int] =~= Seq::<usize>::empty());
    assert(parents_of(nodes2).len() == nodes2.len());
    lemma_prefix_kept(parents_of(nodes1), v1.update(key as int, nodes2[key as int].value.value_spec()), last);
    assert forall|k: int| 0 <= k < nodes0.len() && below_all(k, ks0) implies #[trigger] kept_at(
        nodes0,
        nodes2,
        k,
        key as int,
    ) by {
        assert(below_all(k, kids1[key as int]));
        assert(kids1[key as int][0] == last);
        assert(kept_at(nodes0, nodes1, k, -1));
    }
}

/// What removing the first of the leaf children of the branch `key` changes: its payload joins
/// those removed before, and the nodes before all the children are kept.
proof fn lemma_child_step<B, L>(
    nodes0: Seq<Node<B, L>>,
    ks0: Seq<usize>,
    nodes: Seq<Node<B, L>>,
    kids: Seq<Seq<usize>>,
    key: usize,
    new_nodes: Seq<Node<B, L>>,
    new_kids: Seq<Seq<usize>>,
    removed: Seq<L>,
    x: L,
)
    requires
        parents_before(parents_of(nodes)),
        kids.len() == nodes.len(),
        key < nodes.len(),
        kids[key as int].len() > 1,
        kids[key as int].no_duplicates(),
        forall|t: int| 0 <= t < kids[key as int].len() ==> key < #[trigger] kids[key as int][t] < nodes.len(),
        all_leaves(values_of(nodes), kids[key as int]),
        parent_key(nodes, kids[key as int][0]) == key,
        sibling_removed(nodes, kids, kids[key as int][0], new_nodes, new_kids),
        x == leaf_payload(nodes[kids[key as int][0] as int]),
        payloads_split(removed, values_of(nodes), kids[key as int], values_of(nodes0), ks0),
        region_kept(nodes0, nodes, ks0, -1),
        still_above(ks0, kids[key as int]),
    ensures
        ({
            let ks = kids[key as int];
            let rest = new_kids[key as int];
            &&& rest.len() == ks.len() - 1
            &&& all_leaves(values_of(new_nodes), rest)
            &&& payloads_split(removed.push(x), values_of(new_nodes), rest, values_of(nodes0), ks0)
            &&& region_kept(nodes0, new_nodes, ks0, -1)
            &&& still_above(ks0, rest)
            &&& new_nodes.len() == nodes.len() - 1
            &&& values_of(new_nodes)[key as int] == values_of(nodes)[key as int]
            &&& parents_of(new_nodes)[key as int] == parents_of(nodes)[key as int]
            &&& forall|x: int| 0 <= x < key ==> #[trigger] new_kids[x].len() == kids[x].len()
            &&& new_kids.len() == new_nodes.len()
            &&& values_without(values_of(nodes), ks) == values_without(values_of(new_nodes), rest)
            &&& parents_without(parents_of(nodes), ks) == parents_without(parents_of(new_nodes), rest)
            &&& kids_without(kids, key, ks) == kids_without(new_kids, key, rest)
        }),
{
    let ks = kids[key as int];
    let first = ks[0];
    let j = position_of(ks, first);
    assert(j == 0) by {
        assert(ks[j] == ks[0]);
    }
    let rest = new_kids[key as int];
    assert(values_of(new_nodes).len() == new_nodes.len());
    assert(rest == keys_after_removal(ks.remove(0), first));
    assert(ks.remove(0) =~= ks.drop_first());
    assert forall|t: int| 0 <= t < ks.len() implies #[trigger] ks[t] < values_of(nodes).len() by {}
    lemma_first_child_removed(values_of(nodes), ks, values_of(new_nodes), rest);
    lemma_prefix_kept(parents_of(nodes), values_of(nodes), first);
    assert(removed.push(x) + leaf_payloads(values_of(new_nodes), rest) =~= removed + leaf_payloads(values_of(nodes), ks));
    reveal(region_kept);
    reveal(still_above);
    assert forall|k: int| #[trigger] below_all(k, ks0) implies below_all(k, rest) by {
        assert(below_all(k, ks));
    }
    assert forall|k: int| 0 <= k < nodes0.len() && below_all(k, ks0) implies #[trigger] kept_at(
        nodes0,
        new_nodes,
        k,
        -1,
    ) by {
        assert(below_all(k, ks));
        assert(k < ks[0]);
        assert(kept_at(nodes0, nodes, k, -1));
    }
    assert(below_all(key as int, ks));
    assert(parents_of(new_nodes).len() == new_nodes.len());
}

/// Removing the first of the leaves `ks` takes its payload off the front of their payloads, and
/// keeps the others in order.
proof fn lemma_first_child_removed<B, L>(values: Seq<NodeValue<B, L>>, ks: Seq<usize>, nv: Seq<NodeValue<B, L>>, rest: Seq<usize>)
    requires
        ks.len() > 1,
        ks.no_duplicates(),
        forall|t: int| 0 <= t < ks.len() ==> #[trigger] ks[t] < values.len(),
        all_leaves(values, ks),
        nv == values.remove(ks[0] as int),
        rest == keys_after_removal(ks.remove(0), ks[0]),
    ensures
        leaf_payloads(values, ks) == seq![values[ks[0] as int]->Leaf_0] + leaf_payloads(nv, rest),
        all_leaves(nv, rest),
        rest.len() == ks.len() - 1,
        forall|k: int| #[trigger] below_all(k, ks) ==> below_all(k, rest),
{
    let first = ks[0];
    assert forall|t: int| 0 <= t < rest.len() implies nv[#[trigger] rest[t] as int] == values[ks[t + 1] as int] by {
        assert(ks[t + 1] != ks[0]);
        assert(ks.remove(0)[t] == ks[t + 1]);
    }
    assert(leaf_payloads(values, ks) =~= seq![values[first as int]->Leaf_0] + leaf_payloads(nv, rest));
    assert forall|t: int| 0 <= t < rest.len() implies nv[#[trigger] rest[t] as int] is Leaf by {
        assert(nv[rest[t] as int] == values[ks[t + 1] as int]);
        assert(values[ks[t + 1] as int] is Leaf);
    }
    assert forall|k: int| #[trigger] below_all(k, ks) implies below_all(k, rest) by {
        assert forall|t: int| 0 <= t < rest.len() implies k < #[trigger] rest[t] by {
            assert(ks[t + 1] != ks[0]);
            assert(ks.remove(0)[t] == ks[t + 1]);
            assert(k < ks[t + 1]);
            assert(k < ks[0]);
        }
    }
}

/// Removing the node `r` keeps the parents and the payloads of the nodes before it.
proof fn lemma_prefix_kept<B, L>(parents: Seq<Option<usize>>, values: Seq<NodeValue<B, L>>, r: usize)
    requires
        forall|k: int| 0 <= k < r ==> (#[trigger] parents[k] matches Some(q) ==> q < k),
        r < parents.len(),
        values.len() == parents.len(),
    ensures
        forall|k: int|
            0 <= k < r ==> #[trigger] parents_after_removal(parents, r)[k] == parents[k] && values.remove(
                r as int,
            )[k] == values[k],
{
    assert forall|k: int| 0 <= k < r implies #[trigger] parents_after_removal(parents, r)[k] == parents[k] && values.remove(
        r as int,
    )[k] == values[k] by {
        assert(parents[k] matches Some(q) ==> q < k);
    }
}

/// Distinct keys within `lo..hi` are at most `hi - lo` many.
pub(crate) proof fn lemma_distinct_keys_bound(ks: Seq<usize>, lo: int, hi: int)
    requires
        ks.no_duplicates(),
        lo <= hi,
        forall|t: int| 0 <= t < ks.len() ==> lo <= #[trigger] ks[t] < hi,
    ensures
        ks.len() <= hi - lo,
{
    let ki = ks.map_values(|k: usize| k as int);
    assert forall|a: int, b: int| 0 <= a < ki.len() && 0 <= b < ki.len() && a != b implies ki[a] != ki[b] by {
        assert(ks[a] != ks[b]);
    }
    assert(ki.no_duplicates());
    ki.unique_seq_to_set();
    let range = vstd::set_lib::set_int_range(lo, hi);
    vstd::set_lib::lemma_int_range(lo, hi);
    assert forall|x: int| ki.to_set().contains(x) implies range.contains(x) by {
        let t = choose|t: int| 0 <= t < ki.len() && ki[t] == x;
        assert(lo <= ks[t] < hi);
    }
    vstd::set_lib::lemma_len_subset(ki.to_set(), range);
}

} // verus!
