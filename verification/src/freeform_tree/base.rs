use vstd::prelude::*;
use vstd::string::*;
use crate::{NodeValue, MakeBranchError, TryRemoveLeafError, TryRemoveChildrenError, TryRemoveBranchError};
use crate::shape::{
    shape_wf, lemma_attach_leaf, kid_ok, parent_ok, lemma_detach, parents_after_removal,
    kids_after_removal,
};
use crate::storage::ListStorage;
use crate::shape::{pending_after_removal, key_before_removal};
use super::node::{
    Node, NodeData, parents_of, values_of, freeform_wf, freeform_partial, links_ok, prev_in, next_in,
    removed_and_fixed, lemma_remove_pending_freeform, lemma_removed_and_fixed_parents,
};
use super::unlink::{family, unlinked, made_leaf, lemma_unlink, lemma_only_child};
use super::node_ref::{NodeRef, NodeRefMut};
use crate::traversal::{position_of, is_first_branch_kid, all_leaves, leaf_payloads, values_without, parents_without, kids_without};
use crate::shape::{key_after_removal, keys_after_removal};

verus! {

/// The error type returned by [`try_push_back`] and [`try_push_front`] when they are attempted at
/// a leaf node.
///
/// [`try_push_back`]: super::NodeRefMut::try_push_back
/// [`try_push_front`]: super::NodeRefMut::try_push_front
#[derive(Copy, Clone, Debug, Default, Hash)]
pub struct TryPushError<T> {
    /// The value of the child node which was attempted to be added, returned back to the caller to
    /// avoid dropping it.
    pub child_payload: T,
}

impl<T> TryPushError<T> {
    /// Describes the error.
    pub fn to_string(&self) -> (r: String)
        ensures
            r@ == "try_push_back or try_push_front was attempted at a leaf node"@,
    {
        String::from_str("try_push_back or try_push_front was attempted at a leaf node")
    }
}

/// A freeform tree, storing its nodes in a `Vec`.
///
/// The key of a node is its index in the `Vec`. Removing nodes moves the nodes after them down to
/// close the gap, so keys are renumbered and a key taken before a removal may name another node
/// afterwards.
#[derive(Clone)]
pub struct FreeformTree<B, L = B> {
    storage: Vec<Node<B, L>>,
    root: usize,
    kids: Ghost<Seq<Seq<usize>>>,
}

/// The keys `start`, `start + 1`, ..., `count` of them.
pub open spec fn key_range(start: nat, count: nat) -> Seq<usize> {
    Seq::new(count, |j: int| (start + j) as usize)
}

/// The new leaves holding `children`, children of the node `key`, linked as siblings in order.
pub open spec fn new_children<B, L>(key: usize, first: nat, children: Seq<L>) -> Seq<Node<B, L>> {
    Seq::new(
        children.len(),
        |j: int| Node {
            value: NodeData::Leaf(children[j]),
            parent: Some(key),
            prev_sibling: prev_in(key_range(first, children.len()), j),
            next_sibling: next_in(key_range(first, children.len()), j),
        },
    )
}

/// The leaf payload of a node, if it is a leaf.
pub open spec fn leaf_payload<B, L>(node: Node<B, L>) -> L {
    node.value->Leaf_0
}

/// The branch payload of a node, if it is a branch.
pub open spec fn branch_payload<B, L>(node: Node<B, L>) -> B {
    node.value->Branch_payload
}

/// The key of the parent of the node `key`, if it has one.
pub open spec fn parent_key<B, L>(nodes: Seq<Node<B, L>>, key: usize) -> usize {
    nodes[key as int].parent->Some_0
}

/// The outcome of adding a new leaf holding `payload` as the last (`back`) or the first child of
/// the node `key`, which must be a branch.
pub open spec fn push_outcome<B, L>(
    nodes: Seq<Node<B, L>>,
    kids: Seq<Seq<usize>>,
    key: usize,
    payload: L,
    back: bool,
    result: Result<(), TryPushError<L>>,
    new_nodes: Seq<Node<B, L>>,
    new_kids: Seq<Seq<usize>>,
) -> bool {
    &&& (result is Ok <==> nodes[key as int].value is Branch)
    &&& (result matches Err(e) ==> e.child_payload == payload && new_nodes == nodes && new_kids == kids)
    &&& (result is Ok ==> {
        &&& new_kids == kids.push(Seq::empty()).update(key as int, pushed_kids(kids[key as int], nodes.len() as usize, back))
        &&& parents_of(new_nodes) == parents_of(nodes).push(Some(key))
        &&& values_of(new_nodes) == values_of(nodes).push(NodeValue::<B, L>::Leaf(payload))
    })
}

/// The outcome of turning the leaf `key` into a branch whose payload `conv` relates to its leaf
/// payload, with new leaf children holding `children`, in order, at the end of the storage.
pub open spec fn branch_made_outcome<B, L>(
    nodes: Seq<Node<B, L>>,
    kids: Seq<Seq<usize>>,
    key: usize,
    children: Seq<L>,
    conv: spec_fn(L, B) -> bool,
    result: Result<(), MakeBranchError<L, Vec<L>>>,
    new_nodes: Seq<Node<B, L>>,
    new_kids: Seq<Seq<usize>>,
) -> bool {
    &&& (result is Ok <==> nodes[key as int].value is Leaf)
    &&& (result matches Err(e) ==> e.packed_children@ == children && new_nodes == nodes && new_kids == kids)
    &&& (result is Ok && children.len() == 0 ==> new_nodes == nodes && new_kids == kids)
    &&& (result is Ok && children.len() > 0 ==> {
        let n = nodes.len();
        let payload = branch_payload(new_nodes[key as int]);
        &&& conv(leaf_payload(nodes[key as int]), payload)
        &&& new_nodes == nodes.update(
            key as int,
            Node {
                value: NodeData::Branch {
                    payload,
                    first_child: n as usize,
                    last_child: (n + children.len() - 1) as usize,
                },
                ..nodes[key as int]
            },
        ) + new_children::<B, L>(key, n, children)
        &&& new_kids == kids.update(key as int, key_range(n, children.len())) + Seq::new(
            children.len(),
            |j: int| Seq::<usize>::empty(),
        )
    })
}

/// Removing the leaf `key` leaves its parent without children.
pub open spec fn removal_converts_parent<B, L>(nodes: Seq<Node<B, L>>, kids: Seq<Seq<usize>>, key: usize) -> bool {
    &&& nodes[key as int].value is Leaf
    &&& nodes[key as int].parent is Some
    &&& kids[parent_key(nodes, key) as int].len() == 1
}

/// The lists of children after the node `key` has been taken out of the list of children of `p`.
pub open spec fn without_child(kids: Seq<Seq<usize>>, p: usize, key: usize) -> Seq<Seq<usize>> {
    kids.update(p as int, kids[p as int].remove(position_of(kids[p as int], key)))
}

/// The tree after the leaf `key`, which has siblings, has been removed: the keys after it are
/// renumbered, and its siblings close the gap it leaves in their list.
pub open spec fn sibling_removed<B, L>(
    nodes: Seq<Node<B, L>>,
    kids: Seq<Seq<usize>>,
    key: usize,
    new_nodes: Seq<Node<B, L>>,
    new_kids: Seq<Seq<usize>>,
) -> bool {
    let p = parent_key(nodes, key);
    let ks = kids[p as int];
    let j = position_of(ks, key);
    &&& p < key
    &&& 0 <= j < ks.len()
    &&& ks[j] == key
    &&& parents_of(new_nodes) == parents_after_removal(parents_of(nodes), key)
    &&& values_of(new_nodes) == values_of(nodes).remove(key as int)
    &&& new_kids == kids_after_removal(kids.update(p as int, ks.remove(j)), key)
}

/// The tree after the leaf `key`, the only child of its parent, has been removed: the keys after
/// it are renumbered, and the parent is a leaf now.
pub open spec fn only_child_removed<B, L>(
    nodes: Seq<Node<B, L>>,
    kids: Seq<Seq<usize>>,
    key: usize,
    new_nodes: Seq<Node<B, L>>,
    new_kids: Seq<Seq<usize>>,
) -> bool {
    let p = parent_key(nodes, key);
    &&& p < key
    &&& kids[p as int] == seq![key]
    &&& new_nodes[p as int].value is Leaf
    &&& parents_of(new_nodes) == parents_after_removal(parents_of(nodes), key)
    &&& values_of(new_nodes) == values_of(nodes).update(p as int, new_nodes[p as int].value.value_spec()).remove(
        key as int,
    )
    &&& new_kids == kids_after_removal(kids.update(p as int, Seq::empty()), key)
}

/// The tree after the branch `key`, whose only child is a leaf, has been removed together with
/// that child: the keys after them are renumbered, the siblings of the branch close the gap it
/// leaves, and a parent left without children is a leaf now.
pub open spec fn branch_removed<B, L>(
    nodes: Seq<Node<B, L>>,
    kids: Seq<Seq<usize>>,
    key: usize,
    new_nodes: Seq<Node<B, L>>,
    new_kids: Seq<Seq<usize>>,
) -> bool {
    let p = parent_key(nodes, key);
    let c = kids[key as int][0];
    let ks = kids[p as int];
    let j = position_of(ks, key);
    &&& p < key < c
    &&& 0 <= j < ks.len()
    &&& ks[j] == key
    &&& parents_of(new_nodes) == parents_after_removal(parents_after_removal(parents_of(nodes), c), key)
    &&& new_kids == kids_after_removal(kids_after_removal(kids.update(p as int, ks.remove(j)), c), key)
    &&& ks.len() == 1 ==> {
        &&& new_nodes[p as int].value is Leaf
        &&& values_of(new_nodes) == values_of(nodes).update(p as int, new_nodes[p as int].value.value_spec()).remove(
            c as int,
        ).remove(key as int)
    }
    &&& ks.len() != 1 ==> values_of(new_nodes) == values_of(nodes).remove(c as int).remove(key as int)
}

/// Every node comes after its parent.
pub open spec fn parents_before(parents: Seq<Option<usize>>) -> bool {
    forall|k: int| 0 <= k < parents.len() ==> (#[trigger] parents[k] matches Some(q) ==> q < k)
}

/// The key `k` comes before every key in `ks`.
pub open spec fn below_all(k: int, ks: Seq<usize>) -> bool {
    forall|t: int| 0 <= t < ks.len() ==> k < #[trigger] ks[t]
}

/// The outcome of removing the leaf `key`: a parent left without children becomes a leaf
/// holding a payload which `conv` relates to its branch payload.
pub open spec fn leaf_removal_outcome<B, L>(
    nodes: Seq<Node<B, L>>,
    kids: Seq<Seq<usize>>,
    key: usize,
    conv: spec_fn(B, L) -> bool,
    result: Result<L, TryRemoveLeafError>,
    new_nodes: Seq<Node<B, L>>,
    new_kids: Seq<Seq<usize>>,
) -> bool {
    &&& (result == Err::<L, _>(TryRemoveLeafError::WasBranchNode) <==> nodes[key as int].value is Branch)
    &&& (result == Err::<L, _>(TryRemoveLeafError::WasRootNode) <==> nodes[key as int].value is Leaf
        && nodes[key as int].parent is None)
    &&& (result is Ok <==> nodes[key as int].value is Leaf && nodes[key as int].parent is Some)
    &&& (result is Err ==> new_nodes == nodes && new_kids == kids)
    &&& (result matches Ok(x) ==> {
        let p = parent_key(nodes, key);
        let converted = leaf_payload(new_nodes[p as int]);
        &&& x == leaf_payload(nodes[key as int])
        &&& p < key
        &&& parents_of(new_nodes) == parents_after_removal(parents_of(nodes), key)
        &&& new_kids == kids_after_removal(without_child(kids, p, key), key)
        &&& kids[p as int].len() == 1 ==> {
            &&& new_nodes[p as int].value is Leaf
            &&& conv(branch_payload(nodes[p as int]), converted)
            &&& values_of(new_nodes) == values_of(nodes).update(p as int, NodeValue::Leaf(converted)).remove(key as int)
        }
        &&& kids[p as int].len() != 1 ==> values_of(new_nodes) == values_of(nodes).remove(key as int)
    })
}

/// The outcome of removing the leaf children of the branch `key`, which becomes a leaf holding a
/// payload which `conv` relates to its branch payload.
pub open spec fn children_removal_outcome<B, L>(
    nodes: Seq<Node<B, L>>,
    kids: Seq<Seq<usize>>,
    key: usize,
    conv: spec_fn(B, L) -> bool,
    result: Result<Vec<L>, TryRemoveChildrenError>,
    new_nodes: Seq<Node<B, L>>,
    new_kids: Seq<Seq<usize>>,
) -> bool {
    let values = values_of(nodes);
    let ks = kids[key as int];
    &&& (result == Err::<Vec<L>, _>(TryRemoveChildrenError::WasLeafNode) <==> nodes[key as int].value is Leaf)
    &&& (result matches Err(TryRemoveChildrenError::HadBranchChild(i)) ==> nodes[key as int].value is Branch
        && is_first_branch_kid(values, ks, i as int))
    &&& (result is Ok <==> nodes[key as int].value is Branch && all_leaves(values, ks))
    &&& (result is Err ==> new_nodes == nodes && new_kids == kids)
    &&& (result matches Ok(v) ==> {
        let converted = leaf_payload(new_nodes[key as int]);
        &&& v@ == leaf_payloads(values, ks)
        &&& new_nodes[key as int].value is Leaf
        &&& conv(branch_payload(nodes[key as int]), converted)
        &&& new_nodes.len() == nodes.len() - ks.len()
        &&& new_kids[key as int] == Seq::<usize>::empty()
        &&& forall|k: int| 0 <= k < nodes.len() && below_all(k, ks) ==> #[trigger] kept_at(nodes, new_nodes, k, key as int)
        &&& values_of(new_nodes) == values_without(values, ks).update(key as int, NodeValue::Leaf(converted))
        &&& parents_of(new_nodes) == parents_without(parents_of(nodes), ks)
        &&& new_kids == kids_without(kids, key, ks)
    })
}

/// The node `k` kept its parent, and its payload unless it is the node `exempt`.
pub open spec fn kept_at<B, L>(old_nodes: Seq<Node<B, L>>, new_nodes: Seq<Node<B, L>>, k: int, exempt: int) -> bool {
    &&& k < new_nodes.len()
    &&& parents_of(new_nodes)[k] == parents_of(old_nodes)[k]
    &&& k != exempt ==> values_of(new_nodes)[k] == values_of(old_nodes)[k]
}

/// Adding the leaves of a new branch, one after the other, keeps the shape a tree.
proof fn lemma_attach_leaves(parents: Seq<Option<usize>>, kids: Seq<Seq<usize>>, key: usize, count: nat)
    requires
        shape_wf(parents, kids),
        key < parents.len(),
        kids[key as int].len() == 0,
        parents.len() + count < usize::MAX,
    ensures
        shape_wf(
            parents + Seq::new(count, |j: int| Some(key)),
            kids.update(key as int, key_range(parents.len(), count)) + Seq::new(count, |j: int| Seq::<usize>::empty()),
        ),
    decreases count,
{
    let n = parents.len();
    if count == 0 {
        assert(parents + Seq::new(count, |j: int| Some(key)) =~= parents);
        assert(key_range(n, count) =~= kids[key as int]);
        assert(kids.update(key as int, key_range(n, count)) + Seq::new(count, |j: int| Seq::<usize>::empty()) =~= kids);
    } else {
        let c = (count - 1) as nat;
        lemma_attach_leaves(parents, kids, key, c);
        let ps = parents + Seq::new(c, |j: int| Some(key));
        let ks = kids.update(key as int, key_range(n, c)) + Seq::new(c, |j: int| Seq::<usize>::empty());
        lemma_attach_leaf(ps, ks, key);
        assert(ps.push(Some(key)) =~= parents + Seq::new(count, |j: int| Some(key)));
        assert(ks[key as int].push(ps.len() as usize) =~= key_range(n, count));
        assert(ks.push(Seq::empty()).update(key as int, ks[key as int].push(ps.len() as usize)) =~= kids.update(
            key as int,
            key_range(n, count),
        ) + Seq::new(count, |j: int| Seq::<usize>::empty()));
    }
}

/// A list of children which holds the same nodes as another, without duplicates, gives the same
/// shape.
proof fn lemma_reorder_kids(parents: Seq<Option<usize>>, kids: Seq<Seq<usize>>, p: int, ks: Seq<usize>)
    requires
        shape_wf(parents, kids),
        0 <= p < kids.len(),
        ks.no_duplicates(),
        forall|c: usize| #[trigger] ks.contains(c) <==> kids[p].contains(c),
    ensures
        shape_wf(parents, kids.update(p, ks)),
{
    let nk = kids.update(p, ks);
    let e = Set::<int>::empty();
    assert forall|i: int| #![trigger parents[i]] 0 < i < parents.len() && !e.contains(i) implies parent_ok(parents, nk, e, i) by {
        assert(parent_ok(parents, kids, e, i));
    }
    assert forall|i: int, j: int| #![trigger nk[i][j]] 0 <= i < parents.len() && !e.contains(i) && 0 <= j < nk[i].len() implies kid_ok(parents, nk, e, i, j) by {
        if i == p {
            assert(ks.contains(ks[j]));
            let t = choose|t: int| 0 <= t < kids[p].len() && kids[p][t] == ks[j];
            assert(kid_ok(parents, kids, e, p, t));
        } else {
            assert(kid_ok(parents, kids, e, i, j));
        }
    }
    assert forall|i: int| #![trigger nk[i]] 0 <= i < parents.len() && !e.contains(i) implies nk[i].no_duplicates() by {
        if i != p {
            assert(kids[i].no_duplicates());
        }
    }
}

impl<B, L> FreeformTree<B, L> {
    /// The nodes of the tree, indexed by key.
    pub closed spec fn nodes(&self) -> Seq<Node<B, L>> {
        self.storage@
    }

    /// The children of every node, in order.
    pub closed spec fn children_lists(&self) -> Seq<Seq<usize>> {
        self.kids@
    }

    /// The tree is well-formed: its root is at key 0, its nodes form a tree, and the sibling
    /// links of every node agree with the order of the children of its parent.
    pub closed spec fn wf(&self) -> bool {
        &&& self.root == 0
        &&& freeform_wf(self.storage@, self.kids@)
        &&& self.kids@.len() == self.storage@.len()
        &&& self.storage@.len() < usize::MAX
    }

    /// A well-formed tree is a tree whose sibling links agree with the lists of children.
    pub proof fn lemma_wf(&self)
        requires
            self.wf(),
        ensures
            freeform_wf(self.nodes(), self.children_lists()),
            shape_wf(parents_of(self.nodes()), self.children_lists()),
            self.children_lists().len() == self.nodes().len(),
            values_of(self.nodes()).len() == self.nodes().len(),
            self.nodes().len() < usize::MAX,
    {
    }

    /// The links of a node and of its children in a well-formed tree.
    pub proof fn lemma_children(&self, key: usize)
        requires
            self.wf(),
            key < self.nodes().len(),
        ensures
            ({
                let ks = self.children_lists()[key as int];
                let node = self.nodes()[key as int];
                &&& (node.value is Branch <==> ks.len() > 0)
                &&& node.value matches NodeData::Branch { first_child, last_child, .. } ==> first_child == ks[0]
                    && last_child == ks.last()
                &&& ks.no_duplicates()
                &&& forall|t: int|
                    0 <= t < ks.len() ==> key < #[trigger] ks[t] < self.nodes().len() && self.nodes()[ks[t] as int].parent
                        == Some(key)
                &&& forall|t: int|
                    0 <= t < ks.len() ==> self.nodes()[#[trigger] ks[t] as int].prev_sibling == prev_in(ks, t)
                        && self.nodes()[ks[t] as int].next_sibling == next_in(ks, t)
            }),
            self.nodes()[key as int].parent matches Some(p) ==> p < key && self.children_lists()[p as int].contains(key),
            key == 0 <==> self.nodes()[key as int].parent is None,
            self.nodes()[key as int].parent is None ==> self.nodes()[key as int].prev_sibling is None
                && self.nodes()[key as int].next_sibling is None,
            parents_before(parents_of(self.nodes())),
            self.children_lists().len() == self.nodes().len(),
            self.nodes().len() < usize::MAX,
    {
        let nodes = self.storage@;
        let kids = self.kids@;
        let parents = parents_of(nodes);
        let ks = kids[key as int];
        assert(links_ok(nodes, key as int, ks));
        assert forall|t: int| 0 <= t < ks.len() implies key < #[trigger] ks[t] < nodes.len() && nodes[ks[t] as int].parent
            == Some(key) by {
            assert(kid_ok(parents, kids, Set::empty(), key as int, t));
            assert(parent_ok(parents, kids, Set::empty(), ks[t] as int));
        }
        if key > 0 {
            assert(parent_ok(parents, kids, Set::empty(), key as int));
        } else {
            assert(parents[0] is None);
        }
        assert forall|k: int| 0 <= k < parents.len() implies (#[trigger] parents[k] matches Some(q) ==> q < k) by {
            if k > 0 {
                assert(parent_ok(parents, kids, Set::empty(), k));
            }
        }
    }

    /// The siblings of a node in a well-formed tree are its neighbours in the list of children of
    /// its parent.
    pub proof fn lemma_siblings(&self, key: usize)
        requires
            self.wf(),
            key < self.nodes().len(),
        ensures
            ({
                let node = self.nodes()[key as int];
                &&& node.prev_sibling matches Some(s) ==> s < self.nodes().len() && self.nodes()[s as int].parent
                    == node.parent
                &&& node.next_sibling matches Some(s) ==> s < self.nodes().len() && self.nodes()[s as int].parent
                    == node.parent
                &&& node.parent matches Some(p) ==> {
                    let ks = self.children_lists()[p as int];
                    let j = position_of(ks, key);
                    &&& p < self.nodes().len()
                    &&& 0 <= j < ks.len()
                    &&& ks[j] == key
                    &&& node.prev_sibling == prev_in(ks, j)
                    &&& node.next_sibling == next_in(ks, j)
                }
                &&& node.parent is None ==> node.prev_sibling is None && node.next_sibling is None
            }),
    {
        self.lemma_children(key);
        match self.nodes()[key as int].parent {
            Some(p) => {
                self.lemma_children(p);
                let ks = self.children_lists()[p as int];
                let j = position_of(ks, key);
                assert(ks[j] == key);
                if j > 0 {
                    assert(self.nodes()[ks[j - 1] as int].parent == Some(p));
                }
                if j + 1 < ks.len() {
                    assert(self.nodes()[ks[j + 1] as int].parent == Some(p));
                }
            },
            None => {},
        }
    }

    /// Returns a *mutable* reference to the payload of the node at `key`.
    pub(crate) fn value_mut_at(&mut self, key: usize) -> (r: NodeValue<&mut B, &mut L>)
        requires
            old(self).wf(),
            key < old(self).nodes().len(),
        ensures
            match r {
                NodeValue::Branch(b) => old(self).nodes()[key as int].value.value_spec() == NodeValue::<B, L>::Branch(*b),
                NodeValue::Leaf(l) => old(self).nodes()[key as int].value.value_spec() == NodeValue::<B, L>::Leaf(*l),
            },
            final(self).wf(),
            final(self).children_lists() == old(self).children_lists(),
            parents_of(final(self).nodes()) == parents_of(old(self).nodes()),
            values_of(final(self).nodes()) == values_of(old(self).nodes()).update(
                key as int,
                match r {
                    NodeValue::Branch(b) => NodeValue::<B, L>::Branch(*final(b)),
                    NodeValue::Leaf(l) => NodeValue::<B, L>::Leaf(*final(l)),
                },
            ),
            forall|k: int| 0 <= k < old(self).nodes().len() && k != key ==> #[trigger] final(self).nodes()[k] == old(self).nodes()[k],
            final(self).nodes().len() == old(self).nodes().len(),
    {
        proof {
            lemma_payload_update(self.storage@, self.kids@, key as int);
        }
        let node = &mut self.storage[key];
        match &mut node.value {
            NodeData::Branch { payload, .. } => NodeValue::Branch(payload),
            NodeData::Leaf(x) => NodeValue::Leaf(x),
        }
    }

    /// Returns a reference to the root node of the tree.
    pub fn root(&self) -> (r: NodeRef<'_, B, L>)
        requires
            self.wf(),
        ensures
            *r.tree() == *self,
            r.key() == 0,
            r.valid(),
    {
        NodeRef::new_raw_unchecked(self, self.root)
    }

    /// Returns a *mutable* reference to the root node of the tree, allowing modifications to the
    /// entire tree.
    pub fn root_mut(&mut self) -> (r: NodeRefMut<'_, B, L>)
        requires
            old(self).wf(),
        ensures
            r.tree() == *old(self),
            r.key() == 0,
            r.valid(),
            *final(r.tree_borrow()) == *final(self),
    {
        let root = self.root;
        NodeRefMut::new_raw_unchecked(self, root)
    }

    /// Creates a freeform tree with the specified value for the root node.
    pub fn new(root: L) -> (tree: Self)
        ensures
            tree.wf(),
            tree.nodes() == seq![
                Node::<B, L> { value: NodeData::Leaf(root), parent: None, prev_sibling: None, next_sibling: None },
            ],
    {
        Self::with_capacity(0, root)
    }

    /// Creates a freeform tree with the specified capacity for the storage.
    pub fn with_capacity(capacity: usize, root: L) -> (tree: Self)
        ensures
            tree.wf(),
            tree.nodes() == seq![
                Node::<B, L> { value: NodeData::Leaf(root), parent: None, prev_sibling: None, next_sibling: None },
            ],
    {
        let mut storage: Vec<Node<B, L>> = ListStorage::with_capacity(capacity);
        let root = storage.add(Node::root(root));
        let ghost kids = seq![Seq::<usize>::empty()];
        let tree = FreeformTree { storage, root, kids: Ghost(kids) };
        proof {
            let nodes = tree.storage@;
            assert(parents_of(nodes)[0] is None);
        }
        tree
    }

    /// The number of nodes in the tree.
    pub(crate) fn len(&self) -> (r: usize)
        ensures
            r == self.nodes().len(),
    {
        self.storage.len()
    }

    /// The node at `key`.
    pub(crate) fn node_at(&self, key: usize) -> (r: &Node<B, L>)
        requires
            key < self.nodes().len(),
        ensures
            *r == self.nodes()[key as int],
    {
        &self.storage[key]
    }

    /// Converts a leaf node into a branch node with the specified leaf children, in order, using
    /// the provided closure to convert the payload. With no children, the node stays a leaf.
    pub(crate) fn make_branch_at<F: FnOnce(L) -> B>(&mut self, key: usize, children: Vec<L>, f: F) -> (result: Result<
        (),
        MakeBranchError<L, Vec<L>>,
    >)
        requires
            old(self).wf(),
            key < old(self).nodes().len(),
            old(self).nodes()[key as int].value is Leaf && children@.len() > 0 ==> f.requires(
                (leaf_payload(old(self).nodes()[key as int]),),
            ),
            old(self).nodes().len() + children@.len() + 1 < usize::MAX,
        ensures
            final(self).wf(),
            (result is Ok <==> old(self).nodes()[key as int].value is Leaf),
            result matches Err(e) ==> e.packed_children@ == children@ && final(self).nodes() == old(self).nodes()
                && final(self).children_lists() == old(self).children_lists(),
            result is Ok && children@.len() == 0 ==> final(self).nodes() == old(self).nodes()
                && final(self).children_lists() == old(self).children_lists(),
            result is Ok && children@.len() > 0 ==> {
                let nodes = old(self).nodes();
                let n = nodes.len();
                let payload = branch_payload(final(self).nodes()[key as int]);
                &&& f.ensures((leaf_payload(nodes[key as int]),), payload)
                &&& final(self).nodes() == nodes.update(
                    key as int,
                    Node {
                        value: NodeData::Branch {
                            payload,
                            first_child: n as usize,
                            last_child: (n + children@.len() - 1) as usize,
                        },
                        ..nodes[key as int]
                    },
                ) + new_children::<B, L>(key, n, children@)
                &&& final(self).children_lists() == old(self).children_lists().update(
                    key as int,
                    key_range(n, children@.len()),
                ) + Seq::new(children@.len(), |j: int| Seq::<usize>::empty())
            },
    {
        if matches!(&self.storage[key].value, NodeData::Branch { .. }) {
            return Err(MakeBranchError::new(children));
        }
        let m = children.len();
        if m == 0 {
            return Ok(());
        }
        let ghost old_nodes = self.storage@;
        let ghost old_kids = self.kids@;
        let ghost values = children@;
        let n = self.storage.len();
        let mut rest = children;
        let first = rest.remove(0);
        // Temporarily put the first child's payload in the node to take the old payload out.
        let mut value = NodeData::Leaf(first);
        std::mem::swap(&mut self.storage[key].value, &mut value);
        let old_payload = match value {
            NodeData::Leaf(x) => x,
            NodeData::Branch { .. } => vstd::pervasive::unreached(),
        };
        let payload = f(old_payload);
        let mut branch = NodeData::Branch { payload, first_child: n, last_child: n + m - 1 };
        std::mem::swap(&mut self.storage[key].value, &mut branch);
        let first = match branch {
            NodeData::Leaf(x) => x,
            NodeData::Branch { .. } => vstd::pervasive::unreached(),
        };
        let ghost mid = self.storage@;
        let ghost range = key_range(n as nat, m as nat);
        self.storage.push(Node::leaf(first, None, if m > 1 { Some(n + 1) } else { None }, Some(key)));
        proof {
            assert(self.storage@ =~= mid + new_children::<B, L>(key, n as nat, values).subrange(0, 1));
        }
        let mut count: usize = 1;
        while rest.len() > 0
            invariant
                values.len() == m,
                m > 0,
                1 <= count <= m,
                n + m + 1 < usize::MAX,
                rest@ == values.subrange(count as int, m as int),
                self.storage@ == mid + new_children::<B, L>(key, n as nat, values).subrange(0, count as int),
                mid.len() == n,
                self.root == old(self).root,
                self.kids == old(self).kids,
            decreases rest@.len(),
        {
            let next = rest.remove(0);
            let next_key = n + count;
            let following = if count + 1 < m { Some(next_key + 1) } else { None };
            self.storage.push(Node::leaf(next, Some(next_key - 1), following, Some(key)));
            proof {
                let target = new_children::<B, L>(key, n as nat, values);
                assert(target[count as int].value == NodeData::<B, L>::Leaf(next));
                assert(self.storage@ =~= mid + target.subrange(0, count + 1));
            }
            count = count + 1;
        }
        let ghost new_kids = old_kids.update(key as int, range) + Seq::new(m as nat, |j: int| Seq::<usize>::empty());
        self.kids = Ghost(new_kids);
        proof {
            let s = self.storage@;
            let target = new_children::<B, L>(key, n as nat, values);
            assert(target.subrange(0, m as int) =~= target);
            assert(mid == old_nodes.update(
                key as int,
                Node {
                    value: NodeData::Branch { payload, first_child: n, last_child: (n + m - 1) as usize },
                    ..old_nodes[key as int]
                },
            ));
            lemma_make_branch_wf(old_nodes, old_kids, key, payload, values);
        }
        Ok(())
    }

    /// Adds a new leaf as the last child of a branch node.
    pub(crate) fn try_push_back_at(&mut self, key: usize, child_payload: L) -> (result: Result<(), TryPushError<L>>)
        requires
            old(self).wf(),
            key < old(self).nodes().len(),
            old(self).nodes().len() + 1 < usize::MAX,
        ensures
            final(self).wf(),
            (result is Ok <==> old(self).nodes()[key as int].value is Branch),
            result matches Err(e) ==> e.child_payload == child_payload && final(self).nodes() == old(self).nodes()
                && final(self).children_lists() == old(self).children_lists(),
            result is Ok ==> {
                &&& final(self).children_lists() == old(self).children_lists().push(Seq::empty()).update(
                    key as int,
                    old(self).children_lists()[key as int].push(old(self).nodes().len() as usize),
                )
                &&& parents_of(final(self).nodes()) == parents_of(old(self).nodes()).push(Some(key))
                &&& values_of(final(self).nodes()) == values_of(old(self).nodes()).push(NodeValue::<B, L>::Leaf(child_payload))
            },
    {
        self.push_child(key, child_payload, true)
    }

    /// Adds a new leaf as the first child of a branch node.
    pub(crate) fn try_push_front_at(&mut self, key: usize, child_payload: L) -> (result: Result<(), TryPushError<L>>)
        requires
            old(self).wf(),
            key < old(self).nodes().len(),
            old(self).nodes().len() + 1 < usize::MAX,
        ensures
            final(self).wf(),
            (result is Ok <==> old(self).nodes()[key as int].value is Branch),
            result matches Err(e) ==> e.child_payload == child_payload && final(self).nodes() == old(self).nodes()
                && final(self).children_lists() == old(self).children_lists(),
            result is Ok ==> {
                &&& final(self).children_lists() == old(self).children_lists().push(Seq::empty()).update(
                    key as int,
                    seq![old(self).nodes().len() as usize] + old(self).children_lists()[key as int],
                )
                &&& parents_of(final(self).nodes()) == parents_of(old(self).nodes()).push(Some(key))
                &&& values_of(final(self).nodes()) == values_of(old(self).nodes()).push(NodeValue::<B, L>::Leaf(child_payload))
            },
    {
        self.push_child(key, child_payload, false)
    }

    /// Adds a new leaf as the last (`back`) or the first child of a branch node.
    fn push_child(&mut self, key: usize, child_payload: L, back: bool) -> (result: Result<(), TryPushError<L>>)
        requires
            old(self).wf(),
            key < old(self).nodes().len(),
            old(self).nodes().len() + 1 < usize::MAX,
        ensures
            final(self).wf(),
            (result is Ok <==> old(self).nodes()[key as int].value is Branch),
            result matches Err(e) ==> e.child_payload == child_payload && final(self).nodes() == old(self).nodes()
                && final(self).children_lists() == old(self).children_lists(),
            result is Ok ==> {
                let n = old(self).nodes().len() as usize;
                let ks = old(self).children_lists()[key as int];
                &&& final(self).children_lists() == old(self).children_lists().push(Seq::empty()).update(
                    key as int,
                    pushed_kids(ks, n, back),
                )
                &&& parents_of(final(self).nodes()) == parents_of(old(self).nodes()).push(Some(key))
                &&& values_of(final(self).nodes()) == values_of(old(self).nodes()).push(NodeValue::<B, L>::Leaf(child_payload))
            },
    {
        let (first, last) = match &self.storage[key].value {
            NodeData::Branch { first_child, last_child, .. } => (*first_child, *last_child),
            NodeData::Leaf(_) => return Err(TryPushError { child_payload }),
        };
        let ghost old_nodes = self.storage@;
        let ghost old_kids = self.kids@;
        proof {
            lemma_push_wf(old_nodes, old_kids, key, child_payload, back);
            assert(links_ok(old_nodes, key as int, old_kids[key as int]));
        }
        let n = self.storage.len();
        if back {
            self.storage[last].next_sibling = Some(n);
            match &mut self.storage[key].value {
                NodeData::Branch { last_child, .. } => *last_child = n,
                NodeData::Leaf(_) => {},
            }
            self.storage.push(Node::leaf(child_payload, Some(last), None, Some(key)));
        } else {
            self.storage[first].prev_sibling = Some(n);
            match &mut self.storage[key].value {
                NodeData::Branch { first_child, .. } => *first_child = n,
                NodeData::Leaf(_) => {},
            }
            self.storage.push(Node::leaf(child_payload, None, Some(first), Some(key)));
        }
        let ghost ks = old_kids[key as int];
        self.kids = Ghost(old_kids.push(Seq::empty()).update(key as int, pushed_kids(ks, n, back)));
        proof {
            assert(self.storage@ =~= pushed(old_nodes, key, ks, child_payload, back));
        }
        Ok(())
    }
}

/// The storage after a new leaf holding `payload` has been added at its end as the last (`back`)
/// or the first child of the branch `key`, whose children are `ks`.
pub open spec fn pushed<B, L>(nodes: Seq<Node<B, L>>, key: usize, ks: Seq<usize>, payload: L, back: bool) -> Seq<Node<B, L>> {
    let n = nodes.len() as usize;
    if back {
        nodes.update(ks.last() as int, Node { next_sibling: Some(n), ..nodes[ks.last() as int] }).update(
            key as int,
            Node {
                value: NodeData::Branch { payload: branch_payload(nodes[key as int]), first_child: ks[0], last_child: n },
                ..nodes[key as int]
            },
        ).push(Node { value: NodeData::Leaf(payload), parent: Some(key), prev_sibling: Some(ks.last()), next_sibling: None })
    } else {
        nodes.update(ks[0] as int, Node { prev_sibling: Some(n), ..nodes[ks[0] as int] }).update(
            key as int,
            Node {
                value: NodeData::Branch { payload: branch_payload(nodes[key as int]), first_child: n, last_child: ks.last() },
                ..nodes[key as int]
            },
        ).push(Node { value: NodeData::Leaf(payload), parent: Some(key), prev_sibling: None, next_sibling: Some(ks[0]) })
    }
}

/// The list of children `ks` with `n` added at its end (`back`) or its start.
pub open spec fn pushed_kids(ks: Seq<usize>, n: usize, back: bool) -> Seq<usize> {
    if back {
        ks.push(n)
    } else {
        seq![n] + ks
    }
}

/// Adding a new leaf at the end of the storage as the last or the first child of `key` keeps the
/// shape a tree.
proof fn lemma_push_shape(parents: Seq<Option<usize>>, kids: Seq<Seq<usize>>, key: usize, back: bool)
    requires
        shape_wf(parents, kids),
        key < parents.len(),
        parents.len() < usize::MAX,
    ensures
        shape_wf(
            parents.push(Some(key)),
            kids.push(Seq::empty()).update(key as int, pushed_kids(kids[key as int], parents.len() as usize, back)),
        ),
{
    let n = parents.len() as usize;
    let ks = kids[key as int];
    lemma_attach_leaf(parents, kids, key);
    let attached = kids.push(Seq::empty()).update(key as int, ks.push(n));
    let nks = pushed_kids(ks, n, back);
    if !back {
        assert(ks.no_duplicates());
        assert(!ks.contains(n)) by {
            if ks.contains(n) {
                let j = choose|j: int| 0 <= j < ks.len() && ks[j] == n;
                assert(kid_ok(parents, kids, Set::empty(), key as int, j));
            }
        }
        assert forall|c: usize| #[trigger] nks.contains(c) <==> attached[key as int].contains(c) by {
            if nks.contains(c) {
                let j = choose|j: int| 0 <= j < nks.len() && nks[j] == c;
                if j > 0 {
                    assert(ks.push(n)[j - 1] == c);
                } else {
                    assert(ks.push(n)[ks.len() as int] == c);
                }
            }
            if attached[key as int].contains(c) {
                let j = choose|j: int| 0 <= j < ks.len() + 1 && ks.push(n)[j] == c;
                if j < ks.len() {
                    assert(nks[j + 1] == c);
                } else {
                    assert(nks[0] == c);
                }
            }
        }
        assert forall|a: int, b: int| 0 <= a < b < nks.len() implies nks[a] != nks[b] by {
            if a > 0 {
                assert(nks[a] == ks[a - 1] && nks[b] == ks[b - 1]);
            } else {
                assert(nks[b] == ks[b - 1]);
                assert(ks.contains(ks[b - 1]));
            }
        }
        lemma_reorder_kids(parents.push(Some(key)), attached, key as int, nks);
        assert(attached.update(key as int, nks) =~= kids.push(Seq::empty()).update(key as int, nks));
    } else {
        assert(attached =~= kids.push(Seq::empty()).update(key as int, nks));
    }
}

/// The links of the branch which got a new child agree with its new list of children.
#[verifier::spinoff_prover]
#[verifier::rlimit(40)]
proof fn lemma_push_links_key<B, L>(nodes: Seq<Node<B, L>>, kids: Seq<Seq<usize>>, key: usize, payload: L, back: bool)
    requires
        freeform_wf(nodes, kids),
        kids.len() == nodes.len(),
        key < nodes.len(),
        nodes[key as int].value is Branch,
    ensures
        links_ok(
            pushed(nodes, key, kids[key as int], payload, back),
            key as int,
            pushed_kids(kids[key as int], nodes.len() as usize, back),
        ),
{
    let n = nodes.len() as usize;
    let ks = kids[key as int];
    let parents = parents_of(nodes);
    assert(links_ok(nodes, key as int, ks));
    let new_nodes = pushed(nodes, key, ks, payload, back);
    let nks = pushed_kids(ks, n, back);
    assert(ks.no_duplicates());
    assert(kid_ok(parents, kids, Set::empty(), key as int, 0));
    assert(kid_ok(parents, kids, Set::empty(), key as int, ks.len() - 1));
    assert forall|j: int| #![trigger nks[j]] 0 <= j < nks.len() implies new_nodes[nks[j] as int].prev_sibling
        == prev_in(nks, j) && new_nodes[nks[j] as int].next_sibling == next_in(nks, j) by {
        if back {
            if j < ks.len() {
                assert(kid_ok(parents, kids, Set::empty(), key as int, j));
                assert(nks[j] == ks[j]);
                if j > 0 {
                    assert(nks[j - 1] == ks[j - 1]);
                }
                if j + 1 < ks.len() {
                    assert(nks[j + 1] == ks[j + 1]);
                }
                if ks[j] == ks.last() {
                    assert(j == ks.len() - 1);
                }
            }
        } else {
            if j > 0 {
                assert(kid_ok(parents, kids, Set::empty(), key as int, j - 1));
                assert(nks[j] == ks[j - 1]);
                if j > 1 {
                    assert(nks[j - 1] == ks[j - 2]);
                }
                if j + 1 < nks.len() {
                    assert(nks[j + 1] == ks[j]);
                }
                if ks[j - 1] == ks[0] {
                    assert(j - 1 == 0);
                }
            } else {
                assert(nks[1] == ks[0]);
            }
        }
    }
}

/// Adding a new leaf at the end of the storage as the last or the first child of a branch keeps
/// the tree well-formed.
#[verifier::rlimit(40)]
proof fn lemma_push_wf<B, L>(nodes: Seq<Node<B, L>>, kids: Seq<Seq<usize>>, key: usize, payload: L, back: bool)
    requires
        freeform_wf(nodes, kids),
        kids.len() == nodes.len(),
        key < nodes.len(),
        nodes[key as int].value is Branch,
        nodes.len() + 1 < usize::MAX,
    ensures
        ({
            let n = nodes.len() as usize;
            let ks = kids[key as int];
            let new_nodes = pushed(nodes, key, ks, payload, back);
            let new_kids = kids.push(Seq::empty()).update(key as int, pushed_kids(ks, n, back));
            &&& ks.len() > 0
            &&& freeform_wf(new_nodes, new_kids)
            &&& new_kids.len() == new_nodes.len()
            &&& parents_of(new_nodes) == parents_of(nodes).push(Some(key))
            &&& values_of(new_nodes) == values_of(nodes).push(NodeValue::<B, L>::Leaf(payload))
        }),
{
    let n = nodes.len() as usize;
    let parents = parents_of(nodes);
    let ks = kids[key as int];
    assert(links_ok(nodes, key as int, ks));
    let first = ks[0];
    let last = ks.last();
    assert(kid_ok(parents, kids, Set::empty(), key as int, 0));
    assert(kid_ok(parents, kids, Set::empty(), key as int, ks.len() - 1));
    lemma_push_shape(parents, kids, key, back);
    lemma_push_links_key(nodes, kids, key, payload, back);
    let new_kids = kids.push(Seq::empty()).update(key as int, pushed_kids(ks, n, back));
    let new_nodes = pushed(nodes, key, ks, payload, back);
    assert(parents_of(new_nodes) =~= parents.push(Some(key)));
    assert(values_of(new_nodes) =~= values_of(nodes).push(NodeValue::<B, L>::Leaf(payload)));
    assert forall|i: int| 0 <= i < new_nodes.len() implies links_ok(new_nodes, i, #[trigger] new_kids[i]) by {
        if i < n && i != key {
            assert(links_ok(nodes, i, kids[i]));
            assert(new_kids[i] == kids[i]);
            assert forall|j: int| #![trigger kids[i][j]] 0 <= j < kids[i].len() implies new_nodes[kids[i][j] as int].prev_sibling
                == prev_in(kids[i], j) && new_nodes[kids[i][j] as int].next_sibling == next_in(kids[i], j) by {
                assert(kid_ok(parents, kids, Set::empty(), i, j));
            }
        } else if i == n {
            assert(new_kids[i] == Seq::<usize>::empty());
        }
    }
    assert(first != 0 && last != 0) by {
        assert(parents[0] is None);
    }
}

/// The branch `key`, whose only child `c` is a leaf, and that child: where they stand, and what
/// is pending once the branch is taken out of the list of its siblings and one of them is removed.
proof fn lemma_branch_family<B, L>(nodes: Seq<Node<B, L>>, kids: Seq<Seq<usize>>, key: usize)
    requires
        freeform_wf(nodes, kids),
        kids.len() == nodes.len(),
        key < nodes.len(),
        nodes[key as int].value is Branch,
        kids[key as int].len() == 1,
        nodes[kids[key as int][0] as int].value is Leaf,
        nodes[key as int].parent is Some,
    ensures
        ({
            let c = kids[key as int][0];
            let p = parent_key(nodes, key);
            let ks = kids[p as int];
            let j = position_of(ks, key);
            let fam = family(kids, key);
            &&& p < key < c < nodes.len()
            &&& nodes[key as int].value matches NodeData::Branch { first_child, .. } && first_child == c
            &&& kids[key as int] == seq![c]
            &&& kids[c as int].len() == 0
            &&& 0 <= j < ks.len()
            &&& ks[j] == key
            &&& (ks.len() == 1 <==> nodes[key as int].prev_sibling is None && nodes[key as int].next_sibling is None)
            &&& fam.contains(c as int)
            &&& fam.contains(key as int)
            &&& pending_after_removal(fam, c as int) == Set::<int>::empty().insert(key as int)
            &&& pending_after_removal(Set::<int>::empty().insert(key as int), key as int) == Set::<int>::empty()
        }),
{
    let parents = parents_of(nodes);
    let c = kids[key as int][0];
    let p = parent_key(nodes, key);
    let ks = kids[p as int];
    let j = position_of(ks, key);
    let fam = family(kids, key);
    assert(parent_ok(parents, kids, Set::empty(), key as int)) by {
        if key == 0 {
            assert(parents[0] is None);
        }
    }
    assert(links_ok(nodes, key as int, kids[key as int]));
    assert(kid_ok(parents, kids, Set::empty(), key as int, 0));
    assert(parent_ok(parents, kids, Set::empty(), c as int));
    assert(links_ok(nodes, c as int, kids[c as int]));
    assert(links_ok(nodes, p as int, ks));
    assert(ks[j] == key);
    assert(nodes[ks[j] as int].prev_sibling == prev_in(ks, j));
    assert(nodes[ks[j] as int].next_sibling == next_in(ks, j));
    assert(kids[key as int] =~= seq![c]);
    lemma_pair_pending(kids, key, c);
}

/// The branch `key` whose only child is `c`, once both are pending and `c` has been removed,
/// leaves only the branch pending, and nothing once that is removed too.
proof fn lemma_pair_pending(kids: Seq<Seq<usize>>, key: usize, c: usize)
    requires
        kids[key as int] == seq![c],
        key < c,
    ensures
        family(kids, key).contains(c as int),
        family(kids, key).contains(key as int),
        pending_after_removal(family(kids, key), c as int) == Set::<int>::empty().insert(key as int),
        pending_after_removal(Set::<int>::empty().insert(key as int), key as int) == Set::<int>::empty(),
{
    let fam = family(kids, key);
    assert(kids[key as int][0] == c);
    assert(kids[key as int].contains(c));
    let pend = pending_after_removal(fam, c as int);
    assert forall|k: int| pend.contains(k) <==> k == key by {
        let kb = crate::shape::key_before_removal(k, c as int);
        assert(pend.contains(k) == fam.contains(kb));
        assert(fam.contains(kb) == (kb == key || (0 <= kb <= usize::MAX && kids[key as int].contains(kb as usize))));
        if 0 <= kb <= usize::MAX && kids[key as int].contains(kb as usize) {
            let t = choose|t: int| 0 <= t < kids[key as int].len() && kids[key as int][t] == kb as usize;
            assert(t == 0);
            assert(kb == c);
        }
        if k == key {
            assert(kb == key);
        }
    }
    assert(pend =~= Set::<int>::empty().insert(key as int));
    assert(pending_after_removal(Set::<int>::empty().insert(key as int), key as int) =~= Set::<int>::empty());
}

/// Replacing the payload of a node, keeping its kind, its links and its children, keeps the tree
/// well-formed and its shape unchanged.
proof fn lemma_payload_update<B, L>(nodes: Seq<Node<B, L>>, kids: Seq<Seq<usize>>, i: int)
    requires
        freeform_wf(nodes, kids),
        kids.len() == nodes.len(),
        0 <= i < nodes.len(),
    ensures
        forall|node: Node<B, L>|
            node.parent == nodes[i].parent && node.prev_sibling == nodes[i].prev_sibling && node.next_sibling
                == nodes[i].next_sibling && (node.value is Branch <==> nodes[i].value is Branch) && (node.value is Branch
                ==> node.value->Branch_first_child == nodes[i].value->Branch_first_child && node.value->Branch_last_child
                == nodes[i].value->Branch_last_child) ==> {
                &&& freeform_wf(#[trigger] nodes.update(i, node), kids)
                &&& parents_of(nodes.update(i, node)) == parents_of(nodes)
                &&& values_of(nodes.update(i, node)) == values_of(nodes).update(i, node.value.value_spec())
            },
{
    assert forall|node: Node<B, L>|
        node.parent == nodes[i].parent && node.prev_sibling == nodes[i].prev_sibling && node.next_sibling
            == nodes[i].next_sibling && (node.value is Branch <==> nodes[i].value is Branch) && (node.value is Branch
            ==> node.value->Branch_first_child == nodes[i].value->Branch_first_child && node.value->Branch_last_child
            == nodes[i].value->Branch_last_child) implies {
            &&& freeform_wf(#[trigger] nodes.update(i, node), kids)
            &&& parents_of(nodes.update(i, node)) == parents_of(nodes)
            &&& values_of(nodes.update(i, node)) == values_of(nodes).update(i, node.value.value_spec())
        } by {
        let s = nodes.update(i, node);
        assert(parents_of(s) =~= parents_of(nodes));
        assert(values_of(s) =~= values_of(nodes).update(i, node.value.value_spec()));
        assert forall|x: int| 0 <= x < s.len() implies links_ok(s, x, #[trigger] kids[x]) by {
            assert(links_ok(nodes, x, kids[x]));
            assert forall|t: int| #![trigger kids[x][t]] 0 <= t < kids[x].len() implies s[kids[x][t] as int].prev_sibling
                == prev_in(kids[x], t) && s[kids[x][t] as int].next_sibling == next_in(kids[x], t) by {
                assert(kid_ok(parents_of(nodes), kids, Set::empty(), x, t));
            }
        }
    }
}

/// Making a leaf a branch with new leaf children at the end of the storage keeps the tree
/// well-formed.
proof fn lemma_make_branch_wf<B, L>(nodes: Seq<Node<B, L>>, kids: Seq<Seq<usize>>, key: usize, payload: B, children: Seq<L>)
    requires
        freeform_wf(nodes, kids),
        kids.len() == nodes.len(),
        key < nodes.len(),
        nodes[key as int].value is Leaf,
        children.len() > 0,
        nodes.len() + children.len() + 1 < usize::MAX,
    ensures
        ({
            let n = nodes.len();
            let m = children.len();
            let new_nodes = nodes.update(
                key as int,
                Node {
                    value: NodeData::Branch { payload, first_child: n as usize, last_child: (n + m - 1) as usize },
                    ..nodes[key as int]
                },
            ) + new_children::<B, L>(key, n, children);
            let new_kids = kids.update(key as int, key_range(n, m)) + Seq::new(m, |j: int| Seq::<usize>::empty());
            &&& freeform_wf(new_nodes, new_kids)
            &&& new_kids.len() == new_nodes.len()
        }),
{
    let n = nodes.len();
    let m = children.len();
    let new_nodes = nodes.update(
        key as int,
        Node {
            value: NodeData::Branch { payload, first_child: n as usize, last_child: (n + m - 1) as usize },
            ..nodes[key as int]
        },
    ) + new_children::<B, L>(key, n, children);
    let new_kids = kids.update(key as int, key_range(n, m)) + Seq::new(m, |j: int| Seq::<usize>::empty());
    let parents = parents_of(nodes);
    assert(links_ok(nodes, key as int, kids[key as int]));
    lemma_attach_leaves(parents, kids, key, m);
    assert(parents_of(new_nodes) =~= parents + Seq::new(m, |j: int| Some(key)));
    let range = key_range(n, m);
    assert forall|i: int| 0 <= i < new_nodes.len() implies links_ok(new_nodes, i, #[trigger] new_kids[i]) by {
        if i < n && i != key {
            assert(links_ok(nodes, i, kids[i]));
            assert(new_kids[i] == kids[i]);
            assert forall|j: int| #![trigger kids[i][j]] 0 <= j < kids[i].len() implies new_nodes[kids[i][j] as int].prev_sibling
                == prev_in(kids[i], j) && new_nodes[kids[i][j] as int].next_sibling == next_in(kids[i], j) by {
                assert(kid_ok(parents, kids, Set::empty(), i, j));
                if kids[i][j] == key {
                    assert(new_nodes[key as int].prev_sibling == nodes[key as int].prev_sibling);
                }
            }
        } else if i == key {
            assert(new_kids[i] == range);
            assert forall|j: int| #![trigger range[j]] 0 <= j < range.len() implies new_nodes[range[j] as int].prev_sibling
                == prev_in(range, j) && new_nodes[range[j] as int].next_sibling == next_in(range, j) by {
                assert(new_nodes[range[j] as int] == new_children::<B, L>(key, n, children)[j]);
            }
        } else {
            assert(new_kids[i] == Seq::<usize>::empty());
        }
    }
    if key == 0 {
        assert(new_nodes[0].prev_sibling == nodes[0].prev_sibling);
    }
}


impl<B, L> FreeformTree<B, L> {
    /// The tree is well-formed once the `pending` nodes are taken out.
    spec fn wf_pending(&self, pending: Set<int>) -> bool {
        &&& self.root == 0
        &&& freeform_partial(self.storage@, self.kids@, pending)
        &&& self.kids@.len() == self.storage@.len()
        &&& self.storage@.len() < usize::MAX
    }

    /// Removes the pending node `key` from the storage, renumbering the keys after it.
    fn remove_pending(&mut self, key: usize, Ghost(pending): Ghost<Set<int>>) -> (node: Node<B, L>)
        requires
            old(self).wf_pending(pending),
            pending.contains(key as int),
            key < old(self).nodes().len(),
        ensures
            final(self).wf_pending(pending_after_removal(pending, key as int)),
            node == old(self).nodes()[key as int],
            final(self).nodes() == removed_and_fixed(old(self).nodes(), key),
            final(self).children_lists() == kids_after_removal(old(self).children_lists(), key),
    {
        let ghost old_nodes = self.storage@;
        let ghost old_kids = self.kids@;
        let node = crate::storage::remove_and_shiftfix(&mut self.storage, key);
        self.kids = Ghost(kids_after_removal(old_kids, key));
        proof {
            assert(self.storage@ =~= removed_and_fixed(old_nodes, key));
            lemma_remove_pending_freeform(old_nodes, old_kids, pending, key);
        }
        node
    }

    /// Takes the node `key`, the `j`-th of the children of `p` and not the only one, out of the
    /// list of siblings: its neighbours, or the parent, name each other instead.
    #[verifier::spinoff_prover]
    #[verifier::rlimit(50)]
    fn unlink(&mut self, key: usize, p: usize, Ghost(j): Ghost<int>)
        requires
            old(self).wf(),
            key < old(self).nodes().len(),
            old(self).nodes()[key as int].parent == Some(p),
            0 <= j < old(self).children_lists()[p as int].len(),
            old(self).children_lists()[p as int][j] == key,
            old(self).children_lists()[p as int].len() > 1,
            forall|t: int|
                0 <= t < old(self).children_lists()[key as int].len() ==> (#[trigger] old(self).children_lists()[old(
                    self,
                ).children_lists()[key as int][t] as int]).len() == 0,
        ensures
            final(self).nodes() == unlinked(old(self).nodes(), p, old(self).children_lists()[p as int], j),
            final(self).kids == old(self).kids,
            final(self).root == old(self).root,
    {
        let ghost nodes = self.storage@;
        let ghost kids = self.kids@;
        let ghost ks = kids[p as int];
        proof {
            lemma_unlink(nodes, kids, key, j);
            assert(links_ok(nodes, p as int, ks));
            assert(ks[j] == key);
            assert(nodes[ks[j] as int].prev_sibling == prev_in(ks, j));
            assert(nodes[ks[j] as int].next_sibling == next_in(ks, j));
        }
        let prev = self.storage[key].prev_sibling;
        let next = self.storage[key].next_sibling;
        match prev {
            Some(pr) => {
                self.storage[pr].next_sibling = next;
            },
            None => {
                let nx = next.unwrap();
                match &mut self.storage[p].value {
                    NodeData::Branch { first_child, .. } => *first_child = nx,
                    NodeData::Leaf(_) => {},
                }
            },
        }
        match next {
            Some(nx) => {
                self.storage[nx].prev_sibling = prev;
            },
            None => {
                let pr = prev.unwrap();
                match &mut self.storage[p].value {
                    NodeData::Branch { last_child, .. } => *last_child = pr,
                    NodeData::Leaf(_) => {},
                }
            },
        }
        proof {
            assert(self.storage@ =~= unlinked(nodes, p, ks, j));
        }
    }

    /// Removes the leaf `key`, which has siblings, returning its payload.
    pub(crate) fn remove_leaf_among_siblings(&mut self, key: usize) -> (payload: L)
        requires
            old(self).wf(),
            key < old(self).nodes().len(),
            old(self).nodes()[key as int].value is Leaf,
            old(self).nodes()[key as int].parent is Some,
            old(self).children_lists()[parent_key(old(self).nodes(), key) as int].len() > 1,
        ensures
            final(self).wf(),
            payload == leaf_payload(old(self).nodes()[key as int]),
            sibling_removed(
                old(self).nodes(),
                old(self).children_lists(),
                key,
                final(self).nodes(),
                final(self).children_lists(),
            ),
    {
        let p = match self.storage[key].parent {
            Some(p) => p,
            None => vstd::pervasive::unreached(),
        };
        let ghost nodes = self.storage@;
        let ghost kids = self.kids@;
        let ghost ks = kids[p as int];
        let ghost j = position_of(ks, key);
        proof {
            assert(parent_ok(parents_of(nodes), kids, Set::empty(), key as int));
            assert(links_ok(nodes, key as int, kids[key as int]));
        }
        self.unlink(key, p, Ghost(j));
        let ghost d = self.storage@;
        let ghost fam = family(kids, key);
        proof {
            lemma_unlink(nodes, kids, key, j);
        }
        self.kids = Ghost(kids.update(p as int, ks.remove(j)));
        let node = self.remove_pending(key, Ghost(fam));
        proof {
            assert(pending_after_removal(fam, key as int) =~= Set::<int>::empty());
            lemma_removed_and_fixed_parents(d, key);
        }
        match node.value {
            NodeData::Leaf(x) => x,
            NodeData::Branch { .. } => vstd::pervasive::unreached(),
        }
    }

    /// Removes the leaf `key`, the only child of its parent, returning its payload. The parent
    /// becomes a leaf holding the payload that `f` makes out of its branch payload.
    pub(crate) fn remove_only_leaf<F: FnOnce(B) -> L>(&mut self, key: usize, f: F) -> (payload: L)
        requires
            old(self).wf(),
            key < old(self).nodes().len(),
            old(self).nodes()[key as int].value is Leaf,
            old(self).nodes()[key as int].parent is Some,
            old(self).children_lists()[parent_key(old(self).nodes(), key) as int].len() == 1,
            f.requires((branch_payload(old(self).nodes()[parent_key(old(self).nodes(), key) as int]),)),
        ensures
            final(self).wf(),
            payload == leaf_payload(old(self).nodes()[key as int]),
            f.ensures(
                (branch_payload(old(self).nodes()[parent_key(old(self).nodes(), key) as int]),),
                leaf_payload(final(self).nodes()[parent_key(old(self).nodes(), key) as int]),
            ),
            only_child_removed(
                old(self).nodes(),
                old(self).children_lists(),
                key,
                final(self).nodes(),
                final(self).children_lists(),
            ),
    {
        let p = match self.storage[key].parent {
            Some(p) => p,
            None => vstd::pervasive::unreached(),
        };
        let ghost nodes = self.storage@;
        let ghost kids = self.kids@;
        proof {
            assert(links_ok(nodes, key as int, kids[key as int]));
            assert(parent_ok(parents_of(nodes), kids, Set::empty(), key as int));
            assert(links_ok(nodes, p as int, kids[p as int]));
        }
        let node = crate::storage::remove_and_shiftfix(&mut self.storage, key);
        let x = match node.value {
            NodeData::Leaf(x) => x,
            NodeData::Branch { .. } => vstd::pervasive::unreached(),
        };
        let mut taken = NodeData::Leaf(x);
        std::mem::swap(&mut self.storage[p].value, &mut taken);
        let old_payload = match taken {
            NodeData::Branch { payload, .. } => payload,
            NodeData::Leaf(_) => vstd::pervasive::unreached(),
        };
        let converted = f(old_payload);
        let mut value = NodeData::Leaf(converted);
        std::mem::swap(&mut self.storage[p].value, &mut value);
        let x = match value {
            NodeData::Leaf(x) => x,
            NodeData::Branch { .. } => vstd::pervasive::unreached(),
        };
        let ghost mid = made_leaf(nodes, p, converted);
        let ghost kids1 = kids.update(p as int, Seq::<usize>::empty());
        let ghost fam = family(kids, key);
        proof {
            lemma_only_child(nodes, kids, key, converted);
            lemma_remove_pending_freeform(mid, kids1, fam, key);
            assert(self.storage@ =~= removed_and_fixed(mid, key));
            assert(pending_after_removal(fam, key as int) =~= Set::<int>::empty());
            lemma_removed_and_fixed_parents(mid, key);
            assert(parents_of(mid) =~= parents_of(nodes));
            assert(values_of(mid) =~= values_of(nodes).update(p as int, NodeValue::Leaf(converted)));
        }
        self.kids = Ghost(kids_after_removal(kids1, key));
        x
    }

    /// Removes the branch `key`, whose only child is a leaf, together with that child, and
    /// returns their payloads. If the branch was the only child of its parent, the parent becomes
    /// a leaf holding the payload that `f` makes out of its branch payload.
    pub(crate) fn remove_branch_with_one_leaf<F: FnOnce(B) -> L>(&mut self, key: usize, f: F) -> (result: (B, L))
        requires
            old(self).wf(),
            key < old(self).nodes().len(),
            old(self).nodes()[key as int].value is Branch,
            old(self).children_lists()[key as int].len() == 1,
            old(self).nodes()[old(self).children_lists()[key as int][0] as int].value is Leaf,
            old(self).nodes()[key as int].parent is Some,
            f.requires((branch_payload(old(self).nodes()[parent_key(old(self).nodes(), key) as int]),)),
        ensures
            final(self).wf(),
            result.0 == branch_payload(old(self).nodes()[key as int]),
            result.1 == leaf_payload(old(self).nodes()[old(self).children_lists()[key as int][0] as int]),
            branch_removed(
                old(self).nodes(),
                old(self).children_lists(),
                key,
                final(self).nodes(),
                final(self).children_lists(),
            ),
            old(self).children_lists()[parent_key(old(self).nodes(), key) as int].len() == 1 ==> f.ensures(
                (branch_payload(old(self).nodes()[parent_key(old(self).nodes(), key) as int]),),
                leaf_payload(final(self).nodes()[parent_key(old(self).nodes(), key) as int]),
            ),
    {
        let ghost nodes = self.storage@;
        let ghost kids = self.kids@;
        let p = match self.storage[key].parent {
            Some(p) => p,
            None => vstd::pervasive::unreached(),
        };
        let ghost ks = kids[p as int];
        let ghost j = position_of(ks, key);
        proof {
            assert(parent_ok(parents_of(nodes), kids, Set::empty(), key as int));
            assert(links_ok(nodes, p as int, ks));
            assert(ks[j] == key);
            assert(nodes[ks[j] as int].prev_sibling == prev_in(ks, j));
            assert(nodes[ks[j] as int].next_sibling == next_in(ks, j));
        }
        if self.storage[key].prev_sibling.is_some() || self.storage[key].next_sibling.is_some() {
            self.remove_branch_among_siblings(key)
        } else {
            self.remove_only_branch(key, f)
        }
    }

    /// Removes the branch `key`, which has siblings and whose only child is a leaf, together with
    /// that child, and returns their payloads.
    #[verifier::spinoff_prover]
    #[verifier::rlimit(100)]
    fn remove_branch_among_siblings(&mut self, key: usize) -> (result: (B, L))
        requires
            old(self).wf(),
            key < old(self).nodes().len(),
            old(self).nodes()[key as int].value is Branch,
            old(self).children_lists()[key as int].len() == 1,
            old(self).nodes()[old(self).children_lists()[key as int][0] as int].value is Leaf,
            old(self).nodes()[key as int].parent is Some,
            old(self).children_lists()[parent_key(old(self).nodes(), key) as int].len() > 1,
        ensures
            final(self).wf(),
            result.0 == branch_payload(old(self).nodes()[key as int]),
            result.1 == leaf_payload(old(self).nodes()[old(self).children_lists()[key as int][0] as int]),
            branch_removed(
                old(self).nodes(),
                old(self).children_lists(),
                key,
                final(self).nodes(),
                final(self).children_lists(),
            ),
    {
        let p = match self.storage[key].parent {
            Some(p) => p,
            None => vstd::pervasive::unreached(),
        };
        let c = match &self.storage[key].value {
            NodeData::Branch { first_child, .. } => *first_child,
            NodeData::Leaf(_) => vstd::pervasive::unreached(),
        };
        let ghost nodes = self.storage@;
        let ghost kids = self.kids@;
        let ghost ks = kids[p as int];
        let ghost j = position_of(ks, key);
        let ghost fam = family(kids, key);
        proof {
            lemma_branch_family(nodes, kids, key);
        }
        self.unlink(key, p, Ghost(j));
        let ghost d = self.storage@;
        proof {
            lemma_unlink(nodes, kids, key, j);
        }
        self.kids = Ghost(kids.update(p as int, ks.remove(j)));
        let child = self.remove_pending(c, Ghost(fam));
        let ghost d2 = self.storage@;
        let node = self.remove_pending(key, Ghost(pending_after_removal(fam, c as int)));
        proof {
            lemma_removed_and_fixed_parents(d, c);
            lemma_removed_and_fixed_parents(d2, key);
        }
        let x = match child.value {
            NodeData::Leaf(x) => x,
            NodeData::Branch { .. } => vstd::pervasive::unreached(),
        };
        let b = match node.value {
            NodeData::Branch { payload, .. } => payload,
            NodeData::Leaf(_) => vstd::pervasive::unreached(),
        };
        (b, x)
    }

    /// Removes the branch `key`, the only child of its parent, whose only child is a leaf,
    /// together with that child, and returns their payloads. The parent becomes a leaf holding the
    /// payload that `f` makes out of its branch payload.
    #[verifier::rlimit(50)]
    fn remove_only_branch<F: FnOnce(B) -> L>(&mut self, key: usize, f: F) -> (result: (B, L))
        requires
            old(self).wf(),
            key < old(self).nodes().len(),
            old(self).nodes()[key as int].value is Branch,
            old(self).children_lists()[key as int].len() == 1,
            old(self).nodes()[old(self).children_lists()[key as int][0] as int].value is Leaf,
            old(self).nodes()[key as int].parent is Some,
            old(self).children_lists()[parent_key(old(self).nodes(), key) as int].len() == 1,
            f.requires((branch_payload(old(self).nodes()[parent_key(old(self).nodes(), key) as int]),)),
        ensures
            final(self).wf(),
            result.0 == branch_payload(old(self).nodes()[key as int]),
            result.1 == leaf_payload(old(self).nodes()[old(self).children_lists()[key as int][0] as int]),
            branch_removed(
                old(self).nodes(),
                old(self).children_lists(),
                key,
                final(self).nodes(),
                final(self).children_lists(),
            ),
            f.ensures(
                (branch_payload(old(self).nodes()[parent_key(old(self).nodes(), key) as int]),),
                leaf_payload(final(self).nodes()[parent_key(old(self).nodes(), key) as int]),
            ),
    {
        let p = match self.storage[key].parent {
            Some(p) => p,
            None => vstd::pervasive::unreached(),
        };
        let c = match &self.storage[key].value {
            NodeData::Branch { first_child, .. } => *first_child,
            NodeData::Leaf(_) => vstd::pervasive::unreached(),
        };
        let ghost nodes = self.storage@;
        let ghost kids = self.kids@;
        let ghost ks = kids[p as int];
        let ghost j = position_of(ks, key);
        let ghost fam = family(kids, key);
        proof {
            lemma_branch_family(nodes, kids, key);
            assert(ks.remove(j) =~= Seq::<usize>::empty());
        }
        let child = crate::storage::remove_and_shiftfix(&mut self.storage, c);
        let node = crate::storage::remove_and_shiftfix(&mut self.storage, key);
        let x = match child.value {
            NodeData::Leaf(x) => x,
            NodeData::Branch { .. } => vstd::pervasive::unreached(),
        };
        let b = match node.value {
            NodeData::Branch { payload, .. } => payload,
            NodeData::Leaf(_) => vstd::pervasive::unreached(),
        };
        let mut taken = NodeData::Leaf(x);
        std::mem::swap(&mut self.storage[p].value, &mut taken);
        let old_payload = match taken {
            NodeData::Branch { payload, .. } => payload,
            NodeData::Leaf(_) => vstd::pervasive::unreached(),
        };
        let converted = f(old_payload);
        let mut value = NodeData::Leaf(converted);
        std::mem::swap(&mut self.storage[p].value, &mut value);
        let x = match value {
            NodeData::Leaf(x) => x,
            NodeData::Branch { .. } => vstd::pervasive::unreached(),
        };
        let ghost mid = made_leaf(nodes, p, converted);
        let ghost kids1 = kids.update(p as int, Seq::<usize>::empty());
        let ghost mid2 = removed_and_fixed(mid, c);
        let ghost kids2 = kids_after_removal(kids1, c);
        proof {
            lemma_only_child(nodes, kids, key, converted);
            lemma_remove_pending_freeform(mid, kids1, fam, c);
            lemma_remove_pending_freeform(mid2, kids2, pending_after_removal(fam, c as int), key);
            assert(self.storage@ =~= removed_and_fixed(mid2, key));
            lemma_removed_and_fixed_parents(mid, c);
            lemma_removed_and_fixed_parents(mid2, key);
            assert(parents_of(mid) =~= parents_of(nodes));
            assert(values_of(mid) =~= values_of(nodes).update(p as int, NodeValue::Leaf(converted)));
        }
        self.kids = Ghost(kids_after_removal(kids2, key));
        (b, x)
    }
}


impl<B, L> FreeformTree<B, L> {
    /// Removes the leaf `key`. If its parent only had one child, the parent becomes a leaf
    /// holding the payload that `f` makes out of its branch payload.
    pub(crate) fn try_remove_leaf_at<F: FnOnce(B) -> L>(&mut self, key: usize, f: F) -> (result: Result<
        L,
        TryRemoveLeafError,
    >)
        requires
            old(self).wf(),
            key < old(self).nodes().len(),
            removal_converts_parent(old(self).nodes(), old(self).children_lists(), key) ==> f.requires(
                (branch_payload(old(self).nodes()[parent_key(old(self).nodes(), key) as int]),),
            ),
        ensures
            final(self).wf(),
            leaf_removal_outcome(
                old(self).nodes(),
                old(self).children_lists(),
                key,
                |x: B, y: L| f.ensures((x,), y),
                result,
                final(self).nodes(),
                final(self).children_lists(),
            ),
    {
        if matches!(&self.storage[key].value, NodeData::Branch { .. }) {
            return Err(TryRemoveLeafError::WasBranchNode);
        }
        let p = match self.storage[key].parent {
            Some(p) => p,
            None => return Err(TryRemoveLeafError::WasRootNode),
        };
        let ghost nodes = self.storage@;
        let ghost kids = self.kids@;
        let ghost ks = kids[p as int];
        let ghost j = position_of(ks, key);
        proof {
            assert(parent_ok(parents_of(nodes), kids, Set::empty(), key as int));
            assert(links_ok(nodes, p as int, ks));
            assert(ks[j] == key);
            assert(nodes[ks[j] as int].prev_sibling == prev_in(ks, j));
            assert(nodes[ks[j] as int].next_sibling == next_in(ks, j));
        }
        if self.storage[key].prev_sibling.is_none() && self.storage[key].next_sibling.is_none() {
            proof {
                assert(ks.remove(j) =~= Seq::<usize>::empty());
            }
            Ok(self.remove_only_leaf(key, f))
        } else {
            Ok(self.remove_leaf_among_siblings(key))
        }
    }

    /// The keys of the children of the node `key`, in order.
    pub(crate) fn children_keys_at(&self, key: usize) -> (r: Vec<usize>)
        requires
            self.wf(),
            key < self.nodes().len(),
        ensures
            r@ == self.children_lists()[key as int],
    {
        let first = match &self.storage[key].value {
            NodeData::Branch { first_child, .. } => *first_child,
            NodeData::Leaf(_) => {
                proof {
                    assert(links_ok(self.storage@, key as int, self.kids@[key as int]));
                }
                return Vec::new();
            },
        };
        let ghost nodes = self.storage@;
        let ghost ks = self.kids@[key as int];
        proof {
            assert(links_ok(nodes, key as int, ks));
            assert forall|t: int| 0 <= t < ks.len() implies #[trigger] ks[t] < nodes.len() by {
                assert(kid_ok(parents_of(nodes), self.kids@, Set::empty(), key as int, t));
            }
        }
        let mut r: Vec<usize> = Vec::new();
        let mut cur = first;
        loop
            invariant_except_break
                r.len() < ks.len(),
                cur == ks[r.len() as int],
            invariant
                self.wf(),
                nodes == self.storage@,
                links_ok(nodes, key as int, ks),
                forall|t: int| 0 <= t < ks.len() ==> #[trigger] ks[t] < nodes.len(),
                r.len() <= ks.len(),
                r@ == ks.subrange(0, r.len() as int),
            ensures
                r@ == ks,
            decreases ks.len() - r.len(),
        {
            proof {
                assert(nodes[ks[r.len() as int] as int].next_sibling == next_in(ks, r.len() as int));
            }
            r.push(cur);
            proof {
                assert(r@ =~= ks.subrange(0, r.len() as int));
            }
            match self.storage[cur].next_sibling {
                Some(n) => {
                    cur = n;
                },
                None => {
                    proof {
                        assert(r@ =~= ks);
                    }
                    break ;
                },
            }
        }
        r
    }

}


impl<B, L> crate::Tree for FreeformTree<B, L> {
    type Leaf = L;
    type Branch = B;
    type Key = usize;

    open spec fn tree_wf(&self) -> bool {
        self.wf()
    }

    open spec fn root_payload(&self) -> NodeValue<B, L> {
        self.nodes()[0].value.value_spec()
    }

    open spec fn num_nodes(&self) -> nat {
        self.nodes().len()
    }

    fn new(root: L) -> (tree: Self) {
        FreeformTree::new(root)
    }
}

} // verus!
