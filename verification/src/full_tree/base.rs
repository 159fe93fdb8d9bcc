use vstd::prelude::*;
use crate::{NodeValue, MakeBranchError, TryRemoveChildrenError};
use crate::shape::{
    shape_wf, lemma_attach_leaf, shift_key, lemma_detach, pending_after_removal, kid_ok, parent_ok,
    lemma_nothing_pending,
};
use crate::storage::{ListStorage, MoveFix};
use crate::traversal::{children_after_siblings, is_first_branch_kid, all_leaves, leaf_payloads};
use crate::util::{array_into_vec, vec_into_array};
use super::node_ref::{NodeRef, NodeRefMut};
use super::node::{
    Node, NodeData, parents_of, kids_of, values_of, full_wf, full_partial, full_order, consecutive,
    array_of, lemma_array_of, removed_and_fixed, lemma_remove_pending_full,
    lemma_removed_and_fixed_shape, shifted_keys,
};

verus! {

/// A tree whose branch nodes have exactly `N` children, storing its nodes in a `Vec`.
///
/// The key of a node is its index in the `Vec`. Removing nodes moves the nodes after them down to
/// close the gap, so keys are renumbered and a key taken before a removal may name another node
/// afterwards.
#[derive(Clone, Debug)]
pub struct FullTree<B, L, const N: usize> {
    storage: Vec<Node<B, L, N>>,
    root: usize,
}

/// The children of a branch, packed together: `N` values, in order.
#[derive(Copy, Clone, Debug, PartialEq, Eq, Hash)]
pub struct PackedChildren<T, const N: usize>(pub [T; N]);

impl<T, const N: usize> PackedChildren<T, N> {
    /// Returns the packed children as an array.
    pub fn into_inner(self) -> (r: [T; N])
        ensures
            r == self.0,
    {
        self.0
    }

    /// Returns an owned iterator over the packed children, in order.
    pub fn into_iter(self) -> (r: PackedChildrenIter<T>)
        ensures
            r.remaining() == self.0@,
    {
        PackedChildrenIter { items: array_into_vec(self.0) }
    }
}

impl<T, const N: usize> From<[T; N]> for PackedChildren<T, N> {
    /// Packs the array of children.
    fn from(children: [T; N]) -> (r: Self) {
        PackedChildren(children)
    }
}

impl<T, const N: usize> vstd::std_specs::convert::FromSpecImpl<[T; N]> for PackedChildren<T, N> {
    open spec fn obeys_from_spec() -> bool {
        true
    }

    open spec fn from_spec(children: [T; N]) -> Self {
        PackedChildren(children)
    }
}

/// An owned iterator over the elements of `PackedChildren`.
#[derive(Clone, Debug)]
pub struct PackedChildrenIter<T> {
    items: Vec<T>,
}

impl<T> PackedChildrenIter<T> {
    /// The elements the iterator has not yielded yet, front to back.
    pub closed spec fn remaining(&self) -> Seq<T> {
        self.items@
    }

    /// Yields the element at the front.
    pub fn next(&mut self) -> (r: Option<T>)
        ensures
            old(self).remaining().len() == 0 ==> r is None && final(self).remaining() == old(self).remaining(),
            old(self).remaining().len() > 0 ==> r == Some(old(self).remaining()[0])
                && final(self).remaining() == old(self).remaining().drop_first(),
    {
        if self.items.len() == 0 {
            None
        } else {
            let r = self.items.remove(0);
            proof {
                assert(self.items@ =~= old(self).remaining().drop_first());
            }
            Some(r)
        }
    }

    /// Yields the element at the back.
    pub fn next_back(&mut self) -> (r: Option<T>)
        ensures
            old(self).remaining().len() == 0 ==> r is None && final(self).remaining() == old(self).remaining(),
            old(self).remaining().len() > 0 ==> r == Some(old(self).remaining().last())
                && final(self).remaining() == old(self).remaining().drop_last(),
    {
        self.items.pop()
    }

    /// The number of elements the iterator has not yielded yet.
    pub fn len(&self) -> (r: usize)
        ensures
            r == self.remaining().len(),
    {
        self.items.len()
    }
}

/// The keys `start`, `start + 1`, ..., `count` of them.
pub open spec fn key_range(start: nat, count: nat) -> Seq<usize> {
    Seq::new(count, |j: int| (start + j) as usize)
}

/// The leaf payload of a node, if it is a leaf.
pub open spec fn leaf_payload<B, L, const N: usize>(node: Node<B, L, N>) -> L {
    node.value->Leaf_0
}

/// The branch payload of a node, if it is a branch.
pub open spec fn branch_payload<B, L, const N: usize>(node: Node<B, L, N>) -> B {
    node.value->Branch_payload
}

/// The node `node` with its payload replaced by a leaf payload.
pub open spec fn as_leaf<B, L, const N: usize>(node: Node<B, L, N>, payload: L) -> Node<B, L, N> {
    Node { value: NodeData::Leaf(payload), parent: node.parent }
}

/// The new leaves holding `children`, children of the node `key`.
pub open spec fn new_leaves<B, L, const N: usize>(key: usize, children: Seq<L>) -> Seq<Node<B, L, N>> {
    Seq::new(children.len(), |j: int| Node { value: NodeData::Leaf(children[j]), parent: Some(key) })
}

/// The storage after the leaf `key` has been made a branch holding `payload`, with new leaf
/// children holding `children` added at the end of the storage.
pub open spec fn branch_made<B, L, const N: usize>(
    nodes: Seq<Node<B, L, N>>,
    key: usize,
    payload: B,
    children: Seq<L>,
) -> Seq<Node<B, L, N>> {
    nodes.update(
        key as int,
        Node {
            value: NodeData::Branch { payload, children: array_of::<N>(key_range(nodes.len(), N as nat)) },
            parent: nodes[key as int].parent,
        },
    ) + new_leaves::<B, L, N>(key, children)
}

/// The outcome of turning the node `key` into a branch with new leaf children holding
/// `children`, its payload converted as `conv` allows.
pub open spec fn make_branch_outcome<B, L, const N: usize>(
    nodes: Seq<Node<B, L, N>>,
    key: usize,
    children: Seq<L>,
    conv: spec_fn(L, B) -> bool,
    result: Result<(), MakeBranchError<L, PackedChildren<L, N>>>,
    new_nodes: Seq<Node<B, L, N>>,
) -> bool {
    &&& (result is Ok <==> nodes[key as int].value is Leaf)
    &&& match result {
        Ok(()) => {
            let payload = branch_payload(new_nodes[key as int]);
            &&& conv(leaf_payload(nodes[key as int]), payload)
            &&& new_nodes == branch_made(nodes, key, payload, children)
        },
        Err(e) => {
            &&& new_nodes == nodes
            &&& e.packed_children.0@ == children
        },
    }
}

/// Adding the leaves of a new branch, one after the other, keeps the shape a tree.
proof fn lemma_attach_leaves(parents: Seq<Option<usize>>, kids: Seq<Seq<usize>>, key: usize, count: nat)
    requires
        shape_wf(parents, kids),
        key < parents.len(),
        kids[key as int].len() == 0,
        parents.len() + count < usize::MAX,
    ensures
        shape_wf(
            parents + Seq::new(count, |j: int| Some(key)),
            kids.update(key as int, key_range(parents.len(), count)) + Seq::new(count, |j: int| Seq::<usize>::empty()),
        ),
    decreases count,
{
    let n = parents.len();
    if count == 0 {
        assert(parents + Seq::new(count, |j: int| Some(key)) =~= parents);
        assert(key_range(n, count) =~= kids[key as int]);
        assert(kids.update(key as int, key_range(n, count)) + Seq::new(count, |j: int| Seq::<usize>::empty()) =~= kids);
    } else {
        let c = (count - 1) as nat;
        lemma_attach_leaves(parents, kids, key, c);
        let ps = parents + Seq::new(c, |j: int| Some(key));
        let ks = kids.update(key as int, key_range(n, c)) + Seq::new(c, |j: int| Seq::<usize>::empty());
        lemma_attach_leaf(ps, ks, key);
        assert(ps.push(Some(key)) =~= parents + Seq::new(count, |j: int| Some(key)));
        assert(ks[key as int].push(ps.len() as usize) =~= key_range(n, count));
        assert(ks.push(Seq::empty()).update(key as int, ks[key as int].push(ps.len() as usize)) =~= kids.update(
            key as int,
            key_range(n, count),
        ) + Seq::new(count, |j: int| Seq::<usize>::empty()));
    }
}

/// Making a leaf a branch with new leaf children at the end of the storage keeps the tree
/// well-formed.
proof fn lemma_branch_made_wf<B, L, const N: usize>(
    nodes: Seq<Node<B, L, N>>,
    key: usize,
    payload: B,
    children: Seq<L>,
)
    requires
        full_wf(nodes),
        key < nodes.len(),
        nodes[key as int].value is Leaf,
        children.len() == N,
        nodes.len() + N < usize::MAX,
    ensures
        full_wf(branch_made(nodes, key, payload, children)),
        branch_made(nodes, key, payload, children).len() == nodes.len() + N,
{
    let n = nodes.len();
    let m = branch_made(nodes, key, payload, children);
    let parents = parents_of(nodes);
    let kids = kids_of(nodes);
    let range = key_range(n, N as nat);
    lemma_array_of::<N>(range);
    assert(kids[key as int] == Seq::<usize>::empty());
    lemma_attach_leaves(parents, kids, key, N as nat);
    assert(parents_of(m) =~= parents + Seq::new(N as nat, |j: int| Some(key)));
    assert(kids_of(m) =~= kids.update(key as int, range) + Seq::new(N as nat, |j: int| Seq::<usize>::empty()));
    let mk = kids_of(m);
    let mp = parents_of(m);
    assert forall|i: int| 0 <= i < m.len() implies consecutive(#[trigger] mk[i]) by {
        if i < n && i != key {
            assert(mk[i] == kids[i]);
        }
    }
    // The old nodes' children all come before the new leaves.
    assert forall|i: int, j: int| 0 <= i < n && 0 <= j < kids[i].len() implies #[trigger] kids[i][j] < n by {
        assert(crate::shape::kid_ok(parents, kids, Set::empty(), i, j));
    }
    assert forall|x: int, j: int, i: int|
        0 < x < m.len() && 0 <= j < mk[x].len() && mp[x] is Some && 0 <= i < mk[mp[x]->Some_0 as int].len()
            implies #[trigger] mk[x][j] > #[trigger] mk[mp[x]->Some_0 as int][i] by {
        assert(x < n);
        let p = mp[x]->Some_0;
        assert(mp[x] == parents[x]);
        assert(crate::shape::parent_ok(parents, kids, Set::empty(), x));
        if x == key {
            assert(mk[x][j] == n + j);
            assert(p != key);
            assert(mk[p as int] == kids[p as int]);
        } else {
            assert(mk[x] == kids[x]);
            if p == key {
                assert(kids[key as int].contains(x as usize));
            }
            assert(mk[p as int] == kids[p as int]);
        }
    }
}

/// The storage after `count` nodes have been removed at `at`, one after the other.
pub open spec fn removed_times<B, L, const N: usize>(nodes: Seq<Node<B, L, N>>, at: usize, count: nat) -> Seq<
    Node<B, L, N>,
>
    decreases count,
{
    if count == 0 {
        nodes
    } else {
        removed_and_fixed(removed_times(nodes, at, (count - 1) as nat), at)
    }
}

/// The keys from `start` on, `count` of them, as a set.
pub open spec fn block(start: int, count: int) -> Set<int> {
    Set::new(|x: int| start <= x < start + count)
}

/// The outcome of removing the leaf children of the branch node `key`, which is turned into a
/// leaf holding a payload converted as `conv` allows.
pub open spec fn children_removal_outcome<B, L, const N: usize>(
    nodes: Seq<Node<B, L, N>>,
    key: usize,
    conv: spec_fn(B, L) -> bool,
    result: Result<[L; N], TryRemoveChildrenError>,
    new_nodes: Seq<Node<B, L, N>>,
) -> bool {
    let values = values_of(nodes);
    let kids = nodes[key as int].children();
    &&& (result == Err::<[L; N], _>(TryRemoveChildrenError::WasLeafNode) <==> nodes[key as int].value is Leaf)
    &&& (result matches Err(TryRemoveChildrenError::HadBranchChild(i)) ==> nodes[key as int].value is Branch
        && is_first_branch_kid(values, kids, i as int))
    &&& (result is Ok <==> nodes[key as int].value is Branch && all_leaves(values, kids))
    &&& (result is Err ==> new_nodes == nodes)
    &&& (result matches Ok(a) ==> {
        let converted = leaf_payload(new_nodes[key as int]);
        &&& a@ == leaf_payloads(values, kids)
        &&& conv(branch_payload(nodes[key as int]), converted)
        &&& new_nodes == removed_times(nodes.update(key as int, as_leaf(nodes[key as int], converted)), kids[0], N as nat)
    })
}

/// Removing the node at `at` from a block of pending keys starting there shortens the block.
proof fn lemma_block_after_removal(at: int, count: int)
    requires
        count > 0,
    ensures
        pending_after_removal(block(at, count), at) == block(at, count - 1),
{
    assert(pending_after_removal(block(at, count), at) =~= block(at, count - 1));
}

/// Nodes before the removed ones keep their payloads, and their parents when those come before
/// the removed ones too; the nodes from `at` on are the later ones, moved down.
proof fn lemma_removed_times<B, L, const N: usize>(nodes: Seq<Node<B, L, N>>, at: usize, count: nat)
    requires
        at + count <= nodes.len(),
    ensures
        removed_times(nodes, at, count).len() == nodes.len() - count,
        forall|i: int| 0 <= i < at ==> (#[trigger] removed_times(nodes, at, count)[i]).value.value_spec() == nodes[i].value.value_spec(),
        forall|i: int| 0 <= i < at && (nodes[i].parent matches Some(p) ==> p < at) ==> (#[trigger] removed_times(nodes, at, count)[i]).parent == nodes[i].parent,
        forall|t: int| 0 <= t && at + t + count < nodes.len() ==> (#[trigger] removed_times(nodes, at, count)[at + t]).value.value_spec() == nodes[at + t + count].value.value_spec(),
    decreases count,
{
    if count > 0 {
        let c = (count - 1) as nat;
        lemma_removed_times(nodes, at, c);
        let prev = removed_times(nodes, at, c);
        let m = removed_and_fixed(prev, at);
        assert forall|i: int| 0 <= i < at implies (#[trigger] m[i]).value.value_spec() == nodes[i].value.value_spec() by {
            assert(m[i] == prev[i].shifted(at, -1));
        }
        assert forall|i: int| 0 <= i < at && (nodes[i].parent matches Some(p) ==> p < at) implies (#[trigger] m[i]).parent == nodes[i].parent by {
            assert(m[i] == prev[i].shifted(at, -1));
        }
        assert forall|t: int| 0 <= t && at + t + count < nodes.len() implies (#[trigger] m[at + t]).value.value_spec() == nodes[at + t + count].value.value_spec() by {
            assert(m[at + t] == prev[at + t + 1].shifted(at, -1));
            assert(prev[at + (t + 1)].value.value_spec() == nodes[at + (t + 1) + c].value.value_spec());
        }
    }
}

/// Replacing a leaf before the removed nodes, whose parent comes before them too, by another leaf
/// with the same parent commutes with the removals.
proof fn lemma_removed_times_update<B, L, const N: usize>(
    nodes: Seq<Node<B, L, N>>,
    at: usize,
    count: nat,
    i: int,
    node: Node<B, L, N>,
)
    requires
        at + count <= nodes.len(),
        0 <= i < at,
        node.value is Leaf,
        node.parent matches Some(p) ==> p < at,
    ensures
        removed_times(nodes.update(i, node), at, count) == removed_times(nodes, at, count).update(i, node),
    decreases count,
{
    if count > 0 {
        let c = (count - 1) as nat;
        lemma_removed_times_update(nodes, at, c, i, node);
        let prev = removed_times(nodes, at, c);
        lemma_removed_times(nodes, at, c);
        assert(node.shifted(at, -1) == node);
        assert(removed_and_fixed(prev.update(i, node), at) =~= removed_and_fixed(prev, at).update(i, node));
    }
}

/// Replacing the payload of a leaf by another leaf payload keeps the tree well-formed.
proof fn lemma_leaf_payload_update<B, L, const N: usize>(nodes: Seq<Node<B, L, N>>, i: int, payload: L)
    requires
        full_wf(nodes),
        0 <= i < nodes.len(),
        nodes[i].value is Leaf,
    ensures
        full_wf(nodes.update(i, as_leaf(nodes[i], payload))),
{
    let m = nodes.update(i, as_leaf(nodes[i], payload));
    assert(parents_of(m) =~= parents_of(nodes));
    assert(kids_of(m) =~= kids_of(nodes));
}

/// Turning a branch whose children are leaves into a leaf leaves its children pending.
proof fn lemma_detach_children<B, L, const N: usize>(nodes: Seq<Node<B, L, N>>, key: usize, payload: L)
    requires
        full_wf(nodes),
        key < nodes.len(),
        nodes[key as int].value is Branch,
        all_leaves(values_of(nodes), nodes[key as int].children()),
    ensures
        ({
            let kids = nodes[key as int].children();
            let k0 = kids[0];
            &&& kids.len() == N
            &&& key < k0
            &&& k0 + N <= nodes.len()
            &&& forall|j: int| 0 <= j < N ==> #[trigger] kids[j] == k0 + j
            &&& full_partial(nodes.update(key as int, as_leaf(nodes[key as int], payload)), block(k0 as int, N as int))
        }),
{
    let parents = parents_of(nodes);
    let kids = kids_of(nodes);
    let ks = nodes[key as int].children();
    assert(kids[key as int] == ks);
    assert(consecutive(ks));
    let k0 = ks[0];
    assert(kid_ok(parents, kids, Set::empty(), key as int, 0));
    assert(parent_ok(parents, kids, Set::empty(), k0 as int));
    assert(kid_ok(parents, kids, Set::empty(), key as int, N - 1));
    assert(ks[N - 1] == k0 + N - 1);
    let detached = block(k0 as int, N as int);
    let d = nodes.update(key as int, as_leaf(nodes[key as int], payload));
    // The detached nodes are the children of `key`, all leaves.
    assert forall|x: int| #![trigger detached.contains(x)] detached.contains(x) && 0 <= x < parents.len() implies match parents[x] {
        Some(q) => detached.contains(q as int) || q == key,
        None => false,
    } by {
        let j = x - k0;
        assert(ks[j] == x);
        assert(kid_ok(parents, kids, Set::empty(), key as int, j));
    }
    assert forall|x: int, j: int| #![trigger detached.contains(x), kids[x][j]] detached.contains(x) && 0 <= x < parents.len() && 0 <= j < kids[x].len()
        implies detached.contains(kids[x][j] as int) || Set::<int>::empty().contains(kids[x][j] as int) by {
        let t = x - k0;
        assert(ks[t] == x);
        assert(values_of(nodes)[ks[t] as int] is Leaf);
    }
    assert forall|c: usize| #[trigger] Seq::<usize>::empty().contains(c) <==> (kids[key as int].contains(c) && !detached.contains(c as int)) by {
        if kids[key as int].contains(c) {
            let j = choose|j: int| 0 <= j < ks.len() && ks[j] == c;
            assert(ks[j] == k0 + j);
        }
    }
    assert(!detached.contains(key as int));
    assert(!detached.contains(0)) by {
        if k0 == 0 {
            assert(parents[0] is None);
        }
    }
    lemma_detach(parents, kids, Set::empty(), detached, key as int, Seq::empty());
    assert(Set::<int>::empty().union(detached) =~= detached);
    assert(parents_of(d) =~= parents);
    assert(kids_of(d) =~= kids.update(key as int, Seq::empty()));
    let dk = kids_of(d);
    let dp = parents_of(d);
    assert forall|x: int, j: int, i: int|
        0 < x < d.len() && !detached.contains(x) && 0 <= j < dk[x].len() && dp[x] is Some && 0 <= i < dk[dp[x]->Some_0 as int].len()
            implies #[trigger] dk[x][j] > #[trigger] dk[dp[x]->Some_0 as int][i] by {
        assert(x != key);
        let q = dp[x]->Some_0;
        assert(parent_ok(parents, kids, Set::empty(), x));
        if q == key {
            let t = choose|t: int| 0 <= t < ks.len() && ks[t] == x;
            assert(ks[t] == k0 + t);
        }
        assert(dk[x] == kids[x]);
        assert(dk[q as int] == kids[q as int]);
    }
    assert forall|i: int| 0 <= i < d.len() && !detached.contains(i) implies consecutive(#[trigger] dk[i]) by {
        if i != key {
            assert(dk[i] == kids[i]);
        }
    }
}

/// Removing the leaf children of a branch, which becomes a leaf holding `converted`, removes
/// nodes and keeps the parents and the payloads of the nodes before the children, but for the
/// branch itself.
pub proof fn lemma_children_removed<B, L, const N: usize>(nodes: Seq<Node<B, L, N>>, key: usize, converted: L)
    requires
        full_wf(nodes),
        key < nodes.len(),
        nodes[key as int].value is Branch,
        all_leaves(values_of(nodes), nodes[key as int].children()),
    ensures
        ({
            let kids = nodes[key as int].children();
            let new_nodes = removed_times(nodes.update(key as int, as_leaf(nodes[key as int], converted)), kids[0], N as nat);
            &&& new_nodes.len() < nodes.len()
            &&& new_nodes.len() == nodes.len() - N
            &&& forall|k: int| 0 <= k < kids[0] ==> #[trigger] parents_of(new_nodes)[k] == parents_of(nodes)[k]
            &&& forall|k: int| 0 <= k < kids[0] && k != key ==> #[trigger] values_of(new_nodes)[k] == values_of(nodes)[k]
            &&& values_of(new_nodes)[key as int] == NodeValue::<B, L>::Leaf(converted)
            &&& key < kids[0]
            &&& kids[0] + N <= nodes.len()
            &&& forall|j: int| 0 <= j < kids.len() ==> kids[0] <= #[trigger] kids[j]
        }),
{
    let kids = nodes[key as int].children();
    lemma_detach_children(nodes, key, converted);
    let k0 = kids[0];
    let d = nodes.update(key as int, as_leaf(nodes[key as int], converted));
    lemma_removed_times(d, k0, N as nat);
    let new_nodes = removed_times(d, k0, N as nat);
    assert forall|k: int| 0 <= k < k0 implies #[trigger] parents_of(new_nodes)[k] == parents_of(nodes)[k] by {
        if k != 0 {
            assert(parent_ok(parents_of(nodes), kids_of(nodes), Set::empty(), k));
        } else {
            assert(parents_of(nodes)[0] is None);
        }
        assert(parents_of(nodes)[k] == nodes[k].parent);
        assert(d[k].parent == nodes[k].parent);
        assert(new_nodes[k].parent == d[k].parent);
    }
    assert forall|k: int| 0 <= k < k0 && k != key implies #[trigger] values_of(new_nodes)[k] == values_of(nodes)[k] by {
        assert(new_nodes[k].value.value_spec() == d[k].value.value_spec());
    }
    assert(new_nodes[key as int].value.value_spec() == d[key as int].value.value_spec());
}

/// Replacing the payload of a node, keeping its parent and children, keeps the tree well-formed
/// and its shape unchanged.
proof fn lemma_payload_update<B, L, const N: usize>(nodes: Seq<Node<B, L, N>>, i: int)
    requires
        full_wf(nodes),
        0 <= i < nodes.len(),
    ensures
        forall|node: Node<B, L, N>|
            node.parent == nodes[i].parent && (#[trigger] nodes.update(i, node))[i].value.value_spec()
                is Branch == nodes[i].value.value_spec() is Branch && (node.value is Branch ==> node.value->Branch_children
                == nodes[i].value->Branch_children) ==> {
                &&& full_wf(nodes.update(i, node))
                &&& parents_of(nodes.update(i, node)) == parents_of(nodes)
                &&& kids_of(nodes.update(i, node)) == kids_of(nodes)
                &&& values_of(nodes.update(i, node)) == values_of(nodes).update(i, node.value.value_spec())
            },
{
    assert forall|node: Node<B, L, N>|
        node.parent == nodes[i].parent && (#[trigger] nodes.update(i, node))[i].value.value_spec()
            is Branch == nodes[i].value.value_spec() is Branch && (node.value is Branch ==> node.value->Branch_children
            == nodes[i].value->Branch_children) implies {
            &&& full_wf(nodes.update(i, node))
            &&& parents_of(nodes.update(i, node)) == parents_of(nodes)
            &&& kids_of(nodes.update(i, node)) == kids_of(nodes)
            &&& values_of(nodes.update(i, node)) == values_of(nodes).update(i, node.value.value_spec())
        } by {
        let s = nodes.update(i, node);
        assert(node.children() == nodes[i].children());
        assert(parents_of(s) =~= parents_of(nodes));
        assert(kids_of(s) =~= kids_of(nodes));
        assert(values_of(s) =~= values_of(nodes).update(i, node.value.value_spec()));
    }
}

impl<B, L, const N: usize> FullTree<B, L, N> {
    /// The nodes of the tree, indexed by key.
    pub closed spec fn nodes(&self) -> Seq<Node<B, L, N>> {
        self.storage@
    }

    /// The tree is well-formed: its root is at key 0 and its nodes form a tree whose branches
    /// have `N` consecutive children.
    pub closed spec fn wf(&self) -> bool {
        &&& self.root == 0
        &&& full_wf(self.storage@)
        &&& self.storage@.len() < usize::MAX
        &&& N <= u32::MAX
    }

    /// Creates a tree with the specified value for the root node.
    pub fn new(root: L) -> (tree: Self)
        requires
            0 < N <= u32::MAX,
        ensures
            tree.wf(),
            tree.nodes() == seq![Node::<B, L, N> { value: NodeData::Leaf(root), parent: None }],
    {
        Self::with_capacity(0, root)
    }

    /// Creates a tree with the specified capacity for the storage.
    pub fn with_capacity(capacity: usize, root: L) -> (tree: Self)
        requires
            0 < N <= u32::MAX,
        ensures
            tree.wf(),
            tree.nodes() == seq![Node::<B, L, N> { value: NodeData::Leaf(root), parent: None }],
    {
        let mut storage: Vec<Node<B, L, N>> = ListStorage::with_capacity(capacity);
        let root = storage.add(Node::root(root));
        let tree = FullTree { storage, root };
        proof {
            let nodes = tree.storage@;
            assert(parents_of(nodes)[0] is None);
            assert(kids_of(nodes)[0] == Seq::<usize>::empty());
        }
        tree
    }

    /// A well-formed tree is a tree whose branches have `N` consecutive children, which come
    /// after the siblings of their parent.
    pub proof fn lemma_wf(&self)
        requires
            self.wf(),
        ensures
            full_wf(self.nodes()),
            shape_wf(parents_of(self.nodes()), kids_of(self.nodes())),
            children_after_siblings(parents_of(self.nodes()), kids_of(self.nodes())),
            values_of(self.nodes()).len() == self.nodes().len(),
            self.nodes().len() < usize::MAX,
            0 < N <= u32::MAX,
    {
    }

    /// The number of nodes in the tree.
    pub(crate) fn len(&self) -> (r: usize)
        ensures
            r == self.nodes().len(),
    {
        self.storage.len()
    }

    /// The node at `key`.
    pub(crate) fn node_at(&self, key: usize) -> (r: &Node<B, L, N>)
        requires
            key < self.nodes().len(),
        ensures
            *r == self.nodes()[key as int],
    {
        &self.storage[key]
    }

    /// Returns a *mutable* reference to the payload of the node at `key`.
    pub(crate) fn value_mut_at(&mut self, key: usize) -> (r: NodeValue<&mut B, &mut L>)
        requires
            old(self).wf(),
            key < old(self).nodes().len(),
        ensures
            match r {
                NodeValue::Branch(b) => old(self).nodes()[key as int].value.value_spec() == NodeValue::<B, L>::Branch(*b),
                NodeValue::Leaf(l) => old(self).nodes()[key as int].value.value_spec() == NodeValue::<B, L>::Leaf(*l),
            },
            final(self).wf(),
            parents_of(final(self).nodes()) == parents_of(old(self).nodes()),
            kids_of(final(self).nodes()) == kids_of(old(self).nodes()),
            values_of(final(self).nodes()) == values_of(old(self).nodes()).update(
                key as int,
                match r {
                    NodeValue::Branch(b) => NodeValue::<B, L>::Branch(*final(b)),
                    NodeValue::Leaf(l) => NodeValue::<B, L>::Leaf(*final(l)),
                },
            ),
    {
        proof {
            lemma_payload_update(self.storage@, key as int);
        }
        let node = &mut self.storage[key];
        match &mut node.value {
            NodeData::Branch { payload, .. } => NodeValue::Branch(payload),
            NodeData::Leaf(x) => NodeValue::Leaf(x),
        }
    }

    /// Returns a reference to the root node of the tree.
    pub fn root(&self) -> (r: NodeRef<'_, B, L, N>)
        requires
            self.wf(),
        ensures
            *r.tree() == *self,
            r.key() == 0,
            r.valid(),
    {
        NodeRef::new_raw_unchecked(self, self.root)
    }

    /// Returns a *mutable* reference to the root node of the tree, allowing modifications to the
    /// entire tree.
    pub fn root_mut(&mut self) -> (r: NodeRefMut<'_, B, L, N>)
        requires
            old(self).wf(),
        ensures
            r.tree() == *old(self),
            r.key() == 0,
            r.valid(),
            *final(r.tree_borrow()) == *final(self),
    {
        let root = self.root;
        NodeRefMut::new_raw_unchecked(self, root)
    }

    /// Converts a leaf node into a branch node with the specified leaf children, using the
    /// provided closure to convert the payload.
    pub(crate) fn make_branch_at<F: FnOnce(L) -> B>(&mut self, key: usize, children: [L; N], f: F) -> (result: Result<
        (),
        MakeBranchError<L, PackedChildren<L, N>>,
    >)
        requires
            old(self).wf(),
            key < old(self).nodes().len(),
            old(self).nodes()[key as int].value is Leaf ==> f.requires(
                (leaf_payload(old(self).nodes()[key as int]),),
            ),
            old(self).nodes().len() + N + 1 < usize::MAX,
        ensures
            final(self).wf(),
            make_branch_outcome(
                old(self).nodes(),
                key,
                children@,
                |x: L, y: B| f.ensures((x,), y),
                result,
                final(self).nodes(),
            ),
    {
        if matches!(&self.storage[key].value, NodeData::Branch { .. }) {
            return Err(MakeBranchError::new(PackedChildren(children)));
        }
        let ghost old_nodes = self.storage@;
        let ghost values = children@;
        let n = self.storage.len();
        let mut rest = array_into_vec(children);
        let first = rest.remove(0);
        // Temporarily put the first child's payload in the node to take the old payload out.
        let mut value = NodeData::Leaf(first);
        std::mem::swap(&mut self.storage[key].value, &mut value);
        let old_payload = match value {
            NodeData::Leaf(x) => x,
            NodeData::Branch { .. } => vstd::pervasive::unreached(),
        };
        let payload = f(old_payload);
        let mut keys = [0usize; N];
        let mut i: usize = 0;
        while i < N
            invariant
                i <= N,
                n + N + 1 < usize::MAX,
                forall|j: int| 0 <= j < i ==> #[trigger] keys@[j] == n + j,
            decreases N - i,
        {
            keys[i] = n + i;
            i = i + 1;
        }
        proof {
            lemma_array_of::<N>(key_range(n as nat, N as nat));
            assert(keys@ =~= key_range(n as nat, N as nat));
            assert(keys =~= array_of::<N>(key_range(n as nat, N as nat)));
        }
        let mut branch = NodeData::Branch { payload, children: keys };
        std::mem::swap(&mut self.storage[key].value, &mut branch);
        let first = match branch {
            NodeData::Leaf(x) => x,
            NodeData::Branch { .. } => vstd::pervasive::unreached(),
        };
        let ghost mid = self.storage@;
        self.storage.push(Node::leaf(first, Some(key)));
        let mut count: usize = 1;
        while rest.len() > 0
            invariant
                values.len() == N,
                1 <= count <= N,
                rest@ == values.subrange(count as int, N as int),
                self.storage@ == mid + new_leaves::<B, L, N>(key, values.subrange(0, count as int)),
                mid.len() == n,
                self.root == old(self).root,
            decreases rest@.len(),
        {
            let next = rest.remove(0);
            self.storage.push(Node::leaf(next, Some(key)));
            proof {
                assert(values.subrange(0, count as int).push(next) =~= values.subrange(0, count + 1));
                assert(self.storage@ =~= mid + new_leaves::<B, L, N>(key, values.subrange(0, count + 1)));
            }
            count = count + 1;
        }
        proof {
            assert(values.subrange(0, N as int) =~= values);
            assert(mid == old_nodes.update(
                key as int,
                Node {
                    value: NodeData::Branch { payload, children: array_of::<N>(key_range(n as nat, N as nat)) },
                    parent: old_nodes[key as int].parent,
                },
            ));
            assert(self.storage@ =~= branch_made(old_nodes, key, payload, values));
            lemma_branch_made_wf(old_nodes, key, payload, values);
        }
        Ok(())
    }

    /// Removes the pending node `key`, renumbering the keys after it.
    fn remove_pending(&mut self, key: usize, Ghost(pending): Ghost<Set<int>>) -> (node: Node<B, L, N>)
        requires
            old(self).root == 0,
            full_partial(old(self).nodes(), pending),
            pending.contains(key as int),
            key < old(self).nodes().len(),
        ensures
            final(self).root == 0,
            node == old(self).nodes()[key as int],
            final(self).nodes() == removed_and_fixed(old(self).nodes(), key),
            full_partial(final(self).nodes(), pending_after_removal(pending, key as int)),
    {
        let ghost old_nodes = self.storage@;
        let node = crate::storage::remove_and_shiftfix(&mut self.storage, key);
        proof {
            assert(self.storage@ =~= removed_and_fixed(old_nodes, key));
            lemma_remove_pending_full(old_nodes, pending, key);
        }
        node
    }

    /// Returns the position of the first child of the branch `key` which is a branch, if any.
    fn first_branch_child(&self, key: usize, children: [usize; N]) -> (r: Option<u32>)
        requires
            self.wf(),
            key < self.nodes().len(),
            self.nodes()[key as int].value matches NodeData::Branch { children: c, .. } && c == children,
        ensures
            match r {
                Some(i) => is_first_branch_kid(values_of(self.nodes()), children@, i as int),
                None => all_leaves(values_of(self.nodes()), children@),
            },
    {
        proof {
            let kids = kids_of(self.storage@);
            assert(kids[key as int] == children@);
            assert forall|j: int| 0 <= j < N implies #[trigger] children@[j] < self.storage@.len() by {
                assert(kid_ok(parents_of(self.storage@), kids, Set::empty(), key as int, j));
            }
        }
        let mut i: usize = 0;
        while i < N
            invariant
                self.wf(),
                i <= N,
                forall|j: int| 0 <= j < N ==> #[trigger] children@[j] < self.nodes().len(),
                forall|j: int| 0 <= j < i ==> values_of(self.nodes())[#[trigger] children@[j] as int] is Leaf,
            decreases N - i,
        {
            if matches!(&self.storage[children[i]].value, NodeData::Branch { .. }) {
                return Some(i as u32);
            }
            i = i + 1;
        }
        None
    }

    /// Removes the children of the branch `key`, which are all leaves, and turns it into a leaf
    /// holding the payload made by `f`. Returns the payloads of the children, in order.
    fn remove_leaf_children<F: FnOnce(B) -> L>(&mut self, key: usize, f: F) -> (result: [L; N])
        requires
            old(self).wf(),
            key < old(self).nodes().len(),
            old(self).nodes()[key as int].value is Branch,
            all_leaves(values_of(old(self).nodes()), old(self).nodes()[key as int].children()),
            f.requires((branch_payload(old(self).nodes()[key as int]),)),
        ensures
            final(self).wf(),
            ({
                let nodes = old(self).nodes();
                let kids = nodes[key as int].children();
                let converted = leaf_payload(final(self).nodes()[key as int]);
                &&& final(self).nodes()[key as int].value is Leaf
                &&& result@ == leaf_payloads(values_of(nodes), kids)
                &&& f.ensures((branch_payload(nodes[key as int]),), converted)
                &&& final(self).nodes() == removed_times(nodes.update(key as int, as_leaf(nodes[key as int], converted)), kids[0], N as nat)
            }),
    {
        let ghost old_nodes = self.storage@;
        let ghost kids = old_nodes[key as int].children();
        let k0 = match &self.storage[key].value {
            NodeData::Branch { children, .. } => children[0],
            NodeData::Leaf(_) => vstd::pervasive::unreached(),
        };
        let ghost l0 = leaf_payload(old_nodes[k0 as int]);
        let ghost d = old_nodes.update(key as int, as_leaf(old_nodes[key as int], l0));
        proof {
            lemma_detach_children(old_nodes, key, l0);
            assert(values_of(old_nodes)[kids[0] as int] is Leaf);
            lemma_removed_and_fixed_shape(old_nodes, k0);
        }
        let mut first = crate::storage::remove_and_shiftfix(&mut self.storage, k0);
        std::mem::swap(&mut self.storage[key].value, &mut first.value);
        let payload = match first.value {
            NodeData::Branch { payload, .. } => payload,
            NodeData::Leaf(_) => vstd::pervasive::unreached(),
        };
        proof {
            let s = self.storage@;
            if key != 0 {
                assert(parent_ok(parents_of(old_nodes), kids_of(old_nodes), Set::empty(), key as int));
            } else {
                assert(parents_of(old_nodes)[0] is None);
            }
            assert(parents_of(old_nodes)[key as int] == old_nodes[key as int].parent);
            lemma_removed_times_update(old_nodes, k0, 1, key as int, as_leaf(old_nodes[key as int], l0));
            assert(removed_times(old_nodes, k0, 0) == old_nodes);
            assert(removed_times(old_nodes, k0, 1) == removed_and_fixed(old_nodes, k0));
            assert(removed_times(d, k0, 0) == d);
            assert(removed_and_fixed(old_nodes, k0)[key as int] == old_nodes[key as int].shifted(k0, -1));
            assert(s =~= removed_times(d, k0, 1));
            lemma_remove_pending_full(d, block(k0 as int, N as int), k0);
            lemma_block_after_removal(k0 as int, N as int);
        }
        let mut rest: Vec<L> = Vec::new();
        let mut count: usize = 1;
        while count < N
            invariant
                1 <= count <= N,
                k0 + N <= old_nodes.len(),
                key < k0,
                self.root == 0,
                self.storage@ == removed_times(d, k0, count as nat),
                full_partial(self.storage@, block(k0 as int, N - count)),
                d.len() == old_nodes.len(),
                forall|t: int| 0 <= t < N ==> #[trigger] d[k0 + t].value.value_spec() == values_of(old_nodes)[k0 + t],
                forall|t: int| 0 <= t < N ==> values_of(old_nodes)[#[trigger] kids[t] as int] is Leaf,
                forall|j: int| 0 <= j < N ==> #[trigger] kids[j] == k0 + j,
                rest@.len() == count - 1,
                forall|j: int| 0 <= j < count - 1 ==> #[trigger] rest@[j] == values_of(old_nodes)[kids[j + 1] as int]->Leaf_0,
            decreases N - count,
        {
            proof {
                lemma_removed_times(d, k0, count as nat);
                assert(self.storage@[k0 + 0].value.value_spec() == d[k0 + 0 + count].value.value_spec());
                assert(kids[count as int] == k0 + count);
            }
            let node = self.remove_pending(k0, Ghost(block(k0 as int, N - count)));
            match node.value {
                NodeData::Leaf(x) => rest.push(x),
                NodeData::Branch { .. } => vstd::pervasive::unreached(),
            }
            proof {
                lemma_block_after_removal(k0 as int, N - count);
            }
            count = count + 1;
        }
        proof {
            assert(block(k0 as int, 0) =~= Set::<int>::empty());
            lemma_removed_times(d, k0, N as nat);
            let s = self.storage@;
            assert(s[key as int].value.value_spec() == d[key as int].value.value_spec());
        }
        let converted = f(payload);
        let mut leaf = NodeData::Leaf(converted);
        std::mem::swap(&mut self.storage[key].value, &mut leaf);
        let l = match leaf {
            NodeData::Leaf(x) => x,
            NodeData::Branch { .. } => vstd::pervasive::unreached(),
        };
        let mut out: Vec<L> = Vec::new();
        out.push(l);
        out.append(&mut rest);
        proof {
            let target = leaf_payloads(values_of(old_nodes), kids);
            assert(out@ =~= target) by {
                assert(kids[0] == k0);
            }
            let before = removed_times(d, k0, N as nat);
            lemma_removed_times(d, k0, N as nat);
            lemma_leaf_payload_update(before, key as int, converted);
            assert(before[key as int].parent == d[key as int].parent);
            lemma_removed_times_update(d, k0, N as nat, key as int, as_leaf(old_nodes[key as int], converted));
            assert(d.update(key as int, as_leaf(old_nodes[key as int], converted)) =~= old_nodes.update(key as int, as_leaf(old_nodes[key as int], converted)));
            assert(self.storage@ =~= before.update(key as int, as_leaf(before[key as int], converted)));
        }
        match vec_into_array::<L, N>(out) {
            Ok(a) => a,
            Err(_) => vstd::pervasive::unreached(),
        }
    }

    /// Removes the children of a branch node if they are all leaves, turning it into a leaf
    /// holding the payload made by `f`. Returns the payloads of the children, in order.
    pub(crate) fn try_remove_children_at<F: FnOnce(B) -> L>(&mut self, key: usize, f: F) -> (result: Result<
        [L; N],
        TryRemoveChildrenError,
    >)
        requires
            old(self).wf(),
            key < old(self).nodes().len(),
            old(self).nodes()[key as int].value is Branch ==> f.requires(
                (branch_payload(old(self).nodes()[key as int]),),
            ),
        ensures
            final(self).wf(),
            children_removal_outcome(
                old(self).nodes(),
                key,
                |x: B, y: L| f.ensures((x,), y),
                result,
                final(self).nodes(),
            ),
    {
        let children = match &self.storage[key].value {
            NodeData::Branch { children, .. } => *children,
            NodeData::Leaf(_) => return Err(TryRemoveChildrenError::WasLeafNode),
        };
        match self.first_branch_child(key, children) {
            Some(i) => Err(TryRemoveChildrenError::HadBranchChild(i)),
            None => Ok(self.remove_leaf_children(key, f)),
        }
    }
}

impl<B, L: Default> Default for FullTree<B, L, 8> {
    /// Creates an octree whose root is a leaf holding the default payload.
    fn default() -> (tree: Self)
        ensures
            tree.wf(),
            tree.nodes().len() == 1,
            tree.nodes()[0].parent is None,
            tree.nodes()[0].value is Leaf,
    {
        Self::new(L::default())
    }
}

impl<B, L: Default> Default for FullTree<B, L, 4> {
    /// Creates a quadtree whose root is a leaf holding the default payload.
    fn default() -> (tree: Self)
        ensures
            tree.wf(),
            tree.nodes().len() == 1,
            tree.nodes()[0].parent is None,
            tree.nodes()[0].value is Leaf,
    {
        Self::new(L::default())
    }
}


/// Every key the node holds is at most `bound`.
pub open spec fn keys_at_most<B, L, const N: usize>(node: Node<B, L, N>, bound: usize) -> bool {
    &&& node.parent matches Some(p) ==> p <= bound
    &&& forall|j: int| 0 <= j < node.children().len() ==> #[trigger] node.children()[j] <= bound
}

/// Renumbering the keys after a removal at `r + 1` leaves a node holding keys up to `r` as it is.
proof fn lemma_shift_identity<B, L, const N: usize>(nd: Node<B, L, N>, r: usize)
    requires
        keys_at_most(nd, r),
    ensures
        nd.shifted(r, -1) === nd,
{
    match nd.value {
        NodeData::Branch { payload, children } => {
            let sk = shifted_keys(children@, r, -1);
            assert forall|j: int| 0 <= j < N implies #[trigger] sk[j] == children@[j] by {
                assert(nd.children()[j] == children@[j]);
            }
            assert(sk =~= children@);
            lemma_array_of::<N>(children@);
            assert(array_of::<N>(sk) =~= children);
        },
        NodeData::Leaf(_) => {},
    }
}

/// Removing, `count` times, the node right after a storage `s` whose nodes, and those of
/// `leaves` that follow them, only hold keys up to the end of `s`, takes the first `count` of
/// `leaves` away.
proof fn lemma_removed_times_leaves<B, L, const N: usize>(s: Seq<Node<B, L, N>>, leaves: Seq<Node<B, L, N>>, count: nat)
    requires
        count <= leaves.len(),
        s.len() + leaves.len() < usize::MAX,
        forall|i: int| 0 <= i < s.len() ==> keys_at_most(#[trigger] s[i], s.len() as usize),
        forall|j: int| 0 <= j < leaves.len() ==> keys_at_most(#[trigger] leaves[j], s.len() as usize),
    ensures
        removed_times(s + leaves, s.len() as usize, count) == s + leaves.subrange(count as int, leaves.len() as int),
    decreases count,
{
    let n = s.len() as usize;
    if count == 0 {
        assert(leaves.subrange(0, leaves.len() as int) =~= leaves);
    } else {
        let c = (count - 1) as nat;
        lemma_removed_times_leaves(s, leaves, c);
        let prev = s + leaves.subrange(c as int, leaves.len() as int);
        let next = s + leaves.subrange(count as int, leaves.len() as int);
        let t = removed_and_fixed(prev, n);
        assert forall|i: int| 0 <= i < next.len() implies #[trigger] t[i] === next[i] by {
            if i < n {
                assert(prev.remove(n as int)[i] == s[i]);
                lemma_shift_identity(s[i], n);
            } else {
                assert(prev.remove(n as int)[i] == leaves[i - n + count]);
                lemma_shift_identity(leaves[i - n + count], n);
            }
        }
        assert(t =~= next);
    }
}

impl<B, L, const N: usize> FullTree<B, L, N> {
    /// Every node of a well-formed tree only holds keys of the tree.
    proof fn lemma_keys_below(&self)
        requires
            self.wf(),
        ensures
            forall|i: int| 0 <= i < self.nodes().len() ==> keys_at_most(#[trigger] self.nodes()[i], self.nodes().len() as usize),
    {
        assert forall|i: int| 0 <= i < self.nodes().len() implies keys_at_most(#[trigger] self.nodes()[i], self.nodes().len() as usize) by {
            self.lemma_links(i as usize);
        }
    }
}

/// Turning a leaf into a branch with new leaf children and then removing those children, with
/// the payload kept as it is both times, gives back the very same storage, and the removal hands
/// back the payloads of the children in order.
pub proof fn law_make_branch_then_remove_children<D, const N: usize>(
    before: &FullTree<D, D, N>,
    key: usize,
    children: Seq<D>,
    made: Result<(), MakeBranchError<D, PackedChildren<D, N>>>,
    after_make: &FullTree<D, D, N>,
    removed: Result<[D; N], TryRemoveChildrenError>,
    after_remove: &FullTree<D, D, N>,
)
    requires
        before.wf(),
        key < before.nodes().len(),
        children.len() == N,
        before.nodes().len() + N + 1 < usize::MAX,
        made is Ok,
        make_branch_outcome(before.nodes(), key, children, |x: D, y: D| y == x, made, after_make.nodes()),
        children_removal_outcome(after_make.nodes(), key, |x: D, y: D| y == x, removed, after_remove.nodes()),
    ensures
        removed matches Ok(a) && a@ == children,
        after_remove.nodes() == before.nodes(),
{
    before.lemma_keys_below();
    before.lemma_wf();
    let nodes = before.nodes();
    let n = nodes.len();
    let nodes1 = after_make.nodes();
    let payload = branch_payload(nodes1[key as int]);
    let range = key_range(n, N as nat);
    lemma_array_of::<N>(range);
    assert(nodes1[key as int].children() == range);
    let values1 = values_of(nodes1);
    let leaves = new_leaves::<D, D, N>(key, children);
    assert forall|j: int| 0 <= j < N implies values1[#[trigger] range[j] as int] == NodeValue::<D, D>::Leaf(children[j]) by {
        assert(range[j] == n + j);
        assert(nodes1[n + j] == leaves[j]);
    }
    assert(leaf_payloads(values1, range) =~= children);
    assert(range[0] == n);
    let restored = as_leaf(nodes1[key as int], payload);
    assert(restored === nodes[key as int]);
    let x = nodes1.update(key as int, restored);
    assert(x =~= nodes + leaves);
    assert forall|j: int| 0 <= j < leaves.len() implies keys_at_most(#[trigger] leaves[j], n as usize) by {}
    lemma_removed_times_leaves(nodes, leaves, N as nat);
    assert(leaves.subrange(N as int, N as int) =~= Seq::<Node<D, D, N>>::empty());
    assert(nodes + Seq::<Node<D, D, N>>::empty() =~= nodes);
}

impl<B, L> crate::Tree for FullTree<B, L, 8> {
    type Leaf = L;
    type Branch = B;
    type Key = usize;

    open spec fn tree_wf(&self) -> bool {
        self.wf()
    }

    open spec fn root_payload(&self) -> NodeValue<B, L> {
        self.nodes()[0].value.value_spec()
    }

    open spec fn num_nodes(&self) -> nat {
        self.nodes().len()
    }

    fn new(root: L) -> (tree: Self) {
        FullTree::new(root)
    }
}

impl<B, L> crate::Tree for FullTree<B, L, 4> {
    type Leaf = L;
    type Branch = B;
    type Key = usize;

    open spec fn tree_wf(&self) -> bool {
        self.wf()
    }

    open spec fn root_payload(&self) -> NodeValue<B, L> {
        self.nodes()[0].value.value_spec()
    }

    open spec fn num_nodes(&self) -> nat {
        self.nodes().len()
    }

    fn new(root: L) -> (tree: Self) {
        FullTree::new(root)
    }
}

} // verus!
