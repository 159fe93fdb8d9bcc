//! Trees which allow at most two children for their nodes.
//!
//! Both *full* binary trees and non-full ones are supported. The former ones allow strictly either
//! zero or two children, the latter ones also allow one child to exist without the other one. If
//! there is only one, it's always treated as the left one, and removing the left child for a full
//! branch will shift the right child into the position of the left one (implemented as a simple
//! key modification which does not move the elements themselves around).
use vstd::prelude::*;
use vstd::string::*;
use crate::shape::{key_before_removal, lemma_pending_unconstrained, lemma_nothing_pending, shape_wf, lemma_attach_leaf, lemma_remove_pending, lemma_detach, parents_after_removal, kids_after_removal, keys_after_removal, pending_after_removal, key_after_removal, shape_partial, parent_ok, kid_ok};
use crate::storage::{ListStorage, MoveFix, remove_and_shiftfix};
use crate::{
    NodeValue, MakeBranchError, TryRemoveLeafError, TryRemoveBranchError, TryRemoveChildrenError,
};

mod node;
mod node_ref;
mod impl_traversable;

pub use impl_traversable::values_of;

pub use node::{
    Node, NodeData, parents_of, kids_of, removed_and_fixed, binary_wf, binary_partial, binary_order,
    lemma_removed_and_fixed_shape, lemma_removed_and_fixed_update, lemma_binary_links,
};

pub use node_ref::{NodeRef, NodeRefMut, node_value, value_refs_match};

verus! {

/// The error type returned by [`NodeRefMut::make_full_branch`].
#[derive(Copy, Clone, Debug, PartialEq, Eq, Hash)]
pub enum MakeFullBranchError<L> {
    /// The node was a leaf node, not a partial branch.
    WasLeafNode {
        /// The provided right child to add, which was deemed useless when the operation failed
        /// and is returned to the caller to avoid dropping it.
        right_child: L,
    },
    /// The node already was a full branch.
    WasFullBranch {
        /// The provided right child to add, which was deemed useless when the operation failed
        /// and is returned to the caller to avoid dropping it.
        right_child: L,
    },
}

impl<L> MakeFullBranchError<L> {
    /// Extracts the provided right child to add, which was deemed useless when the operation
    /// failed.
    pub fn right_child(self) -> (r: L)
        ensures
            r == match self {
                MakeFullBranchError::WasLeafNode { right_child } => right_child,
                MakeFullBranchError::WasFullBranch { right_child } => right_child,
            },
    {
        match self {
            MakeFullBranchError::WasLeafNode { right_child } => right_child,
            MakeFullBranchError::WasFullBranch { right_child } => right_child,
        }
    }

    /// Describes the error.
    pub fn to_string(&self) -> (r: String)
        ensures
            r@ == match self {
                MakeFullBranchError::WasLeafNode { .. } => "the node was a leaf, not a partial branch"@,
                MakeFullBranchError::WasFullBranch { .. } => "the node already was a full branch"@,
            },
    {
        match self {
            MakeFullBranchError::WasLeafNode { .. } => String::from_str("the node was a leaf, not a partial branch"),
            MakeFullBranchError::WasFullBranch { .. } => String::from_str("the node already was a full branch"),
        }
    }
}

/// A binary tree, storing its nodes in a `Vec`.
///
/// The key of a node is its index in the `Vec`. Removing nodes moves the nodes after them down to
/// close the gap, so keys are renumbered and a key taken before a removal may name another node
/// afterwards.
#[derive(Clone, Debug)]
pub struct BinaryTree<B, L = B> {
    storage: Vec<Node<B, L>>,
    root: usize,
}

/// The leaf payload of a node, if it is a leaf.
pub open spec fn leaf_payload<B, L>(node: Node<B, L>) -> L {
    node.value->Leaf_0
}

/// The branch payload of a node, if it is a branch.
pub open spec fn branch_payload<B, L>(node: Node<B, L>) -> B {
    node.value->Branch_payload
}

/// The node `node` with its payload replaced by a branch payload with the specified children.
pub open spec fn as_branch<B, L>(
    node: Node<B, L>,
    payload: B,
    left_child: usize,
    right_child: Option<usize>,
) -> Node<B, L> {
    Node { value: NodeData::Branch { payload, left_child, right_child }, parent: node.parent }
}

/// The node `node` with its payload replaced by a leaf payload.
pub open spec fn as_leaf<B, L>(node: Node<B, L>, payload: L) -> Node<B, L> {
    Node { value: NodeData::Leaf(payload), parent: node.parent }
}

/// The storage after a leaf node `key` has been turned into a branch with new leaf children
/// holding `left` and `right`.
pub open spec fn branch_made<B, L>(
    nodes: Seq<Node<B, L>>,
    key: usize,
    payload: B,
    left: L,
    right: Option<L>,
) -> Seq<Node<B, L>> {
    let n = nodes.len();
    let with_left = nodes.update(
        key as int,
        as_branch(
            nodes[key as int],
            payload,
            n as usize,
            match right {
                Some(_) => Some((n + 1) as usize),
                None => None,
            },
        ),
    ).push(Node { value: NodeData::Leaf(left), parent: Some(key) });
    match right {
        Some(r) => with_left.push(Node { value: NodeData::Leaf(r), parent: Some(key) }),
        None => with_left,
    }
}

/// The parent `parent` after its child `child` has been taken away: a right child takes the
/// place of a removed left child, and a parent left without children becomes a leaf holding
/// `converted`.
pub open spec fn parent_without_child<B, L>(parent: Node<B, L>, child: usize, converted: L) -> Node<
    B,
    L,
> {
    match parent.value {
        NodeData::Branch { payload, left_child, right_child } => if left_child == child {
            match right_child {
                Some(r) => as_branch(parent, payload, r, None),
                None => as_leaf(parent, converted),
            }
        } else {
            as_branch(parent, payload, left_child, None)
        },
        NodeData::Leaf(_) => parent,
    }
}

/// The storage after the leaf `left` and, if any, the leaf `right` (which comes after it) have
/// been removed: the right one first, then the left one.
pub open spec fn leaves_removed<B, L>(nodes: Seq<Node<B, L>>, left: usize, right: Option<usize>) -> Seq<
    Node<B, L>,
> {
    let with_right = match right {
        Some(r) => removed_and_fixed(nodes, r),
        None => nodes,
    };
    removed_and_fixed(with_right, left)
}

/// The storage after the leaf children of the branch node `key` have been removed.
pub open spec fn children_removed<B, L>(nodes: Seq<Node<B, L>>, key: usize) -> Seq<Node<B, L>> {
    leaves_removed(
        nodes,
        nodes[key as int].value->Branch_left_child,
        nodes[key as int].value->Branch_right_child,
    )
}

/// The storage after the branch node `key` has been removed together with its leaf children.
pub open spec fn branch_removed<B, L>(nodes: Seq<Node<B, L>>, key: usize) -> Seq<Node<B, L>> {
    removed_and_fixed(children_removed(nodes, key), key)
}

/// Replacing the payload of a leaf which comes before the removed leaves commutes with their
/// removal; replacing a removed leaf has no effect.
pub proof fn lemma_leaves_removed_update<B, L>(
    nodes: Seq<Node<B, L>>,
    left: usize,
    right: Option<usize>,
    i: int,
    node: Node<B, L>,
)
    requires
        left < nodes.len(),
        right matches Some(r) ==> left < r < nodes.len(),
        0 <= i < nodes.len(),
        nodes.len() <= usize::MAX,
    ensures
        i == left || right == Some(i as usize) ==> leaves_removed(nodes.update(i, node), left, right)
            == leaves_removed(nodes, left, right),
        i < left && node.value is Leaf && node.parent == nodes[i].parent ==> leaves_removed(
            nodes.update(i, node),
            left,
            right,
        ) == leaves_removed(nodes, left, right).update(
            i,
            Node { value: node.value, parent: leaves_removed(nodes, left, right)[i].parent },
        ),
{
    let s = nodes.update(i, node);
    match right {
        Some(r) => {
            lemma_removed_and_fixed_update(nodes, r, i, node);
            let a = removed_and_fixed(nodes, r);
            if i == r {
                assert(removed_and_fixed(s, r) == a);
            } else if i < r {
                let n1 = node.shifted(r, -1);
                lemma_removed_and_fixed_update(a, left, i, n1);
                if i < left && node.value is Leaf && node.parent == nodes[i].parent {
                    assert(removed_and_fixed(a.update(i, n1), left) =~= removed_and_fixed(a, left).update(
                        i,
                        Node { value: node.value, parent: removed_and_fixed(a, left)[i].parent },
                    ));
                }
            }
        },
        None => {
            lemma_removed_and_fixed_update(nodes, left, i, node);
            if i < left && node.value is Leaf && node.parent == nodes[i].parent {
                assert(removed_and_fixed(s, left) =~= removed_and_fixed(nodes, left).update(
                    i,
                    Node { value: node.value, parent: removed_and_fixed(nodes, left)[i].parent },
                ));
            }
        },
    }
}

/// The node `key` together with the nodes listed in `kids`.
pub open spec fn family(key: usize, kids: Seq<usize>) -> Set<int> {
    Set::new(|x: int| x == key || (0 <= x <= usize::MAX && kids.contains(x as usize)))
}

/// The pending set after the leaves `left` and `right` have been removed.
pub open spec fn pending_after_leaves(pending: Set<int>, left: usize, right: Option<usize>) -> Set<int> {
    let with_right = match right {
        Some(r) => pending_after_removal(pending, r as int),
        None => pending,
    };
    pending_after_removal(with_right, left as int)
}

/// Removing the children of the node `key` from the set made of the node and its children
/// leaves the node alone.
pub proof fn lemma_detached_family(
    detached: Set<int>,
    key: usize,
    left: usize,
    right: Option<usize>,
    kids: Seq<usize>,
)
    requires
        key < left,
        right matches Some(r) ==> left < r,
        kids == match right {
            Some(r) => seq![left, r],
            None => seq![left],
        },
        detached == family(key, kids),
    ensures
        pending_after_leaves(detached, left, right) == Set::<int>::empty().insert(key as int),
        detached.contains(left as int),
        right matches Some(r) ==> detached.contains(r as int),
{
    assert(kids[0] == left);
    if let Some(r) = right {
        assert(kids[1] == r);
    }
    let target = Set::<int>::empty().insert(key as int);
    assert forall|x: int| pending_after_leaves(detached, left, right).contains(x) <==> target.contains(x) by {
        let x1 = key_before_removal(x, left as int);
        match right {
            Some(r) => {
                let x2 = key_before_removal(x1, r as int);
                if 0 <= x2 <= usize::MAX && kids.contains(x2 as usize) {
                    let j = choose|j: int| 0 <= j < kids.len() && kids[j] == x2 as usize;
                    assert(j == 0 || j == 1);
                }
            },
            None => {
                if 0 <= x1 <= usize::MAX && kids.contains(x1 as usize) {
                    let j = choose|j: int| 0 <= j < kids.len() && kids[j] == x1 as usize;
                    assert(j == 0);
                }
            },
        }
    }
    assert(pending_after_leaves(detached, left, right) =~= target);
}

/// The nodes listed in `kids`.
pub open spec fn key_set(kids: Seq<usize>) -> Set<int> {
    Set::new(|x: int| 0 <= x <= usize::MAX && kids.contains(x as usize))
}

/// Removing the children of a node from the set of its children leaves nothing pending.
pub proof fn lemma_children_family(
    detached: Set<int>,
    left: usize,
    right: Option<usize>,
    kids: Seq<usize>,
)
    requires
        right matches Some(r) ==> left < r,
        kids == match right {
            Some(r) => seq![left, r],
            None => seq![left],
        },
        detached == key_set(kids),
    ensures
        pending_after_leaves(detached, left, right) == Set::<int>::empty(),
        detached.contains(left as int),
        right matches Some(r) ==> detached.contains(r as int),
{
    assert(kids[0] == left);
    if let Some(r) = right {
        assert(kids[1] == r);
    }
    assert forall|x: int| !pending_after_leaves(detached, left, right).contains(x) by {
        let x1 = key_before_removal(x, left as int);
        match right {
            Some(r) => {
                let x2 = key_before_removal(x1, r as int);
                if 0 <= x2 <= usize::MAX && kids.contains(x2 as usize) {
                    let j = choose|j: int| 0 <= j < kids.len() && kids[j] == x2 as usize;
                    assert(j == 0 || j == 1);
                }
            },
            None => {
                if 0 <= x1 <= usize::MAX && kids.contains(x1 as usize) {
                    let j = choose|j: int| 0 <= j < kids.len() && kids[j] == x1 as usize;
                    assert(j == 0);
                }
            },
        }
    }
    assert(pending_after_leaves(detached, left, right) =~= Set::<int>::empty());
}

/// The position (0 for the left child, 1 for the right one) of the first child of the branch
/// node `key` which is itself a branch, if any.
pub open spec fn first_branch_child<B, L>(nodes: Seq<Node<B, L>>, key: usize) -> Option<u32> {
    let l = nodes[key as int].value->Branch_left_child;
    if nodes[l as int].value is Branch {
        Some(0u32)
    } else {
        match nodes[key as int].value->Branch_right_child {
            Some(r) => if nodes[r as int].value is Branch {
                Some(1u32)
            } else {
                None
            },
            None => None,
        }
    }
}

/// The key of the parent of the node `key`.
pub open spec fn parent_key<B, L>(nodes: Seq<Node<B, L>>, key: usize) -> usize {
    nodes[key as int].parent->Some_0
}

/// Removing the node `key` leaves its parent without children.
pub open spec fn removal_converts_parent<B, L>(nodes: Seq<Node<B, L>>, key: usize) -> bool {
    &&& nodes[key as int].parent is Some
    &&& parent_becomes_leaf(nodes[parent_key(nodes, key) as int], key)
}

/// Taking `child` away from `parent` turns the parent into a leaf.
pub open spec fn parent_becomes_leaf<B, L>(parent: Node<B, L>, child: usize) -> bool {
    parent.value matches NodeData::Branch { left_child, right_child: None, .. } && left_child
        == child
}

/// The outcome of turning the node `key` into a branch with new leaf children holding `left_child` and `right_child`, converting its payload with `f`.
pub open spec fn make_branch_outcome<B, L>(nodes: Seq<Node<B, L>>, key: usize, left_child: L, right_child: Option<L>, conv: spec_fn(L, B) -> bool, result: Result<(), MakeBranchError<L, Vec<L>>>, new_nodes: Seq<Node<B, L>>) -> bool {
    &&& (result is Ok <==> nodes[key as int].value is Leaf)
    &&& (match result {
        Ok(()) => {
            let payload = branch_payload(new_nodes[key as int]);
            &&& conv(leaf_payload(nodes[key as int]), payload)
            &&& new_nodes == branch_made(
                nodes,
                key,
                payload,
                left_child,
                right_child,
            )
        },
        Err(e) => {
            &&& new_nodes == nodes
            &&& e.packed_children@ == match right_child {
                Some(r) => seq![left_child, r],
                None => seq![left_child],
            }
        },
    })
}

/// The outcome of removing the leaf node `key`; a parent left without children is turned into a leaf by `f`.
pub open spec fn leaf_removal_outcome<B, L>(nodes: Seq<Node<B, L>>, key: usize, conv: spec_fn(B, L) -> bool, result: Result<L, TryRemoveLeafError>, new_nodes: Seq<Node<B, L>>) -> bool {
    &&& (result == Err::<L, _>(TryRemoveLeafError::WasBranchNode) <==> nodes[key as int].value is Branch)
    &&& (result == Err::<L, _>(TryRemoveLeafError::WasRootNode) <==> nodes[key as int].value is Leaf
        && nodes[key as int].parent is None)
    &&& (result is Ok <==> nodes[key as int].value is Leaf && nodes[key as int].parent is Some)
    &&& (result is Err ==> new_nodes == nodes)
    &&& (result matches Ok(x) ==> {
        let p = nodes[key as int].parent->Some_0;
        let converted = leaf_payload(new_nodes[p as int]);
        &&& nodes[key as int].value is Leaf
        &&& nodes[key as int].parent is Some
        &&& x == leaf_payload(nodes[key as int])
        &&& parent_becomes_leaf(nodes[p as int], key) ==> conv(branch_payload(nodes[p as int]), converted)
        &&& new_nodes == removed_and_fixed(
            nodes.update(
                p as int,
                parent_without_child(nodes[p as int], key, converted),
            ),
            key,
        )
    })
}

/// The outcome of removing the branch node `key` together with its leaf children; a parent left without children is turned into a leaf by `f`.
pub open spec fn branch_removal_outcome<B, L>(nodes: Seq<Node<B, L>>, key: usize, conv: spec_fn(B, L) -> bool, result: Result<(B, L, Option<L>), TryRemoveBranchError>, new_nodes: Seq<Node<B, L>>) -> bool {
    &&& (result == Err::<(B, L, Option<L>), _>(TryRemoveBranchError::WasLeafNode) <==> nodes[key as int].value is Leaf)
    &&& (result == Err::<(B, L, Option<L>), _>(TryRemoveBranchError::HadBranchChild(0)) <==> {
        &&& nodes[key as int].value is Branch
        &&& first_branch_child(nodes, key) == Some(0u32)
    })
    &&& (result == Err::<(B, L, Option<L>), _>(TryRemoveBranchError::HadBranchChild(1)) <==> {
        &&& nodes[key as int].value is Branch
        &&& first_branch_child(nodes, key) == Some(1u32)
    })
    &&& (result == Err::<(B, L, Option<L>), _>(TryRemoveBranchError::WasRootNode) <==> {
        &&& nodes[key as int].value is Branch
        &&& first_branch_child(nodes, key) is None
        &&& nodes[key as int].parent is None
    })
    &&& (result is Ok <==> {
        &&& nodes[key as int].value is Branch
        &&& first_branch_child(nodes, key) is None
        &&& nodes[key as int].parent is Some
    })
    &&& (result is Err ==> new_nodes == nodes)
    &&& (result matches Ok((payload, left, right)) ==> {
        let old_nodes = nodes;
        let p = parent_key(old_nodes, key);
        let converted = leaf_payload(new_nodes[p as int]);
        let node = old_nodes[key as int];
        &&& node.value is Branch
        &&& first_branch_child(old_nodes, key) is None
        &&& node.parent is Some
        &&& payload == branch_payload(node)
        &&& left == leaf_payload(old_nodes[node.value->Branch_left_child as int])
        &&& right == match node.value->Branch_right_child {
            Some(r) => Some(leaf_payload(old_nodes[r as int])),
            None => None,
        }
        &&& removal_converts_parent(old_nodes, key) ==> conv(branch_payload(old_nodes[p as int]), converted)
        &&& new_nodes == branch_removed(
            old_nodes.update(p as int, parent_without_child(old_nodes[p as int], key, converted)),
            key,
        )
    })
}

/// The outcome of removing the leaf children of the branch node `key`, which is turned into a leaf by `f`.
pub open spec fn children_removal_outcome<B, L>(nodes: Seq<Node<B, L>>, key: usize, conv: spec_fn(B, L) -> bool, result: Result<(L, Option<L>), TryRemoveChildrenError>, new_nodes: Seq<Node<B, L>>) -> bool {
    &&& (result == Err::<(L, Option<L>), _>(TryRemoveChildrenError::WasLeafNode) <==> nodes[key as int].value is Leaf)
    &&& (result == Err::<(L, Option<L>), _>(TryRemoveChildrenError::HadBranchChild(0)) <==> {
        &&& nodes[key as int].value is Branch
        &&& first_branch_child(nodes, key) == Some(0u32)
    })
    &&& (result == Err::<(L, Option<L>), _>(TryRemoveChildrenError::HadBranchChild(1)) <==> {
        &&& nodes[key as int].value is Branch
        &&& first_branch_child(nodes, key) == Some(1u32)
    })
    &&& (result is Ok <==> nodes[key as int].value is Branch && first_branch_child(nodes, key) is None)
    &&& (result is Err ==> new_nodes == nodes)
    &&& (result matches Ok((left, right)) ==> {
        let old_nodes = nodes;
        let node = old_nodes[key as int];
        let converted = leaf_payload(new_nodes[key as int]);
        &&& node.value is Branch
        &&& first_branch_child(old_nodes, key) is None
        &&& left == leaf_payload(old_nodes[node.value->Branch_left_child as int])
        &&& right == match node.value->Branch_right_child {
            Some(r) => Some(leaf_payload(old_nodes[r as int])),
            None => None,
        }
        &&& conv(branch_payload(node), converted)
        &&& new_nodes == leaves_removed(
            old_nodes.update(key as int, as_leaf(node, converted)),
            node.value->Branch_left_child,
            node.value->Branch_right_child,
        )
    })
}

/// The outcome of giving the partial branch `key` a new leaf right child holding `right_child`.
pub open spec fn full_branch_outcome<B, L>(nodes: Seq<Node<B, L>>, key: usize, right_child: L, result: Result<(), MakeFullBranchError<L>>, new_nodes: Seq<Node<B, L>>) -> bool {
    &&& (result == Err::<(), _>(MakeFullBranchError::WasLeafNode { right_child }) <==> nodes[key as int].value is Leaf)
    &&& (result == Err::<(), _>(MakeFullBranchError::WasFullBranch { right_child }) <==> nodes[key as int].value matches NodeData::Branch { right_child: Some(_), .. })
    &&& (result is Ok <==> nodes[key as int].value matches NodeData::Branch { right_child: None, .. })
    &&& (result is Err ==> new_nodes == nodes)
    &&& (result is Ok ==> new_nodes == nodes.update(
        key as int,
        as_branch(
            nodes[key as int],
            branch_payload(nodes[key as int]),
            nodes[key as int].value->Branch_left_child,
            Some(nodes.len() as usize),
        ),
    ).push(Node { value: NodeData::Leaf(right_child), parent: Some(key) }))
}

impl<B, L> BinaryTree<B, L> {
    /// The nodes of the tree, indexed by key.
    pub closed spec fn nodes(&self) -> Seq<Node<B, L>> {
        self.storage@
    }

    /// The tree is well-formed: its root is at key 0 and its nodes form a binary tree.
    pub closed spec fn wf(&self) -> bool {
        &&& self.root == 0
        &&& binary_wf(self.storage@)
        &&& self.storage@.len() < usize::MAX
    }

    /// Creates a binary tree with the specified value for the root node.
    pub fn new(root: L) -> (tree: Self)
        ensures
            tree.wf(),
            tree.nodes() == seq![Node::<B, L> { value: NodeData::Leaf(root), parent: None }],
    {
        Self::with_capacity(0, root)
    }

    /// Creates a binary tree with the specified capacity for the storage.
    pub fn with_capacity(capacity: usize, root: L) -> (tree: Self)
        ensures
            tree.wf(),
            tree.nodes() == seq![Node::<B, L> { value: NodeData::Leaf(root), parent: None }],
    {
        let mut storage: Vec<Node<B, L>> = ListStorage::with_capacity(capacity);
        let root = storage.add(Node::root(root));
        let tree = BinaryTree { storage, root };
        proof {
            let nodes = tree.storage@;
            assert(nodes.len() == 1);
            assert(parents_of(nodes)[0] is None);
            assert(kids_of(nodes)[0] == Seq::<usize>::empty());
        }
        tree
    }

    /// Returns a reference to the root node of the tree.
    pub fn root(&self) -> (r: NodeRef<'_, B, L>)
        requires
            self.wf(),
        ensures
            *r.tree() == *self,
            r.key() == 0,
            r.valid(),
    {
        NodeRef::new_raw_unchecked(self, self.root)
    }

    /// Returns a *mutable* reference to the root node of the tree, allowing modifications to the
    /// entire tree.
    pub fn root_mut(&mut self) -> (r: NodeRefMut<'_, B, L>)
        requires
            old(self).wf(),
        ensures
            r.tree() == *old(self),
            r.key() == 0,
            r.valid(),
            *final(r.tree_borrow()) == *final(self),
    {
        let root = self.root;
        NodeRefMut::new_raw_unchecked(self, root)
    }

    /// Converts a leaf node into a branch node with the specified leaf children, using the
    /// provided closure to convert the payload.
    pub(crate) fn make_branch_at(
        &mut self,
        key: usize,
        left_child: L,
        right_child: Option<L>,
        f: impl FnOnce(L) -> B,
    ) -> (result: Result<(), MakeBranchError<L, Vec<L>>>)
        requires
            old(self).wf(),
            key < old(self).nodes().len(),
            old(self).nodes()[key as int].value is Leaf ==> f.requires(
                (leaf_payload(old(self).nodes()[key as int]),),
            ),
            old(self).nodes().len() + 3 < usize::MAX,
        ensures
            final(self).wf(),
            make_branch_outcome(old(self).nodes(), key, left_child, right_child, |x: L, y: B| f.ensures((x,), y), result, final(self).nodes()),
    {
        if matches!(&self.storage[key].value, NodeData::Branch { .. }) {
            let mut pack = Vec::new();
            pack.push(left_child);
            match right_child {
                Some(x) => {
                    pack.push(x);
                    assert(pack@ =~= seq![left_child, x]);
                },
                None => {
                    assert(pack@ =~= seq![left_child]);
                },
            }
            return Err(MakeBranchError::new(pack));
        }
        let ghost old_nodes = self.storage@;
        let n = self.storage.len();
        // Temporarily put the left child's payload in the node to take the old payload out.
        let mut value = NodeData::Leaf(left_child);
        std::mem::swap(&mut self.storage[key].value, &mut value);
        let old_payload = match value {
            NodeData::Leaf(x) => x,
            NodeData::Branch { .. } => {
                assert(false);
                return Err(MakeBranchError::new(Vec::new()));
            },
        };
        let payload = f(old_payload);
        let mut branch = NodeData::Branch { payload, left_child: n, right_child: None };
        std::mem::swap(&mut self.storage[key].value, &mut branch);
        let left_payload = match branch {
            NodeData::Leaf(x) => x,
            NodeData::Branch { .. } => {
                assert(false);
                return Err(MakeBranchError::new(Vec::new()));
            },
        };
        proof {
            let mid = self.storage@;
            assert(mid == old_nodes.update(key as int, as_branch(old_nodes[key as int], payload, n, None)));
            assert(parents_of(mid) =~= parents_of(old_nodes));
            assert(kids_of(old_nodes)[key as int] == Seq::<usize>::empty());
            lemma_attach_leaf(parents_of(old_nodes), kids_of(old_nodes), key);
            assert(kids_of(old_nodes)[key as int].push(n) =~= seq![n]);
        }
        self.storage.add(Node::leaf(left_payload, Some(key)));
        proof {
            let s1 = self.storage@;
            assert(parents_of(s1) =~= parents_of(old_nodes).push(Some(key)));
            assert(kids_of(s1) =~= kids_of(old_nodes).push(Seq::empty()).update(key as int, seq![n]));
            assert forall|i: int| #![trigger s1[i]] 0 <= i < s1.len() implies match s1[i].value {
                NodeData::Branch { left_child, right_child: Some(r), .. } => left_child < r,
                _ => true,
            } by {
                if i != key && i < n {
                    assert(s1[i] == old_nodes[i]);
                }
            }
        }
        match right_child {
            Some(x) => {
                self.add_right_child(key, x);
            },
            None => {},
        }
        proof {
            let s = self.storage@;
            assert(s =~= branch_made(old_nodes, key, payload, left_payload, right_child));
        }
        Ok(())
    }

    /// Returns `true` if the node at `key` is a branch node.
    fn is_branch_at(&self, key: usize) -> (r: bool)
        requires
            key < self.nodes().len(),
        ensures
            r == self.nodes()[key as int].value is Branch,
    {
        matches!(&self.storage[key].value, NodeData::Branch { .. })
    }

    /// Removes a leaf node without using recursion. If its parent only had this child, the parent
    /// is replaced with a leaf node, the value for which is provided by the closure (the previous
    /// value is passed into the closure).
    pub(crate) fn try_remove_leaf_at(&mut self, key: usize, f: impl FnOnce(B) -> L) -> (result:
        Result<L, TryRemoveLeafError>)
        requires
            old(self).wf(),
            key < old(self).nodes().len(),
            removal_converts_parent(old(self).nodes(), key) ==> f.requires(
                (branch_payload(old(self).nodes()[parent_key(old(self).nodes(), key) as int]),),
            ),
        ensures
            final(self).wf(),
            leaf_removal_outcome(old(self).nodes(), key, |x: B, y: L| f.ensures((x,), y), result, final(self).nodes()),
    {
        if self.is_branch_at(key) {
            return Err(TryRemoveLeafError::WasBranchNode);
        }
        let parent = match self.storage[key].parent {
            Some(p) => p,
            None => return Err(TryRemoveLeafError::WasRootNode),
        };
        let ghost old_nodes = self.storage@;
        let ghost detached = Set::<int>::empty().insert(key as int);
        proof {
            assert(old_nodes[key as int].children() == Seq::<usize>::empty());
            assert(detached =~= family(key, old_nodes[key as int].children()));
            assert(parent_ok(parents_of(old_nodes), kids_of(old_nodes), Set::empty(), key as int));
        }
        let converts = self.detach_from_parent(key, parent, key, Ghost(detached));
        let ghost mid = self.storage@;
        let node = self.remove_pending(key, Ghost(detached));
        proof {
            assert(pending_after_removal(detached, key as int) =~= Set::<int>::empty());
        }
        if converts {
            let payload = match node.value {
                NodeData::Branch { payload, .. } => payload,
                NodeData::Leaf(_) => {
                    assert(false);
                    return Err(TryRemoveLeafError::WasRootNode);
                },
            };
            let converted = f(payload);
            let mut value = NodeData::Leaf(converted);
            std::mem::swap(&mut self.storage[parent].value, &mut value);
            proof {
                let s = self.storage@;
                let target = old_nodes.update(parent as int, as_leaf(old_nodes[parent as int], converted));
                lemma_removed_and_fixed_update(old_nodes.update(parent as int, as_leaf(old_nodes[parent as int], leaf_payload(old_nodes[key as int]))), key, key as int, Node { value: old_nodes[parent as int].value, parent: old_nodes[key as int].parent });
                lemma_removed_and_fixed_update(old_nodes, key, parent as int, as_leaf(old_nodes[parent as int], leaf_payload(old_nodes[key as int])));
                lemma_removed_and_fixed_update(old_nodes, key, parent as int, as_leaf(old_nodes[parent as int], converted));
                assert(s =~= removed_and_fixed(target, key));
                assert(parents_of(s) =~= parents_of(removed_and_fixed(mid, key)));
                assert(kids_of(s) =~= kids_of(removed_and_fixed(mid, key)));
                assert forall|i: int| #![trigger s[i]] 0 <= i < s.len() implies match s[i].value {
                    NodeData::Branch { left_child, right_child: Some(r), .. } => left_child < r,
                    _ => true,
                } by {
                    if i != parent {
                        assert(s[i] == removed_and_fixed(mid, key)[i]);
                    }
                }
            }
            match value {
                NodeData::Leaf(x) => Ok(x),
                NodeData::Branch { .. } => {
                    assert(false);
                    Err(TryRemoveLeafError::WasRootNode)
                },
            }
        } else {
            match node.value {
                NodeData::Leaf(x) => Ok(x),
                NodeData::Branch { .. } => {
                    assert(false);
                    Err(TryRemoveLeafError::WasRootNode)
                },
            }
        }
    }

    /// Removes a branch node whose children are leaves, without using recursion. If its parent
    /// only had this child, the parent is replaced with a leaf node, the value for which is
    /// provided by the closure (the previous value is passed into the closure). Returns the
    /// payload of the node and those of its children.
    pub(crate) fn try_remove_branch_at(&mut self, key: usize, f: impl FnOnce(B) -> L) -> (result:
        Result<(B, L, Option<L>), TryRemoveBranchError>)
        requires
            old(self).wf(),
            key < old(self).nodes().len(),
            removal_converts_parent(old(self).nodes(), key) ==> f.requires(
                (branch_payload(old(self).nodes()[parent_key(old(self).nodes(), key) as int]),),
            ),
        ensures
            final(self).wf(),
            branch_removal_outcome(old(self).nodes(), key, |x: B, y: L| f.ensures((x,), y), result, final(self).nodes()),
    {
        let (left_key, right_key) = match &self.storage[key].value {
            NodeData::Branch { left_child, right_child, .. } => (*left_child, *right_child),
            NodeData::Leaf(_) => return Err(TryRemoveBranchError::WasLeafNode),
        };
        proof {
            lemma_binary_links(self.storage@, key);
            assert(self.storage@[key as int].children()[0] == left_key);
            if right_key is Some {
                assert(self.storage@[key as int].children()[1] == right_key->Some_0);
            }
        }
        if self.is_branch_at(left_key) {
            return Err(TryRemoveBranchError::HadBranchChild(0));
        }
        match right_key {
            Some(r) => {
                if self.is_branch_at(r) {
                    return Err(TryRemoveBranchError::HadBranchChild(1));
                }
            },
            None => {},
        }
        let parent = match self.storage[key].parent {
            Some(p) => p,
            None => return Err(TryRemoveBranchError::WasRootNode),
        };
        let ghost old_nodes = self.storage@;
        let ghost kk = old_nodes[key as int].children();
        let ghost detached = family(key, kk);
        proof {
            assert forall|j: int| 0 <= j < kk.len() implies old_nodes[#[trigger] kk[j] as int].value is Leaf by {
                if j == 1 {
                    assert(kk[1] == right_key->Some_0);
                }
            }
        }
        let converts = self.detach_from_parent(key, parent, left_key, Ghost(detached));
        let ghost mid = self.storage@;
        proof {
            lemma_detached_family(detached, key, left_key, right_key, kk);
        }
        let (left_node, right_node) = self.remove_leaves(left_key, right_key, Ghost(detached));
        let key_node = self.remove_pending(key, Ghost(Set::empty().insert(key as int)));
        proof {
            assert(pending_after_removal(Set::empty().insert(key as int), key as int) =~= Set::<int>::empty());
        }
        let right_payload = match right_node {
            Some(n) => match n.value {
                NodeData::Leaf(x) => Some(x),
                NodeData::Branch { .. } => {
                    assert(false);
                    None
                },
            },
            None => None,
        };
        let payload = match key_node.value {
            NodeData::Branch { payload, .. } => payload,
            NodeData::Leaf(_) => {
                assert(false);
                return Err(TryRemoveBranchError::WasRootNode);
            },
        };
        if converts {
            let parent_payload = match left_node.value {
                NodeData::Branch { payload, .. } => payload,
                NodeData::Leaf(_) => {
                    assert(false);
                    return Err(TryRemoveBranchError::WasRootNode);
                },
            };
            let converted = f(parent_payload);
            let left_payload = self.replace_leaf_payload(parent, converted);
            proof {
                let leaf_y = as_leaf(old_nodes[parent as int], converted);
                let m2 = mid.update(parent as int, leaf_y);
                assert(old_nodes.update(parent as int, leaf_y) =~= m2.update(left_key as int, old_nodes[left_key as int]));
                lemma_leaves_removed_update(m2, left_key, right_key, left_key as int, old_nodes[left_key as int]);
                lemma_leaves_removed_update(mid, left_key, right_key, parent as int, leaf_y);
                lemma_removed_and_fixed_update(leaves_removed(mid, left_key, right_key), key, parent as int, Node { value: leaf_y.value, parent: leaves_removed(mid, left_key, right_key)[parent as int].parent });
                assert(m2[key as int] == old_nodes[key as int]);
                assert(self.storage@ =~= branch_removed(old_nodes.update(parent as int, leaf_y), key));
            }
            Ok((payload, left_payload, right_payload))
        } else {
            let left_payload = match left_node.value {
                NodeData::Leaf(x) => x,
                NodeData::Branch { .. } => {
                    assert(false);
                    return Err(TryRemoveBranchError::WasRootNode);
                },
            };
            Ok((payload, left_payload, right_payload))
        }
    }

    /// Removes the children of a branch node whose children are leaves, without using recursion,
    /// replacing it with a leaf node, the value for which is provided by the closure (the
    /// previous value is passed into the closure). Returns the payloads of the children.
    pub(crate) fn try_remove_children_at(&mut self, key: usize, f: impl FnOnce(B) -> L) -> (result:
        Result<(L, Option<L>), TryRemoveChildrenError>)
        requires
            old(self).wf(),
            key < old(self).nodes().len(),
            old(self).nodes()[key as int].value is Branch ==> f.requires(
                (branch_payload(old(self).nodes()[key as int]),),
            ),
        ensures
            final(self).wf(),
            children_removal_outcome(old(self).nodes(), key, |x: B, y: L| f.ensures((x,), y), result, final(self).nodes()),
    {
        let (left_key, right_key) = match &self.storage[key].value {
            NodeData::Branch { left_child, right_child, .. } => (*left_child, *right_child),
            NodeData::Leaf(_) => return Err(TryRemoveChildrenError::WasLeafNode),
        };
        proof {
            lemma_binary_links(self.storage@, key);
            assert(self.storage@[key as int].children()[0] == left_key);
            if right_key is Some {
                assert(self.storage@[key as int].children()[1] == right_key->Some_0);
            }
        }
        if self.is_branch_at(left_key) {
            return Err(TryRemoveChildrenError::HadBranchChild(0));
        }
        match right_key {
            Some(r) => {
                if self.is_branch_at(r) {
                    return Err(TryRemoveChildrenError::HadBranchChild(1));
                }
            },
            None => {},
        }
        let ghost old_nodes = self.storage@;
        let ghost kk = old_nodes[key as int].children();
        let ghost detached = key_set(kk);
        proof {
            lemma_children_family(detached, left_key, right_key, kk);
            let ps = parents_of(old_nodes);
            let ks = kids_of(old_nodes);
            assert(ks[key as int] == kk);
            assert forall|x: int| #![trigger detached.contains(x)] detached.contains(x) && 0 <= x < ps.len() implies match ps[x] {
                Some(q) => detached.contains(q as int) || q == key,
                None => false,
            } by {
                let j = choose|j: int| 0 <= j < kk.len() && kk[j] == x as usize;
                assert(kid_ok(ps, ks, Set::empty(), key as int, j));
            }
            assert forall|x: int, j: int| #![trigger detached.contains(x), ks[x][j]]
                detached.contains(x) && 0 <= x < ps.len() && 0 <= j < ks[x].len()
                implies detached.contains(ks[x][j] as int) || Set::<int>::empty().contains(ks[x][j] as int) by {
                let i = choose|i: int| 0 <= i < kk.len() && kk[i] == x as usize;
                if i == 1 {
                    assert(kk[1] == right_key->Some_0);
                }
                assert(old_nodes[x].value is Leaf);
            }
            assert(!detached.contains(key as int));
            lemma_detach(ps, ks, Set::empty(), detached, key as int, Seq::empty());
            let k1 = ks.update(key as int, Seq::empty());
            lemma_pending_unconstrained(ps, k1, detached, left_key as int, old_nodes[left_key as int].parent, kk);
        }
        self.swap_values(key, left_key);
        let ghost s1 = self.storage@;
        proof {
            let ps = parents_of(old_nodes);
            let k1 = kids_of(old_nodes).update(key as int, Seq::empty());
            assert(parents_of(s1) =~= ps.update(left_key as int, old_nodes[left_key as int].parent));
            assert(kids_of(s1) =~= k1.update(left_key as int, kk));
            assert forall|i: int| #![trigger s1[i]] 0 <= i < s1.len() && !detached.contains(i) implies match s1[i].value {
                NodeData::Branch { left_child, right_child: Some(r), .. } => left_child < r,
                _ => true,
            } by {
                if i != key {
                    assert(s1[i] == old_nodes[i]);
                }
            }
        }
        let (left_node, right_node) = self.remove_leaves(left_key, right_key, Ghost(detached));
        let right_payload = match right_node {
            Some(n) => match n.value {
                NodeData::Leaf(x) => Some(x),
                NodeData::Branch { .. } => {
                    assert(false);
                    None
                },
            },
            None => None,
        };
        let payload = match left_node.value {
            NodeData::Branch { payload, .. } => payload,
            NodeData::Leaf(_) => {
                assert(false);
                return Err(TryRemoveChildrenError::WasLeafNode);
            },
        };
        let converted = f(payload);
        let left_payload = self.replace_leaf_payload(key, converted);
        proof {
            let leaf_y = as_leaf(old_nodes[key as int], converted);
            let m2 = s1.update(key as int, leaf_y);
            assert(old_nodes.update(key as int, leaf_y) =~= m2.update(left_key as int, old_nodes[left_key as int]));
            lemma_leaves_removed_update(m2, left_key, right_key, left_key as int, old_nodes[left_key as int]);
            lemma_leaves_removed_update(s1, left_key, right_key, key as int, leaf_y);
            assert(self.storage@ =~= leaves_removed(old_nodes.update(key as int, leaf_y), left_key, right_key));
        }
        Ok((left_payload, right_payload))
    }

    /// Replaces the payload of a leaf node, returning the previous one.
    fn replace_leaf_payload(&mut self, key: usize, payload: L) -> (previous: L)
        requires
            old(self).wf(),
            key < old(self).nodes().len(),
            old(self).nodes()[key as int].value is Leaf,
        ensures
            final(self).wf(),
            previous == leaf_payload(old(self).nodes()[key as int]),
            final(self).nodes() == old(self).nodes().update(key as int, as_leaf(old(self).nodes()[key as int], payload)),
    {
        let ghost old_nodes = self.storage@;
        let mut value = NodeData::Leaf(payload);
        std::mem::swap(&mut self.storage[key].value, &mut value);
        proof {
            let s = self.storage@;
            assert(s =~= old_nodes.update(key as int, as_leaf(old_nodes[key as int], payload)));
            assert(parents_of(s) =~= parents_of(old_nodes));
            assert(kids_of(s) =~= kids_of(old_nodes));
            assert forall|i: int| #![trigger s[i]] 0 <= i < s.len() implies match s[i].value {
                NodeData::Branch { left_child, right_child: Some(r), .. } => left_child < r,
                _ => true,
            } by {
                if i != key {
                    assert(s[i] == old_nodes[i]);
                }
            }
        }
        match value {
            NodeData::Leaf(x) => x,
            NodeData::Branch { .. } => {
                vstd::pervasive::unreached()
            },
        }
    }

    /// Removes the pending leaf `left` and, if any, the pending leaf `right` (which comes after
    /// it) from the storage.
    fn remove_leaves(&mut self, left: usize, right: Option<usize>, Ghost(pending): Ghost<Set<int>>) -> (removed: (Node<B, L>, Option<Node<B, L>>))
        requires
            old(self).root == 0,
            binary_partial(old(self).nodes(), pending),
            left < old(self).nodes().len(),
            pending.contains(left as int),
            right matches Some(r) ==> left < r < old(self).nodes().len() && pending.contains(r as int),
        ensures
            final(self).root == 0,
            final(self).nodes() == leaves_removed(old(self).nodes(), left, right),
            removed.0 == match right {
                Some(r) => old(self).nodes()[left as int].shifted(r, -1),
                None => old(self).nodes()[left as int],
            },
            removed.1 == match right {
                Some(r) => Some(old(self).nodes()[r as int]),
                None => None,
            },
            binary_partial(final(self).nodes(), pending_after_leaves(pending, left, right)),
    {
        let right_node = match right {
            Some(r) => Some(self.remove_pending(r, Ghost(pending))),
            None => None,
        };
        let ghost p1 = match right {
            Some(r) => pending_after_removal(pending, r as int),
            None => pending,
        };
        proof {
            if let Some(r) = right {
                assert(key_before_removal(left as int, r as int) == left as int);
            }
        }
        let left_node = self.remove_pending(left, Ghost(p1));
        (left_node, right_node)
    }

    /// Removes a pending node from the storage, fixing the keys held by the other nodes.
    fn remove_pending(&mut self, key: usize, Ghost(pending): Ghost<Set<int>>) -> (node: Node<B, L>)
        requires
            old(self).root == 0,
            binary_partial(old(self).nodes(), pending),
            pending.contains(key as int),
            key < old(self).nodes().len(),
        ensures
            final(self).root == 0,
            node == old(self).nodes()[key as int],
            final(self).nodes() == removed_and_fixed(old(self).nodes(), key),
            binary_partial(final(self).nodes(), pending_after_removal(pending, key as int)),
    {
        let ghost old_nodes = self.storage@;
        let node = remove_and_shiftfix(&mut self.storage, key);
        proof {
            let s = self.storage@;
            assert(s =~= removed_and_fixed(old_nodes, key));
            lemma_removed_and_fixed_shape(old_nodes, key);
            lemma_remove_pending(parents_of(old_nodes), kids_of(old_nodes), pending, key);
            let np = pending_after_removal(pending, key as int);
            assert forall|i: int| #![trigger s[i]] 0 <= i < s.len() && !np.contains(i) implies match s[i].value {
                NodeData::Branch { left_child, right_child: Some(r), .. } => left_child < r,
                _ => true,
            } by {
                let o = if i < key { i } else { i + 1 };
                assert(s[i] == old_nodes[o].shifted(key, -1));
                assert(old_nodes[o] == old_nodes[o]);
                if old_nodes[o].value matches NodeData::Branch { left_child, right_child: Some(r), .. } {
                    assert(kid_ok(parents_of(old_nodes), kids_of(old_nodes), pending, o, 0));
                    assert(kid_ok(parents_of(old_nodes), kids_of(old_nodes), pending, o, 1));
                }
            }
        }
        node
    }

    /// Detaches the node `key` from its parent `parent`, recording that the nodes in `detached`
    /// (the node and its children) are pending removal. The payload of a parent left without
    /// children is swapped with the payload of the node `donor`, one of the detached nodes.
    fn detach_from_parent(
        &mut self,
        key: usize,
        parent: usize,
        donor: usize,
        Ghost(detached): Ghost<Set<int>>,
    ) -> (converts: bool)
        requires
            old(self).wf(),
            key < old(self).nodes().len(),
            old(self).nodes()[key as int].parent == Some(parent),
            detached.contains(key as int),
            detached.contains(donor as int),
            donor < old(self).nodes().len(),
            old(self).nodes()[donor as int].value is Leaf,
            detached == family(key, old(self).nodes()[key as int].children()),
            forall|j: int|
                0 <= j < old(self).nodes()[key as int].children().len() ==> old(
                    self,
                ).nodes()[#[trigger] old(self).nodes()[key as int].children()[j] as int].value is Leaf,
        ensures
            final(self).root == 0,
            converts == parent_becomes_leaf(old(self).nodes()[parent as int], key),
            binary_partial(final(self).nodes(), detached),
            final(self).nodes().len() == old(self).nodes().len(),
            converts ==> final(self).nodes() == old(self).nodes().update(
                parent as int,
                as_leaf(old(self).nodes()[parent as int], leaf_payload(old(self).nodes()[donor as int])),
            ).update(
                donor as int,
                Node { value: old(self).nodes()[parent as int].value, parent: old(self).nodes()[donor as int].parent },
            ),
            !converts ==> final(self).nodes() == old(self).nodes().update(
                parent as int,
                parent_without_child(old(self).nodes()[parent as int], key, arbitrary()),
            ),
    {
        let ghost old_nodes = self.storage@;
        let ghost pk = kids_of(old_nodes)[parent as int];
        proof {
            assert(parent_ok(parents_of(old_nodes), kids_of(old_nodes), Set::empty(), key as int));
            assert(kids_of(old_nodes)[key as int] == old_nodes[key as int].children());
        }
        let converts;
        match &mut self.storage[parent].value {
            NodeData::Branch { left_child, right_child, .. } => {
                if *left_child == key {
                    match *right_child {
                        Some(r) => {
                            *left_child = r;
                            *right_child = None;
                            converts = false;
                        },
                        None => {
                            converts = true;
                        },
                    }
                } else {
                    *right_child = None;
                    converts = false;
                }
            },
            NodeData::Leaf(_) => {
                converts = false;
            },
        }
        proof {
            let ps = parents_of(old_nodes);
            let ks = kids_of(old_nodes);
            let e = Set::<int>::empty();
            let kk = old_nodes[key as int].children();
            assert(old_nodes[parent as int].children().contains(key));
            assert(kid_ok(ps, ks, e, parent as int, 0));
            if old_nodes[parent as int].children().len() == 2 {
                assert(kid_ok(ps, ks, e, parent as int, 1));
            }
            assert forall|x: int| #![trigger detached.contains(x)] detached.contains(x) && 0 <= x < ps.len() implies match ps[x] {
                Some(q) => detached.contains(q as int) || q == parent,
                None => false,
            } by {
                if x != key {
                    let j = choose|j: int| 0 <= j < kk.len() && kk[j] == x as usize;
                    assert(kid_ok(ps, ks, e, key as int, j));
                }
            }
            assert forall|x: int, j: int| #![trigger detached.contains(x), ks[x][j]]
                detached.contains(x) && 0 <= x < ps.len() && 0 <= j < ks[x].len()
                implies detached.contains(ks[x][j] as int) || e.contains(ks[x][j] as int) by {
                if x == key {
                    assert(kk.contains(kk[j]));
                } else {
                    let i = choose|i: int| 0 <= i < kk.len() && kk[i] == x as usize;
                    assert(old_nodes[kk[i] as int].value is Leaf);
                }
            }
            assert forall|c: usize| #[trigger] old_nodes[parent as int].children().contains(c) && c != key
                implies !detached.contains(c as int) by {
                if kk.contains(c) {
                    let i = choose|i: int| 0 <= i < kk.len() && kk[i] == c;
                    assert(kid_ok(ps, ks, e, key as int, i));
                    let j = choose|j: int| 0 <= j < ks[parent as int].len() && ks[parent as int][j] == c;
                    assert(kid_ok(ps, ks, e, parent as int, j));
                }
            }
        }
        if converts {
            proof {
                assert(self.storage@ == old_nodes);
                assert(parent < key);
                assert(donor != parent);
                lemma_detach(parents_of(old_nodes), kids_of(old_nodes), Set::empty(), detached, parent as int, Seq::empty());
            }
            self.swap_values(parent, donor);
            proof {
                let s = self.storage@;
                let k1 = kids_of(old_nodes).update(parent as int, Seq::empty());
                lemma_pending_unconstrained(parents_of(old_nodes), k1, detached, donor as int, old_nodes[donor as int].parent, old_nodes[parent as int].children());
                assert(parents_of(s) =~= parents_of(old_nodes).update(donor as int, old_nodes[donor as int].parent));
                assert(kids_of(s) =~= k1.update(donor as int, old_nodes[parent as int].children()));
            }
        } else {
            proof {
                let s = self.storage@;
                let nk = kids_of(s)[parent as int];
                let ok = kids_of(old_nodes)[parent as int];
                assert(ok == old_nodes[parent as int].children());
                if let NodeData::Branch { left_child: l, right_child: Some(r), .. } = old_nodes[parent as int].value {
                    assert(l < r);
                    assert(ok =~= seq![l, r]);
                    if key == l {
                        assert(nk =~= seq![r]);
                    } else {
                        assert(nk =~= seq![l]);
                    }
                    assert forall|c: usize| #[trigger] nk.contains(c) <==> (ok.contains(c) && !detached.contains(c as int)) by {
                        if nk.contains(c) {
                            let j = choose|j: int| 0 <= j < nk.len() && nk[j] == c;
                            if key == l { assert(ok[1] == c); } else { assert(ok[0] == c); }
                        }
                        if ok.contains(c) && !detached.contains(c as int) {
                            let j = choose|j: int| 0 <= j < ok.len() && ok[j] == c;
                            assert(c != key);
                            if key == l { assert(nk[0] == c); } else { assert(nk[0] == c); }
                        }
                    }
                }
                lemma_detach(parents_of(old_nodes), kids_of(old_nodes), Set::empty(), detached, parent as int, nk);
                assert(parents_of(s) =~= parents_of(old_nodes));
                assert(kids_of(s) =~= kids_of(old_nodes).update(parent as int, nk));
            }
        }
        proof {
            let s = self.storage@;
            assert forall|i: int| #![trigger s[i]] 0 <= i < s.len() && !detached.contains(i) implies match s[i].value {
                NodeData::Branch { left_child, right_child: Some(r), .. } => left_child < r,
                _ => true,
            } by {
                if i != parent {
                    assert(s[i] == old_nodes[i]);
                }
            }
        }
        converts
    }

    /// Exchanges the payloads (and child keys) of two nodes, keeping their parents.
    fn swap_values(&mut self, a: usize, b: usize)
        requires
            a < b < old(self).nodes().len(),
        ensures
            final(self).root == old(self).root,
            final(self).nodes() == old(self).nodes().update(
                a as int,
                Node { value: old(self).nodes()[b as int].value, parent: old(self).nodes()[a as int].parent },
            ).update(
                b as int,
                Node { value: old(self).nodes()[a as int].value, parent: old(self).nodes()[b as int].parent },
            ),
    {
        let ghost old_nodes = self.storage@;
        let mut node = self.storage.remove(b);
        std::mem::swap(&mut self.storage[a].value, &mut node.value);
        self.storage.insert(b, node);
        assert(self.storage@ =~= old_nodes.update(
            a as int,
            Node { value: old_nodes[b as int].value, parent: old_nodes[a as int].parent },
        ).update(
            b as int,
            Node { value: old_nodes[a as int].value, parent: old_nodes[b as int].parent },
        ));
    }

    /// Converts a partial branch node into a full branch, giving the specified value to the new
    /// right child.
    pub(crate) fn make_full_branch_at(&mut self, key: usize, right_child: L) -> (result: Result<
        (),
        MakeFullBranchError<L>,
    >)
        requires
            old(self).wf(),
            key < old(self).nodes().len(),
            old(self).nodes().len() + 1 < usize::MAX,
        ensures
            final(self).wf(),
            full_branch_outcome(old(self).nodes(), key, right_child, result, final(self).nodes()),
    {
        match &self.storage[key].value {
            NodeData::Branch { right_child: Some(_), .. } => {
                return Err(MakeFullBranchError::WasFullBranch { right_child });
            },
            NodeData::Branch { .. } => {},
            NodeData::Leaf(_) => {
                return Err(MakeFullBranchError::WasLeafNode { right_child });
            },
        }
        self.add_right_child(key, right_child);
        Ok(())
    }

    /// Gives a branch node which only has a left child a new leaf right child.
    fn add_right_child(&mut self, key: usize, right_child: L)
        requires
            old(self).wf(),
            key < old(self).nodes().len(),
            old(self).nodes()[key as int].value matches NodeData::Branch { right_child: None, .. },
            old(self).nodes().len() + 1 < usize::MAX,
        ensures
            final(self).wf(),
            final(self).nodes() == old(self).nodes().update(
                key as int,
                as_branch(
                    old(self).nodes()[key as int],
                    branch_payload(old(self).nodes()[key as int]),
                    old(self).nodes()[key as int].value->Branch_left_child,
                    Some(old(self).nodes().len() as usize),
                ),
            ).push(Node { value: NodeData::Leaf(right_child), parent: Some(key) }),
    {
        let ghost old_nodes = self.storage@;
        let n = self.storage.len();
        proof {
            lemma_attach_leaf(parents_of(old_nodes), kids_of(old_nodes), key);
        }
        self.storage.add(Node::leaf(right_child, Some(key)));
        match &mut self.storage[key].value {
            NodeData::Branch { right_child, .. } => {
                *right_child = Some(n);
            },
            NodeData::Leaf(_) => {},
        }
        proof {
            let s = self.storage@;
            let l = old_nodes[key as int].value->Branch_left_child;
            assert(s =~= old_nodes.update(
                key as int,
                as_branch(old_nodes[key as int], branch_payload(old_nodes[key as int]), l, Some(n)),
            ).push(Node { value: NodeData::Leaf(right_child), parent: Some(key) }));
            assert(parents_of(s) =~= parents_of(old_nodes).push(Some(key)));
            assert(kids_of(old_nodes)[key as int].push(n) =~= seq![l, n]);
            assert(kids_of(s) =~= kids_of(old_nodes).push(Seq::empty()).update(
                key as int,
                kids_of(old_nodes)[key as int].push(n),
            ));
            assert(kid_ok(parents_of(old_nodes), kids_of(old_nodes), Set::empty(), key as int, 0));
            assert forall|i: int| #![trigger s[i]] 0 <= i < s.len() implies match s[i].value {
                NodeData::Branch { left_child, right_child: Some(r), .. } => left_child < r,
                _ => true,
            } by {
                if i != key && i < n {
                    assert(s[i] == old_nodes[i]);
                }
            }
        }
    }
}

impl<B, L: Default> Default for BinaryTree<B, L> {
    /// Creates a tree whose root is a leaf holding the default payload.
    fn default() -> (tree: Self)
        ensures
            tree.wf(),
            tree.nodes().len() == 1,
            tree.nodes()[0].parent is None,
            tree.nodes()[0].value is Leaf,
    {
        Self::new(L::default())
    }
}


/// Every key the node holds is at most `bound`.
pub open spec fn keys_at_most<B, L>(node: Node<B, L>, bound: usize) -> bool {
    &&& node.parent matches Some(p) ==> p <= bound
    &&& forall|j: int| 0 <= j < node.children().len() ==> #[trigger] node.children()[j] <= bound
}

/// Removing the last node of a storage whose other nodes only hold keys up to the index of that
/// node leaves the other nodes as they were.
proof fn lemma_remove_last<B, L>(s: Seq<Node<B, L>>, e: Node<B, L>)
    requires
        s.len() < usize::MAX,
        forall|i: int| 0 <= i < s.len() ==> keys_at_most(#[trigger] s[i], s.len() as usize),
    ensures
        removed_and_fixed(s.push(e), s.len() as usize) == s,
{
    let r = s.len() as usize;
    let t = removed_and_fixed(s.push(e), r);
    assert forall|i: int| 0 <= i < s.len() implies #[trigger] t[i] === s[i] by {
        let nd = s[i];
        assert(keys_at_most(nd, r));
        assert(s.push(e).remove(r as int)[i] == nd);
        match nd.value {
            NodeData::Branch { left_child, right_child, .. } => {
                assert(nd.children()[0] == left_child);
                if right_child is Some {
                    assert(nd.children()[1] == right_child->Some_0);
                }
            },
            NodeData::Leaf(_) => {},
        }
    }
    assert(t =~= s);
}

impl<B, L> BinaryTree<B, L> {
    /// Every node of a well-formed tree only holds keys of the tree.
    proof fn lemma_keys_below(&self)
        requires
            self.wf(),
        ensures
            forall|i: int| 0 <= i < self.nodes().len() ==> keys_at_most(#[trigger] self.nodes()[i], self.nodes().len() as usize),
    {
        assert forall|i: int| 0 <= i < self.nodes().len() implies keys_at_most(#[trigger] self.nodes()[i], self.nodes().len() as usize) by {
            lemma_binary_links(self.nodes(), i as usize);
        }
    }
}

/// Turning a leaf into a branch with new leaf children and then removing those children, with
/// the payload kept as it is both times, gives back the very same storage, and the removal hands
/// back the payloads of the children.
pub proof fn law_make_branch_then_remove_children<D>(
    before: &BinaryTree<D, D>,
    key: usize,
    left: D,
    right: Option<D>,
    made: Result<(), MakeBranchError<D, Vec<D>>>,
    after_make: &BinaryTree<D, D>,
    removed: Result<(D, Option<D>), TryRemoveChildrenError>,
    after_remove: &BinaryTree<D, D>,
)
    requires
        before.wf(),
        key < before.nodes().len(),
        before.nodes().len() + 3 < usize::MAX,
        made is Ok,
        make_branch_outcome(before.nodes(), key, left, right, |x: D, y: D| y == x, made, after_make.nodes()),
        children_removal_outcome(after_make.nodes(), key, |x: D, y: D| y == x, removed, after_remove.nodes()),
    ensures
        removed == Ok::<(D, Option<D>), TryRemoveChildrenError>((left, right)),
        after_remove.nodes() == before.nodes(),
{
    before.lemma_keys_below();
    let nodes = before.nodes();
    let n = nodes.len();
    let nodes1 = after_make.nodes();
    let payload = branch_payload(nodes1[key as int]);
    assert(payload == leaf_payload(nodes[key as int]));
    let lnode = Node::<D, D> { value: NodeData::Leaf(left), parent: Some(key) };
    assert(nodes1[n as int] == lnode);
    let restored = as_leaf(nodes1[key as int], payload);
    assert(restored === nodes[key as int]);
    let x = nodes1.update(key as int, restored);
    assert(keys_at_most(lnode, n as usize));
    match right {
        Some(r) => {
            let rnode = Node::<D, D> { value: NodeData::Leaf(r), parent: Some(key) };
            assert(nodes1[n as int + 1] == rnode);
            assert(x =~= nodes.push(lnode).push(rnode));
            assert forall|i: int| 0 <= i < nodes.push(lnode).len() implies keys_at_most(
                #[trigger] nodes.push(lnode)[i],
                (n + 1) as usize,
            ) by {
                if i < n {
                    assert(nodes.push(lnode)[i] == nodes[i]);
                    assert(keys_at_most(nodes[i], n as usize));
                }
            }
            lemma_remove_last(nodes.push(lnode), rnode);
            lemma_remove_last(nodes, lnode);
        },
        None => {
            assert(x =~= nodes.push(lnode));
            lemma_remove_last(nodes, lnode);
        },
    }
}

impl<B, L> crate::Tree for BinaryTree<B, L> {
    type Leaf = L;
    type Branch = B;
    type Key = usize;

    open spec fn tree_wf(&self) -> bool {
        self.wf()
    }

    open spec fn root_payload(&self) -> NodeValue<B, L> {
        self.nodes()[0].value.value_spec()
    }

    open spec fn num_nodes(&self) -> nat {
        self.nodes().len()
    }

    fn new(root: L) -> (tree: Self) {
        BinaryTree::new(root)
    }
}

} // verus!
