use vstd::prelude::*;
use crate::NodeValue;
use crate::{MakeBranchError, TryRemoveLeafError, TryRemoveBranchError, TryRemoveChildrenError};
use crate::traversal::{Traversable, TraversableMut, kept_or_converted, parents_kept_below, all_leaves};
use crate::traversal::algorithms::{recursively_remove_with, removal_result, leaf_removed, branch_removed};
use crate::traversal::algorithms::survivors::subtree_removed;
use super::{
    BinaryTree, Node, NodeData, MakeFullBranchError, lemma_binary_links, leaf_payload, branch_payload,
    parent_key, removal_converts_parent, make_branch_outcome, full_branch_outcome,
    leaf_removal_outcome, branch_removal_outcome, children_removal_outcome, branch_made,
};

verus! {

/// A reference to a node in a binary tree.
///
/// Since this type does not point to the node directly, but rather the tree the node is in and
/// the key of the node in the storage, it can be used to traverse the tree.
#[derive(Debug)]
pub struct NodeRef<'a, B, L = B> {
    tree: &'a BinaryTree<B, L>,
    key: usize,
}

/// The payload of a binary tree node, whatever kind of node it is.
pub open spec fn node_value<B, L>(node: Node<B, L>) -> NodeValue<B, L> {
    node.value.value_spec()
}

/// A by-reference payload holds the same payload as a by-value one.
pub open spec fn value_refs_match<B, L>(r: NodeValue<&B, &L>, v: NodeValue<B, L>) -> bool {
    match (r, v) {
        (NodeValue::Branch(x), NodeValue::Branch(y)) => *x == y,
        (NodeValue::Leaf(x), NodeValue::Leaf(y)) => *x == y,
        _ => false,
    }
}

impl<'a, B, L> NodeRef<'a, B, L> {
    /// The tree the node is in.
    pub closed spec fn tree(self) -> &'a BinaryTree<B, L> {
        self.tree
    }

    /// The key of the node in the storage.
    pub closed spec fn key(self) -> usize {
        self.key
    }

    /// The reference points to a node of a well-formed tree.
    pub open spec fn valid(self) -> bool {
        self.tree().wf() && self.key() < self.tree().nodes().len()
    }

    /// The node the reference points to.
    pub open spec fn node(self) -> Node<B, L> {
        self.tree().nodes()[self.key() as int]
    }

    /// Creates a new `NodeRef` pointing to the specified key in the storage, or `None` if there
    /// is no node there.
    pub fn new_raw(tree: &'a BinaryTree<B, L>, key: usize) -> (r: Option<Self>)
        ensures
            r is Some <==> key < tree.nodes().len(),
            r matches Some(n) ==> n.tree() == tree && n.key() == key,
    {
        if key < tree.storage.len() {
            Some(NodeRef { tree, key })
        } else {
            None
        }
    }

    /// Creates a reference to an existing node; `key` must be a key of the tree.
    pub(crate) fn new_raw_unchecked(tree: &'a BinaryTree<B, L>, key: usize) -> (r: Self)
        ensures
            r.tree() == tree,
            r.key() == key,
    {
        NodeRef { tree, key }
    }

    /// Returns a reference to the raw storage key for the node.
    pub fn raw_key(&self) -> (r: &usize)
        ensures
            *r == self.key(),
    {
        &self.key
    }

    /// Consumes the reference and returns the underlying raw storage key for the node.
    pub fn into_raw_key(self) -> (r: usize)
        ensures
            r == self.key(),
    {
        self.key
    }

    /// Returns a reference to the parent node of the pointee, or `None` if it's the root node.
    pub fn parent(&self) -> (r: Option<Self>)
        requires
            self.valid(),
        ensures
            match (self.node().parent, r) {
                (Some(p), Some(n)) => n.tree() == self.tree() && n.key() == p && n.valid(),
                (None, None) => true,
                _ => false,
            },
    {
        proof {
            lemma_binary_links(self.tree.nodes(), self.key);
        }
        match self.tree.storage[self.key].parent {
            Some(p) => Some(NodeRef { tree: self.tree, key: p }),
            None => None,
        }
    }

    /// Returns `true` if the node is the root node, `false` otherwise.
    pub fn is_root(&self) -> (r: bool)
        requires
            self.valid(),
        ensures
            r == self.node().parent is None,
            r == (self.key() == 0),
    {
        proof {
            lemma_binary_links(self.tree.nodes(), self.key);
        }
        self.tree.storage[self.key].parent.is_none()
    }

    /// Returns `true` if the node is a *leaf*, i.e. does not have child nodes; `false` otherwise.
    pub fn is_leaf(&self) -> (r: bool)
        requires
            self.valid(),
        ensures
            r == self.node().value is Leaf,
    {
        matches!(&self.tree.storage[self.key].value, NodeData::Leaf(_))
    }

    /// Returns `true` if the node is a *branch*, i.e. has one or two child nodes; `false`
    /// otherwise.
    pub fn is_branch(&self) -> (r: bool)
        requires
            self.valid(),
        ensures
            r == self.node().value is Branch,
    {
        matches!(&self.tree.storage[self.key].value, NodeData::Branch { .. })
    }

    /// Returns `true` if the node is a *full branch*, i.e. has exactly two child nodes; `false`
    /// otherwise.
    pub fn is_full_branch(&self) -> (r: bool)
        requires
            self.valid(),
        ensures
            r == (self.node().children().len() == 2),
    {
        matches!(&self.tree.storage[self.key].value, NodeData::Branch { right_child: Some(_), .. })
    }

    /// Returns a reference to the data stored in the node.
    pub fn value(&self) -> (r: NodeValue<&'a B, &'a L>)
        requires
            self.valid(),
        ensures
            value_refs_match(r, node_value(self.node())),
    {
        let tree: &'a BinaryTree<B, L> = self.tree;
        match &tree.storage[self.key].value {
            NodeData::Branch { payload, .. } => NodeValue::Branch(payload),
            NodeData::Leaf(x) => NodeValue::Leaf(x),
        }
    }

    /// Returns `true` if the node is the left child of its parent, `false` if it's the right one
    /// and `None` if it's the root node.
    pub fn is_left_child(&self) -> (r: Option<bool>)
        requires
            self.valid(),
        ensures
            match self.node().parent {
                Some(p) => r == Some(
                    self.tree().nodes()[p as int].value->Branch_left_child == self.key(),
                ),
                None => r is None,
            },
    {
        match self.tree.storage[self.key].parent {
            Some(p) => {
                proof {
                    lemma_binary_links(self.tree.nodes(), self.key);
                }
                match &self.tree.storage[p].value {
                    NodeData::Branch { left_child, .. } => Some(*left_child == self.key),
                    NodeData::Leaf(_) => {
                        assert(false);
                        None
                    },
                }
            },
            None => None,
        }
    }

    /// Returns `true` if the node is the right child of its parent, `false` if it's the left one
    /// and `None` if it's the root node.
    pub fn is_right_child(&self) -> (r: Option<bool>)
        requires
            self.valid(),
        ensures
            match self.node().parent {
                Some(p) => r == Some(
                    self.tree().nodes()[p as int].value->Branch_right_child == Some(self.key()),
                ),
                None => r is None,
            },
    {
        match self.tree.storage[self.key].parent {
            Some(p) => {
                proof {
                    lemma_binary_links(self.tree.nodes(), self.key);
                }
                match &self.tree.storage[p].value {
                    NodeData::Branch { right_child, .. } => Some(*right_child == Some(self.key)),
                    NodeData::Leaf(_) => {
                        assert(false);
                        None
                    },
                }
            },
            None => None,
        }
    }

    /// Returns references to the children, or `None` if the node is a leaf node or it only has
    /// one child.
    pub fn children(&self) -> (r: Option<(Self, Self)>)
        requires
            self.valid(),
        ensures
            match r {
                Some((a, b)) => {
                    &&& self.node().children().len() == 2
                    &&& a.tree() == self.tree() && a.key() == self.node().children()[0] && a.valid()
                    &&& b.tree() == self.tree() && b.key() == self.node().children()[1] && b.valid()
                },
                None => self.node().children().len() != 2,
            },
    {
        proof {
            lemma_binary_links(self.tree.nodes(), self.key);
        }
        match &self.tree.storage[self.key].value {
            NodeData::Branch { left_child, right_child: Some(r), .. } => {
                assert(self.node().children()[0] == *left_child);
                assert(self.node().children()[1] == *r);
                Some((NodeRef { tree: self.tree, key: *left_child }, NodeRef { tree: self.tree, key: *r }))
            },
            _ => None,
        }
    }

    /// Returns a reference to the left child, or `None` if the node is a leaf node.
    pub fn left_child(&self) -> (r: Option<Self>)
        requires
            self.valid(),
        ensures
            match r {
                Some(n) => {
                    &&& self.node().value is Branch
                    &&& n.tree() == self.tree()
                    &&& n.key() == self.node().value->Branch_left_child
                    &&& n.valid()
                },
                None => self.node().value is Leaf,
            },
    {
        proof {
            lemma_binary_links(self.tree.nodes(), self.key);
        }
        match &self.tree.storage[self.key].value {
            NodeData::Branch { left_child, .. } => {
                assert(self.node().children()[0] == *left_child);
                Some(NodeRef { tree: self.tree, key: *left_child })
            },
            NodeData::Leaf(_) => None,
        }
    }

    /// Returns a reference to the right child, or `None` if the node is a leaf node or only has a
    /// left child.
    pub fn right_child(&self) -> (r: Option<Self>)
        requires
            self.valid(),
        ensures
            match r {
                Some(n) => {
                    &&& self.node().value->Branch_right_child == Some(n.key())
                    &&& self.node().value is Branch
                    &&& n.tree() == self.tree()
                    &&& n.valid()
                },
                None => !(self.node().value matches NodeData::Branch { right_child: Some(_), .. }),
            },
    {
        proof {
            lemma_binary_links(self.tree.nodes(), self.key);
        }
        match &self.tree.storage[self.key].value {
            NodeData::Branch { right_child: Some(r), .. } => {
                assert(self.node().children()[1] == *r);
                Some(NodeRef { tree: self.tree, key: *r })
            },
            _ => None,
        }
    }
}

impl<'a, B, L> Clone for NodeRef<'a, B, L> {
    fn clone(&self) -> (r: Self)
        ensures
            r == *self,
    {
        NodeRef { tree: self.tree, key: self.key }
    }
}

} // verus!

verus! {

/// A *mutable* reference to a node in a binary tree.
///
/// Since this type does not point to the node directly, but rather the tree the node is in and
/// the key of the node in the storage, it can be used to traverse the tree and modify it as a
/// whole.
#[derive(Debug)]
pub struct NodeRefMut<'a, B, L = B> {
    tree: &'a mut BinaryTree<B, L>,
    key: usize,
}

impl<'a, B, L> NodeRefMut<'a, B, L> {
    /// The tree the node is in, as it currently is.
    pub closed spec fn tree(self) -> BinaryTree<B, L> {
        *self.tree
    }

    /// The mutable borrow of the tree the node is in.
    pub closed spec fn tree_borrow(self) -> &'a mut BinaryTree<B, L> {
        self.tree
    }

    /// The key of the node in the storage.
    pub closed spec fn key(self) -> usize {
        self.key
    }

    /// The reference points to a node of a well-formed tree.
    pub open spec fn valid(self) -> bool {
        self.tree().wf() && self.key() < self.tree().nodes().len()
    }

    /// The node the reference points to.
    pub open spec fn node(self) -> Node<B, L> {
        self.tree().nodes()[self.key() as int]
    }

    /// Once the reference is done with, the tree it borrowed is the tree it last held.
    pub broadcast proof fn lemma_resolved(self)
        ensures
            #[trigger] has_resolved(self) ==> *final(self.tree_borrow()) == self.tree(),
    {
    }

    /// Creates a new `NodeRefMut` pointing to the specified key in the storage, or `None` if
    /// there is no node there.
    pub fn new_raw(tree: &'a mut BinaryTree<B, L>, key: usize) -> (r: Option<Self>)
        ensures
            r is Some <==> key < old(tree).nodes().len(),
            r matches Some(n) ==> n.tree() == *old(tree) && n.key() == key && *final(n.tree_borrow())
                == *final(tree),
            r is None ==> *final(tree) == *old(tree),
    {
        if key < tree.storage.len() {
            Some(NodeRefMut { tree, key })
        } else {
            None
        }
    }

    /// Creates a mutable reference to an existing node; `key` must be a key of the tree.
    pub(crate) fn new_raw_unchecked(tree: &'a mut BinaryTree<B, L>, key: usize) -> (r: Self)
        ensures
            r.tree() == *old(tree),
            r.key() == key,
            *final(r.tree_borrow()) == *final(tree),
    {
        NodeRefMut { tree, key }
    }

    /// Returns a reference to the raw storage key for the node.
    pub fn raw_key(&self) -> (r: &usize)
        ensures
            *r == self.key(),
    {
        &self.key
    }

    /// Consumes the reference and returns the underlying raw storage key for the node.
    pub fn into_raw_key(self) -> (r: usize)
        ensures
            r == self.key(),
    {
        self.key
    }

    /// A shared reference to the same node.
    fn as_node_ref(&self) -> (r: NodeRef<'_, B, L>)
        ensures
            *r.tree() == self.tree(),
            r.key() == self.key(),
    {
        NodeRef { tree: &*self.tree, key: self.key }
    }

    /// Returns a reference to the parent node of the pointee, or `None` if it's the root node.
    pub fn parent(&self) -> (r: Option<NodeRef<'_, B, L>>)
        requires
            self.valid(),
        ensures
            match (self.node().parent, r) {
                (Some(p), Some(n)) => *n.tree() == self.tree() && n.key() == p && n.valid(),
                (None, None) => true,
                _ => false,
            },
    {
        self.as_node_ref().parent()
    }

    /// Returns a *mutable* reference to the parent node of the pointee, or `None` if it's the
    /// root node.
    pub fn parent_mut(&mut self) -> (r: Option<NodeRefMut<'_, B, L>>)
        requires
            old(self).valid(),
        ensures
            *final(final(self).tree_borrow()) == *final(old(self).tree_borrow()),
            match r {
                Some(n) => {
                    &&& old(self).node().parent == Some(n.key())
                    &&& n.tree() == old(self).tree()
                    &&& n.valid()
                    &&& final(self).key() == old(self).key()
                    &&& final(self).tree() == *final(n.tree_borrow())
                },
                None => old(self).node().parent is None && *final(self) == *old(self),
            },
    {
        proof {
            lemma_binary_links(self.tree.nodes(), self.key);
        }
        match self.tree.storage[self.key].parent {
            Some(p) => Some(NodeRefMut { tree: &mut *self.tree, key: p }),
            None => None,
        }
    }

    /// Returns `true` if the node is the root node, `false` otherwise.
    pub fn is_root(&self) -> (r: bool)
        requires
            self.valid(),
        ensures
            r == self.node().parent is None,
            r == (self.key() == 0),
    {
        self.as_node_ref().is_root()
    }

    /// Returns `true` if the node is a *leaf*, i.e. does not have child nodes; `false` otherwise.
    pub fn is_leaf(&self) -> (r: bool)
        requires
            self.valid(),
        ensures
            r == self.node().value is Leaf,
    {
        self.as_node_ref().is_leaf()
    }

    /// Returns `true` if the node is a *branch*, i.e. has one or two child nodes; `false`
    /// otherwise.
    pub fn is_branch(&self) -> (r: bool)
        requires
            self.valid(),
        ensures
            r == self.node().value is Branch,
    {
        self.as_node_ref().is_branch()
    }

    /// Returns `true` if the node is a *full branch*, i.e. has exactly two child nodes; `false`
    /// otherwise.
    pub fn is_full_branch(&self) -> (r: bool)
        requires
            self.valid(),
        ensures
            r == (self.node().children().len() == 2),
    {
        self.as_node_ref().is_full_branch()
    }

    /// Returns a reference to the data stored in the node.
    pub fn value(&self) -> (r: NodeValue<&'_ B, &'_ L>)
        requires
            self.valid(),
        ensures
            value_refs_match(r, node_value(self.node())),
    {
        self.as_node_ref().value()
    }

    /// Returns a *mutable* reference to the data stored in the node.
    pub fn value_mut(&mut self) -> (r: NodeValue<&'_ mut B, &'_ mut L>)
        requires
            old(self).valid(),
        ensures
            *final(final(self).tree_borrow()) == *final(old(self).tree_borrow()),
            match r {
                NodeValue::Branch(b) => node_value(old(self).node()) == NodeValue::<B, L>::Branch(*b),
                NodeValue::Leaf(l) => node_value(old(self).node()) == NodeValue::<B, L>::Leaf(*l),
            },
            final(self).key() == old(self).key(),
            final(self).tree().wf(),
            final(self).tree().parents() == old(self).tree().parents(),
            final(self).tree().kids() == old(self).tree().kids(),
            final(self).tree().values() == old(self).tree().values().update(
                old(self).key() as int,
                match r {
                    NodeValue::Branch(b) => NodeValue::<B, L>::Branch(*final(b)),
                    NodeValue::Leaf(l) => NodeValue::<B, L>::Leaf(*final(l)),
                },
            ),
    {
        self.tree.value_mut_of(&self.key)
    }

    /// Returns `true` if the node is the left child of its parent, `false` if it's the right one
    /// and `None` if it's the root node.
    pub fn is_left_child(&self) -> (r: Option<bool>)
        requires
            self.valid(),
        ensures
            match self.node().parent {
                Some(p) => r == Some(
                    self.tree().nodes()[p as int].value->Branch_left_child == self.key(),
                ),
                None => r is None,
            },
    {
        self.as_node_ref().is_left_child()
    }

    /// Returns `true` if the node is the right child of its parent, `false` if it's the left one
    /// and `None` if it's the root node.
    pub fn is_right_child(&self) -> (r: Option<bool>)
        requires
            self.valid(),
        ensures
            match self.node().parent {
                Some(p) => r == Some(
                    self.tree().nodes()[p as int].value->Branch_right_child == Some(self.key()),
                ),
                None => r is None,
            },
    {
        self.as_node_ref().is_right_child()
    }

    /// Returns a reference to the left child, or `None` if the node is a leaf node.
    pub fn left_child(&self) -> (r: Option<NodeRef<'_, B, L>>)
        requires
            self.valid(),
        ensures
            match r {
                Some(n) => {
                    &&& self.node().value is Branch
                    &&& *n.tree() == self.tree()
                    &&& n.key() == self.node().value->Branch_left_child
                    &&& n.valid()
                },
                None => self.node().value is Leaf,
            },
    {
        self.as_node_ref().left_child()
    }

    /// Returns a reference to the right child, or `None` if the node is a leaf node or only has a
    /// left child.
    pub fn right_child(&self) -> (r: Option<NodeRef<'_, B, L>>)
        requires
            self.valid(),
        ensures
            match r {
                Some(n) => {
                    &&& self.node().value->Branch_right_child == Some(n.key())
                    &&& self.node().value is Branch
                    &&& *n.tree() == self.tree()
                    &&& n.valid()
                },
                None => !(self.node().value matches NodeData::Branch { right_child: Some(_), .. }),
            },
    {
        self.as_node_ref().right_child()
    }

    /// Returns a *mutable* reference to the left child, or `None` if the node is a leaf node.
    pub fn left_child_mut(&mut self) -> (r: Option<NodeRefMut<'_, B, L>>)
        requires
            old(self).valid(),
        ensures
            *final(final(self).tree_borrow()) == *final(old(self).tree_borrow()),
            match r {
                Some(n) => {
                    &&& old(self).node().value is Branch
                    &&& n.key() == old(self).node().value->Branch_left_child
                    &&& n.tree() == old(self).tree()
                    &&& n.valid()
                    &&& final(self).key() == old(self).key()
                    &&& final(self).tree() == *final(n.tree_borrow())
                },
                None => old(self).node().value is Leaf && *final(self) == *old(self),
            },
    {
        proof {
            lemma_binary_links(self.tree.nodes(), self.key);
        }
        match self.tree.storage[self.key].value {
            NodeData::Branch { left_child, .. } => {
                assert(self.node().children()[0] == left_child);
                Some(NodeRefMut { tree: &mut *self.tree, key: left_child })
            },
            NodeData::Leaf(_) => None,
        }
    }

    /// Returns a *mutable* reference to the right child, or `None` if the node is a leaf node or
    /// only has a left child.
    pub fn right_child_mut(&mut self) -> (r: Option<NodeRefMut<'_, B, L>>)
        requires
            old(self).valid(),
        ensures
            *final(final(self).tree_borrow()) == *final(old(self).tree_borrow()),
            match r {
                Some(n) => {
                    &&& old(self).node().value->Branch_right_child == Some(n.key())
                    &&& old(self).node().value is Branch
                    &&& n.tree() == old(self).tree()
                    &&& n.valid()
                    &&& final(self).key() == old(self).key()
                    &&& final(self).tree() == *final(n.tree_borrow())
                },
                None => !(old(self).node().value matches NodeData::Branch { right_child: Some(_), .. })
                    && *final(self) == *old(self),
            },
    {
        proof {
            lemma_binary_links(self.tree.nodes(), self.key);
        }
        match self.tree.storage[self.key].value {
            NodeData::Branch { right_child: Some(r), .. } => {
                assert(self.node().children()[1] == r);
                Some(NodeRefMut { tree: &mut *self.tree, key: r })
            },
            _ => None,
        }
    }

    /// Converts a leaf node into a branch node with the specified leaf children, using the
    /// provided closure to convert the payload.
    ///
    /// # Errors
    /// Will fail if the node is already a branch node. In such a case, the provided values for the
    /// children are returned back to the caller.
    pub fn make_branch_with(
        &mut self,
        left_child: L,
        right_child: Option<L>,
        f: impl FnOnce(L) -> B,
    ) -> (result: Result<(), MakeBranchError<L, Vec<L>>>)
        requires
            old(self).valid(),
            old(self).node().value is Leaf ==> f.requires((leaf_payload(old(self).node()),)),
            old(self).tree().nodes().len() + 3 < usize::MAX,
        ensures
            *final(final(self).tree_borrow()) == *final(old(self).tree_borrow()),
            final(self).key() == old(self).key(),
            final(self).tree().wf(),
            make_branch_outcome(
                old(self).tree().nodes(),
                old(self).key(),
                left_child,
                right_child,
                |x: L, y: B| f.ensures((x,), y),
                result,
                final(self).tree().nodes(),
            ),
    {
        self.tree.make_branch_at(self.key, left_child, right_child, f)
    }

    /// Converts a partial branch node into a full branch, giving the specified value to the right
    /// child.
    ///
    /// # Errors
    /// Will fail if:
    /// - The node was a leaf node — you can use [`make_branch`]/[`make_branch_with`] instead;
    /// - The node already was a full branch.
    ///
    /// In both cases, the provided right child value will not be dropped but instead will be
    /// returned to the caller in the error type.
    ///
    /// [`make_branch`]: #method.make_branch " "
    /// [`make_branch_with`]: #method.make_branch_with " "
    pub fn make_full_branch(&mut self, right_child: L) -> (result: Result<(), MakeFullBranchError<L>>)
        requires
            old(self).valid(),
            old(self).tree().nodes().len() + 1 < usize::MAX,
        ensures
            *final(final(self).tree_borrow()) == *final(old(self).tree_borrow()),
            final(self).key() == old(self).key(),
            final(self).tree().wf(),
            full_branch_outcome(
                old(self).tree().nodes(),
                old(self).key(),
                right_child,
                result,
                final(self).tree().nodes(),
            ),
    {
        self.tree.make_full_branch_at(self.key, right_child)
    }

    /// Attempts to remove a leaf node without using recursion. If its parent only had one child,
    /// it's replaced with a leaf node, the value for which is provided by the specified closure
    /// (the previous value is passed into the closure).
    ///
    /// # Errors
    /// Will fail in the following scenarios:
    /// - The node was a branch node, which would require recursion to remove, and this function
    ///   explicitly does not implement recursive removal.
    /// - The node was the root node, which can never be removed.
    ///
    /// # Keys
    /// The nodes after the removed ones move down to close the gap in the storage, so a key
    /// taken before the removal may name another node afterwards.
    pub fn try_remove_leaf_with(self, f: impl FnOnce(B) -> L) -> (result: Result<L, TryRemoveLeafError>)
        requires
            self.valid(),
            removal_converts_parent(self.tree().nodes(), self.key()) ==> f.requires(
                (branch_payload(self.tree().nodes()[parent_key(self.tree().nodes(), self.key()) as int]),),
            ),
        ensures
            (*final(self.tree_borrow())).wf(),
            leaf_removal_outcome(
                self.tree().nodes(),
                self.key(),
                |x: B, y: L| f.ensures((x,), y),
                result,
                (*final(self.tree_borrow())).nodes(),
            ),
    {
        self.tree.try_remove_leaf_at(self.key, f)
    }

    /// Attempts to remove a branch node without using recursion. If its parent only had one
    /// child, it's replaced with a leaf node, the value for which is provided by the specified
    /// closure (the previous value is passed into the closure).
    ///
    /// # Errors
    /// Will fail in the following scenarios:
    /// - The node was a leaf node. The `try_remove_leaf`/`try_remove_leaf_with` methods exist for
    ///   that.
    /// - The node was the root node, which can never be removed.
    /// - One or more of the node's children were a branch node, which thus would require
    ///   recursion to remove.
    ///
    /// # Keys
    /// The nodes after the removed ones move down to close the gap in the storage, so a key
    /// taken before the removal may name another node afterwards.
    pub fn try_remove_branch_with(self, f: impl FnOnce(B) -> L) -> (result: Result<
        (B, L, Option<L>),
        TryRemoveBranchError,
    >)
        requires
            self.valid(),
            removal_converts_parent(self.tree().nodes(), self.key()) ==> f.requires(
                (branch_payload(self.tree().nodes()[parent_key(self.tree().nodes(), self.key()) as int]),),
            ),
        ensures
            (*final(self.tree_borrow())).wf(),
            branch_removal_outcome(
                self.tree().nodes(),
                self.key(),
                |x: B, y: L| f.ensures((x,), y),
                result,
                (*final(self.tree_borrow())).nodes(),
            ),
    {
        self.tree.try_remove_branch_at(self.key, f)
    }

    /// Attempts to remove a branch node's children without using recursion, replacing it with a
    /// leaf node, the value for which is provided by the specified closure.
    ///
    /// # Errors
    /// Will fail in the following scenarios:
    /// - The node was a leaf node, which cannot have children by definition.
    /// - One or more of the node's children were a branch node, which thus would require
    ///   recursion to remove.
    ///
    /// # Keys
    /// The nodes after the removed ones move down to close the gap in the storage, so a key
    /// taken before the removal may name another node afterwards.
    pub fn try_remove_children_with(&mut self, f: impl FnOnce(B) -> L) -> (result: Result<
        (L, Option<L>),
        TryRemoveChildrenError,
    >)
        requires
            old(self).valid(),
            old(self).node().value is Branch ==> f.requires((branch_payload(old(self).node()),)),
        ensures
            *final(final(self).tree_borrow()) == *final(old(self).tree_borrow()),
            final(self).key() == old(self).key(),
            final(self).tree().wf(),
            children_removal_outcome(
                old(self).tree().nodes(),
                old(self).key(),
                |x: B, y: L| f.ensures((x,), y),
                result,
                final(self).tree().nodes(),
            ),
    {
        self.tree.try_remove_children_at(self.key, f)
    }

    /// Recursively removes the specified node and all its descendants, using a closure to patch
    /// nodes which transition from having one child to having zero children.
    ///
    /// Returns the payload the node had when it was removed.
    ///
    /// # Keys
    /// The nodes after the removed ones move down to close the gap in the storage, so a key
    /// taken before the removal may name another node afterwards.
    pub fn recursively_remove_with(self, branch_to_leaf: impl Fn(B) -> L) -> (r: NodeValue<B, L>)
        requires
            self.valid(),
            self.key() != 0,
            forall|b: B| branch_to_leaf.requires((b,)),
        ensures
            (*final(self.tree_borrow())).wf(),
            (*final(self.tree_borrow())).nodes().len() < self.tree().nodes().len(),
            kept_or_converted(node_value(self.node()), r, true, branch_to_leaf),
            removal_result(&self.tree(), self.key(), r),
            subtree_removed(&self.tree(), &*final(self.tree_borrow()), self.key(), &branch_to_leaf),
            node_value(self.node()) is Leaf ==> leaf_removed(&self.tree(), &*final(self.tree_borrow()), self.key(), &branch_to_leaf),
            node_value(self.node()) is Branch && all_leaves(self.tree().values(), self.tree().kids()[self.key() as int])
                ==> branch_removed(&self.tree(), &*final(self.tree_borrow()), self.key(), &branch_to_leaf),
            parents_kept_below(self.tree().parents(), (*final(self.tree_borrow())).parents(), self.key() as int),
    {
        proof {
            lemma_binary_links(self.tree.nodes(), self.key);
        }
        recursively_remove_with(self.tree, self.key, branch_to_leaf)
    }
}

impl<'a, D> NodeRefMut<'a, D, D> {
    /// Converts a leaf node into a branch node with the specified leaf children, keeping its
    /// payload. Because of that, *this method is only available when the payload for leaf nodes
    /// and branch nodes is the same.*
    ///
    /// # Errors
    /// Will fail if the node is already a branch node. In such a case, the provided values for the
    /// children are returned back to the caller.
    pub fn make_branch(&mut self, left_child: D, right_child: Option<D>) -> (result: Result<
        (),
        MakeBranchError<D, Vec<D>>,
    >)
        requires
            old(self).valid(),
            old(self).tree().nodes().len() + 3 < usize::MAX,
        ensures
            final(self).key() == old(self).key(),
            *final(final(self).tree_borrow()) == *final(old(self).tree_borrow()),
            final(self).tree().wf(),
            (result is Ok <==> old(self).node().value is Leaf),
            result is Ok ==> final(self).tree().nodes() == branch_made(
                old(self).tree().nodes(),
                old(self).key(),
                leaf_payload(old(self).node()),
                left_child,
                right_child,
            ),
            result matches Err(e) ==> final(self).tree().nodes() == old(self).tree().nodes()
                && e.packed_children@ == match right_child {
                Some(r) => seq![left_child, r],
                None => seq![left_child],
            },
    {
        let keep = |x: D| -> (y: D)
            ensures
                y == x,
            { x };
        self.make_branch_with(left_child, right_child, keep)
    }

    /// Attempts to remove the node without using recursion. If the parent only had one child,
    /// it's replaced with a leaf node, keeping its payload, which is why *this method is
    /// only available when the payload for leaf nodes and branch nodes is the same.*
    ///
    /// # Errors
    /// Will fail in the following scenarios:
    /// - The node was a branch node, which would require recursion to remove, and this function
    ///   explicitly does not implement recursive removal.
    /// - The node was the root node, which can never be removed.
    ///
    /// # Keys
    /// The nodes after the removed ones move down to close the gap in the storage, so a key
    /// taken before the removal may name another node afterwards.
    pub fn try_remove_leaf(self) -> (result: Result<D, TryRemoveLeafError>)
        requires
            self.valid(),
        ensures
            (*final(self.tree_borrow())).wf(),
            leaf_removal_outcome(
                self.tree().nodes(),
                self.key(),
                |x: D, y: D| y == x,
                result,
                (*final(self.tree_borrow())).nodes(),
            ),
    {
        let keep = |x: D| -> (y: D)
            ensures
                y == x,
            { x };
        self.try_remove_leaf_with(keep)
    }

    /// Attempts to remove a branch node without using recursion. If its parent only had one
    /// child, it's replaced with a leaf node, keeping its payload, which is why *this
    /// method is only available when the payload for leaf nodes and branch nodes is the same.*
    ///
    /// # Errors
    /// Will fail in the following scenarios:
    /// - The node was a leaf node. The `try_remove_leaf`/`try_remove_leaf_with` methods exist for
    ///   that.
    /// - The node was the root node, which can never be removed.
    /// - One or more of the node's children were a branch node, which thus would require
    ///   recursion to remove.
    ///
    /// # Keys
    /// The nodes after the removed ones move down to close the gap in the storage, so a key
    /// taken before the removal may name another node afterwards.
    pub fn try_remove_branch(self) -> (result: Result<(D, D, Option<D>), TryRemoveBranchError>)
        requires
            self.valid(),
        ensures
            (*final(self.tree_borrow())).wf(),
            branch_removal_outcome(
                self.tree().nodes(),
                self.key(),
                |x: D, y: D| y == x,
                result,
                (*final(self.tree_borrow())).nodes(),
            ),
    {
        let keep = |x: D| -> (y: D)
            ensures
                y == x,
            { x };
        self.try_remove_branch_with(keep)
    }

    /// Attempts to remove a branch node's children without using recursion, replacing it with a
    /// leaf node, keeping its payload. Because of that, *this method is only available
    /// when the payload for leaf nodes and branch nodes is the same.*
    ///
    /// # Errors
    /// Will fail in the following scenarios:
    /// - The node was a leaf node, which cannot have children by definition.
    /// - One or more of the node's children were a branch node, which thus would require
    ///   recursion to remove.
    ///
    /// # Keys
    /// The nodes after the removed ones move down to close the gap in the storage, so a key
    /// taken before the removal may name another node afterwards.
    pub fn try_remove_children(&mut self) -> (result: Result<(D, Option<D>), TryRemoveChildrenError>)
        requires
            old(self).valid(),
        ensures
            *final(final(self).tree_borrow()) == *final(old(self).tree_borrow()),
            final(self).key() == old(self).key(),
            final(self).tree().wf(),
            children_removal_outcome(
                old(self).tree().nodes(),
                old(self).key(),
                |x: D, y: D| y == x,
                result,
                final(self).tree().nodes(),
            ),
    {
        let keep = |x: D| -> (y: D)
            ensures
                y == x,
            { x };
        self.try_remove_children_with(keep)
    }

    /// Recursively removes the specified node and all its descendants. Will keep the previous
    /// payload of the parent node if removing this node results in a transformation of the
    /// parent into a leaf, which is why *this method is only available when the payload for leaf
    /// nodes and branch nodes is the same.*
    ///
    /// Returns the payload the node had.
    ///
    /// # Keys
    /// The nodes after the removed ones move down to close the gap in the storage, so a key
    /// taken before the removal may name another node afterwards.
    pub fn recursively_remove(self) -> (r: NodeValue<D>)
        requires
            self.valid(),
            self.key() != 0,
        ensures
            (*final(self.tree_borrow())).wf(),
            (*final(self.tree_borrow())).nodes().len() < self.tree().nodes().len(),
            crate::node_value_inner(r) == crate::node_value_inner(node_value(self.node())),
            removal_result(&self.tree(), self.key(), r),
            subtree_removed(
                &self.tree(),
                &*final(self.tree_borrow()),
                self.key(),
                &crate::traversal::algorithms::keep_payload::<D>,
            ),
            parents_kept_below(self.tree().parents(), (*final(self.tree_borrow())).parents(), self.key() as int),
    {
        proof {
            lemma_binary_links(self.tree.nodes(), self.key);
        }
        crate::traversal::algorithms::recursively_remove(self.tree, self.key)
    }
}

} // verus!
