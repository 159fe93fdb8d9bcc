use vstd::prelude::*;
use crate::{NodeValue, MakeBranchError, TryRemoveLeafError, TryRemoveBranchError, TryRemoveChildrenError};
use crate::traversal::{Traversable, kept_or_converted, parents_kept_below, all_leaves};
use crate::traversal::algorithms::{recursively_remove_with, removal_result, leaf_removed, branch_removed};
use crate::traversal::algorithms::survivors::subtree_removed;
use super::base::{
    FreeformTree, TryPushError, leaf_payload, branch_payload, parent_key, removal_converts_parent,
    leaf_removal_outcome, children_removal_outcome, branch_made_outcome, push_outcome,
};
use super::removal::branch_removal_outcome;
use super::node::{Node, NodeData};

verus! {

/// The payload of a node, whatever kind of node it is.
pub open spec fn node_value<B, L>(node: Node<B, L>) -> NodeValue<B, L> {
    node.value.value_spec()
}

/// A by-reference payload holds the same payload as a by-value one.
pub open spec fn value_refs_match<B, L>(r: NodeValue<&B, &L>, v: NodeValue<B, L>) -> bool {
    match (r, v) {
        (NodeValue::Branch(x), NodeValue::Branch(y)) => *x == y,
        (NodeValue::Leaf(x), NodeValue::Leaf(y)) => *x == y,
        _ => false,
    }
}

/// A reference to a node in a freeform tree.
///
/// Since this type does not point to the node directly, but rather the tree the node is in and
/// the key of the node in the storage, it can be used to traverse the tree.
pub struct NodeRef<'a, B, L = B> {
    tree: &'a FreeformTree<B, L>,
    key: usize,
}

impl<'a, B, L> NodeRef<'a, B, L> {
    /// The tree the node is in.
    pub closed spec fn tree(self) -> &'a FreeformTree<B, L> {
        self.tree
    }

    /// The key of the node in the storage.
    pub closed spec fn key(self) -> usize {
        self.key
    }

    /// The reference points to a node of a well-formed tree.
    pub open spec fn valid(self) -> bool {
        self.tree().wf() && self.key() < self.tree().nodes().len()
    }

    /// The node the reference points to.
    pub open spec fn node(self) -> Node<B, L> {
        self.tree().nodes()[self.key() as int]
    }

    /// Creates a new `NodeRef` pointing to the specified key in the storage, or `None` if there
    /// is no node there.
    pub fn new_raw(tree: &'a FreeformTree<B, L>, key: usize) -> (r: Option<Self>)
        ensures
            r is Some <==> key < tree.nodes().len(),
            r matches Some(n) ==> n.tree() == tree && n.key() == key,
    {
        if key < tree.len() {
            Some(NodeRef { tree, key })
        } else {
            None
        }
    }

    /// Creates a reference to an existing node; `key` must be a key of the tree.
    pub(crate) fn new_raw_unchecked(tree: &'a FreeformTree<B, L>, key: usize) -> (r: Self)
        ensures
            r.tree() == tree,
            r.key() == key,
    {
        NodeRef { tree, key }
    }

    /// Returns a reference to the raw storage key for the node.
    pub fn raw_key(&self) -> (r: &usize)
        ensures
            *r == self.key(),
    {
        &self.key
    }

    /// Consumes the reference and returns the underlying raw storage key for the node.
    pub fn into_raw_key(self) -> (r: usize)
        ensures
            r == self.key(),
    {
        self.key
    }

    /// A reference to the node at `key`, if any.
    fn at_key(&self, key: Option<usize>) -> (r: Option<Self>)
        ensures
            match (key, r) {
                (Some(k), Some(n)) => n.tree() == self.tree() && n.key() == k,
                (None, None) => true,
                _ => false,
            },
    {
        match key {
            Some(k) => Some(NodeRef { tree: self.tree, key: k }),
            None => None,
        }
    }

    /// Returns a reference to the parent node of the pointee, or `None` if it's the root node.
    pub fn parent(&self) -> (r: Option<Self>)
        requires
            self.valid(),
        ensures
            match (self.node().parent, r) {
                (Some(p), Some(n)) => n.tree() == self.tree() && n.key() == p && n.valid(),
                (None, None) => true,
                _ => false,
            },
    {
        proof {
            self.tree.lemma_children(self.key);
        }
        self.at_key(self.tree.node_at(self.key).parent)
    }

    /// Returns a reference to the sibling of the pointee which comes before it in order, or
    /// `None` if it's the first child of its parent.
    pub fn prev_sibling(&self) -> (r: Option<Self>)
        requires
            self.valid(),
        ensures
            match (self.node().prev_sibling, r) {
                (Some(p), Some(n)) => n.tree() == self.tree() && n.key() == p && n.valid(),
                (None, None) => true,
                _ => false,
            },
    {
        proof {
            self.tree.lemma_siblings(self.key);
        }
        self.at_key(self.tree.node_at(self.key).prev_sibling)
    }

    /// Returns a reference to the sibling of the pointee which comes after it in order, or `None`
    /// if it's the last child of its parent.
    pub fn next_sibling(&self) -> (r: Option<Self>)
        requires
            self.valid(),
        ensures
            match (self.node().next_sibling, r) {
                (Some(p), Some(n)) => n.tree() == self.tree() && n.key() == p && n.valid(),
                (None, None) => true,
                _ => false,
            },
    {
        proof {
            self.tree.lemma_siblings(self.key);
        }
        self.at_key(self.tree.node_at(self.key).next_sibling)
    }

    /// Returns a reference to the first child of the node, or `None` if it's a leaf node.
    pub fn first_child(&self) -> (r: Option<Self>)
        requires
            self.valid(),
        ensures
            match (self.node().value, r) {
                (NodeData::Branch { first_child, .. }, Some(n)) => n.tree() == self.tree() && n.key() == first_child,
                (NodeData::Leaf(_), None) => true,
                _ => false,
            },
            r matches Some(n) ==> n.valid() && n.key() == self.tree().children_lists()[self.key() as int][0],
    {
        proof {
            self.tree.lemma_children(self.key);
        }
        match &self.tree.node_at(self.key).value {
            NodeData::Branch { first_child, .. } => Some(NodeRef { tree: self.tree, key: *first_child }),
            NodeData::Leaf(_) => None,
        }
    }

    /// Returns a reference to the last child of the node, or `None` if it's a leaf node.
    pub fn last_child(&self) -> (r: Option<Self>)
        requires
            self.valid(),
        ensures
            match (self.node().value, r) {
                (NodeData::Branch { last_child, .. }, Some(n)) => n.tree() == self.tree() && n.key() == last_child,
                (NodeData::Leaf(_), None) => true,
                _ => false,
            },
            r matches Some(n) ==> n.valid() && n.key() == self.tree().children_lists()[self.key() as int].last(),
    {
        proof {
            self.tree.lemma_children(self.key);
        }
        match &self.tree.node_at(self.key).value {
            NodeData::Branch { last_child, .. } => Some(NodeRef { tree: self.tree, key: *last_child }),
            NodeData::Leaf(_) => None,
        }
    }

    /// Returns `true` if the node is the root node, `false` otherwise.
    pub fn is_root(&self) -> (r: bool)
        requires
            self.valid(),
        ensures
            r == self.node().parent is None,
            r == (self.key() == 0),
    {
        proof {
            self.tree.lemma_children(self.key);
        }
        self.tree.node_at(self.key).parent.is_none()
    }

    /// Returns `true` if the node is a *leaf*, i.e. does not have child nodes; `false` otherwise.
    pub fn is_leaf(&self) -> (r: bool)
        requires
            self.valid(),
        ensures
            r == self.node().value is Leaf,
            r == (self.tree().children_lists()[self.key() as int].len() == 0),
    {
        proof {
            self.tree.lemma_children(self.key);
        }
        matches!(&self.tree.node_at(self.key).value, NodeData::Leaf(_))
    }

    /// Returns `true` if the node is a *branch*, i.e. has one or more child nodes; `false`
    /// otherwise.
    pub fn is_branch(&self) -> (r: bool)
        requires
            self.valid(),
        ensures
            r == self.node().value is Branch,
            r == (self.tree().children_lists()[self.key() as int].len() > 0),
    {
        proof {
            self.tree.lemma_children(self.key);
        }
        matches!(&self.tree.node_at(self.key).value, NodeData::Branch { .. })
    }

    /// Returns a reference to the data stored in the node.
    pub fn value(&self) -> (r: NodeValue<&'a B, &'a L>)
        requires
            self.valid(),
        ensures
            value_refs_match(r, node_value(self.node())),
    {
        let tree: &'a FreeformTree<B, L> = self.tree;
        match &tree.node_at(self.key).value {
            NodeData::Branch { payload, .. } => NodeValue::Branch(payload),
            NodeData::Leaf(x) => NodeValue::Leaf(x),
        }
    }

    /// Returns an iterator over references to the children of the node, or `None` if the node is
    /// a leaf node.
    pub fn children(&self) -> (r: Option<NodeSiblingsIter<'a, B, L>>)
        requires
            self.valid(),
        ensures
            match r {
                Some(it) => {
                    &&& self.node().value is Branch
                    &&& it.keys().tree() == self.tree()
                    &&& it.keys().current() == Some(self.tree().children_lists()[self.key() as int][0])
                    &&& it.keys().valid()
                },
                None => self.node().value is Leaf,
            },
    {
        match self.children_keys() {
            Some(keys) => Some(NodeSiblingsIter(keys)),
            None => None,
        }
    }

    /// Returns an iterator over the raw keys of the children of the node, or `None` if the node is
    /// a leaf node.
    pub fn children_keys(&self) -> (r: Option<NodeSiblingKeysIter<'a, B, L>>)
        requires
            self.valid(),
        ensures
            match r {
                Some(it) => {
                    &&& self.node().value is Branch
                    &&& it.tree() == self.tree()
                    &&& it.current() == Some(self.tree().children_lists()[self.key() as int][0])
                    &&& it.valid()
                },
                None => self.node().value is Leaf,
            },
    {
        match self.first_child() {
            Some(c) => Some(c.sibling_keys()),
            None => None,
        }
    }

    /// Returns an iterator over references to the siblings of the node. Does not include siblings
    /// which come before the current node. The first element yielded is always `self`.
    pub fn siblings(self) -> (r: NodeSiblingsIter<'a, B, L>)
        requires
            self.valid(),
        ensures
            r.keys().tree() == self.tree(),
            r.keys().current() == Some(self.key()),
            r.keys().valid(),
    {
        NodeSiblingsIter(self.sibling_keys())
    }

    /// Returns an iterator over the raw keys of the siblings of the node. Does not include
    /// siblings which come before the current node. The first element yielded is always `self`'s
    /// key.
    pub fn sibling_keys(self) -> (r: NodeSiblingKeysIter<'a, B, L>)
        requires
            self.valid(),
        ensures
            r.tree() == self.tree(),
            r.current() == Some(self.key()),
            r.valid(),
    {
        NodeSiblingKeysIter { tree: self.tree, key: Some(self.key) }
    }
}

/// An iterator over keys of the siblings of a freeform tree node, following the links from each
/// sibling to the next one.
pub struct NodeSiblingKeysIter<'a, B, L = B> {
    tree: &'a FreeformTree<B, L>,
    key: Option<usize>,
}

impl<'a, B, L> NodeSiblingKeysIter<'a, B, L> {
    /// The tree the siblings are in.
    pub closed spec fn tree(self) -> &'a FreeformTree<B, L> {
        self.tree
    }

    /// The key the iterator yields next, if any.
    pub closed spec fn current(self) -> Option<usize> {
        self.key
    }

    /// The iterator walks a well-formed tree and yields only keys of it.
    pub open spec fn valid(self) -> bool {
        &&& self.tree().wf()
        &&& self.current() matches Some(k) ==> k < self.tree().nodes().len()
    }

    /// Yields the current key and moves on to the next sibling of that node.
    pub fn next(&mut self) -> (r: Option<usize>)
        requires
            old(self).valid(),
        ensures
            r == old(self).current(),
            final(self).tree() == old(self).tree(),
            final(self).current() == match old(self).current() {
                Some(k) => old(self).tree().nodes()[k as int].next_sibling,
                None => None,
            },
            final(self).valid(),
    {
        match self.key {
            Some(k) => {
                proof {
                    self.tree.lemma_siblings(k);
                }
                self.key = self.tree.node_at(k).next_sibling;
                Some(k)
            },
            None => None,
        }
    }
}

/// An iterator over references to the siblings of a freeform tree node.
pub struct NodeSiblingsIter<'a, B, L = B>(NodeSiblingKeysIter<'a, B, L>);

impl<'a, B, L> NodeSiblingsIter<'a, B, L> {
    /// The keys the iterator walks.
    pub closed spec fn keys(self) -> NodeSiblingKeysIter<'a, B, L> {
        self.0
    }

    /// Yields a reference to the current sibling and moves on to the next one.
    pub fn next(&mut self) -> (r: Option<NodeRef<'a, B, L>>)
        requires
            old(self).keys().valid(),
        ensures
            match (old(self).keys().current(), r) {
                (Some(k), Some(n)) => n.tree() == old(self).keys().tree() && n.key() == k && n.valid(),
                (None, None) => true,
                _ => false,
            },
            final(self).keys().tree() == old(self).keys().tree(),
            final(self).keys().current() == match old(self).keys().current() {
                Some(k) => old(self).keys().tree().nodes()[k as int].next_sibling,
                None => None,
            },
            final(self).keys().valid(),
    {
        let tree = self.0.tree;
        match self.0.next() {
            Some(k) => Some(NodeRef::new_raw_unchecked(tree, k)),
            None => None,
        }
    }
}

} // verus!

verus! {

/// A *mutable* reference to a node in a freeform tree.
///
/// Since this type does not point to the node directly, but rather the tree the node is in and
/// the key of the node in the storage, it can be used to traverse the tree and modify it as a
/// whole.
pub struct NodeRefMut<'a, B, L = B> {
    tree: &'a mut FreeformTree<B, L>,
    key: usize,
}

impl<'a, B, L> NodeRefMut<'a, B, L> {
    /// The tree the node is in, as it currently is.
    pub closed spec fn tree(self) -> FreeformTree<B, L> {
        *self.tree
    }

    /// The mutable borrow of the tree the node is in.
    pub closed spec fn tree_borrow(self) -> &'a mut FreeformTree<B, L> {
        self.tree
    }

    /// The key of the node in the storage.
    pub closed spec fn key(self) -> usize {
        self.key
    }

    /// The reference points to a node of a well-formed tree.
    pub open spec fn valid(self) -> bool {
        self.tree().wf() && self.key() < self.tree().nodes().len()
    }

    /// The node the reference points to.
    pub open spec fn node(self) -> Node<B, L> {
        self.tree().nodes()[self.key() as int]
    }

    /// Once the reference is done with, the tree it borrowed is the tree it last held.
    pub broadcast proof fn lemma_resolved(self)
        ensures
            #[trigger] has_resolved(self) ==> *final(self.tree_borrow()) == self.tree(),
    {
    }

    /// Creates a new `NodeRefMut` pointing to the specified key in the storage, or `None` if
    /// there is no node there.
    pub fn new_raw(tree: &'a mut FreeformTree<B, L>, key: usize) -> (r: Option<Self>)
        ensures
            r is Some <==> key < old(tree).nodes().len(),
            r matches Some(n) ==> n.tree() == *old(tree) && n.key() == key && *final(n.tree_borrow())
                == *final(tree),
            r is None ==> *final(tree) == *old(tree),
    {
        if key < tree.len() {
            Some(NodeRefMut { tree, key })
        } else {
            None
        }
    }

    /// Creates a mutable reference to an existing node; `key` must be a key of the tree.
    pub(crate) fn new_raw_unchecked(tree: &'a mut FreeformTree<B, L>, key: usize) -> (r: Self)
        ensures
            r.tree() == *old(tree),
            r.key() == key,
            *final(r.tree_borrow()) == *final(tree),
    {
        NodeRefMut { tree, key }
    }

    /// Returns a reference to the raw storage key for the node.
    pub fn raw_key(&self) -> (r: &usize)
        ensures
            *r == self.key(),
    {
        &self.key
    }

    /// Consumes the reference and returns the underlying raw storage key for the node.
    pub fn into_raw_key(self) -> (r: usize)
        ensures
            r == self.key(),
    {
        self.key
    }

    /// Downgrades a mutable reference to an immutable one.
    pub fn downgrade(self) -> (r: NodeRef<'a, B, L>)
        ensures
            *r.tree() == self.tree(),
            r.key() == self.key(),
            *final(self.tree_borrow()) == self.tree(),
    {
        let tree: &'a FreeformTree<B, L> = self.tree;
        NodeRef::new_raw_unchecked(tree, self.key)
    }

    /// A shared reference to the same node.
    fn as_node_ref(&self) -> (r: NodeRef<'_, B, L>)
        ensures
            *r.tree() == self.tree(),
            r.key() == self.key(),
    {
        NodeRef::new_raw_unchecked(&*self.tree, self.key)
    }

    /// A mutable reference to the node `key` of the same tree, borrowing this one.
    fn reborrow_at(&mut self, key: usize) -> (r: NodeRefMut<'_, B, L>)
        ensures
            *final(final(self).tree_borrow()) == *final(old(self).tree_borrow()),
            r.tree() == old(self).tree(),
            r.key() == key,
            final(self).key() == old(self).key(),
            final(self).tree() == *final(r.tree_borrow()),
    {
        NodeRefMut { tree: &mut *self.tree, key }
    }

    /// Returns a reference to the parent node of the pointee, or `None` if it's the root node.
    pub fn parent(&self) -> (r: Option<NodeRef<'_, B, L>>)
        requires
            self.valid(),
        ensures
            match (self.node().parent, r) {
                (Some(p), Some(n)) => *n.tree() == self.tree() && n.key() == p && n.valid(),
                (None, None) => true,
                _ => false,
            },
    {
        self.as_node_ref().parent()
    }

    /// Returns a *mutable* reference to the parent node of the pointee, or `None` if it's the
    /// root node.
    pub fn parent_mut(&mut self) -> (r: Option<NodeRefMut<'_, B, L>>)
        requires
            old(self).valid(),
        ensures
            *final(final(self).tree_borrow()) == *final(old(self).tree_borrow()),
            match r {
                Some(n) => {
                    &&& old(self).node().parent == Some(n.key())
                    &&& n.tree() == old(self).tree()
                    &&& n.valid()
                    &&& final(self).key() == old(self).key()
                    &&& final(self).tree() == *final(n.tree_borrow())
                },
                None => old(self).node().parent is None && *final(self) == *old(self),
            },
    {
        proof {
            self.tree.lemma_children(self.key);
        }
        match self.tree.node_at(self.key).parent {
            Some(p) => Some(self.reborrow_at(p)),
            None => None,
        }
    }

    /// Returns a reference to the sibling of the pointee which comes before it in order, or
    /// `None` if it's the first child of its parent.
    pub fn prev_sibling(&self) -> (r: Option<NodeRef<'_, B, L>>)
        requires
            self.valid(),
        ensures
            match (self.node().prev_sibling, r) {
                (Some(p), Some(n)) => *n.tree() == self.tree() && n.key() == p && n.valid(),
                (None, None) => true,
                _ => false,
            },
    {
        self.as_node_ref().prev_sibling()
    }

    /// Returns a *mutable* reference to the sibling of the pointee which comes before it in
    /// order, or `None` if it's the first child of its parent.
    pub fn prev_sibling_mut(&mut self) -> (r: Option<NodeRefMut<'_, B, L>>)
        requires
            old(self).valid(),
        ensures
            *final(final(self).tree_borrow()) == *final(old(self).tree_borrow()),
            match r {
                Some(n) => {
                    &&& old(self).node().prev_sibling == Some(n.key())
                    &&& n.tree() == old(self).tree()
                    &&& n.valid()
                    &&& final(self).key() == old(self).key()
                    &&& final(self).tree() == *final(n.tree_borrow())
                },
                None => old(self).node().prev_sibling is None && *final(self) == *old(self),
            },
    {
        proof {
            self.tree.lemma_siblings(self.key);
        }
        match self.tree.node_at(self.key).prev_sibling {
            Some(s) => Some(self.reborrow_at(s)),
            None => None,
        }
    }

    /// Returns a reference to the sibling of the pointee which comes after it in order, or `None`
    /// if it's the last child of its parent.
    pub fn next_sibling(&self) -> (r: Option<NodeRef<'_, B, L>>)
        requires
            self.valid(),
        ensures
            match (self.node().next_sibling, r) {
                (Some(p), Some(n)) => *n.tree() == self.tree() && n.key() == p && n.valid(),
                (None, None) => true,
                _ => false,
            },
    {
        self.as_node_ref().next_sibling()
    }

    /// Returns a *mutable* reference to the sibling of the pointee which comes after it in order,
    /// or `None` if it's the last child of its parent.
    ///
    /// This is the way to iterate through the siblings of a node with mutable access.
    pub fn next_sibling_mut(&mut self) -> (r: Option<NodeRefMut<'_, B, L>>)
        requires
            old(self).valid(),
        ensures
            *final(final(self).tree_borrow()) == *final(old(self).tree_borrow()),
            match r {
                Some(n) => {
                    &&& old(self).node().next_sibling == Some(n.key())
                    &&& n.tree() == old(self).tree()
                    &&& n.valid()
                    &&& final(self).key() == old(self).key()
                    &&& final(self).tree() == *final(n.tree_borrow())
                },
                None => old(self).node().next_sibling is None && *final(self) == *old(self),
            },
    {
        proof {
            self.tree.lemma_siblings(self.key);
        }
        match self.tree.node_at(self.key).next_sibling {
            Some(s) => Some(self.reborrow_at(s)),
            None => None,
        }
    }

    /// Returns a reference to the first child of the node, or `None` if it's a leaf node.
    pub fn first_child(&self) -> (r: Option<NodeRef<'_, B, L>>)
        requires
            self.valid(),
        ensures
            match (self.node().value, r) {
                (NodeData::Branch { first_child, .. }, Some(n)) => *n.tree() == self.tree() && n.key() == first_child
                    && n.valid(),
                (NodeData::Leaf(_), None) => true,
                _ => false,
            },
    {
        self.as_node_ref().first_child()
    }

    /// Returns a *mutable* reference to the first child of the node, or `None` if it's a leaf
    /// node.
    pub fn first_child_mut(&mut self) -> (r: Option<NodeRefMut<'_, B, L>>)
        requires
            old(self).valid(),
        ensures
            *final(final(self).tree_borrow()) == *final(old(self).tree_borrow()),
            match r {
                Some(n) => {
                    &&& old(self).node().value matches NodeData::Branch { first_child, .. } && first_child == n.key()
                    &&& n.tree() == old(self).tree()
                    &&& n.valid()
                    &&& final(self).key() == old(self).key()
                    &&& final(self).tree() == *final(n.tree_borrow())
                },
                None => old(self).node().value is Leaf && *final(self) == *old(self),
            },
    {
        proof {
            self.tree.lemma_children(self.key);
        }
        match &self.tree.node_at(self.key).value {
            NodeData::Branch { first_child, .. } => {
                let c = *first_child;
                Some(self.reborrow_at(c))
            },
            NodeData::Leaf(_) => None,
        }
    }

    /// Returns a reference to the last child of the node, or `None` if it's a leaf node.
    pub fn last_child(&self) -> (r: Option<NodeRef<'_, B, L>>)
        requires
            self.valid(),
        ensures
            match (self.node().value, r) {
                (NodeData::Branch { last_child, .. }, Some(n)) => *n.tree() == self.tree() && n.key() == last_child
                    && n.valid(),
                (NodeData::Leaf(_), None) => true,
                _ => false,
            },
    {
        self.as_node_ref().last_child()
    }

    /// Returns a *mutable* reference to the last child of the node, or `None` if it's a leaf
    /// node.
    pub fn last_child_mut(&mut self) -> (r: Option<NodeRefMut<'_, B, L>>)
        requires
            old(self).valid(),
        ensures
            *final(final(self).tree_borrow()) == *final(old(self).tree_borrow()),
            match r {
                Some(n) => {
                    &&& old(self).node().value matches NodeData::Branch { last_child, .. } && last_child == n.key()
                    &&& n.tree() == old(self).tree()
                    &&& n.valid()
                    &&& final(self).key() == old(self).key()
                    &&& final(self).tree() == *final(n.tree_borrow())
                },
                None => old(self).node().value is Leaf && *final(self) == *old(self),
            },
    {
        proof {
            self.tree.lemma_children(self.key);
        }
        match &self.tree.node_at(self.key).value {
            NodeData::Branch { last_child, .. } => {
                let c = *last_child;
                Some(self.reborrow_at(c))
            },
            NodeData::Leaf(_) => None,
        }
    }

    /// Returns `true` if the node is the root node, `false` otherwise.
    pub fn is_root(&self) -> (r: bool)
        requires
            self.valid(),
        ensures
            r == self.node().parent is None,
            r == (self.key() == 0),
    {
        self.as_node_ref().is_root()
    }

    /// Returns `true` if the node is a *leaf*, i.e. does not have child nodes; `false` otherwise.
    pub fn is_leaf(&self) -> (r: bool)
        requires
            self.valid(),
        ensures
            r == self.node().value is Leaf,
            r == (self.tree().children_lists()[self.key() as int].len() == 0),
    {
        self.as_node_ref().is_leaf()
    }

    /// Returns `true` if the node is a *branch*, i.e. has one or more child nodes; `false`
    /// otherwise.
    pub fn is_branch(&self) -> (r: bool)
        requires
            self.valid(),
        ensures
            r == self.node().value is Branch,
            r == (self.tree().children_lists()[self.key() as int].len() > 0),
    {
        self.as_node_ref().is_branch()
    }

    /// Returns a reference to the data stored in the node.
    pub fn value(&self) -> (r: NodeValue<&'_ B, &'_ L>)
        requires
            self.valid(),
        ensures
            value_refs_match(r, node_value(self.node())),
    {
        self.as_node_ref().value()
    }

    /// Returns a *mutable* reference to the data stored in the node.
    pub fn value_mut(&mut self) -> (r: NodeValue<&'_ mut B, &'_ mut L>)
        requires
            old(self).valid(),
        ensures
            *final(final(self).tree_borrow()) == *final(old(self).tree_borrow()),
            match r {
                NodeValue::Branch(b) => node_value(old(self).node()) == NodeValue::<B, L>::Branch(*b),
                NodeValue::Leaf(l) => node_value(old(self).node()) == NodeValue::<B, L>::Leaf(*l),
            },
            final(self).key() == old(self).key(),
            final(self).tree().wf(),
            final(self).tree().parents() == old(self).tree().parents(),
            final(self).tree().kids() == old(self).tree().kids(),
            final(self).tree().values() == old(self).tree().values().update(
                old(self).key() as int,
                match r {
                    NodeValue::Branch(b) => NodeValue::<B, L>::Branch(*final(b)),
                    NodeValue::Leaf(l) => NodeValue::<B, L>::Leaf(*final(l)),
                },
            ),
    {
        self.tree.value_mut_at(self.key)
    }

    /// Returns an iterator over references to the siblings of the node. Does not include siblings
    /// which come before the current node. The first element yielded is always `self`.
    pub fn siblings(self) -> (r: NodeSiblingsIter<'a, B, L>)
        requires
            self.valid(),
        ensures
            *r.keys().tree() == self.tree(),
            r.keys().current() == Some(self.key()),
            r.keys().valid(),
            *final(self.tree_borrow()) == self.tree(),
    {
        self.downgrade().siblings()
    }

    /// Returns an iterator over the raw keys of the siblings of the node. Does not include
    /// siblings which come before the current node. The first element yielded is always `self`'s
    /// key.
    pub fn sibling_keys(self) -> (r: NodeSiblingKeysIter<'a, B, L>)
        requires
            self.valid(),
        ensures
            *r.tree() == self.tree(),
            r.current() == Some(self.key()),
            r.valid(),
            *final(self.tree_borrow()) == self.tree(),
    {
        self.downgrade().sibling_keys()
    }

    /// Returns an iterator over references to the children of the node, or `None` if the node is
    /// a leaf node.
    pub fn children(&self) -> (r: Option<NodeSiblingsIter<'_, B, L>>)
        requires
            self.valid(),
        ensures
            match r {
                Some(it) => {
                    &&& self.node().value is Branch
                    &&& *it.keys().tree() == self.tree()
                    &&& it.keys().current() == Some(self.tree().children_lists()[self.key() as int][0])
                    &&& it.keys().valid()
                },
                None => self.node().value is Leaf,
            },
    {
        self.as_node_ref().children()
    }

    /// Returns an iterator over the raw keys of the children of the node, or `None` if the node is
    /// a leaf node.
    pub fn children_keys(&self) -> (r: Option<NodeSiblingKeysIter<'_, B, L>>)
        requires
            self.valid(),
        ensures
            match r {
                Some(it) => {
                    &&& self.node().value is Branch
                    &&& *it.tree() == self.tree()
                    &&& it.current() == Some(self.tree().children_lists()[self.key() as int][0])
                    &&& it.valid()
                },
                None => self.node().value is Leaf,
            },
    {
        self.as_node_ref().children_keys()
    }

    /// Converts a leaf node into a branch node with the specified leaf children, in order, using
    /// the provided closure to convert the payload. With no children, the node stays a leaf.
    ///
    /// # Errors
    /// Will fail if the node is already a branch node. In such a case, the provided values for the
    /// children are returned back to the caller.
    pub fn make_branch_with(&mut self, children: Vec<L>, f: impl FnOnce(L) -> B) -> (result: Result<
        (),
        MakeBranchError<L, Vec<L>>,
    >)
        requires
            old(self).valid(),
            old(self).node().value is Leaf && children@.len() > 0 ==> f.requires((leaf_payload(old(self).node()),)),
            old(self).tree().nodes().len() + children@.len() + 1 < usize::MAX,
        ensures
            *final(final(self).tree_borrow()) == *final(old(self).tree_borrow()),
            final(self).key() == old(self).key(),
            final(self).tree().wf(),
            branch_made_outcome(
                old(self).tree().nodes(),
                old(self).tree().children_lists(),
                old(self).key(),
                children@,
                |x: L, y: B| f.ensures((x,), y),
                result,
                final(self).tree().nodes(),
                final(self).tree().children_lists(),
            ),
    {
        self.tree.make_branch_at(self.key, children, f)
    }

    /// Adds a child node to the node's children set after all other ones, failing if it's not a
    /// branch node.
    ///
    /// # Errors
    /// Will fail only if the node was a leaf node before the operation.
    pub fn try_push_back(&mut self, child_payload: L) -> (result: Result<(), TryPushError<L>>)
        requires
            old(self).valid(),
            old(self).tree().nodes().len() + 1 < usize::MAX,
        ensures
            *final(final(self).tree_borrow()) == *final(old(self).tree_borrow()),
            final(self).key() == old(self).key(),
            final(self).tree().wf(),
            push_outcome(
                old(self).tree().nodes(),
                old(self).tree().children_lists(),
                old(self).key(),
                child_payload,
                true,
                result,
                final(self).tree().nodes(),
                final(self).tree().children_lists(),
            ),
    {
        self.tree.try_push_back_at(self.key, child_payload)
    }

    /// Adds a child node to the node's children set before all other ones, failing if it's not a
    /// branch node.
    ///
    /// # Errors
    /// Will fail only if the node was a leaf node before the operation.
    pub fn try_push_front(&mut self, child_payload: L) -> (result: Result<(), TryPushError<L>>)
        requires
            old(self).valid(),
            old(self).tree().nodes().len() + 1 < usize::MAX,
        ensures
            *final(final(self).tree_borrow()) == *final(old(self).tree_borrow()),
            final(self).key() == old(self).key(),
            final(self).tree().wf(),
            push_outcome(
                old(self).tree().nodes(),
                old(self).tree().children_lists(),
                old(self).key(),
                child_payload,
                false,
                result,
                final(self).tree().nodes(),
                final(self).tree().children_lists(),
            ),
    {
        self.tree.try_push_front_at(self.key, child_payload)
    }

    /// Attempts to remove a leaf node without using recursion. If its parent only had one child,
    /// it's replaced with a leaf node, the value for which is provided by the specified closure
    /// (the previous value is passed into the closure).
    ///
    /// # Errors
    /// Will fail in the following scenarios:
    /// - The node was a branch node, which would require recursion to remove, and this function
    ///   explicitly does not implement recursive removal.
    /// - The node was the root node, which can never be removed.
    ///
    /// # Keys
    /// The nodes after the removed ones move down to close the gap in the storage, so a key
    /// taken before the removal may name another node afterwards.
    pub fn try_remove_leaf_with(self, f: impl FnOnce(B) -> L) -> (result: Result<L, TryRemoveLeafError>)
        requires
            self.valid(),
            removal_converts_parent(self.tree().nodes(), self.tree().children_lists(), self.key()) ==> f.requires(
                (branch_payload(self.tree().nodes()[parent_key(self.tree().nodes(), self.key()) as int]),),
            ),
        ensures
            (*final(self.tree_borrow())).wf(),
            leaf_removal_outcome(
                self.tree().nodes(),
                self.tree().children_lists(),
                self.key(),
                |x: B, y: L| f.ensures((x,), y),
                result,
                (*final(self.tree_borrow())).nodes(),
                (*final(self.tree_borrow())).children_lists(),
            ),
    {
        self.tree.try_remove_leaf_at(self.key, f)
    }

    /// Attempts to remove a branch node without using recursion, returning its payload and those
    /// of its children, in order. If its parent only had one child, it's replaced with a leaf
    /// node, the value for which is provided by the specified closure (the previous value is
    /// passed into the closure).
    ///
    /// # Errors
    /// Will fail in the following scenarios:
    /// - The node was a leaf node. The `try_remove_leaf`/`try_remove_leaf_with` methods exist for
    ///   that.
    /// - The node was the root node, which can never be removed.
    /// - One or more of the node's children were a branch node, which thus would require
    ///   recursion to remove.
    ///
    /// # Keys
    /// The nodes after the removed ones move down to close the gap in the storage, so a key
    /// taken before the removal may name another node afterwards.
    pub fn try_remove_branch_with(self, f: impl FnOnce(B) -> L) -> (result: Result<
        (B, Vec<L>),
        TryRemoveBranchError,
    >)
        requires
            self.valid(),
            self.tree().children_lists()[self.key() as int].len() <= u32::MAX,
            self.node().parent is Some ==> f.requires(
                (branch_payload(self.tree().nodes()[parent_key(self.tree().nodes(), self.key()) as int]),),
            ),
        ensures
            (*final(self.tree_borrow())).wf(),
            branch_removal_outcome(
                self.tree().nodes(),
                self.tree().children_lists(),
                self.key(),
                |x: B, y: L| f.ensures((x,), y),
                result,
                (*final(self.tree_borrow())).nodes(),
                (*final(self.tree_borrow())).children_lists(),
            ),
    {
        self.tree.try_remove_branch_at(self.key, f)
    }

    /// Attempts to remove a branch node's children without using recursion, replacing it with a
    /// leaf node, the value for which is provided by the specified closure. Returns the payloads
    /// of the removed children, in order.
    ///
    /// # Errors
    /// Will fail in the following scenarios:
    /// - The node was a leaf node, which cannot have children by definition.
    /// - One or more of the node's children were a branch node, which thus would require
    ///   recursion to remove.
    ///
    /// # Keys
    /// The nodes after the removed ones move down to close the gap in the storage, so a key
    /// taken before the removal may name another node afterwards.
    pub fn try_remove_children_with(&mut self, f: impl FnOnce(B) -> L) -> (result: Result<
        Vec<L>,
        TryRemoveChildrenError,
    >)
        requires
            old(self).valid(),
            old(self).tree().children_lists()[old(self).key() as int].len() <= u32::MAX,
            old(self).node().value is Branch ==> f.requires((branch_payload(old(self).node()),)),
        ensures
            *final(final(self).tree_borrow()) == *final(old(self).tree_borrow()),
            final(self).key() == old(self).key(),
            final(self).tree().wf(),
            children_removal_outcome(
                old(self).tree().nodes(),
                old(self).tree().children_lists(),
                old(self).key(),
                |x: B, y: L| f.ensures((x,), y),
                result,
                final(self).tree().nodes(),
                final(self).tree().children_lists(),
            ),
    {
        self.tree.try_remove_children_at(self.key, f)
    }

    /// Recursively removes the specified node and all its descendants, using a closure to patch
    /// nodes which transition from having one child to having zero children.
    ///
    /// Returns the payload the node had when it was removed.
    ///
    /// # Keys
    /// The nodes after the removed ones move down to close the gap in the storage, so a key
    /// taken before the removal may name another node afterwards.
    pub fn recursively_remove_with(self, branch_to_leaf: impl Fn(B) -> L) -> (r: NodeValue<B, L>)
        requires
            self.valid(),
            self.tree().nodes().len() <= u32::MAX,
            self.key() != 0,
            forall|b: B| branch_to_leaf.requires((b,)),
        ensures
            (*final(self.tree_borrow())).wf(),
            (*final(self.tree_borrow())).nodes().len() < self.tree().nodes().len(),
            kept_or_converted(node_value(self.node()), r, true, branch_to_leaf),
            removal_result(&self.tree(), self.key(), r),
            subtree_removed(&self.tree(), &*final(self.tree_borrow()), self.key(), &branch_to_leaf),
            node_value(self.node()) is Leaf ==> leaf_removed(&self.tree(), &*final(self.tree_borrow()), self.key(), &branch_to_leaf),
            node_value(self.node()) is Branch && all_leaves(self.tree().values(), self.tree().kids()[self.key() as int])
                ==> branch_removed(&self.tree(), &*final(self.tree_borrow()), self.key(), &branch_to_leaf),
            parents_kept_below(self.tree().parents(), (*final(self.tree_borrow())).parents(), self.key() as int),
    {
        proof {
            self.tree.lemma_children(self.key);
        }
        recursively_remove_with(self.tree, self.key, branch_to_leaf)
    }
}

impl<'a, D> NodeRefMut<'a, D, D> {
    /// Converts a leaf node into a branch node with the specified leaf children, keeping its
    /// payload. Because of that, *this method is only available when the payload for leaf nodes
    /// and branch nodes is the same.*
    ///
    /// # Errors
    /// Will fail if the node is already a branch node. In such a case, the provided values for the
    /// children are returned back to the caller.
    pub fn make_branch(&mut self, children: Vec<D>) -> (result: Result<(), MakeBranchError<D, Vec<D>>>)
        requires
            old(self).valid(),
            old(self).tree().nodes().len() + children@.len() + 1 < usize::MAX,
        ensures
            *final(final(self).tree_borrow()) == *final(old(self).tree_borrow()),
            final(self).key() == old(self).key(),
            final(self).tree().wf(),
            branch_made_outcome(
                old(self).tree().nodes(),
                old(self).tree().children_lists(),
                old(self).key(),
                children@,
                |x: D, y: D| y == x,
                result,
                final(self).tree().nodes(),
                final(self).tree().children_lists(),
            ),
    {
        let keep = |x: D| -> (y: D)
            ensures
                y == x,
            { x };
        self.make_branch_with(children, keep)
    }

    /// Attempts to remove the node without using recursion. If the parent only had one child,
    /// it's replaced with a leaf node, keeping its payload, which is why *this method is
    /// only available when the payload for leaf nodes and branch nodes is the same.*
    ///
    /// # Errors
    /// Will fail in the following scenarios:
    /// - The node was a branch node, which would require recursion to remove, and this function
    ///   explicitly does not implement recursive removal.
    /// - The node was the root node, which can never be removed.
    ///
    /// # Keys
    /// The nodes after the removed ones move down to close the gap in the storage, so a key
    /// taken before the removal may name another node afterwards.
    pub fn try_remove_leaf(self) -> (result: Result<D, TryRemoveLeafError>)
        requires
            self.valid(),
        ensures
            (*final(self.tree_borrow())).wf(),
            leaf_removal_outcome(
                self.tree().nodes(),
                self.tree().children_lists(),
                self.key(),
                |x: D, y: D| y == x,
                result,
                (*final(self.tree_borrow())).nodes(),
                (*final(self.tree_borrow())).children_lists(),
            ),
    {
        let keep = |x: D| -> (y: D)
            ensures
                y == x,
            { x };
        self.try_remove_leaf_with(keep)
    }

    /// Attempts to remove a branch node without using recursion, returning its payload and those
    /// of its children, in order. If its parent only had one child, it's replaced with a leaf
    /// node, keeping its payload, which is why *this method is only available when the
    /// payload for leaf nodes and branch nodes is the same.*
    ///
    /// # Errors
    /// Will fail in the following scenarios:
    /// - The node was a leaf node. The `try_remove_leaf`/`try_remove_leaf_with` methods exist for
    ///   that.
    /// - The node was the root node, which can never be removed.
    /// - One or more of the node's children were a branch node, which thus would require
    ///   recursion to remove.
    ///
    /// # Keys
    /// The nodes after the removed ones move down to close the gap in the storage, so a key
    /// taken before the removal may name another node afterwards.
    pub fn try_remove_branch(self) -> (result: Result<(D, Vec<D>), TryRemoveBranchError>)
        requires
            self.valid(),
            self.tree().children_lists()[self.key() as int].len() <= u32::MAX,
        ensures
            (*final(self.tree_borrow())).wf(),
            branch_removal_outcome(
                self.tree().nodes(),
                self.tree().children_lists(),
                self.key(),
                |x: D, y: D| y == x,
                result,
                (*final(self.tree_borrow())).nodes(),
                (*final(self.tree_borrow())).children_lists(),
            ),
    {
        let keep = |x: D| -> (y: D)
            ensures
                y == x,
            { x };
        self.try_remove_branch_with(keep)
    }

    /// Attempts to remove a branch node's children without using recursion, replacing it with a
    /// leaf node, keeping its payload. Because of that, *this method is only available
    /// when the payload for leaf nodes and branch nodes is the same.* Returns the payloads of the
    /// removed children, in order.
    ///
    /// # Errors
    /// Will fail in the following scenarios:
    /// - The node was a leaf node, which cannot have children by definition.
    /// - One or more of the node's children were a branch node, which thus would require
    ///   recursion to remove.
    ///
    /// # Keys
    /// The nodes after the removed ones move down to close the gap in the storage, so a key
    /// taken before the removal may name another node afterwards.
    pub fn try_remove_children(&mut self) -> (result: Result<Vec<D>, TryRemoveChildrenError>)
        requires
            old(self).valid(),
            old(self).tree().children_lists()[old(self).key() as int].len() <= u32::MAX,
        ensures
            *final(final(self).tree_borrow()) == *final(old(self).tree_borrow()),
            final(self).key() == old(self).key(),
            final(self).tree().wf(),
            children_removal_outcome(
                old(self).tree().nodes(),
                old(self).tree().children_lists(),
                old(self).key(),
                |x: D, y: D| y == x,
                result,
                final(self).tree().nodes(),
                final(self).tree().children_lists(),
            ),
    {
        let keep = |x: D| -> (y: D)
            ensures
                y == x,
            { x };
        self.try_remove_children_with(keep)
    }

    /// Recursively removes the specified node and all its descendants. Will keep the previous
    /// payload of the parent node if removing this node results in a transformation of the
    /// parent into a leaf, which is why *this method is only available when the payload for leaf
    /// nodes and branch nodes is the same.*
    ///
    /// Returns the payload the node had.
    ///
    /// # Keys
    /// The nodes after the removed ones move down to close the gap in the storage, so a key
    /// taken before the removal may name another node afterwards.
    pub fn recursively_remove(self) -> (r: NodeValue<D>)
        requires
            self.valid(),
            self.tree().nodes().len() <= u32::MAX,
            self.key() != 0,
        ensures
            (*final(self.tree_borrow())).wf(),
            (*final(self.tree_borrow())).nodes().len() < self.tree().nodes().len(),
            crate::node_value_inner(r) == crate::node_value_inner(node_value(self.node())),
            removal_result(&self.tree(), self.key(), r),
            subtree_removed(
                &self.tree(),
                &*final(self.tree_borrow()),
                self.key(),
                &crate::traversal::algorithms::keep_payload::<D>,
            ),
            parents_kept_below(self.tree().parents(), (*final(self.tree_borrow())).parents(), self.key() as int),
    {
        proof {
            self.tree.lemma_children(self.key);
        }
        crate::traversal::algorithms::recursively_remove(self.tree, self.key)
    }
}

} // verus!
