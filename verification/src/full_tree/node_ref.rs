use vstd::prelude::*;
use crate::{NodeValue, MakeBranchError, TryRemoveChildrenError};
use crate::shape::{kid_ok, parent_ok};
use crate::traversal::{Traversable, TraversableMut, kept_or_converted, parents_kept_below};
use crate::traversal::algorithms::{recursively_remove_with, removal_result};
use crate::traversal::algorithms::survivors::below_removed;
use super::base::{
    FullTree, PackedChildren, leaf_payload, branch_payload, make_branch_outcome,
    children_removal_outcome, branch_made,
};
use super::node::{Node, NodeData, parents_of, kids_of, values_of, consecutive};

verus! {

/// The payload of a node, whatever kind of node it is.
pub open spec fn node_value<B, L, const N: usize>(node: Node<B, L, N>) -> NodeValue<B, L> {
    node.value.value_spec()
}

/// A by-reference payload holds the same payload as a by-value one.
pub open spec fn value_refs_match<B, L>(r: NodeValue<&B, &L>, v: NodeValue<B, L>) -> bool {
    match (r, v) {
        (NodeValue::Branch(x), NodeValue::Branch(y)) => *x == y,
        (NodeValue::Leaf(x), NodeValue::Leaf(y)) => *x == y,
        _ => false,
    }
}

impl<B, L, const N: usize> FullTree<B, L, N> {
    /// The children of a node of a well-formed tree exist, come after it, name it as their parent
    /// and are consecutive; its parent, if any, comes before it and lists it among its children.
    pub proof fn lemma_links(&self, key: usize)
        requires
            self.wf(),
            key < self.nodes().len(),
        ensures
            ({
                let nodes = self.nodes();
                &&& forall|j: int|
                    0 <= j < nodes[key as int].children().len() ==> {
                        let c = #[trigger] nodes[key as int].children()[j];
                        &&& c < nodes.len()
                        &&& key < c
                        &&& nodes[c as int].parent == Some(key)
                        &&& c == nodes[key as int].children()[0] + j
                    }
                &&& nodes[key as int].value is Branch ==> nodes[key as int].children().len() == N
                &&& (key == 0 <==> nodes[key as int].parent is None)
                &&& nodes[key as int].parent matches Some(p) ==> p < key && nodes[p as int].children().contains(key)
                    && nodes[p as int].value is Branch
            }),
    {
        self.lemma_wf();
        let nodes = self.nodes();
        let ps = parents_of(nodes);
        let ks = kids_of(nodes);
        assert(ks[key as int] == nodes[key as int].children());
        assert(consecutive(ks[key as int]));
        assert forall|j: int| 0 <= j < nodes[key as int].children().len() implies {
            let c = #[trigger] nodes[key as int].children()[j];
            &&& c < nodes.len()
            &&& key < c
            &&& nodes[c as int].parent == Some(key)
            &&& c == nodes[key as int].children()[0] + j
        } by {
            assert(kid_ok(ps, ks, Set::empty(), key as int, j));
            let c = ks[key as int][j];
            assert(ps[c as int] == nodes[c as int].parent);
            if c == 0 {
                assert(ps[0] is None);
            } else {
                assert(parent_ok(ps, ks, Set::empty(), c as int));
            }
        }
        if key != 0 {
            assert(parent_ok(ps, ks, Set::empty(), key as int));
            assert(ps[key as int] == nodes[key as int].parent);
            let p = nodes[key as int].parent->Some_0;
            assert(ks[p as int] == nodes[p as int].children());
        } else {
            assert(ps[0] == nodes[0].parent);
        }
    }
}

/// A reference to a node in a tree whose branches have `N` children.
///
/// Since this type does not point to the node directly, but rather the tree the node is in and
/// the key of the node in the storage, it can be used to traverse the tree.
#[derive(Debug)]
pub struct NodeRef<'a, B, L, const N: usize> {
    tree: &'a FullTree<B, L, N>,
    key: usize,
}

impl<'a, B, L, const N: usize> Clone for NodeRef<'a, B, L, N> {
    fn clone(&self) -> (r: Self)
        ensures
            r == *self,
    {
        NodeRef { tree: self.tree, key: self.key }
    }
}

impl<'a, B, L, const N: usize> Copy for NodeRef<'a, B, L, N> {
}

impl<'a, B, L, const N: usize> NodeRef<'a, B, L, N> {
    /// The tree the node is in.
    pub closed spec fn tree(self) -> &'a FullTree<B, L, N> {
        self.tree
    }

    /// The key of the node in the storage.
    pub closed spec fn key(self) -> usize {
        self.key
    }

    /// The reference points to a node of a well-formed tree.
    pub open spec fn valid(self) -> bool {
        self.tree().wf() && self.key() < self.tree().nodes().len()
    }

    /// The node the reference points to.
    pub open spec fn node(self) -> Node<B, L, N> {
        self.tree().nodes()[self.key() as int]
    }

    /// Creates a new `NodeRef` pointing to the specified key in the storage, or `None` if there
    /// is no node there.
    pub fn new_raw(tree: &'a FullTree<B, L, N>, key: usize) -> (r: Option<Self>)
        ensures
            r is Some <==> key < tree.nodes().len(),
            r matches Some(n) ==> n.tree() == tree && n.key() == key,
    {
        if key < tree.len() {
            Some(NodeRef { tree, key })
        } else {
            None
        }
    }

    /// Creates a reference to an existing node; `key` must be a key of the tree.
    pub(crate) fn new_raw_unchecked(tree: &'a FullTree<B, L, N>, key: usize) -> (r: Self)
        ensures
            r.tree() == tree,
            r.key() == key,
    {
        NodeRef { tree, key }
    }

    /// Returns a reference to the raw storage key for the node.
    pub fn raw_key(&self) -> (r: &usize)
        ensures
            *r == self.key(),
    {
        &self.key
    }

    /// Consumes the reference and returns the underlying raw storage key for the node.
    pub fn into_raw_key(self) -> (r: usize)
        ensures
            r == self.key(),
    {
        self.key
    }

    /// Returns a reference to the parent node of the pointee, or `None` if it's the root node.
    pub fn parent(&self) -> (r: Option<Self>)
        requires
            self.valid(),
        ensures
            match (self.node().parent, r) {
                (Some(p), Some(n)) => n.tree() == self.tree() && n.key() == p && n.valid(),
                (None, None) => true,
                _ => false,
            },
    {
        proof {
            self.tree.lemma_links(self.key);
        }
        match self.tree.node_at(self.key).parent {
            Some(p) => Some(NodeRef { tree: self.tree, key: p }),
            None => None,
        }
    }

    /// Returns `true` if the node is the root node, `false` otherwise.
    pub fn is_root(&self) -> (r: bool)
        requires
            self.valid(),
        ensures
            r == self.node().parent is None,
            r == (self.key() == 0),
    {
        proof {
            self.tree.lemma_links(self.key);
        }
        self.tree.node_at(self.key).parent.is_none()
    }

    /// Returns `true` if the node is a *leaf*, i.e. does not have child nodes; `false` otherwise.
    pub fn is_leaf(&self) -> (r: bool)
        requires
            self.valid(),
        ensures
            r == self.node().value is Leaf,
    {
        matches!(&self.tree.node_at(self.key).value, NodeData::Leaf(_))
    }

    /// Returns `true` if the node is a *branch*, i.e. has child nodes; `false` otherwise.
    pub fn is_branch(&self) -> (r: bool)
        requires
            self.valid(),
        ensures
            r == self.node().value is Branch,
    {
        matches!(&self.tree.node_at(self.key).value, NodeData::Branch { .. })
    }

    /// Returns a reference to the data stored in the node.
    pub fn value(&self) -> (r: NodeValue<&'a B, &'a L>)
        requires
            self.valid(),
        ensures
            value_refs_match(r, node_value(self.node())),
    {
        let tree: &'a FullTree<B, L, N> = self.tree;
        match &tree.node_at(self.key).value {
            NodeData::Branch { payload, .. } => NodeValue::Branch(payload),
            NodeData::Leaf(x) => NodeValue::Leaf(x),
        }
    }

    /// Returns the position of the node among the children of its parent, or `None` if it's the
    /// root node.
    pub fn child_index(&self) -> (r: Option<u8>)
        requires
            self.valid(),
            N <= 256,
        ensures
            match self.node().parent {
                Some(p) => r matches Some(i) && i < N && self.tree().nodes()[p as int].children()[i as int]
                    == self.key(),
                None => r is None,
            },
    {
        proof {
            self.tree.lemma_links(self.key);
        }
        match self.tree.node_at(self.key).parent {
            Some(p) => {
                proof {
                    self.tree.lemma_links(p);
                }
                match &self.tree.node_at(p).value {
                    NodeData::Branch { children, .. } => {
                        proof {
                            let ks = self.node().parent;
                            let cs = self.tree.nodes()[p as int].children();
                            let j = choose|j: int| 0 <= j < cs.len() && cs[j] == self.key;
                            assert(cs[j] == cs[0] + j);
                        }
                        Some((self.key - children[0]) as u8)
                    },
                    NodeData::Leaf(_) => vstd::pervasive::unreached(),
                }
            },
            None => None,
        }
    }

    /// Returns references to the children, or `None` if the node is a leaf node.
    pub fn children(&self) -> (r: Option<[Self; N]>)
        requires
            self.valid(),
        ensures
            match r {
                Some(a) => {
                    &&& self.node().value is Branch
                    &&& forall|i: int| 0 <= i < N ==> (#[trigger] a@[i]).tree() == self.tree() && a@[i].key()
                        == self.node().children()[i] && a@[i].valid()
                },
                None => self.node().value is Leaf,
            },
    {
        proof {
            self.tree.lemma_links(self.key);
        }
        match &self.tree.node_at(self.key).value {
            NodeData::Branch { children, .. } => {
                let mut refs = [*self; N];
                let mut i: usize = 0;
                while i < N
                    invariant
                        i <= N,
                        self.valid(),
                        self.node().value matches NodeData::Branch { children: c, .. } && c == *children,
                        forall|j: int| 0 <= j < N ==> #[trigger] children@[j] < self.tree().nodes().len(),
                        forall|j: int| 0 <= j < i ==> (#[trigger] refs@[j]).tree() == self.tree() && refs@[j].key()
                            == children@[j],
                    decreases N - i,
                {
                    refs[i] = NodeRef { tree: self.tree, key: children[i] };
                    i = i + 1;
                }
                Some(refs)
            },
            NodeData::Leaf(_) => None,
        }
    }

    /// Returns a reference to the `n`th child, or `None` if the node has no children.
    pub fn nth_child(&self, n: u8) -> (r: Option<Self>)
        requires
            self.valid(),
            n < N,
        ensures
            match r {
                Some(c) => {
                    &&& self.node().value is Branch
                    &&& c.tree() == self.tree()
                    &&& c.key() == self.node().children()[n as int]
                    &&& c.valid()
                },
                None => self.node().value is Leaf,
            },
    {
        proof {
            self.tree.lemma_links(self.key);
        }
        match &self.tree.node_at(self.key).value {
            NodeData::Branch { children, .. } => Some(NodeRef { tree: self.tree, key: children[n as usize] }),
            NodeData::Leaf(_) => None,
        }
    }
}

/// A *mutable* reference to a node in a tree whose branches have `N` children.
///
/// Since this type does not point to the node directly, but rather the tree the node is in and
/// the key of the node in the storage, it can be used to traverse the tree and modify it as a
/// whole.
#[derive(Debug)]
pub struct NodeRefMut<'a, B, L, const N: usize> {
    tree: &'a mut FullTree<B, L, N>,
    key: usize,
}

impl<'a, B, L, const N: usize> NodeRefMut<'a, B, L, N> {
    /// The tree the node is in, as it currently is.
    pub closed spec fn tree(self) -> FullTree<B, L, N> {
        *self.tree
    }

    /// The mutable borrow of the tree the node is in.
    pub closed spec fn tree_borrow(self) -> &'a mut FullTree<B, L, N> {
        self.tree
    }

    /// The key of the node in the storage.
    pub closed spec fn key(self) -> usize {
        self.key
    }

    /// The reference points to a node of a well-formed tree.
    pub open spec fn valid(self) -> bool {
        self.tree().wf() && self.key() < self.tree().nodes().len()
    }

    /// The node the reference points to.
    pub open spec fn node(self) -> Node<B, L, N> {
        self.tree().nodes()[self.key() as int]
    }

    /// Once the reference is done with, the tree it borrowed is the tree it last held.
    pub broadcast proof fn lemma_resolved(self)
        ensures
            #[trigger] has_resolved(self) ==> *final(self.tree_borrow()) == self.tree(),
    {
    }

    /// Creates a new `NodeRefMut` pointing to the specified key in the storage, or `None` if
    /// there is no node there.
    pub fn new_raw(tree: &'a mut FullTree<B, L, N>, key: usize) -> (r: Option<Self>)
        ensures
            r is Some <==> key < old(tree).nodes().len(),
            r matches Some(n) ==> n.tree() == *old(tree) && n.key() == key && *final(n.tree_borrow())
                == *final(tree),
            r is None ==> *final(tree) == *old(tree),
    {
        if key < tree.len() {
            Some(NodeRefMut { tree, key })
        } else {
            None
        }
    }

    /// Creates a mutable reference to an existing node; `key` must be a key of the tree.
    pub(crate) fn new_raw_unchecked(tree: &'a mut FullTree<B, L, N>, key: usize) -> (r: Self)
        ensures
            r.tree() == *old(tree),
            r.key() == key,
            *final(r.tree_borrow()) == *final(tree),
    {
        NodeRefMut { tree, key }
    }

    /// Returns a reference to the raw storage key for the node.
    pub fn raw_key(&self) -> (r: &usize)
        ensures
            *r == self.key(),
    {
        &self.key
    }

    /// Consumes the reference and returns the underlying raw storage key for the node.
    pub fn into_raw_key(self) -> (r: usize)
        ensures
            r == self.key(),
    {
        self.key
    }

    /// A shared reference to the same node.
    fn as_node_ref(&self) -> (r: NodeRef<'_, B, L, N>)
        ensures
            *r.tree() == self.tree(),
            r.key() == self.key(),
    {
        NodeRef::new_raw_unchecked(&*self.tree, self.key)
    }

    /// Returns a reference to the parent node of the pointee, or `None` if it's the root node.
    pub fn parent(&self) -> (r: Option<NodeRef<'_, B, L, N>>)
        requires
            self.valid(),
        ensures
            match (self.node().parent, r) {
                (Some(p), Some(n)) => *n.tree() == self.tree() && n.key() == p && n.valid(),
                (None, None) => true,
                _ => false,
            },
    {
        self.as_node_ref().parent()
    }

    /// Returns a *mutable* reference to the parent node of the pointee, or `None` if it's the
    /// root node.
    pub fn parent_mut(&mut self) -> (r: Option<NodeRefMut<'_, B, L, N>>)
        requires
            old(self).valid(),
        ensures
            *final(final(self).tree_borrow()) == *final(old(self).tree_borrow()),
            match r {
                Some(n) => {
                    &&& old(self).node().parent == Some(n.key())
                    &&& n.tree() == old(self).tree()
                    &&& n.valid()
                    &&& final(self).key() == old(self).key()
                    &&& final(self).tree() == *final(n.tree_borrow())
                },
                None => old(self).node().parent is None && *final(self) == *old(self),
            },
    {
        proof {
            self.tree.lemma_links(self.key);
        }
        match self.tree.node_at(self.key).parent {
            Some(p) => Some(NodeRefMut { tree: &mut *self.tree, key: p }),
            None => None,
        }
    }

    /// Returns `true` if the node is the root node, `false` otherwise.
    pub fn is_root(&self) -> (r: bool)
        requires
            self.valid(),
        ensures
            r == self.node().parent is None,
            r == (self.key() == 0),
    {
        self.as_node_ref().is_root()
    }

    /// Returns `true` if the node is a *leaf*, i.e. does not have child nodes; `false` otherwise.
    pub fn is_leaf(&self) -> (r: bool)
        requires
            self.valid(),
        ensures
            r == self.node().value is Leaf,
    {
        self.as_node_ref().is_leaf()
    }

    /// Returns `true` if the node is a *branch*, i.e. has child nodes; `false` otherwise.
    pub fn is_branch(&self) -> (r: bool)
        requires
            self.valid(),
        ensures
            r == self.node().value is Branch,
    {
        self.as_node_ref().is_branch()
    }

    /// Returns a reference to the data stored in the node.
    pub fn value(&self) -> (r: NodeValue<&'_ B, &'_ L>)
        requires
            self.valid(),
        ensures
            value_refs_match(r, node_value(self.node())),
    {
        self.as_node_ref().value()
    }

    /// Returns the position of the node among the children of its parent, or `None` if it's the
    /// root node.
    pub fn child_index(&self) -> (r: Option<u8>)
        requires
            self.valid(),
            N <= 256,
        ensures
            match self.node().parent {
                Some(p) => r matches Some(i) && i < N && self.tree().nodes()[p as int].children()[i as int]
                    == self.key(),
                None => r is None,
            },
    {
        self.as_node_ref().child_index()
    }

    /// Returns a *mutable* reference to the data stored in the node.
    pub fn value_mut(&mut self) -> (r: NodeValue<&'_ mut B, &'_ mut L>)
        requires
            old(self).valid(),
        ensures
            *final(final(self).tree_borrow()) == *final(old(self).tree_borrow()),
            match r {
                NodeValue::Branch(b) => node_value(old(self).node()) == NodeValue::<B, L>::Branch(*b),
                NodeValue::Leaf(l) => node_value(old(self).node()) == NodeValue::<B, L>::Leaf(*l),
            },
            final(self).key() == old(self).key(),
            final(self).tree().wf(),
            parents_of(final(self).tree().nodes()) == parents_of(old(self).tree().nodes()),
            kids_of(final(self).tree().nodes()) == kids_of(old(self).tree().nodes()),
            values_of(final(self).tree().nodes()) == values_of(old(self).tree().nodes()).update(
                old(self).key() as int,
                match r {
                    NodeValue::Branch(b) => NodeValue::<B, L>::Branch(*final(b)),
                    NodeValue::Leaf(l) => NodeValue::<B, L>::Leaf(*final(l)),
                },
            ),
    {
        self.tree.value_mut_at(self.key)
    }

    /// Returns references to the children, or `None` if the node is a leaf node.
    pub fn children(&self) -> (r: Option<[NodeRef<'_, B, L, N>; N]>)
        requires
            self.valid(),
        ensures
            match r {
                Some(a) => {
                    &&& self.node().value is Branch
                    &&& forall|i: int| 0 <= i < N ==> *(#[trigger] a@[i]).tree() == self.tree() && a@[i].key()
                        == self.node().children()[i] && a@[i].valid()
                },
                None => self.node().value is Leaf,
            },
    {
        self.as_node_ref().children()
    }

    /// Returns a reference to the `n`th child, or `None` if the node has no children.
    pub fn nth_child(&self, n: u8) -> (r: Option<NodeRef<'_, B, L, N>>)
        requires
            self.valid(),
            n < N,
        ensures
            match r {
                Some(c) => {
                    &&& self.node().value is Branch
                    &&& *c.tree() == self.tree()
                    &&& c.key() == self.node().children()[n as int]
                    &&& c.valid()
                },
                None => self.node().value is Leaf,
            },
    {
        self.as_node_ref().nth_child(n)
    }

    /// Returns a *mutable* reference to the `n`th child, or `None` if the node has no children.
    pub fn nth_child_mut(&mut self, n: u8) -> (r: Option<NodeRefMut<'_, B, L, N>>)
        requires
            old(self).valid(),
            n < N,
        ensures
            *final(final(self).tree_borrow()) == *final(old(self).tree_borrow()),
            match r {
                Some(c) => {
                    &&& old(self).node().value is Branch
                    &&& c.key() == old(self).node().children()[n as int]
                    &&& c.tree() == old(self).tree()
                    &&& c.valid()
                    &&& final(self).key() == old(self).key()
                    &&& final(self).tree() == *final(c.tree_borrow())
                },
                None => old(self).node().value is Leaf && *final(self) == *old(self),
            },
    {
        proof {
            self.tree.lemma_links(self.key);
        }
        let child = match &self.tree.node_at(self.key).value {
            NodeData::Branch { children, .. } => children[n as usize],
            NodeData::Leaf(_) => return None,
        };
        proof {
            assert(self.node().children()[n as int] == child);
        }
        Some(NodeRefMut { tree: &mut *self.tree, key: child })
    }

    /// Converts a leaf node into a branch node with the specified leaf children, using the
    /// provided closure to convert the payload.
    ///
    /// # Errors
    /// Will fail if the node is already a branch node. In such a case, the provided values for the
    /// children are returned back to the caller.
    pub fn make_branch_with<F: FnOnce(L) -> B>(&mut self, children: [L; N], leaf_to_branch: F) -> (result: Result<
        (),
        MakeBranchError<L, PackedChildren<L, N>>,
    >)
        requires
            old(self).valid(),
            old(self).node().value is Leaf ==> leaf_to_branch.requires((leaf_payload(old(self).node()),)),
            old(self).tree().nodes().len() + N + 1 < usize::MAX,
        ensures
            *final(final(self).tree_borrow()) == *final(old(self).tree_borrow()),
            final(self).key() == old(self).key(),
            final(self).tree().wf(),
            make_branch_outcome(
                old(self).tree().nodes(),
                old(self).key(),
                children@,
                |x: L, y: B| leaf_to_branch.ensures((x,), y),
                result,
                final(self).tree().nodes(),
            ),
    {
        self.tree.make_branch_at(self.key, children, leaf_to_branch)
    }

    /// Attempts to remove a branch node's children without using recursion, replacing it with a
    /// leaf node, the value for which is provided by the specified closure.
    ///
    /// # Errors
    /// Will fail in the following scenarios:
    /// - The node was a leaf node, which cannot have children by definition.
    /// - One or more of the node's children were a branch node, which thus would require
    ///   recursion to remove.
    ///
    /// # Keys
    /// The nodes after the removed ones move down to close the gap in the storage, so a key
    /// taken before the removal may name another node afterwards.
    pub fn try_remove_children_with<F: FnOnce(B) -> L>(&mut self, branch_to_leaf: F) -> (result: Result<
        [L; N],
        TryRemoveChildrenError,
    >)
        requires
            old(self).valid(),
            old(self).node().value is Branch ==> branch_to_leaf.requires((branch_payload(old(self).node()),)),
        ensures
            *final(final(self).tree_borrow()) == *final(old(self).tree_borrow()),
            final(self).key() == old(self).key(),
            final(self).tree().wf(),
            children_removal_outcome(
                old(self).tree().nodes(),
                old(self).key(),
                |x: B, y: L| branch_to_leaf.ensures((x,), y),
                result,
                final(self).tree().nodes(),
            ),
    {
        self.tree.try_remove_children_at(self.key, branch_to_leaf)
    }

    /// Recursively removes the specified node and all its descendants, using a closure to patch
    /// nodes which transition from having children to having none.
    ///
    /// Since a branch has either no children or all `N` of them, the parent of the node loses all
    /// its children and becomes a leaf. Returns the payload the node had when it was removed.
    ///
    /// # Keys
    /// The nodes after the removed ones move down to close the gap in the storage, so a key
    /// taken before the removal may name another node afterwards.
    pub fn recursively_remove_with<F: Fn(B) -> L>(self, branch_to_leaf: F) -> (r: NodeValue<B, L>)
        requires
            self.valid(),
            self.key() != 0,
            forall|b: B| branch_to_leaf.requires((b,)),
        ensures
            (*final(self.tree_borrow())).wf(),
            (*final(self.tree_borrow())).nodes().len() < self.tree().nodes().len(),
            kept_or_converted(node_value(self.node()), r, true, branch_to_leaf),
            removal_result(&self.tree(), self.key(), r),
            below_removed(&self.tree(), &*final(self.tree_borrow()), self.node().parent->Some_0, &branch_to_leaf),
            ({
                let pp = self.node().parent->Some_0;
                &&& parents_kept_below(
                    parents_of(self.tree().nodes()),
                    parents_of((*final(self.tree_borrow())).nodes()),
                    pp + 1,
                )
                &&& (*final(self.tree_borrow())).nodes()[pp as int].value is Leaf
            }),
    {
        proof {
            self.tree.lemma_links(self.key);
        }
        recursively_remove_with(self.tree, self.key, branch_to_leaf)
    }
}

impl<'a, D, const N: usize> NodeRefMut<'a, D, D, N> {
    /// Converts a leaf node into a branch node with the specified leaf children, keeping its
    /// payload. Because of that, *this method is only available when the payload for leaf nodes
    /// and branch nodes is the same.*
    ///
    /// # Errors
    /// Will fail if the node is already a branch node. In such a case, the provided values for the
    /// children are returned back to the caller.
    pub fn make_branch(&mut self, children: [D; N]) -> (result: Result<(), MakeBranchError<D, PackedChildren<D, N>>>)
        requires
            old(self).valid(),
            old(self).tree().nodes().len() + N + 1 < usize::MAX,
        ensures
            *final(final(self).tree_borrow()) == *final(old(self).tree_borrow()),
            final(self).key() == old(self).key(),
            final(self).tree().wf(),
            make_branch_outcome(
                old(self).tree().nodes(),
                old(self).key(),
                children@,
                |x: D, y: D| y == x,
                result,
                final(self).tree().nodes(),
            ),
    {
        let keep = |x: D| -> (y: D)
            ensures
                y == x,
            { x };
        self.make_branch_with(children, keep)
    }

    /// Attempts to remove a branch node's children without using recursion, replacing it with a
    /// leaf node, keeping its payload. Because of that, *this method is only available
    /// when the payload for leaf nodes and branch nodes is the same.*
    ///
    /// # Errors
    /// Will fail in the following scenarios:
    /// - The node was a leaf node, which cannot have children by definition.
    /// - One or more of the node's children were a branch node, which thus would require
    ///   recursion to remove.
    ///
    /// # Keys
    /// The nodes after the removed ones move down to close the gap in the storage, so a key
    /// taken before the removal may name another node afterwards.
    pub fn try_remove_children(&mut self) -> (result: Result<[D; N], TryRemoveChildrenError>)
        requires
            old(self).valid(),
        ensures
            *final(final(self).tree_borrow()) == *final(old(self).tree_borrow()),
            final(self).key() == old(self).key(),
            final(self).tree().wf(),
            children_removal_outcome(
                old(self).tree().nodes(),
                old(self).key(),
                |x: D, y: D| y == x,
                result,
                final(self).tree().nodes(),
            ),
    {
        let keep = |x: D| -> (y: D)
            ensures
                y == x,
            { x };
        self.try_remove_children_with(keep)
    }

    /// Recursively removes the specified node and all its descendants. The parent of the node,
    /// left without children, becomes a leaf keeping its payload, which is why *this method is
    /// only available when the payload for leaf nodes and branch nodes is the same.*
    ///
    /// # Keys
    /// The nodes after the removed ones move down to close the gap in the storage, so a key
    /// taken before the removal may name another node afterwards.
    pub fn recursively_remove(self) -> (r: NodeValue<D>)
        requires
            self.valid(),
            self.key() != 0,
        ensures
            (*final(self.tree_borrow())).wf(),
            (*final(self.tree_borrow())).nodes().len() < self.tree().nodes().len(),
            crate::node_value_inner(r) == crate::node_value_inner(node_value(self.node())),
            removal_result(&self.tree(), self.key(), r),
            below_removed(
                &self.tree(),
                &*final(self.tree_borrow()),
                self.node().parent->Some_0,
                &crate::traversal::algorithms::keep_payload::<D>,
            ),
            ({
                let pp = self.node().parent->Some_0;
                &&& parents_kept_below(
                    parents_of(self.tree().nodes()),
                    parents_of((*final(self.tree_borrow())).nodes()),
                    pp + 1,
                )
                &&& (*final(self.tree_borrow())).nodes()[pp as int].value is Leaf
            }),
    {
        proof {
            self.tree.lemma_links(self.key);
        }
        crate::traversal::algorithms::recursively_remove(self.tree, self.key)
    }
}

} // verus!
