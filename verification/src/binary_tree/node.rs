use vstd::prelude::*;
use crate::NodeValue;
use crate::shape::{shape_partial, parent_ok, kid_ok, shift_key, key_shift_fits, parents_after_removal, kids_after_removal, keys_after_removal};
use crate::storage::{MoveFix, shift_one_key, shift_optional_key, move_key};

verus! {

/// A node of a binary tree.
///
/// Created by the binary tree internally and only publicly exposed so that the contracts of the
/// tree can speak of the nodes it holds.
#[derive(Copy, Clone, Debug, Hash)]
pub struct Node<B, L> {
    /// The payload of the node, and the keys of its children if it is a branch.
    pub value: NodeData<B, L>,
    /// The key of the parent node, or `None` for the root node.
    pub parent: Option<usize>,
}

/// The payload of a binary tree node and the keys of its children.
#[derive(Copy, Clone, Debug, PartialEq, Eq, Hash)]
pub enum NodeData<B, L> {
    /// A branch node, with a left child and possibly a right one.
    Branch { payload: B, left_child: usize, right_child: Option<usize> },
    /// A leaf node.
    Leaf(L),
}

impl<B, L> Node<B, L> {
    /// The keys of the children of the node, left to right.
    pub open spec fn children(self) -> Seq<usize> {
        match self.value {
            NodeData::Branch { left_child, right_child, .. } => match right_child {
                Some(r) => seq![left_child, r],
                None => seq![left_child],
            },
            NodeData::Leaf(_) => Seq::empty(),
        }
    }

    /// Creates a leaf node with the specified parent.
    pub(crate) fn leaf(value: L, parent: Option<usize>) -> (node: Self)
        ensures
            node == (Node::<B, L> { value: NodeData::Leaf(value), parent }),
    {
        Node { value: NodeData::Leaf(value), parent }
    }

    /// Creates a root node.
    pub(crate) fn root(value: L) -> (node: Self)
        ensures
            node == (Node::<B, L> { value: NodeData::Leaf(value), parent: None }),
    {
        Self::leaf(value, None)
    }
}

impl<B, L> NodeData<B, L> {
    /// The payload of the node, without the keys of its children.
    pub open spec fn value_spec(self) -> NodeValue<B, L> {
        match self {
            NodeData::Branch { payload, .. } => NodeValue::Branch(payload),
            NodeData::Leaf(x) => NodeValue::Leaf(x),
        }
    }

    /// Borrows the payload.
    pub fn as_ref(&self) -> (r: NodeData<&B, &L>)
        ensures
            match (*self, r) {
                (
                    NodeData::Branch { payload: p, left_child: l, right_child: c },
                    NodeData::Branch { payload: q, left_child: m, right_child: d },
                ) => *q == p && m == l && d == c,
                (NodeData::Leaf(x), NodeData::Leaf(y)) => *y == x,
                _ => false,
            },
    {
        match self {
            NodeData::Branch { payload, left_child, right_child } => NodeData::Branch {
                payload,
                left_child: *left_child,
                right_child: *right_child,
            },
            NodeData::Leaf(x) => NodeData::Leaf(x),
        }
    }

    /// Borrows the payload mutably; the keys of the children are copied.
    pub fn as_mut(&mut self) -> (r: NodeData<&mut B, &mut L>)
        ensures
            match r {
                NodeData::Branch { payload: q, left_child: m, right_child: d } => {
                    &&& *old(self) matches NodeData::Branch { payload: p, left_child: l, right_child: c }
                        && *q == p && m == l && d == c
                    &&& *final(self) == NodeData::<B, L>::Branch {
                        payload: *final(q),
                        left_child: m,
                        right_child: d,
                    }
                },
                NodeData::Leaf(y) => {
                    &&& *old(self) matches NodeData::Leaf(x) && *y == x
                    &&& *final(self) == NodeData::<B, L>::Leaf(*final(y))
                },
            },
    {
        match self {
            NodeData::Branch { payload, left_child, right_child } => NodeData::Branch {
                payload,
                left_child: *left_child,
                right_child: *right_child,
            },
            NodeData::Leaf(x) => NodeData::Leaf(x),
        }
    }

    /// Discards the keys of the children, keeping the payload.
    pub fn into_value(self) -> (r: NodeValue<B, L>)
        ensures
            r == self.value_spec(),
    {
        match self {
            NodeData::Branch { payload, .. } => NodeValue::Branch(payload),
            NodeData::Leaf(x) => NodeValue::Leaf(x),
        }
    }
}

pub open spec fn optional_shift_key(key: Option<usize>, shifted_from: usize, shifted_by: int) -> Option<
    usize,
> {
    match key {
        Some(k) => Some(shift_key(k, shifted_from, shifted_by)),
        None => None,
    }
}

pub open spec fn optional_shift_fits(key: Option<usize>, shifted_from: usize, shifted_by: int) -> bool {
    match key {
        Some(k) => key_shift_fits(k, shifted_from, shifted_by),
        None => true,
    }
}

pub open spec fn optional_move_key(key: Option<usize>, previous_index: usize, current_index: usize) -> Option<
    usize,
> {
    match key {
        Some(k) => Some(move_key(k, previous_index, current_index)),
        None => None,
    }
}

impl<B, L> MoveFix for Node<B, L> {
    open spec fn shifted(self, shifted_from: usize, shifted_by: int) -> Self {
        Node {
            value: match self.value {
                NodeData::Branch { payload, left_child, right_child } => NodeData::Branch {
                    payload,
                    left_child: shift_key(left_child, shifted_from, shifted_by),
                    right_child: optional_shift_key(right_child, shifted_from, shifted_by),
                },
                NodeData::Leaf(x) => NodeData::Leaf(x),
            },
            parent: optional_shift_key(self.parent, shifted_from, shifted_by),
        }
    }

    open spec fn shift_fits(self, shifted_from: usize, shifted_by: int) -> bool {
        &&& optional_shift_fits(self.parent, shifted_from, shifted_by)
        &&& match self.value {
            NodeData::Branch { left_child, right_child, .. } => key_shift_fits(
                left_child,
                shifted_from,
                shifted_by,
            ) && optional_shift_fits(right_child, shifted_from, shifted_by),
            NodeData::Leaf(_) => true,
        }
    }

    open spec fn moved(self, previous_index: usize, current_index: usize) -> Self {
        Node {
            value: match self.value {
                NodeData::Branch { payload, left_child, right_child } => NodeData::Branch {
                    payload,
                    left_child: move_key(left_child, previous_index, current_index),
                    right_child: optional_move_key(right_child, previous_index, current_index),
                },
                NodeData::Leaf(x) => NodeData::Leaf(x),
            },
            parent: optional_move_key(self.parent, previous_index, current_index),
        }
    }

    fn shift_keys(&mut self, shifted_from: usize, shifted_by: isize) {
        self.parent = shift_optional_key(self.parent, shifted_from, shifted_by);
        match &mut self.value {
            NodeData::Branch { left_child, right_child, .. } => {
                *left_child = shift_one_key(*left_child, shifted_from, shifted_by);
                *right_child = shift_optional_key(*right_child, shifted_from, shifted_by);
            },
            NodeData::Leaf(_) => {},
        }
    }

    fn move_keys(&mut self, previous_index: usize, current_index: usize) {
        self.parent = match self.parent {
            Some(p) => Some(if p == previous_index { current_index } else { p }),
            None => None,
        };
        match &mut self.value {
            NodeData::Branch { left_child, right_child, .. } => {
                if *left_child == previous_index {
                    *left_child = current_index;
                }
                *right_child = match *right_child {
                    Some(r) => Some(if r == previous_index { current_index } else { r }),
                    None => None,
                };
            },
            NodeData::Leaf(_) => {},
        }
    }
}

/// The parent of every node in the storage.
pub open spec fn parents_of<B, L>(nodes: Seq<Node<B, L>>) -> Seq<Option<usize>> {
    nodes.map_values(|n: Node<B, L>| n.parent)
}

/// The children of every node in the storage.
pub open spec fn kids_of<B, L>(nodes: Seq<Node<B, L>>) -> Seq<Seq<usize>> {
    nodes.map_values(|n: Node<B, L>| n.children())
}

/// The storage after the node at `removed` has been removed and the keys of the others fixed.
pub open spec fn removed_and_fixed<B, L>(nodes: Seq<Node<B, L>>, removed: usize) -> Seq<Node<B, L>> {
    nodes.remove(removed as int).map_values(|n: Node<B, L>| n.shifted(removed, -1))
}

/// Updating a node before removing another one is the same as updating it afterwards.
pub proof fn lemma_removed_and_fixed_update<B, L>(
    nodes: Seq<Node<B, L>>,
    removed: usize,
    i: int,
    node: Node<B, L>,
)
    requires
        removed < nodes.len(),
        0 <= i < nodes.len(),
    ensures
        i == removed ==> removed_and_fixed(nodes.update(i, node), removed) == removed_and_fixed(
            nodes,
            removed,
        ),
        i < removed ==> removed_and_fixed(nodes.update(i, node), removed) == removed_and_fixed(
            nodes,
            removed,
        ).update(i, node.shifted(removed, -1)),
        i > removed ==> removed_and_fixed(nodes.update(i, node), removed) == removed_and_fixed(
            nodes,
            removed,
        ).update(i - 1, node.shifted(removed, -1)),
{
    if i == removed {
        assert(removed_and_fixed(nodes.update(i, node), removed) =~= removed_and_fixed(
            nodes,
            removed,
        ));
    } else if i < removed {
        assert(removed_and_fixed(nodes.update(i, node), removed) =~= removed_and_fixed(
            nodes,
            removed,
        ).update(i, node.shifted(removed, -1)));
    } else {
        assert(removed_and_fixed(nodes.update(i, node), removed) =~= removed_and_fixed(
            nodes,
            removed,
        ).update(i - 1, node.shifted(removed, -1)));
    }
}

/// The children of a node exist, come after it and name it as their parent; its parent, if any,
/// comes before it and lists it among its children.
pub proof fn lemma_binary_links<B, L>(nodes: Seq<Node<B, L>>, key: usize)
    requires
        binary_wf(nodes),
        key < nodes.len(),
    ensures
        forall|j: int|
            0 <= j < nodes[key as int].children().len() ==> {
                let c = #[trigger] nodes[key as int].children()[j];
                &&& c < nodes.len()
                &&& key < c
                &&& nodes[c as int].parent == Some(key)
            },
        nodes[key as int].value matches NodeData::Branch { left_child, right_child: Some(r), .. }
            ==> left_child < r,
        key == 0 <==> nodes[key as int].parent is None,
        nodes[key as int].parent matches Some(p) ==> p < key && nodes[p as int].children().contains(
            key,
        ),
{
    let ps = parents_of(nodes);
    let ks = kids_of(nodes);
    assert(ks[key as int] == nodes[key as int].children());
    assert forall|j: int| 0 <= j < nodes[key as int].children().len() implies {
        let c = #[trigger] nodes[key as int].children()[j];
        &&& c < nodes.len()
        &&& key < c
        &&& nodes[c as int].parent == Some(key)
    } by {
        assert(kid_ok(ps, ks, Set::empty(), key as int, j));
        let c = ks[key as int][j];
        assert(ps[c as int] == nodes[c as int].parent);
        if c == 0 {
            assert(ps[0] is None);
        } else {
            assert(parent_ok(ps, ks, Set::empty(), c as int));
        }
    }
    if key != 0 {
        assert(parent_ok(ps, ks, Set::empty(), key as int));
        assert(ps[key as int] == nodes[key as int].parent);
    } else {
        assert(ps[0] == nodes[0].parent);
    }
    assert(nodes[key as int] == nodes[key as int]);
}

/// A right child, when present, comes after the left one (for the nodes which are not pending).
pub open spec fn binary_order<B, L>(nodes: Seq<Node<B, L>>, pending: Set<int>) -> bool {
    forall|i: int|
        #![trigger nodes[i]]
        0 <= i < nodes.len() && !pending.contains(i) ==> match nodes[i].value {
            NodeData::Branch { left_child, right_child: Some(r), .. } => left_child < r,
            _ => true,
        }
}

/// The storage holds a binary tree rooted at key 0 once the pending nodes are taken out.
pub open spec fn binary_partial<B, L>(nodes: Seq<Node<B, L>>, pending: Set<int>) -> bool {
    &&& shape_partial(parents_of(nodes), kids_of(nodes), pending)
    &&& binary_order(nodes, pending)
}

/// The storage holds a binary tree rooted at key 0: the shape is a tree and a right child, when
/// present, comes after the left one.
pub open spec fn binary_wf<B, L>(nodes: Seq<Node<B, L>>) -> bool {
    binary_partial(nodes, Set::empty())
}

/// Removing a node renumbers the parents and the children the same way the shape does.
pub proof fn lemma_removed_and_fixed_shape<B, L>(nodes: Seq<Node<B, L>>, removed: usize)
    requires
        removed < nodes.len(),
    ensures
        parents_of(removed_and_fixed(nodes, removed)) == parents_after_removal(
            parents_of(nodes),
            removed,
        ),
        kids_of(removed_and_fixed(nodes, removed)) == kids_after_removal(kids_of(nodes), removed),
{
    let m = removed_and_fixed(nodes, removed);
    assert(parents_of(m) =~= parents_after_removal(parents_of(nodes), removed));
    assert forall|i: int| 0 <= i < m.len() implies #[trigger] kids_of(m)[i] == kids_after_removal(
        kids_of(nodes),
        removed,
    )[i] by {
        let o = if i < removed { i } else { i + 1 };
        assert(m[i] == nodes[o].shifted(removed, -1));
        assert(kids_of(m)[i] =~= keys_after_removal(nodes[o].children(), removed));
    }
    assert(kids_of(m) =~= kids_after_removal(kids_of(nodes), removed));
}

} // verus!
