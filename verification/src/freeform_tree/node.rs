use vstd::prelude::*;
use crate::NodeValue;
use crate::shape::{
    shape_partial, shift_key, key_shift_fits, parents_after_removal, kids_after_removal,
    keys_after_removal, pending_after_removal, key_before_removal, key_after_removal, kid_ok,
    parent_ok, lemma_remove_pending,
};
use crate::storage::{MoveFix, shift_one_key, shift_optional_key, move_key};

verus! {

/// A node of a freeform tree.
///
/// Created by the freeform tree internally and only publicly exposed so that the contracts of the
/// tree can speak of the nodes it holds.
#[derive(Copy, Clone, Debug, Hash)]
pub struct Node<B, L> {
    /// The payload of the node, and the keys of its first and last children if it is a branch.
    pub value: NodeData<B, L>,
    /// The key of the parent node, or `None` for the root node.
    pub parent: Option<usize>,
    /// The key of the sibling right before this node, if any.
    pub prev_sibling: Option<usize>,
    /// The key of the sibling right after this node, if any.
    pub next_sibling: Option<usize>,
}

/// The payload of a freeform tree node and the keys of its first and last children.
#[derive(Copy, Clone, Debug, PartialEq, Eq, Hash)]
pub enum NodeData<B, L> {
    /// A branch node, with its first and last children.
    Branch { payload: B, first_child: usize, last_child: usize },
    /// A leaf node.
    Leaf(L),
}

impl<B, L> Node<B, L> {
    /// Creates a leaf node with the specified siblings and parent.
    pub(crate) fn leaf(
        payload: L,
        prev_sibling: Option<usize>,
        next_sibling: Option<usize>,
        parent: Option<usize>,
    ) -> (node: Self)
        ensures
            node == (Node::<B, L> { value: NodeData::Leaf(payload), parent, prev_sibling, next_sibling }),
    {
        Node { value: NodeData::Leaf(payload), parent, prev_sibling, next_sibling }
    }

    /// Creates a root node.
    pub(crate) fn root(value: L) -> (node: Self)
        ensures
            node == (Node::<B, L> {
                value: NodeData::Leaf(value),
                parent: None,
                prev_sibling: None,
                next_sibling: None,
            }),
    {
        Self::leaf(value, None, None, None)
    }
}

impl<B, L> NodeData<B, L> {
    /// The payload of the node, without the keys of its children.
    pub open spec fn value_spec(self) -> NodeValue<B, L> {
        match self {
            NodeData::Branch { payload, .. } => NodeValue::Branch(payload),
            NodeData::Leaf(x) => NodeValue::Leaf(x),
        }
    }

    /// Borrows the payload; the keys of the children are copied.
    pub fn as_ref(&self) -> (r: NodeData<&B, &L>)
        ensures
            match (*self, r) {
                (
                    NodeData::Branch { payload: p, first_child: f, last_child: l },
                    NodeData::Branch { payload: q, first_child: g, last_child: m },
                ) => *q == p && g == f && m == l,
                (NodeData::Leaf(x), NodeData::Leaf(y)) => *y == x,
                _ => false,
            },
    {
        match self {
            NodeData::Branch { payload, first_child, last_child } => NodeData::Branch {
                payload,
                first_child: *first_child,
                last_child: *last_child,
            },
            NodeData::Leaf(x) => NodeData::Leaf(x),
        }
    }

    /// Borrows the payload mutably; the keys of the children are copied.
    pub fn as_mut(&mut self) -> (r: NodeData<&mut B, &mut L>)
        ensures
            match r {
                NodeData::Branch { payload: q, first_child: g, last_child: m } => {
                    &&& *old(self) matches NodeData::Branch { payload: p, first_child: f, last_child: l }
                        && *q == p && g == f && m == l
                    &&& *final(self) == NodeData::<B, L>::Branch { payload: *final(q), first_child: g, last_child: m }
                },
                NodeData::Leaf(y) => {
                    &&& *old(self) matches NodeData::Leaf(x) && *y == x
                    &&& *final(self) == NodeData::<B, L>::Leaf(*final(y))
                },
            },
    {
        match self {
            NodeData::Branch { payload, first_child, last_child } => NodeData::Branch {
                payload,
                first_child: *first_child,
                last_child: *last_child,
            },
            NodeData::Leaf(x) => NodeData::Leaf(x),
        }
    }

    /// Discards the keys of the children, keeping the payload.
    pub fn into_value(self) -> (r: NodeValue<B, L>)
        ensures
            r == self.value_spec(),
    {
        match self {
            NodeData::Branch { payload, .. } => NodeValue::Branch(payload),
            NodeData::Leaf(x) => NodeValue::Leaf(x),
        }
    }
}

pub open spec fn optional_shift_key(key: Option<usize>, shifted_from: usize, shifted_by: int) -> Option<
    usize,
> {
    match key {
        Some(k) => Some(shift_key(k, shifted_from, shifted_by)),
        None => None,
    }
}

pub open spec fn optional_shift_fits(key: Option<usize>, shifted_from: usize, shifted_by: int) -> bool {
    match key {
        Some(k) => key_shift_fits(k, shifted_from, shifted_by),
        None => true,
    }
}

pub open spec fn optional_move_key(key: Option<usize>, previous_index: usize, current_index: usize) -> Option<
    usize,
> {
    match key {
        Some(k) => Some(move_key(k, previous_index, current_index)),
        None => None,
    }
}

/// Renames one key: `previous_index` becomes `current_index`, every other key stays.
fn move_one_key(key: usize, previous_index: usize, current_index: usize) -> (r: usize)
    ensures
        r == move_key(key, previous_index, current_index),
{
    if key == previous_index {
        current_index
    } else {
        key
    }
}

/// Renames an optional key: `previous_index` becomes `current_index`, every other key stays.
fn move_optional_key(key: Option<usize>, previous_index: usize, current_index: usize) -> (r: Option<
    usize,
>)
    ensures
        r == optional_move_key(key, previous_index, current_index),
{
    match key {
        Some(k) => Some(move_one_key(k, previous_index, current_index)),
        None => None,
    }
}

impl<B, L> MoveFix for Node<B, L> {
    open spec fn shifted(self, shifted_from: usize, shifted_by: int) -> Self {
        Node {
            value: match self.value {
                NodeData::Branch { payload, first_child, last_child } => NodeData::Branch {
                    payload,
                    first_child: shift_key(first_child, shifted_from, shifted_by),
                    last_child: shift_key(last_child, shifted_from, shifted_by),
                },
                NodeData::Leaf(x) => NodeData::Leaf(x),
            },
            parent: optional_shift_key(self.parent, shifted_from, shifted_by),
            prev_sibling: optional_shift_key(self.prev_sibling, shifted_from, shifted_by),
            next_sibling: optional_shift_key(self.next_sibling, shifted_from, shifted_by),
        }
    }

    open spec fn shift_fits(self, shifted_from: usize, shifted_by: int) -> bool {
        &&& optional_shift_fits(self.parent, shifted_from, shifted_by)
        &&& optional_shift_fits(self.prev_sibling, shifted_from, shifted_by)
        &&& optional_shift_fits(self.next_sibling, shifted_from, shifted_by)
        &&& match self.value {
            NodeData::Branch { first_child, last_child, .. } => key_shift_fits(
                first_child,
                shifted_from,
                shifted_by,
            ) && key_shift_fits(last_child, shifted_from, shifted_by),
            NodeData::Leaf(_) => true,
        }
    }

    open spec fn moved(self, previous_index: usize, current_index: usize) -> Self {
        Node {
            value: match self.value {
                NodeData::Branch { payload, first_child, last_child } => NodeData::Branch {
                    payload,
                    first_child: move_key(first_child, previous_index, current_index),
                    last_child: move_key(last_child, previous_index, current_index),
                },
                NodeData::Leaf(x) => NodeData::Leaf(x),
            },
            parent: optional_move_key(self.parent, previous_index, current_index),
            prev_sibling: optional_move_key(self.prev_sibling, previous_index, current_index),
            next_sibling: optional_move_key(self.next_sibling, previous_index, current_index),
        }
    }

    fn shift_keys(&mut self, shifted_from: usize, shifted_by: isize) {
        self.parent = shift_optional_key(self.parent, shifted_from, shifted_by);
        self.prev_sibling = shift_optional_key(self.prev_sibling, shifted_from, shifted_by);
        self.next_sibling = shift_optional_key(self.next_sibling, shifted_from, shifted_by);
        match &mut self.value {
            NodeData::Branch { first_child, last_child, .. } => {
                *first_child = shift_one_key(*first_child, shifted_from, shifted_by);
                *last_child = shift_one_key(*last_child, shifted_from, shifted_by);
            },
            NodeData::Leaf(_) => {},
        }
    }

    fn move_keys(&mut self, previous_index: usize, current_index: usize) {
        self.parent = move_optional_key(self.parent, previous_index, current_index);
        self.prev_sibling = move_optional_key(self.prev_sibling, previous_index, current_index);
        self.next_sibling = move_optional_key(self.next_sibling, previous_index, current_index);
        match &mut self.value {
            NodeData::Branch { first_child, last_child, .. } => {
                *first_child = move_one_key(*first_child, previous_index, current_index);
                *last_child = move_one_key(*last_child, previous_index, current_index);
            },
            NodeData::Leaf(_) => {},
        }
    }
}

/// The parent of every node in the storage.
pub open spec fn parents_of<B, L>(nodes: Seq<Node<B, L>>) -> Seq<Option<usize>> {
    nodes.map_values(|n: Node<B, L>| n.parent)
}

/// The payload of every node in the storage.
pub open spec fn values_of<B, L>(nodes: Seq<Node<B, L>>) -> Seq<NodeValue<B, L>> {
    nodes.map_values(|n: Node<B, L>| n.value.value_spec())
}

/// The storage after the node at `removed` has been removed and the keys of the others fixed.
pub open spec fn removed_and_fixed<B, L>(nodes: Seq<Node<B, L>>, removed: usize) -> Seq<Node<B, L>> {
    nodes.remove(removed as int).map_values(|n: Node<B, L>| n.shifted(removed, -1))
}

/// The sibling right before the `j`-th node of the list `ks`, if any.
pub open spec fn prev_in(ks: Seq<usize>, j: int) -> Option<usize> {
    if j == 0 {
        None
    } else {
        Some(ks[j - 1])
    }
}

/// The sibling right after the `j`-th node of the list `ks`, if any.
pub open spec fn next_in(ks: Seq<usize>, j: int) -> Option<usize> {
    if j + 1 == ks.len() {
        None
    } else {
        Some(ks[j + 1])
    }
}

/// The links of the node `i` agree with its list of children `ks`: it is a branch exactly when it
/// has children, it names the first and the last of them, and they name each other as siblings.
pub open spec fn links_ok<B, L>(nodes: Seq<Node<B, L>>, i: int, ks: Seq<usize>) -> bool {
    &&& (nodes[i].value is Branch <==> ks.len() > 0)
    &&& nodes[i].value matches NodeData::Branch { first_child, last_child, .. } ==> first_child == ks[0]
        && last_child == ks.last()
    &&& forall|j: int|
        #![trigger ks[j]]
        0 <= j < ks.len() ==> nodes[ks[j] as int].prev_sibling == prev_in(ks, j) && nodes[ks[j] as int].next_sibling
            == next_in(ks, j)
}

/// The storage and the lists of children form a tree rooted at key 0 once the pending nodes are
/// taken out, and the links of every other node agree with its list of children.
pub open spec fn freeform_partial<B, L>(nodes: Seq<Node<B, L>>, kids: Seq<Seq<usize>>, pending: Set<int>) -> bool {
    &&& shape_partial(parents_of(nodes), kids, pending)
    &&& nodes[0].prev_sibling is None
    &&& nodes[0].next_sibling is None
    &&& forall|i: int| 0 <= i < nodes.len() && !pending.contains(i) ==> links_ok(nodes, i, #[trigger] kids[i])
}

/// The storage and the lists of children form a well-formed freeform tree.
pub open spec fn freeform_wf<B, L>(nodes: Seq<Node<B, L>>, kids: Seq<Seq<usize>>) -> bool {
    freeform_partial(nodes, kids, Set::empty())
}

/// Removing a node renumbers the parents the same way the shape does.
pub proof fn lemma_removed_and_fixed_parents<B, L>(nodes: Seq<Node<B, L>>, removed: usize)
    requires
        removed < nodes.len(),
    ensures
        parents_of(removed_and_fixed(nodes, removed)) == parents_after_removal(parents_of(nodes), removed),
        values_of(removed_and_fixed(nodes, removed)) == values_of(nodes).remove(removed as int),
        removed_and_fixed(nodes, removed).len() == nodes.len() - 1,
{
    let m = removed_and_fixed(nodes, removed);
    assert(parents_of(m) =~= parents_after_removal(parents_of(nodes), removed));
    assert(values_of(m) =~= values_of(nodes).remove(removed as int));
}

/// Removing a pending node keeps the tree well-formed once the remaining pending nodes are taken
/// out.
pub proof fn lemma_remove_pending_freeform<B, L>(
    nodes: Seq<Node<B, L>>,
    kids: Seq<Seq<usize>>,
    pending: Set<int>,
    removed: usize,
)
    requires
        freeform_partial(nodes, kids, pending),
        kids.len() == nodes.len(),
        pending.contains(removed as int),
        removed < nodes.len(),
    ensures
        freeform_partial(
            removed_and_fixed(nodes, removed),
            kids_after_removal(kids, removed),
            pending_after_removal(pending, removed as int),
        ),
        kids_after_removal(kids, removed).len() == removed_and_fixed(nodes, removed).len(),
        removed_and_fixed(nodes, removed).len() == nodes.len() - 1,
{
    let parents = parents_of(nodes);
    let m = removed_and_fixed(nodes, removed);
    let mk = kids_after_removal(kids, removed);
    let np = pending_after_removal(pending, removed as int);
    lemma_removed_and_fixed_parents(nodes, removed);
    lemma_remove_pending(parents, kids, pending, removed);
    assert(removed != 0);
    assert(m[0] == nodes[0].shifted(removed, -1));
    assert forall|i: int| 0 <= i < m.len() && !np.contains(i) implies links_ok(m, i, #[trigger] mk[i]) by {
        let o = key_before_removal(i, removed as int);
        assert(!pending.contains(o));
        let ks = kids[o];
        assert(links_ok(nodes, o, ks));
        assert(mk[i] == keys_after_removal(ks, removed));
        let mks = mk[i];
        assert(m[i] == nodes[o].shifted(removed, -1));
        assert forall|j: int| #![trigger mks[j]] 0 <= j < mks.len() implies m[mks[j] as int].prev_sibling == prev_in(mks, j)
            && m[mks[j] as int].next_sibling == next_in(mks, j) by {
            assert(kid_ok(parents, kids, pending, o, j));
            let c = ks[j];
            assert(c != removed);
            assert(mks[j] == key_after_removal(c, removed));
            assert(key_before_removal(mks[j] as int, removed as int) == c);
            assert(m[mks[j] as int] == nodes[c as int].shifted(removed, -1));
            assert(nodes[c as int].prev_sibling == prev_in(ks, j));
            assert(nodes[c as int].next_sibling == next_in(ks, j));
            if j > 0 {
                assert(kid_ok(parents, kids, pending, o, j - 1));
            }
            if j + 1 < ks.len() {
                assert(kid_ok(parents, kids, pending, o, j + 1));
            }
        }
        if ks.len() > 0 {
            assert(kid_ok(parents, kids, pending, o, 0));
            assert(kid_ok(parents, kids, pending, o, ks.len() - 1));
        }
    }
}

} // verus!
