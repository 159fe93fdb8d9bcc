use vstd::prelude::*;
use crate::NodeValue;
use crate::shape::{
    shape_partial, shift_key, key_shift_fits, parents_after_removal, kids_after_removal,
    keys_after_removal, pending_after_removal, key_before_removal, key_after_removal, kid_ok,
    parent_ok, lemma_remove_pending,
};
use crate::storage::{MoveFix, shift_one_key, shift_optional_key, move_key};

verus! {

/// A node of a tree whose branches have exactly `N` children.
///
/// Created by the tree internally and only publicly exposed so that the contracts of the tree can
/// speak of the nodes it holds.
#[derive(Copy, Clone, Debug, Hash)]
pub struct Node<B, L, const N: usize> {
    /// The payload of the node, and the keys of its children if it is a branch.
    pub value: NodeData<B, L, N>,
    /// The key of the parent node, or `None` for the root node.
    pub parent: Option<usize>,
}

/// The payload of a node and the keys of its children.
#[derive(Copy, Clone, Debug, PartialEq, Eq, Hash)]
pub enum NodeData<B, L, const N: usize> {
    /// A branch node, with its `N` children.
    Branch { payload: B, children: [usize; N] },
    /// A leaf node.
    Leaf(L),
}

/// The array whose first `k` elements are the first `k` keys of `keys`, the rest being zero.
pub open spec fn array_filled<const N: usize>(keys: Seq<usize>, k: nat) -> [usize; N]
    decreases k,
{
    if k == 0 {
        vstd::array::spec_array_fill_for_copy_type::<usize, N>(0)
    } else {
        vstd::array::spec_array_update(array_filled::<N>(keys, (k - 1) as nat), k - 1, keys[k - 1])
    }
}

/// The array holding the `N` keys of `keys`.
pub open spec fn array_of<const N: usize>(keys: Seq<usize>) -> [usize; N] {
    array_filled::<N>(keys, N as nat)
}

/// The first `k` elements of a filled array are the first `k` keys.
pub proof fn lemma_array_filled<const N: usize>(keys: Seq<usize>, k: nat)
    requires
        keys.len() == N,
        k <= N,
    ensures
        array_filled::<N>(keys, k)@.len() == N,
        forall|i: int| 0 <= i < k ==> #[trigger] array_filled::<N>(keys, k)@[i] == keys[i],
    decreases k,
{
    if k > 0 {
        lemma_array_filled::<N>(keys, (k - 1) as nat);
    }
}

/// The array made of `N` keys holds exactly those keys.
pub proof fn lemma_array_of<const N: usize>(keys: Seq<usize>)
    requires
        keys.len() == N,
    ensures
        array_of::<N>(keys)@ == keys,
{
    lemma_array_filled::<N>(keys, N as nat);
    assert(array_of::<N>(keys)@ =~= keys);
}

impl<B, L, const N: usize> Node<B, L, N> {
    /// The keys of the children of the node, in order.
    pub open spec fn children(self) -> Seq<usize> {
        match self.value {
            NodeData::Branch { children, .. } => children@,
            NodeData::Leaf(_) => Seq::empty(),
        }
    }

    /// Creates a leaf node with the specified parent.
    pub(crate) fn leaf(value: L, parent: Option<usize>) -> (node: Self)
        ensures
            node == (Node::<B, L, N> { value: NodeData::Leaf(value), parent }),
    {
        Node { value: NodeData::Leaf(value), parent }
    }

    /// Creates a root node.
    pub(crate) fn root(value: L) -> (node: Self)
        ensures
            node == (Node::<B, L, N> { value: NodeData::Leaf(value), parent: None }),
    {
        Self::leaf(value, None)
    }
}

impl<B, L, const N: usize> NodeData<B, L, N> {
    /// The payload of the node, without the keys of its children.
    pub open spec fn value_spec(self) -> NodeValue<B, L> {
        match self {
            NodeData::Branch { payload, .. } => NodeValue::Branch(payload),
            NodeData::Leaf(x) => NodeValue::Leaf(x),
        }
    }

    /// Borrows the payload; the keys of the children are copied.
    pub fn as_ref(&self) -> (r: NodeData<&B, &L, N>)
        ensures
            match (*self, r) {
                (NodeData::Branch { payload: p, children: c }, NodeData::Branch { payload: q, children: d }) => *q
                    == p && d == c,
                (NodeData::Leaf(x), NodeData::Leaf(y)) => *y == x,
                _ => false,
            },
    {
        match self {
            NodeData::Branch { payload, children } => NodeData::Branch { payload, children: *children },
            NodeData::Leaf(x) => NodeData::Leaf(x),
        }
    }

    /// Borrows the payload mutably; the keys of the children are copied.
    pub fn as_mut(&mut self) -> (r: NodeData<&mut B, &mut L, N>)
        ensures
            match r {
                NodeData::Branch { payload: q, children: d } => {
                    &&& *old(self) matches NodeData::Branch { payload: p, children: c } && *q == p && d == c
                    &&& *final(self) == NodeData::<B, L, N>::Branch { payload: *final(q), children: d }
                },
                NodeData::Leaf(y) => {
                    &&& *old(self) matches NodeData::Leaf(x) && *y == x
                    &&& *final(self) == NodeData::<B, L, N>::Leaf(*final(y))
                },
            },
    {
        match self {
            NodeData::Branch { payload, children } => NodeData::Branch { payload, children: *children },
            NodeData::Leaf(x) => NodeData::Leaf(x),
        }
    }

    /// Discards the keys of the children, keeping the payload.
    pub fn into_value(self) -> (r: NodeValue<B, L>)
        ensures
            r == self.value_spec(),
    {
        match self {
            NodeData::Branch { payload, .. } => NodeValue::Branch(payload),
            NodeData::Leaf(x) => NodeValue::Leaf(x),
        }
    }
}

/// The keys of `keys` shifted according to [`shift_key`].
pub open spec fn shifted_keys(keys: Seq<usize>, shifted_from: usize, shifted_by: int) -> Seq<usize> {
    keys.map_values(|k: usize| shift_key(k, shifted_from, shifted_by))
}

/// The keys of `keys` with `previous_index` renamed to `current_index`.
pub open spec fn moved_keys(keys: Seq<usize>, previous_index: usize, current_index: usize) -> Seq<
    usize,
> {
    keys.map_values(|k: usize| move_key(k, previous_index, current_index))
}

/// Shifts every key of an array according to [`shift_key`].
fn shift_array<const N: usize>(keys: [usize; N], shifted_from: usize, shifted_by: isize) -> (r: [usize; N])
    requires
        forall|j: int| 0 <= j < N ==> key_shift_fits(#[trigger] keys@[j], shifted_from, shifted_by as int),
    ensures
        r == array_of::<N>(shifted_keys(keys@, shifted_from, shifted_by as int)),
{
    let mut r = keys;
    let mut i: usize = 0;
    while i < N
        invariant
            i <= N,
            forall|j: int| 0 <= j < N ==> key_shift_fits(#[trigger] keys@[j], shifted_from, shifted_by as int),
            forall|j: int| 0 <= j < i ==> #[trigger] r@[j] == shift_key(keys@[j], shifted_from, shifted_by as int),
            forall|j: int| i <= j < N ==> #[trigger] r@[j] == keys@[j],
        decreases N - i,
    {
        let k = r[i];
        r[i] = shift_one_key(k, shifted_from, shifted_by);
        i = i + 1;
    }
    proof {
        let target = shifted_keys(keys@, shifted_from, shifted_by as int);
        lemma_array_of::<N>(target);
        assert(r@ =~= target);
        assert(r =~= array_of::<N>(target));
    }
    r
}

/// Renames the key `previous_index` of an array to `current_index`.
fn move_array<const N: usize>(keys: [usize; N], previous_index: usize, current_index: usize) -> (r: [usize; N])
    ensures
        r == array_of::<N>(moved_keys(keys@, previous_index, current_index)),
{
    let mut r = keys;
    let mut i: usize = 0;
    while i < N
        invariant
            i <= N,
            forall|j: int| 0 <= j < i ==> #[trigger] r@[j] == move_key(keys@[j], previous_index, current_index),
            forall|j: int| i <= j < N ==> #[trigger] r@[j] == keys@[j],
        decreases N - i,
    {
        if r[i] == previous_index {
            r[i] = current_index;
        }
        i = i + 1;
    }
    proof {
        let target = moved_keys(keys@, previous_index, current_index);
        lemma_array_of::<N>(target);
        assert(r@ =~= target);
        assert(r =~= array_of::<N>(target));
    }
    r
}

pub open spec fn optional_shift_key(key: Option<usize>, shifted_from: usize, shifted_by: int) -> Option<
    usize,
> {
    match key {
        Some(k) => Some(shift_key(k, shifted_from, shifted_by)),
        None => None,
    }
}

pub open spec fn optional_shift_fits(key: Option<usize>, shifted_from: usize, shifted_by: int) -> bool {
    match key {
        Some(k) => key_shift_fits(k, shifted_from, shifted_by),
        None => true,
    }
}

pub open spec fn optional_move_key(key: Option<usize>, previous_index: usize, current_index: usize) -> Option<
    usize,
> {
    match key {
        Some(k) => Some(move_key(k, previous_index, current_index)),
        None => None,
    }
}

impl<B, L, const N: usize> MoveFix for Node<B, L, N> {
    open spec fn shifted(self, shifted_from: usize, shifted_by: int) -> Self {
        Node {
            value: match self.value {
                NodeData::Branch { payload, children } => NodeData::Branch {
                    payload,
                    children: array_of::<N>(shifted_keys(children@, shifted_from, shifted_by)),
                },
                NodeData::Leaf(x) => NodeData::Leaf(x),
            },
            parent: optional_shift_key(self.parent, shifted_from, shifted_by),
        }
    }

    open spec fn shift_fits(self, shifted_from: usize, shifted_by: int) -> bool {
        &&& optional_shift_fits(self.parent, shifted_from, shifted_by)
        &&& match self.value {
            NodeData::Branch { children, .. } => forall|j: int|
                0 <= j < N ==> key_shift_fits(#[trigger] children@[j], shifted_from, shifted_by),
            NodeData::Leaf(_) => true,
        }
    }

    open spec fn moved(self, previous_index: usize, current_index: usize) -> Self {
        Node {
            value: match self.value {
                NodeData::Branch { payload, children } => NodeData::Branch {
                    payload,
                    children: array_of::<N>(moved_keys(children@, previous_index, current_index)),
                },
                NodeData::Leaf(x) => NodeData::Leaf(x),
            },
            parent: optional_move_key(self.parent, previous_index, current_index),
        }
    }

    fn shift_keys(&mut self, shifted_from: usize, shifted_by: isize) {
        self.parent = shift_optional_key(self.parent, shifted_from, shifted_by);
        match &mut self.value {
            NodeData::Branch { children, .. } => {
                *children = shift_array(*children, shifted_from, shifted_by);
            },
            NodeData::Leaf(_) => {},
        }
    }

    fn move_keys(&mut self, previous_index: usize, current_index: usize) {
        self.parent = match self.parent {
            Some(p) => Some(if p == previous_index { current_index } else { p }),
            None => None,
        };
        match &mut self.value {
            NodeData::Branch { children, .. } => {
                *children = move_array(*children, previous_index, current_index);
            },
            NodeData::Leaf(_) => {},
        }
    }
}

/// The parent of every node in the storage.
pub open spec fn parents_of<B, L, const N: usize>(nodes: Seq<Node<B, L, N>>) -> Seq<Option<usize>> {
    nodes.map_values(|n: Node<B, L, N>| n.parent)
}

/// The children of every node in the storage.
pub open spec fn kids_of<B, L, const N: usize>(nodes: Seq<Node<B, L, N>>) -> Seq<Seq<usize>> {
    nodes.map_values(|n: Node<B, L, N>| n.children())
}

/// The payload of every node in the storage.
pub open spec fn values_of<B, L, const N: usize>(nodes: Seq<Node<B, L, N>>) -> Seq<NodeValue<B, L>> {
    nodes.map_values(|n: Node<B, L, N>| n.value.value_spec())
}

/// The storage after the node at `removed` has been removed and the keys of the others fixed.
pub open spec fn removed_and_fixed<B, L, const N: usize>(nodes: Seq<Node<B, L, N>>, removed: usize) -> Seq<
    Node<B, L, N>,
> {
    nodes.remove(removed as int).map_values(|n: Node<B, L, N>| n.shifted(removed, -1))
}

/// The children of a branch are consecutive keys.
pub open spec fn consecutive(keys: Seq<usize>) -> bool {
    forall|j: int| 0 <= j < keys.len() ==> #[trigger] keys[j] == keys[0] + j
}

/// Every node which is not pending has consecutive children, which come after all the siblings
/// of that node.
pub open spec fn full_order<B, L, const N: usize>(nodes: Seq<Node<B, L, N>>, pending: Set<int>) -> bool {
    let kids = kids_of(nodes);
    let parents = parents_of(nodes);
    &&& forall|i: int| 0 <= i < nodes.len() && !pending.contains(i) ==> consecutive(#[trigger] kids[i])
    &&& forall|x: int, j: int, i: int|
        0 < x < nodes.len() && !pending.contains(x) && 0 <= j < kids[x].len() && parents[x] is Some && 0 <= i < kids[
            parents[x]->Some_0 as int
        ].len() ==> #[trigger] kids[x][j] > #[trigger] kids[parents[x]->Some_0 as int][i]
}

/// The storage holds a tree rooted at key 0 once the pending nodes are taken out; branches have
/// `N` consecutive children, which come after the siblings of their parent.
pub open spec fn full_partial<B, L, const N: usize>(nodes: Seq<Node<B, L, N>>, pending: Set<int>) -> bool {
    &&& N > 0
    &&& shape_partial(parents_of(nodes), kids_of(nodes), pending)
    &&& full_order(nodes, pending)
}

/// The storage holds a well-formed tree.
pub open spec fn full_wf<B, L, const N: usize>(nodes: Seq<Node<B, L, N>>) -> bool {
    full_partial(nodes, Set::empty())
}


/// Removing a node renumbers the parents and the children the same way the shape does.
pub proof fn lemma_removed_and_fixed_shape<B, L, const N: usize>(nodes: Seq<Node<B, L, N>>, removed: usize)
    requires
        removed < nodes.len(),
    ensures
        parents_of(removed_and_fixed(nodes, removed)) == parents_after_removal(parents_of(nodes), removed),
        kids_of(removed_and_fixed(nodes, removed)) == kids_after_removal(kids_of(nodes), removed),
        values_of(removed_and_fixed(nodes, removed)) == values_of(nodes).remove(removed as int),
{
    let m = removed_and_fixed(nodes, removed);
    assert(parents_of(m) =~= parents_after_removal(parents_of(nodes), removed));
    assert forall|i: int| 0 <= i < m.len() implies #[trigger] kids_of(m)[i] == kids_after_removal(
        kids_of(nodes),
        removed,
    )[i] by {
        let o = if i < removed { i } else { i + 1 };
        assert(m[i] == nodes[o].shifted(removed, -1));
        if let NodeData::Branch { children, .. } = nodes[o].value {
            lemma_array_of::<N>(shifted_keys(children@, removed, -1));
        }
        assert(kids_of(m)[i] =~= keys_after_removal(nodes[o].children(), removed));
    }
    assert(kids_of(m) =~= kids_after_removal(kids_of(nodes), removed));
    assert(values_of(m) =~= values_of(nodes).remove(removed as int));
}

/// A consecutive run of keys which does not hold `removed` stays consecutive once renumbered.
proof fn lemma_consecutive_after_removal(keys: Seq<usize>, removed: usize)
    requires
        consecutive(keys),
        !keys.contains(removed),
    ensures
        consecutive(keys_after_removal(keys, removed)),
        keys.len() > 0 ==> (keys[0] < removed ==> forall|j: int| 0 <= j < keys.len() ==> #[trigger] keys[j] < removed),
{
    let m = keys_after_removal(keys, removed);
    if keys.len() > 0 {
        if keys[0] < removed {
            assert forall|j: int| 0 <= j < keys.len() implies #[trigger] keys[j] < removed by {
                if keys[j] >= removed {
                    let d = removed - keys[0];
                    assert(0 < d <= j);
                    assert(keys[d] == keys[0] + d);
                    assert(keys.contains(keys[d]));
                }
            }
        }
    }
    assert forall|j: int| 0 <= j < m.len() implies #[trigger] m[j] == m[0] + j by {
        assert(keys[j] == keys[0] + j);
        if keys[0] < removed {
            if keys[j] >= removed {
                let d = removed - keys[0];
                assert(keys[d] == keys[0] + d);
                assert(keys.contains(keys[d]));
            }
        }
    }
}

/// The children of a node which is not pending are not pending, hence never the removed node.
proof fn lemma_kids_not_removed<B, L, const N: usize>(
    nodes: Seq<Node<B, L, N>>,
    pending: Set<int>,
    removed: usize,
)
    requires
        full_partial(nodes, pending),
        pending.contains(removed as int),
    ensures
        forall|o: int|
            0 <= o < nodes.len() && !pending.contains(o) ==> !(#[trigger] kids_of(nodes)[o]).contains(removed),
{
    let parents = parents_of(nodes);
    let kids = kids_of(nodes);
    assert forall|o: int| 0 <= o < nodes.len() && !pending.contains(o) implies !(#[trigger] kids[o]).contains(removed) by {
        if kids[o].contains(removed) {
            let j = choose|j: int| 0 <= j < kids[o].len() && kids[o][j] == removed;
            assert(kid_ok(parents, kids, pending, o, j));
        }
    }
}

/// Removing a pending node keeps the children of the other nodes consecutive.
proof fn lemma_remove_pending_consecutive<B, L, const N: usize>(
    nodes: Seq<Node<B, L, N>>,
    pending: Set<int>,
    removed: usize,
)
    requires
        full_partial(nodes, pending),
        pending.contains(removed as int),
        removed < nodes.len(),
    ensures
        forall|i: int|
            0 <= i < removed_and_fixed(nodes, removed).len() && !pending_after_removal(pending, removed as int).contains(i)
                ==> consecutive(#[trigger] kids_of(removed_and_fixed(nodes, removed))[i]),
{
    let m = removed_and_fixed(nodes, removed);
    let kids = kids_of(nodes);
    let np = pending_after_removal(pending, removed as int);
    lemma_removed_and_fixed_shape(nodes, removed);
    lemma_kids_not_removed(nodes, pending, removed);
    let mk = kids_of(m);
    assert forall|i: int| 0 <= i < m.len() && !np.contains(i) implies consecutive(#[trigger] mk[i]) by {
        let o = key_before_removal(i, removed as int);
        assert(!pending.contains(o));
        assert(mk[i] == keys_after_removal(kids[o], removed));
        assert(consecutive(kids[o]));
        lemma_consecutive_after_removal(kids[o], removed);
    }
}

/// Removing a pending node keeps the children of every other node after the siblings of that
/// node.
proof fn lemma_remove_pending_siblings<B, L, const N: usize>(
    nodes: Seq<Node<B, L, N>>,
    pending: Set<int>,
    removed: usize,
)
    requires
        full_partial(nodes, pending),
        pending.contains(removed as int),
        removed < nodes.len(),
    ensures
        ({
            let m = removed_and_fixed(nodes, removed);
            let mk = kids_of(m);
            let mp = parents_of(m);
            forall|x: int, j: int, i: int|
                0 < x < m.len() && !pending_after_removal(pending, removed as int).contains(x) && 0 <= j < mk[x].len()
                    && mp[x] is Some && 0 <= i < mk[mp[x]->Some_0 as int].len() ==> #[trigger] mk[x][j]
                    > #[trigger] mk[mp[x]->Some_0 as int][i]
        }),
{
    let m = removed_and_fixed(nodes, removed);
    let parents = parents_of(nodes);
    let kids = kids_of(nodes);
    let np = pending_after_removal(pending, removed as int);
    lemma_removed_and_fixed_shape(nodes, removed);
    lemma_kids_not_removed(nodes, pending, removed);
    let mk = kids_of(m);
    let mp = parents_of(m);
    assert forall|x: int, j: int, i: int|
        0 < x < m.len() && !np.contains(x) && 0 <= j < mk[x].len() && mp[x] is Some && 0 <= i < mk[
            mp[x]->Some_0 as int
        ].len() implies #[trigger] mk[x][j] > #[trigger] mk[mp[x]->Some_0 as int][i] by {
        let ox = key_before_removal(x, removed as int);
        assert(!pending.contains(ox));
        assert(parents[ox] is Some);
        let op = parents[ox]->Some_0;
        assert(parent_ok(parents, kids, pending, ox));
        let mpx = mp[x]->Some_0;
        assert(mpx == key_after_removal(op, removed));
        assert(key_before_removal(mpx as int, removed as int) == op);
        assert(mk[mpx as int] == keys_after_removal(kids[op as int], removed));
        assert(mk[x] == keys_after_removal(kids[ox], removed));
        assert(kids[ox][j] > kids[op as int][i]);
        assert(kids[ox].contains(kids[ox][j]));
        assert(kids[op as int].contains(kids[op as int][i]));
    }
}

/// Removing a pending node keeps the tree well-formed once the remaining pending nodes are taken
/// out.
pub proof fn lemma_remove_pending_full<B, L, const N: usize>(
    nodes: Seq<Node<B, L, N>>,
    pending: Set<int>,
    removed: usize,
)
    requires
        full_partial(nodes, pending),
        pending.contains(removed as int),
        removed < nodes.len(),
    ensures
        full_partial(removed_and_fixed(nodes, removed), pending_after_removal(pending, removed as int)),
        removed_and_fixed(nodes, removed).len() == nodes.len() - 1,
{
    lemma_removed_and_fixed_shape(nodes, removed);
    lemma_remove_pending(parents_of(nodes), kids_of(nodes), pending, removed);
    lemma_remove_pending_consecutive(nodes, pending, removed);
    lemma_remove_pending_siblings(nodes, pending, removed);
}

} // verus!
