use vstd::prelude::*;
use crate::{NodeValue, TryRemoveLeafError, TryRemoveBranchError, TryRemoveChildrenError};
use crate::shape::{parent_ok, kid_ok};
use crate::traversal::{
    Traversable, TraversableMut, VisitorDirection, CursorResult, CursorDirectionError, advance_spec,
    next_sibling_spec, position_of, refs_match, parents_kept_below, parents_kept_below_all,
    values_kept_below, values_kept_below_all, kept_or_converted,
    children_after_siblings, leaf_payloads, all_leaves, is_first_branch_kid, without_kid,
    values_without, parents_without, kids_without, lemma_removal_swap, branch_removed_exactly,
    children_removed_exactly,
};
use crate::shape::{parents_after_removal, kids_after_removal, keys_after_removal};
use super::{
    BinaryTree, Node, NodeData, parents_of, kids_of, removed_and_fixed, lemma_binary_links,
    leaf_removal_outcome, branch_removal_outcome, children_removal_outcome, first_branch_child,
    leaf_payload, branch_payload, parent_key, removal_converts_parent, binary_wf, binary_order,
    leaves_removed, children_removed, branch_removed, as_leaf, parent_without_child,
    lemma_removed_and_fixed_shape,
};
use crate::storage::MoveFix;

verus! {

/// The payloads of all nodes of a binary tree storage.
pub open spec fn values_of<B, L>(nodes: Seq<Node<B, L>>) -> Seq<NodeValue<B, L>> {
    nodes.map_values(|n: Node<B, L>| n.value.value_spec())
}

/// Removing a node keeps the parents of the nodes before it, whose parents come before them.
proof fn lemma_removal_keeps_low_parents<B, L>(nodes: Seq<Node<B, L>>, removed: usize, bound: int)
    requires
        removed < nodes.len(),
        bound <= removed,
        forall|k: int| 0 <= k < bound ==> match #[trigger] nodes[k].parent {
            Some(p) => p < k,
            None => true,
        },
    ensures
        parents_kept_below(parents_of(nodes), parents_of(removed_and_fixed(nodes, removed)), bound),
        forall|k: int| 0 <= k < bound ==> match #[trigger] removed_and_fixed(nodes, removed)[k].parent {
            Some(p) => p < k,
            None => true,
        },
{
    let m = removed_and_fixed(nodes, removed);
    assert forall|k: int| 0 <= k < bound && k < parents_of(nodes).len() implies k < parents_of(m).len()
        && #[trigger] parents_of(m)[k] == parents_of(nodes)[k] by {
        assert(m[k] == nodes[k].shifted(removed, -1));
    }
    assert forall|k: int| 0 <= k < bound implies match #[trigger] m[k].parent {
        Some(p) => p < k,
        None => true,
    } by {
        assert(m[k] == nodes[k].shifted(removed, -1));
    }
}

impl<B, L> BinaryTree<B, L> {
    /// Every node of a well-formed tree comes after its parent.
    proof fn lemma_parents_before(&self)
        requires
            self.wf(),
        ensures
            forall|k: int| 0 <= k < self.nodes().len() ==> match #[trigger] self.nodes()[k].parent {
                Some(p) => p < k,
                None => true,
            },
    {
        assert forall|k: int| 0 <= k < self.nodes().len() implies match #[trigger] self.nodes()[k].parent {
            Some(p) => p < k,
            None => true,
        } by {
            lemma_binary_links(self.nodes(), k as usize);
        }
    }
}

impl<B, L> Traversable for BinaryTree<B, L> {
    type Leaf = L;
    type Branch = B;

    open spec fn parents(&self) -> Seq<Option<usize>> {
        parents_of(self.nodes())
    }

    open spec fn kids(&self) -> Seq<Seq<usize>> {
        kids_of(self.nodes())
    }

    open spec fn values(&self) -> Seq<NodeValue<B, L>> {
        values_of(self.nodes())
    }

    open spec fn traversable_wf(&self) -> bool {
        self.wf()
    }

    proof fn lemma_traversable_wf(&self) {
        assert forall|i: int| 0 <= i < self.values().len() implies (#[trigger] self.values()[i] is Branch
            <==> self.kids()[i].len() > 0) by {
            assert(self.kids()[i] == self.nodes()[i].children());
        }
    }

    fn advance_cursor<V>(&self, cursor: usize, direction: VisitorDirection<usize, V>) -> (r: CursorResult<usize>) {
        let error = CursorDirectionError { previous_state: cursor };
        match direction {
            VisitorDirection::Parent => {
                match self.storage[cursor].parent {
                    Some(p) => Ok(p),
                    None => Err(error),
                }
            },
            VisitorDirection::NextSibling => {
                let ghost nodes = self.nodes();
                match self.storage[cursor].parent {
                    Some(p) => {
                        proof {
                            lemma_binary_links(nodes, cursor);
                            lemma_binary_links(nodes, p);
                        }
                        match &self.storage[p].value {
                            NodeData::Branch { left_child, right_child, .. } => {
                                let ghost ks = nodes[p as int].children();
                                proof {
                                    assert(self.kids()[p as int] == ks);
                                    assert(ks.no_duplicates()) by {
                                        assert(self.wf());
                                    }
                                }
                                if *left_child == cursor {
                                    proof {
                                        assert(ks[0] == cursor);
                                        let i = position_of(ks, cursor);
                                        assert(ks.contains(cursor));
                                        assert(i == 0) by {
                                            if i != 0 {
                                                assert(ks[i] == ks[0]);
                                            }
                                        }
                                    }
                                    match right_child {
                                        Some(r) => Ok(*r),
                                        None => Err(error),
                                    }
                                } else {
                                    proof {
                                        let i = position_of(ks, cursor);
                                        assert(ks.contains(cursor));
                                        assert(i == 1);
                                    }
                                    Err(error)
                                }
                            },
                            NodeData::Leaf(_) => {
                                assert(false);
                                Err(error)
                            },
                        }
                    },
                    None => Err(error),
                }
            },
            VisitorDirection::Child(n) => {
                match &self.storage[cursor].value {
                    NodeData::Branch { left_child, right_child, .. } => {
                        if n == 0 {
                            Ok(*left_child)
                        } else if n == 1 {
                            match right_child {
                                Some(r) => Ok(*r),
                                None => Err(error),
                            }
                        } else {
                            Err(error)
                        }
                    },
                    NodeData::Leaf(_) => Err(error),
                }
            },
            VisitorDirection::SetTo(new_cursor) => {
                if new_cursor < self.storage.len() {
                    Ok(new_cursor)
                } else {
                    Err(error)
                }
            },
            VisitorDirection::Stop(_) => Err(error),
        }
    }

    fn cursor_to_root(&self) -> (r: usize) {
        0
    }

    fn value_of(&self, cursor: &usize) -> (r: NodeValue<&B, &L>) {
        match &self.storage[*cursor].value {
            NodeData::Branch { payload, .. } => NodeValue::Branch(payload),
            NodeData::Leaf(x) => NodeValue::Leaf(x),
        }
    }

    fn parent_of(&self, cursor: &usize) -> (r: Option<usize>) {
        self.storage[*cursor].parent
    }

    fn num_children_of(&self, cursor: &usize) -> (r: usize) {
        match &self.storage[*cursor].value {
            NodeData::Branch { right_child: Some(_), .. } => 2,
            NodeData::Branch { .. } => 1,
            NodeData::Leaf(_) => 0,
        }
    }

    fn nth_child_of(&self, cursor: &usize, child_num: usize) -> (r: Option<usize>) {
        match &self.storage[*cursor].value {
            NodeData::Branch { left_child, right_child, .. } => {
                if child_num == 0 {
                    Some(*left_child)
                } else if child_num == 1 {
                    *right_child
                } else {
                    None
                }
            },
            NodeData::Leaf(_) => None,
        }
    }
}


/// Replacing a node by one with the same parent keeps the parent of every node.
proof fn lemma_update_keeps_parents<B, L>(nodes: Seq<Node<B, L>>, i: int, node: Node<B, L>)
    requires
        0 <= i < nodes.len(),
        node.parent == nodes[i].parent,
    ensures
        parents_of(nodes.update(i, node)) == parents_of(nodes),
{
    assert(parents_of(nodes.update(i, node)) =~= parents_of(nodes));
}

/// Replacing the payload of a node, keeping its parent and children, keeps the tree well-formed
/// and its shape unchanged.
proof fn lemma_payload_update<B, L>(nodes: Seq<Node<B, L>>, i: int)
    requires
        binary_wf(nodes),
        0 <= i < nodes.len(),
    ensures
        forall|node: Node<B, L>|
            node.parent == nodes[i].parent && (#[trigger] nodes.update(i, node))[i].value.value_spec()
                is Branch == nodes[i].value.value_spec() is Branch && (node.value is Branch ==> node.value->Branch_left_child
                == nodes[i].value->Branch_left_child && node.value->Branch_right_child
                == nodes[i].value->Branch_right_child) ==> {
                &&& binary_wf(nodes.update(i, node))
                &&& parents_of(nodes.update(i, node)) == parents_of(nodes)
                &&& kids_of(nodes.update(i, node)) == kids_of(nodes)
            },
{
    assert forall|node: Node<B, L>|
        node.parent == nodes[i].parent && (#[trigger] nodes.update(i, node))[i].value.value_spec()
            is Branch == nodes[i].value.value_spec() is Branch && (node.value is Branch ==> node.value->Branch_left_child
            == nodes[i].value->Branch_left_child && node.value->Branch_right_child
            == nodes[i].value->Branch_right_child) implies {
            &&& binary_wf(nodes.update(i, node))
            &&& parents_of(nodes.update(i, node)) == parents_of(nodes)
            &&& kids_of(nodes.update(i, node)) == kids_of(nodes)
        } by {
        let s = nodes.update(i, node);
        assert(node.children() == nodes[i].children());
        assert(parents_of(s) =~= parents_of(nodes));
        assert(kids_of(s) =~= kids_of(nodes));
        assert forall|k: int| #![trigger s[k]] 0 <= k < s.len() implies match s[k].value {
            NodeData::Branch { left_child, right_child: Some(r), .. } => left_child < r,
            _ => true,
        } by {
            assert(nodes[k] == nodes[k]);
        }
    }
}

/// Removing the node `removed` keeps the parents of the nodes before `bound`, and their parents
/// come before them, starting from a tree whose every node comes after its parent.
/// Removing a branch whose children come after it takes out the branch and its children.
proof fn lemma_branch_removed_len<B, L>(nodes: Seq<Node<B, L>>, c: usize)
    requires
        c < nodes.len(),
        nodes[c as int].value is Branch,
        forall|j: int| 0 <= j < nodes[c as int].children().len() ==> c < #[trigger] nodes[c as int].children()[j] < nodes.len(),
        nodes[c as int].value matches NodeData::Branch { left_child, right_child: Some(r), .. } ==> left_child < r,
    ensures
        branch_removed(nodes, c).len() == nodes.len() - 1 - nodes[c as int].children().len(),
{
    let ks = nodes[c as int].children();
    let l = nodes[c as int].value->Branch_left_child;
    assert(ks[0] == l);
    match nodes[c as int].value->Branch_right_child {
        Some(r) => {
            assert(ks[1] == r);
            assert(removed_and_fixed(nodes, r).len() == nodes.len() - 1);
            assert(removed_and_fixed(removed_and_fixed(nodes, r), l).len() == nodes.len() - 2);
        },
        None => {
            assert(removed_and_fixed(nodes, l).len() == nodes.len() - 1);
        },
    }
}

/// Removing two leaf children `l < r` of `c` and then `c`, where the parent `p` of `c` lost `c`
/// from its list before, gives the children lists the generic branch removal gives.
#[verifier::spinoff_prover]
proof fn lemma_kids_two_core(k: Seq<Seq<usize>>, p: usize, c: usize, l: usize, r: usize)
    requires
        p < c < l < r,
        r < k.len(),
        r <= usize::MAX,
        k[p as int].no_duplicates(),
        k[p as int].contains(c),
        !k[p as int].contains(l),
        !k[p as int].contains(r),
    ensures
        ({
            let ku = k.update(p as int, k[p as int].remove(position_of(k[p as int], c)));
            kids_after_removal(kids_after_removal(kids_after_removal(ku, l), (r - 1) as usize), c)
                == kids_after_removal(without_kid(kids_without(k, c, seq![l, r]), p, c), c)
        }),
{
    let kp = k[p as int];
    let ku = k.update(p as int, kp.remove(position_of(kp, c)));
    lemma_renumbered_without(kp, c, l, r);
    reveal_with_fuel(kids_without, 3);
    assert(seq![l, r].drop_first() =~= seq![r]);
    assert(keys_after_removal(seq![r], l) =~= seq![(r - 1) as usize]);
    assert(seq![(r - 1) as usize].drop_first() =~= Seq::<usize>::empty());
    assert(keys_after_removal(Seq::<usize>::empty(), (r - 1) as usize) =~= Seq::<usize>::empty());
    let kw = kids_after_removal(kids_after_removal(k.update(c as int, seq![r]), l).update(c as int, Seq::empty()), (r - 1) as usize).update(c as int, Seq::empty());
    assert(kids_without(k, c, seq![l, r]) == kw);
    let x = without_kid(kw, p, c);
    let y = kids_after_removal(kids_after_removal(ku, l), (r - 1) as usize);
    assert(y =~= x.update(c as int, y[c as int]));
    assert(kids_after_removal(x.update(c as int, y[c as int]), c) =~= kids_after_removal(x, c));
}

/// Removing the leaf child `l` of `c` and then `c`, where the parent `p` of `c` lost `c` from its
/// list before, gives the children lists the generic branch removal gives.
#[verifier::spinoff_prover]
proof fn lemma_kids_one_core(k: Seq<Seq<usize>>, p: usize, c: usize, l: usize)
    requires
        p < c < l,
        l < k.len(),
        k[p as int].no_duplicates(),
        k[p as int].contains(c),
        !k[p as int].contains(l),
    ensures
        ({
            let ku = k.update(p as int, k[p as int].remove(position_of(k[p as int], c)));
            kids_after_removal(kids_after_removal(ku, l), c)
                == kids_after_removal(without_kid(kids_without(k, c, seq![l]), p, c), c)
        }),
{
    let kp = k[p as int];
    let j = position_of(kp, c);
    let ku = k.update(p as int, kp.remove(j));
    reveal_with_fuel(kids_without, 2);
    assert(seq![l].drop_first() =~= Seq::<usize>::empty());
    assert(keys_after_removal(Seq::<usize>::empty(), l) =~= Seq::<usize>::empty());
    let kw = kids_after_removal(k.update(c as int, Seq::empty()), l).update(c as int, Seq::empty());
    assert(kids_without(k, c, seq![l]) == kw);
    let x = without_kid(kw, p, c);
    let m = keys_after_removal(kp, l);
    assert(m[j] == c);
    let i = position_of(m, c);
    assert(0 <= i < m.len() && m[i] == c);
    if i != j {
        assert(kp[i] != l);
        assert(kp[i] == c);
        assert(false);
    }
    assert(keys_after_removal(kp.remove(j), l) =~= m.remove(i));
    let y = kids_after_removal(ku, l);
    assert(y =~= x.update(c as int, y[c as int]));
    assert(kids_after_removal(x.update(c as int, y[c as int]), c) =~= kids_after_removal(x, c));
}

/// Removing the branch `c` with its leaf children gives the children lists the generic branch
/// removal gives.
proof fn lemma_branch_kids<B, L>(nodes: Seq<Node<B, L>>, c: usize, converted: L)
    requires
        binary_wf(nodes),
        c < nodes.len(),
        nodes[c as int].value is Branch,
        nodes[c as int].parent is Some,
        nodes.len() <= usize::MAX,
    ensures
        ({
            let p = nodes[c as int].parent->Some_0;
            let ks = nodes[c as int].children();
            let new_nodes = branch_removed(nodes.update(p as int, parent_without_child(nodes[p as int], c, converted)), c);
            kids_of(new_nodes) == kids_after_removal(without_kid(kids_without(kids_of(nodes), c, ks), p, c), c)
        }),
{
    let p = nodes[c as int].parent->Some_0;
    lemma_binary_links(nodes, c);
    lemma_binary_links(nodes, p);
    let ks = nodes[c as int].children();
    let k = kids_of(nodes);
    let upd = parent_without_child(nodes[p as int], c, converted);
    let u = nodes.update(p as int, upd);
    let l = nodes[c as int].value->Branch_left_child;
    assert(ks[0] == l);
    assert(nodes[ks[0] as int].parent == Some(c));
    lemma_parent_without_child_children(nodes, c, converted);
    let kp = k[p as int];
    assert(kp == nodes[p as int].children());
    assert(!kp.contains(l)) by {
        if kp.contains(l) {
            let t = choose|t: int| 0 <= t < kp.len() && kp[t] == l;
            assert(nodes[kp[t] as int].parent == Some(p));
        }
    }
    let ku = kids_of(u);
    assert(ku =~= k.update(p as int, kp.remove(position_of(kp, c))));
    match nodes[c as int].value->Branch_right_child {
        Some(r) => {
            assert(ks[1] == r);
            assert(nodes[ks[1] as int].parent == Some(c));
            assert(ks =~= seq![l, r]);
            assert(!kp.contains(r)) by {
                if kp.contains(r) {
                    let t = choose|t: int| 0 <= t < kp.len() && kp[t] == r;
                    assert(nodes[kp[t] as int].parent == Some(p));
                }
            }
            let a = removed_and_fixed(u, r);
            let b = removed_and_fixed(a, l);
            lemma_removed_and_fixed_shape(u, r);
            lemma_removed_and_fixed_shape(a, l);
            lemma_removed_and_fixed_shape(b, c);
            crate::traversal::lemma_removal_swap(values_of(u), parents_of(u), ku, l, r);
            lemma_kids_two_core(k, p, c, l, r);
        },
        None => {
            assert(ks =~= seq![l]);
            let b = removed_and_fixed(u, l);
            lemma_removed_and_fixed_shape(u, l);
            lemma_removed_and_fixed_shape(b, c);
            lemma_kids_one_core(k, p, c, l);
        },
    }
}

/// Taking `c` out of the children of its parent removes it from their list, which has no
/// duplicates and holds `c`.
proof fn lemma_parent_without_child_children<B, L>(nodes: Seq<Node<B, L>>, c: usize, converted: L)
    requires
        binary_wf(nodes),
        c < nodes.len(),
        nodes[c as int].parent is Some,
    ensures
        ({
            let p = nodes[c as int].parent->Some_0;
            let ks = nodes[p as int].children();
            &&& ks.no_duplicates()
            &&& ks.contains(c)
            &&& parent_without_child(nodes[p as int], c, converted).children() == ks.remove(position_of(ks, c))
            &&& parent_without_child(nodes[p as int], c, converted).parent == nodes[p as int].parent
        }),
{
    let p = nodes[c as int].parent->Some_0;
    lemma_binary_links(nodes, c);
    lemma_binary_links(nodes, p);
    let ks = nodes[p as int].children();
    let j = position_of(ks, c);
    assert(0 <= j < ks.len() && ks[j] == c);
    match nodes[p as int].value {
        NodeData::Branch { left_child, right_child, .. } => {
            match right_child {
                Some(r) => {
                    assert(left_child < r);
                    if left_child == c {
                        assert(j == 0);
                    } else {
                        assert(j == 1);
                    }
                },
                None => {
                    assert(j == 0);
                },
            }
        },
        NodeData::Leaf(_) => {},
    }
    assert(parent_without_child(nodes[p as int], c, converted).children() =~= ks.remove(j));
}

/// Taking `c` out of a list and then renumbering it is renumbering it and then taking `c` out,
/// where the renumbering keeps `c` and sends no other key of the list to `c`.
proof fn lemma_renumbered_without(ks: Seq<usize>, c: usize, l: usize, r: usize)
    requires
        ks.no_duplicates(),
        ks.contains(c),
        c < l < r,
        !ks.contains(l),
        !ks.contains(r),
    ensures
        ({
            let m = keys_after_removal(keys_after_removal(ks, l), (r - 1) as usize);
            keys_after_removal(keys_after_removal(ks.remove(position_of(ks, c)), l), (r - 1) as usize)
                == m.remove(position_of(m, c))
        }),
{
    let j = position_of(ks, c);
    let m = keys_after_removal(keys_after_removal(ks, l), (r - 1) as usize);
    assert(m[j] == c);
    assert(m.contains(c));
    let i = position_of(m, c);
    assert(0 <= i < m.len() && m[i] == c);
    if i != j {
        assert(ks[i] != l && ks[i] != r);
        crate::traversal::lemma_key_removal_swap(ks[i], l, r);
        assert(ks[i] == c);
        assert(false);
    }
    assert(keys_after_removal(keys_after_removal(ks.remove(j), l), (r - 1) as usize) =~= m.remove(i));
}

/// The children lists after removing the leaf children `l < r` of `c`, which becomes a leaf.
#[verifier::spinoff_prover]
proof fn lemma_children_kids_two(k: Seq<Seq<usize>>, c: usize, l: usize, r: usize)
    requires
        c < l < r,
        r < k.len(),
        r <= usize::MAX,
    ensures
        kids_after_removal(kids_after_removal(k.update(c as int, Seq::empty()), l), (r - 1) as usize) == kids_without(k, c, seq![l, r]),
{
    reveal_with_fuel(kids_without, 3);
    assert(seq![l, r].drop_first() =~= seq![r]);
    assert(keys_after_removal(seq![r], l) =~= seq![(r - 1) as usize]);
    assert(seq![(r - 1) as usize].drop_first() =~= Seq::<usize>::empty());
    assert(keys_after_removal(Seq::<usize>::empty(), (r - 1) as usize) =~= Seq::<usize>::empty());
    assert(keys_after_removal(Seq::<usize>::empty(), l) =~= Seq::<usize>::empty());
    let kw = kids_after_removal(kids_after_removal(k.update(c as int, seq![r]), l).update(c as int, Seq::empty()), (r - 1) as usize).update(c as int, Seq::empty());
    assert(kids_without(k, c, seq![l, r]) == kw);
    assert(kids_after_removal(kids_after_removal(k.update(c as int, Seq::empty()), l), (r - 1) as usize) =~= kw);
}

/// The children lists after removing the leaf child `l` of `c`, which becomes a leaf.
#[verifier::spinoff_prover]
proof fn lemma_children_kids_one(k: Seq<Seq<usize>>, c: usize, l: usize)
    requires
        c < l,
        l < k.len(),
    ensures
        kids_after_removal(k.update(c as int, Seq::empty()), l) == kids_without(k, c, seq![l]),
{
    reveal_with_fuel(kids_without, 2);
    assert(seq![l].drop_first() =~= Seq::<usize>::empty());
    assert(keys_after_removal(Seq::<usize>::empty(), l) =~= Seq::<usize>::empty());
    let kw = kids_after_removal(k.update(c as int, Seq::empty()), l).update(c as int, Seq::empty());
    assert(kids_without(k, c, seq![l]) == kw);
    assert(kids_after_removal(k.update(c as int, Seq::empty()), l) =~= kw);
}

/// Removing the leaf children of `c` takes them out one after the other, keys renumbered, with
/// `c` turned into a leaf.
#[verifier::spinoff_prover]
#[verifier::rlimit(40)]
proof fn lemma_children_exactly<B, L>(nodes: Seq<Node<B, L>>, c: usize, converted: L)
    requires
        binary_wf(nodes),
        c < nodes.len(),
        nodes[c as int].value is Branch,
        nodes.len() <= usize::MAX,
    ensures
        ({
            let ks = nodes[c as int].children();
            let u = nodes.update(c as int, as_leaf(nodes[c as int], converted));
            let new_nodes = leaves_removed(u, nodes[c as int].value->Branch_left_child, nodes[c as int].value->Branch_right_child);
            &&& values_of(new_nodes) == values_without(values_of(nodes), ks).update(c as int, values_of(new_nodes)[c as int])
            &&& parents_of(new_nodes) == parents_without(parents_of(nodes), ks)
            &&& kids_of(new_nodes) == kids_without(kids_of(nodes), c, ks)
        }),
{
    lemma_binary_links(nodes, c);
    let ks = nodes[c as int].children();
    let x = as_leaf(nodes[c as int], converted);
    let u = nodes.update(c as int, x);
    let l = nodes[c as int].value->Branch_left_child;
    assert(ks[0] == l);
    let k = kids_of(nodes);
    assert(parents_of(u) =~= parents_of(nodes));
    assert(kids_of(u) =~= k.update(c as int, Seq::empty()));
    let vu = values_of(u);
    assert(vu =~= values_of(nodes).update(c as int, x.value.value_spec()));
    reveal_with_fuel(values_without, 3);
    reveal_with_fuel(parents_without, 3);
    match nodes[c as int].value->Branch_right_child {
        Some(r) => {
            assert(ks[1] == r);
            assert(ks =~= seq![l, r]);
            assert(ks.drop_first() =~= seq![r]);
            assert(keys_after_removal(seq![r], l) =~= seq![(r - 1) as usize]);
            let a = removed_and_fixed(u, r);
            let b = removed_and_fixed(a, l);
            lemma_removed_and_fixed_shape(u, r);
            lemma_removed_and_fixed_shape(a, l);
            assert(values_of(a) =~= vu.remove(r as int));
            assert(values_of(b) =~= values_of(a).remove(l as int));
            lemma_removal_swap(vu, parents_of(u), kids_of(u), l, r);
            let w = values_of(nodes).remove(l as int).remove(r - 1);
            assert(values_without(values_of(nodes), ks) == w);
            assert(vu.remove(l as int).remove(r - 1) =~= w.update(c as int, x.value.value_spec()));
            assert(values_of(b)[c as int] == x.value.value_spec());
            lemma_children_kids_two(k, c, l, r);
        },
        None => {
            assert(ks =~= seq![l]);
            let b = removed_and_fixed(u, l);
            lemma_removed_and_fixed_shape(u, l);
            assert(values_of(b) =~= vu.remove(l as int));
            let w = values_of(nodes).remove(l as int);
            assert(values_without(values_of(nodes), ks) == w);
            assert(vu.remove(l as int) =~= w.update(c as int, x.value.value_spec()));
            assert(values_of(b)[c as int] == x.value.value_spec());
            lemma_children_kids_one(k, c, l);
        },
    }
}

/// Removing the branch `c` with its leaf children takes them out one after the other, then `c`,
/// keys renumbered, with its parent changed as `parent_without_child` says.
#[verifier::spinoff_prover]
#[verifier::rlimit(40)]
proof fn lemma_branch_exactly<B, L>(nodes: Seq<Node<B, L>>, c: usize, converted: L)
    requires
        binary_wf(nodes),
        c < nodes.len(),
        nodes[c as int].value is Branch,
        nodes[c as int].parent is Some,
        nodes.len() <= usize::MAX,
    ensures
        ({
            let p = nodes[c as int].parent->Some_0;
            let ks = nodes[c as int].children();
            let new_nodes = branch_removed(nodes.update(p as int, parent_without_child(nodes[p as int], c, converted)), c);
            &&& values_of(new_nodes) == values_without(values_of(nodes), ks).update(p as int, values_of(new_nodes)[p as int]).remove(c as int)
            &&& parents_of(new_nodes) == parents_after_removal(parents_without(parents_of(nodes), ks), c)
        }),
{
    let p = nodes[c as int].parent->Some_0;
    lemma_binary_links(nodes, c);
    lemma_binary_links(nodes, p);
    let ks = nodes[c as int].children();
    let upd = parent_without_child(nodes[p as int], c, converted);
    let u = nodes.update(p as int, upd);
    let l = nodes[c as int].value->Branch_left_child;
    assert(ks[0] == l);
    assert(u[c as int] == nodes[c as int]);
    assert(parents_of(u) =~= parents_of(nodes));
    let vu = values_of(u);
    assert(vu =~= values_of(nodes).update(p as int, upd.value.value_spec()));
    reveal_with_fuel(values_without, 3);
    reveal_with_fuel(parents_without, 3);
    match nodes[c as int].value->Branch_right_child {
        Some(r) => {
            assert(ks[1] == r);
            assert(ks.drop_first() =~= seq![r]);
            assert(keys_after_removal(seq![r], l) =~= seq![(r - 1) as usize]);
            let a = removed_and_fixed(u, r);
            let b = removed_and_fixed(a, l);
            let n = removed_and_fixed(b, c);
            lemma_removed_and_fixed_shape(u, r);
            lemma_removed_and_fixed_shape(a, l);
            lemma_removed_and_fixed_shape(b, c);
            assert(values_of(a) =~= vu.remove(r as int));
            assert(values_of(b) =~= values_of(a).remove(l as int));
            assert(values_of(n) =~= values_of(b).remove(c as int));
            lemma_removal_swap(vu, parents_of(u), kids_of(u), l, r);
            let w = values_of(nodes).remove(l as int).remove(r - 1);
            assert(keys_after_removal(seq![(r - 1) as usize].drop_first(), (r - 1) as usize) =~= Seq::<usize>::empty());
            assert(values_without(values_of(nodes), ks) == w);
            assert(vu.remove(l as int).remove(r - 1) =~= w.update(p as int, upd.value.value_spec()));
            assert(values_of(n)[p as int] == upd.value.value_spec());
            assert(parents_without(parents_of(nodes), ks) == parents_after_removal(parents_after_removal(parents_of(nodes), l), (r - 1) as usize));
        },
        None => {
            assert(ks =~= seq![l]);
            assert(ks.drop_first() =~= Seq::<usize>::empty());
            let b = removed_and_fixed(u, l);
            let n = removed_and_fixed(b, c);
            lemma_removed_and_fixed_shape(u, l);
            lemma_removed_and_fixed_shape(b, c);
            assert(values_of(b) =~= vu.remove(l as int));
            assert(values_of(n) =~= values_of(b).remove(c as int));
            let w = values_of(nodes).remove(l as int);
            assert(values_without(values_of(nodes), ks) == w);
            assert(vu.remove(l as int) =~= w.update(p as int, upd.value.value_spec()));
            assert(values_of(n)[p as int] == upd.value.value_spec());
            assert(parents_without(parents_of(nodes), ks) == parents_after_removal(parents_of(nodes), l));
        },
    }
}

/// Removing the leaf `c` renumbers the parents and the children of the other nodes the way the
/// shape does, takes `c` out of the children of its parent, and keeps every payload but the
/// parent's.
proof fn lemma_leaf_removal_exact<B, L>(nodes: Seq<Node<B, L>>, c: usize, converted: L)
    requires
        binary_wf(nodes),
        c < nodes.len(),
        nodes[c as int].value is Leaf,
        nodes[c as int].parent is Some,
    ensures
        ({
            let p = nodes[c as int].parent->Some_0;
            let new_nodes = removed_and_fixed(nodes.update(p as int, parent_without_child(nodes[p as int], c, converted)), c);
            &&& parents_of(new_nodes) == parents_after_removal(parents_of(nodes), c)
            &&& kids_of(new_nodes) == kids_after_removal(without_kid(kids_of(nodes), p, c), c)
            &&& values_of(new_nodes) == values_of(nodes).update(p as int, values_of(new_nodes)[p as int]).remove(c as int)
        }),
{
    let p = nodes[c as int].parent->Some_0;
    lemma_binary_links(nodes, c);
    lemma_binary_links(nodes, p);
    let upd = parent_without_child(nodes[p as int], c, converted);
    let updated = nodes.update(p as int, upd);
    lemma_removed_and_fixed_shape(updated, c);
    assert(parents_of(updated) =~= parents_of(nodes));
    let ks = nodes[p as int].children();
    assert(ks.contains(c));
    let j = position_of(ks, c);
    assert(0 <= j < ks.len() && ks[j] == c);
    match nodes[p as int].value {
        NodeData::Branch { left_child, right_child, .. } => {
            match right_child {
                Some(r) => {
                    assert(left_child < r);
                    if left_child == c {
                        assert(j == 0);
                    } else {
                        assert(j == 1);
                    }
                },
                None => {
                    assert(j == 0);
                },
            }
        },
        NodeData::Leaf(_) => {},
    }
    assert(upd.children() =~= ks.remove(j));
    assert(kids_of(updated) =~= without_kid(kids_of(nodes), p, c));
    let new_nodes = removed_and_fixed(updated, c);
    assert(values_of(new_nodes) =~= values_of(updated).remove(c as int));
    assert(values_of(new_nodes)[p as int] == upd.value.value_spec());
    assert(values_of(updated) =~= values_of(nodes).update(p as int, upd.value.value_spec()));
}

proof fn lemma_removal_chain<B, L>(nodes: Seq<Node<B, L>>, removed: usize, bound: int)
    requires
        removed < nodes.len(),
        bound <= removed,
        forall|k: int| 0 <= k < bound ==> match #[trigger] nodes[k].parent {
            Some(p) => p < k,
            None => true,
        },
    ensures
        parents_kept_below(parents_of(nodes), parents_of(removed_and_fixed(nodes, removed)), bound),
        forall|k: int| 0 <= k < bound ==> match #[trigger] removed_and_fixed(nodes, removed)[k].parent {
            Some(p) => p < k,
            None => true,
        },
        removed_and_fixed(nodes, removed).len() == nodes.len() - 1,
        forall|k: int| 0 <= k < bound ==> #[trigger] values_of(removed_and_fixed(nodes, removed))[k]
            == values_of(nodes)[k],
{
    lemma_removal_keeps_low_parents(nodes, removed, bound);
    assert forall|k: int| 0 <= k < bound implies #[trigger] values_of(removed_and_fixed(nodes, removed))[k]
        == values_of(nodes)[k] by {
        assert(removed_and_fixed(nodes, removed)[k] == nodes[k].shifted(removed, -1));
    }
}

/// Removing a branch node together with its leaf children, after its parent has been replaced
/// by a node with the same parent, keeps the parents of the nodes before it.
proof fn lemma_branch_removal_parents<B, L>(nodes: Seq<Node<B, L>>, c: usize, upd: Node<B, L>)
    requires
        binary_wf(nodes),
        c < nodes.len(),
        nodes[c as int].value is Branch,
        nodes[c as int].parent is Some,
        upd.parent == nodes[parent_key(nodes, c) as int].parent,
        forall|k: int| 0 <= k < nodes.len() ==> match #[trigger] nodes[k].parent {
            Some(p) => p < k,
            None => true,
        },
    ensures
        ({
            let updated = nodes.update(parent_key(nodes, c) as int, upd);
            &&& parents_kept_below(parents_of(nodes), parents_of(branch_removed(updated, c)), c as int)
            &&& branch_removed(updated, c).len() < nodes.len()
            &&& forall|k: int| 0 <= k < c ==> #[trigger] values_of(branch_removed(updated, c))[k]
                == values_of(updated)[k]
        }),
{
    let p = parent_key(nodes, c);
    lemma_binary_links(nodes, c);
    let updated = nodes.update(p as int, upd);
    lemma_update_keeps_parents(nodes, p as int, upd);
    let node = nodes[c as int];
    assert(updated[c as int] == node);
    let l = node.value->Branch_left_child;
    let ks = node.children();
    assert(ks[0] == l);
    match node.value->Branch_right_child {
        Some(r) => {
            assert(ks[1] == r);
            lemma_removal_chain(updated, r, c as int);
            let a = removed_and_fixed(updated, r);
            lemma_removal_chain(a, l, c as int);
            lemma_removal_chain(removed_and_fixed(a, l), c, c as int);
        },
        None => {
            lemma_removal_chain(updated, l, c as int);
            lemma_removal_chain(removed_and_fixed(updated, l), c, c as int);
        },
    }
}

/// The first child of a branch node which is itself a branch is the one that
/// `first_branch_child` names, and there is none exactly when all children are leaves.
proof fn lemma_first_branch_child<B, L>(nodes: Seq<Node<B, L>>, c: usize)
    requires
        binary_wf(nodes),
        c < nodes.len(),
        nodes[c as int].value is Branch,
    ensures
        kids_of(nodes)[c as int] == nodes[c as int].children(),
        all_leaves(values_of(nodes), nodes[c as int].children()) <==> first_branch_child(nodes, c) is None,
        first_branch_child(nodes, c) matches Some(i) ==> is_first_branch_kid(
            values_of(nodes),
            nodes[c as int].children(),
            i as int,
        ),
{
    lemma_binary_links(nodes, c);
    let ks = nodes[c as int].children();
    let values = values_of(nodes);
    assert(ks[0] == nodes[c as int].value->Branch_left_child);
    if let Some(r) = nodes[c as int].value->Branch_right_child {
        assert(ks[1] == r);
    }
    if first_branch_child(nodes, c) is Some {
        assert(!all_leaves(values, ks));
    } else {
        assert forall|j: int| 0 <= j < ks.len() implies values[#[trigger] ks[j] as int] is Leaf by {
            assert(j == 0 || j == 1);
        }
    }
}

/// Taking a child away from a branch keeps its payload, or, where the branch is left without
/// children, turns it into a leaf holding the payload made by `f`.
proof fn lemma_parent_without_child_value<B, L, F: FnOnce(B) -> L>(
    parent: Node<B, L>,
    c: usize,
    converted: L,
    f: F,
)
    requires
        parent.value is Branch,
        super::parent_becomes_leaf(parent, c) ==> f.ensures((branch_payload(parent),), converted),
    ensures
        kept_or_converted(
            parent.value.value_spec(),
            super::parent_without_child(parent, c, converted).value.value_spec(),
            true,
            f,
        ),
        super::parent_without_child(parent, c, converted).parent == parent.parent,
{
}

impl<B, L> TraversableMut for BinaryTree<B, L> {
    open spec fn can_remove_individual_children() -> bool {
        true
    }

    fn can_remove_individual_children_exec() -> (r: bool) {
        true
    }

    proof fn lemma_children_after_siblings(&self) {
    }

    fn value_mut_of(&mut self, cursor: &usize) -> (r: NodeValue<&mut B, &mut L>) {
        proof {
            lemma_payload_update(self.nodes(), *cursor as int);
        }
        let node = &mut self.storage[*cursor];
        match &mut node.value {
            NodeData::Branch { payload, .. } => NodeValue::Branch(payload),
            NodeData::Leaf(x) => NodeValue::Leaf(x),
        }
    }

    fn try_remove_leaf<BtL: FnOnce(B) -> L>(&mut self, cursor: &usize, branch_to_leaf: BtL) -> (result: Result<
        L,
        TryRemoveLeafError,
    >) {
        let ghost old_nodes = self.nodes();
        proof {
            self.lemma_parents_before();
        }
        let result = self.try_remove_leaf_at(*cursor, branch_to_leaf);
        proof {
            let c = *cursor;
            if result is Ok {
                let p = parent_key(old_nodes, c);
                lemma_binary_links(old_nodes, c);
                let converted = leaf_payload(self.nodes()[p as int]);
                let updated = old_nodes.update(p as int, super::parent_without_child(old_nodes[p as int], c, converted));
                lemma_update_keeps_parents(old_nodes, p as int, super::parent_without_child(old_nodes[p as int], c, converted));
                lemma_removal_chain(updated, c, c as int);
                lemma_leaf_removal_exact(old_nodes, c, converted);
            }
        }
        result
    }

    fn try_remove_branch<BtL: FnOnce(B) -> L>(&mut self, cursor: &usize, branch_to_leaf: BtL) -> (result: Result<
        (B, Vec<L>),
        TryRemoveBranchError,
    >) {
        let ghost old_nodes = self.nodes();
        proof {
            self.lemma_parents_before();
            lemma_binary_links(old_nodes, *cursor);
        }
        match self.try_remove_branch_at(*cursor, branch_to_leaf) {
            Ok((payload, left, right)) => {
                let mut children = Vec::new();
                children.push(left);
                match right {
                    Some(r) => children.push(r),
                    None => {},
                }
                proof {
                    let c = *cursor;
                    let ks = old_nodes[c as int].children();
                    assert(kids_of(old_nodes)[c as int] == ks);
                    assert(children@ =~= leaf_payloads(values_of(old_nodes), ks));
                    let p = parent_key(old_nodes, c);
                    let converted = leaf_payload(self.nodes()[p as int]);
                    let upd = super::parent_without_child(old_nodes[p as int], c, converted);
                    lemma_first_branch_child(old_nodes, c);
                    lemma_binary_links(old_nodes, p);
                    lemma_parent_without_child_value(old_nodes[p as int], c, converted, branch_to_leaf);
                    lemma_branch_removal_parents(old_nodes, c, upd);
                    let updated = old_nodes.update(p as int, upd);
                    assert(self.nodes() == super::branch_removed(updated, c));
                    lemma_branch_exactly(old_nodes, c, converted);
                    lemma_branch_kids(old_nodes, c, converted);
                    let node = updated[c as int];
                    assert(node == old_nodes[c as int]);
                    lemma_binary_links(old_nodes, c);
                    lemma_branch_removed_len(updated, c);
                    assert(self.nodes().len() == old_nodes.len() - 1 - ks.len());
                    assert forall|k: int| 0 <= k < c && k < values_of(old_nodes).len() implies k < values_of(self.nodes()).len()
                        && kept_or_converted(
                        values_of(old_nodes)[k],
                        #[trigger] values_of(self.nodes())[k],
                        k == p,
                        branch_to_leaf,
                    ) by {
                        assert(self.nodes() == super::branch_removed(updated, c));
                        assert(parents_of(self.nodes())[k] == parents_of(old_nodes)[k]);
                        assert(values_of(self.nodes())[k] == values_of(updated)[k]);
                        assert(values_of(old_nodes)[k] == old_nodes[k].value.value_spec());
                        if k == p {
                            assert(values_of(updated)[k] == upd.value.value_spec());
                        } else {
                            assert(values_of(updated)[k] == values_of(old_nodes)[k]);
                        }
                    }
                }
                Ok((payload, children))
            },
            Err(e) => {
                proof {
                    let c = *cursor;
                    if old_nodes[c as int].value is Branch {
                        lemma_first_branch_child(old_nodes, c);
                    }
                }
                Err(e)
            },
        }
    }

    fn try_remove_children<BtL: FnOnce(B) -> L>(&mut self, cursor: &usize, branch_to_leaf: BtL) -> (result: Result<
        Vec<L>,
        TryRemoveChildrenError,
    >) {
        let ghost old_nodes = self.nodes();
        proof {
            self.lemma_parents_before();
            lemma_binary_links(old_nodes, *cursor);
        }
        match self.try_remove_children_at(*cursor, branch_to_leaf) {
            Ok((left, right)) => {
                let mut children = Vec::new();
                children.push(left);
                match right {
                    Some(r) => children.push(r),
                    None => {},
                }
                proof {
                    let c = *cursor;
                    let node = old_nodes[c as int];
                    let l = node.value->Branch_left_child;
                    let ks = node.children();
                    assert(kids_of(old_nodes)[c as int] == ks);
                    assert(children@ =~= leaf_payloads(values_of(old_nodes), ks));
                    let converted = leaf_payload(self.nodes()[c as int]);
                    let upd = as_leaf(node, converted);
                    let updated = old_nodes.update(c as int, upd);
                    lemma_update_keeps_parents(old_nodes, c as int, upd);
                    lemma_children_exactly(old_nodes, c, converted);
                    assert(ks[0] == l);
                    match node.value->Branch_right_child {
                        Some(r) => {
                            assert(ks[1] == r);
                            lemma_removal_chain(updated, r, l as int);
                            let a = removed_and_fixed(updated, r);
                            lemma_removal_chain(a, l, l as int);
                            assert(a[c as int] == updated[c as int].shifted(r, -1));
                            assert(removed_and_fixed(a, l)[c as int] == a[c as int].shifted(l, -1));
                        },
                        None => {
                            lemma_removal_chain(updated, l, l as int);
                            assert(removed_and_fixed(updated, l)[c as int] == updated[c as int].shifted(l, -1));
                        },
                    }
                    assert(values_of(self.nodes())[c as int] is Leaf);
                    assert(parents_kept_below(parents_of(old_nodes), parents_of(self.nodes()), l as int));
                    assert forall|k: int|
                        0 <= k < parents_of(old_nodes).len() && (forall|j: int| 0 <= j < ks.len() ==> k < #[trigger] ks[j])
                            implies k < parents_of(self.nodes()).len() && #[trigger] parents_of(self.nodes())[k] == parents_of(old_nodes)[k] by {
                        assert(k < ks[0]);
                    }
                }
                Ok(children)
            },
            Err(e) => {
                proof {
                    let c = *cursor;
                    let ks = old_nodes[c as int].children();
                    assert(kids_of(old_nodes)[c as int] == ks);
                    if old_nodes[c as int].value is Branch && first_branch_child(old_nodes, c) is None {
                        assert(all_leaves(values_of(old_nodes), ks));
                    }
                    if old_nodes[c as int].value is Branch && first_branch_child(old_nodes, c) is Some {
                        assert(!all_leaves(values_of(old_nodes), ks));
                    }
                }
                Err(e)
            },
        }
    }
}

} // verus!
