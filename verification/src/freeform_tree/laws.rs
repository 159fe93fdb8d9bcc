//! Laws relating the operations of freeform trees.
use vstd::prelude::*;
use crate::{NodeValue, MakeBranchError, TryRemoveLeafError, TryRemoveChildrenError};
use crate::shape::{kid_ok, parent_ok, kids_after_removal, keys_after_removal, parents_after_removal};
use crate::traversal::{position_of, leaf_payloads};
use super::base::{
    FreeformTree, TryPushError, push_outcome, leaf_removal_outcome, children_removal_outcome,
    branch_made_outcome, without_child, leaf_payload, branch_payload, parent_key, below_all, kept_at,
    key_range, new_children,
};
use super::node::{parents_of, values_of};

verus! {

/// Adding a leaf after the other children of a branch and then removing that leaf gives back the
/// tree as it was, and the removal hands back the payload that was added.
pub proof fn law_push_back_then_remove<B, L>(
    before: &FreeformTree<B, L>,
    after_push: &FreeformTree<B, L>,
    after_remove: &FreeformTree<B, L>,
    key: usize,
    payload: L,
    pushed: Result<(), TryPushError<L>>,
    removed: Result<L, TryRemoveLeafError>,
    conv: spec_fn(B, L) -> bool,
)
    requires
        before.wf(),
        key < before.nodes().len(),
        pushed is Ok,
        push_outcome(
            before.nodes(),
            before.children_lists(),
            key,
            payload,
            true,
            pushed,
            after_push.nodes(),
            after_push.children_lists(),
        ),
        leaf_removal_outcome(
            after_push.nodes(),
            after_push.children_lists(),
            before.nodes().len() as usize,
            conv,
            removed,
            after_remove.nodes(),
            after_remove.children_lists(),
        ),
    ensures
        removed == Ok::<L, TryRemoveLeafError>(payload),
        parents_of(after_remove.nodes()) == parents_of(before.nodes()),
        values_of(after_remove.nodes()) == values_of(before.nodes()),
        after_remove.children_lists() == before.children_lists(),
{
    before.lemma_children(key);
    before.lemma_wf();
    let nodes = before.nodes();
    let kids = before.children_lists();
    let n = nodes.len() as usize;
    let parents = parents_of(nodes);
    let values = values_of(nodes);
    let ks = kids[key as int];
    let nodes1 = after_push.nodes();
    let kids1 = after_push.children_lists();
    assert(nodes1.len() == n + 1) by {
        assert(parents_of(nodes1).len() == nodes1.len());
    }
    assert(parents_of(nodes1)[n as int] == Some(key));
    assert(values_of(nodes1)[n as int] == NodeValue::<B, L>::Leaf(payload));
    assert(nodes1[n as int].value.value_spec() == NodeValue::<B, L>::Leaf(payload));
    assert(parent_key(nodes1, n) == key);
    assert(kids1[key as int] == ks.push(n));
    let pos = position_of(ks.push(n), n);
    assert(ks.push(n)[ks.len() as int] == n);
    assert(ks.push(n).contains(n));
    assert forall|t: int| 0 <= t < ks.len() implies #[trigger] ks[t] < n by {}
    assert(pos == ks.len()) by {
        if pos < ks.len() {
            assert(ks[pos] < n);
        }
    }
    assert(ks.push(n).remove(pos) =~= ks);
    assert(without_child(kids1, key, n) =~= kids.push(Seq::empty()));
    assert forall|x: int, t: int| 0 <= x < kids.len() && 0 <= t < kids[x].len() implies #[trigger] kids[x][t] < n by {
        assert(kid_ok(parents, kids, Set::empty(), x, t));
    }
    assert forall|x: int| 0 <= x < kids.len() implies keys_after_removal(#[trigger] kids[x], n) =~= kids[x] by {}
    assert(kids_after_removal(kids.push(Seq::empty()), n) =~= kids);
    assert forall|x: int| 0 <= x < parents.len() implies (#[trigger] parents[x] matches Some(q) ==> q < n) by {
        if x > 0 {
            assert(parent_ok(parents, kids, Set::empty(), x));
        }
    }
    assert(parents_after_removal(parents.push(Some(key)), n) =~= parents);
    assert(values.push(NodeValue::<B, L>::Leaf(payload)).remove(n as int) =~= values);
}

/// Turning a leaf into a branch with new leaf children and then removing those children, with
/// the payload kept as it is both times, gives back the tree as it was, and the removal hands
/// back the payloads of the children in order.
pub proof fn law_make_branch_then_remove_children<D>(
    before: &FreeformTree<D, D>,
    after_make: &FreeformTree<D, D>,
    after_remove: &FreeformTree<D, D>,
    key: usize,
    children: Seq<D>,
    made: Result<(), MakeBranchError<D, Vec<D>>>,
    removed: Result<Vec<D>, TryRemoveChildrenError>,
)
    requires
        before.wf(),
        key < before.nodes().len(),
        children.len() > 0,
        before.nodes().len() + children.len() + 1 < usize::MAX,
        made is Ok,
        branch_made_outcome(
            before.nodes(),
            before.children_lists(),
            key,
            children,
            |x: D, y: D| y == x,
            made,
            after_make.nodes(),
            after_make.children_lists(),
        ),
        children_removal_outcome(
            after_make.nodes(),
            after_make.children_lists(),
            key,
            |x: D, y: D| y == x,
            removed,
            after_remove.nodes(),
            after_remove.children_lists(),
        ),
    ensures
        removed matches Ok(v) && v@ == children,
        parents_of(after_remove.nodes()) == parents_of(before.nodes()),
        values_of(after_remove.nodes()) == values_of(before.nodes()),
        after_remove.children_lists()[key as int] == before.children_lists()[key as int],
{
    before.lemma_children(key);
    let nodes = before.nodes();
    let kids = before.children_lists();
    let n = nodes.len();
    let m = children.len();
    let nodes1 = after_make.nodes();
    let kids1 = after_make.children_lists();
    let nodes2 = after_remove.nodes();
    let range = key_range(n, m);
    let values1 = values_of(nodes1);
    let payload = branch_payload(nodes1[key as int]);
    lemma_made_branch(nodes, key, payload, children, nodes1);
    assert(kids1[key as int] == range);
    assert(leaf_payloads(values1, range) =~= children);
    assert(nodes2.len() == n);
    assert forall|k: int| 0 <= k < n implies #[trigger] kept_at(nodes, nodes2, k, -1) by {
        assert forall|t: int| 0 <= t < range.len() implies k < #[trigger] range[t] by {
            assert(range[t] == n + t);
        }
        assert(below_all(k, range));
        assert(kept_at(nodes1, nodes2, k, key as int));
        if k == key {
            assert(values_of(nodes2)[k] == nodes2[k].value.value_spec());
        }
    }
    lemma_same_tree(nodes, nodes2);
}

/// Two storages whose nodes all kept their parents and payloads have the same parents and
/// payloads.
proof fn lemma_same_tree<B, L>(nodes: Seq<super::node::Node<B, L>>, nodes2: Seq<super::node::Node<B, L>>)
    requires
        nodes2.len() == nodes.len(),
        forall|k: int| 0 <= k < nodes.len() ==> #[trigger] kept_at(nodes, nodes2, k, -1),
    ensures
        parents_of(nodes2) == parents_of(nodes),
        values_of(nodes2) == values_of(nodes),
{
    assert forall|k: int| 0 <= k < nodes.len() implies #[trigger] values_of(nodes2)[k] === values_of(nodes)[k] by {
        assert(kept_at(nodes, nodes2, k, -1));
    }
    assert forall|k: int| 0 <= k < nodes.len() implies #[trigger] parents_of(nodes2)[k] === parents_of(nodes)[k] by {
        assert(kept_at(nodes, nodes2, k, -1));
    }
    assert(values_of(nodes2) =~= values_of(nodes));
    assert(parents_of(nodes2) =~= parents_of(nodes));
}

/// The storage after the leaf `key` has been made a branch holding `payload` with new leaf
/// children at the end of the storage: the nodes before keep their parents and payloads but for
/// the new branch, and the new children are leaves holding `children`.
proof fn lemma_made_branch<D>(
    nodes: Seq<super::node::Node<D, D>>,
    key: usize,
    payload: D,
    children: Seq<D>,
    nodes1: Seq<super::node::Node<D, D>>,
)
    requires
        key < nodes.len(),
        nodes[key as int].value is Leaf,
        payload == leaf_payload(nodes[key as int]),
        children.len() > 0,
        nodes.len() + children.len() + 1 < usize::MAX,
        nodes1 == nodes.update(
            key as int,
            super::node::Node {
                value: super::node::NodeData::Branch {
                    payload,
                    first_child: nodes.len() as usize,
                    last_child: (nodes.len() + children.len() - 1) as usize,
                },
                ..nodes[key as int]
            },
        ) + new_children::<D, D>(key, nodes.len(), children),
    ensures
        nodes1.len() == nodes.len() + children.len(),
        forall|j: int|
            0 <= j < children.len() ==> values_of(nodes1)[#[trigger] key_range(nodes.len(), children.len())[j] as int]
                == NodeValue::<D, D>::Leaf(children[j]),
        forall|k: int| 0 <= k < nodes.len() ==> #[trigger] parents_of(nodes1)[k] == parents_of(nodes)[k],
        forall|k: int| 0 <= k < nodes.len() && k != key ==> #[trigger] values_of(nodes1)[k] == values_of(nodes)[k],
        values_of(nodes1)[key as int] == NodeValue::<D, D>::Branch(payload),
        values_of(nodes)[key as int] == NodeValue::<D, D>::Leaf(payload),
{
    let n = nodes.len();
    let range = key_range(n, children.len());
    assert forall|j: int| 0 <= j < children.len() implies values_of(nodes1)[#[trigger] range[j] as int]
        == NodeValue::<D, D>::Leaf(children[j]) by {
        assert(range[j] == n + j);
        assert(nodes1[n + j] == new_children::<D, D>(key, n, children)[j]);
    }
}

} // verus!
