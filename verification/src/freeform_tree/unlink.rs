//! Taking a node out of the list of children of its parent.
//!
//! A node is removed from a freeform tree in two stages: first it is taken out of the list of
//! siblings it belongs to, which leaves it and its children *pending* (nothing else refers to
//! them any more), and then the pending nodes are removed from the storage one by one.
use vstd::prelude::*;
use crate::shape::{shape_wf, shape_partial, kid_ok, parent_ok, lemma_detach};
use super::node::{Node, NodeData, parents_of, values_of, freeform_wf, freeform_partial, links_ok, prev_in, next_in};
use super::base::branch_payload;

verus! {

/// The optional key `key` names the node `x`.
pub open spec fn names(key: Option<usize>, x: int) -> bool {
    key matches Some(k) && k == x
}

/// The node `key` together with its children.
pub open spec fn family(kids: Seq<Seq<usize>>, key: usize) -> Set<int> {
    Set::new(|x: int| x == key || (0 <= x <= usize::MAX && kids[key as int].contains(x as usize)))
}

/// The node `x` after the `j`-th child of the branch `p`, whose children are `ks`, has been taken
/// out of the list of siblings: its neighbours, or the branch, name each other instead.
pub open spec fn unlinked_node<B, L>(nodes: Seq<Node<B, L>>, p: usize, ks: Seq<usize>, j: int, x: int) -> Node<B, L> {
    let prev = prev_in(ks, j);
    let next = next_in(ks, j);
    let n = nodes[x];
    if x == p {
        Node {
            value: NodeData::Branch {
                payload: branch_payload(n),
                first_child: if j == 0 { ks[1] } else { ks[0] },
                last_child: if j + 1 == ks.len() { ks[j - 1] } else { ks.last() },
            },
            ..n
        }
    } else if names(prev, x) {
        Node { next_sibling: next, ..n }
    } else if names(next, x) {
        Node { prev_sibling: prev, ..n }
    } else {
        n
    }
}

/// The storage after the `j`-th child of the branch `p`, whose children are `ks`, has been taken
/// out of the list of siblings.
pub open spec fn unlinked<B, L>(nodes: Seq<Node<B, L>>, p: usize, ks: Seq<usize>, j: int) -> Seq<Node<B, L>> {
    Seq::new(nodes.len(), |x: int| unlinked_node(nodes, p, ks, j, x))
}

/// The storage after the branch `p` has been turned into a leaf holding `payload`.
pub open spec fn made_leaf<B, L>(nodes: Seq<Node<B, L>>, p: usize, payload: L) -> Seq<Node<B, L>> {
    nodes.update(p as int, Node { value: NodeData::Leaf(payload), ..nodes[p as int] })
}

/// Taking a node whose children are all leaves out of the list of children of its parent keeps
/// the shape a tree once the node and its children are pending.
proof fn lemma_detach_shape(parents: Seq<Option<usize>>, kids: Seq<Seq<usize>>, key: usize, p: usize, j: int)
    requires
        shape_wf(parents, kids),
        key < parents.len(),
        parents[key as int] == Some(p),
        0 <= j < kids[p as int].len(),
        kids[p as int][j] == key,
        forall|t: int| 0 <= t < kids[key as int].len() ==> (#[trigger] kids[kids[key as int][t] as int]).len() == 0,
    ensures
        shape_partial(parents, kids.update(p as int, kids[p as int].remove(j)), family(kids, key)),
        key != 0,
        p < key,
        forall|t: int| 0 <= t < kids[key as int].len() ==> key < #[trigger] kids[key as int][t] < parents.len(),
{
    let ks = kids[p as int];
    let nks = ks.remove(j);
    let d = family(kids, key);
    let e = Set::<int>::empty();
    assert(parent_ok(parents, kids, e, key as int)) by {
        if key == 0 {
            assert(parents[0] is None);
        }
    }
    assert forall|t: int| 0 <= t < kids[key as int].len() implies key < #[trigger] kids[key as int][t] < parents.len() by {
        assert(kid_ok(parents, kids, e, key as int, t));
        assert(parent_ok(parents, kids, e, kids[key as int][t] as int));
    }
    assert(ks.no_duplicates());
    assert forall|x: int| #![trigger d.contains(x)] d.contains(x) && 0 <= x < parents.len() implies match parents[x] {
        Some(q) => d.contains(q as int) || q == p,
        None => false,
    } by {
        if x != key {
            let t = choose|t: int| 0 <= t < kids[key as int].len() && kids[key as int][t] == x as usize;
            assert(kid_ok(parents, kids, e, key as int, t));
        }
    }
    assert forall|x: int, t: int| #![trigger d.contains(x), kids[x][t]] d.contains(x) && 0 <= x < parents.len() && 0 <= t
        < kids[x].len() implies d.contains(kids[x][t] as int) || e.contains(kids[x][t] as int) by {
        if x != key {
            let u = choose|u: int| 0 <= u < kids[key as int].len() && kids[key as int][u] == x as usize;
            assert(kids[kids[key as int][u] as int].len() == 0);
        } else {
            assert(kids[key as int].contains(kids[x][t]));
        }
    }
    assert forall|c: usize| #[trigger] nks.contains(c) <==> (ks.contains(c) && !d.contains(c as int)) by {
        if nks.contains(c) {
            let t = choose|t: int| 0 <= t < nks.len() && nks[t] == c;
            let o = if t < j { t } else { t + 1 };
            assert(ks[o] == c);
            assert(o != j);
            assert(kid_ok(parents, kids, e, p as int, o));
            if kids[key as int].contains(c) {
                let u = choose|u: int| 0 <= u < kids[key as int].len() && kids[key as int][u] == c;
                assert(kid_ok(parents, kids, e, key as int, u));
            }
        }
        if ks.contains(c) && !d.contains(c as int) {
            let t = choose|t: int| 0 <= t < ks.len() && ks[t] == c;
            assert(t != j);
            if t < j {
                assert(nks[t] == c);
            } else {
                assert(nks[t - 1] == c);
            }
        }
    }
    assert forall|a: int, b: int| 0 <= a < b < nks.len() implies nks[a] != nks[b] by {
        let oa = if a < j { a } else { a + 1 };
        let ob = if b < j { b } else { b + 1 };
        assert(nks[a] == ks[oa] && nks[b] == ks[ob]);
    }
    assert(!d.contains(p as int)) by {
        if kids[key as int].contains(p) {
            let u = choose|u: int| 0 <= u < kids[key as int].len() && kids[key as int][u] == p;
            assert(kid_ok(parents, kids, e, key as int, u));
            assert(parent_ok(parents, kids, e, p as int));
        }
    }
    assert(!d.contains(0)) by {
        if kids[key as int].contains(0) {
            let u = choose|u: int| 0 <= u < kids[key as int].len() && kids[key as int][u] == 0;
            assert(kid_ok(parents, kids, e, key as int, u));
        }
    }
    lemma_detach(parents, kids, e, d, p as int, nks);
    assert(e.union(d) =~= d);
}

/// The facts about a branch `p` and its list of children `ks` that taking the `j`-th child out
/// relies on: the children are distinct nodes other than `p`.
pub open spec fn unlink_ok<B, L>(nodes: Seq<Node<B, L>>, p: usize, ks: Seq<usize>, j: int) -> bool {
    &&& p < nodes.len()
    &&& 0 <= j < ks.len()
    &&& ks.len() > 1
    &&& ks.no_duplicates()
    &&& forall|t: int| 0 <= t < ks.len() ==> #[trigger] ks[t] < nodes.len() && ks[t] != p
}

/// Which nodes taking the `j`-th child of `p` out of the list of siblings changes.
proof fn lemma_unlinked_node<B, L>(nodes: Seq<Node<B, L>>, p: usize, ks: Seq<usize>, j: int, x: int)
    requires
        unlink_ok(nodes, p, ks, j),
        0 <= x < nodes.len(),
    ensures
        unlinked(nodes, p, ks, j)[x].parent == nodes[x].parent,
        unlinked(nodes, p, ks, j)[x].value.value_spec() == nodes[x].value.value_spec() || x == p,
        x != p ==> unlinked(nodes, p, ks, j)[x].value == nodes[x].value,
        x != p && !names(prev_in(ks, j), x) && !names(next_in(ks, j), x) ==> unlinked(nodes, p, ks, j)[x] == nodes[x],
        x == p ==> unlinked(nodes, p, ks, j)[x].prev_sibling == nodes[x].prev_sibling
            && unlinked(nodes, p, ks, j)[x].next_sibling == nodes[x].next_sibling,
        names(prev_in(ks, j), x) ==> x != p && !names(next_in(ks, j), x)
            && unlinked(nodes, p, ks, j)[x].next_sibling == next_in(ks, j)
            && unlinked(nodes, p, ks, j)[x].prev_sibling == nodes[x].prev_sibling,
        names(next_in(ks, j), x) ==> x != p && !names(prev_in(ks, j), x)
            && unlinked(nodes, p, ks, j)[x].prev_sibling == prev_in(ks, j)
            && unlinked(nodes, p, ks, j)[x].next_sibling == nodes[x].next_sibling,
{
    if j > 0 {
        assert(ks[j - 1] != p);
    }
    if j + 1 < ks.len() {
        assert(ks[j + 1] != p);
    }
    if j > 0 && j + 1 < ks.len() {
        assert(ks[j - 1] != ks[j + 1]);
    }
}

/// The links of the branch whose `j`-th child is taken out agree with its shortened list of
/// children.
proof fn lemma_unlink_parent_links<B, L>(nodes: Seq<Node<B, L>>, p: usize, ks: Seq<usize>, j: int)
    requires
        unlink_ok(nodes, p, ks, j),
        links_ok(nodes, p as int, ks),
    ensures
        links_ok(unlinked(nodes, p, ks, j), p as int, ks.remove(j)),
{
    let d = unlinked(nodes, p, ks, j);
    let nks = ks.remove(j);
    assert(d[p as int] == unlinked_node(nodes, p, ks, j, p as int));
    assert forall|t: int| #![trigger nks[t]] 0 <= t < nks.len() implies d[nks[t] as int].prev_sibling == prev_in(nks, t)
        && d[nks[t] as int].next_sibling == next_in(nks, t) by {
        let o = if t < j { t } else { t + 1 };
        let x = ks[o] as int;
        assert(nks[t] == ks[o]);
        lemma_unlinked_node(nodes, p, ks, j, x);
        assert(nodes[x].prev_sibling == prev_in(ks, o));
        assert(nodes[x].next_sibling == next_in(ks, o));
        if t > 0 {
            let po = if t - 1 < j { t - 1 } else { t };
            assert(nks[t - 1] == ks[po]);
        }
        if t + 1 < nks.len() {
            let no = if t + 1 < j { t + 1 } else { t + 2 };
            assert(nks[t + 1] == ks[no]);
        }
        if names(prev_in(ks, j), x) {
            assert(ks[j - 1] == ks[o]);
            assert(o == j - 1);
        } else if names(next_in(ks, j), x) {
            assert(ks[j + 1] == ks[o]);
            assert(o == j + 1);
        } else {
            if o == j - 1 {
                assert(names(prev_in(ks, j), x));
            }
            if o == j + 1 {
                assert(names(next_in(ks, j), x));
            }
        }
    }
    if j == 0 {
        assert(nks[0] == ks[1]);
    } else {
        assert(nks[0] == ks[0]);
    }
    if j + 1 == ks.len() {
        assert(nks.last() == ks[j - 1]);
    } else {
        assert(nks.last() == ks.last());
    }
}

/// Taking the node `key`, which has siblings and whose children are leaves, out of the list of
/// children of its parent leaves it and its children pending.
pub proof fn lemma_unlink<B, L>(nodes: Seq<Node<B, L>>, kids: Seq<Seq<usize>>, key: usize, j: int)
    requires
        freeform_wf(nodes, kids),
        kids.len() == nodes.len(),
        key < nodes.len(),
        nodes[key as int].parent is Some,
        0 <= j < kids[nodes[key as int].parent->Some_0 as int].len(),
        kids[nodes[key as int].parent->Some_0 as int][j] == key,
        kids[nodes[key as int].parent->Some_0 as int].len() > 1,
        forall|t: int| 0 <= t < kids[key as int].len() ==> (#[trigger] kids[kids[key as int][t] as int]).len() == 0,
    ensures
        ({
            let p = nodes[key as int].parent->Some_0;
            let ks = kids[p as int];
            let d = unlinked(nodes, p, ks, j);
            &&& freeform_partial(d, kids.update(p as int, ks.remove(j)), family(kids, key))
            &&& d.len() == nodes.len()
            &&& parents_of(d) == parents_of(nodes)
            &&& values_of(d) == values_of(nodes)
            &&& unlink_ok(nodes, p, ks, j)
            &&& p < key
        }),
        forall|t: int| 0 <= t < kids[key as int].len() ==> key < #[trigger] kids[key as int][t] < nodes.len(),
{
    let parents = parents_of(nodes);
    let e = Set::<int>::empty();
    let p = nodes[key as int].parent->Some_0;
    let ks = kids[p as int];
    let nks = ks.remove(j);
    let kids1 = kids.update(p as int, nks);
    let fam = family(kids, key);
    assert(parents[key as int] == Some(p));
    lemma_detach_shape(parents, kids, key, p, j);
    assert(ks.no_duplicates());
    assert forall|t: int| 0 <= t < ks.len() implies #[trigger] ks[t] < nodes.len() && ks[t] != p by {
        assert(kid_ok(parents, kids, e, p as int, t));
        assert(parent_ok(parents, kids, e, ks[t] as int));
    }
    assert(unlink_ok(nodes, p, ks, j));
    let d = unlinked(nodes, p, ks, j);
    assert forall|x: int| 0 <= x < nodes.len() implies #[trigger] d[x].parent == nodes[x].parent
        && d[x].value.value_spec() == nodes[x].value.value_spec() by {
        lemma_unlinked_node(nodes, p, ks, j, x);
        assert(links_ok(nodes, p as int, ks));
    }
    assert(parents_of(d) =~= parents);
    assert(values_of(d) =~= values_of(nodes));
    assert(links_ok(nodes, p as int, ks));
    assert forall|i: int| 0 <= i < d.len() && !fam.contains(i) implies links_ok(d, i, #[trigger] kids1[i]) by {
        if i == p {
            lemma_unlink_parent_links(nodes, p, ks, j);
        } else {
            assert(links_ok(nodes, i, kids[i]));
            assert(kids1[i] == kids[i]);
            lemma_unlinked_node(nodes, p, ks, j, i);
            assert forall|t: int| #![trigger kids[i][t]] 0 <= t < kids[i].len() implies d[kids[i][t] as int].prev_sibling
                == prev_in(kids[i], t) && d[kids[i][t] as int].next_sibling == next_in(kids[i], t) by {
                assert(kid_ok(parents, kids, e, i, t));
                let c = kids[i][t];
                lemma_unlinked_node(nodes, p, ks, j, c as int);
                if names(prev_in(ks, j), c as int) {
                    assert(kid_ok(parents, kids, e, p as int, j - 1));
                }
                if names(next_in(ks, j), c as int) {
                    assert(kid_ok(parents, kids, e, p as int, j + 1));
                }
            }
        }
    }
    assert(d[0] == nodes[0] || p == 0) by {
        assert(parents[0] is None);
        lemma_unlinked_node(nodes, p, ks, j, 0);
        if names(prev_in(ks, j), 0) {
            assert(kid_ok(parents, kids, e, p as int, j - 1));
        }
        if names(next_in(ks, j), 0) {
            assert(kid_ok(parents, kids, e, p as int, j + 1));
        }
    }
    lemma_unlinked_node(nodes, p, ks, j, 0);
}

/// Taking the only child of the branch `p` away, while `p` becomes a leaf, leaves that child and
/// its children pending.
pub proof fn lemma_only_child<B, L>(nodes: Seq<Node<B, L>>, kids: Seq<Seq<usize>>, key: usize, payload: L)
    requires
        freeform_wf(nodes, kids),
        kids.len() == nodes.len(),
        key < nodes.len(),
        nodes[key as int].parent is Some,
        kids[nodes[key as int].parent->Some_0 as int].len() == 1,
        forall|t: int| 0 <= t < kids[key as int].len() ==> (#[trigger] kids[kids[key as int][t] as int]).len() == 0,
    ensures
        ({
            let p = nodes[key as int].parent->Some_0;
            let d = made_leaf(nodes, p, payload);
            &&& freeform_partial(d, kids.update(p as int, Seq::empty()), family(kids, key))
            &&& kids[p as int] == seq![key]
            &&& p < key
        }),
        forall|t: int| 0 <= t < kids[key as int].len() ==> key < #[trigger] kids[key as int][t] < nodes.len(),
{
    let parents = parents_of(nodes);
    let e = Set::<int>::empty();
    let p = nodes[key as int].parent->Some_0;
    let ks = kids[p as int];
    let fam = family(kids, key);
    assert(parents[key as int] == Some(p));
    assert(parent_ok(parents, kids, e, key as int)) by {
        if key == 0 {
            assert(parents[0] is None);
        }
    }
    assert(ks[0] == key);
    assert(ks =~= seq![key]);
    lemma_detach_shape(parents, kids, key, p, 0);
    assert(ks.remove(0) =~= Seq::<usize>::empty());
    let d = made_leaf(nodes, p, payload);
    let kids1 = kids.update(p as int, Seq::<usize>::empty());
    assert(parents_of(d) =~= parents);
    assert forall|i: int| 0 <= i < d.len() && !fam.contains(i) implies links_ok(d, i, #[trigger] kids1[i]) by {
        if i != p {
            assert(links_ok(nodes, i, kids[i]));
            assert(kids1[i] == kids[i]);
            assert forall|t: int| #![trigger kids[i][t]] 0 <= t < kids[i].len() implies d[kids[i][t] as int].prev_sibling
                == prev_in(kids[i], t) && d[kids[i][t] as int].next_sibling == next_in(kids[i], t) by {
                assert(kid_ok(parents, kids, e, i, t));
            }
        }
    }
}

} // verus!
