use vstd::prelude::*;
use core::marker::PhantomData;
use crate::{NodeValue, TryRemoveLeafError, TryRemoveBranchError, TryRemoveChildrenError};
use crate::shape::{shape_wf, parent_ok, kid_ok, parents_after_removal, kids_after_removal};
use crate::traversal::{
    VisitorMut, Traversable, TraversableMut, VisitorDirection, CursorResult, CursorDirectionError, recovered_cursor,
    advance_spec, parents_kept_below, kept_or_converted, children_after_siblings, values_kept_below,
    parents_kept_below_all, values_kept_below_all, is_first_branch_kid, all_leaves, without_kid,
    branch_removed_exactly, children_removed_exactly,
};
use super::survivors::{
    survives, siblings_kept, keeps_outside, prefix_kept, subtree_removed, below_removed, lemma_survivors_start,
    lemma_survivors_step, lemma_survivors_stop, lemma_fallback_step, lemma_fallback_stop,
};

verus! {

/// The node `c` is the node `a` or one of its descendants.
pub open spec fn descends(parents: Seq<Option<usize>>, c: usize, a: usize) -> bool
    decreases c,
{
    if c == a {
        true
    } else {
        match parents[c as int] {
            Some(p) => if p < c {
                descends(parents, p, a)
            } else {
                false
            },
            None => false,
        }
    }
}

/// A descendant of a node has a key no smaller than that of the node.
pub proof fn lemma_descends_after(parents: Seq<Option<usize>>, c: usize, a: usize)
    requires
        descends(parents, c, a),
    ensures
        a <= c,
    decreases c,
{
    if c != a {
        lemma_descends_after(parents, parents[c as int]->Some_0, a);
    }
}

/// Whether a node descends from another depends only on the parents of the nodes up to it.
pub proof fn lemma_descends_kept(
    old_parents: Seq<Option<usize>>,
    new_parents: Seq<Option<usize>>,
    c: usize,
    a: usize,
    bound: int,
)
    requires
        descends(old_parents, c, a),
        c < bound,
        c < old_parents.len(),
        parents_kept_below(old_parents, new_parents, bound),
    ensures
        descends(new_parents, c, a),
    decreases c,
{
    if c != a {
        assert(new_parents[c as int] == old_parents[c as int]);
        lemma_descends_kept(old_parents, new_parents, old_parents[c as int]->Some_0, a, bound);
    }
}

/// In a tree whose children come after all the siblings of their parent, the children of every
/// node below `pp`, other than `pp` itself, come after every child of `pp`.
pub proof fn lemma_kids_after_siblings(
    parents: Seq<Option<usize>>,
    kids: Seq<Seq<usize>>,
    pp: usize,
    x: usize,
    j: int,
    y: usize,
)
    requires
        shape_wf(parents, kids),
        children_after_siblings(parents, kids),
        x < parents.len(),
        descends(parents, x, pp),
        x != pp,
        0 <= j < kids[x as int].len(),
        kids[pp as int].contains(y),
    ensures
        kids[x as int][j] > y,
    decreases x,
{
    let q = parents[x as int]->Some_0;
    assert(parent_ok(parents, kids, Set::empty(), x as int));
    let k = kids[x as int][j];
    assert(kid_ok(parents, kids, Set::empty(), x as int, j));
    if q == pp {
        let i = choose|i: int| 0 <= i < kids[pp as int].len() && kids[pp as int][i] == y;
        assert(kids[x as int][j] > kids[q as int][i]);
    } else {
        let i = choose|i: int| 0 <= i < kids[q as int].len() && kids[q as int][i] == x;
        lemma_kids_after_siblings(parents, kids, pp, q, i, y);
        assert(parent_ok(parents, kids, Set::empty(), k as int));
    }
}

/// A recursive removal of the node `pivot` can go on from the node `c`.
///
/// The pivot is not the root. Where the traversable can remove individual children, the cursor is
/// at the pivot or one of its descendants; otherwise it is at the parent of the pivot or one of
/// its descendants, and at a leaf only if that leaf is the pivot.
pub open spec fn removal_state<T: TraversableMut>(t: &T, pivot: usize, c: usize) -> bool {
    &&& t.traversable_wf()
    &&& pivot < t.parents().len()
    &&& t.parents()[pivot as int] is Some
    &&& c < t.parents().len()
    &&& if T::can_remove_individual_children() {
        descends(t.parents(), c, pivot)
    } else {
        &&& descends(t.parents(), c, t.parents()[pivot as int]->Some_0)
        &&& (t.values()[c as int] is Leaf ==> c == pivot)
    }
}

/// 1 if the node `c` is a leaf, 0 otherwise.
pub open spec fn leaf_rank<T: Traversable>(t: &T, c: usize) -> int {
    if t.values()[c as int] is Leaf {
        1
    } else {
        0
    }
}

/// One step of a recursive removal of the node `pivot` from the node `c`, which turned `old_t`
/// into `new_t` and gave the direction `r`.
///
/// A step that stops hands out the payload that the pivot held before it; it removed nodes and
/// kept the parents of the nodes before the pivot (or, where individual children cannot be
/// removed, up to the parent of the pivot, which it turned into a leaf). Any other step keeps the
/// pivot and its parent, may only turn the pivot into a leaf with `f`, leaves a state from which
/// the removal can go on, and either removed nodes, left a leaf, or moved down the tree.
pub open spec fn removal_step<T: TraversableMut, F: Fn(T::Branch) -> T::Leaf>(
    old_t: &T,
    new_t: &T,
    pivot: usize,
    f: F,
    c: usize,
    r: VisitorDirection<usize, NodeValue<T::Branch, T::Leaf>>,
) -> bool {
    let old_len = old_t.parents().len();
    let new_len = new_t.parents().len();
    let pp = old_t.parents()[pivot as int]->Some_0;
    &&& new_len <= old_len
    &&& match r {
        VisitorDirection::Stop(v) => {
            &&& v == old_t.values()[pivot as int]
            &&& new_len < old_len
            &&& if T::can_remove_individual_children() {
                parents_kept_below(old_t.parents(), new_t.parents(), pivot as int)
            } else {
                &&& parents_kept_below(old_t.parents(), new_t.parents(), pp + 1)
                &&& new_t.values()[pp as int] is Leaf
            }
        },
        _ => {
            let next = advance_spec(new_t.parents(), new_t.kids(), c, r);
            &&& next is Ok
            &&& removal_state(new_t, pivot, next->Ok_0)
            &&& parents_kept_below(old_t.parents(), new_t.parents(), pivot + 1)
            &&& kept_or_converted(
                old_t.values()[pivot as int],
                new_t.values()[pivot as int],
                true,
                f,
            )
            &&& (new_len < old_len || leaf_rank(new_t, next->Ok_0) < leaf_rank(old_t, c) || (
            leaf_rank(new_t, next->Ok_0) == leaf_rank(old_t, c) && next->Ok_0 > c))
        },
    }
}

/// The traversables `a` and `b` hold the same nodes, links and payloads.
pub open spec fn unchanged<T: Traversable>(a: &T, b: &T) -> bool {
    &&& a.parents() == b.parents()
    &&& a.kids() == b.kids()
    &&& a.values() == b.values()
}

/// `new_t` is `old_t` with the leaf `c` removed and the keys after it renumbered, its parent
/// turned into a leaf by `f` if `c` was its only child; every other node keeps its parent, its
/// children in order and its payload.
pub open spec fn leaf_removed<T: TraversableMut, F: Fn(T::Branch) -> T::Leaf>(old_t: &T, new_t: &T, c: usize, f: &F) -> bool {
    let p = old_t.parents()[c as int]->Some_0;
    &&& new_t.parents().len() == old_t.parents().len() - 1
    &&& new_t.parents() == parents_after_removal(old_t.parents(), c)
    &&& new_t.kids() == kids_after_removal(without_kid(old_t.kids(), p, c), c)
    &&& new_t.values() == old_t.values().update(p as int, new_t.values()[p as int]).remove(c as int)
    &&& parents_kept_below(old_t.parents(), new_t.parents(), c as int)
    &&& values_kept_below(old_t.values(), new_t.values(), c as int, old_t.parents()[c as int]->Some_0 as int, f)
}

/// `new_t` is `old_t` with the branch `c` and its leaf children removed (and nothing else), its parent turned into a
/// leaf by `f` if `c` was its only child.
pub open spec fn branch_removed<T: TraversableMut, F: Fn(T::Branch) -> T::Leaf>(old_t: &T, new_t: &T, c: usize, f: &F) -> bool {
    &&& new_t.parents().len() == old_t.parents().len() - 1 - old_t.kids()[c as int].len()
    &&& parents_kept_below(old_t.parents(), new_t.parents(), c as int)
    &&& values_kept_below(old_t.values(), new_t.values(), c as int, old_t.parents()[c as int]->Some_0 as int, f)
    &&& branch_removed_exactly(old_t, new_t, c)
}

/// `new_t` is `old_t` with the leaf children of `c` removed (and nothing else) and `c` turned into
/// a leaf by `f`.
pub open spec fn children_removed<T: TraversableMut, F: Fn(T::Branch) -> T::Leaf>(old_t: &T, new_t: &T, c: usize, f: &F) -> bool {
    &&& new_t.parents().len() == old_t.parents().len() - old_t.kids()[c as int].len()
    &&& parents_kept_below_all(old_t.parents(), new_t.parents(), old_t.kids()[c as int])
    &&& values_kept_below_all(old_t.values(), new_t.values(), old_t.kids()[c as int], c as int, f)
    &&& new_t.values()[c as int] is Leaf
    &&& children_removed_exactly(old_t, new_t, c)
}

/// One visit of the recursive removal of `pivot` at the node `c`, which turned `old_t` into
/// `new_t` and gave the direction `r`.
///
/// A branch with a branch child is left as it is and the visit goes down to its first branch
/// child. Where individual children can be removed, a leaf is removed, and so is a branch whose
/// children are all leaves, together with them; the visit stops with the payload of the pivot if
/// it was among the removed nodes and goes to the parent of `c` otherwise. Where they cannot, a
/// leaf is left as it is and the visit goes to its parent; the leaf children of a branch are
/// removed, the branch becoming a leaf, and the visit stops with the payload of the pivot if it
/// was among them and goes up to the parent otherwise.
pub open spec fn removal_visit<T: TraversableMut, F: Fn(T::Branch) -> T::Leaf>(
    old_t: &T,
    new_t: &T,
    pivot: usize,
    f: F,
    c: usize,
    r: VisitorDirection<usize, NodeValue<T::Branch, T::Leaf>>,
) -> bool {
    let values = old_t.values();
    let kids = old_t.kids()[c as int];
    let parent = old_t.parents()[c as int]->Some_0;
    if values[c as int] is Leaf {
        if T::can_remove_individual_children() {
            &&& leaf_removed(old_t, new_t, c, &f)
            &&& r == if c == pivot {
                VisitorDirection::<usize, NodeValue<T::Branch, T::Leaf>>::Stop(values[c as int])
            } else {
                VisitorDirection::SetTo(parent)
            }
        } else {
            &&& unchanged(old_t, new_t)
            &&& r == VisitorDirection::<usize, NodeValue<T::Branch, T::Leaf>>::SetTo(parent)
        }
    } else if !all_leaves(values, kids) {
        &&& unchanged(old_t, new_t)
        &&& r matches VisitorDirection::Child(i) && is_first_branch_kid(values, kids, i as int)
    } else if T::can_remove_individual_children() {
        &&& branch_removed(old_t, new_t, c, &f)
        &&& r == if c == pivot || kids.contains(pivot) {
            VisitorDirection::<usize, NodeValue<T::Branch, T::Leaf>>::Stop(values[pivot as int])
        } else {
            VisitorDirection::SetTo(parent)
        }
    } else {
        &&& children_removed(old_t, new_t, c, &f)
        &&& r == if kids.contains(pivot) {
            VisitorDirection::<usize, NodeValue<T::Branch, T::Leaf>>::Stop(values[pivot as int])
        } else {
            VisitorDirection::Parent
        }
    }
}

/// The payload handed back by a whole recursive removal of the node `c` of `t`: the payload of a
/// leaf as it is; where individual children can be removed, the payload of a branch whose
/// children are all leaves as it is too; where they cannot, always a leaf payload.
pub open spec fn removal_result<T: TraversableMut>(t: &T, c: usize, r: NodeValue<T::Branch, T::Leaf>) -> bool {
    let value = t.values()[c as int];
    &&& value is Leaf ==> r == value
    &&& T::can_remove_individual_children() && value is Branch && all_leaves(t.values(), t.kids()[c as int]) ==> r == value
    &&& !T::can_remove_individual_children() ==> r is Leaf
}

/// A `VisitorMut` which recursively removes a node and all of its descendants, using a closure
/// to patch nodes which transition from having one child to having zero children.
///
/// See also the [`recursively_remove_with`] and [`recursively_remove`] functions, which create
/// and drive the visitor to completion on a traversable.
///
/// # Algorithm details
/// There are two variants of the algorithm, one which runs only if the traversable can remove
/// individual children and another which runs if it can't.
///
/// Here's how the first one runs:
/// - Start the cursor at the node to remove
/// - For every traversal step:
///     - If the node at the cursor is a leaf node:
///         - Remove the node immediately
///         - If the node removed was the target node, **end the traversal**, returning the value
///           of the just-removed node
///         - Otherwise, move the cursor to the parent node of the node which has just been
///           removed and **end traversal step, awaiting next iteration**
///     - If the node at the cursor is a branch node:
///         - Try to remove the node together with its children
///             - If it failed because there was a branch child node, move the cursor to that node
///               and **end traversal step, awaiting next iteration**
///             - Otherwise, if the branch node removed was the target node, **end the
///               traversal**, returning the value of the just-removed node
///             - Otherwise, if the target node was among the removed leaf nodes, **end the
///               traversal**, returning the required leaf node
///             - Otherwise, move the cursor to the parent node of the branch node which has just
///               been removed and **end traversal step, awaiting next iteration**
///
/// Here's how the fallback algorithm runs:
/// - Start the cursor at the node to remove
/// - For every traversal step:
///     - If the node at the cursor is a leaf node, move the cursor to the parent node of the node
///       and **end traversal step, awaiting next iteration**
///     - If the node at the cursor is a branch node:
///         - Try to remove the children of the branch node, turning it into leaf
///             - If it failed because there was a branch child node, move the cursor to that node
///               and **end traversal step, awaiting next iteration**
///             - Otherwise, if the target node was among the removed leaf nodes, **end the
///               traversal**, returning the required leaf node
///             - Otherwise, move the cursor to the parent node of the branch node and **end
///               traversal step, awaiting next iteration**
///
/// The root node cannot be removed: if all nodes in a tree need to be removed, it can just be
/// dropped instead.
#[derive(Debug)]
pub struct RecursiveRemovalWith<T: TraversableMut, F: Fn(T::Branch) -> T::Leaf> {
    pivot: usize,
    conversion: F,
    target: PhantomData<T>,
}

impl<T: TraversableMut, F: Fn(T::Branch) -> T::Leaf> RecursiveRemovalWith<T, F> {
    /// The node to remove.
    pub closed spec fn pivot(&self) -> usize {
        self.pivot
    }

    /// The closure patching nodes left without children.
    pub closed spec fn conversion(&self) -> F {
        self.conversion
    }

    /// Creates the visitor, removing the node at the specified cursor with the specified
    /// conversion closure.
    pub fn new(cursor: usize, f: F) -> (r: Self)
        ensures
            r.pivot() == cursor,
            r.conversion() == f,
    {
        RecursiveRemovalWith { pivot: cursor, conversion: f, target: PhantomData }
    }

    /// Returns the position of the pivot among the children of the node `c`, if it is there.
    fn pivot_among_children(&self, traversable: &T, c: usize) -> (r: Option<usize>)
        requires
            traversable.traversable_wf(),
            c < traversable.parents().len(),
        ensures
            match r {
                Some(i) => i < traversable.kids()[c as int].len() && traversable.kids()[c as int][i as int] == self.pivot,
                None => !traversable.kids()[c as int].contains(self.pivot),
            },
    {
        let num_children = traversable.num_children_of(&c);
        let mut i: usize = 0;
        while i < num_children
            invariant
                traversable.traversable_wf(),
                c < traversable.parents().len(),
                num_children == traversable.kids()[c as int].len(),
                i <= num_children,
                forall|j: int| 0 <= j < i ==> traversable.kids()[c as int][j] != self.pivot,
            decreases num_children - i,
        {
            if traversable.nth_child_of(&c, i) == Some(self.pivot) {
                return Some(i);
            }
            i = i + 1;
        }
        None
    }
}


/// Keeping the parents below two bounds in a row keeps them below any bound under both.
proof fn lemma_kept_below_trans(
    a: Seq<Option<usize>>,
    b: Seq<Option<usize>>,
    c: Seq<Option<usize>>,
    n: int,
    m: int,
    bound: int,
)
    requires
        parents_kept_below(a, b, n),
        parents_kept_below(b, c, m),
        bound <= n,
        bound <= m,
    ensures
        parents_kept_below(a, c, bound),
{
    assert forall|k: int| 0 <= k < bound && k < a.len() implies #[trigger] c[k] == a[k] by {
        assert(b[k] == a[k]);
        assert(c[k] == b[k]);
    }
}

/// The children of a node of a well-formed traversable come after it, name it as their parent,
/// and are branches exactly when they have children; a node is a branch exactly when it has
/// children.
proof fn lemma_kid<T: Traversable>(t: &T, c: usize, j: int)
    requires
        t.traversable_wf(),
        c < t.parents().len(),
        0 <= j < t.kids()[c as int].len(),
    ensures
        c < t.kids()[c as int][j] < t.parents().len(),
        t.parents()[t.kids()[c as int][j] as int] == Some(c),
{
    t.lemma_traversable_wf();
    let k = t.kids()[c as int][j];
    assert(kid_ok(t.parents(), t.kids(), Set::empty(), c as int, j));
    assert(parent_ok(t.parents(), t.kids(), Set::empty(), k as int));
}

/// The parent of a node of a well-formed traversable comes before it and is a branch listing it.
proof fn lemma_parent<T: Traversable>(t: &T, c: usize)
    requires
        t.traversable_wf(),
        c < t.parents().len(),
        t.parents()[c as int] is Some,
    ensures
        t.parents()[c as int]->Some_0 < c,
        t.kids()[t.parents()[c as int]->Some_0 as int].contains(c),
        t.values()[t.parents()[c as int]->Some_0 as int] is Branch,
{
    t.lemma_traversable_wf();
    let p = t.parents()[c as int]->Some_0;
    if c == 0 {
        assert(t.parents()[0] is None);
    }
    assert(parent_ok(t.parents(), t.kids(), Set::empty(), c as int));
    assert(t.kids()[p as int].len() > 0);
    assert(t.values()[p as int] is Branch);
}

impl<T: TraversableMut, F: Fn(T::Branch) -> T::Leaf> RecursiveRemovalWith<T, F> {
    /// Removes the leaf at `c`, where individual children can be removed.
    fn remove_leaf_step(&self, traversable: &mut T, c: usize) -> (r: VisitorDirection<
        usize,
        NodeValue<T::Branch, T::Leaf>,
    >)
        requires
            removal_state(&*old(traversable), self.pivot, c),
            T::can_remove_individual_children(),
            old(traversable).values()[c as int] is Leaf,
            forall|b: T::Branch| self.conversion.requires((b,)),
        ensures
            final(traversable).traversable_wf(),
            removal_step(&*old(traversable), &*final(traversable), self.pivot, self.conversion, c, r),
            r is SetTo || r is Stop,
            removal_visit(&*old(traversable), &*final(traversable), self.pivot, self.conversion, c, r),
    {
        let ghost pivot = self.pivot;
        let ghost old_parents = traversable.parents();
        proof {
            traversable.lemma_traversable_wf();
            lemma_descends_after(old_parents, c, pivot);
            if c != pivot {
                assert(old_parents[c as int] is Some);
            }
            lemma_parent(&*traversable, c);
        }
        let parent = traversable.parent_of(&c);
        match traversable.try_remove_leaf(&c, &self.conversion) {
            Ok(payload) => {
                if c == self.pivot {
                    VisitorDirection::Stop(NodeValue::Leaf(payload))
                } else {
                    match parent {
                        Some(p) => {
                            proof {
                                lemma_descends_after(old_parents, p, pivot);
                                lemma_descends_kept(old_parents, traversable.parents(), p, pivot, c as int);
                                assert(traversable.parents()[p as int] == old_parents[p as int]);
                                assert(traversable.parents()[pivot as int] == old_parents[pivot as int]);
                                assert(traversable.values()[pivot as int] == traversable.values()[pivot as int]);
                            }
                            VisitorDirection::SetTo(p)
                        },
                        None => vstd::pervasive::unreached(),
                    }
                }
            },
            Err(e) => {
                proof {
                    match e {
                        TryRemoveLeafError::WasRootNode => {},
                        TryRemoveLeafError::WasBranchNode => {},
                        TryRemoveLeafError::CannotRemoveIndividualChildren => {},
                    }
                }
                vstd::pervasive::unreached()
            },
        }
    }

    /// Removes the branch at `c` together with its children, where individual children can be
    /// removed; goes down to the first branch child if there is one.
    fn remove_branch_step(&self, traversable: &mut T, c: usize) -> (r: VisitorDirection<
        usize,
        NodeValue<T::Branch, T::Leaf>,
    >)
        requires
            removal_state(&*old(traversable), self.pivot, c),
            T::can_remove_individual_children(),
            old(traversable).values()[c as int] is Branch,
            forall|b: T::Branch| self.conversion.requires((b,)),
        ensures
            final(traversable).traversable_wf(),
            removal_step(&*old(traversable), &*final(traversable), self.pivot, self.conversion, c, r),
            r is Child ==> c < final(traversable).parents().len(),
            removal_visit(&*old(traversable), &*final(traversable), self.pivot, self.conversion, c, r),
            !(r is Parent || r is NextSibling),
    {
        let ghost pivot = self.pivot;
        let ghost old_parents = traversable.parents();
        proof {
            traversable.lemma_traversable_wf();
            lemma_descends_after(old_parents, c, pivot);
            if c != pivot {
                assert(old_parents[c as int] is Some);
            }
            lemma_parent(&*traversable, c);
        }
        let target = self.pivot_among_children(traversable, c);
        let parent = traversable.parent_of(&c);
        match traversable.try_remove_branch(&c, &self.conversion) {
            Ok((payload, children)) => {
                if c == self.pivot {
                    VisitorDirection::Stop(NodeValue::Branch(payload))
                } else {
                    match target {
                        Some(i) => {
                            proof {
                                lemma_kid(&*old(traversable), c, i as int);
                            }
                            let mut children = children;
                            VisitorDirection::Stop(NodeValue::Leaf(children.remove(i)))
                        },
                        None => match parent {
                            Some(p) => {
                                proof {
                                    lemma_descends_after(old_parents, p, pivot);
                                    lemma_descends_kept(old_parents, traversable.parents(), p, pivot, c as int);
                                    assert(traversable.parents()[p as int] == old_parents[p as int]);
                                    assert(traversable.parents()[pivot as int] == old_parents[pivot as int]);
                                    assert(traversable.values()[pivot as int] == traversable.values()[pivot as int]);
                                }
                                VisitorDirection::SetTo(p)
                            },
                            None => vstd::pervasive::unreached(),
                        },
                    }
                }
            },
            Err(TryRemoveBranchError::HadBranchChild(i)) => {
                proof {
                    lemma_kid(&*traversable, c, i as int);
                    let k = traversable.kids()[c as int][i as int];
                    assert(traversable.parents()[k as int] == Some(c));
                }
                VisitorDirection::Child(i)
            },
            Err(e) => {
                proof {
                    match e {
                        TryRemoveBranchError::WasRootNode => {},
                        TryRemoveBranchError::WasLeafNode => {},
                        TryRemoveBranchError::HadBranchChild(_) => {},
                        TryRemoveBranchError::CannotRemoveIndividualChildren => {},
                    }
                }
                vstd::pervasive::unreached()
            },
        }
    }

    /// Removes the children of the branch at `c`, where individual children cannot be removed;
    /// goes down to the first branch child if there is one.
    fn remove_children_step(&self, traversable: &mut T, c: usize) -> (r: VisitorDirection<
        usize,
        NodeValue<T::Branch, T::Leaf>,
    >)
        requires
            removal_state(&*old(traversable), self.pivot, c),
            !T::can_remove_individual_children(),
            old(traversable).values()[c as int] is Branch,
            forall|b: T::Branch| self.conversion.requires((b,)),
        ensures
            final(traversable).traversable_wf(),
            removal_step(&*old(traversable), &*final(traversable), self.pivot, self.conversion, c, r),
            (r is Child || r is Parent) ==> c < final(traversable).parents().len(),
            removal_visit(&*old(traversable), &*final(traversable), self.pivot, self.conversion, c, r),
            !(r is NextSibling),
    {
        let ghost pivot = self.pivot;
        let ghost old_parents = traversable.parents();
        let ghost old_kids = traversable.kids();
        let ghost pp = old_parents[pivot as int]->Some_0;
        proof {
            traversable.lemma_traversable_wf();
            traversable.lemma_children_after_siblings();
            lemma_parent(&*traversable, pivot);
        }
        let target = self.pivot_among_children(traversable, c);
        match traversable.try_remove_children(&c, &self.conversion) {
            Ok(children) => {
                match target {
                    Some(i) => {
                        proof {
                            lemma_kid(&*old(traversable), c, i as int);
                            assert forall|k: int| 0 <= k < pp + 1 && k < old_parents.len() implies #[trigger] traversable.parents()[k] == old_parents[k] by {
                                assert forall|j: int| 0 <= j < old_kids[c as int].len() implies k < #[trigger] old_kids[c as int][j] by {
                                    lemma_kid(&*old(traversable), c, j);
                                }
                            }
                            lemma_kid(&*old(traversable), c, 0);
                            assert(traversable.parents()[old_kids[c as int][0] as int] == traversable.parents()[old_kids[c as int][0] as int]);
                        }
                        let mut children = children;
                        let ghost old_values = old(traversable).values();
                        proof {
                            assert(old_kids[c as int][i as int] == pivot);
                            assert(old_values[pivot as int] is Leaf);
                            assert(children@[i as int] == old_values[old_kids[c as int][i as int] as int]->Leaf_0);
                        }
                        let x = children.remove(i);
                        proof {
                            assert(NodeValue::<T::Branch, T::Leaf>::Leaf(x) == old_values[pivot as int]);
                            assert(old_kids[c as int].contains(pivot));
                        }
                        proof {
                            assert(children_removed(&*old(traversable), &*traversable, c, &self.conversion));
                            assert(all_leaves(old_values, old_kids[c as int]));
                        }
                        VisitorDirection::Stop(NodeValue::Leaf(x))
                    },
                    None => {
                        proof {
                            self.lemma_climb_after_children(&*old(traversable), &*traversable, c);
                        }
                        proof {
                            assert(traversable.parents().len() < old(traversable).parents().len());
                            assert(parents_kept_below_all(old(traversable).parents(), traversable.parents(), old(traversable).kids()[c as int]));
                            assert(traversable.values()[c as int] is Leaf);
                            assert(children_removed(&*old(traversable), &*traversable, c, &self.conversion));
                        }
                        VisitorDirection::Parent
                    },
                }
            },
            Err(TryRemoveChildrenError::HadBranchChild(i)) => {
                proof {
                    lemma_kid(&*traversable, c, i as int);
                    let k = traversable.kids()[c as int][i as int];
                    lemma_descends_after(old_parents, c, pp);
                    assert(traversable.parents()[k as int] == Some(c));
                }
                VisitorDirection::Child(i)
            },
            Err(TryRemoveChildrenError::WasLeafNode) => vstd::pervasive::unreached(),
        }
    }

    /// After the children of a node other than the parent of the pivot have been removed, the
    /// removal can go on from the parent of that node.
    proof fn lemma_climb_after_children(&self, old_t: &T, new_t: &T, c: usize)
        requires
            removal_state(old_t, self.pivot, c),
            !T::can_remove_individual_children(),
            old_t.values()[c as int] is Branch,
            !old_t.kids()[c as int].contains(self.pivot),
            new_t.traversable_wf(),
            new_t.parents().len() < old_t.parents().len(),
            crate::traversal::parents_kept_below_all(old_t.parents(), new_t.parents(), old_t.kids()[c as int]),
            crate::traversal::values_kept_below_all(old_t.values(), new_t.values(), old_t.kids()[c as int], c as int, &self.conversion),
        ensures
            removal_step(old_t, new_t, self.pivot, self.conversion, c, VisitorDirection::Parent),
            c < new_t.parents().len(),
    {
        let pivot = self.pivot;
        let old_parents = old_t.parents();
        let old_kids = old_t.kids();
        let pp = old_parents[pivot as int]->Some_0;
        old_t.lemma_traversable_wf();
        new_t.lemma_traversable_wf();
        old_t.lemma_children_after_siblings();
        lemma_parent(old_t, pivot);
        assert(c != pp);
        assert(old_parents[c as int] is Some);
        lemma_parent(old_t, c);
        let q = old_parents[c as int]->Some_0;
        // Every key up to the pivot and up to `c` comes before all the removed children.
        assert forall|j: int| 0 <= j < old_kids[c as int].len() implies pivot < #[trigger] old_kids[c as int][j]
            && c < old_kids[c as int][j] by {
            lemma_kid(old_t, c, j);
            lemma_kids_after_siblings(old_parents, old_kids, pp, c, j, pivot);
        }
        let bound = if pivot < c { c + 1 } else { pivot + 1 };
        assert forall|k: int| 0 <= k < bound && k < old_parents.len() implies #[trigger] new_t.parents()[k] == old_parents[k] by {
            assert(forall|j: int| 0 <= j < old_kids[c as int].len() ==> k < #[trigger] old_kids[c as int][j]);
        }
        assert(new_t.parents()[c as int] == old_parents[c as int]);
        assert(new_t.parents()[pivot as int] == old_parents[pivot as int]);
        assert(parents_kept_below(old_parents, new_t.parents(), bound));
        lemma_descends_kept(old_parents, new_t.parents(), q, pp, bound);
        assert(new_t.parents()[c as int] == old_parents[c as int]);
        assert(new_t.parents()[pivot as int] == old_parents[pivot as int]);
        assert(forall|j: int| 0 <= j < old_kids[c as int].len() ==> q < #[trigger] old_kids[c as int][j]);
        assert(kept_or_converted(old_t.values()[q as int], new_t.values()[q as int], q == c, &self.conversion));
        assert(forall|j: int| 0 <= j < old_kids[c as int].len() ==> pivot < #[trigger] old_kids[c as int][j]);
        assert(kept_or_converted(old_t.values()[pivot as int], new_t.values()[pivot as int], pivot == c, &self.conversion));
    }

    /// Climbs from the pivot, a leaf, to its parent, where individual children cannot be removed.
    fn climb_step(&self, traversable: &T, c: usize) -> (r: VisitorDirection<
        usize,
        NodeValue<T::Branch, T::Leaf>,
    >)
        requires
            removal_state(traversable, self.pivot, c),
            !T::can_remove_individual_children(),
            traversable.values()[c as int] is Leaf,
        ensures
            removal_step(traversable, traversable, self.pivot, self.conversion, c, r),
            r is SetTo,
            removal_visit(traversable, traversable, self.pivot, self.conversion, c, r),
    {
        proof {
            lemma_parent(traversable, c);
        }
        match traversable.parent_of(&c) {
            Some(p) => VisitorDirection::SetTo(p),
            None => vstd::pervasive::unreached(),
        }
    }
}

impl<T: TraversableMut, F: Fn(T::Branch) -> T::Leaf> VisitorMut for RecursiveRemovalWith<T, F> {
    type Target = T;
    type Output = NodeValue<T::Branch, T::Leaf>;

    open spec fn visit_requires(&self, traversable: &T, cursor: CursorResult<usize>) -> bool {
        &&& removal_state(traversable, self.pivot(), recovered_cursor(cursor))
        &&& forall|b: T::Branch| self.conversion().requires((b,))
    }

    open spec fn visit_ensures(
        &self,
        after: &Self,
        before: &T,
        after_traversable: &T,
        cursor: CursorResult<usize>,
        direction: VisitorDirection<usize, NodeValue<T::Branch, T::Leaf>>,
    ) -> bool {
        &&& *after == *self
        &&& removal_visit(before, after_traversable, self.pivot(), self.conversion(), recovered_cursor(cursor), direction)
        &&& removal_step(before, after_traversable, self.pivot(), self.conversion(), recovered_cursor(cursor), direction)
    }

    fn visit_mut(&mut self, traversable: &mut T, cursor: CursorResult<usize>) -> (r: VisitorDirection<
        usize,
        NodeValue<T::Branch, T::Leaf>,
    >)
        ensures
            *final(self) == *old(self),
            removal_step(
                &*old(traversable),
                &*final(traversable),
                old(self).pivot(),
                old(self).conversion(),
                recovered_cursor(cursor),
                r,
            ),
            removal_visit(
                &*old(traversable),
                &*final(traversable),
                old(self).pivot(),
                old(self).conversion(),
                recovered_cursor(cursor),
                r,
            ),
    {
        // Recover from a cursor error: the removal never drives the cursor incorrectly, so the
        // last valid state is where it goes on from.
        let c = match cursor {
            Ok(c) => c,
            Err(e) => e.recover(),
        };
        proof {
            traversable.lemma_traversable_wf();
            assert forall|b: T::Branch| self.conversion.requires((b,)) by {
                assert(self.conversion().requires((b,)));
            }
        }
        let is_branch = match traversable.value_of(&c) {
            NodeValue::Branch(_) => true,
            NodeValue::Leaf(_) => false,
        };
        if T::can_remove_individual_children_exec() {
            if is_branch {
                self.remove_branch_step(traversable, c)
            } else {
                self.remove_leaf_step(traversable, c)
            }
        } else {
            if is_branch {
                self.remove_children_step(traversable, c)
            } else {
                self.climb_step(traversable, c)
            }
        }
    }
}

/// The payload of the pivot at the end of a removal is its payload at the start, or a leaf
/// payload made by `f` out of it, if the pivot was a branch.
proof fn lemma_kept_or_converted_trans<B, L, F: FnOnce(B) -> L>(
    a: NodeValue<B, L>,
    b: NodeValue<B, L>,
    c: NodeValue<B, L>,
    f: F,
)
    requires
        kept_or_converted(a, b, true, f),
        kept_or_converted(b, c, true, f),
    ensures
        kept_or_converted(a, c, true, f),
{
}

/// Recursively removes the specified node and all its descendants, using a closure to patch
/// nodes which transition from having one child to having zero children.
///
/// Returns the payload the node had when it was removed: its payload, or, if it was a branch
/// which lost all its children on the way, the leaf payload the closure made out of it.
///
/// Where the traversable cannot remove individual children, the parent of the node is turned
/// into a leaf, all its children and their descendants being removed.
///
/// See the [`RecursiveRemovalWith`] documentation for the details of the algorithm.
pub fn recursively_remove_with<T: TraversableMut, F: Fn(T::Branch) -> T::Leaf>(
    traversable: &mut T,
    cursor: usize,
    f: F,
) -> (r: NodeValue<T::Branch, T::Leaf>)
    requires
        old(traversable).traversable_wf(),
        cursor < old(traversable).parents().len(),
        old(traversable).parents()[cursor as int] is Some,
        forall|b: T::Branch| f.requires((b,)),
    ensures
        final(traversable).traversable_wf(),
        final(traversable).parents().len() < old(traversable).parents().len(),
        kept_or_converted(old(traversable).values()[cursor as int], r, true, f),
        removal_result(&*old(traversable), cursor, r),
        T::can_remove_individual_children() && old(traversable).values()[cursor as int] is Leaf ==> leaf_removed(
            &*old(traversable),
            &*final(traversable),
            cursor,
            &f,
        ),
        T::can_remove_individual_children() && old(traversable).values()[cursor as int] is Branch && all_leaves(
            old(traversable).values(),
            old(traversable).kids()[cursor as int],
        ) ==> branch_removed(&*old(traversable), &*final(traversable), cursor, &f),
        T::can_remove_individual_children() ==> subtree_removed(&*old(traversable), &*final(traversable), cursor, &f),
        !T::can_remove_individual_children() ==> below_removed(
            &*old(traversable),
            &*final(traversable),
            old(traversable).parents()[cursor as int]->Some_0,
            &f,
        ),
        if T::can_remove_individual_children() {
            parents_kept_below(old(traversable).parents(), final(traversable).parents(), cursor as int)
        } else {
            let pp = old(traversable).parents()[cursor as int]->Some_0;
            &&& parents_kept_below(old(traversable).parents(), final(traversable).parents(), pp + 1)
            &&& final(traversable).values()[pp as int] is Leaf
        },
{
    let ghost init = *traversable;
    let ghost init_parents = traversable.parents();
    let ghost init_values = traversable.values();
    let ghost mut started = false;
    let ghost pp = init_parents[cursor as int]->Some_0;
    let ghost mut alive: Seq<usize> = lemma_survivors_start(&*traversable, cursor, &f);
    proof {
        traversable.lemma_traversable_wf();
        lemma_parent(&*traversable, cursor);
        assert(descends(init_parents, pp, pp));
        assert(descends(init_parents, cursor, pp));
        assert(descends(init_parents, cursor, cursor));
    }
    let ghost mut kept: Seq<usize> = lemma_survivors_start(&*traversable, pp, &f);
    let mut visitor = RecursiveRemovalWith::new(cursor, f);
    let mut current: CursorResult<usize> = Ok(cursor);
    loop
        invariant
            visitor.pivot() == cursor,
            visitor.conversion() == f,
            forall|b: T::Branch| f.requires((b,)),
            current is Ok,
            removal_state(&*traversable, cursor, current->Ok_0),
            init_parents == old(traversable).parents(),
            init_values == old(traversable).values(),
            init_parents[cursor as int] == Some(pp),
            pp < cursor,
            cursor < init_parents.len(),
            init_values.len() == init_parents.len(),
            traversable.parents().len() <= init_parents.len(),
            parents_kept_below(init_parents, traversable.parents(), cursor + 1),
            kept_or_converted(init_values[cursor as int], traversable.values()[cursor as int], true, f),
            init == *old(traversable),
            !started ==> current == Ok::<usize, CursorDirectionError<usize>>(cursor) && unchanged(&init, &*traversable),
            started && T::can_remove_individual_children() ==> !(init_values[cursor as int] is Branch && all_leaves(
                init_values,
                init.kids()[cursor as int],
            )) && !(init_values[cursor as int] is Leaf),
            T::can_remove_individual_children() ==> {
                &&& survives(&init, &*traversable, alive, &f)
                &&& siblings_kept(&init, &*traversable, alive)
                &&& keeps_outside(init_parents, alive, cursor)
                &&& prefix_kept(alive, cursor)
            },
            !T::can_remove_individual_children() ==> {
                &&& survives(&init, &*traversable, kept, &f)
                &&& siblings_kept(&init, &*traversable, kept)
                &&& keeps_outside(init_parents, kept, pp)
                &&& prefix_kept(kept, pp)
            },
        decreases
            traversable.parents().len(),
            leaf_rank(&*traversable, current->Ok_0),
            traversable.parents().len() - current->Ok_0,
    {
        let ghost before = *traversable;
        let direction = visitor.visit_mut(traversable, current);
        proof {
            traversable.lemma_traversable_wf();
            before.lemma_traversable_wf();
        }
        match traversable.step_in_direction(current, direction) {
            crate::traversal::Step::End(v) => {
                proof {
                    assert(removal_step(&before, &*traversable, cursor, f, current->Ok_0, direction));
                    assert(direction is Stop);
                    assert(traversable.parents().len() < before.parents().len());
                    assert(v == before.values()[cursor as int]);
                    lemma_kept_or_converted_trans(init_values[cursor as int], before.values()[cursor as int], v, f);
                    assert(removal_visit(&before, &*traversable, cursor, f, current->Ok_0, direction));
                    if !T::can_remove_individual_children() {
                        let c = current->Ok_0;
                        let ks = before.kids()[c as int];
                        assert(ks.contains(cursor));
                        let j = choose|j: int| 0 <= j < ks.len() && ks[j] == cursor;
                        assert(before.values()[ks[j] as int] is Leaf);
                    }
                    if T::can_remove_individual_children() {
                        lemma_survivors_stop(&init, &before, &*traversable, alive, cursor, current->Ok_0, f, direction);
                        lemma_kept_below_trans(init_parents, before.parents(), traversable.parents(), cursor + 1, cursor as int, cursor as int);
                    } else {
                        assert(before.parents()[cursor as int] == init_parents[cursor as int]);
                        lemma_kept_below_trans(init_parents, before.parents(), traversable.parents(), cursor + 1, pp + 1, pp + 1);
                        lemma_fallback_stop(&init, &before, &*traversable, kept, cursor, pp, current->Ok_0, f, direction);
                    }
                }
                return v;
            },
            crate::traversal::Step::NextCursor(next) => {
                proof {
                    lemma_kept_or_converted_trans(
                        init_values[cursor as int],
                        before.values()[cursor as int],
                        traversable.values()[cursor as int],
                        f,
                    );
                    lemma_kept_below_trans(init_parents, before.parents(), traversable.parents(), cursor + 1, cursor + 1, cursor + 1);
                    assert(removal_visit(&before, &*traversable, cursor, f, current->Ok_0, direction));
                    if T::can_remove_individual_children() {
                        alive = lemma_survivors_step(&init, &before, &*traversable, alive, cursor, current->Ok_0, f, direction);
                    } else {
                        assert(before.parents()[cursor as int] == init_parents[cursor as int]);
                        kept = lemma_fallback_step(&init, &before, &*traversable, kept, cursor, pp, current->Ok_0, f, direction);
                    }
                    started = true;
                }
                current = next;
            },
        }
    }
}

/// Recursively removes the specified node and all its descendants. A parent node left without
/// children becomes a leaf keeping its payload, which is why *this function is only available
/// when the payload for leaf nodes and branch nodes is the same.*
pub fn recursively_remove<T: TraversableMut<Branch = <T as Traversable>::Leaf>>(
    traversable: &mut T,
    cursor: usize,
) -> (r: NodeValue<T::Leaf, T::Leaf>)
    requires
        old(traversable).traversable_wf(),
        cursor < old(traversable).parents().len(),
        old(traversable).parents()[cursor as int] is Some,
    ensures
        final(traversable).traversable_wf(),
        final(traversable).parents().len() < old(traversable).parents().len(),
        crate::node_value_inner(r) == crate::node_value_inner(old(traversable).values()[cursor as int]),
        removal_result(&*old(traversable), cursor, r),
        T::can_remove_individual_children() ==> subtree_removed(
            &*old(traversable),
            &*final(traversable),
            cursor,
            &keep_payload::<T::Leaf>,
        ),
        !T::can_remove_individual_children() ==> below_removed(
            &*old(traversable),
            &*final(traversable),
            old(traversable).parents()[cursor as int]->Some_0,
            &keep_payload::<T::Leaf>,
        ),
        if T::can_remove_individual_children() {
            parents_kept_below(old(traversable).parents(), final(traversable).parents(), cursor as int)
        } else {
            let pp = old(traversable).parents()[cursor as int]->Some_0;
            &&& parents_kept_below(old(traversable).parents(), final(traversable).parents(), pp + 1)
            &&& final(traversable).values()[pp as int] is Leaf
        },
{
    recursively_remove_with(traversable, cursor, keep_payload::<T::Leaf>)
}

/// Hands its argument back: the conversion [`recursively_remove`] applies to a parent left
/// without children, which keeps its payload as a leaf.
pub fn keep_payload<L>(payload: L) -> (l: L)
    ensures
        l == payload,
{
    payload
}

} // verus!
