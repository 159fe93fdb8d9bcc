//! Laws of moving a cursor around a traversable tree.
use vstd::prelude::*;
use crate::shape::{kid_ok, parent_ok};
use super::{
    Traversable, VisitorDirection, CursorDirectionError, advance_spec, position_of, all_leaves,
    children_removed_exactly, branch_removed_exactly, key_after_removals, count_below,
    lemma_values_without_at, lemma_parents_without_at, lemma_count_below_bound, lemma_values_without_len,
};
use crate::shape::{key_after_removal, optional_key_after_removal, keys_after_removal};
use super::{TraversableMut, kept_or_converted};
use super::algorithms::{leaf_removed, branch_removed, children_removed};
use super::algorithms::survivors::{lemma_kids_without_renumbered, lemma_kids_without_own};

verus! {

/// Going down to the `i`-th child of a node and then up to the parent comes back to that node.
pub proof fn law_child_then_parent<T: Traversable, V>(t: &T, c: usize, i: u32)
    requires
        t.traversable_wf(),
        c < t.parents().len(),
        i < t.kids()[c as int].len(),
    ensures
        ({
            let child = t.kids()[c as int][i as int];
            &&& advance_spec::<V>(t.parents(), t.kids(), c, VisitorDirection::Child(i)) == Ok::<
                usize,
                CursorDirectionError<usize>,
            >(child)
            &&& child < t.parents().len()
            &&& advance_spec::<V>(t.parents(), t.kids(), child, VisitorDirection::Parent) == Ok::<
                usize,
                CursorDirectionError<usize>,
            >(c)
        }),
{
    t.lemma_traversable_wf();
    assert(kid_ok(t.parents(), t.kids(), Set::empty(), c as int, i as int));
}

/// Going up from a node which is not the root and then down to the child at the position of
/// that node among the children of its parent comes back to that node.
pub proof fn law_parent_then_child<T: Traversable, V>(t: &T, c: usize)
    requires
        t.traversable_wf(),
        0 < c < t.parents().len(),
    ensures
        ({
            let p = t.parents()[c as int]->Some_0;
            let i = position_of(t.kids()[p as int], c);
            &&& advance_spec::<V>(t.parents(), t.kids(), c, VisitorDirection::Parent) == Ok::<
                usize,
                CursorDirectionError<usize>,
            >(p)
            &&& 0 <= i < t.kids()[p as int].len()
            &&& i <= u32::MAX ==> advance_spec::<V>(t.parents(), t.kids(), p, VisitorDirection::Child(i as u32))
                == Ok::<usize, CursorDirectionError<usize>>(c)
        }),
{
    t.lemma_traversable_wf();
    assert(parent_ok(t.parents(), t.kids(), Set::empty(), c as int));
}

/// Moving to the next sibling from the `i`-th child of a node reaches its `i + 1`-th child, and
/// fails from the last one.
pub proof fn law_next_sibling<T: Traversable, V>(t: &T, c: usize, i: int)
    requires
        t.traversable_wf(),
        c < t.parents().len(),
        0 <= i < t.kids()[c as int].len(),
    ensures
        ({
            let ks = t.kids()[c as int];
            &&& i + 1 < ks.len() ==> advance_spec::<V>(t.parents(), t.kids(), ks[i], VisitorDirection::NextSibling)
                == Ok::<usize, CursorDirectionError<usize>>(ks[i + 1])
            &&& i + 1 == ks.len() ==> advance_spec::<V>(t.parents(), t.kids(), ks[i], VisitorDirection::NextSibling)
                is Err
        }),
{
    t.lemma_traversable_wf();
    let ks = t.kids()[c as int];
    assert(kid_ok(t.parents(), t.kids(), Set::empty(), c as int, i));
    assert(ks.contains(ks[i]));
    let j = position_of(ks, ks[i]);
    assert(ks.no_duplicates());
    assert(j == i);
}

/// The nodes the leaf children `ks` of `c` leave, keys after removing `ks` renumbered: `c` and
/// its children are well placed in a well-formed traversable.
pub proof fn lemma_children_facts<T: Traversable>(t: &T, c: usize)
    requires
        t.traversable_wf(),
        c < t.parents().len(),
    ensures
        t.kids()[c as int].no_duplicates(),
        forall|i: int| 0 <= i < t.kids()[c as int].len() ==> c < #[trigger] t.kids()[c as int][i] < t.parents().len(),
        t.values().len() == t.parents().len(),
{
    t.lemma_traversable_wf();
    assert forall|i: int| 0 <= i < t.kids()[c as int].len() implies c < #[trigger] t.kids()[c as int][i] < t.parents().len() by {
        assert(kid_ok(t.parents(), t.kids(), Set::empty(), c as int, i));
        assert(parent_ok(t.parents(), t.kids(), Set::empty(), t.kids()[c as int][i] as int));
    }
}

/// A node whose parent is a leaf does not exist.
pub proof fn lemma_parent_is_branch<T: Traversable>(t: &T, k: usize)
    requires
        t.traversable_wf(),
        k < t.parents().len(),
        t.parents()[k as int] is Some,
    ensures
        t.values()[t.parents()[k as int]->Some_0 as int] is Branch,
        t.parents()[k as int]->Some_0 < k,
{
    t.lemma_traversable_wf();
    if k > 0 {
        assert(parent_ok(t.parents(), t.kids(), Set::empty(), k as int));
    } else {
        assert(kid_ok(t.parents(), t.kids(), Set::empty(), 0, 0) || true);
    }
    let q = t.parents()[k as int]->Some_0;
    assert(t.kids()[q as int].contains(k)) by {
        if k == 0 {
            assert(parent_ok(t.parents(), t.kids(), Set::empty(), 0) || t.parents()[0] is None);
        }
    }
    assert(t.kids()[q as int].len() > 0);
}

/// Removing the leaf children of a node keeps every other node, under its renumbered key: its
/// payload, and its parent and its list of children, renumbered the same way.
pub proof fn law_children_removal_keeps_other_nodes<T: Traversable>(old_t: &T, new_t: &T, c: usize, k: usize)
    requires
        old_t.traversable_wf(),
        c < old_t.parents().len(),
        all_leaves(old_t.values(), old_t.kids()[c as int]),
        children_removed_exactly(old_t, new_t, c),
        old_t.parents().len() <= usize::MAX,
        k < old_t.parents().len(),
        k != c,
        !old_t.kids()[c as int].contains(k),
    ensures
        ({
            let ks = old_t.kids()[c as int];
            let nk = key_after_removals(ks, k as int);
            &&& new_t.values()[nk] == old_t.values()[k as int]
            &&& new_t.parents()[nk] == match old_t.parents()[k as int] {
                Some(q) => Some(key_after_removals(ks, q as int) as usize),
                None => None,
            }
            &&& new_t.kids()[nk] == old_t.kids()[k as int].map_values(
                |x: usize| key_after_removals(ks, x as int) as usize,
            )
        }),
{
    let ks = old_t.kids()[c as int];
    old_t.lemma_traversable_wf();
    lemma_kids_without_renumbered(old_t.parents(), old_t.kids(), c, k);
    lemma_children_facts(old_t, c);
    lemma_values_without_at(old_t.values(), ks, k);
    if let Some(q) = old_t.parents()[k as int] {
        lemma_parent_is_branch(old_t, k);
        assert(!ks.contains(q)) by {
            if ks.contains(q) {
                let j = choose|j: int| 0 <= j < ks.len() && ks[j] == q;
                assert(old_t.values()[ks[j] as int] is Leaf);
            }
        }
    }
    lemma_parents_without_at(old_t.parents(), ks, k);
    let nk = key_after_removals(ks, k as int);
    if k > c {
        lemma_count_below_bound(ks, c + 1, k as int);
    } else {
        lemma_count_below_bound(ks, c + 1, c + 1);
        assert(count_below(ks, k as int) <= count_below(ks, c + 1)) by {
            lemma_count_below_mono(ks, k as int, c + 1);
        }
    }
    assert(nk != c);
    let w = crate::traversal::values_without(old_t.values(), ks);
    assert(new_t.values() == w.update(c as int, new_t.values()[c as int]));
    assert(0 <= nk < w.len());
    lemma_count_below_all(ks, old_t.parents().len() as int);
    lemma_count_below_bound(ks, c + 1, old_t.parents().len() as int);
    lemma_values_without_len(old_t.values(), ks);
    assert(c < w.len());
}

/// Removing a branch with its leaf children keeps every other node but its parent, under its
/// renumbered key: its payload, and its parent and its list of children, renumbered the same way.
pub proof fn law_branch_removal_keeps_other_nodes<T: Traversable>(old_t: &T, new_t: &T, c: usize, k: usize)
    requires
        old_t.traversable_wf(),
        c < old_t.parents().len(),
        old_t.parents()[c as int] is Some,
        all_leaves(old_t.values(), old_t.kids()[c as int]),
        branch_removed_exactly(old_t, new_t, c),
        old_t.parents().len() <= usize::MAX,
        k < old_t.parents().len(),
        k != c,
        k != old_t.parents()[c as int]->Some_0,
        !old_t.kids()[c as int].contains(k),
    ensures
        ({
            let ks = old_t.kids()[c as int];
            let nk = key_after_removals(ks.push(c), k as int);
            &&& new_t.values()[nk] == old_t.values()[k as int]
            &&& new_t.parents()[nk] == match old_t.parents()[k as int] {
                Some(q) => Some(key_after_removals(ks.push(c), q as int) as usize),
                None => None,
            }
            &&& new_t.kids()[nk] == old_t.kids()[k as int].map_values(
                |x: usize| key_after_removals(ks.push(c), x as int) as usize,
            )
        }),
{
    lemma_branch_kids_at(old_t, new_t, c, k);
    let ks = old_t.kids()[c as int];
    let p = old_t.parents()[c as int]->Some_0;
    lemma_children_facts(old_t, c);
    lemma_parent_is_branch(old_t, c);
    lemma_values_without_at(old_t.values(), ks, k);
    if let Some(q) = old_t.parents()[k as int] {
        lemma_parent_is_branch(old_t, k);
        assert(!ks.contains(q)) by {
            if ks.contains(q) {
                let j = choose|j: int| 0 <= j < ks.len() && ks[j] == q;
                assert(old_t.values()[ks[j] as int] is Leaf);
            }
        }
        assert(q != c) by {
            if q == c {
                old_t.lemma_traversable_wf();
                assert(parent_ok(old_t.parents(), old_t.kids(), Set::empty(), k as int));
            }
        }
        lemma_count_below_push(ks, c, q as int);
        if q > c {
            lemma_count_below_bound(ks, c + 1, q as int);
        } else {
            lemma_count_below_zero_below(ks, c, q as int);
        }
    }
    lemma_parents_without_at(old_t.parents(), ks, k);
    lemma_count_below_push(ks, c, k as int);
    if k > c {
        lemma_count_below_bound(ks, c + 1, k as int);
    } else {
        lemma_count_below_zero_below(ks, c, k as int);
    }
    lemma_values_without_len(old_t.values(), ks);
    lemma_count_below_all(ks, old_t.parents().len() as int);
    lemma_count_below_bound(ks, c + 1, old_t.parents().len() as int);
    let w = crate::traversal::values_without(old_t.values(), ks);
    let nk0 = key_after_removals(ks, k as int);
    assert(c < w.len() && p < c);
    let wu = w.update(p as int, new_t.values()[p as int]);
    assert(new_t.values() == wu.remove(c as int));
    if k < c {
        assert(nk0 == k);
        assert(new_t.values()[nk0] == wu[nk0]);
    } else {
        assert(nk0 > c);
        assert(new_t.values()[nk0 - 1] == wu[nk0]);
    }
    let pw = crate::traversal::parents_without(old_t.parents(), ks);
    assert(new_t.parents() == crate::shape::parents_after_removal(pw, c));
    assert(!ks.contains(c));
    assert(!ks.contains(p));
    lemma_count_below_zero_below(ks, c, c as int);
    lemma_parents_without_at(old_t.parents(), ks, c);
    assert(c < pw.len());
    if let Some(q) = old_t.parents()[k as int] {
        let nq = key_after_removals(ks, q as int);
        if q < c {
            assert(nq == q);
        } else {
            assert(nq > c);
        }
        if k < c {
            assert(new_t.parents()[nk0] == crate::shape::optional_key_after_removal(pw[nk0], c));
        } else {
            assert(new_t.parents()[nk0 - 1] == crate::shape::optional_key_after_removal(pw[nk0], c));
        }
    } else {
        if k < c {
            assert(new_t.parents()[nk0] == crate::shape::optional_key_after_removal(pw[nk0], c));
        } else {
            assert(new_t.parents()[nk0 - 1] == crate::shape::optional_key_after_removal(pw[nk0], c));
        }
    }
}

/// Renumbering a key for the removal of `ks` and then of `c`, which comes before all of them, is
/// renumbering it for the removal of all of them.
proof fn lemma_push_key(ks: Seq<usize>, c: usize, x: usize)
    requires
        ks.no_duplicates(),
        forall|i: int| 0 <= i < ks.len() ==> c < #[trigger] ks[i],
        !ks.contains(x),
        x != c,
    ensures
        0 <= key_after_removals(ks, x as int) <= x,
        x < c ==> key_after_removals(ks, x as int) == x,
        x > c ==> key_after_removals(ks, x as int) > c,
        key_after_removal(key_after_removals(ks, x as int) as usize, c) == key_after_removals(ks.push(c), x as int),
{
    lemma_count_below_push(ks, c, x as int);
    if x > c {
        lemma_count_below_bound(ks, c + 1, x as int);
    } else {
        lemma_count_below_zero_below(ks, c, x as int);
    }
}

/// After removing a branch `c` with its leaf children, a node `k` which is neither `c`, its parent
/// nor one of its children has, under its renumbered key, its list of children renumbered the
/// same way.
proof fn lemma_branch_kids_at<T: Traversable>(old_t: &T, new_t: &T, c: usize, k: usize)
    requires
        old_t.traversable_wf(),
        c < old_t.parents().len(),
        old_t.parents()[c as int] is Some,
        branch_removed_exactly(old_t, new_t, c),
        k < old_t.parents().len(),
        k != c,
        k != old_t.parents()[c as int]->Some_0,
        !old_t.kids()[c as int].contains(k),
    ensures
        new_t.kids()[key_after_removals(old_t.kids()[c as int].push(c), k as int)] == old_t.kids()[k as int].map_values(
            |x: usize| key_after_removals(old_t.kids()[c as int].push(c), x as int) as usize,
        ),
{
    old_t.lemma_traversable_wf();
    lemma_children_facts(old_t, c);
    let ks = old_t.kids()[c as int];
    let p = old_t.parents()[c as int]->Some_0;
    let len = old_t.parents().len() as int;
    lemma_kids_without_renumbered(old_t.parents(), old_t.kids(), c, k);
    let kw = crate::traversal::kids_without(old_t.kids(), c, ks);
    let i = key_after_removals(ks, k as int);
    assert(c != 0) by {
        assert(old_t.parents()[0] is None);
    }
    assert(parent_ok(old_t.parents(), old_t.kids(), Set::empty(), c as int));
    assert(p < c);
    lemma_push_key(ks, c, k);
    lemma_count_below_all(ks, len);
    lemma_count_below_bound(ks, c + 1, len);
    assert(c < kw.len());
    assert(i != p as int) by {
        if k > c {
            assert(i > c);
        } else {
            lemma_count_below_zero_below(ks, c, k as int);
        }
    }
    assert(i != c as int);
    let wk = crate::traversal::without_kid(kw, p, c);
    assert(wk[i] == kw[i]);
    let j = key_after_removals(ks.push(c), k as int);
    assert(new_t.kids() == crate::shape::kids_after_removal(wk, c));
    if i < c {
        assert(j == i);
        assert(wk.remove(c as int)[j] == wk[i]);
    } else {
        assert(j == i - 1);
        assert(wk.remove(c as int)[j] == wk[i]);
    }
    assert(new_t.kids()[j] == keys_after_removal(kw[i], c));
    let own = old_t.kids()[k as int];
    assert forall|s: int| 0 <= s < own.len() implies key_after_removal(
        key_after_removals(ks, #[trigger] own[s] as int) as usize,
        c,
    ) == key_after_removals(ks.push(c), own[s] as int) by {
        assert(kid_ok(old_t.parents(), old_t.kids(), Set::empty(), k as int, s));
        assert(!ks.contains(own[s])) by {
            if ks.contains(own[s]) {
                let t = choose|t: int| 0 <= t < ks.len() && ks[t] == own[s];
                assert(kid_ok(old_t.parents(), old_t.kids(), Set::empty(), c as int, t));
            }
        }
        lemma_push_key(ks, c, own[s]);
    }
    assert(keys_after_removal(own.map_values(|x: usize| key_after_removals(ks, x as int) as usize), c) =~= own.map_values(
        |x: usize| key_after_removals(ks.push(c), x as int) as usize,
    ));
}

/// Removing a branch `c` with its leaf children changes its parent `p` only as far as it must:
/// `c` leaves the list of children of `p`, the other children keep their order (renumbered), and
/// `p` keeps its payload while it has children left, or, when `c` was its only child, becomes a
/// leaf holding the payload `f` makes out of its branch payload.
pub proof fn law_branch_removal_updates_parent<T: TraversableMut, F: Fn(T::Branch) -> T::Leaf>(
    old_t: &T,
    new_t: &T,
    c: usize,
    f: F,
)
    requires
        old_t.traversable_wf(),
        new_t.traversable_wf(),
        c < old_t.parents().len(),
        old_t.parents()[c as int] is Some,
        all_leaves(old_t.values(), old_t.kids()[c as int]),
        branch_removed(old_t, new_t, c, &f),
    ensures
        ({
            let ks = old_t.kids()[c as int];
            let p = old_t.parents()[c as int]->Some_0;
            let pk = old_t.kids()[p as int];
            &&& p < c
            &&& new_t.kids()[p as int] == pk.remove(position_of(pk, c)).map_values(
                |x: usize| key_after_removals(ks.push(c), x as int) as usize,
            )
            &&& pk.len() > 1 ==> new_t.values()[p as int] == old_t.values()[p as int]
            &&& pk.len() == 1 ==> new_t.values()[p as int] is Leaf && f.ensures(
                (old_t.values()[p as int]->Branch_0,),
                new_t.values()[p as int]->Leaf_0,
            )
        }),
{
    old_t.lemma_traversable_wf();
    new_t.lemma_traversable_wf();
    lemma_children_facts(old_t, c);
    let ks = old_t.kids()[c as int];
    let p = old_t.parents()[c as int]->Some_0;
    let pk = old_t.kids()[p as int];
    let len = old_t.parents().len() as int;
    assert(c != 0) by {
        assert(old_t.parents()[0] is None);
    }
    assert(parent_ok(old_t.parents(), old_t.kids(), Set::empty(), c as int));
    assert(!ks.contains(p));
    lemma_kids_without_renumbered(old_t.parents(), old_t.kids(), c, p);
    lemma_count_below_zero_below(ks, c, p as int);
    lemma_count_below_zero_below(ks, c, c as int);
    let kw = crate::traversal::kids_without(old_t.kids(), c, ks);
    let m = pk.map_values(|x: usize| key_after_removals(ks, x as int) as usize);
    assert(kw[p as int] == m);
    assert(pk.no_duplicates());
    let i0 = position_of(pk, c);
    assert(0 <= i0 < pk.len() && pk[i0] == c);
    // Every other child of `p` is outside `ks`, not `c`, and stays apart from `c` when renumbered.
    assert forall|t: int| 0 <= t < pk.len() && t != i0 implies #[trigger] pk[t] != c && !ks.contains(pk[t])
        && key_after_removal(key_after_removals(ks, pk[t] as int) as usize, c) == key_after_removals(
        ks.push(c),
        pk[t] as int,
    ) && key_after_removals(ks, pk[t] as int) != c by {
        assert(kid_ok(old_t.parents(), old_t.kids(), Set::empty(), p as int, t));
        assert(!ks.contains(pk[t])) by {
            if ks.contains(pk[t]) {
                let u = choose|u: int| 0 <= u < ks.len() && ks[u] == pk[t];
                assert(kid_ok(old_t.parents(), old_t.kids(), Set::empty(), c as int, u));
            }
        }
        lemma_push_key(ks, c, pk[t]);
    }
    assert(m[i0] == c);
    assert(position_of(m, c) == i0) by {
        assert(m.contains(c));
        let j = position_of(m, c);
        assert(0 <= j < m.len() && m[j] == c);
        if j != i0 {
            assert(m[j] == key_after_removals(ks, pk[j] as int) as usize);
            lemma_push_key(ks, c, pk[j]);
        }
    }
    let wk = crate::traversal::without_kid(kw, p, c);
    assert(wk[p as int] == m.remove(i0));
    assert(new_t.kids() == crate::shape::kids_after_removal(wk, c));
    assert(new_t.kids()[p as int] == keys_after_removal(wk[p as int], c));
    assert(keys_after_removal(m.remove(i0), c) =~= pk.remove(i0).map_values(
        |x: usize| key_after_removals(ks.push(c), x as int) as usize,
    )) by {
        assert forall|t: int| 0 <= t < pk.len() - 1 implies keys_after_removal(m.remove(i0), c)[t]
            == pk.remove(i0).map_values(|x: usize| key_after_removals(ks.push(c), x as int) as usize)[t] by {
            if t < i0 {
                assert(pk[t] == pk.remove(i0)[t]);
            } else {
                assert(pk[t + 1] == pk.remove(i0)[t]);
            }
        }
    }
    assert(crate::traversal::values_kept_below(old_t.values(), new_t.values(), c as int, p as int, &f));
    assert(kept_or_converted(old_t.values()[p as int], new_t.values()[p as int], true, &f));
    assert(old_t.values()[p as int] is Branch);
    assert(new_t.kids()[p as int].len() == pk.len() - 1);
    assert(new_t.values()[p as int] is Branch <==> new_t.kids()[p as int].len() > 0);
}

/// Removing a leaf `c` changes its parent `p` only as far as it must: `c` leaves the list of
/// children of `p`, the other children keep their order (renumbered), and `p` keeps its payload
/// while it has children left, or, when `c` was its only child, becomes a leaf holding the payload
/// `f` makes out of its branch payload.
pub proof fn law_leaf_removal_updates_parent<T: TraversableMut, F: Fn(T::Branch) -> T::Leaf>(
    old_t: &T,
    new_t: &T,
    c: usize,
    f: F,
)
    requires
        old_t.traversable_wf(),
        new_t.traversable_wf(),
        c < old_t.parents().len(),
        old_t.parents()[c as int] is Some,
        leaf_removed(old_t, new_t, c, &f),
    ensures
        ({
            let p = old_t.parents()[c as int]->Some_0;
            let pk = old_t.kids()[p as int];
            &&& p < c
            &&& new_t.kids()[p as int] == keys_after_removal(pk.remove(position_of(pk, c)), c)
            &&& pk.len() > 1 ==> new_t.values()[p as int] == old_t.values()[p as int]
            &&& pk.len() == 1 ==> new_t.values()[p as int] is Leaf && f.ensures(
                (old_t.values()[p as int]->Branch_0,),
                new_t.values()[p as int]->Leaf_0,
            )
        }),
{
    old_t.lemma_traversable_wf();
    new_t.lemma_traversable_wf();
    let p = old_t.parents()[c as int]->Some_0;
    let pk = old_t.kids()[p as int];
    assert(c != 0) by {
        assert(old_t.parents()[0] is None);
    }
    assert(parent_ok(old_t.parents(), old_t.kids(), Set::empty(), c as int));
    let wk = crate::traversal::without_kid(old_t.kids(), p, c);
    assert(new_t.kids()[p as int] == keys_after_removal(wk[p as int], c));
    assert(pk.contains(c));
    assert(crate::traversal::values_kept_below(old_t.values(), new_t.values(), c as int, p as int, &f));
    assert(kept_or_converted(old_t.values()[p as int], new_t.values()[p as int], true, &f));
    assert(old_t.values()[p as int] is Branch);
    assert(new_t.kids()[p as int].len() == pk.len() - 1);
    assert(new_t.values()[p as int] is Branch <==> new_t.kids()[p as int].len() > 0);
}

/// Removing the leaf children of a branch `c` leaves `c` itself under its key, without children,
/// as a leaf holding the payload `f` makes out of its branch payload.
pub proof fn law_children_removal_turns_node_into_leaf<T: TraversableMut, F: Fn(T::Branch) -> T::Leaf>(
    old_t: &T,
    new_t: &T,
    c: usize,
    f: F,
)
    requires
        old_t.traversable_wf(),
        c < old_t.parents().len(),
        old_t.values()[c as int] is Branch,
        all_leaves(old_t.values(), old_t.kids()[c as int]),
        children_removed(old_t, new_t, c, &f),
    ensures
        c < new_t.parents().len(),
        new_t.kids()[c as int] == Seq::<usize>::empty(),
        new_t.values()[c as int] is Leaf,
        f.ensures((old_t.values()[c as int]->Branch_0,), new_t.values()[c as int]->Leaf_0),
{
    lemma_children_facts(old_t, c);
    old_t.lemma_traversable_wf();
    let ks = old_t.kids()[c as int];
    lemma_kids_without_own(old_t.kids(), c, ks);
    lemma_count_below_all(ks, old_t.parents().len() as int);
    lemma_count_below_bound(ks, c + 1, old_t.parents().len() as int);
    assert(old_t.values()[c as int] is Branch);
    assert(kept_or_converted(old_t.values()[c as int], new_t.values()[c as int], true, &f)) by {
        assert forall|j: int| 0 <= j < ks.len() implies c < #[trigger] ks[j] by {}
    }
}

/// Keys at or below `c`, with every key of `ks` above `c`, have none of `ks` before them.
proof fn lemma_count_below_zero_below(ks: Seq<usize>, c: usize, k: int)
    requires
        forall|i: int| 0 <= i < ks.len() ==> c < #[trigger] ks[i],
        k <= c,
    ensures
        count_below(ks, k) == 0,
    decreases ks.len(),
{
    if ks.len() > 0 {
        let t = ks.drop_first();
        assert forall|i: int| 0 <= i < t.len() implies c < #[trigger] t[i] by {
            assert(t[i] == ks[i + 1]);
        }
        lemma_count_below_zero_below(t, c, k);
    }
}

/// All the keys come before a key above them all.
pub proof fn lemma_count_below_all(ks: Seq<usize>, k: int)
    requires
        forall|i: int| 0 <= i < ks.len() ==> #[trigger] ks[i] < k,
    ensures
        count_below(ks, k) == ks.len(),
    decreases ks.len(),
{
    if ks.len() > 0 {
        let t = ks.drop_first();
        assert forall|i: int| 0 <= i < t.len() implies #[trigger] t[i] < k by {
            assert(t[i] == ks[i + 1]);
        }
        lemma_count_below_all(t, k);
    }
}

/// More keys come before a larger key.
proof fn lemma_count_below_mono(ks: Seq<usize>, a: int, b: int)
    requires
        a <= b,
    ensures
        count_below(ks, a) <= count_below(ks, b),
    decreases ks.len(),
{
    if ks.len() > 0 {
        lemma_count_below_mono(ks.drop_first(), a, b);
    }
}

/// Counting the keys `ks` and then `c` before `k`.
proof fn lemma_count_below_push(ks: Seq<usize>, c: usize, k: int)
    ensures
        count_below(ks.push(c), k) == count_below(ks, k) + (if c < k { 1nat } else { 0nat }),
    decreases ks.len(),
{
    if ks.len() > 0 {
        assert(ks.push(c).drop_first() =~= ks.drop_first().push(c));
        assert(ks.push(c)[0] == ks[0]);
        lemma_count_below_push(ks.drop_first(), c, k);
    } else {
        assert(ks.push(c).drop_first() =~= Seq::<usize>::empty());
        assert(ks.push(c)[0] == c);
        reveal_with_fuel(count_below, 2);
    }
}

/// Removing a leaf, on its own or as the whole of a recursive removal, keeps every node but the
/// leaf and its parent, under its renumbered key: its payload, and its parent and its list of
/// children, renumbered the same way; the tree loses that one node.
pub proof fn law_leaf_removal_keeps_other_nodes<T: TraversableMut, F: Fn(T::Branch) -> T::Leaf>(
    old_t: &T,
    new_t: &T,
    c: usize,
    f: F,
    k: usize,
)
    requires
        old_t.traversable_wf(),
        c < old_t.parents().len(),
        old_t.parents()[c as int] is Some,
        leaf_removed(old_t, new_t, c, &f),
        k < old_t.parents().len(),
        k != c,
        k != old_t.parents()[c as int]->Some_0,
    ensures
        new_t.parents().len() == old_t.parents().len() - 1,
        new_t.values()[key_after_removal(k, c) as int] == old_t.values()[k as int],
        new_t.parents()[key_after_removal(k, c) as int] == optional_key_after_removal(old_t.parents()[k as int], c),
        new_t.kids()[key_after_removal(k, c) as int] == keys_after_removal(old_t.kids()[k as int], c),
{
    old_t.lemma_traversable_wf();
    let p = old_t.parents()[c as int]->Some_0;
    let i = key_after_removal(k, c) as int;
    let vu = old_t.values().update(p as int, new_t.values()[p as int]);
    assert(new_t.values() == vu.remove(c as int));
    let wk = crate::traversal::without_kid(old_t.kids(), p, c);
    assert(wk[k as int] == old_t.kids()[k as int]);
    if k < c {
        assert(new_t.values()[i] == vu[k as int]);
        assert(wk.remove(c as int)[i] == wk[k as int]);
    } else {
        assert(new_t.values()[i] == vu[k as int]);
        assert(wk.remove(c as int)[i] == wk[k as int]);
    }
}

} // verus!
